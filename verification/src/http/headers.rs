//! Header fields, in the order in which they came.

use vstd::prelude::*;
use vstd::string::*;

verus! {

/// The bytes of a field's name and of its value.
pub type FieldView = (Seq<u8>, Seq<u8>);

#[derive(Debug)]
pub struct Headers<'b> {
    entries: Vec<(&'b str, &'b [u8])>,
}

impl<'b> View for Headers<'b> {
    type V = Seq<FieldView>;

    closed spec fn view(&self) -> Seq<FieldView> {
        self.entries@.map_values(|e: (&'b str, &'b [u8])| (e.0.spec_bytes(), e.1@))
    }
}

impl<'b> Headers<'b> {
    pub fn new() -> (r: Self)
        ensures
            r@ == Seq::<FieldView>::empty(),
    {
        let r = Headers { entries: Vec::new() };
        assert(r@ =~= Seq::<FieldView>::empty());
        r
    }

    /// Adds a field behind the ones that are there; a name may come more than once.
    pub fn add(&mut self, name: &'b str, value: &'b [u8])
        ensures
            final(self)@ == old(self)@.push((name.spec_bytes(), value@)),
    {
        self.entries.push((name, value));
        assert(self@ =~= old(self)@.push((name.spec_bytes(), value@)));
    }

    /// The number of fields.
    pub fn len(&self) -> (r: usize)
        ensures
            r == self@.len(),
    {
        self.entries.len()
    }

    /// The name and the value of field number `i`.
    pub fn field(&self, i: usize) -> (r: Option<(&'b str, &'b [u8])>)
        ensures
            match r {
                Some((name, value)) => i < self@.len() && (name.spec_bytes(), value@) == self@[i as int],
                None => i >= self@.len(),
            },
    {
        if i < self.entries.len() {
            Some((self.entries[i].0, self.entries[i].1))
        } else {
            None
        }
    }
}

} // verus!
