//! Request methods.

use vstd::prelude::*;
use vstd::utf8::*;

verus! {

#[derive(Debug, Clone, PartialEq, Eq)]
pub enum Method {
    Get,
    Post,
    Head,
    Put,
    Patch,
    Delete,
    Options,
    Trace,
    Custom(String),
}

/// A method, a custom one being known by its bytes.
pub enum MethodView {
    Get,
    Post,
    Head,
    Put,
    Patch,
    Delete,
    Options,
    Trace,
    Custom(Seq<u8>),
}

impl View for Method {
    type V = MethodView;

    open spec fn view(&self) -> MethodView {
        match self {
            Method::Get => MethodView::Get,
            Method::Post => MethodView::Post,
            Method::Head => MethodView::Head,
            Method::Put => MethodView::Put,
            Method::Patch => MethodView::Patch,
            Method::Delete => MethodView::Delete,
            Method::Options => MethodView::Options,
            Method::Trace => MethodView::Trace,
            Method::Custom(name) => MethodView::Custom(encode_utf8(name@)),
        }
    }
}

} // verus!
