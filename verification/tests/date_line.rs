use khttp::date::{
    after_coarse, format_http_date, get_date_from_secs, get_date_now, get_date_now_uncached, now_unix_sec,
    ClockStep, DateCache,
};

#[test]
fn epoch_is_a_thursday() {
    assert_eq!(&get_date_from_secs(0), b"date: Thu, 01 Jan 1970 00:00:00 GMT\r\n");
}

#[test]
fn a_sunday_morning() {
    assert_eq!(&get_date_from_secs(784111777), b"date: Sun, 06 Nov 1994 08:49:37 GMT\r\n");
}

#[test]
fn second_before_the_epoch() {
    assert_eq!(&get_date_from_secs(-1), b"date: Wed, 31 Dec 1969 23:59:59 GMT\r\n");
}

#[test]
fn leap_days() {
    assert_eq!(&get_date_from_secs(951782400), b"date: Tue, 29 Feb 2000 00:00:00 GMT\r\n");
    assert_eq!(&get_date_from_secs(951868800), b"date: Wed, 01 Mar 2000 00:00:00 GMT\r\n");
    assert_eq!(&get_date_from_secs(1709164800), b"date: Thu, 29 Feb 2024 00:00:00 GMT\r\n");
    assert_eq!(&get_date_from_secs(4107542399), b"date: Sun, 28 Feb 2100 23:59:59 GMT\r\n");
    assert_eq!(&get_date_from_secs(4107542400), b"date: Mon, 01 Mar 2100 00:00:00 GMT\r\n");
}

#[test]
fn end_of_a_year() {
    assert_eq!(&get_date_from_secs(1735689599), b"date: Tue, 31 Dec 2024 23:59:59 GMT\r\n");
    assert_eq!(&get_date_from_secs(1735689600), b"date: Wed, 01 Jan 2025 00:00:00 GMT\r\n");
}

#[test]
fn greatest_second_of_32_bits() {
    assert_eq!(&get_date_from_secs(2147483647), b"date: Tue, 19 Jan 2038 03:14:07 GMT\r\n");
}

#[test]
fn year_past_four_digits() {
    assert_eq!(&get_date_from_secs(253402300799), b"date: Fri, 31 Dec 9999 23:59:59 GMT\r\n");
    assert_eq!(&get_date_from_secs(253402300800), b"date: Sat, 01 Jan :000 00:00:00 GMT\r\n");
}

#[test]
fn extreme_seconds_have_a_line() {
    for secs in [i64::MIN, i64::MIN + 1, i64::MAX - 1, i64::MAX] {
        let line = get_date_from_secs(secs);
        assert_eq!(&line[..6], b"date: ");
        assert_eq!(&line[31..], b" GMT\r\n");
    }
}

#[test]
fn successive_days() {
    let names = ["Mon", "Tue", "Wed", "Thu", "Fri", "Sat", "Sun"];
    for day in 0..800i64 {
        let line = get_date_from_secs(day * 86400);
        let name = names[((day + 3) % 7) as usize];
        assert_eq!(&line[6..9], name.as_bytes());
    }
}

#[test]
fn cache_gives_the_line_of_each_second() {
    let mut cache = DateCache::new();
    assert_eq!(cache.line_at(0), get_date_from_secs(0));
    assert_eq!(cache.line_at(0), get_date_from_secs(0));
    assert_eq!(cache.line_at(784111777), get_date_from_secs(784111777));
    assert_eq!(cache.line_at(-1), get_date_from_secs(-1));
    assert_eq!(cache.line_at(0), get_date_from_secs(0));
}

#[test]
fn fresh_cache_holds_the_template() {
    let mut cache = DateCache::new();
    assert_eq!(&cache.line_at(i64::MIN), b"date: Mon, 00 Jan 0000 00:00:00 GMT\r\n");
}

#[test]
fn plain_clock_counts_where_the_coarse_one_fails() {
    assert_eq!(now_unix_sec(Some(5), 9), 5);
    assert_eq!(now_unix_sec(Some(-5), 9), -5);
    assert_eq!(now_unix_sec(None, 9), 9);
}

#[test]
fn plain_clock_is_read_only_where_it_counts() {
    assert_eq!(after_coarse(Some(5)), ClockStep::Known(5));
    assert_eq!(after_coarse(None), ClockStep::ReadPlain);
}

#[test]
fn line_of_the_current_second() {
    let mut cache = DateCache::new();
    assert_eq!(&get_date_now(&mut cache, Some(784111777), 0), b"date: Sun, 06 Nov 1994 08:49:37 GMT\r\n");
    assert_eq!(&get_date_now(&mut cache, None, 784111777), b"date: Sun, 06 Nov 1994 08:49:37 GMT\r\n");
    assert_eq!(&get_date_now(&mut cache, None, 0), b"date: Thu, 01 Jan 1970 00:00:00 GMT\r\n");
    assert_eq!(&get_date_now_uncached(Some(784111777), 0), b"date: Sun, 06 Nov 1994 08:49:37 GMT\r\n");
    assert_eq!(&get_date_now_uncached(None, 0), b"date: Thu, 01 Jan 1970 00:00:00 GMT\r\n");
}

#[test]
fn only_the_fields_are_written() {
    let line = get_date_from_secs(784111777);
    for fill in [0u8, b'x'] {
        let mut buf = [fill; 37];
        format_http_date(&mut buf, 784111777);
        for (i, byte) in buf.iter().enumerate() {
            let in_field = matches!(i, 6..=8 | 11..=12 | 14..=16 | 18..=21 | 23..=24 | 26..=27 | 29..=30);
            assert_eq!(*byte, if in_field { line[i] } else { fill });
        }
    }
}
