use vstd::prelude::*;
use crate::number::{JsonNumber, render_number, int_number};
use crate::text::push_char;

verus! {

pub const CJSON_VERSION_MAJOR: u32 = 1;

pub const CJSON_VERSION_MINOR: u32 = 7;

pub const CJSON_VERSION_PATCH: u32 = 15;

pub open spec fn version_text() -> Seq<char> {
    render_number(int_number(CJSON_VERSION_MAJOR as int)) + seq!['.'] + render_number(
        int_number(CJSON_VERSION_MINOR as int),
    ) + seq!['.'] + render_number(int_number(CJSON_VERSION_PATCH as int))
}

/// The library's version, as `major.minor.patch`.
pub fn cjson_version() -> (r: String)
    ensures
        r@ == version_text(),
{
    let mut r = String::new();
    JsonNumber::from_i64(CJSON_VERSION_MAJOR as i64).render(&mut r);
    push_char(&mut r, '.');
    JsonNumber::from_i64(CJSON_VERSION_MINOR as i64).render(&mut r);
    push_char(&mut r, '.');
    JsonNumber::from_i64(CJSON_VERSION_PATCH as i64).render(&mut r);
    assert(r@ =~= version_text());
    r
}

} // verus!
