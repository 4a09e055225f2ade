//! Turning stored bytes into strings.

use vstd::prelude::*;
use vstd::string::StrSliceExecFns;

verus! {

/// What `String::from_utf8_lossy` makes of `bytes`: the text they encode,
/// with each invalid sequence replaced by U+FFFD.
pub uninterp spec fn lossy_utf8(bytes: Seq<u8>) -> Seq<char>;

/// Decodes `bytes` as UTF-8, replacing invalid sequences with U+FFFD.
///
/// Trusted: calls `String::from_utf8_lossy` and takes ownership of its
/// result. The contract names the result, a function of the bytes alone,
/// and states what std documents of it: valid UTF-8 is decoded as it
/// stands. Where each replacement character goes for invalid input is left
/// unstated.
#[verifier::external_body]
pub(crate) fn utf8_lossy(bytes: &[u8]) -> (s: String)
    ensures
        s@ == lossy_utf8(bytes@),
        vstd::utf8::valid_utf8(bytes@) ==> s@ == vstd::utf8::decode_utf8(bytes@),
{
    String::from_utf8_lossy(bytes).into_owned()
}

/// `s` without any run of NUL characters at its end.
pub open spec fn trim_trailing_nuls(s: Seq<char>) -> Seq<char>
    decreases s.len(),
{
    if s.len() > 0 && s.last() == '\0' {
        trim_trailing_nuls(s.drop_last())
    } else {
        s
    }
}

/// Removes every trailing NUL character, as `trim_end_matches('\0')` does.
pub fn trim_nuls(s: &String) -> (t: String)
    ensures
        t@ == trim_trailing_nuls(s@),
{
    let text = s.as_str();
    let mut end = text.unicode_len();
    assert(text@.subrange(0, end as int) =~= text@);
    while end > 0 && text.get_char(end - 1) == '\0'
        invariant
            end <= text@.len(),
            text@ == s@,
            trim_trailing_nuls(text@.subrange(0, end as int)) == trim_trailing_nuls(s@),
        decreases end,
    {
        assert(text@.subrange(0, end as int).drop_last() =~= text@.subrange(0, end - 1));
        end = end - 1;
    }
    text.substring_char(0, end).to_owned()
}

/// `bytes` without one trailing zero byte, if it ends in one.
pub open spec fn strip_nul_suffix(bytes: Seq<u8>) -> Seq<u8> {
    if bytes.len() > 0 && bytes.last() == 0 {
        bytes.drop_last()
    } else {
        bytes
    }
}

/// Removes a single trailing zero byte, as `strip_suffix(&[0]).unwrap_or(raw)` does.
pub fn strip_nul(raw: &[u8]) -> (out: &[u8])
    ensures
        out@ == strip_nul_suffix(raw@),
{
    let n = raw.len();
    if n > 0 && raw[n - 1] == 0 {
        vstd::slice::slice_subrange(raw, 0, n - 1)
    } else {
        raw
    }
}

/// Whether `a` and `b` hold the same text.
pub fn same_text(a: &String, b: &String) -> (same: bool)
    ensures
        same == (a@ == b@),
{
    a.eq(b)
}

/// Whether `s` reads exactly `lit`.
pub fn str_is(s: &String, lit: &str) -> (b: bool)
    ensures
        b == (s@ == lit@),
{
    let t = lit.to_owned();
    s.eq(&t)
}

} // verus!
