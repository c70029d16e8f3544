//! Case-insensitive substring matcher with an ASCII fast path.
//!
//! Matching slides a window over the haystack by character boundaries: for
//! each boundary, the window as many bytes long as the needle (when it also
//! ends on a boundary) is compared to the needle under case folding. No
//! Unicode normalization is applied.

use vstd::prelude::*;
use vstd::string::StringSliceAdditionalSpecFns;
use vstd::utf8::{
    decode_utf8, encode_utf8, encode_utf8_decode_utf8, encode_utf8_valid_utf8, is_ascii_chars,
    is_char_boundary, is_char_boundary_iff_not_is_continuation_byte,
    is_char_boundary_start_end_of_seq, valid_utf8, valid_utf8_split,
};

verus! {

/// ASCII lowercase of one byte.
pub open spec fn ascii_lower(b: u8) -> u8 {
    if 65 <= b <= 90 {
        (b + 32) as u8
    } else {
        b
    }
}

/// ASCII-caseless equality of two byte strings: equal lengths and equal
/// bytes after ASCII lowercasing.
pub open spec fn ascii_caseless_eq(a: Seq<u8>, b: Seq<u8>) -> bool {
    a.len() == b.len() && forall|i: int|
        0 <= i < a.len() ==> ascii_lower(a[i]) == ascii_lower(b[i])
}

/// Unicode caseless equality: whether two strings agree after simple
/// Unicode case folding of each, without normalization.
pub uninterp spec fn fold_eq(a: Seq<char>, b: Seq<char>) -> bool;

/// Relies on unicase::eq_ascii, which compares by str::eq_ignore_ascii_case:
/// equal lengths and equal bytes after mapping ASCII upper case to lower.
#[verifier::external_body]
fn unicase_eq_ascii(a: &str, b: &str) -> (r: bool)
    ensures
        r == ascii_caseless_eq(a.spec_bytes(), b.spec_bytes()),
{
    unicase::eq_ascii(a, b)
}

/// Relies on unicase's comparison of two `UniCase::unicode` values, which
/// compares the Unicode case foldings of the two strings; the result is a
/// function of the two strings alone.
#[verifier::external_body]
fn unicase_eq_fold(a: &str, b: &str) -> (r: bool)
    ensures
        r == fold_eq(a@, b@),
{
    unicase::UniCase::unicode(a) == unicase::UniCase::unicode(b)
}

/// The comparison selected for one haystack window: ASCII folding when the
/// needle is flagged ASCII and the whole haystack or the window itself is
/// ASCII, Unicode folding otherwise.
pub open spec fn window_eq(
    w: Seq<char>,
    b: Seq<char>,
    hay_ascii: bool,
    needle_ascii: bool,
) -> bool {
    if needle_ascii && (hay_ascii || is_ascii_chars(w)) {
        ascii_caseless_eq(encode_utf8(w), encode_utf8(b))
    } else {
        fold_eq(w, b)
    }
}

/// Whether the window of `a` starting at byte offset `i` and as long in
/// bytes as `b` exists (both ends on character boundaries) and compares
/// equal to `b` under the selected folding.
pub open spec fn match_at(a: Seq<char>, b: Seq<char>, needle_ascii: bool, i: int) -> bool {
    let abytes = encode_utf8(a);
    let blen = encode_utf8(b).len() as int;
    &&& 0 <= i
    &&& i + blen <= abytes.len()
    &&& is_char_boundary(abytes, i)
    &&& is_char_boundary(abytes, i + blen)
    &&& window_eq(decode_utf8(abytes.subrange(i, i + blen)), b, is_ascii_chars(a), needle_ascii)
}

/// Whether `a` contains `b` under caseless comparison. An empty needle
/// matches nothing.
pub open spec fn spec_caseless_contains(a: Seq<char>, b: Seq<char>, needle_ascii: bool) -> bool {
    encode_utf8(b).len() > 0 && exists|i: int| match_at(a, b, needle_ascii, i)
}

/// Returns true if `a` contains `b` using caseless comparison: by ASCII
/// folding where `b_is_ascii` says the needle is ASCII and the window is
/// too, and by Unicode-aware case folding otherwise. Does no normalization.
pub fn caseless_contains(a: &str, b: &str, b_is_ascii: bool) -> (r: bool)
    ensures
        r == spec_caseless_contains(a@, b@, b_is_ascii),
{
    let ghost abytes = encode_utf8(a@);
    proof {
        assert(a.spec_bytes() == encode_utf8(a@));
        assert(b.spec_bytes() == encode_utf8(b@));
    }
    let blen = b.as_bytes().len();
    if blen == 0 {
        return false;
    }
    let alen = a.as_bytes().len();
    if alen < blen {
        assert(forall|j: int| !match_at(a@, b@, b_is_ascii, j));
        return false;
    }
    let a_ascii = a.is_ascii();
    proof {
        encode_utf8_valid_utf8(a@);
    }
    let mut i: usize = 0;
    while i <= alen - blen
        invariant
            blen == encode_utf8(b@).len(),
            blen >= 1,
            alen == encode_utf8(a@).len(),
            alen >= blen,
            abytes == encode_utf8(a@),
            a_ascii == is_ascii_chars(a@),
            valid_utf8(abytes),
            forall|j: int| 0 <= j < i ==> !match_at(a@, b@, b_is_ascii, j),
        decreases alen - i,
    {
        if a.is_char_boundary(i) && a.is_char_boundary(i + blen) {
            proof {
                valid_utf8_split(abytes, i as int);
                is_char_boundary_start_end_of_seq(abytes);
                let tailb = abytes.subrange(i as int, abytes.len() as int);
                assert(valid_utf8(tailb));
                if i + blen < alen {
                    is_char_boundary_iff_not_is_continuation_byte(abytes, i + blen);
                    is_char_boundary_iff_not_is_continuation_byte(tailb, blen as int);
                    assert(tailb[blen as int] == abytes[i + blen]);
                } else {
                    is_char_boundary_start_end_of_seq(tailb);
                }
                valid_utf8_split(tailb, blen as int);
            }
            let (_, tail) = a.split_at(i);
            let (w, _) = tail.split_at(blen);
            proof {
                assert(w.spec_bytes() =~= abytes.subrange(i as int, i + blen));
                encode_utf8_decode_utf8(w@);
                assert(w@ == decode_utf8(abytes.subrange(i as int, i + blen)));
            }
            let hit = if b_is_ascii && (a_ascii || w.is_ascii()) {
                unicase_eq_ascii(w, b)
            } else {
                unicase_eq_fold(w, b)
            };
            if hit {
                assert(match_at(a@, b@, b_is_ascii, i as int));
                return true;
            }
            assert(!match_at(a@, b@, b_is_ascii, i as int));
        } else {
            assert(!match_at(a@, b@, b_is_ascii, i as int));
        }
        i = i + 1;
    }
    assert(forall|j: int| j > alen - blen ==> !match_at(a@, b@, b_is_ascii, j));
    false
}

}
