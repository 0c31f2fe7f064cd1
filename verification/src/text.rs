//! Verified text building blocks: decimal rendering, clock times,
//! substring search and trimming, and the two case-folding helpers the
//! filters rely on.

use vstd::prelude::*;
use vstd::string::StrSliceExecFns;
use vstd::string::StringExecFns;


verus! {

/// The digit character writing the value `v`.
pub open spec fn digit_char(v: int) -> char {
    if v == 0 {
        '0'
    } else if v == 1 {
        '1'
    } else if v == 2 {
        '2'
    } else if v == 3 {
        '3'
    } else if v == 4 {
        '4'
    } else if v == 5 {
        '5'
    } else if v == 6 {
        '6'
    } else if v == 7 {
        '7'
    } else if v == 8 {
        '8'
    } else {
        '9'
    }
}

/// The decimal digit sequence writing `v`, most significant digit first.
pub open spec fn dec_of(v: int) -> Seq<char>
    decreases v,
    when v >= 0
{
    if v < 10 {
        seq![digit_char(v)]
    } else {
        dec_of(v / 10) + seq![digit_char(v % 10)]
    }
}

/// The decimal writing of a signed value: a `-` sign, then the digits.
pub open spec fn dec_int_of(v: int) -> Seq<char> {
    if v < 0 {
        seq!['-'] + dec_of(-v)
    } else {
        dec_of(v)
    }
}

/// The one-character string holding the digit `d`.
fn digit_str(d: u8) -> (r: &'static str)
    requires
        d < 10,
    ensures
        r@ =~= seq![digit_char(d as int)],
{
    let s = match d {
        0 => "0",
        1 => "1",
        2 => "2",
        3 => "3",
        4 => "4",
        5 => "5",
        6 => "6",
        7 => "7",
        8 => "8",
        _ => "9",
    };
    proof {
        reveal_strlit("0");
        reveal_strlit("1");
        reveal_strlit("2");
        reveal_strlit("3");
        reveal_strlit("4");
        reveal_strlit("5");
        reveal_strlit("6");
        reveal_strlit("7");
        reveal_strlit("8");
        reveal_strlit("9");
    }
    s
}

/// Write `v` in decimal.
pub fn dec_u64(v: u64) -> (r: String)
    ensures
        r@ == dec_of(v as int),
    decreases v,
{
    if v < 10 {
        let r = String::from_str(digit_str(v as u8));
        proof {
            assert(r@ =~= dec_of(v as int));
        }
        r
    } else {
        let high = dec_u64(v / 10);
        let r = high.concat(digit_str((v % 10) as u8));
        proof {
            assert(r@ =~= dec_of(v as int));
        }
        r
    }
}

/// Write the signed `v` in decimal.
pub fn dec_i64(v: i64) -> (r: String)
    requires
        v != i64::MIN,
    ensures
        r@ == dec_int_of(v as int),
{
    if v < 0 {
        let r = String::from_str("-").concat(dec_u64((-v) as u64).as_str());
        proof {
            reveal_strlit("-");
            assert(r@ =~= dec_int_of(v as int));
        }
        r
    } else {
        dec_u64(v as u64)
    }
}

/// The two-digit, zero-padded writing of `v`.
pub open spec fn two_digit_of(v: int) -> Seq<char> {
    seq![digit_char(v / 10), digit_char(v % 10)]
}

/// Write `v` as exactly two digits.
pub fn two_digit(v: u8) -> (r: String)
    requires
        v < 100,
    ensures
        r@ == two_digit_of(v as int),
{
    let r = String::from_str(digit_str(v / 10)).concat(digit_str(v % 10));
    proof {
        assert(r@ =~= two_digit_of(v as int));
    }
    r
}

/// A minute of the day written on the clock, `HH:MM`.
pub open spec fn clock_of(m: int) -> Seq<char> {
    two_digit_of(m / 60) + seq![':'] + two_digit_of(m % 60)
}

/// Write the minute of the day `m` as `HH:MM`.
pub fn clock_str(m: u16) -> (r: String)
    requires
        m < 1440,
    ensures
        r@ == clock_of(m as int),
{
    let r = two_digit((m / 60) as u8).concat(":").concat(two_digit((m % 60) as u8).as_str());
    proof {
        reveal_strlit(":");
        assert(r@ =~= clock_of(m as int));
    }
    r
}

/// `needle` occurs in `hay` starting at position `i`.
pub open spec fn match_at(hay: Seq<char>, needle: Seq<char>, i: int) -> bool {
    0 <= i && i + needle.len() <= hay.len() && hay.subrange(i, i + needle.len()) == needle
}

/// Some contiguous run of `hay` equals `needle`.
pub open spec fn contains_sub(hay: Seq<char>, needle: Seq<char>) -> bool {
    exists|i: int| match_at(hay, needle, i)
}

/// Position of the first occurrence of `needle` in `hay`, if any.
pub fn find_sub(hay: &str, needle: &str) -> (r: Option<usize>)
    ensures
        (r matches Some(i) ==> match_at(hay@, needle@, i as int) && forall|k: int|
            0 <= k < i ==> !match_at(hay@, needle@, k)),
        r is None ==> forall|k: int| !match_at(hay@, needle@, k),
{
    let hlen = hay.unicode_len();
    let nlen = needle.unicode_len();
    if nlen > hlen {
        return None;
    }
    let mut i: usize = 0;
    while i <= hlen - nlen
        invariant
            0 <= i <= hlen - nlen + 1,
            nlen <= hlen,
            hlen == hay@.len(),
            nlen == needle@.len(),
            forall|k: int| 0 <= k < i ==> !match_at(hay@, needle@, k),
        decreases hlen - nlen - i + 1,
    {
        let mut j: usize = 0;
        let mut matched = true;
        while j < nlen
            invariant
                0 <= j <= nlen,
                i + nlen <= hlen,
                hlen == hay@.len(),
                nlen == needle@.len(),
                matched ==> forall|q: int| 0 <= q < j ==> hay@[i + q] == needle@[q],
                !matched ==> exists|q: int| 0 <= q < nlen && hay@[i + q] != needle@[q],
            decreases nlen - j,
        {
            if hay.get_char(i + j) != needle.get_char(j) {
                proof {
                    assert(hay@[i + j] != needle@[j as int]);
                }
                matched = false;
                j = nlen;
            } else {
                j = j + 1;
            }
        }
        if matched {
            proof {
                assert(hay@.subrange(i as int, i + needle@.len()) =~= needle@);
            }
            return Some(i);
        }
        proof {
            if match_at(hay@, needle@, i as int) {
                let q = choose|q: int| 0 <= q < nlen && hay@[i + q] != needle@[q];
                assert(hay@.subrange(i as int, i + needle@.len())[q] == needle@[q]);
                assert(false);
            }
        }
        i = i + 1;
    }
    None
}

/// The number of leading spaces of `s`.
pub open spec fn lead_spaces(s: Seq<char>) -> int
    decreases s.len(),
{
    if s.len() == 0 || s[0] != ' ' {
        0
    } else {
        1 + lead_spaces(s.subrange(1, s.len() as int))
    }
}

/// The number of trailing spaces of `s`.
pub open spec fn trail_spaces(s: Seq<char>) -> int
    decreases s.len(),
{
    if s.len() == 0 || s.last() != ' ' {
        0
    } else {
        1 + trail_spaces(s.drop_last())
    }
}

/// `s` with its leading and trailing spaces removed.
pub open spec fn trim_of(s: Seq<char>) -> Seq<char> {
    if lead_spaces(s) == s.len() {
        Seq::empty()
    } else {
        s.subrange(lead_spaces(s), s.len() - trail_spaces(s))
    }
}

proof fn lemma_lead_spaces_is(s: Seq<char>, k: int)
    requires
        0 <= k <= s.len(),
        forall|i: int| 0 <= i < k ==> s[i] == ' ',
        k < s.len() ==> s[k] != ' ',
    ensures
        lead_spaces(s) == k,
    decreases k,
{
    if k > 0 {
        let s1 = s.subrange(1, s.len() as int);
        lemma_lead_spaces_is(s1, k - 1);
    }
}

proof fn lemma_trail_spaces_is(s: Seq<char>, k: int)
    requires
        0 <= k <= s.len(),
        forall|i: int| s.len() - k <= i < s.len() ==> s[i] == ' ',
        k < s.len() ==> s[s.len() - k - 1] != ' ',
    ensures
        trail_spaces(s) == k,
    decreases k,
{
    if k > 0 {
        let dl = s.drop_last();
        assert(s.last() == s[s.len() - 1]);
        lemma_trail_spaces_is(dl, k - 1);
    }
}

/// `s` with leading and trailing spaces removed.
pub fn trim_spaces(s: &str) -> (r: String)
    ensures
        r@ == trim_of(s@),
{
    let len = s.unicode_len();
    let mut a: usize = 0;
    while a < len && s.get_char(a) == ' '
        invariant
            0 <= a <= len,
            len == s@.len(),
            forall|i: int| 0 <= i < a ==> s@[i] == ' ',
        decreases len - a,
    {
        a = a + 1;
    }
    if a == len {
        proof {
            lemma_lead_spaces_is(s@, a as int);
        }
        return String::new();
    }
    proof {
        lemma_lead_spaces_is(s@, a as int);
    }
    let mut b: usize = len;
    while b > a && s.get_char(b - 1) == ' '
        invariant
            a <= b <= len,
            len == s@.len(),
            s@[a as int] != ' ',
            forall|i: int| b <= i < len ==> s@[i] == ' ',
        decreases b,
    {
        b = b - 1;
    }
    proof {
        assert(b > a);
        lemma_trail_spaces_is(s@, (len - b) as int);
    }
    let piece = s.substring_char(a, b);
    let r = piece.to_owned();
    proof {
        assert(r@ == trim_of(s@));
    }
    r
}

/// The lowercase folding of a character sequence; which characters come out
/// is known only to the folding function relied on below.
pub uninterp spec fn lower_of(s: Seq<char>) -> Seq<char>;

/// Relies on `str::to_lowercase`: the folding depends on the characters
/// alone, and an empty string stays empty.
#[verifier::external_body]
pub(crate) fn lowercase(s: &str) -> (r: String)
    ensures
        r@ == lower_of(s@),
        s@.len() == 0 ==> r@.len() == 0,
{
    s.to_lowercase()
}

/// Relies on `str::contains` with a string pattern: true exactly when some
/// contiguous run of the characters of `hay` equals `needle`.
#[verifier::external_body]
pub(crate) fn contains_str(hay: &str, needle: &str) -> (r: bool)
    ensures
        r == contains_sub(hay@, needle@),
{
    hay.contains(needle)
}

} // verus!
