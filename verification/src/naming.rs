//! File names of certificate images: `<title>_<page>` names a page of a
//! multi-page certificate, any other stem names a certificate of its own.
use vstd::prelude::*;
use crate::text::{chars_of, decimal, digit_char, string_from_chars, trim, trimmed};

verus! {

/// An ASCII decimal digit, `0` to `9`.
pub open spec fn is_ascii_digit(c: char) -> bool {
    '0' <= c && c <= '9'
}

/// The number that a sequence of decimal digits spells.
pub open spec fn digits_value(s: Seq<char>) -> nat
    decreases s.len(),
{
    if s.len() == 0 {
        0
    } else {
        digits_value(s.drop_last()) * 10 + ((s.last() as int) - 48) as nat
    }
}

/// `s` is `<title>_<digits>` split at index `k`: the title is not empty
/// and holds no line feed, and one or more ASCII digits follow the `_` up to
/// the end. This is what the pattern `^(?P<title>.+)_(?P<page>[0-9]+)$`
/// matches, with the title and page groups split at `k`.
pub open spec fn page_suffix_at(s: Seq<char>, k: int) -> bool {
    &&& 1 <= k
    &&& k + 1 < s.len()
    &&& s[k] == '_'
    &&& forall|i: int| k < i < s.len() ==> is_ascii_digit(#[trigger] s[i])
    &&& forall|i: int| 0 <= i < k ==> #[trigger] s[i] != '\n'
}

/// Whether the stem ends in a page number.
pub open spec fn has_page_suffix(s: Seq<char>) -> bool {
    exists|k: int| page_suffix_at(s, k)
}

/// Where the stem splits into title and page number.
pub open spec fn page_split(s: Seq<char>) -> int {
    choose|k: int| page_suffix_at(s, k)
}

/// The title and page number that a file stem gives, or `None` when its
/// page number does not fit in a `u32`. A stem without a page suffix is a
/// title of its own. Titles are trimmed.
pub open spec fn parsed_name(s: Seq<char>) -> Option<(Seq<char>, Option<u32>)> {
    if has_page_suffix(s) {
        let k = page_split(s);
        let v = digits_value(s.skip(k + 1));
        if v <= u32::MAX {
            Some((trimmed(s.take(k)), Some(v as u32)))
        } else {
            None
        }
    } else {
        Some((trimmed(s), None))
    }
}

/// The page number of a file name does not fit in a `u32`.
#[derive(Clone, Debug)]
pub struct InvalidPageNumber {
    pub file_stem: String,
}

proof fn lemma_page_suffix_unique(s: Seq<char>, k1: int, k2: int)
    requires
        page_suffix_at(s, k1),
        page_suffix_at(s, k2),
    ensures
        k1 == k2,
{
    if k1 < k2 {
        assert(is_ascii_digit(s[k2]));
    } else if k2 < k1 {
        assert(is_ascii_digit(s[k1]));
    }
}

/// The value of `cs[from..to]`, all ASCII digits, if it fits in a `u32`.
fn parse_digits(cs: &Vec<char>, from: usize, to: usize) -> (r: Option<u32>)
    requires
        from <= to <= cs.len(),
        forall|i: int| from <= i < to ==> is_ascii_digit(#[trigger] cs@[i]),
    ensures
        ({
            let v = digits_value(cs@.subrange(from as int, to as int));
            match r {
                Some(n) => v <= u32::MAX && n == v,
                None => v > u32::MAX,
            }
        }),
{
    let mut acc: u64 = 0;
    let mut i = from;
    while i < to
        invariant
            from <= i <= to <= cs.len(),
            forall|j: int| from <= j < to ==> is_ascii_digit(#[trigger] cs@[j]),
            ({
                let v = digits_value(cs@.subrange(from as int, i as int));
                (acc <= u32::MAX && acc == v) || (acc == u32::MAX + 1 && v > u32::MAX)
            }),
        decreases to - i,
    {
        let c = cs[i];
        assert(is_ascii_digit(cs@[i as int]));
        let d: u64 = (c as u32 - 48) as u64;
        let ghost prev = cs@.subrange(from as int, i as int);
        let ghost next = cs@.subrange(from as int, i + 1);
        assert(next.drop_last() =~= prev);
        assert(digits_value(next) == digits_value(prev) * 10 + d);
        if acc <= 0xffff_ffff {
            assert(acc * 10 + d <= 0xffff_ffff * 10 + 9) by (nonlinear_arith)
                requires
                    acc <= 0xffff_ffff,
                    d <= 9,
            ;
            let t = acc * 10 + d;
            if t <= 0xffff_ffff {
                acc = t;
            } else {
                acc = 0x1_0000_0000;
            }
        } else {
            assert(digits_value(prev) * 10 + d > u32::MAX) by (nonlinear_arith)
                requires
                    digits_value(prev) > u32::MAX,
            ;
        }
        i = i + 1;
    }
    if acc <= 0xffff_ffff {
        Some(acc as u32)
    } else {
        None
    }
}

/// Splits a file stem into certificate title and page number, following
/// the pattern `^(?P<title>.+)_(?P<page>[0-9]+)$`: `Title_2` is page 2 of
/// `Title`; a stem that does not match is a title without a page number.
/// The title is trimmed. A page number too large for `u32` is an error.
pub fn parse_certificate_name(file_stem: &str) -> (r: Result<(String, Option<u32>), InvalidPageNumber>)
    ensures
        match r {
            Ok((title, page)) => parsed_name(file_stem@) == Some((title@, page)),
            Err(e) => parsed_name(file_stem@) is None && e.file_stem@ == file_stem@,
        },
{
    let cs = chars_of(file_stem);
    let n = cs.len();
    let mut j: usize = n;
    while j > 0 && '0' <= cs[j - 1] && cs[j - 1] <= '9'
        invariant
            j <= n == cs@.len(),
            forall|i: int| j <= i < n ==> is_ascii_digit(#[trigger] cs@[i]),
        decreases j,
    {
        j = j - 1;
    }
    // `j` is where the trailing digits start.
    let mut matched = false;
    if j < n && j >= 2 && cs[j - 1] == '_' {
        let mut m: usize = 0;
        while m < j - 1 && cs[m] != '\n'
            invariant
                m <= j - 1,
                j <= n == cs@.len(),
                forall|i: int| 0 <= i < m ==> #[trigger] cs@[i] != '\n',
            decreases j - 1 - m,
        {
            m = m + 1;
        }
        matched = m == j - 1;
    }
    proof {
        if matched {
            assert(page_suffix_at(cs@, j - 1));
        }
        if has_page_suffix(cs@) {
            let k = choose|k: int| page_suffix_at(cs@, k);
            assert(page_suffix_at(cs@, k));
            if j > k + 1 {
                assert(!is_ascii_digit(cs@[j - 1]));
                assert(is_ascii_digit(cs@[j - 1]));
            }
            if j < k + 1 {
                assert(is_ascii_digit(cs@[k]));
            }
            assert(j == k + 1);
            if !matched {
                if j - 1 < n && j >= 2 && cs@[j - 1] == '_' {
                    // the title scan stopped at a line feed
                    let m = choose|m: int| 0 <= m < j - 1 && cs@[m] == '\n';
                }
            }
            assert(matched);
        }
    }
    if matched {
        let k = j - 1;
        proof {
            lemma_page_suffix_unique(cs@, k as int, page_split(cs@));
            assert(cs@.subrange(j as int, n as int) =~= cs@.skip(k + 1));
            assert(cs@.subrange(0, k as int) =~= cs@.take(k as int));
        }
        match parse_digits(&cs, j, n) {
            Some(page) => {
                let raw = string_from_chars(&cs, 0, k);
                let title = trim(raw.as_str());
                Ok((title, Some(page)))
            },
            None => Err(InvalidPageNumber { file_stem: string_from_chars(&cs, 0, n) }),
        }
    } else {
        Ok((trim(file_stem), None))
    }
}

/// The decimal digits of a number are ASCII digits, and spell the number.
pub proof fn lemma_decimal_digits(n: nat)
    ensures
        decimal(n).len() >= 1,
        forall|i: int| 0 <= i < decimal(n).len() ==> is_ascii_digit(#[trigger] decimal(n)[i]),
        digits_value(decimal(n)) == n,
    decreases n,
{
    if n < 10 {
        let d = decimal(n);
        assert(d.drop_last() =~= Seq::<char>::empty());
        assert((digit_char(n) as int) == 48 + n);
        assert(d.last() == digit_char(n));
        assert(digits_value(d) == digits_value(d.drop_last()) * 10 + ((d.last() as int) - 48) as nat);
        assert(digits_value(d.drop_last()) == 0);
    } else {
        lemma_decimal_digits(n / 10);
        let d = decimal(n);
        assert(d.drop_last() =~= decimal(n / 10));
        assert((digit_char(n % 10) as int) == 48 + n % 10);
        assert(d.last() == digit_char(n % 10));
        assert(n == (n / 10) * 10 + n % 10);
        assert(digits_value(d) == digits_value(d.drop_last()) * 10 + ((d.last() as int) - 48) as nat);
        assert forall|i: int| 0 <= i < d.len() implies is_ascii_digit(#[trigger] d[i]) by {
            if i < d.len() - 1 {
                assert(d[i] == decimal(n / 10)[i]);
            }
        }
    }
}

/// A page number written after a title and `_` is read back: parsing
/// `<title>_<n>` gives the trimmed title and `n`, for any title that is not
/// empty and holds no line feed.
pub proof fn lemma_page_number_round_trip(title: Seq<char>, n: u32)
    requires
        title.len() >= 1,
        forall|i: int| 0 <= i < title.len() ==> #[trigger] title[i] != '\n',
    ensures
        parsed_name(title + seq!['_'] + decimal(n as nat)) == Some((trimmed(title), Some(n))),
{
    let s = title + seq!['_'] + decimal(n as nat);
    let k = title.len() as int;
    lemma_decimal_digits(n as nat);
    assert forall|i: int| k < i < s.len() implies is_ascii_digit(#[trigger] s[i]) by {
        assert(s[i] == decimal(n as nat)[i - k - 1]);
    }
    assert forall|i: int| 0 <= i < k implies #[trigger] s[i] != '\n' by {
        assert(s[i] == title[i]);
    }
    assert(page_suffix_at(s, k));
    lemma_page_suffix_unique(s, k, page_split(s));
    assert(s.skip(k + 1) =~= decimal(n as nat));
    assert(s.take(k) =~= title);
}

} // verus!
