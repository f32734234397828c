//! Character-level building blocks: building strings, whitespace trimming,
//! lowercasing, decimal formatting and lexicographic comparison.
use vstd::prelude::*;

verus! {

/// `String::push` appends one character at the end of the string.
pub assume_specification[ String::push ](s: &mut String, ch: char)
    ensures
        final(s)@ == old(s)@.push(ch),
;

/// The characters of a string slice, in order.
pub fn chars_of(s: &str) -> (v: Vec<char>)
    ensures
        v@ == s@,
{
    let mut v: Vec<char> = Vec::new();
    for c in it: s.chars()
        invariant
            v@ == it.seq().take(it.index() as int),
            it.seq() == s@,
    {
        v.push(c);
    }
    v
}

/// The string made of the characters `cs[from..to]`.
pub fn string_from_chars(cs: &Vec<char>, from: usize, to: usize) -> (r: String)
    requires
        from <= to <= cs.len(),
    ensures
        r@ == cs@.subrange(from as int, to as int),
{
    let mut r = String::new();
    let mut i = from;
    while i < to
        invariant
            from <= i <= to <= cs.len(),
            r@ == cs@.subrange(from as int, i as int),
        decreases to - i,
    {
        r.push(cs[i]);
        i = i + 1;
    }
    r
}

/// The concatenation of `f(c)` for the characters `c` of `s`, in order.
pub open spec fn expand_chars(s: Seq<char>, f: spec_fn(char) -> Seq<char>) -> Seq<char>
    decreases s.len(),
{
    if s.len() == 0 {
        Seq::empty()
    } else {
        expand_chars(s.drop_last(), f) + f(s.last())
    }
}

/// Expanding a longer prefix adds the expansion of one more character.
pub proof fn lemma_expand_chars_step(s: Seq<char>, f: spec_fn(char) -> Seq<char>, i: int)
    requires
        0 <= i < s.len(),
    ensures
        expand_chars(s.take(i + 1), f) == expand_chars(s.take(i), f) + f(s[i]),
{
    assert(s.take(i + 1).drop_last() =~= s.take(i));
}

/// The Unicode `White_Space` property, which `char::is_whitespace` tests
/// and `str::trim` strips.
pub open spec fn is_white_space(c: char) -> bool {
    ||| ('\u{9}' <= c && c <= '\u{d}')
    ||| c == ' '
    ||| c == '\u{85}'
    ||| c == '\u{a0}'
    ||| c == '\u{1680}'
    ||| ('\u{2000}' <= c && c <= '\u{200a}')
    ||| c == '\u{2028}'
    ||| c == '\u{2029}'
    ||| c == '\u{202f}'
    ||| c == '\u{205f}'
    ||| c == '\u{3000}'
}

/// Whether `c` is a whitespace character.
pub fn is_white_space_char(c: char) -> (r: bool)
    ensures
        r == is_white_space(c),
{
    ('\u{9}' <= c && c <= '\u{d}') || c == ' ' || c == '\u{85}' || c == '\u{a0}' || c
        == '\u{1680}' || ('\u{2000}' <= c && c <= '\u{200a}') || c == '\u{2028}' || c
        == '\u{2029}' || c == '\u{202f}' || c == '\u{205f}' || c == '\u{3000}'
}

/// `s` without its leading whitespace.
pub open spec fn trim_start(s: Seq<char>) -> Seq<char>
    decreases s.len(),
{
    if s.len() > 0 && is_white_space(s[0]) {
        trim_start(s.drop_first())
    } else {
        s
    }
}

/// `s` without its trailing whitespace.
pub open spec fn trim_end(s: Seq<char>) -> Seq<char>
    decreases s.len(),
{
    if s.len() > 0 && is_white_space(s.last()) {
        trim_end(s.drop_last())
    } else {
        s
    }
}

/// `s` without leading and trailing whitespace, as `str::trim` gives it.
pub open spec fn trimmed(s: Seq<char>) -> Seq<char> {
    trim_end(trim_start(s))
}

proof fn lemma_trim_start_skip(s: Seq<char>, i: int)
    requires
        0 <= i <= s.len(),
        forall|j: int| 0 <= j < i ==> is_white_space(#[trigger] s[j]),
    ensures
        trim_start(s) == trim_start(s.skip(i)),
    decreases i,
{
    if i > 0 {
        assert(s.drop_first().skip(i - 1) =~= s.skip(i));
        assert forall|j: int| 0 <= j < i - 1 implies is_white_space(#[trigger] s.drop_first()[j]) by {
            assert(s.drop_first()[j] == s[j + 1]);
        }
        lemma_trim_start_skip(s.drop_first(), i - 1);
    } else {
        assert(s.skip(0) =~= s);
    }
}

proof fn lemma_trim_end_take(s: Seq<char>, k: int)
    requires
        0 <= k <= s.len(),
        forall|j: int| k <= j < s.len() ==> is_white_space(#[trigger] s[j]),
    ensures
        trim_end(s) == trim_end(s.take(k)),
    decreases s.len() - k,
{
    if k < s.len() {
        assert(s.drop_last().take(k) =~= s.take(k));
        assert forall|j: int| k <= j < s.drop_last().len() implies is_white_space(
            #[trigger] s.drop_last()[j],
        ) by {
            assert(s.drop_last()[j] == s[j]);
        }
        lemma_trim_end_take(s.drop_last(), k);
    } else {
        assert(s.take(k) =~= s);
    }
}

/// `s` with leading and trailing whitespace removed (`str::trim`).
pub fn trim(s: &str) -> (r: String)
    ensures
        r@ == trimmed(s@),
{
    let cs = chars_of(s);
    let n = cs.len();
    let mut start: usize = 0;
    while start < n && is_white_space_char(cs[start])
        invariant
            start <= n == cs@.len(),
            cs@ == s@,
            forall|j: int| 0 <= j < start ==> is_white_space(#[trigger] cs@[j]),
        decreases n - start,
    {
        start = start + 1;
    }
    proof {
        lemma_trim_start_skip(cs@, start as int);
        assert(trim_start(cs@.skip(start as int)) == cs@.skip(start as int));
    }
    let mut end: usize = n;
    while end > start && is_white_space_char(cs[end - 1])
        invariant
            start <= end <= n == cs@.len(),
            forall|j: int| end <= j < n ==> is_white_space(#[trigger] cs@[j]),
        decreases end,
    {
        end = end - 1;
    }
    proof {
        let t = cs@.skip(start as int);
        assert forall|j: int| end - start <= j < t.len() implies is_white_space(#[trigger] t[j]) by {
            assert(t[j] == cs@[j + start]);
        }
        lemma_trim_end_take(t, end - start);
        assert(t.take(end - start) =~= cs@.subrange(start as int, end as int));
        let u = cs@.subrange(start as int, end as int);
        if u.len() > 0 {
            assert(u.last() == cs@[end - 1]);
        }
    }
    string_from_chars(&cs, start, end)
}

/// The lowercase form of a string, as `str::to_lowercase` computes it from
/// the Unicode `Lowercase` mapping.
pub uninterp spec fn lowercase(s: Seq<char>) -> Seq<char>;

/// Calls `str::to_lowercase`; the result is the lowercase form of `s`.
#[verifier::external_body]
pub(crate) fn to_lowercase(s: &str) -> (r: String)
    ensures
        r@ == lowercase(s@),
{
    s.to_lowercase()
}

/// The decimal digit character for `d < 10`.
pub open spec fn digit_char(d: nat) -> char {
    (48 + d) as char
}

/// The decimal representation of `n`, without leading zeros.
pub open spec fn decimal(n: nat) -> Seq<char>
    decreases n,
{
    if n < 10 {
        seq![digit_char(n)]
    } else {
        decimal(n / 10).push(digit_char(n % 10))
    }
}

/// The decimal representation of `n`, as `format!("{}", n)` writes it.
pub fn decimal_string(n: u64) -> (r: String)
    ensures
        r@ == decimal(n as nat),
{
    let mut digits: Vec<char> = Vec::new();
    let mut m: u64 = n;
    loop
        invariant_except_break
            decimal(n as nat) == decimal(m as nat) + digits@.reverse(),
        ensures
            decimal(n as nat) == digits@.reverse(),
        decreases m,
    {
        let d: u8 = (m % 10) as u8;
        let c: char = (48u8 + d) as char;
        assert(c == digit_char((m % 10) as nat));
        if m < 10 {
            assert(decimal(m as nat) =~= seq![c]);
            digits.push(c);
            assert(digits@.reverse() =~= seq![c] + digits@.drop_last().reverse());
            assert(decimal(n as nat) =~= digits@.reverse());
            break ;
        }
        let ghost old_digits = digits@;
        assert(decimal(m as nat) == decimal((m / 10) as nat).push(c));
        digits.push(c);
        assert(digits@.reverse() =~= seq![c] + old_digits.reverse());
        assert(decimal(n as nat) =~= decimal((m / 10) as nat) + digits@.reverse());
        m = m / 10;
    }
    let mut r = String::new();
    let mut i: usize = digits.len();
    while i > 0
        invariant
            i <= digits@.len(),
            r@ == digits@.reverse().take(digits@.len() - i),
        decreases i,
    {
        i = i - 1;
        r.push(digits[i]);
        assert(digits@.reverse().take(digits@.len() - i) =~= digits@.reverse().take(
            digits@.len() - i - 1,
        ).push(digits@[i as int]));
    }
    assert(digits@.reverse().take(digits@.len() as int) =~= digits@.reverse());
    r
}

/// Three-way lexicographic comparison of character sequences by code
/// point: negative, zero or positive. This is the order of `String`'s `Ord`,
/// since UTF-8 keeps the order of code points.
pub open spec fn lex_compare(a: Seq<char>, b: Seq<char>) -> int
    decreases a.len(),
{
    if a.len() == 0 {
        if b.len() == 0 {
            0
        } else {
            -1
        }
    } else if b.len() == 0 {
        1
    } else if a[0] < b[0] {
        -1
    } else if a[0] > b[0] {
        1
    } else {
        lex_compare(a.drop_first(), b.drop_first())
    }
}

/// Lexicographic comparison: -1, 0 or 1.
pub fn lex_compare_chars(a: &Vec<char>, b: &Vec<char>) -> (r: i8)
    ensures
        r as int == lex_compare(a@, b@),
{
    let mut i: usize = 0;
    assert(a@.skip(0) =~= a@);
    assert(b@.skip(0) =~= b@);
    while i < a.len() && i < b.len() && a[i] == b[i]
        invariant
            i <= a@.len(),
            i <= b@.len(),
            lex_compare(a@, b@) == lex_compare(a@.skip(i as int), b@.skip(i as int)),
        decreases a.len() - i,
    {
        assert(a@.skip(i as int).drop_first() =~= a@.skip(i + 1));
        assert(b@.skip(i as int).drop_first() =~= b@.skip(i + 1));
        i = i + 1;
    }
    if i == a.len() {
        if i == b.len() {
            0
        } else {
            -1
        }
    } else if i == b.len() {
        1
    } else if a[i] < b[i] {
        -1
    } else {
        1
    }
}

/// Comparison of strings by code point.
pub fn lex_compare_str(a: &str, b: &str) -> (r: i8)
    ensures
        r as int == lex_compare(a@, b@),
{
    let ca = chars_of(a);
    let cb = chars_of(b);
    lex_compare_chars(&ca, &cb)
}

/// The comparison takes one of three values.
pub proof fn lemma_lex_compare_range(a: Seq<char>, b: Seq<char>)
    ensures
        -1 <= lex_compare(a, b) <= 1,
    decreases a.len(),
{
    if a.len() > 0 && b.len() > 0 && a[0] == b[0] {
        lemma_lex_compare_range(a.drop_first(), b.drop_first());
    }
}

/// Swapping the arguments negates the comparison.
pub proof fn lemma_lex_compare_antisymmetric(a: Seq<char>, b: Seq<char>)
    ensures
        lex_compare(a, b) == -lex_compare(b, a),
    decreases a.len(),
{
    if a.len() > 0 && b.len() > 0 && a[0] == b[0] {
        lemma_lex_compare_antisymmetric(a.drop_first(), b.drop_first());
    }
}

/// Sequences compare equal exactly when they are equal.
pub proof fn lemma_lex_compare_zero(a: Seq<char>, b: Seq<char>)
    ensures
        lex_compare(a, b) == 0 <==> a == b,
    decreases a.len(),
{
    if a.len() == 0 && b.len() == 0 {
        assert(a =~= b);
    } else if a.len() > 0 && b.len() > 0 && a[0] == b[0] {
        lemma_lex_compare_zero(a.drop_first(), b.drop_first());
        if a.drop_first() == b.drop_first() {
            assert(a =~= seq![a[0]] + a.drop_first());
            assert(b =~= seq![b[0]] + b.drop_first());
        }
        if a == b {
            assert(a.drop_first() =~= b.drop_first());
        }
    } else if a.len() > 0 && b.len() > 0 {
        assert(a[0] != b[0]);
        assert(a != b);
    } else {
        assert(a.len() != b.len());
    }
}

/// The order is transitive.
pub proof fn lemma_lex_compare_transitive(a: Seq<char>, b: Seq<char>, c: Seq<char>)
    requires
        lex_compare(a, b) <= 0,
        lex_compare(b, c) <= 0,
    ensures
        lex_compare(a, c) <= 0,
    decreases a.len(),
{
    if a.len() > 0 && b.len() > 0 && c.len() > 0 && a[0] == b[0] && b[0] == c[0] {
        lemma_lex_compare_transitive(a.drop_first(), b.drop_first(), c.drop_first());
    }
}

/// The order of names: by lowercase form, then by the exact text.
pub open spec fn name_order(a: Seq<char>, b: Seq<char>) -> int {
    let c = lex_compare(lowercase(a), lowercase(b));
    if c != 0 {
        c
    } else {
        lex_compare(a, b)
    }
}

/// Compares two names by `name_order`: -1, 0 or 1.
pub fn name_compare(a: &String, b: &String) -> (r: i8)
    ensures
        r as int == name_order(a@, b@),
{
    let la = to_lowercase(a.as_str());
    let lb = to_lowercase(b.as_str());
    compare_lowered_names(la.as_str(), lb.as_str(), a.as_str(), b.as_str())
}

/// The name order once the lowercase forms are known: by `a_lower` and
/// `b_lower`, then by the exact texts `a` and `b`.
pub fn compare_lowered_names(a_lower: &str, b_lower: &str, a: &str, b: &str) -> (r: i8)
    ensures
        r as int == (if lex_compare(a_lower@, b_lower@) != 0 {
            lex_compare(a_lower@, b_lower@)
        } else {
            lex_compare(a@, b@)
        }),
{
    let c = lex_compare_str(a_lower, b_lower);
    if c != 0 {
        c
    } else {
        lex_compare_str(a, b)
    }
}

/// The name order is a total order: it takes three values, swapping its
/// arguments negates it, it is transitive, and only equal names rank equal.
pub proof fn lemma_name_order_laws(a: Seq<char>, b: Seq<char>, c: Seq<char>)
    ensures
        -1 <= name_order(a, b) <= 1,
        name_order(a, b) == -name_order(b, a),
        name_order(a, b) <= 0 && name_order(b, c) <= 0 ==> name_order(a, c) <= 0,
        name_order(a, b) == 0 <==> a == b,
{
    let (la, lb, lc) = (lowercase(a), lowercase(b), lowercase(c));
    lemma_lex_compare_range(la, lb);
    lemma_lex_compare_range(a, b);
    lemma_lex_compare_antisymmetric(la, lb);
    lemma_lex_compare_antisymmetric(a, b);
    lemma_lex_compare_zero(a, b);
    lemma_lex_compare_zero(la, lb);
    lemma_lex_compare_zero(lb, lc);
    lemma_lex_compare_zero(la, lc);
    lemma_lex_compare_zero(a, c);
    lemma_lex_compare_zero(b, c);
    if name_order(a, b) <= 0 && name_order(b, c) <= 0 {
        lemma_lex_compare_transitive(la, lb, lc);
        lemma_lex_compare_antisymmetric(la, lc);
        lemma_lex_compare_antisymmetric(lb, lc);
        lemma_lex_compare_antisymmetric(la, lb);
        if lex_compare(la, lc) == 0 {
            // then the lowercase forms of all three are equal
            lemma_lex_compare_transitive(lc, la, lb);
            lemma_lex_compare_transitive(lb, lc, la);
            lemma_lex_compare_transitive(a, b, c);
        }
    }
}

/// Trimming keeps a contiguous part of the text: `trimmed(s)` is
/// `s[start..end]` for some `start <= end`.
pub proof fn lemma_trimmed_is_subrange(s: Seq<char>)
    ensures
        exists|start: int, end: int|
            0 <= start <= end <= s.len() && trimmed(s) == s.subrange(start, end),
{
    lemma_trim_start_skip_exists(s);
    let start = choose|start: int| 0 <= start <= s.len() && trim_start(s) == s.skip(start);
    let t = s.skip(start);
    lemma_trim_end_take_exists(t);
    let m = choose|m: int| 0 <= m <= t.len() && trim_end(t) == t.take(m);
    assert(t.take(m) =~= s.subrange(start, start + m));
}

proof fn lemma_trim_start_skip_exists(s: Seq<char>)
    ensures
        exists|start: int| 0 <= start <= s.len() && trim_start(s) == s.skip(start),
    decreases s.len(),
{
    if s.len() > 0 && is_white_space(s[0]) {
        lemma_trim_start_skip_exists(s.drop_first());
        let k = choose|k: int| 0 <= k <= s.drop_first().len() && trim_start(s.drop_first()) == s.drop_first().skip(k);
        assert(s.drop_first().skip(k) =~= s.skip(k + 1));
    } else {
        assert(s.skip(0) =~= s);
    }
}

proof fn lemma_trim_end_take_exists(s: Seq<char>)
    ensures
        exists|m: int| 0 <= m <= s.len() && trim_end(s) == s.take(m),
    decreases s.len(),
{
    if s.len() > 0 && is_white_space(s.last()) {
        lemma_trim_end_take_exists(s.drop_last());
        let k = choose|k: int| 0 <= k <= s.drop_last().len() && trim_end(s.drop_last()) == s.drop_last().take(k);
        assert(s.drop_last().take(k) =~= s.take(k));
    } else {
        assert(s.take(s.len() as int) =~= s);
    }
}

/// Every character of an expansion comes from the expansion of one
/// character of the text.
pub proof fn lemma_expand_chars_member(s: Seq<char>, f: spec_fn(char) -> Seq<char>, i: int)
    requires
        0 <= i < expand_chars(s, f).len(),
    ensures
        exists|j: int, k: int|
            0 <= j < s.len() && 0 <= k < f(s[j]).len() && expand_chars(s, f)[i] == #[trigger] f(s[j])[k],
    decreases s.len(),
{
    let rest = s.drop_last();
    let head = expand_chars(rest, f);
    if i < head.len() {
        lemma_expand_chars_member(rest, f, i);
        let (j, k) = choose|j: int, k: int|
            0 <= j < rest.len() && 0 <= k < f(rest[j]).len() && head[i] == #[trigger] f(rest[j])[k];
        assert(rest[j] == s[j]);
    } else {
        let j = s.len() - 1;
        let k = i - head.len();
        assert(expand_chars(s, f)[i] == f(s[j])[k]);
    }
}


/// Whether `needle` stands somewhere in `hay` as a contiguous piece.
pub open spec fn occurs_in(needle: Seq<char>, hay: Seq<char>) -> bool {
    exists|i: int|
        0 <= i && i + needle.len() <= hay.len() && #[trigger] hay.subrange(i, i + needle.len())
            == needle
}

/// A text occurs in itself.
pub proof fn lemma_occurs_in_self(n: Seq<char>)
    ensures
        occurs_in(n, n),
{
    assert(n.subrange(0, 0 + n.len() as int) =~= n);
    assert(0 + n.len() <= n.len());
}

/// What occurs in a piece of a text occurs in the text.
pub proof fn lemma_occurs_in_concat(n: Seq<char>, a: Seq<char>, h: Seq<char>, b: Seq<char>)
    requires
        occurs_in(n, h),
    ensures
        occurs_in(n, a + h + b),
{
    let i = choose|i: int|
        0 <= i && i + n.len() <= h.len() && #[trigger] h.subrange(i, i + n.len()) == n;
    let t = a + h + b;
    let j = a.len() + i;
    assert(t.subrange(j, j + n.len()) =~= h.subrange(i, i + n.len()));
}

/// What occurs in a text occurs in it with more text before it.
pub proof fn lemma_occurs_in_prepend(n: Seq<char>, a: Seq<char>, h: Seq<char>)
    requires
        occurs_in(n, h),
    ensures
        occurs_in(n, a + h),
{
    lemma_occurs_in_concat(n, a, h, Seq::empty());
    assert(a + h + Seq::<char>::empty() =~= a + h);
}

/// What occurs in a text occurs in it with more text after it.
pub proof fn lemma_occurs_in_append(n: Seq<char>, h: Seq<char>, b: Seq<char>)
    requires
        occurs_in(n, h),
    ensures
        occurs_in(n, h + b),
{
    lemma_occurs_in_concat(n, Seq::empty(), h, b);
    assert(Seq::<char>::empty() + h + b =~= h + b);
}

/// Occurring in is transitive.
pub proof fn lemma_occurs_in_trans(n: Seq<char>, m: Seq<char>, h: Seq<char>)
    requires
        occurs_in(n, m),
        occurs_in(m, h),
    ensures
        occurs_in(n, h),
{
    let i = choose|i: int|
        0 <= i && i + n.len() <= m.len() && #[trigger] m.subrange(i, i + n.len()) == n;
    let j = choose|j: int|
        0 <= j && j + m.len() <= h.len() && #[trigger] h.subrange(j, j + m.len()) == m;
    assert(h.subrange(j + i, j + i + n.len()) =~= m.subrange(i, i + n.len()));
}

} // verus!
