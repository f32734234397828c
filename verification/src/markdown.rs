//! Escaping of text for Markdown and HTML, and the anchors that GitHub gives
//! to headings.
use vstd::prelude::*;
use crate::text::{
    chars_of, expand_chars, is_white_space, is_white_space_char, lemma_expand_chars_member,
    lemma_expand_chars_step, lemma_trimmed_is_subrange, lowercase, string_from_chars,
    to_lowercase, trim, trimmed,
};

verus! {

/// How one character is written in Markdown link text: backslashes and
/// square brackets get a backslash in front.
pub open spec fn markdown_escape_char(c: char) -> Seq<char> {
    if c == '\\' {
        seq!['\\', '\\']
    } else if c == '[' {
        seq!['\\', '[']
    } else if c == ']' {
        seq!['\\', ']']
    } else {
        seq![c]
    }
}

/// `s` escaped for Markdown link text.
pub open spec fn markdown_escaped(s: Seq<char>) -> Seq<char> {
    expand_chars(s, |c: char| markdown_escape_char(c))
}

/// Escapes `\`, `[` and `]` with a backslash, so that the text can stand
/// inside the brackets of a Markdown link.
pub fn escape_markdown_text(value: &str) -> (r: String)
    ensures
        r@ == markdown_escaped(value@),
{
    let cs = chars_of(value);
    let mut r = String::new();
    let mut i: usize = 0;
    while i < cs.len()
        invariant
            i <= cs@.len(),
            cs@ == value@,
            r@ == markdown_escaped(cs@.take(i as int)),
        decreases cs.len() - i,
    {
        let c = cs[i];
        proof {
            lemma_expand_chars_step(cs@, |c: char| markdown_escape_char(c), i as int);
        }
        if c == '\\' {
            r.push('\\');
            r.push('\\');
        } else if c == '[' {
            r.push('\\');
            r.push('[');
        } else if c == ']' {
            r.push('\\');
            r.push(']');
        } else {
            r.push(c);
        }
        assert(r@ =~= markdown_escaped(cs@.take(i + 1)));
        i = i + 1;
    }
    assert(cs@.take(cs@.len() as int) =~= cs@);
    r
}

/// `s` with every line feed replaced by a space.
pub open spec fn newlines_to_spaces(s: Seq<char>) -> Seq<char> {
    s.map_values(|c: char| if c == '\n' { ' ' } else { c })
}

/// A platform name as a Markdown heading: line feeds become spaces and the
/// result is trimmed.
pub open spec fn markdown_heading(s: Seq<char>) -> Seq<char> {
    trimmed(newlines_to_spaces(s))
}

/// Makes a name fit a one-line Markdown heading.
pub fn escape_markdown_heading(value: &str) -> (r: String)
    ensures
        r@ == markdown_heading(value@),
{
    let cs = chars_of(value);
    let mut line = String::new();
    let mut i: usize = 0;
    while i < cs.len()
        invariant
            i <= cs@.len(),
            cs@ == value@,
            line@ == newlines_to_spaces(cs@.take(i as int)),
        decreases cs.len() - i,
    {
        let c = cs[i];
        if c == '\n' {
            line.push(' ');
        } else {
            line.push(c);
        }
        assert(line@ =~= newlines_to_spaces(cs@.take(i + 1)));
        i = i + 1;
    }
    assert(cs@.take(cs@.len() as int) =~= cs@);
    trim(line.as_str())
}

/// How one character is written in HTML text: `&`, `<` and `>` become
/// character references.
pub open spec fn html_escape_char(c: char) -> Seq<char> {
    if c == '&' {
        seq!['&', 'a', 'm', 'p', ';']
    } else if c == '<' {
        seq!['&', 'l', 't', ';']
    } else if c == '>' {
        seq!['&', 'g', 't', ';']
    } else {
        seq![c]
    }
}

/// `s` escaped for HTML text.
pub open spec fn html_escaped(s: Seq<char>) -> Seq<char> {
    expand_chars(s, |c: char| html_escape_char(c))
}

/// Calls `html_escape::encode_text`, which replaces every `&`, `<` and `>`
/// of `s` with `&amp;`, `&lt;` and `&gt;` and keeps every other character.
#[verifier::external_body]
pub(crate) fn encode_text(s: &str) -> (r: String)
    ensures
        r@ == html_escaped(s@),
{
    html_escape::encode_text(s).into_owned()
}

/// Whether a character is alphabetic or numeric in Unicode, as
/// `char::is_alphanumeric` decides.
pub uninterp spec fn alphanumeric(c: char) -> bool;

/// Whether a character is an ASCII letter or digit.
pub open spec fn is_ascii_alphanumeric(c: char) -> bool {
    ||| ('0' <= c && c <= '9')
    ||| ('A' <= c && c <= 'Z')
    ||| ('a' <= c && c <= 'z')
}

fn ascii_alphanumeric_char(c: char) -> (r: bool)
    ensures
        r == is_ascii_alphanumeric(c),
{
    ('0' <= c && c <= '9') || ('A' <= c && c <= 'Z') || ('a' <= c && c <= 'z')
}

/// Calls `char::is_alphanumeric`, whose result is named `alphanumeric`. It
/// is `true` for the characters that are alphabetic or numeric in Unicode;
/// among the ASCII characters these are exactly the letters and the
/// digits, so the hyphen-minus `-` in particular gives `false`.
#[verifier::external_body]
fn is_alphanumeric_char(c: char) -> (r: bool)
    ensures
        r == alphanumeric(c),
        c == '-' ==> !r,
        c <= '\u{7f}' ==> (r <==> is_ascii_alphanumeric(c)),
{
    c.is_alphanumeric()
}

/// One step of building a heading anchor: the anchor so far and whether it
/// ends in a hyphen that a separator put there. (`-` is not alphanumeric,
/// so it is always a separator.)
pub open spec fn anchor_step(state: (Seq<char>, bool), c: char) -> (Seq<char>, bool) {
    if c != '-' && (alphanumeric(c) || c == '_') {
        (state.0.push(c), false)
    } else if is_white_space(c) || c == '-' {
        if state.0.len() > 0 && !state.1 {
            (state.0.push('-'), true)
        } else {
            state
        }
    } else {
        state
    }
}

/// The anchor built from the characters of `s`: letters, digits and `_`
/// are kept, each run of whitespace and hyphens after some kept character
/// becomes one hyphen, and everything else is dropped.
pub open spec fn anchor_scan(s: Seq<char>) -> (Seq<char>, bool)
    decreases s.len(),
{
    if s.len() == 0 {
        (Seq::empty(), false)
    } else {
        anchor_step(anchor_scan(s.drop_last()), s.last())
    }
}

/// `a` without its trailing hyphens.
pub open spec fn strip_trailing_hyphens(a: Seq<char>) -> Seq<char>
    decreases a.len(),
{
    if a.len() > 0 && a.last() == '-' {
        strip_trailing_hyphens(a.drop_last())
    } else {
        a
    }
}

/// The anchor that GitHub gives a heading with the text `value`.
pub open spec fn heading_anchor(value: Seq<char>) -> Seq<char> {
    strip_trailing_hyphens(anchor_scan(lowercase(value)).0)
}

proof fn lemma_strip_trailing_take(a: Seq<char>, k: int)
    requires
        0 <= k <= a.len(),
        forall|j: int| k <= j < a.len() ==> #[trigger] a[j] == '-',
    ensures
        strip_trailing_hyphens(a) == strip_trailing_hyphens(a.take(k)),
    decreases a.len() - k,
{
    if k < a.len() {
        assert(a.drop_last().take(k) =~= a.take(k));
        assert forall|j: int| k <= j < a.drop_last().len() implies #[trigger] a.drop_last()[j]
            == '-' by {
            assert(a.drop_last()[j] == a[j]);
        }
        lemma_strip_trailing_take(a.drop_last(), k);
    } else {
        assert(a.take(k) =~= a);
    }
}

/// The anchor of a Markdown heading as GitHub builds it: the lowercase text
/// with letters, digits and `_` kept, runs of whitespace and `-` turned
/// into single hyphens, other characters dropped, and no trailing hyphen.
pub fn github_heading_anchor(value: &str) -> (r: String)
    ensures
        r@ == heading_anchor(value@),
        is_ascii_words(lowercase(value@)) ==> r@ == spaces_to_hyphens(lowercase(value@)),
{
    let lower = to_lowercase(value);
    anchor_of_lowercase(lower.as_str())
}

/// The heading anchor built from the already lowercased text `lower`. Words
/// of ASCII letters, digits and `_` separated by single spaces give those
/// words joined with hyphens.
pub fn anchor_of_lowercase(lower: &str) -> (r: String)
    ensures
        r@ == strip_trailing_hyphens(anchor_scan(lower@).0),
        is_ascii_words(lower@) ==> r@ == spaces_to_hyphens(lower@),
{
    let cs = chars_of(lower);
    let mut anchor: Vec<char> = Vec::new();
    let mut previous_was_hyphen = false;
    let mut i: usize = 0;
    while i < cs.len()
        invariant
            i <= cs@.len(),
            cs@ == lower@,
            (anchor@, previous_was_hyphen) == anchor_scan(cs@.take(i as int)),
            forall|j: int|
                0 <= j < i ==> (#[trigger] cs@[j] <= '\u{7f}' ==> (alphanumeric(cs@[j])
                    <==> is_ascii_alphanumeric(cs@[j]))),
        decreases cs.len() - i,
    {
        let c = cs[i];
        assert(cs@.take(i + 1).drop_last() =~= cs@.take(i as int));
        // ASCII characters are told apart by their ranges, as
        // `char::is_alphanumeric` is documented to decide them; the call
        // decides every other character.
        let alphanumeric_c = is_alphanumeric_char(c);
        let word = if c <= '\u{7f}' {
            ascii_alphanumeric_char(c)
        } else {
            alphanumeric_c
        };
        if word || c == '_' {
            anchor.push(c);
            previous_was_hyphen = false;
        } else if is_white_space_char(c) || c == '-' {
            if anchor.len() > 0 && !previous_was_hyphen {
                anchor.push('-');
                previous_was_hyphen = true;
            }
        }
        i = i + 1;
    }
    assert(cs@.take(cs@.len() as int) =~= cs@);
    let mut end: usize = anchor.len();
    assert(anchor@.take(end as int) =~= anchor@);
    while end > 0 && anchor[end - 1] == '-'
        invariant
            end <= anchor@.len(),
            strip_trailing_hyphens(anchor@) == strip_trailing_hyphens(anchor@.take(end as int)),
        decreases end,
    {
        assert(anchor@.take(end as int).drop_last() =~= anchor@.take(end - 1));
        end = end - 1;
    }
    proof {
        if end > 0 {
            assert(anchor@.take(end as int).last() == anchor@[end - 1]);
        }
        if is_ascii_words(lower@) {
            lemma_anchor_of_ascii_words(lower@);
        }
    }
    string_from_chars(&anchor, 0, end)
}

/// Words of ASCII letters, digits and `_`, separated by single spaces, with
/// no space at either end.
pub open spec fn is_ascii_words(s: Seq<char>) -> bool {
    &&& forall|i: int|
        0 <= i < s.len() ==> is_ascii_alphanumeric(#[trigger] s[i]) || s[i] == '_' || s[i] == ' '
    &&& s.len() > 0 ==> s[0] != ' ' && s.last() != ' '
    &&& forall|i: int| 0 <= i < s.len() - 1 ==> !(#[trigger] s[i] == ' ' && s[i + 1] == ' ')
}

/// `s` with every space replaced by a hyphen.
pub open spec fn spaces_to_hyphens(s: Seq<char>) -> Seq<char> {
    s.map_values(|c: char| if c == ' ' { '-' } else { c })
}

proof fn lemma_anchor_scan_of_words(s: Seq<char>)
    requires
        forall|i: int|
            0 <= i < s.len() ==> is_ascii_alphanumeric(#[trigger] s[i]) || s[i] == '_' || s[i] == ' ',
        forall|i: int| 0 <= i < s.len() ==> (alphanumeric(#[trigger] s[i]) <==> is_ascii_alphanumeric(s[i])),
        s.len() > 0 ==> s[0] != ' ',
        forall|i: int| 0 <= i < s.len() - 1 ==> !(#[trigger] s[i] == ' ' && s[i + 1] == ' '),
    ensures
        anchor_scan(s) == (spaces_to_hyphens(s), s.len() > 0 && s.last() == ' '),
    decreases s.len(),
{
    if s.len() > 0 {
        let d = s.drop_last();
        let c = s.last();
        assert forall|i: int| 0 <= i < d.len() implies is_ascii_alphanumeric(#[trigger] d[i]) || d[i]
            == '_' || d[i] == ' ' by {
            assert(d[i] == s[i]);
        }
        assert forall|i: int| 0 <= i < d.len() implies (alphanumeric(#[trigger] d[i])
            <==> is_ascii_alphanumeric(d[i])) by {
            assert(d[i] == s[i]);
        }
        assert forall|i: int| 0 <= i < d.len() - 1 implies !(#[trigger] d[i] == ' ' && d[i + 1]
            == ' ') by {
            assert(d[i] == s[i] && d[i + 1] == s[i + 1]);
        }
        if d.len() > 0 {
            assert(d[0] == s[0]);
        }
        lemma_anchor_scan_of_words(d);
        assert(c == s[s.len() - 1]);
        assert(is_ascii_alphanumeric(c) || c == '_' || c == ' ');
        assert(alphanumeric(c) <==> is_ascii_alphanumeric(c));
        if c == ' ' {
            assert(d.len() > 0);
            assert(d.last() == s[s.len() - 2]);
            assert(d.last() != ' ');
            assert(spaces_to_hyphens(d).last() != '-');
            assert(is_white_space(c));
        }
        assert(spaces_to_hyphens(d).push(if c == ' ' { '-' } else { c }) =~= spaces_to_hyphens(s));
    } else {
        assert(spaces_to_hyphens(s) =~= Seq::<char>::empty());
    }
}

/// The anchor of words of ASCII letters, digits and `_` separated by single
/// spaces is those words joined with hyphens, once the words' characters
/// are known to be the ones that `char::is_alphanumeric` accepts.
proof fn lemma_anchor_of_ascii_words(s: Seq<char>)
    requires
        is_ascii_words(s),
        forall|j: int| 0 <= j < s.len() ==> (#[trigger] s[j] <= '\u{7f}' ==> (alphanumeric(s[j])
            <==> is_ascii_alphanumeric(s[j]))),
    ensures
        strip_trailing_hyphens(anchor_scan(s).0) == spaces_to_hyphens(s),
{
    assert forall|i: int| 0 <= i < s.len() implies (alphanumeric(#[trigger] s[i])
        <==> is_ascii_alphanumeric(s[i])) by {
        assert(is_ascii_alphanumeric(s[i]) || s[i] == '_' || s[i] == ' ');
        assert(s[i] <= '\u{7f}');
    }
    lemma_anchor_scan_of_words(s);
    let a = spaces_to_hyphens(s);
    if s.len() > 0 {
        assert(a.last() == s.last());
        assert(s.last() != ' ');
        assert(is_ascii_alphanumeric(s.last()) || s.last() == '_');
    }
}

/// What holds of every state of the anchor scan.
pub open spec fn anchor_state_ok(state: (Seq<char>, bool)) -> bool {
    let a = state.0;
    &&& a.len() > 0 ==> a[0] != '-'
    &&& state.1 <==> (a.len() > 0 && a.last() == '-')
    &&& forall|i: int| 0 <= i < a.len() - 1 ==> !(#[trigger] a[i] == '-' && a[i + 1] == '-')
    &&& forall|i: int|
        0 <= i < a.len() ==> #[trigger] a[i] == '-' || a[i] == '_' || alphanumeric(a[i])
}

proof fn lemma_anchor_scan_ok(s: Seq<char>)
    ensures
        anchor_state_ok(anchor_scan(s)),
    decreases s.len(),
{
    if s.len() > 0 {
        lemma_anchor_scan_ok(s.drop_last());
        let st = anchor_scan(s.drop_last());
        let c = s.last();
        let nx = anchor_step(st, c);
        if c != '-' && (alphanumeric(c) || c == '_') {
            assert forall|i: int| 0 <= i < nx.0.len() - 1 implies !(#[trigger] nx.0[i] == '-'
                && nx.0[i + 1] == '-') by {
                if i + 1 < st.0.len() {
                    assert(nx.0[i] == st.0[i] && nx.0[i + 1] == st.0[i + 1]);
                }
            }
            assert forall|i: int| 0 <= i < nx.0.len() implies #[trigger] nx.0[i] == '-' || nx.0[i]
                == '_' || alphanumeric(nx.0[i]) by {
                if i < st.0.len() {
                    assert(nx.0[i] == st.0[i]);
                }
            }
        } else if (is_white_space(c) || c == '-') && st.0.len() > 0 && !st.1 {
            assert forall|i: int| 0 <= i < nx.0.len() - 1 implies !(#[trigger] nx.0[i] == '-'
                && nx.0[i + 1] == '-') by {
                if i + 1 < st.0.len() {
                    assert(nx.0[i] == st.0[i] && nx.0[i + 1] == st.0[i + 1]);
                } else {
                    assert(nx.0[i] == st.0.last());
                }
            }
            assert forall|i: int| 0 <= i < nx.0.len() implies #[trigger] nx.0[i] == '-' || nx.0[i]
                == '_' || alphanumeric(nx.0[i]) by {
                if i < st.0.len() {
                    assert(nx.0[i] == st.0[i]);
                }
            }
        }
    }
}

proof fn lemma_strip_trailing_hyphens_ok(a: Seq<char>)
    requires
        anchor_state_ok((a, a.len() > 0 && a.last() == '-')),
    ensures
        ({
            let r = strip_trailing_hyphens(a);
            &&& r.len() > 0 ==> r[0] != '-' && r.last() != '-'
            &&& forall|i: int| 0 <= i < r.len() - 1 ==> !(#[trigger] r[i] == '-' && r[i + 1] == '-')
            &&& forall|i: int|
                0 <= i < r.len() ==> #[trigger] r[i] == '-' || r[i] == '_' || alphanumeric(r[i])
        }),
{
    if a.len() > 0 && a.last() == '-' {
        let b = a.drop_last();
        if b.len() > 0 {
            assert(b.last() == a[a.len() - 2]);
            assert(b.last() != '-');
            assert(b[0] == a[0]);
        }
        assert(strip_trailing_hyphens(b) == b);
        assert forall|i: int| 0 <= i < b.len() - 1 implies !(#[trigger] b[i] == '-' && b[i + 1]
            == '-') by {
            assert(b[i] == a[i] && b[i + 1] == a[i + 1]);
        }
        assert forall|i: int| 0 <= i < b.len() implies #[trigger] b[i] == '-' || b[i] == '_'
            || alphanumeric(b[i]) by {
            assert(b[i] == a[i]);
        }
    }
}

/// A heading anchor never starts or ends with a hyphen, never holds two
/// hyphens in a row, and holds only hyphens, underscores, letters and
/// digits.
pub proof fn lemma_heading_anchor_well_formed(value: Seq<char>)
    ensures
        ({
            let a = heading_anchor(value);
            &&& a.len() > 0 ==> a[0] != '-' && a.last() != '-'
            &&& forall|i: int| 0 <= i < a.len() - 1 ==> !(#[trigger] a[i] == '-' && a[i + 1] == '-')
            &&& forall|i: int|
                0 <= i < a.len() ==> #[trigger] a[i] == '-' || a[i] == '_' || alphanumeric(a[i])
        }),
{
    lemma_anchor_scan_ok(lowercase(value));
    lemma_strip_trailing_hyphens_ok(anchor_scan(lowercase(value)).0);
}

proof fn lemma_anchor_scan_of_anchor(a: Seq<char>)
    requires
        a.len() > 0 ==> a[0] != '-',
        forall|i: int| 0 <= i < a.len() - 1 ==> !(#[trigger] a[i] == '-' && a[i + 1] == '-'),
        forall|i: int| 0 <= i < a.len() ==> #[trigger] a[i] == '-' || a[i] == '_' || alphanumeric(a[i]),
    ensures
        anchor_scan(a) == (a, a.len() > 0 && a.last() == '-'),
    decreases a.len(),
{
    if a.len() > 0 {
        let d = a.drop_last();
        let c = a.last();
        assert forall|i: int| 0 <= i < d.len() - 1 implies !(#[trigger] d[i] == '-' && d[i + 1] == '-') by {
            assert(d[i] == a[i] && d[i + 1] == a[i + 1]);
        }
        assert forall|i: int| 0 <= i < d.len() implies #[trigger] d[i] == '-' || d[i] == '_' || alphanumeric(d[i]) by {
            assert(d[i] == a[i]);
        }
        if d.len() > 0 {
            assert(d[0] == a[0]);
        }
        lemma_anchor_scan_of_anchor(d);
        assert(c == a[a.len() - 1]);
        if c == '-' {
            assert(d.len() > 0);
            assert(d.last() == a[a.len() - 2]);
            assert(d.last() != '-');
        }
        assert(d.push(c) =~= a);
    } else {
        assert(a =~= Seq::<char>::empty());
    }
}

/// A heading anchor is its own anchor once lowercased: building the anchor
/// of the anchor's characters, with no further lowercasing, gives it back;
/// so wherever lowercasing leaves an anchor as it is, the anchor of the
/// anchor is the anchor itself.
pub proof fn lemma_anchor_of_heading_anchor(value: Seq<char>)
    ensures
        strip_trailing_hyphens(anchor_scan(heading_anchor(value)).0) == heading_anchor(value),
        lowercase(heading_anchor(value)) == heading_anchor(value) ==> heading_anchor(
            heading_anchor(value),
        ) == heading_anchor(value),
{
    let a = heading_anchor(value);
    lemma_heading_anchor_well_formed(value);
    lemma_anchor_scan_of_anchor(a);
}

/// The replacement of one character: `by` for `c`, any other character
/// kept.
pub open spec fn replace_char_with(c: char, by: Seq<char>) -> spec_fn(char) -> Seq<char> {
    |x: char| if x == c { by } else { seq![x] }
}

/// `s` with every `c` replaced by `by`, as `str::replace` with a character
/// pattern gives it.
pub open spec fn replaced(s: Seq<char>, c: char, by: Seq<char>) -> Seq<char> {
    expand_chars(s, replace_char_with(c, by))
}

proof fn lemma_expand_chars_add(a: Seq<char>, b: Seq<char>, f: spec_fn(char) -> Seq<char>)
    ensures
        expand_chars(a + b, f) == expand_chars(a, f) + expand_chars(b, f),
    decreases b.len(),
{
    if b.len() == 0 {
        assert(a + b =~= a);
        assert(expand_chars(a, f) + expand_chars(b, f) =~= expand_chars(a, f));
    } else {
        assert((a + b).drop_last() =~= a + b.drop_last());
        lemma_expand_chars_add(a, b.drop_last(), f);
        assert(expand_chars(a + b, f) =~= expand_chars(a, f) + expand_chars(b, f));
    }
}

proof fn lemma_expand_chars_single(x: char, f: spec_fn(char) -> Seq<char>)
    ensures
        expand_chars(seq![x], f) == f(x),
{
    assert(seq![x].drop_last() =~= Seq::<char>::empty());
    assert(expand_chars(Seq::<char>::empty(), f) == Seq::<char>::empty());
    assert(Seq::<char>::empty() + f(x) =~= f(x));
}

proof fn lemma_expand_chars_pair(x: char, y: char, f: spec_fn(char) -> Seq<char>)
    ensures
        expand_chars(seq![x, y], f) == f(x) + f(y),
{
    assert(seq![x, y] =~= seq![x] + seq![y]);
    lemma_expand_chars_add(seq![x], seq![y], f);
    lemma_expand_chars_single(x, f);
    lemma_expand_chars_single(y, f);
}

/// Escaping for Markdown link text is replacing, in turn, every `\` with
/// `\\`, every `[` with `\[` and every `]` with `\]`.
pub proof fn lemma_markdown_escape_is_replacements(s: Seq<char>)
    ensures
        markdown_escaped(s) == replaced(
            replaced(replaced(s, '\\', seq!['\\', '\\']), '[', seq!['\\', '[']),
            ']',
            seq!['\\', ']'],
        ),
    decreases s.len(),
{
    let f1 = replace_char_with('\\', seq!['\\', '\\']);
    let f2 = replace_char_with('[', seq!['\\', '[']);
    let f3 = replace_char_with(']', seq!['\\', ']']);
    if s.len() == 0 {
        assert(markdown_escaped(s) =~= Seq::<char>::empty());
        assert(expand_chars(s, f1) =~= Seq::<char>::empty());
        assert(expand_chars(Seq::<char>::empty(), f2) =~= Seq::<char>::empty());
        assert(expand_chars(Seq::<char>::empty(), f3) =~= Seq::<char>::empty());
    } else {
        let rest = s.drop_last();
        let c = s.last();
        lemma_markdown_escape_is_replacements(rest);
        let r1 = expand_chars(rest, f1);
        let r2 = expand_chars(r1, f2);
        let e1 = f1(c);
        let e2 = expand_chars(e1, f2);
        let e3 = expand_chars(e2, f3);
        lemma_expand_chars_add(r1, e1, f2);
        lemma_expand_chars_add(r2, e2, f3);
        assert(expand_chars(s, f1) == r1 + e1);
        if c == '\\' {
            lemma_expand_chars_pair('\\', '\\', f2);
            lemma_expand_chars_pair('\\', '\\', f3);
            assert(e2 =~= seq!['\\', '\\']);
            assert(e3 =~= seq!['\\', '\\']);
        } else if c == '[' {
            lemma_expand_chars_single('[', f2);
            lemma_expand_chars_pair('\\', '[', f3);
            assert(e3 =~= seq!['\\', '[']);
        } else {
            lemma_expand_chars_single(c, f2);
            lemma_expand_chars_single(c, f3);
        }
        assert(markdown_escaped(s) == markdown_escaped(rest) + markdown_escape_char(c));
        assert(e3 == markdown_escape_char(c));
    }
}

/// Whether Markdown link text escapes the character: `\`, `[` and `]`.
pub open spec fn is_markdown_special(c: char) -> bool {
    c == '\\' || c == '[' || c == ']'
}

/// Undoes Markdown escaping, reading left to right: a backslash and the
/// character after it stand for that character.
pub open spec fn markdown_unescaped(s: Seq<char>) -> Seq<char>
    decreases s.len(),
{
    if s.len() == 0 {
        Seq::empty()
    } else if s[0] == '\\' && s.len() >= 2 {
        seq![s[1]] + markdown_unescaped(s.skip(2))
    } else {
        seq![s[0]] + markdown_unescaped(s.skip(1))
    }
}

/// Escaped Markdown link text can be read back: unescaping it gives the
/// text that was escaped.
pub proof fn lemma_markdown_unescape_escaped(s: Seq<char>)
    ensures
        markdown_unescaped(markdown_escaped(s)) == s,
    decreases s.len(),
{
    let f = |c: char| markdown_escape_char(c);
    if s.len() == 0 {
        assert(markdown_escaped(s) =~= Seq::<char>::empty());
        assert(s =~= Seq::<char>::empty());
    } else {
        let c = s[0];
        let rest = s.drop_first();
        assert(s =~= seq![c] + rest);
        lemma_expand_chars_add(seq![c], rest, f);
        lemma_expand_chars_single(c, f);
        lemma_markdown_unescape_escaped(rest);
        let t = markdown_escaped(rest);
        let e = markdown_escaped(s);
        assert(e == markdown_escape_char(c) + t);
        if is_markdown_special(c) {
            assert(e[0] == '\\' && e[1] == c);
            assert(e.skip(2) =~= t);
        } else {
            assert(e[0] == c);
            assert(e.skip(1) =~= t);
        }
        assert(markdown_unescaped(e) =~= seq![c] + rest);
    }
}

/// Escaping Markdown link text adds exactly one backslash for each `\`, `[`
/// and `]` of the text.
pub proof fn lemma_markdown_escaped_len(s: Seq<char>)
    ensures
        markdown_escaped(s).len() == s.len() + s.filter(|c: char| is_markdown_special(c)).len(),
    decreases s.len(),
{
    reveal(Seq::filter);
    if s.len() > 0 {
        lemma_markdown_escaped_len(s.drop_last());
        assert(markdown_escaped(s) == markdown_escaped(s.drop_last()) + markdown_escape_char(
            s.last(),
        ));
    } else {
        assert(markdown_escaped(s) =~= Seq::<char>::empty());
    }
}

/// A platform heading is one line: it holds no line feed.
pub proof fn lemma_markdown_heading_one_line(s: Seq<char>)
    ensures
        forall|i: int| 0 <= i < markdown_heading(s).len() ==> #[trigger] markdown_heading(s)[i] != '\n',
{
    let m = newlines_to_spaces(s);
    lemma_trimmed_is_subrange(m);
    let (start, end) = choose|start: int, end: int|
        0 <= start <= end <= m.len() && trimmed(m) == m.subrange(start, end);
    assert forall|i: int| 0 <= i < markdown_heading(s).len() implies #[trigger] markdown_heading(s)[i] != '\n' by {
        assert(markdown_heading(s)[i] == m[start + i]);
    }
}

/// Text escaped for HTML holds no `<` and no `>`.
pub proof fn lemma_html_escaped_has_no_tags(s: Seq<char>)
    ensures
        forall|i: int|
            0 <= i < html_escaped(s).len() ==> #[trigger] html_escaped(s)[i] != '<' && html_escaped(s)[i]
                != '>',
{
    let f = |c: char| html_escape_char(c);
    assert forall|i: int| 0 <= i < html_escaped(s).len() implies #[trigger] html_escaped(s)[i] != '<'
        && html_escaped(s)[i] != '>' by {
        lemma_expand_chars_member(s, f, i);
        let (j, k) = choose|j: int, k: int|
            0 <= j < s.len() && 0 <= k < f(s[j]).len() && expand_chars(s, f)[i] == #[trigger] f(s[j])[k];
        let c = s[j];
        if c == '&' {
            assert(f(c) == seq!['&', 'a', 'm', 'p', ';']);
        } else if c == '<' {
            assert(f(c) == seq!['&', 'l', 't', ';']);
        } else if c == '>' {
            assert(f(c) == seq!['&', 'g', 't', ';']);
        } else {
            assert(f(c) == seq![c]);
        }
    }
}

} // verus!
