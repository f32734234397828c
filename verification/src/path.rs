//! Paths as sequences of component texts: file names, stems, extensions,
//! the supported image formats, hidden entries and the URL-encoded form of a
//! path that the README links to.
use vstd::prelude::*;
use vstd::utf8::{decode_utf8, encode_utf8};
use crate::text::{chars_of, lowercase, to_lowercase, lex_compare_str, lemma_lex_compare_zero};

verus! {

/// Whether a component is one that `Path::components` yields for `.`, `..`
/// or the root, which are not file names.
pub open spec fn is_special_component(c: Seq<char>) -> bool {
    ||| c == seq!['.']
    ||| c == seq!['.', '.']
    ||| c == seq!['/']
}

/// The file name of a path (`Path::file_name`): its last component, when
/// that is a normal component.
pub open spec fn file_name_of(path: Seq<Seq<char>>) -> Option<Seq<char>> {
    if path.len() > 0 && !is_special_component(path.last()) {
        Some(path.last())
    } else {
        None
    }
}

/// The index of the last `.` in `name`, or -1.
pub open spec fn last_dot(name: Seq<char>) -> int
    decreases name.len(),
{
    if name.len() == 0 {
        -1
    } else if name.last() == '.' {
        name.len() - 1
    } else {
        last_dot(name.drop_last())
    }
}

/// The stem of a file name (`Path::file_stem`): the part before the last
/// `.`, or the whole name when it has no `.` after its first character.
pub open spec fn stem_of(name: Seq<char>) -> Seq<char> {
    if last_dot(name) <= 0 {
        name
    } else {
        name.take(last_dot(name))
    }
}

/// The extension of a file name (`Path::extension`): the part after the last
/// `.`, if there is a `.` after its first character.
pub open spec fn extension_of(name: Seq<char>) -> Option<Seq<char>> {
    if last_dot(name) <= 0 {
        None
    } else {
        Some(name.skip(last_dot(name) + 1))
    }
}

/// The image formats that the gallery shows, by lowercase extension.
pub open spec fn is_supported_extension(ext: Seq<char>) -> bool {
    ||| ext == "webp"@
    ||| ext == "png"@
    ||| ext == "jpg"@
    ||| ext == "jpeg"@
    ||| ext == "avif"@
}

/// Whether the path names a file in one of the supported image formats,
/// the extension compared without regard to case.
pub open spec fn is_supported_image_path(path: Seq<Seq<char>>) -> bool {
    match file_name_of(path) {
        Some(name) => match extension_of(name) {
            Some(ext) => is_supported_extension(lowercase(ext)),
            None => false,
        },
        None => false,
    }
}

/// The key by which pages without a page number are ordered: the lowercase
/// file name, or the empty text when there is none.
pub open spec fn natural_key_of(path: Seq<Seq<char>>) -> Seq<char> {
    match file_name_of(path) {
        Some(name) => lowercase(name),
        None => Seq::empty(),
    }
}

/// Whether the path's file name starts with a dot.
pub open spec fn is_hidden_path(path: Seq<Seq<char>>) -> bool {
    match file_name_of(path) {
        Some(name) => name.len() > 0 && name[0] == '.',
        None => false,
    }
}

fn is_special(c: &str) -> (r: bool)
    ensures
        r == is_special_component(c@),
{
    let cs = chars_of(c);
    if cs.len() == 1 {
        assert(cs@ == seq![cs@[0]]);
        cs[0] == '.' || cs[0] == '/'
    } else if cs.len() == 2 {
        assert(cs@ == seq![cs@[0], cs@[1]]);
        cs[0] == '.' && cs[1] == '.'
    } else {
        false
    }
}

/// The file name of the path, if it has one.
pub fn file_name(path: &Vec<String>) -> (r: Option<&String>)
    ensures
        match r {
            Some(name) => file_name_of(crate::model::texts(path@)) == Some(name@),
            None => file_name_of(crate::model::texts(path@)) is None,
        },
{
    let n = path.len();
    if n == 0 {
        return None;
    }
    let last = &path[n - 1];
    if is_special(last.as_str()) {
        None
    } else {
        Some(last)
    }
}

proof fn lemma_last_dot_bounds(name: Seq<char>)
    ensures
        -1 <= last_dot(name) < name.len(),
        last_dot(name) >= 0 ==> name[last_dot(name)] == '.',
    decreases name.len(),
{
    if name.len() > 0 && name.last() != '.' {
        lemma_last_dot_bounds(name.drop_last());
    }
}

fn find_last_dot(cs: &Vec<char>) -> (r: usize)
    ensures
        r as int == last_dot(cs@) + 1,
        r <= cs@.len(),
{
    proof {
        lemma_last_dot_bounds(cs@);
    }
    let mut i: usize = cs.len();
    assert(cs@.take(i as int) =~= cs@);
    while i > 0 && cs[i - 1] != '.'
        invariant
            i <= cs@.len(),
            last_dot(cs@) == last_dot(cs@.take(i as int)),
        decreases i,
    {
        assert(cs@.take(i as int).drop_last() =~= cs@.take(i - 1));
        i = i - 1;
    }
    if i > 0 {
        assert(cs@.take(i as int).last() == cs@[i - 1]);
    }
    i
}

/// The stem of a file name (`Path::file_stem`).
pub fn file_stem_of_name(name: &str) -> (r: String)
    ensures
        r@ == stem_of(name@),
{
    let cs = chars_of(name);
    let d = find_last_dot(&cs);
    if d <= 1 {
        crate::text::string_from_chars(&cs, 0, cs.len())
    } else {
        crate::text::string_from_chars(&cs, 0, d - 1)
    }
}

/// The extension of a file name (`Path::extension`).
pub fn extension_of_name(name: &str) -> (r: Option<String>)
    ensures
        match r {
            Some(e) => extension_of(name@) == Some(e@),
            None => extension_of(name@) is None,
        },
{
    let cs = chars_of(name);
    let d = find_last_dot(&cs);
    if d <= 1 {
        None
    } else {
        Some(crate::text::string_from_chars(&cs, d, cs.len()))
    }
}

/// Whether `path` names a supported image file (webp, png, jpg, jpeg or
/// avif), whatever the case of its extension.
pub fn is_supported_image(path: &Vec<String>) -> (r: bool)
    ensures
        r == is_supported_image_path(crate::model::texts(path@)),
{
    let name = match file_name(path) {
        Some(name) => name,
        None => return false,
    };
    let ext = match extension_of_name(name.as_str()) {
        Some(ext) => ext,
        None => return false,
    };
    let lower = to_lowercase(ext.as_str());
    is_supported_lowercase_extension(lower.as_str())
}

/// Whether a lowercase extension is one of the supported image formats.
pub fn is_supported_lowercase_extension(l: &str) -> (r: bool)
    ensures
        r == is_supported_extension(l@),
{
    proof {
        lemma_lex_compare_zero(l@, "webp"@);
        lemma_lex_compare_zero(l@, "png"@);
        lemma_lex_compare_zero(l@, "jpg"@);
        lemma_lex_compare_zero(l@, "jpeg"@);
        lemma_lex_compare_zero(l@, "avif"@);
    }
    lex_compare_str(l, "webp") == 0 || lex_compare_str(l, "png") == 0 || lex_compare_str(l, "jpg")
        == 0 || lex_compare_str(l, "jpeg") == 0 || lex_compare_str(l, "avif") == 0
}

/// The key by which pages without a page number are ordered: the file name
/// in lowercase, or the empty text when there is none.
pub fn natural_path_key(path: &Vec<String>) -> (r: String)
    ensures
        r@ == natural_key_of(crate::model::texts(path@)),
{
    match file_name(path) {
        Some(name) => to_lowercase(name.as_str()),
        None => String::new(),
    }
}

/// Whether the entry is hidden: its file name starts with a dot.
pub fn is_hidden(path: &Vec<String>) -> (r: bool)
    ensures
        r == is_hidden_path(crate::model::texts(path@)),
{
    match file_name(path) {
        Some(name) => {
            let cs = chars_of(name.as_str());
            cs.len() > 0 && cs[0] == '.'
        },
        None => false,
    }
}

/// Whether a byte is left as it is by URL encoding: ASCII letters and
/// digits and `-`, `.`, `_`, `~`.
pub open spec fn is_url_unreserved(b: u8) -> bool {
    ||| (48 <= b && b <= 57)
    ||| (65 <= b && b <= 90)
    ||| (97 <= b && b <= 122)
    ||| b == 45
    ||| b == 46
    ||| b == 95
    ||| b == 126
}

/// The uppercase hexadecimal digit for `d < 16`.
pub open spec fn hex_digit_upper(d: u8) -> char {
    if d < 10 {
        (48 + d) as char
    } else {
        (55 + d) as char
    }
}

/// The URL encoding of one byte: itself, or `%` and two hexadecimal digits.
pub open spec fn percent_escape(b: u8) -> Seq<char> {
    if is_url_unreserved(b) {
        seq![b as char]
    } else {
        seq!['%', hex_digit_upper(b / 16), hex_digit_upper(b % 16)]
    }
}

/// The URL encoding of a byte sequence, byte by byte.
pub open spec fn percent_encoded(bytes: Seq<u8>) -> Seq<char>
    decreases bytes.len(),
{
    if bytes.len() == 0 {
        Seq::empty()
    } else {
        percent_encoded(bytes.drop_last()) + percent_escape(bytes.last())
    }
}

/// The URL encoding of a text: the encoding of its UTF-8 bytes.
pub open spec fn url_encoded(s: Seq<char>) -> Seq<char> {
    percent_encoded(encode_utf8(s))
}

/// Calls `urlencoding::encode`, which percent-encodes every UTF-8 byte of
/// `s` except ASCII letters, digits and `-`, `_`, `.`, `~`, with uppercase
/// hexadecimal digits.
#[verifier::external_body]
fn url_encode(s: &str) -> (r: String)
    ensures
        r@ == url_encoded(s@),
{
    urlencoding::encode(s).into_owned()
}

/// The texts of `parts` joined with `sep` between neighbours.
pub open spec fn joined(parts: Seq<Seq<char>>, sep: Seq<char>) -> Seq<char>
    decreases parts.len(),
{
    if parts.len() == 0 {
        Seq::empty()
    } else if parts.len() == 1 {
        parts[0]
    } else {
        joined(parts.drop_last(), sep) + sep + parts.last()
    }
}

/// The path as the README links to it: each component URL-encoded, joined
/// with `/`.
pub open spec fn repository_path(path: Seq<Seq<char>>) -> Seq<char> {
    joined(path.map_values(|c: Seq<char>| url_encoded(c)), seq!['/'])
}

/// The URL-encoded form of a path, components joined with `/`.
pub fn encode_repository_path(path: &Vec<String>) -> (r: String)
    ensures
        r@ == repository_path(crate::model::texts(path@)),
{
    let ghost parts = crate::model::texts(path@).map_values(|c: Seq<char>| url_encoded(c));
    let mut r = String::new();
    let mut i: usize = 0;
    while i < path.len()
        invariant
            i <= path@.len(),
            parts.len() == path@.len(),
            forall|j: int| 0 <= j < path@.len() ==> #[trigger] parts[j] == url_encoded(path@[j]@),
            r@ == joined(parts.take(i as int), seq!['/']),
        decreases path.len() - i,
    {
        let piece = url_encode(path[i].as_str());
        if i > 0 {
            r.append("/");
            proof {
                reveal_strlit("/");
            }
        }
        r.append(piece.as_str());
        proof {
            let t = parts.take(i + 1);
            assert(t.drop_last() =~= parts.take(i as int));
            if i == 0 {
                assert(t =~= seq![parts[0]]);
            }
        }
        i = i + 1;
    }
    assert(parts.take(path@.len() as int) =~= parts);
    r
}

/// A URL-encoded component holds no `/`, so the components of a repository
/// path can be told apart.
pub proof fn lemma_url_encoded_has_no_slash(bytes: Seq<u8>)
    ensures
        forall|i: int| 0 <= i < percent_encoded(bytes).len() ==> #[trigger] percent_encoded(bytes)[i] != '/',
{
    lemma_percent_encoded_chars(bytes);
}

/// Whether a character is a hexadecimal digit, in either case.
pub open spec fn is_hex_digit(c: char) -> bool {
    ||| (48 <= (c as u32) && (c as u32) <= 57)
    ||| (65 <= (c as u32) && (c as u32) <= 70)
    ||| (97 <= (c as u32) && (c as u32) <= 102)
}

/// The value of a hexadecimal digit.
pub open spec fn hex_value(c: char) -> int {
    if (c as u32) <= 57 {
        (c as u32) - 48
    } else if (c as u32) <= 70 {
        (c as u32) - 55
    } else {
        (c as u32) - 87
    }
}

/// Percent-decoding: `%` and two hexadecimal digits stand for one byte,
/// every other character for its UTF-8 bytes.
pub open spec fn percent_decoded(s: Seq<char>) -> Seq<u8>
    decreases s.len(),
{
    if s.len() == 0 {
        Seq::empty()
    } else if s.len() >= 3 && s[0] == '%' && is_hex_digit(s[1]) && is_hex_digit(s[2]) {
        seq![(hex_value(s[1]) * 16 + hex_value(s[2])) as u8] + percent_decoded(s.skip(3))
    } else {
        encode_utf8(seq![s[0]]) + percent_decoded(s.skip(1))
    }
}

/// The text that a URL-encoded piece stands for: its percent-decoded bytes
/// read as UTF-8.
pub open spec fn url_decoded(s: Seq<char>) -> Seq<char> {
    decode_utf8(percent_decoded(s))
}

/// The pieces of `s` between its `/` characters, as `str::split('/')`
/// gives them: one more piece than there are slashes.
pub open spec fn split_on_slash(s: Seq<char>) -> Seq<Seq<char>>
    decreases s.len(),
{
    if s.len() == 0 {
        seq![Seq::empty()]
    } else if s.last() == '/' {
        split_on_slash(s.drop_last()).push(Seq::empty())
    } else {
        let p = split_on_slash(s.drop_last());
        p.update(p.len() - 1, p.last().push(s.last()))
    }
}

/// The characters that a repository path is made of: ASCII letters and
/// digits, `-`, `_`, `.`, `~`, `%` and `/`.
pub open spec fn is_repository_path_char(c: char) -> bool {
    ||| (48 <= (c as u32) && (c as u32) <= 57)
    ||| (65 <= (c as u32) && (c as u32) <= 90)
    ||| (97 <= (c as u32) && (c as u32) <= 122)
    ||| c == '-'
    ||| c == '_'
    ||| c == '.'
    ||| c == '~'
    ||| c == '%'
    ||| c == '/'
}

proof fn lemma_split_len(s: Seq<char>)
    ensures
        split_on_slash(s).len() >= 1,
    decreases s.len(),
{
    if s.len() > 0 {
        lemma_split_len(s.drop_last());
    }
}

proof fn lemma_split_no_slash(s: Seq<char>)
    requires
        forall|i: int| 0 <= i < s.len() ==> #[trigger] s[i] != '/',
    ensures
        split_on_slash(s) == seq![s],
    decreases s.len(),
{
    if s.len() > 0 {
        let d = s.drop_last();
        assert forall|i: int| 0 <= i < d.len() implies #[trigger] d[i] != '/' by {
            assert(d[i] == s[i]);
        }
        lemma_split_no_slash(d);
        assert(s.last() == s[s.len() - 1]);
        assert(d.push(s.last()) =~= s);
        assert(seq![d].update(0, d.push(s.last())) =~= seq![s]);
    } else {
        assert(s =~= Seq::<char>::empty());
    }
}

proof fn lemma_split_after_slash(x: Seq<char>, y: Seq<char>)
    requires
        forall|i: int| 0 <= i < y.len() ==> #[trigger] y[i] != '/',
    ensures
        split_on_slash(x + seq!['/'] + y) == split_on_slash(x).push(y),
    decreases y.len(),
{
    let s = x + seq!['/'] + y;
    if y.len() == 0 {
        assert(s.drop_last() =~= x);
        assert(s.last() == '/');
        assert(y =~= Seq::<char>::empty());
    } else {
        let d = y.drop_last();
        assert forall|i: int| 0 <= i < d.len() implies #[trigger] d[i] != '/' by {
            assert(d[i] == y[i]);
        }
        lemma_split_after_slash(x, d);
        assert(s.drop_last() =~= x + seq!['/'] + d);
        assert(s.last() == y[y.len() - 1]);
        let p = split_on_slash(x + seq!['/'] + d);
        assert(p == split_on_slash(x).push(d));
        assert(d.push(s.last()) =~= y);
        assert(p.update(p.len() - 1, p.last().push(s.last())) =~= split_on_slash(x).push(y));
    }
}

/// Splitting a `/`-joined list of slash-free pieces gives the pieces back.
proof fn lemma_split_joined(parts: Seq<Seq<char>>)
    requires
        parts.len() >= 1,
        forall|k: int, i: int|
            0 <= k < parts.len() && 0 <= i < parts[k].len() ==> #[trigger] parts[k][i] != '/',
    ensures
        split_on_slash(joined(parts, seq!['/'])) == parts,
    decreases parts.len(),
{
    if parts.len() == 1 {
        let p = parts[0];
        assert forall|i: int| 0 <= i < p.len() implies #[trigger] p[i] != '/' by {
            assert(parts[0][i] != '/');
        }
        lemma_split_no_slash(p);
        assert(parts =~= seq![p]);
    } else {
        let d = parts.drop_last();
        let l = parts.last();
        assert forall|k: int, i: int| 0 <= k < d.len() && 0 <= i < d[k].len() implies #[trigger] d[k][i]
            != '/' by {
            assert(d[k] == parts[k]);
        }
        assert forall|i: int| 0 <= i < l.len() implies #[trigger] l[i] != '/' by {
            assert(parts[parts.len() - 1][i] != '/');
        }
        lemma_split_joined(d);
        lemma_split_after_slash(joined(d, seq!['/']), l);
        assert(d.push(l) =~= parts);
    }
}

proof fn lemma_percent_encoded_add(x: Seq<u8>, y: Seq<u8>)
    ensures
        percent_encoded(x + y) == percent_encoded(x) + percent_encoded(y),
    decreases y.len(),
{
    if y.len() == 0 {
        assert(x + y =~= x);
        assert(percent_encoded(x) + percent_encoded(y) =~= percent_encoded(x));
    } else {
        assert((x + y).drop_last() =~= x + y.drop_last());
        assert((x + y).last() == y.last());
        lemma_percent_encoded_add(x, y.drop_last());
        assert(percent_encoded(x + y) =~= percent_encoded(x) + percent_encoded(y));
    }
}

proof fn lemma_hex_digit_round_trip(d: u8)
    requires
        d < 16,
    ensures
        is_hex_digit(hex_digit_upper(d)),
        hex_value(hex_digit_upper(d)) == d,
{
}

proof fn lemma_ascii_utf8(b: u8)
    requires
        b < 128,
    ensures
        encode_utf8(seq![b as char]) == seq![b],
{
    let c = b as char;
    let v = c as u32;
    assert(v == b as u32);
    assert((v & 0x7F) as u8 == b) by (bit_vector)
        requires
            v == b as u32,
            b < 128,
    ;
    assert(seq![c].drop_first() =~= Seq::<char>::empty());
    assert(seq![c][0] == c);
    assert(vstd::utf8::has_width_1_encoding(v));
    assert(vstd::utf8::encode_scalar(v) == seq![b]);
    assert(encode_utf8(Seq::<char>::empty()) == Seq::<u8>::empty());
    assert(encode_utf8(seq![c]) =~= seq![b]);
}

proof fn lemma_percent_decoded_escape(b: u8, t: Seq<char>)
    ensures
        percent_decoded(percent_escape(b) + t) == seq![b] + percent_decoded(t),
{
    let s = percent_escape(b) + t;
    if is_url_unreserved(b) {
        assert(s[0] == b as char);
        assert((b as char) != '%') by {
            assert(b != 37);
        }
        assert(s.skip(1) =~= t);
        lemma_ascii_utf8(b);
    } else {
        let d1 = b / 16;
        let d2 = b % 16;
        lemma_hex_digit_round_trip(d1);
        lemma_hex_digit_round_trip(d2);
        assert(s[0] == '%' && s[1] == hex_digit_upper(d1) && s[2] == hex_digit_upper(d2));
        assert(s.skip(3) =~= t);
        assert((d1 * 16 + d2) as u8 == b);
    }
}

/// Percent-decoding undoes percent-encoding.
pub proof fn lemma_percent_decoded_encoded(bytes: Seq<u8>)
    ensures
        percent_decoded(percent_encoded(bytes)) == bytes,
    decreases bytes.len(),
{
    if bytes.len() > 0 {
        let b = bytes[0];
        let rest = bytes.drop_first();
        assert(bytes =~= seq![b] + rest);
        lemma_percent_encoded_add(seq![b], rest);
        assert(seq![b].drop_last() =~= Seq::<u8>::empty());
        assert(seq![b].last() == b);
        assert(percent_encoded(Seq::<u8>::empty()) == Seq::<char>::empty());
        assert(percent_encoded(seq![b]) =~= percent_escape(b));
        lemma_percent_decoded_escape(b, percent_encoded(rest));
        lemma_percent_decoded_encoded(rest);
    } else {
        assert(percent_encoded(bytes) =~= Seq::<char>::empty());
        assert(bytes =~= Seq::<u8>::empty());
    }
}

/// Decoding a URL-encoded text gives the text back.
pub proof fn lemma_url_decoded_encoded(s: Seq<char>)
    ensures
        url_decoded(url_encoded(s)) == s,
{
    lemma_percent_decoded_encoded(encode_utf8(s));
    vstd::utf8::encode_utf8_decode_utf8(s);
}

proof fn lemma_percent_encoded_chars(bytes: Seq<u8>)
    ensures
        forall|i: int|
            0 <= i < percent_encoded(bytes).len() ==> is_repository_path_char(
                #[trigger] percent_encoded(bytes)[i],
            ) && percent_encoded(bytes)[i] != '/',
    decreases bytes.len(),
{
    if bytes.len() > 0 {
        lemma_percent_encoded_chars(bytes.drop_last());
        let head = percent_encoded(bytes.drop_last());
        let b = bytes.last();
        let tail = percent_escape(b);
        assert forall|i: int| 0 <= i < percent_encoded(bytes).len() implies is_repository_path_char(
            #[trigger] percent_encoded(bytes)[i],
        ) && percent_encoded(bytes)[i] != '/' by {
            if i < head.len() {
                assert(percent_encoded(bytes)[i] == head[i]);
            } else {
                assert(percent_encoded(bytes)[i] == tail[i - head.len()]);
                if !is_url_unreserved(b) {
                    lemma_hex_digit_round_trip(b / 16);
                    lemma_hex_digit_round_trip(b % 16);
                }
            }
        }
    }
}

proof fn lemma_joined_chars(parts: Seq<Seq<char>>)
    requires
        forall|k: int, i: int|
            0 <= k < parts.len() && 0 <= i < parts[k].len() ==> is_repository_path_char(
                #[trigger] parts[k][i],
            ),
    ensures
        forall|i: int|
            0 <= i < joined(parts, seq!['/']).len() ==> is_repository_path_char(
                #[trigger] joined(parts, seq!['/'])[i],
            ),
    decreases parts.len(),
{
    if parts.len() == 1 {
        assert forall|i: int| 0 <= i < parts[0].len() implies is_repository_path_char(
            #[trigger] parts[0][i],
        ) by {}
    } else if parts.len() > 1 {
        let d = parts.drop_last();
        let l = parts.last();
        assert forall|k: int, i: int| 0 <= k < d.len() && 0 <= i < d[k].len() implies is_repository_path_char(
            #[trigger] d[k][i],
        ) by {
            assert(d[k] == parts[k]);
        }
        lemma_joined_chars(d);
        let j = joined(d, seq!['/']);
        assert forall|i: int| 0 <= i < joined(parts, seq!['/']).len() implies is_repository_path_char(
            #[trigger] joined(parts, seq!['/'])[i],
        ) by {
            if i < j.len() {
                assert(joined(parts, seq!['/'])[i] == j[i]);
            } else if i == j.len() {
                assert(joined(parts, seq!['/'])[i] == '/');
            } else {
                assert(joined(parts, seq!['/'])[i] == l[i - j.len() - 1]);
                assert(parts[parts.len() - 1][i - j.len() - 1] == l[i - j.len() - 1]);
            }
        }
    }
}

/// A repository path can be read back: split at its `/` characters and each
/// piece URL-decoded, it gives the path's components, and it is made only
/// of ASCII letters and digits and `-`, `_`, `.`, `~`, `%`, `/`.
pub proof fn lemma_repository_path_round_trip(path: Seq<Seq<char>>)
    requires
        path.len() >= 1,
    ensures
        split_on_slash(repository_path(path)).map_values(|p: Seq<char>| url_decoded(p)) == path,
        forall|i: int|
            0 <= i < repository_path(path).len() ==> is_repository_path_char(
                #[trigger] repository_path(path)[i],
            ),
{
    let parts = path.map_values(|c: Seq<char>| url_encoded(c));
    assert forall|k: int, i: int| 0 <= k < parts.len() && 0 <= i < parts[k].len() implies #[trigger] parts[k][i]
        != '/' && is_repository_path_char(parts[k][i]) by {
        lemma_percent_encoded_chars(encode_utf8(path[k]));
        assert(parts[k] == percent_encoded(encode_utf8(path[k])));
    }
    lemma_split_joined(parts);
    lemma_joined_chars(parts);
    let decoded = split_on_slash(repository_path(path)).map_values(|p: Seq<char>| url_decoded(p));
    assert forall|k: int| 0 <= k < path.len() implies #[trigger] decoded[k] == path[k] by {
        lemma_url_decoded_encoded(path[k]);
    }
    assert(decoded =~= path);
}

} // verus!
