use cert_readme::markdown::{anchor_of_lowercase, escape_markdown_text, github_heading_anchor};
use cert_readme::model::Language;
use cert_readme::path::{encode_repository_path, natural_path_key};

fn path(parts: &[&str]) -> Vec<String> {
    parts.iter().map(|p| p.to_string()).collect()
}

fn decode_pieces(encoded: &str) -> Vec<String> {
    encoded
        .split('/')
        .map(|piece| urlencoding::decode(piece).unwrap().into_owned())
        .collect()
}

fn unescape_markdown(text: &str) -> String {
    let mut out = String::new();
    let mut chars = text.chars();
    while let Some(c) = chars.next() {
        if c == '\\' {
            match chars.next() {
                Some(next) => out.push(next),
                None => out.push(c),
            }
        } else {
            out.push(c);
        }
    }
    out
}

#[test]
fn repository_path_decodes_to_its_components() {
    let cases: Vec<Vec<String>> = vec![
        path(&["certificates", "Coursera", "Machine Learning.png"]),
        path(&["certificates", "Степик", "Курс #1 [часть 2].webp"]),
        path(&["a b", "100%", "x+y&z=1?.jpg"]),
        path(&["only"]),
        path(&["", "empty piece", ""]),
        path(&["slash/inside", "名前.avif"]),
    ];
    for components in cases {
        let encoded = encode_repository_path(&components);
        assert_eq!(decode_pieces(&encoded), components);
        assert!(encoded
            .chars()
            .all(|c| c.is_ascii_alphanumeric() || "-_.~%/".contains(c)));
    }
}

#[test]
fn repository_path_encodes_non_ascii_and_spaces() {
    let encoded = encode_repository_path(&path(&["certificates", "Степик", "a b.png"]));
    assert_eq!(
        encoded,
        "certificates/%D0%A1%D1%82%D0%B5%D0%BF%D0%B8%D0%BA/a%20b.png"
    );
    assert_eq!(encode_repository_path(&path(&["slash/inside"])), "slash%2Finside");
}

#[test]
fn markdown_escape_is_undone_by_unescaping() {
    let cases = [
        "",
        "plain text",
        "[link] text",
        "back\\slash",
        "\\[\\]",
        "ends with \\",
        "Курс [часть] \\ 2",
        "]][[\\\\",
    ];
    for value in cases {
        let escaped = escape_markdown_text(value);
        assert_eq!(unescape_markdown(&escaped), value);
        let specials = value.chars().filter(|c| matches!(c, '\\' | '[' | ']')).count();
        assert_eq!(escaped.chars().count(), value.chars().count() + specials);
    }
}

#[test]
fn markdown_escape_exact_output() {
    assert_eq!(escape_markdown_text("a[b]\\c"), "a\\[b\\]\\\\c");
}

#[test]
fn heading_anchor_is_idempotent_on_examples() {
    let cases = [
        "Certificates",
        "Сертификаты",
        "Platforms and organizations",
        "  Hello,   World!  ",
        "C++ / Rust -- Basics",
        "snake_case and 42 numbers",
        "---",
        "",
        "Ünïcödé Tëxt",
    ];
    for value in cases {
        let anchor = github_heading_anchor(value);
        assert_eq!(github_heading_anchor(&anchor), anchor);
        assert_eq!(anchor_of_lowercase(&anchor), anchor);
    }
}

#[test]
fn heading_anchor_exact_values() {
    assert_eq!(github_heading_anchor("  Hello,   World!  "), "hello-world");
    assert_eq!(github_heading_anchor("C++ / Rust -- Basics"), "c-rust-basics");
    assert_eq!(github_heading_anchor("---"), "");
}

#[test]
fn back_to_top_links_target_the_page_title() {
    for language in [Language::English, Language::Russian] {
        assert_eq!(
            language.top_anchor(),
            format!("#{}", github_heading_anchor(language.page_title()))
        );
    }
}

#[test]
fn natural_key_of_path_without_file_name_is_empty() {
    assert_eq!(natural_path_key(&path(&[])), "");
    assert_eq!(natural_path_key(&path(&["dir", ".."])), "");
    assert_eq!(natural_path_key(&path(&["dir", "Page.PNG"])), "page.png");
}
