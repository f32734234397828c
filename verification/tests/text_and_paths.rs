use cert_readme::markdown::{
    anchor_of_lowercase, escape_markdown_heading, escape_markdown_text, github_heading_anchor,
};
use cert_readme::model::Language;
use cert_readme::naming::parse_certificate_name;
use cert_readme::path::{
    encode_repository_path, is_hidden, is_supported_image, is_supported_lowercase_extension,
    natural_path_key,
};
use cert_readme::text::{compare_lowered_names, decimal_string, lex_compare_str, name_compare, trim};

fn path(parts: &[&str]) -> Vec<String> {
    parts.iter().map(|p| p.to_string()).collect()
}

#[test]
fn language_labels() {
    assert_eq!(Language::English.top_anchor(), "#certificates");
    assert_eq!(Language::Russian.top_anchor(), "#сертификаты");
    assert_eq!(Language::English.page_title(), "Certificates");
    assert_eq!(Language::Russian.page_title(), "Сертификаты");
    assert_eq!(
        Language::English.introduction(),
        "This repository contains my certificates earned through courses, educational programs, professional training, and independent study."
    );
    assert_eq!(Language::English.total_certificates_label(), "Total certificates");
    assert_eq!(Language::Russian.total_certificates_label(), "Всего сертификатов");
    assert_eq!(Language::English.contents_label(), "Platforms and organizations");
    assert_eq!(Language::Russian.platform_certificates_label(), "Сертификатов");
    assert_eq!(Language::English.total_pages_label(), "Total pages");
    assert_eq!(Language::Russian.page_label(), "Страница");
    assert_eq!(Language::Russian.back_to_top_label(), "Наверх");
    assert!(Language::Russian.explanation().starts_with("Сертификаты сгруппированы"));
}

#[test]
fn trim_strips_unicode_whitespace() {
    assert_eq!(trim("  a b \t\n"), "a b");
    assert_eq!(trim("\u{3000}x\u{a0}"), "x");
    assert_eq!(trim("   "), "");
    assert_eq!(trim(""), "");
}

#[test]
fn decimal_formatting() {
    assert_eq!(decimal_string(0), "0");
    assert_eq!(decimal_string(7), "7");
    assert_eq!(decimal_string(250), "250");
    assert_eq!(decimal_string(u64::MAX), u64::MAX.to_string());
}

#[test]
fn lexicographic_comparison() {
    assert_eq!(lex_compare_str("a", "b"), -1);
    assert_eq!(lex_compare_str("b", "a"), 1);
    assert_eq!(lex_compare_str("ab", "ab"), 0);
    assert_eq!(lex_compare_str("ab", "abc"), -1);
    assert_eq!(lex_compare_str("Z", "a"), -1);
}

#[test]
fn markdown_text_escaping() {
    assert_eq!(escape_markdown_text("a[b]\\c"), "a\\[b\\]\\\\c");
    assert_eq!(escape_markdown_text("plain"), "plain");
    assert_eq!(
        escape_markdown_text("x\\[y]"),
        "x\\[y]".replace('\\', "\\\\").replace('[', "\\[").replace(']', "\\]")
    );
}

#[test]
fn markdown_heading_escaping() {
    assert_eq!(escape_markdown_heading("  Name\nSecond  "), "Name Second");
    assert_eq!(escape_markdown_heading("\nA\n"), "A");
}

#[test]
fn heading_anchors() {
    assert_eq!(github_heading_anchor("Kaggle Learn"), "kaggle-learn");
    assert_eq!(github_heading_anchor("  Hello -- World! "), "hello-world");
    assert_eq!(github_heading_anchor("C++ & C#"), "c-c");
    assert_eq!(github_heading_anchor("-abc-"), "abc");
    assert_eq!(github_heading_anchor("Яндекс Практикум"), "яндекс-практикум");
    assert_eq!(github_heading_anchor("snake_case Name"), "snake_case-name");
    assert_eq!(github_heading_anchor("!!!"), "");
}

#[test]
fn heading_anchor_shape_holds_on_examples() {
    for value in ["a - - b", " -x- ", "A\tB\nC", "--", "1 2 3 -", "Ü ber"] {
        let anchor = github_heading_anchor(value);
        assert!(!anchor.starts_with('-'));
        assert!(!anchor.ends_with('-'));
        assert!(!anchor.contains("--"));
        assert!(anchor.chars().all(|c| c == '-' || c == '_' || c.is_alphanumeric()));
    }
}

#[test]
fn natural_keys_are_lowercase_file_names() {
    assert_eq!(natural_path_key(&path(&["certificates", "P", "Cert.PNG"])), "cert.png");
    assert_eq!(natural_path_key(&path(&[])), "");
    assert_eq!(natural_path_key(&path(&["a", ".."])), "");
}

#[test]
fn supported_images() {
    assert!(is_supported_image(&path(&["c", "p", "a.PNG"])));
    assert!(is_supported_image(&path(&["c", "p", "a.b.jpeg"])));
    assert!(is_supported_image(&path(&["c", "p", "x.Avif"])));
    assert!(is_supported_image(&path(&["x.webp"])));
    assert!(!is_supported_image(&path(&["c", "p", "a.gif"])));
    assert!(!is_supported_image(&path(&["c", "p", ".png"])));
    assert!(!is_supported_image(&path(&["c", "p", "png"])));
    assert!(!is_supported_image(&path(&["c", "p", "a.png."])));
    assert!(!is_supported_image(&path(&[])));
}

#[test]
fn hidden_entries() {
    assert!(is_hidden(&path(&["c", ".git"])));
    assert!(is_hidden(&path(&["c", "p", ".x.png"])));
    assert!(!is_hidden(&path(&["c", "p", "x.png"])));
    assert!(!is_hidden(&path(&[])));
    assert!(!is_hidden(&path(&["c", ".."])));
}

#[test]
fn repository_paths_are_url_encoded() {
    assert_eq!(
        encode_repository_path(&path(&["certificates", "My Platform", "a&b_1.png"])),
        "certificates/My%20Platform/a%26b_1.png"
    );
    assert_eq!(encode_repository_path(&path(&["é~-.x"])), "%C3%A9~-.x");
    assert_eq!(encode_repository_path(&path(&[])), "");
}

#[test]
fn certificate_names_with_page_numbers() {
    let (title, page) = parse_certificate_name("Title_2").unwrap();
    assert_eq!(title, "Title");
    assert_eq!(page, Some(2));
    let (title, page) = parse_certificate_name("My_Cert_10").unwrap();
    assert_eq!(title, "My_Cert");
    assert_eq!(page, Some(10));
    let (title, page) = parse_certificate_name("Spaced _007").unwrap();
    assert_eq!(title, "Spaced");
    assert_eq!(page, Some(7));
}

#[test]
fn certificate_names_without_page_numbers() {
    for stem in ["Title", "_5", "Title_", "Title_12a", "Two\nLines_3", "a_b_c"] {
        let (title, page) = parse_certificate_name(stem).unwrap();
        assert_eq!(title, stem.trim());
        assert_eq!(page, None);
    }
}

#[test]
fn certificate_name_with_too_large_page_number() {
    let err = parse_certificate_name("Title_4294967296").unwrap_err();
    assert_eq!(err.file_stem, "Title_4294967296");
    let (_, page) = parse_certificate_name("Title_4294967295").unwrap();
    assert_eq!(page, Some(u32::MAX));
}

#[test]
fn page_number_round_trip_on_examples() {
    for (title, n) in [("A", 0u32), ("x_y", 12), (" Name ", u32::MAX), ("Курс", 3)] {
        let stem = format!("{}_{}", title, n);
        let (parsed_title, page) = parse_certificate_name(&stem).unwrap();
        assert_eq!(parsed_title, title.trim());
        assert_eq!(page, Some(n));
    }
}

#[test]
fn names_compare_by_lowercase_then_exactly() {
    assert_eq!(compare_lowered_names("abc", "abd", "ABC", "abd"), -1);
    assert_eq!(compare_lowered_names("abc", "abc", "abc", "ABC"), 1);
    assert_eq!(compare_lowered_names("abc", "abc", "Abc", "Abc"), 0);
    assert_eq!(compare_lowered_names("b", "a", "a", "b"), 1);
    assert_eq!(name_compare(&"Beta".to_string(), &"alpha".to_string()), 1);
    assert_eq!(name_compare(&"Alpha".to_string(), &"alpha".to_string()), -1);
}

#[test]
fn supported_lowercase_extensions() {
    for ext in ["webp", "png", "jpg", "jpeg", "avif"] {
        assert!(is_supported_lowercase_extension(ext));
    }
    for ext in ["PNG", "gif", "", "jpgx", "pn"] {
        assert!(!is_supported_lowercase_extension(ext));
    }
}

#[test]
fn anchors_from_lowercased_text() {
    assert_eq!(anchor_of_lowercase("Hello World"), "Hello-World");
    assert_eq!(anchor_of_lowercase(" a_b - c "), "a_b-c");
    assert_eq!(anchor_of_lowercase(""), "");
}

#[test]
fn headings_are_one_line() {
    for value in ["a\nb\nc", "\n\n", " x \n y "] {
        assert!(!escape_markdown_heading(value).contains('\n'));
    }
}

#[test]
fn url_encoded_components_hold_no_slash() {
    assert_eq!(encode_repository_path(&path(&["a/b", "c"])), "a%2Fb/c");
}

#[test]
fn name_order_is_antisymmetric_on_examples() {
    let names = ["a", "A", "b", "B", "ab", "", "Я", "я"];
    for x in names {
        for y in names {
            let forward = name_compare(&x.to_string(), &y.to_string());
            let backward = name_compare(&y.to_string(), &x.to_string());
            assert_eq!(forward, -backward);
            assert_eq!(forward == 0, x == y);
        }
    }
}
