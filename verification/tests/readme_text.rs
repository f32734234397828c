use cert_readme::config::{configured_image_width, validate_configuration, CERTIFICATE_COLUMN_WIDTH};
use cert_readme::model::{Certificate, CertificatePage, Language, Platform};
use cert_readme::readme::{
    build_readmes, count_certificates, count_image_files, generate_certificate_images,
    generate_certificate_row_table, generate_certificate_title_cell, generate_contents,
    generate_header, generate_introduction, generate_platform_section, generate_platform_table,
    generate_readme, NoCertificates,
};

fn path(parts: &[&str]) -> Vec<String> {
    parts.iter().map(|p| p.to_string()).collect()
}

fn cert(title: &str, pages: Vec<(&[&str], Option<u32>)>) -> Certificate {
    Certificate {
        title: title.to_string(),
        pages: pages
            .into_iter()
            .map(|(p, n)| CertificatePage { path: path(p), page_number: n })
            .collect(),
    }
}

const REPO: &str = "https://github.com/TheAndreyZakharov/Certificates";

#[test]
fn configuration_is_valid() {
    assert_eq!(validate_configuration(), Ok(()));
    assert_eq!(configured_image_width(), 250);
}

#[test]
fn header_in_both_languages() {
    let expected_en = format!(
        r#"<div align="center">

# {title}

[![Русский](https://img.shields.io/badge/README_Language-Русский-{russian_color})]({repository}/blob/main/README_RU.md)
[![English](https://img.shields.io/badge/README_Language-English-{english_color})]({repository}/blob/main/README.md)

</div>

"#,
        title = "Certificates",
        russian_color = "blue",
        english_color = "brightgreen",
        repository = REPO,
    );
    assert_eq!(generate_header(Language::English), expected_en);
    let ru = generate_header(Language::Russian);
    assert!(ru.starts_with("<div align=\"center\">\n\n# Сертификаты\n\n"));
    assert!(ru.contains("Русский-brightgreen)"));
    assert!(ru.contains("English-blue)"));
}

#[test]
fn introduction_with_total() {
    let language = Language::English;
    let expected = format!(
        r#"{introduction}

{explanation}

<div align="center">

## {total_label}

# {total_certificates}

</div>

---

"#,
        introduction = language.introduction(),
        explanation = language.explanation(),
        total_label = language.total_certificates_label(),
        total_certificates = 42,
    );
    assert_eq!(generate_introduction(language, 42), expected);
}

fn sample_platforms() -> Vec<Platform> {
    vec![
        Platform {
            name: "Kaggle [Learn]".to_string(),
            certificates: vec![
                cert("Python", vec![(&["certificates", "Kaggle [Learn]", "Python_1.png"][..], Some(1)), (&["certificates", "Kaggle [Learn]", "Python.png"][..], None)]),
                cert("SQL & <DB>", vec![(&["certificates", "Kaggle [Learn]", "SQL.png"][..], None)]),
                cert("C", vec![(&["certificates", "Kaggle [Learn]", "C.png"][..], None)]),
                cert("D", vec![(&["certificates", "Kaggle [Learn]", "D.png"][..], None)]),
            ],
        },
        Platform { name: "Empty One".to_string(), certificates: Vec::new() },
    ]
}

#[test]
fn contents_lines() {
    let platforms = sample_platforms();
    let expected = "## Platforms and organizations\n\n- [Kaggle \\[Learn\\]](#kaggle-learn) — 4\n- [Empty One](#empty-one) — 0\n\n---\n\n";
    assert_eq!(generate_contents(&platforms, Language::English), expected);
}

fn cell_open(extra: &str) -> String {
    format!(
        "<td width=\"{width}\" align=\"center\" valign=\"top\" style=\"width: {width}px; min-width: {width}px; max-width: {width}px;{extra}",
        width = CERTIFICATE_COLUMN_WIDTH,
        extra = extra,
    )
}

#[test]
fn title_cell_escapes_html() {
    let c = cert("SQL & <DB>", vec![]);
    let expected = format!(
        "{}<strong>SQL &amp; &lt;DB&gt;</strong>\n</td>\n",
        cell_open(" overflow-wrap: anywhere; word-break: break-word;\">\n")
    );
    assert_eq!(generate_certificate_title_cell(&c), expected);
}

#[test]
fn images_of_a_single_page_certificate() {
    let c = cert("A & B", vec![(&["certificates", "P Q", "A.png"][..], None)]);
    let expected = "<a href=\"certificates/P%20Q/A.png\"><img src=\"certificates/P%20Q/A.png\" alt=\"A &amp; B\" width=\"250\"></a>\n";
    assert_eq!(generate_certificate_images(&c, 250, Language::English), expected);
}

#[test]
fn images_of_a_multi_page_certificate() {
    let c = cert(
        "Py",
        vec![(&["c", "p", "Py_3.png"][..], Some(3)), (&["c", "p", "Py.png"][..], None)],
    );
    let expected = [
        "<sub><strong>Всего страниц: 2</strong></sub><br><br>\n",
        "<a href=\"c/p/Py_3.png\"><img src=\"c/p/Py_3.png\" alt=\"Py — Страница 3\" width=\"100\"></a>\n",
        "<br><sub>Страница 3</sub>\n",
        "<br><br>\n",
        "<a href=\"c/p/Py.png\"><img src=\"c/p/Py.png\" alt=\"Py — Страница 2\" width=\"100\"></a>\n",
        "<br><sub>Страница 2</sub>\n",
    ]
    .join("");
    assert_eq!(generate_certificate_images(&c, 100, Language::Russian), expected);
}

#[test]
fn row_tables() {
    assert_eq!(generate_certificate_row_table(&[], 250, Language::English), "");
    let certs = vec![cert("X", vec![(&["x.png"][..], None)]), cert("Y", vec![])];
    let table = generate_certificate_row_table(&certs, 250, Language::English);
    let mut expected = String::from("<table align=\"center\" width=\"500\">\n<tbody>\n<tr>\n");
    expected.push_str(&generate_certificate_title_cell(&certs[0]));
    expected.push_str(&generate_certificate_title_cell(&certs[1]));
    expected.push_str("</tr>\n<tr>\n");
    for c in &certs {
        expected.push_str(&cell_open("\">\n"));
        expected.push_str(&generate_certificate_images(c, 250, Language::English));
        expected.push_str("</td>\n");
    }
    expected.push_str("</tr>\n</tbody>\n</table>\n\n");
    assert_eq!(table, expected);
}

#[test]
fn platform_tables_come_in_rows_of_three() {
    let platforms = sample_platforms();
    let table = generate_platform_table(&platforms[0], Language::English);
    let mut expected = generate_certificate_row_table(&platforms[0].certificates[0..3], 250, Language::English);
    expected.push_str(&generate_certificate_row_table(&platforms[0].certificates[3..4], 250, Language::English));
    assert_eq!(table, expected);
    assert_eq!(table.matches("<table ").count(), 2);
    assert!(table.contains("width=\"750\""));
    assert!(table.contains("width=\"250\">\n<tbody>"));
    assert_eq!(generate_platform_table(&platforms[1], Language::English), "");
}

#[test]
fn platform_section() {
    let platforms = sample_platforms();
    let section = generate_platform_section(&platforms[1], Language::Russian);
    let expected = "## Empty One\n\n<div align=\"center\">\n\n**Сертификатов: 0**\n\n</div>\n\n<p align=\"right\"><a href=\"#сертификаты\">↑ Наверх</a></p>\n\n---\n\n";
    assert_eq!(section, expected);
}

#[test]
fn whole_readme() {
    let platforms = sample_platforms();
    let readme = generate_readme(&platforms, 4, Language::English);
    let mut expected = generate_header(Language::English);
    expected.push_str(&generate_introduction(Language::English, 4));
    expected.push_str(&generate_contents(&platforms, Language::English));
    for p in &platforms {
        expected.push_str(&generate_platform_section(p, Language::English));
    }
    assert_eq!(readme, expected);
}

#[test]
fn totals() {
    let platforms = sample_platforms();
    assert_eq!(count_certificates(&platforms), 4);
    assert_eq!(count_image_files(&platforms), 5);
}

#[test]
fn readmes_need_a_certificate() {
    assert_eq!(build_readmes(&[]).err(), Some(NoCertificates));
    let empty = vec![Platform { name: "E".to_string(), certificates: Vec::new() }];
    assert_eq!(build_readmes(&empty).err(), Some(NoCertificates));
    let platforms = sample_platforms();
    let readmes = build_readmes(&platforms).ok().unwrap();
    assert_eq!(readmes.total_certificates, 4);
    assert_eq!(readmes.total_image_files, 5);
    assert_eq!(readmes.english, generate_readme(&platforms, 4, Language::English));
    assert_eq!(readmes.russian, generate_readme(&platforms, 4, Language::Russian));
}

#[test]
fn escaped_titles_hold_no_tags() {
    let c = cert("<b>bold</b> & <i>", vec![]);
    let cell = generate_certificate_title_cell(&c);
    let inner = cell.split("<strong>").nth(1).unwrap().split("</strong>").next().unwrap();
    assert!(!inner.contains('<') && !inner.contains('>'));
    assert_eq!(inner, "&lt;b&gt;bold&lt;/b&gt; &amp; &lt;i&gt;");
}
