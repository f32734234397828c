use std::cmp::Ordering;

use cert_readme::model::{Certificate, CertificatePage, Platform};
use cert_readme::order::{compare_certificate_pages, compare_certificates, compare_platforms};
use cert_readme::scan::{scan_certificates, ScanError, WalkEntry};
use cert_readme::sort::stable_sort;

fn path(parts: &[&str]) -> Vec<String> {
    parts.iter().map(|p| p.to_string()).collect()
}

fn file(parts: &[&str]) -> WalkEntry {
    WalkEntry { path: path(parts), is_file: true }
}

fn dir(parts: &[&str]) -> WalkEntry {
    WalkEntry { path: path(parts), is_file: false }
}

fn page(parts: &[&str], number: Option<u32>) -> CertificatePage {
    CertificatePage { path: path(parts), page_number: number }
}

fn certificate(title: &str) -> Certificate {
    Certificate { title: title.to_string(), pages: Vec::new() }
}

fn platform(name: &str) -> Platform {
    Platform { name: name.to_string(), certificates: Vec::new() }
}

#[test]
fn page_order() {
    let unnumbered_b = page(&["c", "p", "b.png"], None);
    let unnumbered_a = page(&["c", "p", "A.png"], None);
    let first = page(&["c", "p", "x_1.png"], Some(1));
    let second = page(&["c", "p", "x_2.png"], Some(2));
    assert_eq!(compare_certificate_pages(&first, &second), Ordering::Less);
    assert_eq!(compare_certificate_pages(&second, &first), Ordering::Greater);
    assert_eq!(compare_certificate_pages(&first, &first), Ordering::Equal);
    assert_eq!(compare_certificate_pages(&unnumbered_b, &first), Ordering::Less);
    assert_eq!(compare_certificate_pages(&first, &unnumbered_b), Ordering::Greater);
    assert_eq!(compare_certificate_pages(&unnumbered_a, &unnumbered_b), Ordering::Less);
    assert_eq!(
        compare_certificate_pages(&page(&["x", "A.png"], None), &page(&["y", "a.png"], None)),
        Ordering::Equal
    );
}

#[test]
fn name_order() {
    assert_eq!(compare_certificates(&certificate("apple"), &certificate("Banana")), Ordering::Less);
    assert_eq!(compare_certificates(&certificate("Apple"), &certificate("apple")), Ordering::Less);
    assert_eq!(compare_certificates(&certificate("b"), &certificate("B")), Ordering::Greater);
    assert_eq!(compare_certificates(&certificate("same"), &certificate("same")), Ordering::Equal);
    assert_eq!(compare_platforms(&platform("Zeta"), &platform("alpha")), Ordering::Greater);
    assert_eq!(compare_platforms(&platform("Coursera"), &platform("coursera")), Ordering::Less);
}

#[test]
fn sorting_is_stable() {
    let pages = vec![
        page(&["c", "p", "k_2.png"], Some(2)),
        page(&["d", "same.png"], None),
        page(&["c", "p", "k_1.png"], Some(1)),
        page(&["e", "SAME.png"], None),
        page(&["c", "q", "k_2.jpg"], Some(2)),
        page(&["c", "p", "a.png"], None),
    ];
    let sorted = stable_sort(pages);
    let paths: Vec<String> = sorted.iter().map(|p| p.path.join("/")).collect();
    assert_eq!(
        paths,
        vec!["c/p/a.png", "d/same.png", "e/SAME.png", "c/p/k_1.png", "c/p/k_2.png", "c/q/k_2.jpg"]
    );
}

fn tree() -> (Vec<String>, Vec<String>, Vec<WalkEntry>) {
    let root = path(&["certificates"]);
    let dirs = path(&["Kaggle", " Empty ", "Coursera", "Kaggle"]);
    let entries = vec![
        dir(&["certificates", "Kaggle"]),
        file(&["certificates", "Kaggle", "Python_2.png"]),
        file(&["certificates", "Kaggle", "notes.txt"]),
        file(&["certificates", "Kaggle", "SQL.JPG"]),
        file(&["certificates", "Kaggle", "Python_1.png"]),
        file(&["certificates", "readme.png"]),
        dir(&["certificates", "Coursera"]),
        file(&["certificates", "Coursera", "sub", "ML.webp"]),
        file(&["certificates", "Coursera", "  Deep Learning .avif"]),
        file(&["certificates", "New ", "Course.png"]),
    ];
    (root, dirs, entries)
}

#[test]
fn scanning_groups_and_sorts() {
    let (root, dirs, entries) = tree();
    let platforms = scan_certificates(&root, &dirs, &entries).unwrap();
    let names: Vec<&str> = platforms.iter().map(|p| p.name.as_str()).collect();
    assert_eq!(names, vec!["Coursera", "Empty", "Kaggle", "New"]);

    let coursera = &platforms[0];
    let titles: Vec<&str> = coursera.certificates.iter().map(|c| c.title.as_str()).collect();
    assert_eq!(titles, vec!["Deep Learning", "ML"]);
    assert_eq!(coursera.certificates[1].pages[0].path, path(&["certificates", "Coursera", "sub", "ML.webp"]));

    assert!(platforms[1].certificates.is_empty());

    let kaggle = &platforms[2];
    let titles: Vec<&str> = kaggle.certificates.iter().map(|c| c.title.as_str()).collect();
    assert_eq!(titles, vec!["Python", "SQL"]);
    let python = &kaggle.certificates[0];
    let numbers: Vec<Option<u32>> = python.pages.iter().map(|p| p.page_number).collect();
    assert_eq!(numbers, vec![Some(1), Some(2)]);
    assert_eq!(kaggle.certificates[1].pages[0].page_number, None);

    let new = &platforms[3];
    assert_eq!(new.certificates.len(), 1);
    assert_eq!(new.certificates[0].title, "Course");
}

#[test]
fn scanning_an_empty_tree() {
    let platforms = scan_certificates(&path(&["certificates"]), &Vec::new(), &Vec::new()).unwrap();
    assert!(platforms.is_empty());
}

#[test]
fn scanning_fails_outside_the_root() {
    let entries = vec![file(&["elsewhere", "P", "a.png"])];
    match scan_certificates(&path(&["certificates"]), &Vec::new(), &entries) {
        Err(ScanError::OutsideRoot) => {}
        other => panic!("unexpected result: {:?}", other.map(|p| p.len())),
    }
}

#[test]
fn scanning_fails_on_a_huge_page_number() {
    let entries = vec![
        file(&["certificates", "P", "ok.png"]),
        file(&["certificates", "P", " Big_99999999999 .png"]),
        file(&["elsewhere", "P", "a.png"]),
    ];
    match scan_certificates(&path(&["certificates"]), &Vec::new(), &entries) {
        Err(ScanError::InvalidPageNumber(stem)) => assert_eq!(stem, "Big_99999999999"),
        other => panic!("unexpected result: {:?}", other.map(|p| p.len())),
    }
}

#[test]
fn every_image_becomes_one_page() {
    let (root, dirs, entries) = tree();
    let platforms = scan_certificates(&root, &dirs, &entries).unwrap();
    let pages: usize = platforms
        .iter()
        .flat_map(|p| &p.certificates)
        .map(|c| c.pages.len())
        .sum();
    assert_eq!(pages, 6);
}
