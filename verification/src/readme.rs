//! The text of the generated README: header, introduction, table of
//! contents and one section per platform with its certificate tables.
use vstd::prelude::*;
use crate::config::{CERTIFICATE_COLUMN_WIDTH, MAX_COLUMNS, REPOSITORY_URL, configured_image_width};
use crate::markdown::{
    encode_text, escape_markdown_heading, escape_markdown_text, github_heading_anchor,
    heading_anchor, html_escaped, markdown_escaped, markdown_heading,
};
use crate::model::{
    Certificate, CertificateModel, Language, Platform, PlatformModel, certificate_models,
    platform_models,
};
use crate::path::{encode_repository_path, repository_path};
use crate::text::{
    decimal, decimal_string, lemma_occurs_in_append, lemma_occurs_in_concat, lemma_occurs_in_prepend,
    lemma_occurs_in_self, lemma_occurs_in_trans, occurs_in,
};

verus! {

/// Appends the decimal representation of `n` to `out`.
fn push_decimal(out: &mut String, n: u64)
    ensures
        final(out)@ == old(out)@ + decimal(n as nat),
{
    let d = decimal_string(n);
    out.append(d.as_str());
}

/// The header: the title and the language badges, the current language's
/// badge green.
pub open spec fn header_text(language: Language) -> Seq<char> {
    let (russian_color, english_color) = match language {
        Language::English => ("blue"@, "brightgreen"@),
        Language::Russian => ("brightgreen"@, "blue"@),
    };
    "<div align=\"center\">\n\n# "@ + language.page_title_text()
        + "\n\n[![Русский](https://img.shields.io/badge/README_Language-Русский-"@ + russian_color
        + ")]("@ + REPOSITORY_URL@ + "/blob/main/README_RU.md)\n[![English](https://img.shields.io/badge/README_Language-English-"@
        + english_color + ")]("@ + REPOSITORY_URL@ + "/blob/main/README.md)\n\n</div>\n\n"@
}

/// The README header: title and links to both language versions.
pub fn generate_header(language: Language) -> (r: String)
    ensures
        r@ == header_text(language),
{
    let (russian_color, english_color) = match language {
        Language::English => ("blue", "brightgreen"),
        Language::Russian => ("brightgreen", "blue"),
    };
    let mut out = String::new();
    out.append("<div align=\"center\">\n\n# ");
    out.append(language.page_title());
    out.append("\n\n[![Русский](https://img.shields.io/badge/README_Language-Русский-");
    out.append(russian_color);
    out.append(")](");
    out.append(REPOSITORY_URL);
    out.append(
        "/blob/main/README_RU.md)\n[![English](https://img.shields.io/badge/README_Language-English-",
    );
    out.append(english_color);
    out.append(")](");
    out.append(REPOSITORY_URL);
    out.append("/blob/main/README.md)\n\n</div>\n\n");
    proof {
        assert(out@ =~= header_text(language));
    }
    out
}

/// The introduction and the total number of certificates.
pub open spec fn introduction_block(language: Language, total: nat) -> Seq<char> {
    language.introduction_text() + "\n\n"@ + language.explanation_text()
        + "\n\n<div align=\"center\">\n\n## "@ + language.total_certificates_label_text() + "\n\n# "@
        + decimal(total) + "\n\n</div>\n\n---\n\n"@
}

/// The introduction of the README with the total number of certificates.
pub fn generate_introduction(language: Language, total_certificates: usize) -> (r: String)
    ensures
        r@ == introduction_block(language, total_certificates as nat),
{
    let mut out = String::new();
    out.append(language.introduction());
    out.append("\n\n");
    out.append(language.explanation());
    out.append("\n\n<div align=\"center\">\n\n## ");
    out.append(language.total_certificates_label());
    out.append("\n\n# ");
    push_decimal(&mut out, total_certificates as u64);
    out.append("\n\n</div>\n\n---\n\n");
    proof {
        assert(out@ =~= introduction_block(language, total_certificates as nat));
    }
    out
}

/// One line of the table of contents: the escaped name, linked to the
/// platform's heading, and its number of certificates.
pub open spec fn contents_line(p: PlatformModel) -> Seq<char> {
    "- ["@ + markdown_escaped(p.name) + "](#"@ + heading_anchor(p.name) + ") — "@ + decimal(
        p.certificates.len(),
    ) + "\n"@
}

/// The lines of the table of contents, one per platform.
pub open spec fn contents_lines(ps: Seq<PlatformModel>) -> Seq<char>
    decreases ps.len(),
{
    if ps.len() == 0 {
        Seq::empty()
    } else {
        contents_lines(ps.drop_last()) + contents_line(ps.last())
    }
}

/// The table of contents.
pub open spec fn contents_text(ps: Seq<PlatformModel>, language: Language) -> Seq<char> {
    "## "@ + language.contents_label_text() + "\n\n"@ + contents_lines(ps) + "\n---\n\n"@
}

/// The table of contents: one linked line per platform.
pub fn generate_contents(platforms: &[Platform], language: Language) -> (r: String)
    ensures
        r@ == contents_text(platform_models(platforms@), language),
{
    let ghost ps = platform_models(platforms@);
    let mut out = String::new();
    out.append("## ");
    out.append(language.contents_label());
    out.append("\n\n");
    let ghost start = out@;
    let mut i: usize = 0;
    while i < platforms.len()
        invariant
            i <= platforms@.len(),
            ps == platform_models(platforms@),
            out@ == start + contents_lines(ps.take(i as int)),
        decreases platforms.len() - i,
    {
        let platform = &platforms[i];
        let ghost before = out@;
        out.append("- [");
        let escaped = escape_markdown_text(platform.name.as_str());
        out.append(escaped.as_str());
        out.append("](#");
        let anchor = github_heading_anchor(platform.name.as_str());
        out.append(anchor.as_str());
        out.append(") — ");
        push_decimal(&mut out, platform.certificates.len() as u64);
        out.append("\n");
        proof {
            assert(ps.take(i + 1).drop_last() =~= ps.take(i as int));
            assert(ps[i as int] == platform@);
            assert(platform@.certificates.len() == platform.certificates@.len());
            assert(out@ =~= before + contents_line(ps[i as int]));
        }
        i = i + 1;
    }
    out.append("\n---\n\n");
    proof {
        assert(ps.take(platforms@.len() as int) =~= ps);
        assert(out@ =~= contents_text(ps, language));
    }
    out
}

/// The style of a certificate cell, whose width is `w` pixels.
pub open spec fn cell_style(w: Seq<char>) -> Seq<char> {
    "width: "@ + w + "px; min-width: "@ + w + "px; max-width: "@ + w + "px;"@
}

/// The cell that holds a certificate's title.
pub open spec fn title_cell_text(c: CertificateModel) -> Seq<char> {
    let w = decimal(CERTIFICATE_COLUMN_WIDTH as nat);
    "<td width=\""@ + w + "\" align=\"center\" valign=\"top\" style=\""@ + cell_style(w)
        + " overflow-wrap: anywhere; word-break: break-word;\">\n"@ + "<strong>"@ + html_escaped(
        c.title,
    ) + "</strong>\n"@ + "</td>\n"@
}

fn push_cell_open(out: &mut String, extra: &str)
    ensures
        final(out)@ == old(out)@ + "<td width=\""@ + decimal(CERTIFICATE_COLUMN_WIDTH as nat)
            + "\" align=\"center\" valign=\"top\" style=\""@ + cell_style(
            decimal(CERTIFICATE_COLUMN_WIDTH as nat),
        ) + extra@,
{
    let w = decimal_string(CERTIFICATE_COLUMN_WIDTH as u64);
    let ghost before = out@;
    out.append("<td width=\"");
    out.append(w.as_str());
    out.append("\" align=\"center\" valign=\"top\" style=\"");
    out.append("width: ");
    out.append(w.as_str());
    out.append("px; min-width: ");
    out.append(w.as_str());
    out.append("px; max-width: ");
    out.append(w.as_str());
    out.append("px;");
    out.append(extra);
    proof {
        assert(out@ =~= before + "<td width=\""@ + decimal(CERTIFICATE_COLUMN_WIDTH as nat)
            + "\" align=\"center\" valign=\"top\" style=\""@ + cell_style(
            decimal(CERTIFICATE_COLUMN_WIDTH as nat),
        ) + extra@);
    }
}

/// The table cell with a certificate's title.
pub fn generate_certificate_title_cell(certificate: &Certificate) -> (r: String)
    ensures
        r@ == title_cell_text(certificate@),
{
    let mut out = String::new();
    push_cell_open(&mut out, " overflow-wrap: anywhere; word-break: break-word;\">\n");
    out.append("<strong>");
    let title = encode_text(certificate.title.as_str());
    out.append(title.as_str());
    out.append("</strong>\n");
    out.append("</td>\n");
    proof {
        assert(out@ =~= title_cell_text(certificate@));
    }
    out
}

/// The page number shown for page `i` of a certificate: its own number,
/// or its position counted from one.
pub open spec fn shown_page_number(c: CertificateModel, i: int) -> u32 {
    match c.pages[i].page_number {
        Some(n) => n,
        None => (i + 1) as u32,
    }
}

/// The page number of page `i` as shown.
pub open spec fn shown_number_text(c: CertificateModel, i: int) -> Seq<char> {
    decimal(shown_page_number(c, i) as nat)
}

/// The alternative text of page `i`'s image: the title, and the page when
/// the certificate has several pages.
pub open spec fn alt_text_of(c: CertificateModel, i: int, language: Language) -> Seq<char> {
    if c.pages.len() > 1 {
        c.title + " — "@ + language.page_label_text() + " "@ + shown_number_text(c, i)
    } else {
        c.title
    }
}

/// The image of page `i`, linked to its file.
pub open spec fn image_link(c: CertificateModel, i: int, width: nat, language: Language) -> Seq<char> {
    let path = repository_path(c.pages[i].path);
    "<a href=\""@ + path + "\"><img src=\""@ + path + "\" alt=\""@ + html_escaped(
        alt_text_of(c, i, language),
    ) + "\" width=\""@ + decimal(width) + "\"></a>\n"@
}

/// The page label under page `i`'s image, when there are several pages.
pub open spec fn page_caption(c: CertificateModel, i: int, language: Language) -> Seq<char> {
    if c.pages.len() > 1 {
        "<br><sub>"@ + html_escaped(language.page_label_text()) + " "@ + shown_number_text(c, i)
            + "</sub>\n"@
    } else {
        Seq::empty()
    }
}

/// The break between page `i` and the next page.
pub open spec fn page_break(c: CertificateModel, i: int) -> Seq<char> {
    if i + 1 < c.pages.len() {
        "<br><br>\n"@
    } else {
        Seq::empty()
    }
}

/// The image of page `i`, linked to its file, with its page label when
/// the certificate has several pages, and a break before the next page.
pub open spec fn image_block(c: CertificateModel, i: int, width: nat, language: Language) -> Seq<char> {
    image_link(c, i, width, language) + page_caption(c, i, language) + page_break(c, i)
}

#[verifier::spinoff_prover]
fn push_image_link(out: &mut String, certificate: &Certificate, index: usize, displayed: u32, image_width: usize, language: Language)
    requires
        index < certificate.pages@.len(),
        displayed == shown_page_number(certificate@, index as int),
    ensures
        final(out)@ == old(out)@ + image_link(certificate@, index as int, image_width as nat, language),
{
    let ghost c = certificate@;
    let page = &certificate.pages[index];
    assert(c.pages[index as int] == page@);
    let encoded_path = encode_repository_path(&page.path);
    let mut alt_text = String::new();
    alt_text.append(certificate.title.as_str());
    if certificate.pages.len() > 1 {
        alt_text.append(" — ");
        alt_text.append(language.page_label());
        alt_text.append(" ");
        push_decimal(&mut alt_text, displayed as u64);
    }
    assert(alt_text@ =~= alt_text_of(c, index as int, language));
    let alt = encode_text(alt_text.as_str());
    let ghost before = out@;
    out.append("<a href=\"");
    out.append(encoded_path.as_str());
    out.append("\"><img src=\"");
    out.append(encoded_path.as_str());
    out.append("\" alt=\"");
    out.append(alt.as_str());
    out.append("\" width=\"");
    push_decimal(out, image_width as u64);
    out.append("\"></a>\n");
    assert(out@ =~= before + image_link(c, index as int, image_width as nat, language));
}

#[verifier::spinoff_prover]
#[verifier::rlimit(40)]
fn push_image_block(out: &mut String, certificate: &Certificate, index: usize, image_width: usize, language: Language)
    requires
        index < certificate.pages@.len(),
    ensures
        final(out)@ == old(out)@ + image_block(certificate@, index as int, image_width as nat, language),
{
    let ghost c = certificate@;
    let n = certificate.pages.len();
    let page = &certificate.pages[index];
    assert(c.pages[index as int] == page@);
    let displayed_page_number: u32 = match page.page_number {
        Some(number) => number,
        None => (index + 1) as u32,
    };
    let ghost before = out@;
    push_image_link(out, certificate, index, displayed_page_number, image_width, language);
    let ghost mid = out@;
    if n > 1 {
        out.append("<br><sub>");
        let label = encode_text(language.page_label());
        out.append(label.as_str());
        out.append(" ");
        push_decimal(out, displayed_page_number as u64);
        out.append("</sub>\n");
    }
    assert(out@ =~= mid + page_caption(c, index as int, language));
    let ghost mid2 = out@;
    if index + 1 < n {
        out.append("<br><br>\n");
    }
    assert(out@ =~= mid2 + page_break(c, index as int));
    assert(out@ =~= before + image_block(c, index as int, image_width as nat, language));
}

/// The image blocks of the first `n` pages.
pub open spec fn image_blocks(c: CertificateModel, width: nat, language: Language, n: nat) -> Seq<char>
    decreases n,
{
    if n == 0 {
        Seq::empty()
    } else {
        image_blocks(c, width, language, (n - 1) as nat) + image_block(c, n - 1, width, language)
    }
}

/// The images of a certificate, after a page count when it has several
/// pages.
pub open spec fn images_text(c: CertificateModel, width: nat, language: Language) -> Seq<char> {
    (if c.pages.len() > 1 {
        "<sub><strong>"@ + html_escaped(language.total_pages_label_text()) + ": "@ + decimal(
            c.pages.len(),
        ) + "</strong></sub><br><br>\n"@
    } else {
        Seq::empty()
    }) + image_blocks(c, width, language, c.pages.len())
}

/// The images of a certificate's pages, each linked to its file.
pub fn generate_certificate_images(certificate: &Certificate, image_width: usize, language: Language) -> (r: String)
    ensures
        r@ == images_text(certificate@, image_width as nat, language),
{
    let ghost c = certificate@;
    let n = certificate.pages.len();
    let mut out = String::new();
    if n > 1 {
        out.append("<sub><strong>");
        let label = encode_text(language.total_pages_label());
        out.append(label.as_str());
        out.append(": ");
        push_decimal(&mut out, n as u64);
        out.append("</strong></sub><br><br>\n");
    }
    let ghost start = out@;
    let mut index: usize = 0;
    while index < n
        invariant
            index <= n == certificate.pages@.len(),
            c == certificate@,
            c.pages.len() == n,
            out@ == start + image_blocks(c, image_width as nat, language, index as nat),
        decreases n - index,
    {
        push_image_block(&mut out, certificate, index, image_width, language);
        index = index + 1;
    }
    proof {
        assert(out@ =~= images_text(c, image_width as nat, language));
    }
    out
}

/// The cell with a certificate's images.
pub open spec fn image_cell_text(c: CertificateModel, width: nat, language: Language) -> Seq<char> {
    let w = decimal(CERTIFICATE_COLUMN_WIDTH as nat);
    "<td width=\""@ + w + "\" align=\"center\" valign=\"top\" style=\""@ + cell_style(w) + "\">\n"@
        + images_text(c, width, language) + "</td>\n"@
}

/// The title cells of a row.
pub open spec fn title_cells(cs: Seq<CertificateModel>) -> Seq<char>
    decreases cs.len(),
{
    if cs.len() == 0 {
        Seq::empty()
    } else {
        title_cells(cs.drop_last()) + title_cell_text(cs.last())
    }
}

/// The image cells of a row.
pub open spec fn image_cells(cs: Seq<CertificateModel>, width: nat, language: Language) -> Seq<char>
    decreases cs.len(),
{
    if cs.len() == 0 {
        Seq::empty()
    } else {
        image_cells(cs.drop_last(), width, language) + image_cell_text(cs.last(), width, language)
    }
}

/// One row of certificates as a table of its own, as wide as its columns:
/// a row of titles over a row of images. No certificates give no table.
#[verifier::opaque]
pub open spec fn row_table_text(cs: Seq<CertificateModel>, width: nat, language: Language) -> Seq<char> {
    if cs.len() == 0 {
        Seq::empty()
    } else {
        "<table align=\"center\" width=\""@ + decimal(cs.len() * CERTIFICATE_COLUMN_WIDTH as nat)
            + "\">\n"@ + "<tbody>\n"@ + "<tr>\n"@ + title_cells(cs) + "</tr>\n"@ + "<tr>\n"@
            + image_cells(cs, width, language) + "</tr>\n"@ + "</tbody>\n"@ + "</table>\n\n"@
    }
}

/// A table of one row of certificates, centered and as wide as its
/// columns.
pub fn generate_certificate_row_table(certificates: &[Certificate], image_width: usize, language: Language) -> (r: String)
    requires
        certificates@.len() * CERTIFICATE_COLUMN_WIDTH <= usize::MAX,
    ensures
        r@ == row_table_text(certificate_models(certificates@), image_width as nat, language),
{
    let ghost cs = certificate_models(certificates@);
    proof {
        reveal(row_table_text);
    }
    let mut out = String::new();
    if certificates.len() == 0 {
        return out;
    }
    let table_width = certificates.len() * CERTIFICATE_COLUMN_WIDTH;
    out.append("<table align=\"center\" width=\"");
    push_decimal(&mut out, table_width as u64);
    out.append("\">\n");
    out.append("<tbody>\n");
    out.append("<tr>\n");
    let ghost start = out@;
    let mut i: usize = 0;
    while i < certificates.len()
        invariant
            i <= certificates@.len(),
            cs == certificate_models(certificates@),
            out@ == start + title_cells(cs.take(i as int)),
        decreases certificates.len() - i,
    {
        let cell = generate_certificate_title_cell(&certificates[i]);
        out.append(cell.as_str());
        proof {
            assert(cs.take(i + 1).drop_last() =~= cs.take(i as int));
            assert(cs[i as int] == certificates@[i as int]@);
        }
        i = i + 1;
    }
    assert(cs.take(certificates@.len() as int) =~= cs);
    out.append("</tr>\n");
    out.append("<tr>\n");
    let ghost start2 = out@;
    let mut j: usize = 0;
    while j < certificates.len()
        invariant
            j <= certificates@.len(),
            cs == certificate_models(certificates@),
            out@ == start2 + image_cells(cs.take(j as int), image_width as nat, language),
        decreases certificates.len() - j,
    {
        let certificate = &certificates[j];
        push_cell_open(&mut out, "\">\n");
        let images = generate_certificate_images(certificate, image_width, language);
        out.append(images.as_str());
        out.append("</td>\n");
        proof {
            assert(cs.take(j + 1).drop_last() =~= cs.take(j as int));
            assert(cs[j as int] == certificate@);
            assert(out@ =~= start2 + image_cells(cs.take(j + 1), image_width as nat, language));
        }
        j = j + 1;
    }
    assert(cs.take(certificates@.len() as int) =~= cs);
    out.append("</tr>\n");
    out.append("</tbody>\n");
    out.append("</table>\n\n");
    proof {
        assert(out@ =~= row_table_text(cs, image_width as nat, language));
    }
    out
}

/// The certificates of a platform in rows of at most `MAX_COLUMNS`, each
/// row a table of its own.
pub open spec fn row_tables(cs: Seq<CertificateModel>, width: nat, language: Language) -> Seq<char>
    decreases cs.len(),
{
    if cs.len() == 0 {
        Seq::empty()
    } else {
        let k = if cs.len() < MAX_COLUMNS {
            cs.len() as int
        } else {
            MAX_COLUMNS as int
        };
        row_table_text(cs.take(k), width, language) + row_tables(cs.skip(k), width, language)
    }
}

/// The tables of a platform's certificates, in rows of at most
/// `MAX_COLUMNS`, at the configured image width.
pub fn generate_platform_table(platform: &Platform, language: Language) -> (r: String)
    ensures
        r@ == row_tables(
            certificate_models(platform.certificates@),
            CERTIFICATE_COLUMN_WIDTH as nat,
            language,
        ),
{
    let ghost cs = certificate_models(platform.certificates@);
    let image_width = configured_image_width();
    let certs = platform.certificates.as_slice();
    let n = certs.len();
    let mut out = String::new();
    let mut i: usize = 0;
    assert(cs.skip(0) =~= cs);
    while i < n
        invariant
            i <= n == certs@.len(),
            certs@ == platform.certificates@,
            cs == certificate_models(certs@),
            image_width == CERTIFICATE_COLUMN_WIDTH,
            row_tables(cs, CERTIFICATE_COLUMN_WIDTH as nat, language) == out@ + row_tables(
                cs.skip(i as int),
                CERTIFICATE_COLUMN_WIDTH as nat,
                language,
            ),
        decreases n - i,
    {
        let end = if n - i < MAX_COLUMNS {
            n
        } else {
            i + MAX_COLUMNS
        };
        let row = vstd::slice::slice_subrange(certs, i, end);
        let table = generate_certificate_row_table(row, image_width, language);
        out.append(table.as_str());
        proof {
            let rest = cs.skip(i as int);
            let k = (end - i) as int;
            assert(certificate_models(row@) =~= rest.take(k));
            assert(rest.skip(k) =~= cs.skip(end as int));
        }
        i = end;
    }
    proof {
        assert(cs.skip(n as int) =~= Seq::<CertificateModel>::empty());
        assert(out@ =~= out@ + Seq::<char>::empty());
    }
    out
}

/// The section of a platform: heading, number of certificates, tables and
/// a link back to the top.
pub open spec fn platform_section_text(p: PlatformModel, language: Language) -> Seq<char> {
    "## "@ + markdown_heading(p.name) + "\n\n"@ + "<div align=\"center\">\n\n"@ + "**"@
        + language.platform_certificates_label_text() + ": "@ + decimal(p.certificates.len())
        + "**\n\n"@ + "</div>\n\n"@ + row_tables(
        p.certificates,
        CERTIFICATE_COLUMN_WIDTH as nat,
        language,
    ) + "<p align=\"right\"><a href=\""@ + language.top_anchor_text() + "\">↑ "@ + html_escaped(
        language.back_to_top_label_text(),
    ) + "</a></p>\n\n"@ + "---\n\n"@
}

/// The README section of one platform.
pub fn generate_platform_section(platform: &Platform, language: Language) -> (r: String)
    ensures
        r@ == platform_section_text(platform@, language),
{
    let mut out = String::new();
    out.append("## ");
    let heading = escape_markdown_heading(platform.name.as_str());
    out.append(heading.as_str());
    out.append("\n\n");
    out.append("<div align=\"center\">\n\n");
    out.append("**");
    out.append(language.platform_certificates_label());
    out.append(": ");
    push_decimal(&mut out, platform.certificates.len() as u64);
    out.append("**\n\n");
    out.append("</div>\n\n");
    let table = generate_platform_table(platform, language);
    out.append(table.as_str());
    out.append("<p align=\"right\"><a href=\"");
    out.append(language.top_anchor());
    out.append("\">↑ ");
    let back = encode_text(language.back_to_top_label());
    out.append(back.as_str());
    out.append("</a></p>\n\n");
    out.append("---\n\n");
    proof {
        assert(platform@.certificates.len() == platform.certificates@.len());
        assert(out@ =~= platform_section_text(platform@, language));
    }
    out
}

/// The sections of all platforms, in order.
pub open spec fn sections_text(ps: Seq<PlatformModel>, language: Language) -> Seq<char>
    decreases ps.len(),
{
    if ps.len() == 0 {
        Seq::empty()
    } else {
        sections_text(ps.drop_last(), language) + platform_section_text(ps.last(), language)
    }
}

/// The whole README in one language.
pub open spec fn readme_text(ps: Seq<PlatformModel>, total: nat, language: Language) -> Seq<char> {
    header_text(language) + introduction_block(language, total) + contents_text(ps, language)
        + sections_text(ps, language)
}

/// The README in one language: header, introduction with the total number
/// of certificates, table of contents and one section per platform.
pub fn generate_readme(platforms: &[Platform], total_certificates: usize, language: Language) -> (r: String)
    ensures
        r@ == readme_text(platform_models(platforms@), total_certificates as nat, language),
{
    let ghost ps = platform_models(platforms@);
    let mut output = String::new();
    let header = generate_header(language);
    output.append(header.as_str());
    let introduction = generate_introduction(language, total_certificates);
    output.append(introduction.as_str());
    let contents = generate_contents(platforms, language);
    output.append(contents.as_str());
    let ghost start = output@;
    let mut i: usize = 0;
    while i < platforms.len()
        invariant
            i <= platforms@.len(),
            ps == platform_models(platforms@),
            output@ == start + sections_text(ps.take(i as int), language),
        decreases platforms.len() - i,
    {
        let section = generate_platform_section(&platforms[i], language);
        output.append(section.as_str());
        proof {
            assert(ps.take(i + 1).drop_last() =~= ps.take(i as int));
            assert(ps[i as int] == platforms@[i as int]@);
        }
        i = i + 1;
    }
    proof {
        assert(ps.take(platforms@.len() as int) =~= ps);
        assert(output@ =~= readme_text(ps, total_certificates as nat, language));
    }
    output
}

/// The number of certificates of all platforms.
pub open spec fn certificate_count(ps: Seq<PlatformModel>) -> nat
    decreases ps.len(),
{
    if ps.len() == 0 {
        0
    } else {
        certificate_count(ps.drop_last()) + ps.last().certificates.len()
    }
}

/// The number of pages of some certificates.
pub open spec fn pages_in(cs: Seq<CertificateModel>) -> nat
    decreases cs.len(),
{
    if cs.len() == 0 {
        0
    } else {
        pages_in(cs.drop_last()) + cs.last().pages.len()
    }
}

/// The number of image files of all platforms.
pub open spec fn page_count(ps: Seq<PlatformModel>) -> nat
    decreases ps.len(),
{
    if ps.len() == 0 {
        0
    } else {
        page_count(ps.drop_last()) + pages_in(ps.last().certificates)
    }
}

/// The number of certificates of all platforms.
pub fn count_certificates(platforms: &[Platform]) -> (r: usize)
    requires
        certificate_count(platform_models(platforms@)) <= usize::MAX,
    ensures
        r == certificate_count(platform_models(platforms@)),
{
    let ghost ps = platform_models(platforms@);
    let mut total: usize = 0;
    let mut i: usize = 0;
    while i < platforms.len()
        invariant
            i <= platforms@.len(),
            ps == platform_models(platforms@),
            certificate_count(ps) <= usize::MAX,
            total == certificate_count(ps.take(i as int)),
        decreases platforms.len() - i,
    {
        proof {
            assert(ps.take(i + 1).drop_last() =~= ps.take(i as int));
            lemma_certificate_count_prefix(ps, i + 1);
        }
        total = total + platforms[i].certificates.len();
        i = i + 1;
    }
    assert(ps.take(platforms@.len() as int) =~= ps);
    total
}

proof fn lemma_certificate_count_prefix(ps: Seq<PlatformModel>, k: int)
    requires
        0 <= k <= ps.len(),
    ensures
        certificate_count(ps.take(k)) <= certificate_count(ps),
    decreases ps.len() - k,
{
    if k < ps.len() {
        lemma_certificate_count_prefix(ps, k + 1);
        assert(ps.take(k + 1).drop_last() =~= ps.take(k));
    } else {
        assert(ps.take(k) =~= ps);
    }
}

proof fn lemma_pages_in_prefix(cs: Seq<CertificateModel>, k: int)
    requires
        0 <= k <= cs.len(),
    ensures
        pages_in(cs.take(k)) <= pages_in(cs),
    decreases cs.len() - k,
{
    if k < cs.len() {
        lemma_pages_in_prefix(cs, k + 1);
        assert(cs.take(k + 1).drop_last() =~= cs.take(k));
    } else {
        assert(cs.take(k) =~= cs);
    }
}

proof fn lemma_page_count_prefix(ps: Seq<PlatformModel>, k: int)
    requires
        0 <= k <= ps.len(),
    ensures
        page_count(ps.take(k)) <= page_count(ps),
    decreases ps.len() - k,
{
    if k < ps.len() {
        lemma_page_count_prefix(ps, k + 1);
        assert(ps.take(k + 1).drop_last() =~= ps.take(k));
    } else {
        assert(ps.take(k) =~= ps);
    }
}

/// The number of image files of all platforms.
pub fn count_image_files(platforms: &[Platform]) -> (r: usize)
    requires
        page_count(platform_models(platforms@)) <= usize::MAX,
    ensures
        r == page_count(platform_models(platforms@)),
{
    let ghost ps = platform_models(platforms@);
    let mut total: usize = 0;
    let mut i: usize = 0;
    while i < platforms.len()
        invariant
            i <= platforms@.len(),
            ps == platform_models(platforms@),
            page_count(ps) <= usize::MAX,
            total == page_count(ps.take(i as int)),
        decreases platforms.len() - i,
    {
        let certificates = &platforms[i].certificates;
        let ghost cs = ps[i as int].certificates;
        assert(cs == certificate_models(certificates@));
        proof {
            assert(ps.take(i + 1).drop_last() =~= ps.take(i as int));
            lemma_page_count_prefix(ps, i + 1);
        }
        let mut j: usize = 0;
        while j < certificates.len()
            invariant
                j <= certificates@.len(),
                cs == certificate_models(certificates@),
                page_count(ps.take(i as int)) + pages_in(cs) <= usize::MAX,
                total == page_count(ps.take(i as int)) + pages_in(cs.take(j as int)),
            decreases certificates.len() - j,
        {
            proof {
                assert(cs.take(j + 1).drop_last() =~= cs.take(j as int));
                lemma_pages_in_prefix(cs, j + 1);
                assert(cs[j as int].pages.len() == certificates@[j as int].pages@.len());
            }
            total = total + certificates[j].pages.len();
            j = j + 1;
        }
        assert(cs.take(certificates@.len() as int) =~= cs);
        i = i + 1;
    }
    assert(ps.take(platforms@.len() as int) =~= ps);
    total
}

/// Both README files and the totals they are built from.
pub struct Readmes {
    pub english: String,
    pub russian: String,
    pub total_certificates: usize,
    pub total_image_files: usize,
}

/// No certificate was found, so there is nothing to show.
#[derive(Clone, Copy, Debug, PartialEq, Eq, Structural)]
pub struct NoCertificates;

/// Builds the English and the Russian README for the scanned platforms,
/// or reports that no certificate was found.
pub fn build_readmes(platforms: &[Platform]) -> (r: Result<Readmes, NoCertificates>)
    requires
        certificate_count(platform_models(platforms@)) <= usize::MAX,
        page_count(platform_models(platforms@)) <= usize::MAX,
    ensures
        ({
            let ps = platform_models(platforms@);
            match r {
                Ok(readmes) => {
                    &&& certificate_count(ps) > 0
                    &&& readmes.total_certificates == certificate_count(ps)
                    &&& readmes.total_image_files == page_count(ps)
                    &&& readmes.english@ == readme_text(ps, certificate_count(ps), Language::English)
                    &&& readmes.russian@ == readme_text(ps, certificate_count(ps), Language::Russian)
                },
                Err(_) => certificate_count(ps) == 0,
            }
        }),
{
    let total_certificates = count_certificates(platforms);
    let total_image_files = count_image_files(platforms);
    if total_certificates == 0 {
        return Err(NoCertificates);
    }
    let english = generate_readme(platforms, total_certificates, Language::English);
    let russian = generate_readme(platforms, total_certificates, Language::Russian);
    Ok(Readmes { english, russian, total_certificates, total_image_files })
}


/// A language badge of the header: the label on a badge of the given
/// colour, linked to the given README file of the repository.
pub open spec fn language_badge(label: Seq<char>, color: Seq<char>, file: Seq<char>) -> Seq<char> {
    "[!["@ + label + "](https://img.shields.io/badge/README_Language-"@ + label + "-"@ + color
        + ")]("@ + REPOSITORY_URL@ + "/blob/main/"@ + file + ")"@
}

/// The colour of a language's badge: green for the language the README is
/// written in, blue for the other.
pub open spec fn badge_color(badge: Language, current: Language) -> Seq<char> {
    if badge == current {
        "brightgreen"@
    } else {
        "blue"@
    }
}

/// In both languages the header is the page title over two badges: the
/// Русский badge links to `README_RU.md` and the English badge to
/// `README.md`; only the title and which badge is green depend on the
/// language.
#[verifier::spinoff_prover]
#[verifier::rlimit(30)]
pub proof fn lemma_header_badges(language: Language)
    ensures
        header_text(language) == "<div align=\"center\">\n\n# "@ + language.page_title_text()
            + "\n\n"@ + language_badge(
            "Русский"@,
            badge_color(Language::Russian, language),
            "README_RU.md"@,
        ) + "\n"@ + language_badge(
            "English"@,
            badge_color(Language::English, language),
            "README.md"@,
        ) + "\n\n</div>\n\n"@,
{
    reveal_strlit("<div align=\"center\">\n\n# ");
    reveal_strlit("\n\n[![Русский](https://img.shields.io/badge/README_Language-Русский-");
    reveal_strlit(")](");
    reveal_strlit("/blob/main/README_RU.md)\n[![English](https://img.shields.io/badge/README_Language-English-");
    reveal_strlit("/blob/main/README.md)\n\n</div>\n\n");
    reveal_strlit("\n\n");
    reveal_strlit("[![");
    reveal_strlit("](https://img.shields.io/badge/README_Language-");
    reveal_strlit("-");
    reveal_strlit("/blob/main/");
    reveal_strlit(")");
    reveal_strlit("Русский");
    reveal_strlit("English");
    reveal_strlit("README_RU.md");
    reveal_strlit("README.md");
    reveal_strlit("\n");
    reveal_strlit("\n\n</div>\n\n");
    reveal_strlit("brightgreen");
    reveal_strlit("blue");
    assert(header_text(language) =~= "<div align=\"center\">\n\n# "@ + language.page_title_text()
        + "\n\n"@ + language_badge(
        "Русский"@,
        badge_color(Language::Russian, language),
        "README_RU.md"@,
    ) + "\n"@ + language_badge(
        "English"@,
        badge_color(Language::English, language),
        "README.md"@,
    ) + "\n\n</div>\n\n"@);
}

/// The total counts every platform: no platforms count nothing, one
/// platform counts its certificates, and the count of two lists of
/// platforms put together is the sum of their counts.
pub proof fn lemma_certificate_count_sums(a: Seq<PlatformModel>, b: Seq<PlatformModel>, p: PlatformModel)
    ensures
        certificate_count(Seq::empty()) == 0,
        certificate_count(seq![p]) == p.certificates.len(),
        certificate_count(a + b) == certificate_count(a) + certificate_count(b),
    decreases b.len(),
{
    assert(seq![p].drop_last() =~= Seq::<PlatformModel>::empty());
    assert(seq![p].last() == p);
    if b.len() == 0 {
        assert(a + b =~= a);
    } else {
        lemma_certificate_count_sums(a, b.drop_last(), p);
        assert((a + b).drop_last() =~= a + b.drop_last());
        assert((a + b).last() == b.last());
    }
}

proof fn lemma_title_cell_in_title_cells(cs: Seq<CertificateModel>, j: int)
    requires
        0 <= j < cs.len(),
    ensures
        occurs_in(title_cell_text(cs[j]), title_cells(cs)),
    decreases cs.len(),
{
    let d = cs.drop_last();
    let t = title_cell_text(cs[j]);
    let e = Seq::<char>::empty();
    if j == cs.len() - 1 {
        lemma_occurs_in_self(t);
        lemma_occurs_in_concat(t, title_cells(d), t, e);
        assert(title_cells(d) + t + e =~= title_cells(cs));
    } else {
        assert(d[j] == cs[j]);
        lemma_title_cell_in_title_cells(d, j);
        lemma_occurs_in_concat(t, e, title_cells(d), title_cell_text(cs.last()));
        assert(e + title_cells(d) + title_cell_text(cs.last()) =~= title_cells(cs));
    }
}

proof fn lemma_image_cell_in_image_cells(cs: Seq<CertificateModel>, width: nat, language: Language, j: int)
    requires
        0 <= j < cs.len(),
    ensures
        occurs_in(image_cell_text(cs[j], width, language), image_cells(cs, width, language)),
    decreases cs.len(),
{
    let d = cs.drop_last();
    let t = image_cell_text(cs[j], width, language);
    let e = Seq::<char>::empty();
    if j == cs.len() - 1 {
        lemma_occurs_in_self(t);
        lemma_occurs_in_concat(t, image_cells(d, width, language), t, e);
        assert(image_cells(d, width, language) + t + e =~= image_cells(cs, width, language));
    } else {
        assert(d[j] == cs[j]);
        lemma_image_cell_in_image_cells(d, width, language, j);
        lemma_occurs_in_concat(t, e, image_cells(d, width, language), image_cell_text(cs.last(), width, language));
        assert(e + image_cells(d, width, language) + image_cell_text(cs.last(), width, language)
            =~= image_cells(cs, width, language));
    }
}

proof fn lemma_cells_in_row_table(cs: Seq<CertificateModel>, width: nat, language: Language, j: int)
    requires
        0 <= j < cs.len(),
    ensures
        occurs_in(title_cell_text(cs[j]), row_table_text(cs, width, language)),
        occurs_in(image_cell_text(cs[j], width, language), row_table_text(cs, width, language)),
{
    reveal(row_table_text);
    let head = "<table align=\"center\" width=\""@ + decimal(cs.len() * CERTIFICATE_COLUMN_WIDTH as nat)
        + "\">\n"@ + "<tbody>\n"@ + "<tr>\n"@;
    let tc = title_cells(cs);
    let ic = image_cells(cs, width, language);
    let t = title_cell_text(cs[j]);
    let x = image_cell_text(cs[j], width, language);
    lemma_title_cell_in_title_cells(cs, j);
    lemma_image_cell_in_image_cells(cs, width, language, j);
    let s1 = head + tc;
    lemma_occurs_in_prepend(t, head, tc);
    let s2 = s1 + "</tr>\n"@;
    lemma_occurs_in_append(t, s1, "</tr>\n"@);
    let s3 = s2 + "<tr>\n"@;
    lemma_occurs_in_append(t, s2, "<tr>\n"@);
    let s4 = s3 + ic;
    lemma_occurs_in_append(t, s3, ic);
    lemma_occurs_in_prepend(x, s3, ic);
    let s5 = s4 + "</tr>\n"@;
    lemma_occurs_in_append(t, s4, "</tr>\n"@);
    lemma_occurs_in_append(x, s4, "</tr>\n"@);
    let s6 = s5 + "</tbody>\n"@;
    lemma_occurs_in_append(t, s5, "</tbody>\n"@);
    lemma_occurs_in_append(x, s5, "</tbody>\n"@);
    let s7 = s6 + "</table>\n\n"@;
    lemma_occurs_in_append(t, s6, "</table>\n\n"@);
    lemma_occurs_in_append(x, s6, "</table>\n\n"@);
    assert(s7 == row_table_text(cs, width, language));
}

proof fn lemma_cells_in_row_tables(cs: Seq<CertificateModel>, width: nat, language: Language, j: int)
    requires
        0 <= j < cs.len(),
    ensures
        occurs_in(title_cell_text(cs[j]), row_tables(cs, width, language)),
        occurs_in(image_cell_text(cs[j], width, language), row_tables(cs, width, language)),
    decreases cs.len(),
{
    let k = if cs.len() < MAX_COLUMNS {
        cs.len() as int
    } else {
        MAX_COLUMNS as int
    };
    let row = cs.take(k);
    let rest = cs.skip(k);
    let t = title_cell_text(cs[j]);
    let ic = image_cell_text(cs[j], width, language);
    let e = Seq::<char>::empty();
    let first = row_table_text(row, width, language);
    let later = row_tables(rest, width, language);
    assert(row_tables(cs, width, language) == first + later);
    if j < k {
        assert(row[j] == cs[j]);
        lemma_cells_in_row_table(row, width, language, j);
        lemma_occurs_in_concat(t, e, first, later);
        lemma_occurs_in_concat(ic, e, first, later);
    } else {
        assert(rest[j - k] == cs[j]);
        lemma_cells_in_row_tables(rest, width, language, j - k);
        lemma_occurs_in_concat(t, first, later, e);
        lemma_occurs_in_concat(ic, first, later, e);
    }
    assert(e + first + later =~= first + later);
    assert(first + later + e =~= first + later);
}

/// Every certificate of a platform appears in the platform's section: its
/// title cell and its image cell both occur in it, whatever the number of
/// certificates.
#[verifier::spinoff_prover]
#[verifier::rlimit(30)]
pub proof fn lemma_section_shows_every_certificate(p: PlatformModel, language: Language, j: int)
    requires
        0 <= j < p.certificates.len(),
    ensures
        occurs_in(title_cell_text(p.certificates[j]), platform_section_text(p, language)),
        occurs_in(
            image_cell_text(p.certificates[j], CERTIFICATE_COLUMN_WIDTH as nat, language),
            platform_section_text(p, language),
        ),
{
    let w = CERTIFICATE_COLUMN_WIDTH as nat;
    let cs = p.certificates;
    let t = title_cell_text(cs[j]);
    let x = image_cell_text(cs[j], w, language);
    let head = "## "@ + markdown_heading(p.name) + "\n\n"@ + "<div align=\"center\">\n\n"@ + "**"@
        + language.platform_certificates_label_text() + ": "@ + decimal(cs.len()) + "**\n\n"@
        + "</div>\n\n"@;
    let tables = row_tables(cs, w, language);
    lemma_cells_in_row_tables(cs, w, language, j);
    let s1 = head + tables;
    lemma_occurs_in_prepend(t, head, tables);
    lemma_occurs_in_prepend(x, head, tables);
    let s2 = s1 + "<p align=\"right\"><a href=\""@;
    lemma_occurs_in_append(t, s1, "<p align=\"right\"><a href=\""@);
    lemma_occurs_in_append(x, s1, "<p align=\"right\"><a href=\""@);
    let s3 = s2 + language.top_anchor_text();
    lemma_occurs_in_append(t, s2, language.top_anchor_text());
    lemma_occurs_in_append(x, s2, language.top_anchor_text());
    let s4 = s3 + "\">↑ "@;
    lemma_occurs_in_append(t, s3, "\">↑ "@);
    lemma_occurs_in_append(x, s3, "\">↑ "@);
    let back = html_escaped(language.back_to_top_label_text());
    let s5 = s4 + back;
    lemma_occurs_in_append(t, s4, back);
    lemma_occurs_in_append(x, s4, back);
    let s6 = s5 + "</a></p>\n\n"@;
    lemma_occurs_in_append(t, s5, "</a></p>\n\n"@);
    lemma_occurs_in_append(x, s5, "</a></p>\n\n"@);
    let s7 = s6 + "---\n\n"@;
    lemma_occurs_in_append(t, s6, "---\n\n"@);
    lemma_occurs_in_append(x, s6, "---\n\n"@);
    assert(s7 == platform_section_text(p, language));
}

/// The number shown for a page: its own page number, or, for a page
/// without one, its position among the certificate's pages counted from
/// one.
pub open spec fn expected_page_number(c: CertificateModel, i: int) -> nat {
    match c.pages[i].page_number {
        Some(n) => n as nat,
        None => (i + 1) as nat,
    }
}

proof fn lemma_block_in_blocks(c: CertificateModel, width: nat, language: Language, n: nat, i: int)
    requires
        0 <= i < n,
    ensures
        occurs_in(image_block(c, i, width, language), image_blocks(c, width, language, n)),
    decreases n,
{
    let e = Seq::<char>::empty();
    let b = image_block(c, i, width, language);
    let prev = image_blocks(c, width, language, (n - 1) as nat);
    if i == n - 1 {
        lemma_occurs_in_self(b);
        lemma_occurs_in_concat(b, prev, b, e);
        assert(prev + b + e =~= image_blocks(c, width, language, n));
    } else {
        lemma_block_in_blocks(c, width, language, (n - 1) as nat, i);
        let last = image_block(c, n - 1, width, language);
        lemma_occurs_in_concat(b, e, prev, last);
        assert(e + prev + last =~= image_blocks(c, width, language, n));
    }
}

/// Each page of a certificate with several pages is shown under its
/// number, in the image's alternative text and in the caption below it:
/// its own page number, or its position counted from one when it has none.
#[verifier::spinoff_prover]
#[verifier::rlimit(30)]
pub proof fn lemma_pages_shown_with_their_numbers(
    c: CertificateModel,
    width: nat,
    language: Language,
    i: int,
)
    requires
        0 <= i < c.pages.len(),
        c.pages.len() > 1,
        c.pages.len() <= u32::MAX,
    ensures
        occurs_in(
            "\" alt=\""@ + html_escaped(
                c.title + " — "@ + language.page_label_text() + " "@ + decimal(
                    expected_page_number(c, i),
                ),
            ) + "\" width=\""@,
            images_text(c, width, language),
        ),
        occurs_in(
            "<br><sub>"@ + html_escaped(language.page_label_text()) + " "@ + decimal(
                expected_page_number(c, i),
            ) + "</sub>\n"@,
            images_text(c, width, language),
        ),
{
    assert(shown_page_number(c, i) as nat == expected_page_number(c, i));
    let path = repository_path(c.pages[i].path);
    let alt = "\" alt=\""@ + html_escaped(alt_text_of(c, i, language)) + "\" width=\""@;
    let caption = page_caption(c, i, language);
    let link_head = "<a href=\""@ + path + "\"><img src=\""@ + path;
    let link_tail = decimal(width) + "\"></a>\n"@;
    let block = image_block(c, i, width, language);
    assert(block =~= link_head + alt + (link_tail + caption + page_break(c, i)));
    lemma_occurs_in_self(alt);
    lemma_occurs_in_concat(alt, link_head, alt, link_tail + caption + page_break(c, i));
    assert(block =~= (link_head + alt + link_tail) + caption + page_break(c, i));
    lemma_occurs_in_self(caption);
    lemma_occurs_in_concat(caption, link_head + alt + link_tail, caption, page_break(c, i));
    let n = c.pages.len();
    lemma_block_in_blocks(c, width, language, n, i);
    let blocks = image_blocks(c, width, language, n);
    let count = if c.pages.len() > 1 {
        "<sub><strong>"@ + html_escaped(language.total_pages_label_text()) + ": "@ + decimal(
            c.pages.len(),
        ) + "</strong></sub><br><br>\n"@
    } else {
        Seq::empty()
    };
    let e = Seq::<char>::empty();
    lemma_occurs_in_self(blocks);
    lemma_occurs_in_concat(blocks, count, blocks, e);
    assert(count + blocks + e =~= images_text(c, width, language));
    lemma_occurs_in_trans(alt, block, blocks);
    lemma_occurs_in_trans(alt, blocks, images_text(c, width, language));
    lemma_occurs_in_trans(caption, block, blocks);
    lemma_occurs_in_trans(caption, blocks, images_text(c, width, language));
}

} // verus!
