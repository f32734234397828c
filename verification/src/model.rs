//! The data that the README is generated from: platforms, their
//! certificates and the image pages of each certificate, and the two
//! languages of the generated README files.
use vstd::prelude::*;

verus! {

/// One image file of a certificate. `path` holds the components of the
/// file's path, as `Path::components` yields them, each as text.
#[derive(Clone, Debug)]
pub struct CertificatePage {
    pub path: Vec<String>,
    pub page_number: Option<u32>,
}

/// A certificate: a title and its pages, in display order.
#[derive(Clone, Debug)]
pub struct Certificate {
    pub title: String,
    pub pages: Vec<CertificatePage>,
}

/// A platform or organization that issued certificates.
#[derive(Clone, Debug)]
pub struct Platform {
    pub name: String,
    pub certificates: Vec<Certificate>,
}

/// The mathematical value of a page.
pub struct PageModel {
    pub path: Seq<Seq<char>>,
    pub page_number: Option<u32>,
}

/// The mathematical value of a certificate.
pub struct CertificateModel {
    pub title: Seq<char>,
    pub pages: Seq<PageModel>,
}

/// The mathematical value of a platform.
pub struct PlatformModel {
    pub name: Seq<char>,
    pub certificates: Seq<CertificateModel>,
}

/// The texts of a sequence of strings.
pub open spec fn texts(v: Seq<String>) -> Seq<Seq<char>> {
    v.map_values(|s: String| s@)
}

impl View for CertificatePage {
    type V = PageModel;

    open spec fn view(&self) -> PageModel {
        PageModel { path: texts(self.path@), page_number: self.page_number }
    }
}

/// The values of a sequence of pages.
pub open spec fn page_models(v: Seq<CertificatePage>) -> Seq<PageModel> {
    v.map_values(|p: CertificatePage| p@)
}

impl View for Certificate {
    type V = CertificateModel;

    open spec fn view(&self) -> CertificateModel {
        CertificateModel { title: self.title@, pages: page_models(self.pages@) }
    }
}

/// The values of a sequence of certificates.
pub open spec fn certificate_models(v: Seq<Certificate>) -> Seq<CertificateModel> {
    v.map_values(|c: Certificate| c@)
}

impl View for Platform {
    type V = PlatformModel;

    open spec fn view(&self) -> PlatformModel {
        PlatformModel { name: self.name@, certificates: certificate_models(self.certificates@) }
    }
}

/// The values of a sequence of platforms.
pub open spec fn platform_models(v: Seq<Platform>) -> Seq<PlatformModel> {
    v.map_values(|p: Platform| p@)
}

/// The language of a generated README.
#[derive(Clone, Copy, Debug, PartialEq, Eq, Structural)]
pub enum Language {
    English,
    Russian,
}

impl Language {
    /// The link target that leads back to the top of the README.
    pub open spec fn top_anchor_text(self) -> Seq<char> {
        match self {
            Language::English => "#certificates"@,
            Language::Russian => "#сертификаты"@,
        }
    }

    /// The title of the README.
    pub open spec fn page_title_text(self) -> Seq<char> {
        match self {
            Language::English => "Certificates"@,
            Language::Russian => "Сертификаты"@,
        }
    }

    /// The first paragraph of the README.
    pub open spec fn introduction_text(self) -> Seq<char> {
        match self {
            Language::English => "This repository contains my certificates earned through courses, educational programs, professional training, and independent study."@,
            Language::Russian => "В этом репозитории собраны мои сертификаты, полученные за прохождение курсов, образовательных программ, профессионального обучения и самостоятельного изучения."@,
        }
    }

    /// The second paragraph of the README.
    pub open spec fn explanation_text(self) -> Seq<char> {
        match self {
            Language::English => "The certificates are grouped by the platforms and organizations that issued them. Click an image to open the original file."@,
            Language::Russian => "Сертификаты сгруппированы по платформам и организациям, которые их выдали. Нажмите на изображение, чтобы открыть оригинальный файл."@,
        }
    }

    /// The label of the total number of certificates.
    pub open spec fn total_certificates_label_text(self) -> Seq<char> {
        match self {
            Language::English => "Total certificates"@,
            Language::Russian => "Всего сертификатов"@,
        }
    }

    /// The heading of the table of contents.
    pub open spec fn contents_label_text(self) -> Seq<char> {
        match self {
            Language::English => "Platforms and organizations"@,
            Language::Russian => "Платформы и организации"@,
        }
    }

    /// The label of a platform's number of certificates.
    pub open spec fn platform_certificates_label_text(self) -> Seq<char> {
        match self {
            Language::English => "Certificates"@,
            Language::Russian => "Сертификатов"@,
        }
    }

    /// The label of a certificate's number of pages.
    pub open spec fn total_pages_label_text(self) -> Seq<char> {
        match self {
            Language::English => "Total pages"@,
            Language::Russian => "Всего страниц"@,
        }
    }

    /// The label in front of a page number.
    pub open spec fn page_label_text(self) -> Seq<char> {
        match self {
            Language::English => "Page"@,
            Language::Russian => "Страница"@,
        }
    }

    /// The text of the link back to the top.
    pub open spec fn back_to_top_label_text(self) -> Seq<char> {
        match self {
            Language::English => "Back to top"@,
            Language::Russian => "Наверх"@,
        }
    }

    pub fn top_anchor(self) -> (r: &'static str)
        ensures
            r@ == self.top_anchor_text(),
    {
        match self {
            Language::English => "#certificates",
            Language::Russian => "#сертификаты",
        }
    }

    pub fn page_title(self) -> (r: &'static str)
        ensures
            r@ == self.page_title_text(),
    {
        match self {
            Language::English => "Certificates",
            Language::Russian => "Сертификаты",
        }
    }

    pub fn introduction(self) -> (r: &'static str)
        ensures
            r@ == self.introduction_text(),
    {
        match self {
            Language::English => "This repository contains my certificates earned through courses, educational programs, professional training, and independent study.",
            Language::Russian => "В этом репозитории собраны мои сертификаты, полученные за прохождение курсов, образовательных программ, профессионального обучения и самостоятельного изучения.",
        }
    }

    pub fn explanation(self) -> (r: &'static str)
        ensures
            r@ == self.explanation_text(),
    {
        match self {
            Language::English => "The certificates are grouped by the platforms and organizations that issued them. Click an image to open the original file.",
            Language::Russian => "Сертификаты сгруппированы по платформам и организациям, которые их выдали. Нажмите на изображение, чтобы открыть оригинальный файл.",
        }
    }

    pub fn total_certificates_label(self) -> (r: &'static str)
        ensures
            r@ == self.total_certificates_label_text(),
    {
        match self {
            Language::English => "Total certificates",
            Language::Russian => "Всего сертификатов",
        }
    }

    pub fn contents_label(self) -> (r: &'static str)
        ensures
            r@ == self.contents_label_text(),
    {
        match self {
            Language::English => "Platforms and organizations",
            Language::Russian => "Платформы и организации",
        }
    }

    pub fn platform_certificates_label(self) -> (r: &'static str)
        ensures
            r@ == self.platform_certificates_label_text(),
    {
        match self {
            Language::English => "Certificates",
            Language::Russian => "Сертификатов",
        }
    }

    pub fn total_pages_label(self) -> (r: &'static str)
        ensures
            r@ == self.total_pages_label_text(),
    {
        match self {
            Language::English => "Total pages",
            Language::Russian => "Всего страниц",
        }
    }

    pub fn page_label(self) -> (r: &'static str)
        ensures
            r@ == self.page_label_text(),
    {
        match self {
            Language::English => "Page",
            Language::Russian => "Страница",
        }
    }

    pub fn back_to_top_label(self) -> (r: &'static str)
        ensures
            r@ == self.back_to_top_label_text(),
    {
        match self {
            Language::English => "Back to top",
            Language::Russian => "Наверх",
        }
    }
}

} // verus!
