//! The display order of pages, certificates and platforms.
use std::cmp::Ordering;
use vstd::prelude::*;
use crate::model::{Certificate, CertificatePage, PageModel, Platform};
use crate::path::{natural_key_of, natural_path_key};
use crate::sort::Ranked;
use crate::text::{
    lemma_lex_compare_antisymmetric, lemma_lex_compare_range, lemma_lex_compare_transitive,
    lemma_name_order_laws, lex_compare, lex_compare_str, name_compare, name_order,
};

verus! {

/// The `Ordering` of a three-way comparison result.
pub open spec fn ordering_of(c: int) -> Ordering {
    if c < 0 {
        Ordering::Less
    } else if c == 0 {
        Ordering::Equal
    } else {
        Ordering::Greater
    }
}

/// The order of pages: numbered pages by number, after the pages without a
/// number, which are ordered by lowercase file name.
pub open spec fn page_order(a: PageModel, b: PageModel) -> int {
    match (a.page_number, b.page_number) {
        (Some(x), Some(y)) => if x < y {
            -1
        } else if x == y {
            0
        } else {
            1
        },
        (None, Some(_)) => -1,
        (Some(_), None) => 1,
        (None, None) => lex_compare(natural_key_of(a.path), natural_key_of(b.path)),
    }
}

/// The order of two pages of a certificate: pages with a number come after
/// those without, in the order of their numbers; pages without a number
/// are ordered by their lowercase file names.
pub fn compare_certificate_pages(left: &CertificatePage, right: &CertificatePage) -> (r: Ordering)
    ensures
        r == ordering_of(page_order(left@, right@)),
{
    match (left.page_number, right.page_number) {
        (Some(left_number), Some(right_number)) => {
            if left_number < right_number {
                Ordering::Less
            } else if left_number == right_number {
                Ordering::Equal
            } else {
                Ordering::Greater
            }
        },
        (None, Some(_)) => Ordering::Less,
        (Some(_), None) => Ordering::Greater,
        (None, None) => {
            let lk = natural_path_key(&left.path);
            let rk = natural_path_key(&right.path);
            let c = lex_compare_str(lk.as_str(), rk.as_str());
            if c < 0 {
                Ordering::Less
            } else if c == 0 {
                Ordering::Equal
            } else {
                Ordering::Greater
            }
        },
    }
}

/// The order of certificates: by lowercase title, then by exact title.
pub fn compare_certificates(left: &Certificate, right: &Certificate) -> (r: Ordering)
    ensures
        r == ordering_of(name_order(left.title@, right.title@)),
{
    let c = name_compare(&left.title, &right.title);
    if c < 0 {
        Ordering::Less
    } else if c == 0 {
        Ordering::Equal
    } else {
        Ordering::Greater
    }
}

/// The order of platforms: by lowercase name, then by exact name.
pub fn compare_platforms(left: &Platform, right: &Platform) -> (r: Ordering)
    ensures
        r == ordering_of(name_order(left.name@, right.name@)),
{
    let c = name_compare(&left.name, &right.name);
    if c < 0 {
        Ordering::Less
    } else if c == 0 {
        Ordering::Equal
    } else {
        Ordering::Greater
    }
}

/// The page order is a total preorder.
pub proof fn lemma_page_order_laws(a: PageModel, b: PageModel, c: PageModel)
    ensures
        -1 <= page_order(a, b) <= 1,
        page_order(a, b) == -page_order(b, a),
        page_order(a, b) <= 0 && page_order(b, c) <= 0 ==> page_order(a, c) <= 0,
{
    let (ka, kb, kc) = (natural_key_of(a.path), natural_key_of(b.path), natural_key_of(c.path));
    lemma_lex_compare_range(ka, kb);
    lemma_lex_compare_antisymmetric(ka, kb);
    if page_order(a, b) <= 0 && page_order(b, c) <= 0 {
        if a.page_number is None && b.page_number is None && c.page_number is None {
            lemma_lex_compare_transitive(ka, kb, kc);
        }
    }
}

impl Ranked for CertificatePage {
    open spec fn rank_order(a: Self, b: Self) -> int {
        page_order(a@, b@)
    }

    fn compare_rank(&self, other: &Self) -> (r: i8) {
        proof {
            lemma_page_order_laws(self@, other@, other@);
        }
        match compare_certificate_pages(self, other) {
            Ordering::Less => -1,
            Ordering::Equal => 0,
            Ordering::Greater => 1,
        }
    }

    proof fn lemma_rank_order_laws(a: Self, b: Self, c: Self) {
        lemma_page_order_laws(a@, b@, c@);
    }
}

impl Ranked for Certificate {
    open spec fn rank_order(a: Self, b: Self) -> int {
        name_order(a.title@, b.title@)
    }

    fn compare_rank(&self, other: &Self) -> (r: i8) {
        proof {
            lemma_name_order_laws(self.title@, other.title@, other.title@);
        }
        match compare_certificates(self, other) {
            Ordering::Less => -1,
            Ordering::Equal => 0,
            Ordering::Greater => 1,
        }
    }

    proof fn lemma_rank_order_laws(a: Self, b: Self, c: Self) {
        lemma_name_order_laws(a.title@, b.title@, c.title@);
    }
}

impl Ranked for Platform {
    open spec fn rank_order(a: Self, b: Self) -> int {
        name_order(a.name@, b.name@)
    }

    fn compare_rank(&self, other: &Self) -> (r: i8) {
        proof {
            lemma_name_order_laws(self.name@, other.name@, other.name@);
        }
        match compare_platforms(self, other) {
            Ordering::Less => -1,
            Ordering::Equal => 0,
            Ordering::Greater => 1,
        }
    }

    proof fn lemma_rank_order_laws(a: Self, b: Self, c: Self) {
        lemma_name_order_laws(a.name@, b.name@, c.name@);
    }
}

/// The pages that rank equal with `k` in the page order.
pub open spec fn same_page_rank(k: PageModel) -> spec_fn(PageModel) -> bool {
    |q: PageModel| page_order(k, q) == 0
}

/// `out` is `input` sorted stably by the page order: in order, and the
/// pages of each rank in the order they had in `input`.
pub open spec fn is_stable_page_order_of(out: Seq<PageModel>, input: Seq<PageModel>) -> bool {
    &&& out.len() == input.len()
    &&& forall|i: int, j: int|
        0 <= i < j < out.len() ==> page_order(#[trigger] out[i], #[trigger] out[j]) <= 0
    &&& forall|i: int|
        0 <= i < input.len() ==> out.filter(same_page_rank(#[trigger] input[i])) == input.filter(
            same_page_rank(input[i]),
        )
}

} // verus!
