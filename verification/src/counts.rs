//! Counting: every image found becomes exactly one page of the README.
use vstd::prelude::*;
use crate::model::{CertificateModel, PlatformModel};
use crate::readme::{page_count, pages_in};
use crate::scan::{
    ImageModel, certificate_ok, group_pages, grouped_platforms, is_platform_name, platform_ok,
};
use crate::text::{lemma_name_order_laws, name_order};

verus! {

/// The platform and title of each certificate, platform by platform.
pub open spec fn certificate_keys(ps: Seq<PlatformModel>) -> Seq<(Seq<char>, Seq<char>)>
    decreases ps.len(),
{
    if ps.len() == 0 {
        Seq::empty()
    } else {
        certificate_keys(ps.drop_last()) + platform_keys(ps.last())
    }
}

/// The platform and title of each certificate of one platform.
pub open spec fn platform_keys(p: PlatformModel) -> Seq<(Seq<char>, Seq<char>)> {
    p.certificates.map_values(|c: CertificateModel| (p.name, c.title))
}

/// The number of images under each of the keys, added up.
pub open spec fn images_under(images: Seq<ImageModel>, keys: Seq<(Seq<char>, Seq<char>)>) -> nat
    decreases keys.len(),
{
    if keys.len() == 0 {
        0
    } else {
        images_under(images, keys.drop_last()) + group_pages(images, keys.last().0, keys.last().1).len()
    }
}

/// The predicate "the image's platform and title are among `keys`".
pub open spec fn keyed_by(keys: Seq<(Seq<char>, Seq<char>)>) -> spec_fn(ImageModel) -> bool {
    |x: ImageModel| keys.contains((x.platform, x.title))
}

proof fn lemma_images_under_add(images: Seq<ImageModel>, a: Seq<(Seq<char>, Seq<char>)>, b: Seq<(Seq<char>, Seq<char>)>)
    ensures
        images_under(images, a + b) == images_under(images, a) + images_under(images, b),
    decreases b.len(),
{
    if b.len() == 0 {
        assert(a + b =~= a);
    } else {
        assert((a + b).drop_last() =~= a + b.drop_last());
        lemma_images_under_add(images, a, b.drop_last());
    }
}

proof fn lemma_filter_len_or<A>(s: Seq<A>, p: spec_fn(A) -> bool, q: spec_fn(A) -> bool)
    requires
        forall|x: A| !(#[trigger] p(x) && q(x)),
    ensures
        s.filter(|x: A| p(x) || q(x)).len() == s.filter(p).len() + s.filter(q).len(),
    decreases s.len(),
{
    reveal(Seq::filter);
    if s.len() > 0 {
        lemma_filter_len_or(s.drop_last(), p, q);
    }
}

proof fn lemma_filter_len_all<A>(s: Seq<A>, p: spec_fn(A) -> bool)
    requires
        forall|i: int| 0 <= i < s.len() ==> p(#[trigger] s[i]),
    ensures
        s.filter(p).len() == s.len(),
    decreases s.len(),
{
    reveal(Seq::filter);
    if s.len() > 0 {
        lemma_filter_len_all(s.drop_last(), p);
    }
}

/// For keys that occur once each, adding up the images under each key
/// counts the images under any of them.
proof fn lemma_images_under_distinct(images: Seq<ImageModel>, keys: Seq<(Seq<char>, Seq<char>)>)
    requires
        keys.no_duplicates(),
    ensures
        images_under(images, keys) == images.filter(keyed_by(keys)).len(),
    decreases keys.len(),
{
    if keys.len() == 0 {
        lemma_filter_len_none(images, keyed_by(keys));
    } else {
        let rest = keys.drop_last();
        let k = keys.last();
        assert(rest.no_duplicates());
        lemma_images_under_distinct(images, rest);
        let p = keyed_by(rest);
        let q = |x: ImageModel| x.platform == k.0 && x.title == k.1;
        assert forall|x: ImageModel| !(#[trigger] p(x) && q(x)) by {
            if p(x) && q(x) {
                let j = choose|j: int| 0 <= j < rest.len() && rest[j] == (x.platform, x.title);
                assert(keys[j] == keys[keys.len() - 1]);
            }
        }
        lemma_filter_len_or(images, p, q);
        assert forall|x: ImageModel| #[trigger] keyed_by(keys)(x) == (p(x) || q(x)) by {
            if keys.contains((x.platform, x.title)) {
                let j = choose|j: int| 0 <= j < keys.len() && keys[j] == (x.platform, x.title);
                if j < keys.len() - 1 {
                    assert(rest[j] == keys[j]);
                }
            }
            if p(x) {
                let j = choose|j: int| 0 <= j < rest.len() && rest[j] == (x.platform, x.title);
                assert(keys[j] == rest[j]);
            }
            if q(x) {
                assert(keys[keys.len() - 1] == (x.platform, x.title));
            }
        }
        assert(keyed_by(keys) =~= (|x: ImageModel| p(x) || q(x)));
    }
}

proof fn lemma_filter_len_none<A>(s: Seq<A>, p: spec_fn(A) -> bool)
    requires
        forall|x: A| !#[trigger] p(x),
    ensures
        s.filter(p).len() == 0,
    decreases s.len(),
{
    reveal(Seq::filter);
    if s.len() > 0 {
        lemma_filter_len_none(s.drop_last(), p);
    }
}

/// The pages of one platform's certificates are the images under its keys.
proof fn lemma_pages_in_platform(images: Seq<ImageModel>, name: Seq<char>, cs: Seq<CertificateModel>)
    requires
        forall|i: int| 0 <= i < cs.len() ==> certificate_ok(images, name, #[trigger] cs[i]),
    ensures
        pages_in(cs) == images_under(
            images,
            cs.map_values(|c: CertificateModel| (name, c.title)),
        ),
    decreases cs.len(),
{
    if cs.len() > 0 {
        let rest = cs.drop_last();
        assert forall|i: int| 0 <= i < rest.len() implies certificate_ok(images, name, #[trigger] rest[i]) by {
            assert(rest[i] == cs[i]);
        }
        lemma_pages_in_platform(images, name, rest);
        let m = cs.map_values(|c: CertificateModel| (name, c.title));
        assert(m.drop_last() =~= rest.map_values(|c: CertificateModel| (name, c.title)));
        assert(certificate_ok(images, name, cs[cs.len() - 1]));
        assert(group_pages(images, name, cs.last().title).len() == cs.last().pages.len());
    }
}

/// The number of pages of all platforms is the number of images under all
/// their keys.
proof fn lemma_page_count_keys(images: Seq<ImageModel>, ps: Seq<PlatformModel>)
    requires
        forall|i: int| 0 <= i < ps.len() ==> platform_ok(images, #[trigger] ps[i]),
    ensures
        page_count(ps) == images_under(images, certificate_keys(ps)),
    decreases ps.len(),
{
    if ps.len() > 0 {
        let rest = ps.drop_last();
        assert forall|i: int| 0 <= i < rest.len() implies platform_ok(images, #[trigger] rest[i]) by {
            assert(rest[i] == ps[i]);
        }
        lemma_page_count_keys(images, rest);
        let p = ps.last();
        assert(platform_ok(images, ps[ps.len() - 1]));
        lemma_pages_in_platform(images, p.name, p.certificates);
        lemma_images_under_add(images, certificate_keys(rest), platform_keys(p));
    }
}

/// Every key of the platforms names one of their platforms, and one of
/// that platform's certificates.
proof fn lemma_certificate_keys_member(ps: Seq<PlatformModel>, k: (Seq<char>, Seq<char>))
    requires
        certificate_keys(ps).contains(k),
    ensures
        exists|i: int, c: int|
            0 <= i < ps.len() && 0 <= c < ps[i].certificates.len() && #[trigger] ps[i].name == k.0
                && #[trigger] ps[i].certificates[c].title == k.1,
    decreases ps.len(),
{
    let rest = ps.drop_last();
    let p = ps.last();
    let j = choose|j: int| 0 <= j < certificate_keys(ps).len() && certificate_keys(ps)[j] == k;
    let left = certificate_keys(rest);
    if j < left.len() {
        assert(left[j] == k);
        lemma_certificate_keys_member(rest, k);
        let (i, c) = choose|i: int, c: int|
            0 <= i < rest.len() && 0 <= c < rest[i].certificates.len() && #[trigger] rest[i].name
                == k.0 && #[trigger] rest[i].certificates[c].title == k.1;
        assert(ps[i] == rest[i]);
    } else {
        let c = j - left.len();
        assert(platform_keys(p)[c] == k);
        assert(ps[ps.len() - 1] == p);
        assert(ps[ps.len() - 1].certificates[c].title == k.1);
    }
}

/// Every certificate of the platforms has its key among theirs.
proof fn lemma_certificate_keys_cover(ps: Seq<PlatformModel>, i: int, c: int)
    requires
        0 <= i < ps.len(),
        0 <= c < ps[i].certificates.len(),
    ensures
        certificate_keys(ps).contains((ps[i].name, ps[i].certificates[c].title)),
    decreases ps.len(),
{
    let rest = ps.drop_last();
    let left = certificate_keys(rest);
    if i < ps.len() - 1 {
        assert(rest[i] == ps[i]);
        lemma_certificate_keys_cover(rest, i, c);
        let j = choose|j: int| 0 <= j < left.len() && left[j] == (ps[i].name, ps[i].certificates[c].title);
        assert(certificate_keys(ps)[j] == left[j]);
    } else {
        assert(platform_keys(ps.last())[c] == (ps[i].name, ps[i].certificates[c].title));
        assert(certificate_keys(ps)[left.len() + c] == platform_keys(ps.last())[c]);
    }
}

/// The certificates of a platform come in strict name order.
pub open spec fn titles_in_order(p: PlatformModel) -> bool {
    forall|a: int, b: int|
        0 <= a < b < p.certificates.len() ==> name_order(
            #[trigger] p.certificates[a].title,
            #[trigger] p.certificates[b].title,
        ) < 0
}

/// With platform names in strict order and titles in strict order within
/// each platform, every key occurs once.
proof fn lemma_certificate_keys_distinct(ps: Seq<PlatformModel>)
    requires
        forall|i: int, j: int|
            0 <= i < j < ps.len() ==> name_order(#[trigger] ps[i].name, #[trigger] ps[j].name) < 0,
        forall|i: int| 0 <= i < ps.len() ==> titles_in_order(#[trigger] ps[i]),
    ensures
        certificate_keys(ps).no_duplicates(),
    decreases ps.len(),
{
    if ps.len() > 0 {
        let rest = ps.drop_last();
        let p = ps.last();
        assert forall|i: int, j: int| 0 <= i < j < rest.len() implies name_order(
            #[trigger] rest[i].name,
            #[trigger] rest[j].name,
        ) < 0 by {
            assert(rest[i] == ps[i] && rest[j] == ps[j]);
        }
        assert forall|i: int| 0 <= i < rest.len() implies titles_in_order(#[trigger] rest[i]) by {
            assert(rest[i] == ps[i]);
        }
        lemma_certificate_keys_distinct(rest);
        let left = certificate_keys(rest);
        let right = platform_keys(p);
        let all = certificate_keys(ps);
        assert(all == left + right);
        assert forall|a: int, b: int| 0 <= a < all.len() && 0 <= b < all.len() && a != b implies all[a]
            != all[b] by {
            if a < left.len() && b < left.len() {
                assert(all[a] == left[a] && all[b] == left[b]);
            } else if a >= left.len() && b >= left.len() {
                let (ca, cb) = (a - left.len(), b - left.len());
                assert(all[a] == right[ca] && all[b] == right[cb]);
                assert(ps[ps.len() - 1] == p);
                assert(titles_in_order(ps[ps.len() - 1]));
                lemma_name_order_laws(p.certificates[ca].title, p.certificates[cb].title, p.certificates[cb].title);
                if ca < cb {
                    assert(name_order(p.certificates[ca].title, p.certificates[cb].title) < 0);
                } else {
                    assert(name_order(p.certificates[cb].title, p.certificates[ca].title) < 0);
                }
            } else {
                let (l, r) = if a < left.len() {
                    (a, b)
                } else {
                    (b, a)
                };
                assert(all[l] == left[l]);
                assert(left.contains(left[l]));
                lemma_certificate_keys_member(rest, left[l]);
                let (i, c) = choose|i: int, c: int|
                    0 <= i < rest.len() && 0 <= c < rest[i].certificates.len() && #[trigger] rest[i].name
                        == left[l].0 && #[trigger] rest[i].certificates[c].title == left[l].1;
                assert(rest[i] == ps[i]);
                assert(ps[ps.len() - 1] == p);
                assert(name_order(ps[i].name, ps[ps.len() - 1].name) < 0);
                lemma_name_order_laws(ps[i].name, p.name, p.name);
                assert(all[r] == right[r - left.len()]);
                assert(right[r - left.len()].0 == p.name);
            }
        }
    }
}

/// Every image that the scan finds is shown as exactly one page: the
/// pages of all certificates of the grouped platforms number as many as
/// the images.
pub proof fn lemma_every_image_one_page(dirs: Seq<Seq<char>>, images: Seq<ImageModel>, r: Seq<PlatformModel>)
    requires
        grouped_platforms(dirs, images, r),
    ensures
        page_count(r) == images.len(),
{
    assert forall|i: int| 0 <= i < r.len() implies platform_ok(images, #[trigger] r[i]) by {
        let _n = r[i].name;
    }
    assert forall|i: int| 0 <= i < r.len() implies titles_in_order(#[trigger] r[i]) by {
        assert(platform_ok(images, r[i]));
    }
    lemma_page_count_keys(images, r);
    lemma_certificate_keys_distinct(r);
    let keys = certificate_keys(r);
    lemma_images_under_distinct(images, keys);
    assert forall|k: int| 0 <= k < images.len() implies keyed_by(keys)(#[trigger] images[k]) by {
        assert(is_platform_name(dirs, images, images[k].platform));
        let i = choose|i: int| 0 <= i < r.len() && #[trigger] r[i].name == images[k].platform;
        assert(platform_ok(images, r[i]));
        let c = choose|c: int| 0 <= c < r[i].certificates.len() && #[trigger] r[i].certificates[c].title
            == images[k].title;
        lemma_certificate_keys_cover(r, i, c);
    }
    lemma_filter_len_all(images, keyed_by(keys));
}

} // verus!
