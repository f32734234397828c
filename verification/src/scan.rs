//! From the entries of the certificates directory to the sorted platforms,
//! certificates and pages that the README shows.
use vstd::prelude::*;
use crate::model::{
    Certificate, CertificateModel, CertificatePage, PageModel, Platform, PlatformModel, texts,
    page_models, certificate_models, platform_models,
};
use crate::naming::{parse_certificate_name, parsed_name};
use crate::order::{is_stable_page_order_of, page_order, same_page_rank};
use crate::path::{
    file_name, file_name_of, file_stem_of_name, is_supported_image, is_supported_image_path,
    stem_of,
};
use crate::sort::{Ranked, is_stable_sort_of, same_rank_as, stable_sort};
use crate::text::{name_order, trim, trimmed, lemma_name_order_laws};

verus! {

/// An entry met while walking the certificates directory: the components
/// of its path and whether it is a regular file.
#[derive(Clone, Debug)]
pub struct WalkEntry {
    pub path: Vec<String>,
    pub is_file: bool,
}

/// Why scanning failed.
#[derive(Clone, Debug)]
pub enum ScanError {
    /// An entry's path does not start with the root's path.
    OutsideRoot,
    /// An image file's path has no file name.
    MissingFileName,
    /// The page number in the file stem does not fit in a `u32`.
    InvalidPageNumber(String),
}

/// The mathematical value of a scan error.
pub enum ScanFailure {
    OutsideRoot,
    MissingFileName,
    InvalidPageNumber(Seq<char>),
}

impl View for ScanError {
    type V = ScanFailure;

    open spec fn view(&self) -> ScanFailure {
        match self {
            ScanError::OutsideRoot => ScanFailure::OutsideRoot,
            ScanError::MissingFileName => ScanFailure::MissingFileName,
            ScanError::InvalidPageNumber(stem) => ScanFailure::InvalidPageNumber(stem@),
        }
    }
}

/// An image page found under a platform directory.
pub struct ImageItem {
    pub platform: String,
    pub title: String,
    pub page: CertificatePage,
}

/// The mathematical value of an image page found under a platform.
pub struct ImageModel {
    pub platform: Seq<char>,
    pub title: Seq<char>,
    pub page: PageModel,
}

impl View for ImageItem {
    type V = ImageModel;

    open spec fn view(&self) -> ImageModel {
        ImageModel { platform: self.platform@, title: self.title@, page: self.page@ }
    }
}

/// The values of a sequence of images.
pub open spec fn image_models(v: Seq<ImageItem>) -> Seq<ImageModel> {
    v.map_values(|x: ImageItem| x@)
}

/// What one walked entry contributes.
pub enum EntryOutcome {
    Skipped,
    Image(ImageModel),
    Failed(ScanFailure),
}

/// Whether `root` is a prefix of `path`, component by component.
pub open spec fn starts_with_root(path: Seq<Seq<char>>, root: Seq<Seq<char>>) -> bool {
    root.len() <= path.len() && path.take(root.len() as int) == root
}

/// What one entry contributes: directories, files that are not supported
/// images and images that do not lie inside a platform directory are
/// skipped; an image gives the trimmed name of its platform directory (the
/// first component under the root) and the certificate title and page
/// number that its trimmed file stem spells.
pub open spec fn entry_outcome(root: Seq<Seq<char>>, path: Seq<Seq<char>>, is_file: bool) -> EntryOutcome {
    if !is_file || !is_supported_image_path(path) {
        EntryOutcome::Skipped
    } else if !starts_with_root(path, root) {
        EntryOutcome::Failed(ScanFailure::OutsideRoot)
    } else if path.len() - root.len() < 2 {
        EntryOutcome::Skipped
    } else {
        match file_name_of(path) {
            None => EntryOutcome::Failed(ScanFailure::MissingFileName),
            Some(name) => {
                let stem = trimmed(stem_of(name));
                match parsed_name(stem) {
                    None => EntryOutcome::Failed(ScanFailure::InvalidPageNumber(stem)),
                    Some((title, page)) => EntryOutcome::Image(
                        ImageModel {
                            platform: trimmed(path[root.len() as int]),
                            title,
                            page: PageModel { path, page_number: page },
                        },
                    ),
                }
            },
        }
    }
}

/// The mathematical value of a walked entry.
pub open spec fn entry_models(v: Seq<WalkEntry>) -> Seq<(Seq<Seq<char>>, bool)> {
    v.map_values(|e: WalkEntry| (texts(e.path@), e.is_file))
}

/// The images of the entries in walking order, or the failure of the first
/// entry that fails.
pub open spec fn collected_images(root: Seq<Seq<char>>, entries: Seq<(Seq<Seq<char>>, bool)>) -> Result<Seq<ImageModel>, ScanFailure>
    decreases entries.len(),
{
    if entries.len() == 0 {
        Ok(Seq::empty())
    } else {
        match collected_images(root, entries.drop_last()) {
            Err(e) => Err(e),
            Ok(images) => match entry_outcome(root, entries.last().0, entries.last().1) {
                EntryOutcome::Skipped => Ok(images),
                EntryOutcome::Image(image) => Ok(images.push(image)),
                EntryOutcome::Failed(e) => Err(e),
            },
        }
    }
}

fn copy_strings(v: &Vec<String>) -> (r: Vec<String>)
    ensures
        r@ == v@,
{
    let mut r: Vec<String> = Vec::new();
    let mut i: usize = 0;
    while i < v.len()
        invariant
            i <= v@.len(),
            r@ == v@.take(i as int),
        decreases v.len() - i,
    {
        r.push(v[i].clone());
        assert(r@ =~= v@.take(i + 1));
        i = i + 1;
    }
    assert(v@.take(v@.len() as int) =~= v@);
    r
}

fn starts_with_root_exec(path: &Vec<String>, root: &Vec<String>) -> (r: bool)
    ensures
        r == starts_with_root(texts(path@), texts(root@)),
{
    if root.len() > path.len() {
        return false;
    }
    let mut i: usize = 0;
    while i < root.len()
        invariant
            i <= root@.len() <= path@.len(),
            forall|j: int| 0 <= j < i ==> #[trigger] path@[j]@ == root@[j]@,
        decreases root.len() - i,
    {
        if path[i] != root[i] {
            assert(texts(path@).take(root@.len() as int)[i as int] != texts(root@)[i as int]);
            return false;
        }
        i = i + 1;
    }
    assert(texts(path@).take(root@.len() as int) =~= texts(root@));
    true
}

/// What one entry contributes (`Ok(None)` when it is skipped).
fn entry_image(root: &Vec<String>, entry: &WalkEntry) -> (r: Result<Option<ImageItem>, ScanError>)
    ensures
        match entry_outcome(texts(root@), texts(entry.path@), entry.is_file) {
            EntryOutcome::Skipped => r matches Ok(None),
            EntryOutcome::Image(image) => r matches Ok(Some(item)) && item@ == image,
            EntryOutcome::Failed(e) => r matches Err(err) && err@ == e,
        },
{
    let path = &entry.path;
    if !entry.is_file || !is_supported_image(path) {
        return Ok(None);
    }
    if !starts_with_root_exec(path, root) {
        return Err(ScanError::OutsideRoot);
    }
    if path.len() - root.len() < 2 {
        return Ok(None);
    }
    let name = match file_name(path) {
        Some(name) => name,
        None => return Err(ScanError::MissingFileName),
    };
    let raw_stem = file_stem_of_name(name.as_str());
    let stem = trim(raw_stem.as_str());
    match parse_certificate_name(stem.as_str()) {
        Ok((title, page_number)) => {
            let platform = trim(path[root.len()].as_str());
            let page = CertificatePage { path: copy_strings(path), page_number };
            Ok(Some(ImageItem { platform, title, page }))
        },
        Err(_) => Err(ScanError::InvalidPageNumber(stem)),
    }
}

/// The images among the walked entries, in walking order, or the error of
/// the first entry that fails.
pub fn collect_images(root: &Vec<String>, entries: &Vec<WalkEntry>) -> (r: Result<Vec<ImageItem>, ScanError>)
    ensures
        match collected_images(texts(root@), entry_models(entries@)) {
            Ok(images) => r matches Ok(items) && image_models(items@) == images,
            Err(e) => r matches Err(err) && err@ == e,
        },
{
    let ghost root_t = texts(root@);
    let ghost models = entry_models(entries@);
    let mut items: Vec<ImageItem> = Vec::new();
    let mut i: usize = 0;
    assert(models.take(0) =~= Seq::<(Seq<Seq<char>>, bool)>::empty());
    assert(image_models(items@) =~= Seq::<ImageModel>::empty());
    while i < entries.len()
        invariant
            i <= entries@.len(),
            root_t == texts(root@),
            models == entry_models(entries@),
            collected_images(root_t, models.take(i as int)) == Ok::<Seq<ImageModel>, ScanFailure>(
                image_models(items@),
            ),
        decreases entries.len() - i,
    {
        let ghost before = items@;
        assert(models.take(i + 1).drop_last() =~= models.take(i as int));
        assert(models.take(i + 1).last() == models[i as int]);
        match entry_image(root, &entries[i]) {
            Ok(Some(item)) => {
                items.push(item);
                assert(image_models(items@) =~= image_models(before).push(item@));
            },
            Ok(None) => {},
            Err(e) => {
                proof {
                    lemma_collected_failure_persists(root_t, models, i as int + 1);
                    assert(models.take(models.len() as int) =~= models);
                }
                return Err(e);
            },
        }
        i = i + 1;
    }
    assert(models.take(entries@.len() as int) =~= models);
    Ok(items)
}

proof fn lemma_collected_failure_persists(root: Seq<Seq<char>>, entries: Seq<(Seq<Seq<char>>, bool)>, i: int)
    requires
        0 <= i <= entries.len(),
        collected_images(root, entries.take(i)) is Err,
    ensures
        collected_images(root, entries) == collected_images(root, entries.take(i)),
    decreases entries.len() - i,
{
    if i < entries.len() {
        assert(entries.take(i + 1).drop_last() =~= entries.take(i));
        lemma_collected_failure_persists(root, entries, i + 1);
    } else {
        assert(entries.take(i) =~= entries);
    }
}

/// The pages of platform `p`'s certificate `t`, in walking order.
pub open spec fn group_pages(images: Seq<ImageModel>, p: Seq<char>, t: Seq<char>) -> Seq<PageModel> {
    images.filter(|x: ImageModel| x.platform == p && x.title == t).map_values(|x: ImageModel| x.page)
}

/// Whether some image lies under platform `p` with certificate title `t`.
pub open spec fn has_image(images: Seq<ImageModel>, p: Seq<char>, t: Seq<char>) -> bool {
    exists|k: int| 0 <= k < images.len() && #[trigger] images[k].platform == p && images[k].title == t
}

proof fn lemma_filter_map<A, B>(s: Seq<A>, f: spec_fn(A) -> B, p: spec_fn(B) -> bool)
    ensures
        s.map_values(f).filter(p) == s.filter(|a: A| p(f(a))).map_values(f),
    decreases s.len(),
{
    reveal(Seq::filter);
    if s.len() > 0 {
        lemma_filter_map(s.drop_last(), f, p);
        assert(s.map_values(f).drop_last() =~= s.drop_last().map_values(f));
        let q = |a: A| p(f(a));
        if q(s.last()) {
            assert(s.filter(q).map_values(f) =~= s.drop_last().filter(q).map_values(f).push(
                f(s.last()),
            ));
        }
    } else {
        assert(s.map_values(f).filter(p) =~= Seq::<B>::empty());
        assert(s.filter(|a: A| p(f(a))).map_values(f) =~= Seq::<B>::empty());
    }
}

proof fn lemma_group_pages_push(images: Seq<ImageModel>, x: ImageModel, p: Seq<char>, t: Seq<char>)
    ensures
        group_pages(images.push(x), p, t) == (if x.platform == p && x.title == t {
            group_pages(images, p, t).push(x.page)
        } else {
            group_pages(images, p, t)
        }),
{
    reveal(Seq::filter);
    let pred = |y: ImageModel| y.platform == p && y.title == t;
    assert(images.push(x).drop_last() =~= images);
    if pred(x) {
        assert(images.push(x).filter(pred) == images.filter(pred).push(x));
        assert(images.push(x).filter(pred).map_values(|y: ImageModel| y.page)
            =~= images.filter(pred).map_values(|y: ImageModel| y.page).push(x.page));
    } else {
        assert(images.push(x).filter(pred) == images.filter(pred));
    }
}

proof fn lemma_group_pages_empty(images: Seq<ImageModel>, p: Seq<char>, t: Seq<char>)
    requires
        !has_image(images, p, t),
    ensures
        group_pages(images, p, t) == Seq::<PageModel>::empty(),
{
    let pred = |y: ImageModel| y.platform == p && y.title == t;
    assert forall|i: int| 0 <= i < images.len() implies !pred(#[trigger] images[i]) by {
        if pred(images[i]) {
            assert(images[i].platform == p && images[i].title == t);
        }
    }
    images.lemma_all_neg_filter_empty(pred);
    assert(images.filter(pred) =~= Seq::<ImageModel>::empty());
    assert(group_pages(images, p, t) =~= Seq::<PageModel>::empty());
}

/// The pages of one certificate while they are collected.
struct Group {
    platform: String,
    title: String,
    pages: Vec<CertificatePage>,
}

/// What holds of collected groups after the images `images`: one group per
/// platform and title, holding that certificate's pages in walking order.
#[verifier::opaque]
spec fn groups_collect(groups: Seq<Group>, images: Seq<ImageModel>) -> bool {
    &&& forall|a: int, b: int|
        0 <= a < b < groups.len() ==> !(#[trigger] groups[a].platform@ == #[trigger] groups[b].platform@
            && groups[a].title@ == groups[b].title@)
    &&& forall|g: int|
        0 <= g < groups.len() ==> page_models(#[trigger] groups[g].pages@) == group_pages(
            images,
            groups[g].platform@,
            groups[g].title@,
        )
    &&& forall|g: int|
        0 <= g < groups.len() ==> has_image(images, #[trigger] groups[g].platform@, groups[g].title@)
    &&& forall|k: int|
        0 <= k < images.len() ==> exists|g: int|
            0 <= g < groups.len() && #[trigger] groups[g].platform@ == #[trigger] images[k].platform
                && groups[g].title@ == images[k].title
}

fn find_group(groups: &Vec<Group>, platform: &String, title: &String) -> (r: Option<usize>)
    ensures
        match r {
            Some(i) => i < groups@.len() && groups@[i as int].platform@ == platform@
                && groups@[i as int].title@ == title@,
            None => forall|i: int|
                0 <= i < groups@.len() ==> !(#[trigger] groups@[i].platform@ == platform@
                    && groups@[i].title@ == title@),
        },
{
    let mut i: usize = 0;
    while i < groups.len()
        invariant
            i <= groups@.len(),
            forall|j: int|
                0 <= j < i ==> !(#[trigger] groups@[j].platform@ == platform@ && groups@[j].title@
                    == title@),
        decreases groups.len() - i,
    {
        if groups[i].platform == *platform && groups[i].title == *title {
            return Some(i);
        }
        i = i + 1;
    }
    None
}

proof fn lemma_collect_existing(before: Seq<Group>, seen: Seq<ImageModel>, x: ImageModel, idx: int, after: Seq<Group>)
    requires
        groups_collect(before, seen),
        0 <= idx < before.len(),
        before[idx].platform@ == x.platform,
        before[idx].title@ == x.title,
        after.len() == before.len(),
        forall|h: int| 0 <= h < before.len() && h != idx ==> #[trigger] after[h] == before[h],
        after[idx].platform@ == x.platform,
        after[idx].title@ == x.title,
        page_models(after[idx].pages@) == page_models(before[idx].pages@).push(x.page),
    ensures
        groups_collect(after, seen.push(x)),
{
    reveal(groups_collect);
    let now = seen.push(x);
    assert forall|a: int, b: int| 0 <= a < b < after.len() implies !(
    #[trigger] after[a].platform@ == #[trigger] after[b].platform@ && after[a].title@
        == after[b].title@) by {
        assert(after[a].platform@ == before[a].platform@);
        assert(after[a].title@ == before[a].title@);
        assert(after[b].platform@ == before[b].platform@);
        assert(after[b].title@ == before[b].title@);
    }
    assert forall|h: int| 0 <= h < after.len() implies page_models(#[trigger] after[h].pages@)
        == group_pages(now, after[h].platform@, after[h].title@) by {
        lemma_group_pages_push(seen, x, after[h].platform@, after[h].title@);
        if h != idx {
            assert(after[h] == before[h]);
            assert(!(before[h].platform@ == x.platform && before[h].title@ == x.title));
        }
    }
    assert forall|h: int| 0 <= h < after.len() implies has_image(
        now,
        #[trigger] after[h].platform@,
        after[h].title@,
    ) by {
        assert(after[h].platform@ == before[h].platform@);
        assert(after[h].title@ == before[h].title@);
        let k = choose|k: int|
            0 <= k < seen.len() && #[trigger] seen[k].platform == before[h].platform@ && seen[k].title
                == before[h].title@;
        assert(now[k] == seen[k]);
    }
    assert forall|k: int| 0 <= k < now.len() implies exists|g: int|
        0 <= g < after.len() && #[trigger] after[g].platform@ == #[trigger] now[k].platform
            && after[g].title@ == now[k].title by {
        if k < seen.len() {
            assert(now[k] == seen[k]);
            let g = choose|g: int|
                0 <= g < before.len() && #[trigger] before[g].platform@ == #[trigger] seen[k].platform
                    && before[g].title@ == seen[k].title;
            assert(after[g].platform@ == before[g].platform@);
            assert(after[g].title@ == before[g].title@);
        } else {
            assert(after[idx].platform@ == now[k].platform);
        }
    }
}

proof fn lemma_collect_new(before: Seq<Group>, seen: Seq<ImageModel>, x: ImageModel, after: Seq<Group>)
    requires
        groups_collect(before, seen),
        forall|i: int|
            0 <= i < before.len() ==> !(#[trigger] before[i].platform@ == x.platform
                && before[i].title@ == x.title),
        after.len() == before.len() + 1,
        forall|h: int| 0 <= h < before.len() ==> #[trigger] after[h] == before[h],
        after[before.len() as int].platform@ == x.platform,
        after[before.len() as int].title@ == x.title,
        page_models(after[before.len() as int].pages@) == seq![x.page],
    ensures
        groups_collect(after, seen.push(x)),
{
    reveal(groups_collect);
    let now = seen.push(x);
    let n = before.len() as int;
    assert forall|k: int| 0 <= k < seen.len() implies !(#[trigger] seen[k].platform == x.platform
        && seen[k].title == x.title) by {
        if seen[k].platform == x.platform && seen[k].title == x.title {
            let g = choose|g: int|
                0 <= g < before.len() && #[trigger] before[g].platform@ == #[trigger] seen[k].platform
                    && before[g].title@ == seen[k].title;
        }
    }
    lemma_group_pages_empty(seen, x.platform, x.title);
    assert forall|h: int| 0 <= h < after.len() implies page_models(#[trigger] after[h].pages@)
        == group_pages(now, after[h].platform@, after[h].title@) by {
        lemma_group_pages_push(seen, x, after[h].platform@, after[h].title@);
        if h == n {
            assert(Seq::<PageModel>::empty().push(x.page) =~= seq![x.page]);
        } else {
            assert(after[h] == before[h]);
        }
    }
    assert forall|h: int| 0 <= h < after.len() implies has_image(
        now,
        #[trigger] after[h].platform@,
        after[h].title@,
    ) by {
        if h == n {
            assert(now[seen.len() as int] == x);
        } else {
            assert(after[h] == before[h]);
            let k = choose|k: int|
                0 <= k < seen.len() && #[trigger] seen[k].platform == before[h].platform@
                    && seen[k].title == before[h].title@;
            assert(now[k] == seen[k]);
        }
    }
    assert forall|k: int| 0 <= k < now.len() implies exists|g: int|
        0 <= g < after.len() && #[trigger] after[g].platform@ == #[trigger] now[k].platform
            && after[g].title@ == now[k].title by {
        if k < seen.len() {
            assert(now[k] == seen[k]);
            let g = choose|g: int|
                0 <= g < before.len() && #[trigger] before[g].platform@ == #[trigger] seen[k].platform
                    && before[g].title@ == seen[k].title;
            assert(after[g] == before[g]);
        } else {
            assert(after[n].platform@ == now[k].platform);
        }
    }
    assert forall|a: int, b: int| 0 <= a < b < after.len() implies !(
    #[trigger] after[a].platform@ == #[trigger] after[b].platform@ && after[a].title@
        == after[b].title@) by {
        assert(after[a] == before[a]);
        if b < n {
            assert(after[b] == before[b]);
        }
    }
}

/// Collects the pages of each certificate, in walking order.
fn collect_groups(items: Vec<ImageItem>) -> (groups: Vec<Group>)
    ensures
        groups_collect(groups@, image_models(items@)),
{
    let ghost orig = image_models(items@);
    let mut rest = items;
    let mut groups: Vec<Group> = Vec::new();
    let ghost mut done: int = 0;
    proof {
        reveal(groups_collect);
        assert(image_models(rest@) =~= orig.skip(0));
        assert(orig.take(0) =~= Seq::<ImageModel>::empty());
    }
    while rest.len() > 0
        invariant
            0 <= done <= orig.len(),
            image_models(rest@) == orig.skip(done),
            groups_collect(groups@, orig.take(done)),
        decreases rest@.len(),
    {
        let ghost before = groups@;
        let ghost seen = orig.take(done);
        let ghost rest_before = rest@;
        assert(image_models(rest_before).len() == rest_before.len());
        assert(image_models(rest_before)[0] == rest_before[0]@);
        assert(orig.skip(done)[0] == orig[done]);
        let item = rest.remove(0);
        assert(item@ == orig[done]);
        assert(orig.take(done + 1) =~= seen.push(item@));
        let ghost x = item@;
        match find_group(&groups, &item.platform, &item.title) {
            Some(idx) => {
                let mut g = groups.remove(idx);
                let ghost old_pages = g.pages@;
                g.pages.push(item.page);
                assert(page_models(g.pages@) =~= page_models(old_pages).push(x.page));
                groups.insert(idx, g);
                proof {
                    lemma_collect_existing(before, seen, x, idx as int, groups@);
                }
            },
            None => {
                let ImageItem { platform, title, page } = item;
                let mut pages: Vec<CertificatePage> = Vec::new();
                pages.push(page);
                assert(page_models(pages@) =~= seq![x.page]);
                groups.push(Group { platform, title, pages });
                proof {
                    lemma_collect_new(before, seen, x, groups@);
                }
            },
        }
        proof {
            assert(rest@ =~= rest_before.skip(1));
            assert forall|j: int| 0 <= j < rest@.len() implies #[trigger] image_models(rest@)[j]
                == orig.skip(done + 1)[j] by {
                assert(rest@[j] == rest_before[j + 1]);
                assert(image_models(rest_before)[j + 1] == rest_before[j + 1]@);
                assert(orig.skip(done)[j + 1] == orig.skip(done + 1)[j]);
            }
            assert(image_models(rest@) =~= orig.skip(done + 1));
            done = done + 1;
        }
    }
    assert(orig.take(done) =~= orig);
    groups
}

proof fn lemma_page_sort_models(out: Seq<CertificatePage>, input: Seq<CertificatePage>)
    requires
        is_stable_sort_of(out, input),
    ensures
        is_stable_page_order_of(page_models(out), page_models(input)),
{
    let f = |p: CertificatePage| p@;
    assert(page_models(out) =~= out.map_values(f));
    assert(page_models(input) =~= input.map_values(f));
    let mo = page_models(out);
    let mi = page_models(input);
    assert forall|i: int, j: int| 0 <= i < j < mo.len() implies page_order(
        #[trigger] mo[i],
        #[trigger] mo[j],
    ) <= 0 by {
        assert(<CertificatePage as Ranked>::rank_order(out[i], out[j]) <= 0);
    }
    assert forall|i: int| 0 <= i < mi.len() implies mo.filter(same_page_rank(#[trigger] mi[i]))
        == mi.filter(same_page_rank(mi[i])) by {
        let k = input[i];
        let pred = same_page_rank(k@);
        lemma_filter_map(out, f, pred);
        lemma_filter_map(input, f, pred);
        assert((|a: CertificatePage| pred(f(a))) =~= same_rank_as(k));
        assert(out.filter(same_rank_as(k)) == input.filter(same_rank_as(k)));
    }
}

/// Sorts the pages of each group by the page order.
fn sort_group_pages(groups: Vec<Group>) -> (r: Vec<Group>)
    ensures
        r@.len() == groups@.len(),
        forall|g: int|
            0 <= g < r@.len() ==> (#[trigger] r@[g]).platform@ == groups@[g].platform@
                && r@[g].title@ == groups@[g].title@ && is_stable_page_order_of(
                page_models(r@[g].pages@),
                page_models(groups@[g].pages@),
            ),
{
    let ghost orig = groups@;
    let mut rest = groups;
    let mut r: Vec<Group> = Vec::new();
    let ghost mut done: int = 0;
    assert(rest@ =~= orig.skip(0));
    while rest.len() > 0
        invariant
            0 <= done <= orig.len(),
            rest@ == orig.skip(done),
            r@.len() == done,
            forall|g: int|
                0 <= g < done ==> (#[trigger] r@[g]).platform@ == orig[g].platform@ && r@[g].title@
                    == orig[g].title@ && is_stable_page_order_of(
                    page_models(r@[g].pages@),
                    page_models(orig[g].pages@),
                ),
        decreases rest@.len(),
    {
        let ghost rest_before = rest@;
        assert(orig.skip(done)[0] == orig[done]);
        let Group { platform, title, pages } = rest.remove(0);
        let sorted = stable_sort(pages);
        proof {
            lemma_page_sort_models(sorted@, orig[done].pages@);
        }
        r.push(Group { platform, title, pages: sorted });
        proof {
            assert(rest@ =~= orig.skip(done + 1));
            done = done + 1;
        }
    }
    r
}

/// Whether `n` names a platform: a directory under the root (trimmed) or
/// the platform of some image.
pub open spec fn is_platform_name(dirs: Seq<Seq<char>>, images: Seq<ImageModel>, n: Seq<char>) -> bool {
    ||| exists|i: int| 0 <= i < dirs.len() && trimmed(#[trigger] dirs[i]) == n
    ||| exists|k: int| 0 <= k < images.len() && #[trigger] images[k].platform == n
}

fn find_name(names: &Vec<String>, n: &String) -> (r: Option<usize>)
    ensures
        match r {
            Some(i) => i < names@.len() && names@[i as int]@ == n@,
            None => forall|i: int| 0 <= i < names@.len() ==> #[trigger] names@[i]@ != n@,
        },
{
    let mut i: usize = 0;
    while i < names.len()
        invariant
            i <= names@.len(),
            forall|j: int| 0 <= j < i ==> #[trigger] names@[j]@ != n@,
        decreases names.len() - i,
    {
        if names[i] == *n {
            return Some(i);
        }
        i = i + 1;
    }
    None
}

/// Whether `n` is one of the texts of `names`.
spec fn name_listed(names: Seq<String>, n: Seq<char>) -> bool {
    exists|m: int| 0 <= m < names.len() && #[trigger] names[m]@ == n
}

proof fn lemma_name_listed_push(names: Seq<String>, x: String, n: Seq<char>)
    requires
        name_listed(names, n),
    ensures
        name_listed(names.push(x), n),
{
    let m = choose|m: int| 0 <= m < names.len() && #[trigger] names[m]@ == n;
    assert(names.push(x)[m] == names[m]);
}

/// The names of all platforms, each once.
fn platform_names(dirs: &Vec<String>, items: &Vec<ImageItem>) -> (names: Vec<String>)
    ensures
        forall|a: int, b: int| 0 <= a < b < names@.len() ==> #[trigger] names@[a]@ != #[trigger] names@[b]@,
        forall|i: int|
            0 <= i < names@.len() ==> is_platform_name(texts(dirs@), image_models(items@), #[trigger] names@[i]@),
        forall|n: Seq<char>|
            is_platform_name(texts(dirs@), image_models(items@), n) ==> name_listed(names@, n),
{
    let ghost ds = texts(dirs@);
    let ghost images = image_models(items@);
    let mut names: Vec<String> = Vec::new();
    let mut i: usize = 0;
    while i < dirs.len()
        invariant
            i <= dirs@.len(),
            ds == texts(dirs@),
            images == image_models(items@),
            forall|a: int, b: int|
                0 <= a < b < names@.len() ==> #[trigger] names@[a]@ != #[trigger] names@[b]@,
            forall|j: int| 0 <= j < names@.len() ==> is_platform_name(ds, images, #[trigger] names@[j]@),
            forall|j: int| 0 <= j < i ==> name_listed(names@, trimmed(#[trigger] ds[j])),
        decreases dirs.len() - i,
    {
        let name = trim(dirs[i].as_str());
        assert(ds[i as int] == dirs@[i as int]@);
        let ghost before = names@;
        if find_name(&names, &name).is_none() {
            names.push(name);
            proof {
                assert forall|j: int| 0 <= j < i implies name_listed(names@, trimmed(#[trigger] ds[j])) by {
                    lemma_name_listed_push(before, name, trimmed(ds[j]));
                }
                assert(names@[before.len() as int]@ == trimmed(ds[i as int]));
            }
        }
        i = i + 1;
    }
    let mut k: usize = 0;
    while k < items.len()
        invariant
            k <= items@.len(),
            ds == texts(dirs@),
            images == image_models(items@),
            forall|a: int, b: int|
                0 <= a < b < names@.len() ==> #[trigger] names@[a]@ != #[trigger] names@[b]@,
            forall|j: int| 0 <= j < names@.len() ==> is_platform_name(ds, images, #[trigger] names@[j]@),
            forall|j: int| 0 <= j < ds.len() ==> name_listed(names@, trimmed(#[trigger] ds[j])),
            forall|j: int| 0 <= j < k ==> name_listed(names@, #[trigger] images[j].platform),
        decreases items.len() - k,
    {
        let ghost before = names@;
        assert(images[k as int] == items@[k as int]@);
        if find_name(&names, &items[k].platform).is_none() {
            let name = items[k].platform.clone();
            names.push(name);
            proof {
                assert forall|j: int| 0 <= j < ds.len() implies name_listed(names@, trimmed(#[trigger] ds[j])) by {
                    lemma_name_listed_push(before, name, trimmed(ds[j]));
                }
                assert forall|j: int| 0 <= j < k implies name_listed(names@, #[trigger] images[j].platform) by {
                    lemma_name_listed_push(before, name, images[j].platform);
                }
                assert(names@[before.len() as int]@ == images[k as int].platform);
            }
        }
        k = k + 1;
    }
    proof {
        assert forall|n: Seq<char>| is_platform_name(ds, images, n) implies name_listed(names@, n) by {
            if exists|j: int| 0 <= j < ds.len() && trimmed(#[trigger] ds[j]) == n {
                let j = choose|j: int| 0 <= j < ds.len() && trimmed(#[trigger] ds[j]) == n;
                assert(name_listed(names@, trimmed(ds[j])));
            } else {
                let j = choose|j: int| 0 <= j < images.len() && #[trigger] images[j].platform == n;
                assert(name_listed(names@, images[j].platform));
            }
        }
    }
    names
}

/// A certificate of platform `p` is right when some image lies under it
/// and its pages are those images' pages, sorted stably by the page order.
pub open spec fn certificate_ok(images: Seq<ImageModel>, p: Seq<char>, c: CertificateModel) -> bool {
    &&& has_image(images, p, c.title)
    &&& is_stable_page_order_of(c.pages, group_pages(images, p, c.title))
}

/// A platform is right when its certificates are right, come in strict
/// name order, and include every certificate that an image of it names.
pub open spec fn platform_ok(images: Seq<ImageModel>, p: PlatformModel) -> bool {
    let cs = p.certificates;
    &&& forall|i: int, j: int|
        0 <= i < j < cs.len() ==> name_order(#[trigger] cs[i].title, #[trigger] cs[j].title) < 0
    &&& forall|i: int| 0 <= i < cs.len() ==> certificate_ok(images, p.name, #[trigger] cs[i])
    &&& forall|k: int|
        0 <= k < images.len() && #[trigger] images[k].platform == p.name ==> exists|i: int|
            0 <= i < cs.len() && #[trigger] cs[i].title == images[k].title
}

/// The platforms shown for the directories `dirs` and the images
/// `images`: every platform name once, in strict name order, each platform
/// right.
pub open spec fn grouped_platforms(dirs: Seq<Seq<char>>, images: Seq<ImageModel>, r: Seq<PlatformModel>) -> bool {
    &&& forall|i: int, j: int|
        0 <= i < j < r.len() ==> name_order(#[trigger] r[i].name, #[trigger] r[j].name) < 0
    &&& forall|i: int|
        0 <= i < r.len() ==> is_platform_name(dirs, images, #[trigger] r[i].name) && platform_ok(
            images,
            r[i],
        )
    &&& forall|n: Seq<char>|
        is_platform_name(dirs, images, n) ==> exists|i: int| 0 <= i < r.len() && #[trigger] r[i].name == n
}

/// Whether some group is platform `p`'s certificate `t`.
spec fn group_listed(sg: Seq<Group>, p: Seq<char>, t: Seq<char>) -> bool {
    exists|g: int| 0 <= g < sg.len() && #[trigger] sg[g].platform@ == p && sg[g].title@ == t
}

/// What holds of the sorted groups.
#[verifier::opaque]
spec fn sorted_groups_ok(sg: Seq<Group>, images: Seq<ImageModel>) -> bool {
    &&& forall|a: int, b: int|
        0 <= a < b < sg.len() ==> !(#[trigger] sg[a].platform@ == #[trigger] sg[b].platform@
            && sg[a].title@ == sg[b].title@)
    &&& forall|g: int|
        0 <= g < sg.len() ==> certificate_ok(
            images,
            (#[trigger] sg[g]).platform@,
            CertificateModel { title: sg[g].title@, pages: page_models(sg[g].pages@) },
        )
    &&& forall|k: int|
        0 <= k < images.len() ==> group_listed(sg, (#[trigger] images[k]).platform, images[k].title)
}

/// Whether platform `p` has a certificate titled `t`.
spec fn has_certificate(p: Platform, t: Seq<char>) -> bool {
    exists|c: int| 0 <= c < p.certificates@.len() && #[trigger] p.certificates@[c].title@ == t
}

/// Whether the platforms hold a certificate `t` under platform `n`.
spec fn placed(pl: Seq<Platform>, n: Seq<char>, t: Seq<char>) -> bool {
    exists|q: int| 0 <= q < pl.len() && #[trigger] pl[q].name@ == n && has_certificate(pl[q], t)
}

spec fn inv_names(pl: Seq<Platform>, names: Seq<String>) -> bool {
    &&& pl.len() == names.len()
    &&& forall|q: int| 0 <= q < pl.len() ==> (#[trigger] pl[q]).name@ == names[q]@
}

spec fn inv_certificates_ok(pl: Seq<Platform>, images: Seq<ImageModel>) -> bool {
    forall|q: int, c: int|
        0 <= q < pl.len() && 0 <= c < pl[q].certificates@.len() ==> certificate_ok(
            images,
            pl[q].name@,
            (#[trigger] pl[q].certificates@[c])@,
        )
}

spec fn inv_titles_distinct(pl: Seq<Platform>) -> bool {
    forall|q: int, a: int, b: int|
        0 <= q < pl.len() && 0 <= a < b < pl[q].certificates@.len() ==> (#[trigger] pl[q].certificates@[a]).title@
            != (#[trigger] pl[q].certificates@[b]).title@
}

spec fn inv_covered(pl: Seq<Platform>, sg: Seq<Group>, done: int, images: Seq<ImageModel>) -> bool {
    forall|k: int|
        0 <= k < images.len() ==> placed(pl, (#[trigger] images[k]).platform, images[k].title) || exists|j: int|
            done <= j < sg.len() && #[trigger] sg[j].platform@ == images[k].platform && sg[j].title@
                == images[k].title
}

spec fn inv_unplaced(pl: Seq<Platform>, sg: Seq<Group>, done: int) -> bool {
    forall|j: int| done <= j < sg.len() ==> !placed(pl, (#[trigger] sg[j]).platform@, sg[j].title@)
}

/// What holds while the sorted groups `sg[..done]` are placed into their
/// platforms.
#[verifier::opaque]
spec fn assembly_inv(
    pl: Seq<Platform>,
    names: Seq<String>,
    sg: Seq<Group>,
    done: int,
    images: Seq<ImageModel>,
) -> bool {
    &&& inv_names(pl, names)
    &&& inv_certificates_ok(pl, images)
    &&& inv_titles_distinct(pl)
    &&& inv_covered(pl, sg, done, images)
    &&& inv_unplaced(pl, sg, done)
}

/// The placing of one more certificate `cert` into platform `q`.
spec fn placing(before: Seq<Platform>, after: Seq<Platform>, q: int, cert: Certificate) -> bool {
    &&& 0 <= q < before.len()
    &&& after.len() == before.len()
    &&& forall|h: int| 0 <= h < before.len() && h != q ==> #[trigger] after[h] == before[h]
    &&& after[q].name@ == before[q].name@
    &&& after[q].certificates@ == before[q].certificates@.push(cert)
}

proof fn lemma_placed_grows(before: Seq<Platform>, after: Seq<Platform>, q: int, cert: Certificate, n: Seq<char>, t: Seq<char>)
    requires
        placing(before, after, q, cert),
        placed(before, n, t),
    ensures
        placed(after, n, t),
{
    let q2 = choose|q2: int| 0 <= q2 < before.len() && #[trigger] before[q2].name@ == n
        && has_certificate(before[q2], t);
    let c = choose|c: int| 0 <= c < before[q2].certificates@.len()
        && #[trigger] before[q2].certificates@[c].title@ == t;
    if q2 != q {
        assert(after[q2] == before[q2]);
        assert(has_certificate(after[q2], t));
    } else {
        assert(after[q].certificates@[c] == before[q].certificates@[c]);
        assert(has_certificate(after[q2], t));
    }
}

proof fn lemma_placed_new(before: Seq<Platform>, after: Seq<Platform>, q: int, cert: Certificate, n: Seq<char>, t: Seq<char>)
    requires
        placing(before, after, q, cert),
        placed(after, n, t),
        !placed(before, n, t),
    ensures
        after[q].name@ == n && cert.title@ == t,
{
    let q2 = choose|q2: int| 0 <= q2 < after.len() && #[trigger] after[q2].name@ == n
        && has_certificate(after[q2], t);
    let c = choose|c: int| 0 <= c < after[q2].certificates@.len()
        && #[trigger] after[q2].certificates@[c].title@ == t;
    if q2 != q {
        assert(after[q2] == before[q2]);
        assert(placed(before, n, t));
    } else if c < before[q].certificates@.len() {
        assert(after[q].certificates@[c] == before[q].certificates@[c]);
        assert(has_certificate(before[q], t));
        assert(placed(before, n, t));
    } else {
        assert(after[q].certificates@[c] == cert);
    }
}

proof fn lemma_step_certificates(
    before: Seq<Platform>,
    after: Seq<Platform>,
    names: Seq<String>,
    images: Seq<ImageModel>,
    q: int,
    cert: Certificate,
)
    requires
        inv_names(before, names),
        inv_certificates_ok(before, images),
        inv_titles_distinct(before),
        placing(before, after, q, cert),
        certificate_ok(images, before[q].name@, cert@),
        !has_certificate(before[q], cert.title@),
    ensures
        inv_names(after, names),
        inv_certificates_ok(after, images),
        inv_titles_distinct(after),
{
    assert forall|q2: int| 0 <= q2 < after.len() implies (#[trigger] after[q2]).name@ == names[q2]@ by {
        if q2 != q {
            assert(after[q2] == before[q2]);
        }
    }
    assert forall|q2: int, c: int|
        0 <= q2 < after.len() && 0 <= c < after[q2].certificates@.len() implies certificate_ok(
        images,
        after[q2].name@,
        (#[trigger] after[q2].certificates@[c])@,
    ) by {
        if q2 != q {
            assert(after[q2] == before[q2]);
        } else if c < before[q].certificates@.len() {
            assert(after[q].certificates@[c] == before[q].certificates@[c]);
        } else {
            assert(after[q].certificates@[c] == cert);
        }
    }
    assert forall|q2: int, a: int, b: int|
        0 <= q2 < after.len() && 0 <= a < b < after[q2].certificates@.len() implies (#[trigger] after[q2].certificates@[a]).title@
        != (#[trigger] after[q2].certificates@[b]).title@ by {
        if q2 != q {
            assert(after[q2] == before[q2]);
        } else {
            assert(after[q].certificates@[a] == before[q].certificates@[a]);
            if b < before[q].certificates@.len() {
                assert(after[q].certificates@[b] == before[q].certificates@[b]);
            } else {
                assert(after[q].certificates@[b] == cert);
                if before[q].certificates@[a].title@ == cert.title@ {
                    assert(has_certificate(before[q], cert.title@));
                }
            }
        }
    }
}

spec fn keys_distinct(sg: Seq<Group>) -> bool {
    forall|a: int, b: int|
        0 <= a < b < sg.len() ==> !(#[trigger] sg[a].platform@ == #[trigger] sg[b].platform@
            && sg[a].title@ == sg[b].title@)
}

proof fn lemma_step_covered(
    before: Seq<Platform>,
    after: Seq<Platform>,
    sg: Seq<Group>,
    done: int,
    images: Seq<ImageModel>,
    q: int,
    cert: Certificate,
)
    requires
        inv_covered(before, sg, done, images),
        0 <= done < sg.len(),
        placing(before, after, q, cert),
        before[q].name@ == sg[done].platform@,
        cert.title@ == sg[done].title@,
    ensures
        inv_covered(after, sg, done + 1, images),
{
    let g = sg[done];
    let last = before[q].certificates@.len() as int;
    assert(after[q].certificates@[last] == cert);
    assert(has_certificate(after[q], g.title@));
    assert(placed(after, g.platform@, g.title@));
    assert forall|k: int| 0 <= k < images.len() implies placed(
        after,
        (#[trigger] images[k]).platform,
        images[k].title,
    ) || exists|j: int|
        done + 1 <= j < sg.len() && #[trigger] sg[j].platform@ == images[k].platform && sg[j].title@
            == images[k].title by {
        if placed(before, images[k].platform, images[k].title) {
            lemma_placed_grows(before, after, q, cert, images[k].platform, images[k].title);
        } else {
            let j = choose|j: int|
                done <= j < sg.len() && #[trigger] sg[j].platform@ == images[k].platform && sg[j].title@
                    == images[k].title;
            if j == done {
                assert(placed(after, images[k].platform, images[k].title));
            }
        }
    }
}

proof fn lemma_step_unplaced(
    before: Seq<Platform>,
    after: Seq<Platform>,
    sg: Seq<Group>,
    done: int,
    q: int,
    cert: Certificate,
)
    requires
        inv_unplaced(before, sg, done),
        keys_distinct(sg),
        0 <= done < sg.len(),
        placing(before, after, q, cert),
        before[q].name@ == sg[done].platform@,
        cert.title@ == sg[done].title@,
    ensures
        inv_unplaced(after, sg, done + 1),
{
    assert forall|j: int| done + 1 <= j < sg.len() implies !placed(
        after,
        (#[trigger] sg[j]).platform@,
        sg[j].title@,
    ) by {
        assert(!placed(before, sg[j].platform@, sg[j].title@));
        if placed(after, sg[j].platform@, sg[j].title@) {
            lemma_placed_new(before, after, q, cert, sg[j].platform@, sg[j].title@);
            assert(sg[done].platform@ == sg[j].platform@ && sg[done].title@ == sg[j].title@);
        }
    }
}

proof fn lemma_assembly_step(
    before: Seq<Platform>,
    after: Seq<Platform>,
    names: Seq<String>,
    sg: Seq<Group>,
    done: int,
    images: Seq<ImageModel>,
    q: int,
    cert: Certificate,
)
    requires
        assembly_inv(before, names, sg, done, images),
        sorted_groups_ok(sg, images),
        0 <= done < sg.len(),
        placing(before, after, q, cert),
        before[q].name@ == sg[done].platform@,
        cert@ == (CertificateModel { title: sg[done].title@, pages: page_models(sg[done].pages@) }),
    ensures
        assembly_inv(after, names, sg, done + 1, images),
{
    reveal(assembly_inv);
    reveal(sorted_groups_ok);
    let g = sg[done];
    assert(certificate_ok(images, g.platform@, cert@));
    assert(!placed(before, g.platform@, g.title@));
    if has_certificate(before[q], g.title@) {
        assert(placed(before, g.platform@, g.title@));
    }
    lemma_step_certificates(before, after, names, images, q, cert);
    lemma_step_covered(before, after, sg, done, images, q, cert);
    assert(keys_distinct(sg));
    lemma_step_unplaced(before, after, sg, done, q, cert);
}

/// Places every sorted group into its platform, one certificate each.
fn assemble(names: &Vec<String>, groups: Vec<Group>, Ghost(images): Ghost<Seq<ImageModel>>) -> (pl: Vec<Platform>)
    requires
        sorted_groups_ok(groups@, images),
        forall|g: int|
            0 <= g < groups@.len() ==> name_listed(names@, (#[trigger] groups@[g]).platform@),
    ensures
        assembly_inv(pl@, names@, groups@, groups@.len() as int, images),
{
    let ghost sg = groups@;
    let mut pl: Vec<Platform> = Vec::new();
    let mut i: usize = 0;
    while i < names.len()
        invariant
            i <= names@.len(),
            pl@.len() == i,
            forall|q: int| 0 <= q < i ==> (#[trigger] pl@[q]).name@ == names@[q]@ && pl@[q].certificates@.len()
                == 0,
        decreases names.len() - i,
    {
        pl.push(Platform { name: names[i].clone(), certificates: Vec::new() });
        i = i + 1;
    }
    proof {
        reveal(assembly_inv);
        reveal(sorted_groups_ok);
        assert forall|k: int| 0 <= k < images.len() implies placed(
            pl@,
            (#[trigger] images[k]).platform,
            images[k].title,
        ) || exists|j: int|
            0 <= j < sg.len() && #[trigger] sg[j].platform@ == images[k].platform && sg[j].title@
                == images[k].title by {
            assert(group_listed(sg, images[k].platform, images[k].title));
            let g = choose|g: int|
                0 <= g < sg.len() && #[trigger] sg[g].platform@ == images[k].platform
                    && sg[g].title@ == images[k].title;
        }
        assert forall|j: int| 0 <= j < sg.len() implies !placed(pl@, (#[trigger] sg[j]).platform@, sg[j].title@) by {
            if placed(pl@, sg[j].platform@, sg[j].title@) {
                let q = choose|q: int| 0 <= q < pl@.len() && #[trigger] pl@[q].name@ == sg[j].platform@
                    && has_certificate(pl@[q], sg[j].title@);
            }
        }
        assert(sg.skip(0) =~= sg);
    }
    let mut rest = groups;
    let ghost mut done: int = 0;
    while rest.len() > 0
        invariant
            0 <= done <= sg.len(),
            rest@ == sg.skip(done),
            sorted_groups_ok(sg, images),
            forall|g: int| 0 <= g < sg.len() ==> name_listed(names@, (#[trigger] sg[g]).platform@),
            assembly_inv(pl@, names@, sg, done, images),
        decreases rest@.len(),
    {
        proof {
            reveal(assembly_inv);
        }
        let ghost before = pl@;
        assert(sg.skip(done)[0] == sg[done]);
        let g = rest.remove(0);
        assert(g == sg[done]);
        match find_name(names, &g.platform) {
            Some(q) => {
                let Group { platform: _, title, pages } = g;
                let cert = Certificate { title, pages };
                let mut plat = pl.remove(q);
                plat.certificates.push(cert);
                pl.insert(q, plat);
                proof {
                    assert(pl@ =~= before.update(q as int, pl@[q as int]));
                    assert(placing(before, pl@, q as int, cert));
                    lemma_assembly_step(before, pl@, names@, sg, done, images, q as int, cert);
                }
            },
            None => {
                proof {
                    let m = choose|m: int| 0 <= m < names@.len() && #[trigger] names@[m]@ == sg[done].platform@;
                    assert(false);
                }
            },
        }
        proof {
            assert(rest@ =~= sg.skip(done + 1));
            done = done + 1;
        }
    }
    pl
}

/// Sorts the certificates of one platform by name order.
fn sort_platform_certificates(p: Platform, Ghost(images): Ghost<Seq<ImageModel>>) -> (r: Platform)
    requires
        forall|c: int|
            0 <= c < p.certificates@.len() ==> certificate_ok(
                images,
                p.name@,
                (#[trigger] p.certificates@[c])@,
            ),
        forall|a: int, b: int|
            0 <= a < b < p.certificates@.len() ==> (#[trigger] p.certificates@[a]).title@
                != (#[trigger] p.certificates@[b]).title@,
        forall|k: int|
            0 <= k < images.len() && #[trigger] images[k].platform == p.name@ ==> has_certificate(
                p,
                images[k].title,
            ),
    ensures
        r.name@ == p.name@,
        platform_ok(images, r@),
{
    let Platform { name, certificates } = p;
    let ghost input = certificates@;
    let sorted = stable_sort(certificates);
    let ghost out = sorted@;
    proof {
        assert forall|a: int, b: int| 0 <= a < b < input.len() implies <Certificate as Ranked>::rank_order(
            #[trigger] input[a],
            #[trigger] input[b],
        ) != 0 by {
            lemma_name_order_laws(input[a].title@, input[b].title@, input[b].title@);
        }
        crate::sort::lemma_stable_sort_distinct(out, input);
    }
    let r = Platform { name, certificates: sorted };
    proof {
        let cs = r@.certificates;
        assert(cs == certificate_models(out));
        assert forall|i: int, j: int| 0 <= i < j < cs.len() implies name_order(
            #[trigger] cs[i].title,
            #[trigger] cs[j].title,
        ) < 0 by {
            assert(<Certificate as Ranked>::rank_order(out[i], out[j]) < 0);
        }
        assert forall|i: int| 0 <= i < cs.len() implies certificate_ok(images, r@.name, #[trigger] cs[i]) by {
            assert(out.contains(out[i]));
            let c = choose|c: int| 0 <= c < input.len() && input[c] == out[i];
        }
        assert forall|k: int|
            0 <= k < images.len() && #[trigger] images[k].platform == r@.name implies exists|i: int|
            0 <= i < cs.len() && #[trigger] cs[i].title == images[k].title by {
            assert(has_certificate(p, images[k].title));
            let c = choose|c: int| 0 <= c < input.len() && #[trigger] input[c].title@ == images[k].title;
            assert(input.contains(input[c]));
            let i = choose|i: int| 0 <= i < out.len() && out[i] == input[c];
            assert(cs[i].title == images[k].title);
        }
    }
    r
}

spec fn same_groups_sorted(g0: Seq<Group>, sg: Seq<Group>) -> bool {
    &&& sg.len() == g0.len()
    &&& forall|g: int|
        0 <= g < sg.len() ==> (#[trigger] sg[g]).platform@ == g0[g].platform@ && sg[g].title@
            == g0[g].title@ && is_stable_page_order_of(
            page_models(sg[g].pages@),
            page_models(g0[g].pages@),
        )
}

proof fn lemma_sorted_groups_keys(g0: Seq<Group>, sg: Seq<Group>, images: Seq<ImageModel>)
    requires
        groups_collect(g0, images),
        same_groups_sorted(g0, sg),
    ensures
        keys_distinct(sg),
        forall|k: int|
            0 <= k < images.len() ==> group_listed(sg, (#[trigger] images[k]).platform, images[k].title),
{
    reveal(groups_collect);
    assert forall|a: int, b: int| 0 <= a < b < sg.len() implies !(#[trigger] sg[a].platform@
        == #[trigger] sg[b].platform@ && sg[a].title@ == sg[b].title@) by {
        assert(g0[a].platform@ == sg[a].platform@ && g0[b].platform@ == sg[b].platform@);
    }
    assert forall|k: int| 0 <= k < images.len() implies group_listed(
        sg,
        (#[trigger] images[k]).platform,
        images[k].title,
    ) by {
        let g = choose|g: int|
            0 <= g < g0.len() && #[trigger] g0[g].platform@ == #[trigger] images[k].platform
                && g0[g].title@ == images[k].title;
        assert(sg[g].platform@ == g0[g].platform@);
        assert(sg[g].title@ == g0[g].title@);
        assert(0 <= g < sg.len() && sg[g].platform@ == images[k].platform && sg[g].title@
            == images[k].title);
    }
}

proof fn lemma_sorted_groups_ok_each(g0: Seq<Group>, sg: Seq<Group>, images: Seq<ImageModel>)
    requires
        groups_collect(g0, images),
        same_groups_sorted(g0, sg),
    ensures
        forall|g: int|
            0 <= g < sg.len() ==> certificate_ok(
                images,
                (#[trigger] sg[g]).platform@,
                CertificateModel { title: sg[g].title@, pages: page_models(sg[g].pages@) },
            ),
        forall|g: int| 0 <= g < sg.len() ==> has_image(images, (#[trigger] sg[g]).platform@, sg[g].title@),
{
    reveal(groups_collect);
    assert forall|g: int| 0 <= g < sg.len() implies certificate_ok(
        images,
        (#[trigger] sg[g]).platform@,
        CertificateModel { title: sg[g].title@, pages: page_models(sg[g].pages@) },
    ) by {
        assert(page_models(g0[g].pages@) == group_pages(images, g0[g].platform@, g0[g].title@));
        assert(has_image(images, g0[g].platform@, g0[g].title@));
    }
}

proof fn lemma_sorted_groups(
    g0: Seq<Group>,
    sg: Seq<Group>,
    images: Seq<ImageModel>,
    names: Seq<String>,
    dirs: Seq<Seq<char>>,
)
    requires
        groups_collect(g0, images),
        same_groups_sorted(g0, sg),
        forall|n: Seq<char>| is_platform_name(dirs, images, n) ==> name_listed(names, n),
    ensures
        sorted_groups_ok(sg, images),
        forall|g: int| 0 <= g < sg.len() ==> name_listed(names, (#[trigger] sg[g]).platform@),
{
    lemma_sorted_groups_keys(g0, sg, images);
    lemma_sorted_groups_ok_each(g0, sg, images);
    reveal(sorted_groups_ok);
    assert forall|g: int| 0 <= g < sg.len() implies name_listed(names, (#[trigger] sg[g]).platform@) by {
        assert(has_image(images, sg[g].platform@, sg[g].title@));
        let k = choose|k: int| 0 <= k < images.len() && #[trigger] images[k].platform == sg[g].platform@
            && images[k].title == sg[g].title@;
        assert(is_platform_name(dirs, images, images[k].platform));
    }
}

/// Sorts the certificates of every assembled platform.
fn sort_all_certificates(
    pl: Vec<Platform>,
    Ghost(names): Ghost<Seq<String>>,
    Ghost(sg): Ghost<Seq<Group>>,
    Ghost(images): Ghost<Seq<ImageModel>>,
) -> (r: Vec<Platform>)
    requires
        assembly_inv(pl@, names, sg, sg.len() as int, images),
        forall|a: int, b: int| 0 <= a < b < names.len() ==> #[trigger] names[a]@ != #[trigger] names[b]@,
    ensures
        r@.len() == names.len(),
        forall|q: int|
            0 <= q < r@.len() ==> (#[trigger] r@[q]).name@ == names[q]@ && platform_ok(images, r@[q]@),
{
    reveal(assembly_inv);
    let ghost pl0 = pl@;
    let mut rest = pl;
    let mut out: Vec<Platform> = Vec::new();
    let ghost mut done: int = 0;
    assert(rest@ =~= pl0.skip(0));
    while rest.len() > 0
        invariant
            0 <= done <= pl0.len(),
            rest@ == pl0.skip(done),
            assembly_inv(pl0, names, sg, sg.len() as int, images),
            forall|a: int, b: int| 0 <= a < b < names.len() ==> #[trigger] names[a]@ != #[trigger] names[b]@,
            out@.len() == done,
            forall|q: int|
                0 <= q < done ==> (#[trigger] out@[q]).name@ == names[q]@ && platform_ok(images, out@[q]@),
        decreases rest@.len(),
    {
        assert(pl0.skip(done)[0] == pl0[done]);
        let p = rest.remove(0);
        assert(p == pl0[done]);
        proof {
            reveal(assembly_inv);
            assert forall|c: int| 0 <= c < p.certificates@.len() implies certificate_ok(
                images,
                p.name@,
                (#[trigger] p.certificates@[c])@,
            ) by {
                assert(inv_certificates_ok(pl0, images));
            }
            assert forall|a: int, b: int| 0 <= a < b < p.certificates@.len() implies (#[trigger] p.certificates@[a]).title@
                != (#[trigger] p.certificates@[b]).title@ by {
                assert(inv_titles_distinct(pl0));
            }
            assert forall|k: int| 0 <= k < images.len() && #[trigger] images[k].platform == p.name@ implies has_certificate(
                p,
                images[k].title,
            ) by {
                assert(inv_covered(pl0, sg, sg.len() as int, images));
                assert(placed(pl0, images[k].platform, images[k].title));
                let q2 = choose|q2: int| 0 <= q2 < pl0.len() && #[trigger] pl0[q2].name@ == images[k].platform
                    && has_certificate(pl0[q2], images[k].title);
                assert(pl0[q2].name@ == names[q2]@);
                assert(pl0[done].name@ == names[done]@);
                if q2 != done {
                    if q2 < done {
                        assert(names[q2]@ != names[done]@);
                    } else {
                        assert(names[done]@ != names[q2]@);
                    }
                }
            }
        }
        let sp = sort_platform_certificates(p, Ghost(images));
        out.push(sp);
        proof {
            assert(pl0[done].name@ == names[done]@);
            assert(rest@ =~= pl0.skip(done + 1));
            done = done + 1;
        }
    }
    out
}

proof fn lemma_sorted_platforms(
    out: Seq<Platform>,
    input: Seq<Platform>,
    names: Seq<String>,
    dirs: Seq<Seq<char>>,
    images: Seq<ImageModel>,
)
    requires
        is_stable_sort_of(out, input),
        input.len() == names.len(),
        forall|q: int|
            0 <= q < input.len() ==> (#[trigger] input[q]).name@ == names[q]@ && platform_ok(images, input[q]@),
        forall|a: int, b: int| 0 <= a < b < names.len() ==> #[trigger] names[a]@ != #[trigger] names[b]@,
        forall|i: int| 0 <= i < names.len() ==> is_platform_name(dirs, images, #[trigger] names[i]@),
        forall|n: Seq<char>| is_platform_name(dirs, images, n) ==> name_listed(names, n),
    ensures
        grouped_platforms(dirs, images, platform_models(out)),
{
    assert forall|a: int, b: int| 0 <= a < b < input.len() implies <Platform as Ranked>::rank_order(
        #[trigger] input[a],
        #[trigger] input[b],
    ) != 0 by {
        lemma_name_order_laws(input[a].name@, input[b].name@, input[b].name@);
    }
    crate::sort::lemma_stable_sort_distinct(out, input);
    let m = platform_models(out);
    assert forall|i: int, j: int| 0 <= i < j < m.len() implies name_order(
        #[trigger] m[i].name,
        #[trigger] m[j].name,
    ) < 0 by {
        assert(<Platform as Ranked>::rank_order(out[i], out[j]) < 0);
    }
    assert forall|i: int| 0 <= i < m.len() implies is_platform_name(dirs, images, #[trigger] m[i].name)
        && platform_ok(images, m[i]) by {
        assert(out.contains(out[i]));
        let q = choose|q: int| 0 <= q < input.len() && input[q] == out[i];
        assert(input[q].name@ == names[q]@);
    }
    assert forall|n: Seq<char>| is_platform_name(dirs, images, n) implies exists|i: int|
        0 <= i < m.len() && #[trigger] m[i].name == n by {
        assert(name_listed(names, n));
        let q = choose|q: int| 0 <= q < names.len() && #[trigger] names[q]@ == n;
        assert(input[q].name@ == n);
        assert(input.contains(input[q]));
        let i = choose|i: int| 0 <= i < out.len() && out[i] == input[q];
        assert(m[i].name == n);
    }
}

/// Groups the images into platforms and certificates and sorts everything
/// for display: every directory name (trimmed) and every image platform
/// becomes one platform, in name order; each certificate title under a
/// platform becomes one certificate, in name order; each certificate's
/// pages are sorted stably by the page order.
pub fn group_certificates(platform_dirs: &Vec<String>, items: Vec<ImageItem>) -> (r: Vec<Platform>)
    ensures
        grouped_platforms(texts(platform_dirs@), image_models(items@), platform_models(r@)),
{
    let ghost images = image_models(items@);
    let ghost dirs = texts(platform_dirs@);
    let names = platform_names(platform_dirs, &items);
    let groups = collect_groups(items);
    let ghost g0 = groups@;
    let sorted = sort_group_pages(groups);
    proof {
        lemma_sorted_groups(g0, sorted@, images, names@, dirs);
    }
    let ghost sg = sorted@;
    let pl = assemble(&names, sorted, Ghost(images));
    let all = sort_all_certificates(pl, Ghost(names@), Ghost(sg), Ghost(images));
    let ghost input = all@;
    let r = stable_sort(all);
    proof {
        lemma_sorted_platforms(r@, input, names@, dirs, images);
    }
    r
}

/// Scans the walked entries of the certificates directory `root` and the
/// names of the directories directly under it: the images among the
/// entries become the pages of certificates, grouped by platform (see
/// `group_certificates`). The first entry that fails makes the scan fail.
pub fn scan_certificates(root: &Vec<String>, platform_dirs: &Vec<String>, entries: &Vec<WalkEntry>) -> (r: Result<Vec<Platform>, ScanError>)
    ensures
        match collected_images(texts(root@), entry_models(entries@)) {
            Ok(images) => r matches Ok(platforms) && grouped_platforms(
                texts(platform_dirs@),
                images,
                platform_models(platforms@),
            ),
            Err(e) => r matches Err(err) && err@ == e,
        },
{
    let items = collect_images(root, entries)?;
    Ok(group_certificates(platform_dirs, items))
}

} // verus!
