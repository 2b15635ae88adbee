//! Pages: construction, per-section sorting, and previous/next linking.

use crate::config::{permalink_of, Config};
use crate::meta::{clone_string_vec, PageMeta, PageMetaV, SortBy};
use crate::paths::{
    clone_comps, clone_opt_string, join_comps, md_suffix, page_logical_path, page_rel_path,
};
use vstd::prelude::*;
use vstd::string::StringExecFns;

verus! {

broadcast use vstd::seq_lib::group_to_multiset_ensures;

/// A page, seen from specifications.
pub ghost struct PageV {
    pub parent_path: Seq<Seq<char>>,
    pub stem: Seq<char>,
    pub relative_path: Seq<char>,
    pub permalink: Seq<char>,
    pub assets: Seq<Seq<char>>,
    pub meta: PageMetaV,
    pub previous: Option<Seq<char>>,
    pub next: Option<Seq<char>>,
}

/// A content file that is not a section index file.
pub struct Page {
    /// The components of the containing directory, content root first.
    pub parent_path: Vec<String>,
    /// The file name without its `.md` extension.
    pub stem: String,
    /// The source path relative to the content root; the page's identity.
    pub relative_path: String,
    /// The canonical output URL.
    pub permalink: String,
    /// Co-located asset file names, in discovery order.
    pub assets: Vec<String>,
    pub meta: PageMeta,
    /// The identity of the predecessor in the owning section's sort order.
    pub previous: Option<String>,
    /// The identity of the successor in the owning section's sort order.
    pub next: Option<String>,
}

impl View for Page {
    type V = PageV;

    open spec fn view(&self) -> PageV {
        PageV {
            parent_path: self.parent_path.deep_view(),
            stem: self.stem@,
            relative_path: self.relative_path@,
            permalink: self.permalink@,
            assets: self.assets.deep_view(),
            meta: self.meta@,
            previous: self.previous.deep_view(),
            next: self.next.deep_view(),
        }
    }
}

impl DeepView for Page {
    type V = PageV;

    open spec fn deep_view(&self) -> PageV {
        self.view()
    }
}

impl Page {
    /// Builds a page record: the relative path and the permalink are derived
    /// from the directory components and the stem, and the previous/next links
    /// start empty.
    pub fn new(
        parent_path: Vec<String>,
        stem: String,
        meta: PageMeta,
        assets: Vec<String>,
        config: &Config,
    ) -> (p: Page)
        requires
            parent_path@.len() >= 1,
        ensures
            p@ == (PageV {
                parent_path: parent_path.deep_view(),
                stem: stem@,
                relative_path: page_rel_path(parent_path.deep_view(), stem@),
                permalink: permalink_of(
                    config.base_url@,
                    page_logical_path(parent_path.deep_view(), stem@),
                ),
                assets: assets.deep_view(),
                meta: meta@,
                previous: Option::None,
                next: Option::None,
            }),
    {
        let ghost dir = parent_path.deep_view();
        let mut name = stem.clone();
        name.append(".md");
        proof {
            reveal_strlit(".md");
            assert((".md")@ =~= md_suffix());
        }
        let mut comps = clone_comps(&parent_path);
        comps.push(name);
        let relative_path = join_comps(&comps, 1);
        proof {
            assert(comps.deep_view() =~= dir.push(stem@ + md_suffix()));
            assert(comps.deep_view().subrange(1, comps.deep_view().len() as int) =~= dir.subrange(
                1,
                dir.len() as int,
            ).push(stem@ + md_suffix()));
        }
        let mut lcomps = clone_comps(&parent_path);
        lcomps.push(stem.clone());
        let logical = join_comps(&lcomps, 1);
        proof {
            assert(lcomps.deep_view() =~= dir.push(stem@));
            assert(lcomps.deep_view().subrange(1, lcomps.deep_view().len() as int) =~= dir.subrange(
                1,
                dir.len() as int,
            ).push(stem@));
        }
        let permalink = config.make_permalink(logical.as_str());
        Page {
            parent_path,
            stem,
            relative_path,
            permalink,
            assets,
            meta,
            previous: Option::None,
            next: Option::None,
        }
    }

    /// A copy of the page record.
    pub fn duplicate(&self) -> (r: Page)
        ensures
            r@ == self@,
    {
        Page {
            parent_path: clone_comps(&self.parent_path),
            stem: self.stem.clone(),
            relative_path: self.relative_path.clone(),
            permalink: self.permalink.clone(),
            assets: clone_string_vec(&self.assets),
            meta: self.meta.duplicate(),
            previous: clone_opt_string(&self.previous),
            next: clone_opt_string(&self.next),
        }
    }
}

/// Copies a vector of pages.
pub fn clone_page_vec(v: &Vec<Page>) -> (r: Vec<Page>)
    ensures
        r@.len() == v@.len(),
        r.deep_view() == v.deep_view(),
{
    let mut r: Vec<Page> = Vec::new();
    let mut i: usize = 0;
    while i < v.len()
        invariant
            0 <= i <= v@.len(),
            r@.len() == i,
            forall|j: int| 0 <= j < i ==> r.deep_view()[j] == v.deep_view()[j],
        decreases v@.len() - i,
    {
        r.push(v[i].duplicate());
        i = i + 1;
    }
    proof {
        assert(r.deep_view() =~= v.deep_view());
    }
    r
}

/// The key a sort mode reads from a page, when the page declares it.
pub open spec fn sort_key(p: PageV, m: SortBy) -> Option<u64> {
    match m {
        SortBy::Date => p.meta.date,
        SortBy::Order => p.meta.order,
        SortBy::Weight => p.meta.weight,
        SortBy::Unsorted => Option::None,
    }
}

/// The declared key, assuming the page declares one.
pub open spec fn key_of(p: PageV, m: SortBy) -> u64
    recommends
        sort_key(p, m) is Some,
{
    sort_key(p, m)->Some_0
}

/// Whether a page with key `x` may stand at or before one with key `y`:
/// dates and weights descending, orders ascending.
pub open spec fn key_le(m: SortBy, x: u64, y: u64) -> bool {
    match m {
        SortBy::Date => x >= y,
        SortBy::Order => x <= y,
        SortBy::Weight => x >= y,
        SortBy::Unsorted => true,
    }
}

/// Whether every page of `s` declares the key of mode `m`.
pub open spec fn all_keyed(s: Seq<PageV>, m: SortBy) -> bool {
    forall|i: int| 0 <= i < s.len() ==> (#[trigger] sort_key(s[i], m)) is Some
}

/// Whether `s` is monotonic in the key of mode `m`.
pub open spec fn sorted_by(s: Seq<PageV>, m: SortBy) -> bool {
    forall|i: int, j: int|
        0 <= i < j < s.len() ==> key_le(m, #[trigger] key_of(s[i], m), #[trigger] key_of(s[j], m))
}

/// The subsequence of `s` lacking the key of mode `m`, in input order.
pub open spec fn keyless(s: Seq<PageV>, m: SortBy) -> Seq<PageV>
    decreases s.len(),
{
    if s.len() == 0 {
        Seq::empty()
    } else {
        let rest = keyless(s.drop_last(), m);
        if sort_key(s.last(), m) is None {
            rest.push(s.last())
        } else {
            rest
        }
    }
}

/// The subsequence of `s` declaring the key of mode `m`, in input order.
pub open spec fn keyed(s: Seq<PageV>, m: SortBy) -> Seq<PageV>
    decreases s.len(),
{
    if s.len() == 0 {
        Seq::empty()
    } else {
        let rest = keyed(s.drop_last(), m);
        if sort_key(s.last(), m) is Some {
            rest.push(s.last())
        } else {
            rest
        }
    }
}

/// Reads the sort key of a page.
pub fn page_sort_key(p: &Page, m: SortBy) -> (r: Option<u64>)
    ensures
        r == sort_key(p@, m),
{
    match m {
        SortBy::Date => p.meta.date,
        SortBy::Order => p.meta.order,
        SortBy::Weight => p.meta.weight,
        SortBy::Unsorted => Option::None,
    }
}

/// Compares two keys under a sort mode.
fn key_le_exec(m: SortBy, x: u64, y: u64) -> (r: bool)
    ensures
        r == key_le(m, x, y),
{
    match m {
        SortBy::Date => x >= y,
        SortBy::Order => x <= y,
        SortBy::Weight => x >= y,
        SortBy::Unsorted => true,
    }
}

/// Inserting an element anywhere adds it to the sequence's multiset.
proof fn lemma_insert_to_multiset<A>(s: Seq<A>, i: int, x: A)
    requires
        0 <= i <= s.len(),
    ensures
        s.insert(i, x).to_multiset() == s.to_multiset().insert(x),
    decreases s.len() - i,
{
    if i == s.len() {
        assert(s.insert(i, x) =~= s.push(x));
    } else {
        lemma_insert_to_multiset(s.drop_last(), i, x);
        assert(s.insert(i, x) =~= s.drop_last().insert(i, x).push(s.last()));
        assert(s =~= s.drop_last().push(s.last()));
        assert(s.drop_last().insert(i, x).push(s.last()).to_multiset() =~= s.drop_last().insert(
            i,
            x,
        ).to_multiset().insert(s.last()));
        assert(s.to_multiset().insert(x) =~= s.drop_last().to_multiset().insert(s.last()).insert(
            x,
        ));
        assert(s.drop_last().to_multiset().insert(x).insert(s.last()) =~= s.drop_last(
        ).to_multiset().insert(s.last()).insert(x));
    }
}

/// Finds the first position whose key must come after `key`.
fn find_insert_pos(v: &Vec<Page>, key: u64, m: SortBy) -> (idx: usize)
    requires
        all_keyed(v.deep_view(), m),
    ensures
        idx <= v@.len(),
        forall|j: int| 0 <= j < idx ==> key_le(m, #[trigger] key_of(v.deep_view()[j], m), key),
        idx < v@.len() ==> !key_le(m, key_of(v.deep_view()[idx as int], m), key),
{
    let mut j: usize = 0;
    while j < v.len()
        invariant
            0 <= j <= v@.len(),
            all_keyed(v.deep_view(), m),
            forall|k: int| 0 <= k < j ==> key_le(m, #[trigger] key_of(v.deep_view()[k], m), key),
        decreases v@.len() - j,
    {
        proof {
            assert(sort_key(v.deep_view()[j as int], m) is Some);
            assert(v.deep_view()[j as int] == v@[j as int]@);
        }
        let kj = match page_sort_key(&v[j], m) {
            Option::Some(k) => k,
            Option::None => {
                proof {
                    assert(false);
                }
                0
            },
        };
        if !key_le_exec(m, kj, key) {
            return j;
        }
        j = j + 1;
    }
    j
}

/// Inserts a keyed page into an already sorted vector, keeping it sorted.
fn insert_sorted(v: &mut Vec<Page>, p: Page, m: SortBy)
    requires
        sort_key(p@, m) is Some,
        all_keyed(old(v).deep_view(), m),
        sorted_by(old(v).deep_view(), m),
    ensures
        final(v)@.len() == old(v)@.len() + 1,
        all_keyed(final(v).deep_view(), m),
        sorted_by(final(v).deep_view(), m),
        final(v).deep_view().to_multiset() == old(v).deep_view().to_multiset().insert(p@),
{
    let ghost olds = v.deep_view();
    let key = match page_sort_key(&p, m) {
        Option::Some(k) => k,
        Option::None => {
            proof {
                assert(false);
            }
            0
        },
    };
    let idx = find_insert_pos(v, key, m);
    v.insert(idx, p);
    proof {
        assert(v.deep_view() =~= olds.insert(idx as int, p@));
        olds.insert_ensures(idx as int, p@);
        lemma_insert_to_multiset(olds, idx as int, p@);
        let news = olds.insert(idx as int, p@);
        assert forall|i: int, j: int|
            0 <= i < j < news.len() implies key_le(
            m,
            #[trigger] key_of(news[i], m),
            #[trigger] key_of(news[j], m),
        ) by {
            if i < idx && j < idx {
                assert(news[i] == olds[i] && news[j] == olds[j]);
            } else if i < idx && j == idx {
                assert(news[i] == olds[i] && news[j] == p@);
            } else if i < idx && j > idx {
                assert(news[i] == olds[i] && news[j] == olds[j - 1]);
            } else if i == idx && j > idx {
                assert(news[i] == p@ && news[j] == olds[j - 1]);
                assert(!key_le(m, key_of(olds[idx as int], m), key));
                if idx as int <= j - 2 {
                    assert(key_le(m, key_of(olds[idx as int], m), key_of(olds[j - 1], m)));
                }
            } else {
                assert(i > idx && j > idx);
                assert(news[i] == olds[i - 1] && news[j] == olds[j - 1]);
            }
        }
        assert forall|i: int| 0 <= i < news.len() implies (#[trigger] sort_key(
            news[i],
            m,
        )) is Some by {
            if i < idx {
                assert(news[i] == olds[i]);
            } else if i == idx {
                assert(news[i] == p@);
            } else {
                assert(news[i] == olds[i - 1]);
            }
        }
    }
}

/// Splits `pages` into the ordered child list and the ignored pages of a
/// section with sort mode `sort_by`.
///
/// Under `Unsorted` the ordered list is exactly the input, in discovery
/// order, and nothing is ignored. Under the keyed modes the ordered list is
/// monotonic in the declared key and holds exactly the input pages that
/// declare it, and the ignored list is exactly the input pages that lack it,
/// still in input order.
pub fn sort_pages(pages: Vec<Page>, sort_by: SortBy) -> (r: (Vec<Page>, Vec<Page>))
    ensures
        sort_by == SortBy::Unsorted ==> r.0.deep_view() == pages.deep_view() && r.1@.len() == 0,
        sort_by != SortBy::Unsorted ==> {
            &&& all_keyed(r.0.deep_view(), sort_by)
            &&& sorted_by(r.0.deep_view(), sort_by)
            &&& r.0.deep_view().to_multiset() == keyed(pages.deep_view(), sort_by).to_multiset()
            &&& r.1.deep_view() == keyless(pages.deep_view(), sort_by)
        },
{
    if let SortBy::Unsorted = sort_by {
        return (pages, Vec::new());
    }
    let ghost all = pages.deep_view();
    let mut ordered: Vec<Page> = Vec::new();
    let mut ignored: Vec<Page> = Vec::new();
    let mut i: usize = 0;
    proof {
        assert(all.subrange(0, 0) =~= Seq::<PageV>::empty());
    }
    while i < pages.len()
        invariant
            0 <= i <= pages@.len(),
            sort_by != SortBy::Unsorted,
            all == pages.deep_view(),
            all.len() == pages@.len(),
            all_keyed(ordered.deep_view(), sort_by),
            sorted_by(ordered.deep_view(), sort_by),
            ordered.deep_view().to_multiset() == keyed(all.subrange(0, i as int), sort_by)
                .to_multiset(),
            ignored.deep_view() == keyless(all.subrange(0, i as int), sort_by),
        decreases pages@.len() - i,
    {
        let p = pages[i].duplicate();
        proof {
            assert(p@ == all[i as int]);
            assert(all.subrange(0, i + 1).drop_last() =~= all.subrange(0, i as int));
            assert(all.subrange(0, i + 1).last() == all[i as int]);
        }
        match page_sort_key(&p, sort_by) {
            Option::Some(_) => {
                insert_sorted(&mut ordered, p, sort_by);
            },
            Option::None => {
                ignored.push(p);
                proof {
                    assert(ignored.deep_view() =~= keyless(
                        all.subrange(0, i + 1),
                        sort_by,
                    ));
                }
            },
        }
        i = i + 1;
    }
    proof {
        assert(all.subrange(0, i as int) =~= all);
    }
    (ordered, ignored)
}

/// Whether two pages agree on everything but the previous/next links.
pub open spec fn same_but_links(a: PageV, b: PageV) -> bool {
    &&& a.parent_path == b.parent_path
    &&& a.stem == b.stem
    &&& a.relative_path == b.relative_path
    &&& a.permalink == b.permalink
    &&& a.assets == b.assets
    &&& a.meta == b.meta
}

/// Whether the previous/next links of `s` form the doubly-linked chain of its
/// own order: the first page has no previous, the last has no next, and each
/// page points at its immediate neighbours by identity.
pub open spec fn linked_chain(s: Seq<PageV>) -> bool {
    forall|i: int|
        0 <= i < s.len() ==> {
            &&& (#[trigger] s[i]).previous == (if i == 0 {
                Option::<Seq<char>>::None
            } else {
                Option::Some(s[i - 1].relative_path)
            })
            &&& s[i].next == (if i == s.len() - 1 {
                Option::<Seq<char>>::None
            } else {
                Option::Some(s[i + 1].relative_path)
            })
        }
}

/// Gives each page of an ordered list its previous/next links: a copy of the
/// list where everything but the links is unchanged and the links form the
/// doubly-linked chain of the list's order.
pub fn populate_previous_and_next_pages(input: &Vec<Page>) -> (r: Vec<Page>)
    ensures
        r@.len() == input@.len(),
        forall|i: int|
            0 <= i < r.deep_view().len() ==> same_but_links(
                #[trigger] r.deep_view()[i],
                input.deep_view()[i],
            ),
        linked_chain(r.deep_view()),
{
    let mut r: Vec<Page> = Vec::new();
    let mut i: usize = 0;
    while i < input.len()
        invariant
            0 <= i <= input@.len(),
            r@.len() == i,
            input.deep_view().len() == input@.len(),
            forall|j: int|
                0 <= j < i ==> same_but_links(#[trigger] r.deep_view()[j], input.deep_view()[j]),
            forall|j: int|
                0 <= j < i ==> (#[trigger] r.deep_view()[j]).previous == (if j == 0 {
                    Option::<Seq<char>>::None
                } else {
                    Option::Some(input.deep_view()[j - 1].relative_path)
                }),
            forall|j: int|
                0 <= j < i ==> (#[trigger] r.deep_view()[j]).next == (if j == input@.len() - 1 {
                    Option::<Seq<char>>::None
                } else {
                    Option::Some(input.deep_view()[j + 1].relative_path)
                }),
        decreases input@.len() - i,
    {
        let mut p = input[i].duplicate();
        if i == 0 {
            p.previous = Option::None;
        } else {
            p.previous = Option::Some(input[i - 1].relative_path.clone());
        }
        if i + 1 < input.len() {
            p.next = Option::Some(input[i + 1].relative_path.clone());
        } else {
            p.next = Option::None;
        }
        proof {
            assert(input.deep_view()[i as int] == input@[i as int]@);
            if i > 0 {
                assert(input.deep_view()[i as int - 1] == input@[i as int - 1]@);
            }
            if i + 1 < input@.len() {
                assert(input.deep_view()[i as int + 1] == input@[i as int + 1]@);
            }
        }
        let ghost rprev = r.deep_view();
        r.push(p);
        proof {
            assert(r.deep_view() =~= rprev.push(p@));
            assert(r.deep_view()[i as int] == p@);
            assert(forall|j: int| 0 <= j < i ==> r.deep_view()[j] == rprev[j]);
        }
        i = i + 1;
    }
    r
}

} // verus!
