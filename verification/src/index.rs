//! The tag and category indexes, and the list items of tag/category pages.
//!
//! Both indexes map a name to the identities of the pages that declare it.
//! They are derived entirely from page metadata and always rebuilt from the
//! current page collection, never edited in place.

use crate::meta::contains_str;
use crate::page::{Page, PageV};
use vstd::prelude::*;
use vstd::utf8::encode_utf8;

verus! {

broadcast use vstd::seq::group_seq_axioms;

/// The name/bucket views of the entries.
pub open spec fn bucket_views(s: Seq<(String, Vec<String>)>) -> Seq<(Seq<char>, Seq<Seq<char>>)> {
    Seq::new(s.len(), |i: int| (s[i].0@, s[i].1.deep_view()))
}

/// Appends `v` to the bucket of `k`, creating the bucket at the end when the
/// name is new.
pub open spec fn bucket_add(
    m: Seq<(Seq<char>, Seq<Seq<char>>)>,
    k: Seq<char>,
    v: Seq<char>,
) -> Seq<(Seq<char>, Seq<Seq<char>>)>
    decreases m.len(),
{
    if m.len() == 0 {
        seq![(k, seq![v])]
    } else if m[0].0 == k {
        seq![(m[0].0, m[0].1.push(v))] + m.skip(1)
    } else {
        seq![m[0]] + bucket_add(m.skip(1), k, v)
    }
}

/// Appends `p` to the buckets of every tag of `tags`, in order.
pub open spec fn add_tags(
    m: Seq<(Seq<char>, Seq<Seq<char>>)>,
    tags: Seq<Seq<char>>,
    p: Seq<char>,
) -> Seq<(Seq<char>, Seq<Seq<char>>)>
    decreases tags.len(),
{
    if tags.len() == 0 {
        m
    } else {
        bucket_add(add_tags(m, tags.drop_last(), p), tags.last(), p)
    }
}

/// The tag index of a page collection: one pass in collection order, each
/// page's identity appended to the bucket of each of its tags.
pub open spec fn tags_of(pages: Seq<PageV>) -> Seq<(Seq<char>, Seq<Seq<char>>)>
    decreases pages.len(),
{
    if pages.len() == 0 {
        Seq::empty()
    } else {
        let m = tags_of(pages.drop_last());
        match pages.last().meta.tags {
            Option::Some(ts) => add_tags(m, ts, pages.last().relative_path),
            Option::None => m,
        }
    }
}

/// The category index of a page collection.
pub open spec fn cats_of(pages: Seq<PageV>) -> Seq<(Seq<char>, Seq<Seq<char>>)>
    decreases pages.len(),
{
    if pages.len() == 0 {
        Seq::empty()
    } else {
        let m = cats_of(pages.drop_last());
        match pages.last().meta.category {
            Option::Some(c) => bucket_add(m, c, pages.last().relative_path),
            Option::None => m,
        }
    }
}

/// Law: the indexes are pure functions of the page collection, so rebuilding
/// them twice from the same page set yields identical mappings.
pub proof fn lemma_index_rebuild_deterministic(p1: Seq<PageV>, p2: Seq<PageV>)
    requires
        p1 == p2,
    ensures
        tags_of(p1) == tags_of(p2),
        cats_of(p1) == cats_of(p2),
{
}

/// A name-to-page-identities mapping, in order of first appearance.
pub struct Buckets {
    pub entries: Vec<(String, Vec<String>)>,
}

/// Adding to a bucket rewrites the first entry holding the name.
proof fn lemma_bucket_add_found(
    m: Seq<(Seq<char>, Seq<Seq<char>>)>,
    i: int,
    k: Seq<char>,
    v: Seq<char>,
)
    requires
        0 <= i < m.len(),
        m[i].0 == k,
        forall|j: int| 0 <= j < i ==> (#[trigger] m[j]).0 != k,
    ensures
        bucket_add(m, k, v) == m.update(i, (m[i].0, m[i].1.push(v))),
    decreases i,
{
    if i == 0 {
        assert(bucket_add(m, k, v) =~= m.update(0, (m[0].0, m[0].1.push(v))));
    } else {
        assert(m[0].0 != k);
        assert(m.skip(1)[i - 1] == m[i]);
        assert(forall|j: int| 0 <= j < i - 1 ==> (#[trigger] m.skip(1)[j]).0 != k);
        lemma_bucket_add_found(m.skip(1), i - 1, k, v);
        assert(bucket_add(m, k, v) =~= m.update(i, (m[i].0, m[i].1.push(v))));
    }
}

/// Adding under a new name appends a singleton bucket.
proof fn lemma_bucket_add_absent(m: Seq<(Seq<char>, Seq<Seq<char>>)>, k: Seq<char>, v: Seq<char>)
    requires
        forall|j: int| 0 <= j < m.len() ==> (#[trigger] m[j]).0 != k,
    ensures
        bucket_add(m, k, v) == m.push((k, seq![v])),
    decreases m.len(),
{
    if m.len() == 0 {
        assert(bucket_add(m, k, v) =~= m.push((k, seq![v])));
    } else {
        assert(m[0].0 != k);
        assert(forall|j: int| 0 <= j < m.skip(1).len() ==> (#[trigger] m.skip(1)[j]).0 != k);
        lemma_bucket_add_absent(m.skip(1), k, v);
        assert(bucket_add(m, k, v) =~= m.push((k, seq![v])));
    }
}

impl Buckets {
    /// An empty index.
    pub fn new() -> (r: Buckets)
        ensures
            bucket_views(r.entries@) == Seq::<(Seq<char>, Seq<Seq<char>>)>::empty(),
            r.entries@.len() == 0,
    {
        let r = Buckets { entries: Vec::new() };
        proof {
            assert(bucket_views(r.entries@) =~= Seq::<(Seq<char>, Seq<Seq<char>>)>::empty());
        }
        r
    }

    /// Appends `value` to the bucket of `key`.
    pub fn add(&mut self, key: &String, value: &String)
        ensures
            bucket_views(final(self).entries@) == bucket_add(
                bucket_views(old(self).entries@),
                key@,
                value@,
            ),
    {
        let ghost olds = bucket_views(self.entries@);
        let ghost oldv = self.entries@;
        let mut i: usize = 0;
        while i < self.entries.len()
            invariant
                0 <= i <= self.entries@.len(),
                oldv == old(self).entries@,
                oldv == self.entries@,
                olds == bucket_views(self.entries@),
                forall|j: int| 0 <= j < i ==> (#[trigger] olds[j]).0 != key@,
            decreases self.entries@.len() - i,
        {
            proof {
                assert(olds[i as int] == (
                    self.entries@[i as int].0@,
                    self.entries@[i as int].1.deep_view(),
                ));
            }
            if self.entries[i].0 == *key {
                proof {
                    assert(olds[i as int].0 == key@);
                }
                let pair = self.entries.remove(i);
                let (k0, mut lst) = pair;
                let ghost oldlst = lst.deep_view();
                lst.push(value.clone());
                self.entries.insert(i, (k0, lst));
                proof {
                    let news = bucket_views(self.entries@);
                    let target = olds.update(
                        i as int,
                        (olds[i as int].0, olds[i as int].1.push(value@)),
                    );
                    assert(self.entries@ =~= oldv.update(i as int, (k0, lst)));
                    assert(oldlst == oldv[i as int].1.deep_view());
                    assert(lst.deep_view() =~= oldlst.push(value@));
                    assert forall|j: int| 0 <= j < news.len() implies news[j] == target[j] by {
                        assert(news[j] == (self.entries@[j].0@, self.entries@[j].1.deep_view()));
                        assert(olds[j] == (oldv[j].0@, oldv[j].1.deep_view()));
                        if j == i as int {
                            assert(news[j] == (k0@, lst.deep_view()));
                        } else {
                            assert(self.entries@[j] == oldv[j]);
                        }
                    }
                    assert(news =~= target);
                    lemma_bucket_add_found(olds, i as int, key@, value@);
                    assert(bucket_views(self.entries@) == bucket_add(olds, key@, value@));
                    assert(olds == bucket_views(oldv));
                }
                return ;
            }
            i = i + 1;
        }
        let mut lst: Vec<String> = Vec::new();
        lst.push(value.clone());
        self.entries.push((key.clone(), lst));
        proof {
            assert(lst.deep_view() =~= seq![value@]);
            assert(bucket_views(self.entries@) =~= olds.push((key@, seq![value@])));
            lemma_bucket_add_absent(olds, key@, value@);
        }
    }

    /// The number of names in the index.
    pub fn len(&self) -> (r: usize)
        ensures
            r == self.entries@.len(),
    {
        self.entries.len()
    }
}

/// Builds the tag index of a page collection.
pub fn build_tag_index(pages: &Vec<Page>) -> (r: Buckets)
    ensures
        bucket_views(r.entries@) == tags_of(pages.deep_view()),
{
    let ghost all = pages.deep_view();
    let mut b = Buckets::new();
    let mut i: usize = 0;
    proof {
        assert(all.subrange(0, 0) =~= Seq::<PageV>::empty());
    }
    while i < pages.len()
        invariant
            0 <= i <= pages@.len(),
            all == pages.deep_view(),
            all.len() == pages@.len(),
            bucket_views(b.entries@) == tags_of(all.subrange(0, i as int)),
        decreases pages@.len() - i,
    {
        proof {
            assert(all.subrange(0, i + 1).drop_last() =~= all.subrange(0, i as int));
            assert(all.subrange(0, i + 1).last() == all[i as int]);
            assert(all[i as int] == pages@[i as int]@);
        }
        match &pages[i].meta.tags {
            Option::Some(ts) => {
                let ghost tviews = ts.deep_view();
                let mut j: usize = 0;
                proof {
                    assert(tviews.subrange(0, 0) =~= Seq::<Seq<char>>::empty());
                }
                while j < ts.len()
                    invariant
                        0 <= j <= ts@.len(),
                        tviews == ts.deep_view(),
                        tviews.len() == ts@.len(),
                        all[i as int].meta.tags == Option::Some(tviews),
                        all[i as int] == pages.deep_view()[i as int],
                        i < pages@.len(),
                        all[i as int].relative_path == pages@[i as int].relative_path@,
                        pages@[i as int]@.meta.tags == Option::Some(ts.deep_view()),
                        bucket_views(b.entries@) == add_tags(
                            tags_of(all.subrange(0, i as int)),
                            tviews.subrange(0, j as int),
                            all[i as int].relative_path,
                        ),
                    decreases ts@.len() - j,
                {
                    b.add(&ts[j], &pages[i].relative_path);
                    proof {
                        assert(tviews.subrange(0, j + 1).drop_last() =~= tviews.subrange(
                            0,
                            j as int,
                        ));
                        assert(tviews.subrange(0, j + 1).last() == tviews[j as int]);
                        assert(ts@[j as int]@ == tviews[j as int]);
                    }
                    j = j + 1;
                }
                proof {
                    assert(tviews.subrange(0, j as int) =~= tviews);
                }
            },
            Option::None => {
            },
        }
        i = i + 1;
    }
    proof {
        assert(all.subrange(0, i as int) =~= all);
    }
    b
}

/// Builds the category index of a page collection.
pub fn build_category_index(pages: &Vec<Page>) -> (r: Buckets)
    ensures
        bucket_views(r.entries@) == cats_of(pages.deep_view()),
{
    let ghost all = pages.deep_view();
    let mut b = Buckets::new();
    let mut i: usize = 0;
    proof {
        assert(all.subrange(0, 0) =~= Seq::<PageV>::empty());
    }
    while i < pages.len()
        invariant
            0 <= i <= pages@.len(),
            all == pages.deep_view(),
            all.len() == pages@.len(),
            bucket_views(b.entries@) == cats_of(all.subrange(0, i as int)),
        decreases pages@.len() - i,
    {
        proof {
            assert(all.subrange(0, i + 1).drop_last() =~= all.subrange(0, i as int));
            assert(all.subrange(0, i + 1).last() == all[i as int]);
            assert(all[i as int] == pages@[i as int]@);
        }
        match &pages[i].meta.category {
            Option::Some(c) => {
                b.add(c, &pages[i].relative_path);
            },
            Option::None => {
            },
        }
        i = i + 1;
    }
    proof {
        assert(all.subrange(0, i as int) =~= all);
    }
    b
}

/// The slug an outside slugifier derives from a name; a function of the
/// characters alone.
pub uninterp spec fn slug_of(s: Seq<char>) -> Seq<char>;

/// Relies on slug::slugify: turns any string into an ASCII slug; the result
/// depends on the input characters alone.
#[verifier::external_body]
fn slugify(name: &str) -> (r: String)
    ensures
        r@ == slug_of(name@),
{
    slug::slugify(name)
}

/// One entry of a tag or category list page.
pub struct ListItem {
    pub name: String,
    pub slug: String,
    pub count: usize,
}

impl ListItem {
    /// Builds a list entry: the slug is derived from the name.
    pub fn new(name: &str, count: usize) -> (r: ListItem)
        ensures
            r.name@ == name@,
            r.slug@ == slug_of(name@),
            r.count == count,
    {
        ListItem { name: name.to_owned(), slug: slugify(name), count }
    }
}


/// Byte-wise lexical order on UTF-8 encodings: the empty sequence first, then
/// by the first differing byte.
pub open spec fn lex_le(a: Seq<u8>, b: Seq<u8>) -> bool
    decreases a.len(),
{
    if a.len() == 0 {
        true
    } else if b.len() == 0 {
        false
    } else if a[0] < b[0] {
        true
    } else if a[0] > b[0] {
        false
    } else {
        lex_le(a.skip(1), b.skip(1))
    }
}

/// The lexical order is total.
proof fn lemma_lex_total(a: Seq<u8>, b: Seq<u8>)
    ensures
        lex_le(a, b) || lex_le(b, a),
    decreases a.len(),
{
    if a.len() > 0 && b.len() > 0 && a[0] == b[0] {
        lemma_lex_total(a.skip(1), b.skip(1));
    }
}

/// Compares two names in byte-wise lexical order of their UTF-8 encodings.
fn name_le(a: &String, b: &String) -> (r: bool)
    ensures
        r == lex_le(encode_utf8(a@), encode_utf8(b@)),
{
    let ghost av = encode_utf8(a@);
    let ghost bv = encode_utf8(b@);
    let ab = a.as_str().as_bytes();
    let bb = b.as_str().as_bytes();
    proof {
        assert(ab@ == av);
        assert(bb@ == bv);
    }
    let mut i: usize = 0;
    proof {
        assert(av.skip(0) =~= av);
        assert(bv.skip(0) =~= bv);
    }
    while i < ab.len() && i < bb.len()
        invariant
            av == encode_utf8(a@),
            bv == encode_utf8(b@),
            ab@ == av,
            bb@ == bv,
            0 <= i <= av.len(),
            0 <= i <= bv.len(),
            lex_le(av, bv) == lex_le(av.skip(i as int), bv.skip(i as int)),
        decreases av.len() - i,
    {
        proof {
            assert(av.skip(i as int)[0] == av[i as int]);
            assert(bv.skip(i as int)[0] == bv[i as int]);
            assert(av.skip(i as int).skip(1) =~= av.skip(i as int + 1));
            assert(bv.skip(i as int).skip(1) =~= bv.skip(i as int + 1));
        }
        if ab[i] < bb[i] {
            return true;
        }
        if ab[i] > bb[i] {
            return false;
        }
        i = i + 1;
    }
    let r = i == ab.len();
    proof {
        if i == av.len() {
            assert(av.skip(i as int).len() == 0);
        } else {
            assert(bv.skip(i as int).len() == 0);
            assert(av.skip(i as int).len() > 0);
        }
    }
    r
}

/// Whether one list entry may stand at or before another: larger page counts
/// first, equal counts ordered by the names' byte-wise lexical order.
pub open spec fn item_le(a_name: Seq<char>, a_count: int, b_name: Seq<char>, b_count: int) -> bool {
    a_count > b_count || (a_count == b_count && lex_le(encode_utf8(a_name), encode_utf8(b_name)))
}

/// Whether the list is ordered: each entry may stand before its successor.
pub open spec fn items_sorted(s: Seq<ListItem>) -> bool {
    forall|i: int|
        0 <= i < s.len() - 1 ==> item_le(
            (#[trigger] s[i]).name@,
            s[i].count as int,
            s[i + 1].name@,
            s[i + 1].count as int,
        )
}

/// Whether the index has a bucket of this name and size.
pub open spec fn bucket_matches(
    m: Seq<(Seq<char>, Seq<Seq<char>>)>,
    name: Seq<char>,
    count: int,
) -> bool {
    exists|j: int| 0 <= j < m.len() && (#[trigger] m[j]).0 == name && m[j].1.len() == count
}

/// Whether the list has an entry of this name and size.
pub open spec fn has_entry(s: Seq<ListItem>, name: Seq<char>, count: int) -> bool {
    exists|i: int| 0 <= i < s.len() && (#[trigger] s[i]).name@ == name && s[i].count == count
}

/// Compares two list entries.
fn item_le_exec(a: &ListItem, b: &ListItem) -> (r: bool)
    ensures
        r == item_le(a.name@, a.count as int, b.name@, b.count as int),
{
    a.count > b.count || (a.count == b.count && name_le(&a.name, &b.name))
}

/// Finds the first position whose entry must come after `item`.
fn find_item_pos(v: &Vec<ListItem>, item: &ListItem) -> (idx: usize)
    ensures
        idx <= v@.len(),
        forall|j: int|
            0 <= j < idx ==> item_le(
                (#[trigger] v@[j]).name@,
                v@[j].count as int,
                item.name@,
                item.count as int,
            ),
        idx < v@.len() ==> !item_le(
            v@[idx as int].name@,
            v@[idx as int].count as int,
            item.name@,
            item.count as int,
        ),
{
    let mut j: usize = 0;
    while j < v.len()
        invariant
            0 <= j <= v@.len(),
            forall|k: int|
                0 <= k < j ==> item_le(
                    (#[trigger] v@[k]).name@,
                    v@[k].count as int,
                    item.name@,
                    item.count as int,
                ),
        decreases v@.len() - j,
    {
        if !item_le_exec(&v[j], item) {
            return j;
        }
        j = j + 1;
    }
    j
}

/// Inserts an entry into an ordered list, keeping it ordered.
fn insert_item_sorted(v: &mut Vec<ListItem>, item: ListItem)
    requires
        items_sorted(old(v)@),
    ensures
        final(v)@.len() == old(v)@.len() + 1,
        items_sorted(final(v)@),
        exists|idx: int| 0 <= idx <= old(v)@.len() && final(v)@ == old(v)@.insert(idx, item),
{
    let ghost olds = v@;
    let idx = find_item_pos(v, &item);
    proof {
        if idx < olds.len() {
            lemma_lex_total(encode_utf8(olds[idx as int].name@), encode_utf8(item.name@));
            assert(item_le(
                item.name@,
                item.count as int,
                olds[idx as int].name@,
                olds[idx as int].count as int,
            ));
        }
    }
    v.insert(idx, item);
    proof {
        let news = v@;
        assert(news == olds.insert(idx as int, item));
        olds.insert_ensures(idx as int, item);
        assert forall|i: int| 0 <= i < news.len() - 1 implies item_le(
            (#[trigger] news[i]).name@,
            news[i].count as int,
            news[i + 1].name@,
            news[i + 1].count as int,
        ) by {
            if i + 1 < idx {
                assert(news[i] == olds[i] && news[i + 1] == olds[i + 1]);
            } else if i + 1 == idx {
                assert(news[i] == olds[i] && news[i + 1] == item);
            } else if i == idx {
                assert(news[i] == item && news[i + 1] == olds[i]);
            } else {
                assert(news[i] == olds[i - 1] && news[i + 1] == olds[i]);
            }
        }
        assert(0 <= idx as int <= olds.len() && news == olds.insert(idx as int, item));
    }
}

/// The list entries of a tag or category index, one per bucket, ordered by
/// descending page count with ties broken by the names' lexical order; each
/// entry carries the slug derived from its name.
pub fn sorted_list_items(items: &Buckets) -> (r: Vec<ListItem>)
    ensures
        r@.len() == items.entries@.len(),
        items_sorted(r@),
        forall|i: int|
            0 <= i < r@.len() ==> bucket_matches(
                bucket_views(items.entries@),
                (#[trigger] r@[i]).name@,
                r@[i].count as int,
            ) && r@[i].slug@ == slug_of(r@[i].name@),
        forall|j: int|
            0 <= j < items.entries@.len() ==> has_entry(
                r@,
                (#[trigger] bucket_views(items.entries@)[j]).0,
                bucket_views(items.entries@)[j].1.len() as int,
            ),
{
    let ghost bv = bucket_views(items.entries@);
    let mut r: Vec<ListItem> = Vec::new();
    let mut j: usize = 0;
    while j < items.entries.len()
        invariant
            0 <= j <= items.entries@.len(),
            bv == bucket_views(items.entries@),
            bv.len() == items.entries@.len(),
            r@.len() == j,
            items_sorted(r@),
            forall|i: int|
                0 <= i < r@.len() ==> bucket_matches(
                    bv,
                    (#[trigger] r@[i]).name@,
                    r@[i].count as int,
                ) && r@[i].slug@ == slug_of(r@[i].name@),
            forall|jj: int|
                0 <= jj < j ==> has_entry(
                    r@,
                    (#[trigger] bv[jj]).0,
                    bv[jj].1.len() as int,
                ),
        decreases items.entries@.len() - j,
    {
        let li = ListItem::new(items.entries[j].0.as_str(), items.entries[j].1.len());
        proof {
            assert(bv[j as int] == (
                items.entries@[j as int].0@,
                items.entries@[j as int].1.deep_view(),
            ));
            assert(li.name@ == bv[j as int].0);
            assert(li.count == bv[j as int].1.len());
        }
        let ghost oldr = r@;
        let ghost liv = li;
        insert_item_sorted(&mut r, li);
        proof {
            let idx = choose|idx: int| 0 <= idx <= oldr.len() && r@ == oldr.insert(idx, liv);
            oldr.insert_ensures(idx, liv);
            assert(r@[idx] == liv);
            assert forall|i: int| 0 <= i < r@.len() implies bucket_matches(
                bv,
                (#[trigger] r@[i]).name@,
                r@[i].count as int,
            ) && r@[i].slug@ == slug_of(r@[i].name@) by {
                if i < idx {
                    assert(r@[i] == oldr[i]);
                } else if i == idx {
                    assert(r@[i] == liv);
                    assert(bv[j as int].0 == liv.name@ && bv[j as int].1.len()
                        == liv.count as int);
                } else {
                    assert(r@[i] == oldr[i - 1]);
                }
            }
            assert forall|jj: int| 0 <= jj < j + 1 implies has_entry(
                r@,
                (#[trigger] bv[jj]).0,
                bv[jj].1.len() as int,
            ) by {
                if jj == j {
                    assert(r@[idx].name@ == bv[jj].0 && r@[idx].count == bv[jj].1.len());
                } else {
                    assert(has_entry(oldr, bv[jj].0, bv[jj].1.len() as int));
                    let i = choose|i: int|
                        0 <= i < oldr.len() && (#[trigger] oldr[i]).name@ == bv[jj].0
                            && oldr[i].count == bv[jj].1.len();
                    if i < idx {
                        assert(r@[i] == oldr[i]);
                    } else {
                        assert(r@[i + 1] == oldr[i]);
                    }
                }
            }
        }
        j = j + 1;
    }
    r
}

/// The pages whose identity a bucket holds, in collection order.
pub open spec fn bucket_pages(pages: Seq<PageV>, bucket: Seq<Seq<char>>) -> Seq<PageV>
    decreases pages.len(),
{
    if pages.len() == 0 {
        Seq::empty()
    } else {
        let rest = bucket_pages(pages.drop_last(), bucket);
        if bucket.contains(pages.last().relative_path) {
            rest.push(pages.last())
        } else {
            rest
        }
    }
}

/// Selects the pages a tag or category bucket points at, in collection order.
pub fn pages_of_bucket(pages: &Vec<Page>, bucket: &Vec<String>) -> (r: Vec<Page>)
    ensures
        r.deep_view() == bucket_pages(pages.deep_view(), bucket.deep_view()),
{
    let ghost pv = pages.deep_view();
    let ghost bk = bucket.deep_view();
    let mut r: Vec<Page> = Vec::new();
    let mut i: usize = 0;
    proof {
        assert(pv.subrange(0, 0) =~= Seq::<PageV>::empty());
    }
    while i < pages.len()
        invariant
            0 <= i <= pages@.len(),
            pv == pages.deep_view(),
            bk == bucket.deep_view(),
            pv.len() == pages@.len(),
            r.deep_view() == bucket_pages(pv.subrange(0, i as int), bk),
        decreases pages@.len() - i,
    {
        proof {
            assert(pv.subrange(0, i + 1).drop_last() =~= pv.subrange(0, i as int));
            assert(pv.subrange(0, i + 1).last() == pv[i as int]);
            assert(pv[i as int] == pages@[i as int]@);
        }
        if contains_str(bucket, &pages[i].relative_path) {
            let ghost oldr = r.deep_view();
            r.push(pages[i].duplicate());
            proof {
                assert(r.deep_view() =~= oldr.push(pv[i as int]));
            }
        }
        i = i + 1;
    }
    proof {
        assert(pv.subrange(0, i as int) =~= pv);
    }
    r
}

} // verus!

