//! The permalink table: relative source path to canonical URL.
//!
//! The table holds exactly one entry per live content item; an entry is
//! removed when its item is deleted, and an incremental update patches
//! exactly the one entry of the changed item.

use vstd::prelude::*;

verus! {

broadcast use vstd::seq::group_seq_axioms, vstd::map::group_map_axioms;

/// The key/value views of the entries.
pub open spec fn kv_views(s: Seq<(String, String)>) -> Seq<(Seq<char>, Seq<char>)> {
    Seq::new(s.len(), |i: int| (s[i].0@, s[i].1@))
}

/// The mapping a list of entries denotes, later entries winning.
pub open spec fn entries_map(s: Seq<(Seq<char>, Seq<char>)>) -> Map<Seq<char>, Seq<char>>
    decreases s.len(),
{
    if s.len() == 0 {
        Map::empty()
    } else {
        entries_map(s.drop_last()).insert(s.last().0, s.last().1)
    }
}

/// No two entries share a key.
pub open spec fn unique_keys(s: Seq<(Seq<char>, Seq<char>)>) -> bool {
    forall|i: int, j: int| 0 <= i < j < s.len() ==> (#[trigger] s[i]).0 != (#[trigger] s[j]).0
}

/// A key is in the mapping exactly when some entry holds it.
proof fn lemma_entries_map_domain(s: Seq<(Seq<char>, Seq<char>)>)
    ensures
        forall|k: Seq<char>|
            entries_map(s).contains_key(k) <==> exists|i: int|
                0 <= i < s.len() && (#[trigger] s[i]).0 == k,
    decreases s.len(),
{
    if s.len() > 0 {
        lemma_entries_map_domain(s.drop_last());
        assert forall|k: Seq<char>| entries_map(s).contains_key(k) implies exists|i: int|
            0 <= i < s.len() && (#[trigger] s[i]).0 == k by {
            if s.last().0 == k {
                assert(s[s.len() - 1].0 == k);
            } else {
                assert(entries_map(s.drop_last()).contains_key(k));
                let i = choose|i: int| 0 <= i < s.drop_last().len() && (#[trigger] s.drop_last(
                )[i]).0 == k;
                assert(s.drop_last()[i] == s[i]);
                assert(s[i].0 == k);
            }
        }
        assert forall|k: Seq<char>|
            (exists|i: int| 0 <= i < s.len() && (#[trigger] s[i]).0 == k) implies entries_map(
            s,
        ).contains_key(k) by {
            let i = choose|i: int| 0 <= i < s.len() && (#[trigger] s[i]).0 == k;
            if i == s.len() - 1 {
                assert(s.last().0 == k);
                assert(entries_map(s).contains_key(k));
            } else {
                assert(s.drop_last()[i].0 == k);
                assert(entries_map(s.drop_last()).contains_key(k));
                assert(entries_map(s).contains_key(k));
            }
        }
    }
}

/// At a unique key, the mapping holds that entry's value.
proof fn lemma_entries_map_at(s: Seq<(Seq<char>, Seq<char>)>, i: int)
    requires
        unique_keys(s),
        0 <= i < s.len(),
    ensures
        entries_map(s).contains_key(s[i].0),
        entries_map(s)[s[i].0] == s[i].1,
    decreases s.len(),
{
    if i == s.len() - 1 {
    } else {
        assert(unique_keys(s.drop_last())) by {
            assert(forall|a: int, b: int|
                0 <= a < b < s.drop_last().len() ==> (#[trigger] s.drop_last()[a]).0 != (
                #[trigger] s.drop_last()[b]).0);
        }
        assert(s.drop_last()[i] == s[i]);
        lemma_entries_map_at(s.drop_last(), i);
        assert(s[i].0 != s.last().0);
    }
}

/// Replacing the one entry holding a key rewrites that key's value.
proof fn lemma_entries_map_update(s: Seq<(Seq<char>, Seq<char>)>, i: int, kv: (Seq<char>, Seq<char>))
    requires
        unique_keys(s),
        0 <= i < s.len(),
        s[i].0 == kv.0,
    ensures
        entries_map(s.update(i, kv)) == entries_map(s).insert(kv.0, kv.1),
        unique_keys(s.update(i, kv)),
    decreases s.len(),
{
    let news = s.update(i, kv);
    assert forall|a: int, b: int| 0 <= a < b < news.len() implies (#[trigger] news[a]).0 != (
    #[trigger] news[b]).0 by {
        assert(s[a].0 != s[b].0);
    }
    if i == s.len() - 1 {
        assert(news.drop_last() =~= s.drop_last());
        assert(entries_map(news) =~= entries_map(s).insert(kv.0, kv.1));
    } else {
        assert(unique_keys(s.drop_last())) by {
            assert(forall|a: int, b: int|
                0 <= a < b < s.drop_last().len() ==> (#[trigger] s.drop_last()[a]).0 != (
                #[trigger] s.drop_last()[b]).0);
        }
        assert(s.drop_last()[i] == s[i]);
        lemma_entries_map_update(s.drop_last(), i, kv);
        assert(news.drop_last() =~= s.drop_last().update(i, kv));
        assert(news.last() == s.last());
        assert(kv.0 != s.last().0);
        assert(entries_map(news) =~= entries_map(s).insert(kv.0, kv.1));
    }
}

/// Removing the one entry holding a key removes that key.
proof fn lemma_entries_map_remove(s: Seq<(Seq<char>, Seq<char>)>, i: int)
    requires
        unique_keys(s),
        0 <= i < s.len(),
    ensures
        entries_map(s.remove(i)) == entries_map(s).remove(s[i].0),
        unique_keys(s.remove(i)),
    decreases s.len(),
{
    let news = s.remove(i);
    s.remove_ensures(i);
    assert forall|a: int, b: int| 0 <= a < b < news.len() implies (#[trigger] news[a]).0 != (
    #[trigger] news[b]).0 by {
        let aa = if a < i {
            a
        } else {
            a + 1
        };
        let bb = if b < i {
            b
        } else {
            b + 1
        };
        assert(news[a] == s[aa] && news[b] == s[bb]);
        assert(s[aa].0 != s[bb].0);
    }
    assert(unique_keys(s.drop_last())) by {
        assert(forall|a: int, b: int|
            0 <= a < b < s.drop_last().len() ==> (#[trigger] s.drop_last()[a]).0 != (
            #[trigger] s.drop_last()[b]).0);
    }
    if i == s.len() - 1 {
        assert(news =~= s.drop_last());
        lemma_entries_map_domain(s.drop_last());
        assert forall|a: int| 0 <= a < s.drop_last().len() implies (#[trigger] s.drop_last(
        )[a]).0 != s[i].0 by {
            assert(s[a].0 != s[i].0);
        }
        assert(!entries_map(s.drop_last()).contains_key(s[i].0));
        assert(entries_map(news) =~= entries_map(s).remove(s[i].0));
    } else {
        assert(s.drop_last()[i] == s[i]);
        lemma_entries_map_remove(s.drop_last(), i);
        assert(news.drop_last() =~= s.drop_last().remove(i));
        assert(news.last() == s.last());
        assert(s[i].0 != s.last().0);
        assert(entries_map(news) =~= entries_map(s).remove(s[i].0));
    }
}

/// A mapping from an item's source path relative to the content root to its
/// canonical URL, covering every live page and section.
pub struct PermalinkTable {
    entries: Vec<(String, String)>,
}

impl View for PermalinkTable {
    type V = Map<Seq<char>, Seq<char>>;

    closed spec fn view(&self) -> Map<Seq<char>, Seq<char>> {
        entries_map(kv_views(self.entries@))
    }
}

impl PermalinkTable {
    /// No two entries share a key; kept by every operation.
    pub closed spec fn wf(&self) -> bool {
        unique_keys(kv_views(self.entries@))
    }

    /// An empty table.
    pub fn new() -> (r: PermalinkTable)
        ensures
            r@ == Map::<Seq<char>, Seq<char>>::empty(),
            r.wf(),
    {
        let r = PermalinkTable { entries: Vec::new() };
        proof {
            assert(kv_views(r.entries@) =~= Seq::<(Seq<char>, Seq<char>)>::empty());
        }
        r
    }

    /// The index of the entry holding `key`, if any.
    fn find(&self, key: &String) -> (r: Option<usize>)
        ensures
            match r {
                Option::Some(i) => i < self.entries@.len() && kv_views(self.entries@)[i as int].0
                    == key@,
                Option::None => forall|j: int|
                    0 <= j < self.entries@.len() ==> (#[trigger] kv_views(self.entries@)[j]).0
                        != key@,
            },
    {
        let mut i: usize = 0;
        while i < self.entries.len()
            invariant
                0 <= i <= self.entries@.len(),
                forall|j: int| 0 <= j < i ==> (#[trigger] kv_views(self.entries@)[j]).0 != key@,
            decreases self.entries@.len() - i,
        {
            if self.entries[i].0 == *key {
                return Option::Some(i);
            }
            i = i + 1;
        }
        Option::None
    }

    /// Whether the table has an entry for `key`.
    pub fn contains(&self, key: &String) -> (r: bool)
        ensures
            r == self@.contains_key(key@),
    {
        proof {
            lemma_entries_map_domain(kv_views(self.entries@));
        }
        self.find(key).is_some()
    }

    /// The canonical URL recorded for `key`.
    pub fn get(&self, key: &String) -> (r: Option<String>)
        requires
            self.wf(),
        ensures
            match r {
                Option::Some(v) => self@.contains_key(key@) && v@ == self@[key@],
                Option::None => !self@.contains_key(key@),
            },
    {
        proof {
            lemma_entries_map_domain(kv_views(self.entries@));
        }
        match self.find(key) {
            Option::Some(i) => {
                proof {
                    lemma_entries_map_at(kv_views(self.entries@), i as int);
                }
                Option::Some(self.entries[i].1.clone())
            },
            Option::None => Option::None,
        }
    }

    /// Inserts or replaces the one entry for `key`.
    pub fn insert(&mut self, key: String, value: String)
        requires
            old(self).wf(),
        ensures
            final(self).wf(),
            final(self)@ == old(self)@.insert(key@, value@),
    {
        let ghost olds = kv_views(self.entries@);
        match self.find(&key) {
            Option::Some(i) => {
                let _ = self.entries.remove(i);
                self.entries.insert(i, (key, value));
                proof {
                    assert(kv_views(self.entries@) =~= olds.update(
                        i as int,
                        (key@, value@),
                    ));
                    lemma_entries_map_update(olds, i as int, (key@, value@));
                }
            },
            Option::None => {
                self.entries.push((key, value));
                proof {
                    assert(kv_views(self.entries@) =~= olds.push((key@, value@)));
                    assert(olds.push((key@, value@)).drop_last() =~= olds);
                    assert forall|a: int, b: int|
                        0 <= a < b < olds.push((key@, value@)).len() implies (#[trigger] olds.push(
                        (key@, value@),
                    )[a]).0 != (#[trigger] olds.push((key@, value@))[b]).0 by {
                        if b < olds.len() {
                            assert(olds[a].0 != olds[b].0);
                        } else {
                            assert(olds[a].0 != key@);
                        }
                    }
                }
            },
        }
    }

    /// Removes the entry for `key`; afterwards the key is absent.
    pub fn remove(&mut self, key: &String)
        requires
            old(self).wf(),
        ensures
            final(self).wf(),
            final(self)@ == old(self)@.remove(key@),
            !final(self)@.contains_key(key@),
    {
        let ghost olds = kv_views(self.entries@);
        match self.find(key) {
            Option::Some(i) => {
                let _ = self.entries.remove(i);
                proof {
                    assert(kv_views(self.entries@) =~= olds.remove(i as int));
                    lemma_entries_map_remove(olds, i as int);
                }
            },
            Option::None => {
                proof {
                    lemma_entries_map_domain(olds);
                    assert(!entries_map(olds).contains_key(key@));
                    assert(entries_map(olds).remove(key@) =~= entries_map(olds));
                }
            },
        }
    }
}

} // verus!
