//! Pagination: splitting an ordered page list into fixed-size pagers.
//!
//! A pager sequence is derived deterministically from the ordered input, so a
//! caller may re-derive it at any time; it is never persisted as independent
//! state. An empty input yields zero pagers.

use crate::page::{Page, PageV};
use crate::paths::clone_opt_string;
use crate::section::Section;
use vstd::prelude::*;

verus! {

/// How many pagers a list of `len` pages makes with `n` pages per pager:
/// full chunks, the last chunk possibly short, none for an empty list.
pub open spec fn num_pagers(len: int, n: int) -> int
    recommends
        n >= 1,
    decreases len,
        when n >= 1
{
    if len <= 0 {
        0
    } else if len <= n {
        1
    } else {
        1 + num_pagers(len - n, n)
    }
}

/// The pages of the pager at 0-based position `i`.
pub open spec fn pager_slice(pages: Seq<PageV>, n: int, i: int) -> Seq<PageV> {
    pages.subrange(
        i * n,
        if (i + 1) * n <= pages.len() {
            (i + 1) * n
        } else {
            pages.len() as int
        },
    )
}

/// Law: an empty page list yields no pagers, and a list of `2 * n + 1` pages
/// yields exactly three, the last holding a single page.
pub proof fn lemma_pagination_counts(n: int)
    requires
        n >= 1,
    ensures
        num_pagers(0, n) == 0,
        num_pagers(2 * n + 1, n) == 3,
        (if 3 * n <= 2 * n + 1 {
            3 * n
        } else {
            2 * n + 1
        }) - 2 * n == 1,
{
    assert(num_pagers(2 * n + 1, n) == 1 + num_pagers(n + 1, n));
    assert(num_pagers(n + 1, n) == 1 + num_pagers(1, n));
    assert(num_pagers(1, n) == 1);
}

/// One page-of-pages in a paginated listing.
pub struct Pager {
    /// The pager's 1-based position.
    pub index: usize,
    /// The pages the pager holds.
    pub pages: Vec<Page>,
    /// The 1-based position of the previous pager, absent for the first.
    pub previous: Option<usize>,
    /// The 1-based position of the next pager, absent for the last.
    pub next: Option<usize>,
}

/// The pagers of one section's ordered page list.
pub struct Paginator {
    /// How many pages each full pager holds.
    pub paginate_by: usize,
    /// The path segment under which pager URLs live.
    pub paginate_path: Option<String>,
    pub pagers: Vec<Pager>,
}

impl Paginator {
    /// Splits `pages` into the pagers of `section`: every pager but possibly
    /// the last holds exactly the configured number of pages, pagers carry
    /// 1-based indexes and previous/next links, and the pages of pager `i`
    /// are exactly the corresponding chunk of the input.
    pub fn new(pages: &Vec<Page>, section: &Section) -> (r: Paginator)
        requires
            section.meta.paginate_by is Some,
            section.meta.paginate_by->Some_0 >= 1,
        ensures
            r.paginate_by == section.meta.paginate_by->Some_0,
            r.paginate_path.deep_view() == section.meta.paginate_path.deep_view(),
            r.pagers@.len() == num_pagers(
                pages@.len() as int,
                section.meta.paginate_by->Some_0 as int,
            ),
            forall|i: int|
                0 <= i < r.pagers@.len() ==> {
                    &&& (#[trigger] r.pagers@[i]).index == i + 1
                    &&& r.pagers@[i].pages.deep_view() == pager_slice(
                        pages.deep_view(),
                        section.meta.paginate_by->Some_0 as int,
                        i,
                    )
                    &&& r.pagers@[i].previous == (if i == 0 {
                        Option::<usize>::None
                    } else {
                        Option::Some(i as usize)
                    })
                    &&& r.pagers@[i].next == (if i == r.pagers@.len() - 1 {
                        Option::<usize>::None
                    } else {
                        Option::Some((i + 2) as usize)
                    })
                },
    {
        let n = match section.meta.paginate_by {
            Option::Some(x) => x,
            Option::None => {
                proof {
                    assert(false);
                }
                1
            },
        };
        let ghost all = pages.deep_view();
        let ghost len = pages@.len() as int;
        let mut pagers: Vec<Pager> = Vec::new();
        let mut start: usize = 0;
        let mut idx: usize = 0;
        while start < pages.len()
            invariant
                n >= 1,
                n == section.meta.paginate_by->Some_0,
                all == pages.deep_view(),
                len == pages@.len() as int,
                all.len() == len,
                0 <= start <= pages@.len(),
                idx == pagers@.len(),
                start == idx * n || (start == pages@.len() && len <= idx * n),
                num_pagers(len, n as int) == idx + num_pagers(len - start, n as int),
                forall|i: int|
                    0 <= i < idx ==> {
                        &&& (#[trigger] pagers@[i]).index == i + 1
                        &&& pagers@[i].pages.deep_view() == pager_slice(all, n as int, i)
                        &&& pagers@[i].previous == (if i == 0 {
                            Option::<usize>::None
                        } else {
                            Option::Some(i as usize)
                        })
                        &&& pagers@[i].next == (if start >= len && i == idx - 1 {
                            Option::<usize>::None
                        } else {
                            Option::Some((i + 2) as usize)
                        })
                    },
            decreases pages@.len() - start,
        {
            let end = if pages.len() - start < n {
                pages.len()
            } else {
                start + n
            };
            proof {
                assert(start == idx * n);
                assert((idx + 1) * n == idx * n + n) by (nonlinear_arith);
                assert(idx <= idx * n) by (nonlinear_arith)
                    requires
                        n >= 1,
                        idx >= 0,
                ;
                assert(idx < len);
            }
            let mut chunk: Vec<Page> = Vec::new();
            let mut j: usize = start;
            proof {
                assert(all.subrange(start as int, start as int) =~= Seq::<PageV>::empty());
            }
            while j < end
                invariant
                    start <= j <= end,
                    end <= pages@.len(),
                    all == pages.deep_view(),
                    all.len() == pages@.len(),
                    chunk.deep_view() == all.subrange(start as int, j as int),
                decreases end - j,
            {
                let ghost oldchunk = chunk.deep_view();
                chunk.push(pages[j].duplicate());
                proof {
                    assert(all[j as int] == pages@[j as int]@);
                    assert(chunk.deep_view() =~= oldchunk.push(all[j as int]));
                    assert(chunk.deep_view() =~= all.subrange(start as int, j + 1));
                }
                j = j + 1;
            }
            let previous = if idx == 0 {
                Option::<usize>::None
            } else {
                Option::Some(idx)
            };
            let next = if end == pages.len() {
                Option::<usize>::None
            } else {
                proof {
                    assert(end == start + n);
                    assert(idx + 2 <= len) by (nonlinear_arith)
                        requires
                            n >= 1,
                            idx >= 0,
                            start == idx * n,
                            end == start + n,
                            end < len,
                    ;
                }
                Option::Some(idx + 2)
            };
            let ghost oldpagers = pagers@;
            pagers.push(Pager { index: idx + 1, pages: chunk, previous, next });
            proof {
                assert(chunk.deep_view() =~= pager_slice(all, n as int, idx as int));
                assert(forall|i: int| 0 <= i < idx ==> pagers@[i] == oldpagers[i]);
                assert(pagers@[idx as int].pages.deep_view() == pager_slice(
                    all,
                    n as int,
                    idx as int,
                ));
            }
            start = end;
            idx = idx + 1;
        }
        proof {
            assert(num_pagers(len - start, n as int) == 0);
        }
        Paginator {
            paginate_by: n,
            paginate_path: clone_opt_string(&section.meta.paginate_path),
            pagers,
        }
    }
}

} // verus!
