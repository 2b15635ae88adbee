//! Metadata records for pages and sections, and metadata equality.
//!
//! Optional fields are explicit, so a missing sort key is a checked condition
//! at the sort step. Dates, orders and weights are plain integers (a date is a
//! day number); turning a textual date into one is the front-matter
//! collaborator's job.

use crate::paths::clone_opt_string;
use vstd::prelude::*;

verus! {

/// How a section orders its child pages.
#[derive(Clone, Copy, PartialEq, Eq, Structural, Debug)]
pub enum SortBy {
    /// Descending by date; pages without a date are ignored.
    Date,
    /// Ascending by the declared order key; pages without one are ignored.
    Order,
    /// Descending by the declared weight key; pages without one are ignored.
    Weight,
    /// Discovery order, stable, nothing ignored.
    Unsorted,
}

/// The metadata a page declares, seen from specifications.
pub ghost struct PageMetaV {
    pub title: Option<Seq<char>>,
    pub date: Option<u64>,
    pub order: Option<u64>,
    pub weight: Option<u64>,
    pub tags: Option<Seq<Seq<char>>>,
    pub category: Option<Seq<char>>,
    pub draft: bool,
    pub template: Option<Seq<char>>,
}

/// The metadata a page declares.
pub struct PageMeta {
    pub title: Option<String>,
    /// The page's date as a day number.
    pub date: Option<u64>,
    pub order: Option<u64>,
    pub weight: Option<u64>,
    pub tags: Option<Vec<String>>,
    pub category: Option<String>,
    pub draft: bool,
    pub template: Option<String>,
}

impl View for PageMeta {
    type V = PageMetaV;

    open spec fn view(&self) -> PageMetaV {
        PageMetaV {
            title: self.title.deep_view(),
            date: self.date,
            order: self.order,
            weight: self.weight,
            tags: match self.tags {
                Option::Some(t) => Option::Some(t.deep_view()),
                Option::None => Option::None,
            },
            category: self.category.deep_view(),
            draft: self.draft,
            template: self.template.deep_view(),
        }
    }
}

impl PageMeta {
    /// A record with every optional field absent.
    pub fn empty() -> (r: PageMeta)
        ensures
            r@ == (PageMetaV {
                title: Option::None,
                date: Option::None,
                order: Option::None,
                weight: Option::None,
                tags: Option::None,
                category: Option::None,
                draft: false,
                template: Option::None,
            }),
    {
        PageMeta {
            title: Option::None,
            date: Option::None,
            order: Option::None,
            weight: Option::None,
            tags: Option::None,
            category: Option::None,
            draft: false,
            template: Option::None,
        }
    }

    /// A copy of the record.
    pub fn duplicate(&self) -> (r: PageMeta)
        ensures
            r@ == self@,
    {
        PageMeta {
            title: clone_opt_string(&self.title),
            date: self.date,
            order: self.order,
            weight: self.weight,
            tags: match &self.tags {
                Option::Some(t) => Option::Some(clone_string_vec(t)),
                Option::None => Option::None,
            },
            category: clone_opt_string(&self.category),
            draft: self.draft,
            template: clone_opt_string(&self.template),
        }
    }
}

/// The metadata a section's index file declares, seen from specifications.
pub ghost struct SectionMetaV {
    pub sort_by: SortBy,
    pub paginate_by: Option<usize>,
    pub paginate_path: Option<Seq<char>>,
    pub render: bool,
    pub template: Option<Seq<char>>,
}

/// The metadata a section's index file declares.
pub struct SectionMeta {
    /// The sort mode applied to the section's child pages.
    pub sort_by: SortBy,
    /// The pager size; pagination is disabled when absent.
    pub paginate_by: Option<usize>,
    /// The path segment under which pager URLs live.
    pub paginate_path: Option<String>,
    /// Whether an index.html is emitted for the section at all.
    pub render: bool,
    pub template: Option<String>,
}

impl View for SectionMeta {
    type V = SectionMetaV;

    open spec fn view(&self) -> SectionMetaV {
        SectionMetaV {
            sort_by: self.sort_by,
            paginate_by: self.paginate_by,
            paginate_path: self.paginate_path.deep_view(),
            render: self.render,
            template: self.template.deep_view(),
        }
    }
}

impl SectionMeta {
    /// The default metadata of a synthetic root section.
    pub fn default_meta() -> (r: SectionMeta)
        ensures
            r@ == (SectionMetaV {
                sort_by: SortBy::Unsorted,
                paginate_by: Option::None,
                paginate_path: Option::None,
                render: true,
                template: Option::None,
            }),
    {
        SectionMeta {
            sort_by: SortBy::Unsorted,
            paginate_by: Option::None,
            paginate_path: Option::None,
            render: true,
            template: Option::None,
        }
    }

    /// A copy of the record.
    pub fn duplicate(&self) -> (r: SectionMeta)
        ensures
            r@ == self@,
    {
        SectionMeta {
            sort_by: self.sort_by,
            paginate_by: self.paginate_by,
            paginate_path: clone_opt_string(&self.paginate_path),
            render: self.render,
            template: clone_opt_string(&self.template),
        }
    }

    /// Whether the section asks for pagination.
    pub fn is_paginated(&self) -> (r: bool)
        ensures
            r == (self.paginate_by is Some),
    {
        self.paginate_by.is_some()
    }

    /// Whether an index.html is emitted for the section.
    pub fn should_render(&self) -> (r: bool)
        ensures
            r == self.render,
    {
        self.render
    }
}

/// Everything a content file's metadata block can declare, before the file is
/// classified as a page or a section.
pub struct FrontMatter {
    pub title: Option<String>,
    pub date: Option<u64>,
    pub order: Option<u64>,
    pub weight: Option<u64>,
    pub tags: Option<Vec<String>>,
    pub category: Option<String>,
    pub draft: bool,
    pub template: Option<String>,
    pub sort_by: SortBy,
    pub paginate_by: Option<usize>,
    pub paginate_path: Option<String>,
    pub render: bool,
}

impl FrontMatter {
    /// A record with every optional field absent.
    pub fn empty() -> (r: FrontMatter)
        ensures
            r.title is None,
            r.date is None,
            r.order is None,
            r.weight is None,
            r.tags is None,
            r.category is None,
            !r.draft,
            r.template is None,
            r.sort_by == SortBy::Unsorted,
            r.paginate_by is None,
            r.paginate_path is None,
            r.render,
    {
        FrontMatter {
            title: Option::None,
            date: Option::None,
            order: Option::None,
            weight: Option::None,
            tags: Option::None,
            category: Option::None,
            draft: false,
            template: Option::None,
            sort_by: SortBy::Unsorted,
            paginate_by: Option::None,
            paginate_path: Option::None,
            render: true,
        }
    }

    /// The page part of the record.
    pub fn to_page_meta(&self) -> (r: PageMeta)
        ensures
            r@ == self.page_meta_spec(),
    {
        PageMeta {
            title: clone_opt_string(&self.title),
            date: self.date,
            order: self.order,
            weight: self.weight,
            tags: match &self.tags {
                Option::Some(t) => Option::Some(clone_string_vec(t)),
                Option::None => Option::None,
            },
            category: clone_opt_string(&self.category),
            draft: self.draft,
            template: clone_opt_string(&self.template),
        }
    }

    /// The page part of the record, seen from specifications.
    pub open spec fn page_meta_spec(&self) -> PageMetaV {
        PageMetaV {
            title: self.title.deep_view(),
            date: self.date,
            order: self.order,
            weight: self.weight,
            tags: match self.tags {
                Option::Some(t) => Option::Some(t.deep_view()),
                Option::None => Option::None,
            },
            category: self.category.deep_view(),
            draft: self.draft,
            template: self.template.deep_view(),
        }
    }

    /// The section part of the record.
    pub fn to_section_meta(&self) -> (r: SectionMeta)
        ensures
            r@ == self.section_meta_spec(),
    {
        SectionMeta {
            sort_by: self.sort_by,
            paginate_by: self.paginate_by,
            paginate_path: clone_opt_string(&self.paginate_path),
            render: self.render,
            template: clone_opt_string(&self.template),
        }
    }

    /// The section part of the record, seen from specifications.
    pub open spec fn section_meta_spec(&self) -> SectionMetaV {
        SectionMetaV {
            sort_by: self.sort_by,
            paginate_by: self.paginate_by,
            paginate_path: self.paginate_path.deep_view(),
            render: self.render,
            template: self.template.deep_view(),
        }
    }
}

/// Copies a vector of strings.
pub fn clone_string_vec(v: &Vec<String>) -> (r: Vec<String>)
    ensures
        r@.len() == v@.len(),
        r.deep_view() == v.deep_view(),
{
    let mut r: Vec<String> = Vec::new();
    let mut i: usize = 0;
    while i < v.len()
        invariant
            0 <= i <= v@.len(),
            r@.len() == i,
            forall|j: int| 0 <= j < i ==> r.deep_view()[j] == v.deep_view()[j],
        decreases v@.len() - i,
    {
        r.push(v[i].clone());
        i = i + 1;
    }
    proof {
        assert(r.deep_view() =~= v.deep_view());
    }
    r
}

/// The set of tags a page declares; a missing tag list declares none.
pub open spec fn tag_set(t: Option<Seq<Seq<char>>>) -> Set<Seq<char>> {
    match t {
        Option::Some(s) => Set::new(|x: Seq<char>| s.contains(x)),
        Option::None => Set::empty(),
    }
}

/// Metadata equality for the incremental controller: exact for scalar fields,
/// order-insensitive for the tag set.
pub open spec fn same_metadata(a: PageMetaV, b: PageMetaV) -> bool {
    &&& a.title == b.title
    &&& a.date == b.date
    &&& a.order == b.order
    &&& a.weight == b.weight
    &&& tag_set(a.tags) == tag_set(b.tags)
    &&& a.category == b.category
    &&& a.draft == b.draft
    &&& a.template == b.template
}

/// Whether `v` holds a string equal to `s`.
pub fn contains_str(v: &Vec<String>, s: &String) -> (r: bool)
    ensures
        r == v.deep_view().contains(s@),
{
    let mut i: usize = 0;
    while i < v.len()
        invariant
            0 <= i <= v@.len(),
            forall|j: int| 0 <= j < i ==> v.deep_view()[j] != s@,
        decreases v@.len() - i,
    {
        if v[i] == *s {
            proof {
                assert(v.deep_view()[i as int] == s@);
            }
            return true;
        }
        i = i + 1;
    }
    proof {
        assert(forall|j: int| 0 <= j < v.deep_view().len() ==> v.deep_view()[j] != s@);
    }
    false
}

/// Whether every string of `a` occurs in `b`.
fn all_contained(a: &Vec<String>, b: &Vec<String>) -> (r: bool)
    ensures
        r == forall|j: int| 0 <= j < a.deep_view().len() ==> b.deep_view().contains(
            a.deep_view()[j],
        ),
{
    let mut i: usize = 0;
    while i < a.len()
        invariant
            0 <= i <= a@.len(),
            forall|j: int| 0 <= j < i ==> b.deep_view().contains(a.deep_view()[j]),
        decreases a@.len() - i,
    {
        if !contains_str(b, &a[i]) {
            proof {
                assert(a.deep_view()[i as int] == a@[i as int]@);
                assert(!b.deep_view().contains(a.deep_view()[i as int]));
            }
            return false;
        }
        i = i + 1;
    }
    true
}

/// Compares two optional tag lists as sets.
fn tags_equal(a: &Option<Vec<String>>, b: &Option<Vec<String>>) -> (r: bool)
    ensures
        r == (tag_set(match a {
            Option::Some(t) => Option::Some(t.deep_view()),
            Option::None => Option::None,
        }) == tag_set(
            match b {
                Option::Some(t) => Option::Some(t.deep_view()),
                Option::None => Option::None,
            },
        )),
{
    match (a, b) {
        (Option::None, Option::None) => {
            true
        },
        (Option::Some(x), Option::None) => {
            let r = x.len() == 0;
            proof {
                if x@.len() == 0 {
                    assert(tag_set(Option::Some(x.deep_view())) =~= Set::<Seq<char>>::empty());
                } else {
                    assert(x.deep_view().contains(x.deep_view()[0]));
                    assert(tag_set(Option::Some(x.deep_view())).contains(x.deep_view()[0]));
                }
            }
            r
        },
        (Option::None, Option::Some(y)) => {
            let r = y.len() == 0;
            proof {
                if y@.len() == 0 {
                    assert(tag_set(Option::Some(y.deep_view())) =~= Set::<Seq<char>>::empty());
                } else {
                    assert(y.deep_view().contains(y.deep_view()[0]));
                    assert(tag_set(Option::Some(y.deep_view())).contains(y.deep_view()[0]));
                }
            }
            r
        },
        (Option::Some(x), Option::Some(y)) => {
            let r = all_contained(x, y) && all_contained(y, x);
            proof {
                if r {
                    assert(tag_set(Option::Some(x.deep_view())) =~= tag_set(
                        Option::Some(y.deep_view()),
                    ));
                } else {
                    assert(tag_set(Option::Some(x.deep_view())) != tag_set(
                        Option::Some(y.deep_view()),
                    )) by {
                        if tag_set(Option::Some(x.deep_view())) == tag_set(
                            Option::Some(y.deep_view()),
                        ) {
                            assert(forall|j: int|
                                0 <= j < x.deep_view().len() ==> y.deep_view().contains(
                                    #[trigger] x.deep_view()[j],
                                )) by {
                                assert(forall|j: int|
                                    0 <= j < x.deep_view().len() ==> tag_set(
                                        Option::Some(x.deep_view()),
                                    ).contains(#[trigger] x.deep_view()[j]));
                            }
                            assert(forall|j: int|
                                0 <= j < y.deep_view().len() ==> x.deep_view().contains(
                                    #[trigger] y.deep_view()[j],
                                )) by {
                                assert(forall|j: int|
                                    0 <= j < y.deep_view().len() ==> tag_set(
                                        Option::Some(y.deep_view()),
                                    ).contains(#[trigger] y.deep_view()[j]));
                            }
                        }
                    }
                }
            }
            r
        },
    }
}

/// Compares two page metadata records as the incremental controller does:
/// exact on scalar fields, order-insensitive on the tag set.
pub fn metadata_eq(a: &PageMeta, b: &PageMeta) -> (r: bool)
    ensures
        r == same_metadata(a@, b@),
{
    let scalars = crate::paths::opt_string_eq(&a.title, &b.title) && opt_u64_eq(&a.date, &b.date)
        && opt_u64_eq(&a.order, &b.order) && opt_u64_eq(&a.weight, &b.weight)
        && crate::paths::opt_string_eq(&a.category, &b.category) && a.draft == b.draft
        && crate::paths::opt_string_eq(&a.template, &b.template);
    scalars && tags_equal(&a.tags, &b.tags)
}

/// Compares two optional integers.
fn opt_u64_eq(a: &Option<u64>, b: &Option<u64>) -> (r: bool)
    ensures
        r == (*a == *b),
{
    match (a, b) {
        (Option::Some(x), Option::Some(y)) => *x == *y,
        (Option::None, Option::None) => true,
        _ => false,
    }
}

} // verus!
