//! The site: the canonical page/section collections, the permalink table,
//! the tag/category indexes, and the incremental update controller.

use crate::config::{permalink_of, Config};
use crate::errors::Error;
use crate::index::{
    bucket_views, build_category_index, build_tag_index, cats_of, tags_of, Buckets,
};
use crate::meta::{
    clone_string_vec, metadata_eq, same_metadata, FrontMatter, PageMeta, SectionMeta, SortBy,
};
use crate::page::{
    all_keyed, keyed, keyless, linked_chain, populate_previous_and_next_pages, same_but_links,
    sort_pages, sorted_by, Page, PageV,
};
use crate::paths::{
    clone_comps, is_direct_child_dir, is_index_stem, index_stem, joined, md_suffix,
    page_logical_path, page_rel_path, path_eq, section_logical_path, section_rel_path,
};
use crate::permalinks::PermalinkTable;
use crate::section::{Section, SectionV};
use vstd::prelude::*;
use vstd::string::StringExecFns;

verus! {

broadcast use vstd::seq::group_seq_axioms, vstd::map::group_map_axioms;

/// The single directory component every content file lives under.
pub open spec fn content_dir() -> Seq<char> {
    seq!['c', 'o', 'n', 't', 'e', 'n', 't']
}

/// A discovered content file, already parsed by the front-matter collaborator.
pub struct ContentFile {
    /// The components of the containing directory, content root first.
    pub parent_path: Vec<String>,
    /// The file name without its `.md` extension.
    pub stem: String,
    /// The parsed metadata block.
    pub front: FrontMatter,
    /// Co-located asset file names, in discovery order.
    pub assets: Vec<String>,
}

/// One filesystem change, as the caller reports it after re-parsing the file
/// or noticing its deletion.
pub enum Change {
    /// A page file was created or edited; carries the re-parsed file.
    PageUpdated(ContentFile),
    /// A section index file was created or edited; carries the re-parsed file.
    SectionUpdated(ContentFile),
    /// The content item with this identity no longer exists on disk.
    Removed(String),
}

/// What the caller must re-render after an applied change.
pub enum Action {
    /// Only the named page's output is stale.
    RenderPageOnly(String),
    /// Only the named section's output is stale.
    RenderSection(String),
    /// Every rendering-dependent artifact is stale.
    FullRebuild,
}

/// Whether a file's name is the reserved index file name.
pub open spec fn is_section_file(f: ContentFile) -> bool {
    f.stem@ == index_stem()
}

/// The identity the file's content item will carry.
pub open spec fn rel_of_file(f: ContentFile) -> Seq<char> {
    if is_section_file(f) {
        section_rel_path(f.parent_path.deep_view())
    } else {
        page_rel_path(f.parent_path.deep_view(), f.stem@)
    }
}

/// Whether a file declares an unusable pager size.
pub open spec fn bad_pagination(f: ContentFile) -> bool {
    is_section_file(f) && f.front.paginate_by == Option::Some(0usize)
}

/// A page derived correctly from its source path, with empty links.
pub open spec fn page_wf(p: PageV, base: Seq<char>) -> bool {
    &&& p.parent_path.len() >= 1
    &&& p.stem != index_stem()
    &&& p.relative_path == page_rel_path(p.parent_path, p.stem)
    &&& p.permalink == permalink_of(base, page_logical_path(p.parent_path, p.stem))
    &&& p.previous is None
    &&& p.next is None
}

/// A section shell derived correctly from its source path.
pub open spec fn section_wf(s: SectionV, base: Seq<char>) -> bool {
    &&& s.parent_path.len() >= 1
    &&& s.relative_path == section_rel_path(s.parent_path)
    &&& s.permalink == permalink_of(base, section_logical_path(s.parent_path))
    &&& s.components == s.parent_path.subrange(1, s.parent_path.len() as int)
}

/// Every live item has a distinct identity, across pages and sections.
pub open spec fn unique_rels(pages: Seq<PageV>, sections: Seq<SectionV>) -> bool {
    &&& forall|i: int, j: int|
        0 <= i < j < pages.len() ==> (#[trigger] pages[i]).relative_path != (
        #[trigger] pages[j]).relative_path
    &&& forall|i: int, j: int|
        0 <= i < j < sections.len() ==> (#[trigger] sections[i]).relative_path != (
        #[trigger] sections[j]).relative_path
    &&& forall|i: int, k: int|
        0 <= i < pages.len() && 0 <= k < sections.len() ==> (#[trigger] pages[i]).relative_path
            != (#[trigger] sections[k]).relative_path
}

/// The direct child pages of the directory `dir`, in collection order.
pub open spec fn child_pages(pages: Seq<PageV>, dir: Seq<Seq<char>>) -> Seq<PageV>
    decreases pages.len(),
{
    if pages.len() == 0 {
        Seq::empty()
    } else {
        let rest = child_pages(pages.drop_last(), dir);
        if pages.last().parent_path == dir {
            rest.push(pages.last())
        } else {
            rest
        }
    }
}

/// The identities of the sections directly below the directory `dir`.
pub open spec fn subsection_paths(sections: Seq<SectionV>, dir: Seq<Seq<char>>) -> Seq<Seq<char>>
    decreases sections.len(),
{
    if sections.len() == 0 {
        Seq::empty()
    } else {
        let rest = subsection_paths(sections.drop_last(), dir);
        if sections.last().parent_path.len() == dir.len() + 1 && sections.last(
        ).parent_path.drop_last() == dir {
            rest.push(sections.last().relative_path)
        } else {
            rest
        }
    }
}

/// The page with its previous/next links cleared.
pub open spec fn strip_links(p: PageV) -> PageV {
    PageV { previous: Option::None, next: Option::None, ..p }
}

/// The list with every page's previous/next links cleared.
pub open spec fn strip_links_all(s: Seq<PageV>) -> Seq<PageV> {
    s.map_values(|p: PageV| strip_links(p))
}

/// Whether two section records agree on everything but the derived lists.
pub open spec fn same_shell(a: SectionV, b: SectionV) -> bool {
    &&& a.parent_path == b.parent_path
    &&& a.relative_path == b.relative_path
    &&& a.permalink == b.permalink
    &&& a.components == b.components
    &&& a.meta == b.meta
}

/// Whether a section's derived lists are exactly what linking and sorting
/// produce from the current collections: the ordered child list is the sort of
/// its direct children under its own sort mode, carries the previous/next
/// chain, the ignored list holds exactly the children lacking the sort key,
/// and the subsections are the directly nested sections.
#[verifier::opaque]
pub open spec fn section_lists_ok(s: SectionV, pages: Seq<PageV>, sections: Seq<SectionV>) -> bool {
    let children = child_pages(pages, s.parent_path);
    &&& linked_chain(s.pages)
    &&& (if s.meta.sort_by == SortBy::Unsorted {
        &&& s.pages.len() == children.len()
        &&& (forall|i: int|
            0 <= i < s.pages.len() ==> same_but_links(#[trigger] s.pages[i], children[i]))
        &&& s.ignored_pages.len() == 0
    } else {
        &&& all_keyed(s.pages, s.meta.sort_by)
        &&& sorted_by(s.pages, s.meta.sort_by)
        &&& strip_links_all(s.pages).to_multiset() == keyed(children, s.meta.sort_by).to_multiset()
        &&& s.ignored_pages == keyless(children, s.meta.sort_by)
    })
    &&& s.subsections == subsection_paths(sections, s.parent_path)
}

/// Whether every section's derived lists are consistent with the collections.
pub open spec fn graph_consistent(pages: Seq<PageV>, sections: Seq<SectionV>) -> bool {
    forall|k: int|
        0 <= k < sections.len() ==> section_lists_ok(#[trigger] sections[k], pages, sections)
}

/// The running relation between the first `j` discovered files and the
/// collections: identities are unique, records are well formed, every item
/// comes from a file seen so far, every seen file's identity is live, and no
/// seen file declared an unusable pager size.
pub open spec fn register_inv(
    files: Seq<ContentFile>,
    j: int,
    pages: Seq<PageV>,
    sections: Seq<SectionV>,
    base: Seq<char>,
) -> bool {
    &&& unique_rels(pages, sections)
    &&& (forall|i: int| 0 <= i < pages.len() ==> page_wf(#[trigger] pages[i], base))
    &&& (forall|k: int| 0 <= k < sections.len() ==> section_wf(#[trigger] sections[k], base))
    &&& (forall|i: int|
        0 <= i < pages.len() ==> page_from_files(#[trigger] pages[i], files, j, base))
    &&& (forall|k: int|
        0 <= k < sections.len() ==> section_from_files(#[trigger] sections[k], files, j, base))
    &&& (forall|jj: int|
        0 <= jj < j ==> has_item(rel_of_file(#[trigger] files[jj]), pages, sections))
    &&& (forall|jj: int| 0 <= jj < j ==> !bad_pagination(#[trigger] files[jj]))
}

/// The whole site: the canonical content collections and everything derived
/// from them.
pub struct Site {
    /// The directory the site lives in.
    pub base_path: String,
    pub config: Config,
    /// The canonical page records, in discovery order.
    pub pages: Vec<Page>,
    /// The canonical section records, in discovery order.
    pub sections: Vec<Section>,
    /// Whether rendered output gets the live-reload script injected.
    pub live_reload: bool,
    /// The directory outputs are written into.
    pub output_path: String,
    /// The directory static assets are copied from.
    pub static_path: String,
    /// Tag name to page identities.
    pub tags: Buckets,
    /// Category name to page identities.
    pub categories: Buckets,
    /// Relative source path to canonical URL, one entry per live item.
    pub permalinks: PermalinkTable,
}

impl Site {
    /// The structural invariant of the collections: every record's derived
    /// fields follow from its source path, identities are unique, and the
    /// permalink table is well formed.
    pub open spec fn wf(&self) -> bool {
        &&& unique_rels(self.pages.deep_view(), self.sections.deep_view())
        &&& (forall|i: int|
            0 <= i < self.pages.deep_view().len() ==> page_wf(
                #[trigger] self.pages.deep_view()[i],
                self.config.base_url@,
            ))
        &&& (forall|k: int|
            0 <= k < self.sections.deep_view().len() ==> section_wf(
                #[trigger] self.sections.deep_view()[k],
                self.config.base_url@,
            ))
        &&& self.permalinks.wf()
    }

    /// An empty site over the given base directory and configuration.
    pub fn new(base_path: String, config: Config) -> (r: Site)
        ensures
            r.wf(),
            r.base_path@ == base_path@,
            r.config == config,
            r.pages@.len() == 0,
            r.sections@.len() == 0,
            r.tags.entries@.len() == 0,
            r.categories.entries@.len() == 0,
            r.permalinks@ == Map::<Seq<char>, Seq<char>>::empty(),
            !r.live_reload,
            r.output_path@ == base_path@ + seq!['/', 'p', 'u', 'b', 'l', 'i', 'c'],
            r.static_path@ == base_path@ + seq!['/', 's', 't', 'a', 't', 'i', 'c'],
    {
        let mut output_path = base_path.clone();
        output_path.append("/public");
        proof {
            reveal_strlit("/public");
            assert(("/public")@ =~= seq!['/', 'p', 'u', 'b', 'l', 'i', 'c']);
        }
        let mut static_path = base_path.clone();
        static_path.append("/static");
        proof {
            reveal_strlit("/static");
            assert(("/static")@ =~= seq!['/', 's', 't', 'a', 't', 'i', 'c']);
        }
        Site {
            base_path,
            config,
            pages: Vec::new(),
            sections: Vec::new(),
            live_reload: false,
            output_path,
            static_path,
            tags: Buckets::new(),
            categories: Buckets::new(),
            permalinks: PermalinkTable::new(),
        }
    }

    /// Switches live-reload rewriting on.
    pub fn enable_live_reload(&mut self)
        ensures
            *final(self) == (Site { live_reload: true, ..*old(self) }),
    {
        self.live_reload = true;
    }

    /// Points the output somewhere else; used to build into a scratch place.
    pub fn set_output_path(&mut self, path: String)
        ensures
            *final(self) == (Site { output_path: path, ..*old(self) }),
    {
        self.output_path = path;
    }

    /// Recomputes every section's child pages, sort order, previous/next
    /// chain, ignored pages and subsections from scratch from the current
    /// collections; nothing else changes.
    #[verifier::rlimit(100)]
    pub fn populate_sections(&mut self)
        requires
            old(self).wf(),
        ensures
            final(self).wf(),
            final(self).pages == old(self).pages,
            final(self).config == old(self).config,
            final(self).permalinks == old(self).permalinks,
            final(self).tags == old(self).tags,
            final(self).categories == old(self).categories,
            final(self).base_path == old(self).base_path,
            final(self).live_reload == old(self).live_reload,
            final(self).output_path == old(self).output_path,
            final(self).static_path == old(self).static_path,
            final(self).sections@.len() == old(self).sections@.len(),
            forall|k: int|
                0 <= k < final(self).sections.deep_view().len() ==> same_shell(
                    #[trigger] final(self).sections.deep_view()[k],
                    old(self).sections.deep_view()[k],
                ),
            graph_consistent(final(self).pages.deep_view(), final(self).sections.deep_view()),
    {
        let ghost allp = self.pages.deep_view();
        let ghost oldsec = self.sections.deep_view();
        let ghost base = self.config.base_url@;
        let n = self.sections.len();
        let mut new_sections: Vec<Section> = Vec::new();
        let mut k: usize = 0;
        while k < n
            invariant
                0 <= k <= n,
                n == self.sections@.len(),
                *self == *old(self),
                allp == self.pages.deep_view(),
                oldsec == self.sections.deep_view(),
                base == self.config.base_url@,
                forall|i: int| 0 <= i < allp.len() ==> page_wf(#[trigger] allp[i], base),
                new_sections@.len() == k,
                forall|j: int|
                    0 <= j < k ==> same_shell(
                        #[trigger] new_sections.deep_view()[j],
                        oldsec[j],
                    ),
                forall|j: int|
                    0 <= j < k ==> section_lists_ok(
                        #[trigger] new_sections.deep_view()[j],
                        allp,
                        oldsec,
                    ),
            decreases n - k,
        {
            let children = self.collect_children(k);
            let sort_by = self.sections[k].meta.sort_by;
            let (sorted, ignored) = sort_pages(children, sort_by);
            let linked = populate_previous_and_next_pages(&sorted);
            let subs = self.collect_subsections(k);
            let mut newsec = self.sections[k].duplicate();
            newsec.pages = linked;
            newsec.ignored_pages = ignored;
            newsec.subsections = subs;
            proof {
                lemma_section_built(
                    newsec@,
                    oldsec[k as int],
                    allp,
                    oldsec,
                    sorted.deep_view(),
                    linked.deep_view(),
                    old(self).config.base_url@,
                    sort_by,
                );
            }
            let ghost prev = new_sections.deep_view();
            new_sections.push(newsec);
            proof {
                assert(new_sections.deep_view() =~= prev.push(newsec@));
                assert(new_sections.deep_view()[k as int] == newsec@);
                assert(forall|j: int| 0 <= j < k ==> new_sections.deep_view()[j] == prev[j]);
                assert(same_shell(newsec@, oldsec[k as int]));
            }
            k = k + 1;
        }
        self.sections = new_sections;
        proof {
            assert forall|j: int| 0 <= j < self.sections.deep_view().len() implies section_lists_ok(
                #[trigger] self.sections.deep_view()[j],
                allp,
                self.sections.deep_view(),
            ) by {
                reveal(section_lists_ok);
                lemma_subsection_paths_congruent(
                    oldsec,
                    self.sections.deep_view(),
                    self.sections.deep_view()[j].parent_path,
                );
            }
        }
    }

    /// Copies the direct child pages of section `k`, in collection order.
    fn collect_children(&self, k: usize) -> (r: Vec<Page>)
        requires
            k < self.sections@.len(),
        ensures
            r.deep_view() == child_pages(
                self.pages.deep_view(),
                self.sections.deep_view()[k as int].parent_path,
            ),
    {
        let ghost allp = self.pages.deep_view();
        let ghost dir = self.sections.deep_view()[k as int].parent_path;
        let mut r: Vec<Page> = Vec::new();
        let mut i: usize = 0;
        proof {
            assert(allp.subrange(0, 0) =~= Seq::<PageV>::empty());
        }
        while i < self.pages.len()
            invariant
                0 <= i <= self.pages@.len(),
                k < self.sections@.len(),
                allp == self.pages.deep_view(),
                allp.len() == self.pages@.len(),
                dir == self.sections.deep_view()[k as int].parent_path,
                r.deep_view() == child_pages(allp.subrange(0, i as int), dir),
            decreases self.pages@.len() - i,
        {
            proof {
                assert(allp.subrange(0, i + 1).drop_last() =~= allp.subrange(0, i as int));
                assert(allp.subrange(0, i + 1).last() == allp[i as int]);
                assert(allp[i as int] == self.pages@[i as int]@);
            }
            if path_eq(&self.pages[i].parent_path, &self.sections[k].parent_path) {
                let ghost oldr = r.deep_view();
                r.push(self.pages[i].duplicate());
                proof {
                    assert(r.deep_view() =~= oldr.push(allp[i as int]));
                }
            }
            i = i + 1;
        }
        proof {
            assert(allp.subrange(0, i as int) =~= allp);
        }
        r
    }

    /// Collects the identities of the sections directly below section `k`.
    fn collect_subsections(&self, k: usize) -> (r: Vec<String>)
        requires
            k < self.sections@.len(),
        ensures
            r.deep_view() == subsection_paths(
                self.sections.deep_view(),
                self.sections.deep_view()[k as int].parent_path,
            ),
    {
        let ghost alls = self.sections.deep_view();
        let ghost dir = self.sections.deep_view()[k as int].parent_path;
        let mut r: Vec<String> = Vec::new();
        let mut j: usize = 0;
        proof {
            assert(alls.subrange(0, 0) =~= Seq::<SectionV>::empty());
        }
        while j < self.sections.len()
            invariant
                0 <= j <= self.sections@.len(),
                k < self.sections@.len(),
                alls == self.sections.deep_view(),
                alls.len() == self.sections@.len(),
                dir == self.sections.deep_view()[k as int].parent_path,
                r.deep_view() == subsection_paths(alls.subrange(0, j as int), dir),
            decreases self.sections@.len() - j,
        {
            proof {
                assert(alls.subrange(0, j + 1).drop_last() =~= alls.subrange(0, j as int));
                assert(alls.subrange(0, j + 1).last() == alls[j as int]);
                assert(alls[j as int] == self.sections@[j as int]@);
            }
            if is_direct_child_dir(&self.sections[j].parent_path, &self.sections[k].parent_path) {
                let ghost oldr = r.deep_view();
                r.push(self.sections[j].relative_path.clone());
                proof {
                    assert(r.deep_view() =~= oldr.push(alls[j as int].relative_path));
                }
            }
            j = j + 1;
        }
        proof {
            assert(alls.subrange(0, j as int) =~= alls);
        }
        r
    }

    /// One step of registration: classifies file `j` and upserts the item
    /// it denotes, keeping the running relation between files and items.
    #[verifier::rlimit(100)]
    #[verifier::spinoff_prover]
    fn register_one(&mut self, files: &Vec<ContentFile>, j: usize) -> (r: Result<(), Error>)
        requires
            j < files@.len(),
            forall|jj: int|
                0 <= jj < files@.len() ==> (#[trigger] files@[jj]).parent_path@.len() >= 1,
            register_inv(
                files@,
                j as int,
                old(self).pages.deep_view(),
                old(self).sections.deep_view(),
                old(self).config.base_url@,
            ),
        ensures
            *final(self) == (Site {
                pages: final(self).pages,
                sections: final(self).sections,
                ..*old(self)
            }),
            r is Err <==> bad_pagination(files@[j as int]),
            r matches Result::Err(e) ==> e is Config,
            r is Ok ==> register_inv(
                files@,
                j as int + 1,
                final(self).pages.deep_view(),
                final(self).sections.deep_view(),
                old(self).config.base_url@,
            ),
    {
        let ghost fv = files@;
        let ghost base = self.config.base_url@;
        let ghost oldp = self.pages.deep_view();
        let ghost olds = self.sections.deep_view();
        if is_index_stem(&files[j].stem) {
            if let Option::Some(pb) = files[j].front.paginate_by {
                if pb == 0 {
                    proof {
                        assert(bad_pagination(fv[j as int]));
                    }
                    return Result::Err(
                        Error::Config("pagination size must be at least 1".to_owned()),
                    );
                }
            }
            let sec = Section::new(
                clone_comps(&files[j].parent_path),
                files[j].front.to_section_meta(),
                &self.config,
            );
            proof {
                assert(sec@ == section_of_file(fv[j as int], base));
                assert(rel_of_file(fv[j as int]) == sec@.relative_path);
            }
            let found = find_page_by_rel(&self.pages, &sec.relative_path);
            if let Option::Some(pi) = found {
                let _ = self.pages.remove(pi);
                proof {
                    assert(self.pages.deep_view() =~= oldp.remove(pi as int));
                    lemma_page_removed(oldp, self.pages.deep_view(), pi as int);
                }
            }
            let ghost midp = self.pages.deep_view();
            proof {
                assert forall|a: int| 0 <= a < midp.len() implies seq_has_page(
                    oldp,
                    #[trigger] midp[a],
                ) by {
                    if found is None {
                        assert(oldp[a] == midp[a]);
                    }
                }
                assert(forall|a: int|
                    0 <= a < midp.len() ==> (#[trigger] midp[a]).relative_path
                        != sec@.relative_path);
                assert forall|a: int, k: int|
                    0 <= a < midp.len() && 0 <= k < olds.len() implies (
                #[trigger] midp[a]).relative_path != (#[trigger] olds[k]).relative_path by {
                    assert(seq_has_page(oldp, midp[a]));
                    let b = choose|b: int| 0 <= b < oldp.len() && (#[trigger] oldp[b])
                        == midp[a];
                    assert(oldp[b].relative_path != olds[k].relative_path);
                }
            }
            upsert_section(&mut self.sections, sec);
            proof {
                let news = self.sections.deep_view();
                lemma_after_upsert_section(olds, news, sec@, midp);
                assert(!bad_pagination(fv[j as int]));
                assert(section_wf(sec@, base));
                assert forall|a: int| 0 <= a < midp.len() implies page_wf(
                    #[trigger] midp[a],
                    base,
                ) by {
                    let b = choose|b: int| 0 <= b < oldp.len() && (#[trigger] oldp[b])
                        == midp[a];
                    assert(page_wf(oldp[b], base));
                }
                assert forall|a: int| 0 <= a < news.len() implies section_wf(
                    #[trigger] news[a],
                    base,
                ) by {
                    if news[a] != sec@ {
                        let b = choose|b: int| 0 <= b < olds.len() && (#[trigger] olds[b])
                            == news[a];
                        assert(section_wf(olds[b], base));
                    }
                }
                assert forall|a: int| 0 <= a < midp.len() implies page_from_files(
                    #[trigger] midp[a],
                    fv,
                    j as int + 1,
                    base,
                ) by {
                    let b = choose|b: int| 0 <= b < oldp.len() && (#[trigger] oldp[b])
                        == midp[a];
                    assert(page_from_files(oldp[b], fv, j as int, base));
                    let jj = choose|jj: int|
                        0 <= jj < j && !is_section_file(#[trigger] fv[jj]) && oldp[b]
                            == page_of_file(fv[jj], base);
                    assert(0 <= jj < j as int + 1 && !is_section_file(fv[jj]) && midp[a]
                        == page_of_file(fv[jj], base));
                }
                assert forall|a: int| 0 <= a < news.len() implies section_from_files(
                    #[trigger] news[a],
                    fv,
                    j as int + 1,
                    base,
                ) by {
                    if news[a] == sec@ {
                        assert(0 <= j < j as int + 1 && is_section_file(fv[j as int])
                            && same_shell(news[a], section_of_file(fv[j as int], base)));
                    } else {
                        let b = choose|b: int| 0 <= b < olds.len() && (#[trigger] olds[b])
                            == news[a];
                        assert(section_from_files(olds[b], fv, j as int, base));
                        let jj = choose|jj: int|
                            0 <= jj < j && is_section_file(#[trigger] fv[jj]) && same_shell(
                                olds[b],
                                section_of_file(fv[jj], base),
                            );
                        assert(0 <= jj < j as int + 1 && is_section_file(fv[jj]) && same_shell(
                            news[a],
                            section_of_file(fv[jj], base),
                        ));
                    }
                }
                assert forall|jj: int| 0 <= jj < j + 1 implies has_item(
                    rel_of_file(#[trigger] fv[jj]),
                    midp,
                    news,
                ) by {
                    let rel = rel_of_file(fv[jj]);
                    if jj == j {
                        assert(sections_have_rel(news, sec@.relative_path));
                    } else {
                        assert(has_item(rel, oldp, olds));
                        if pages_have_rel(oldp, rel) {
                            let i = choose|i: int|
                                0 <= i < oldp.len() && (#[trigger] oldp[i]).relative_path
                                    == rel;
                            if oldp[i].relative_path == sec@.relative_path {
                                assert(sections_have_rel(news, rel));
                            } else {
                                if found is Some {
                                    assert(pages_have_rel(midp, oldp[i].relative_path));
                                } else {
                                    assert(midp[i] == oldp[i]);
                                    assert(pages_have_rel(midp, rel));
                                }
                            }
                        } else {
                            let k = choose|k: int|
                                0 <= k < olds.len() && (#[trigger] olds[k]).relative_path
                                    == rel;
                            assert(sections_have_rel(news, olds[k].relative_path));
                        }
                    }
                }
                assert(midp == self.pages.deep_view());
                assert(news == self.sections.deep_view());
                assert(register_inv(
                    fv,
                    j as int + 1,
                    self.pages.deep_view(),
                    self.sections.deep_view(),
                    base,
                ));
            }
        } else {
            let page = Page::new(
                clone_comps(&files[j].parent_path),
                files[j].stem.clone(),
                files[j].front.to_page_meta(),
                clone_string_vec(&files[j].assets),
                &self.config,
            );
            proof {
                assert(page@ == page_of_file(fv[j as int], base));
                assert(rel_of_file(fv[j as int]) == page@.relative_path);
            }
            let found = find_section_by_rel(&self.sections, &page.relative_path);
            if let Option::Some(si) = found {
                let _ = self.sections.remove(si);
                proof {
                    assert(self.sections.deep_view() =~= olds.remove(si as int));
                    lemma_section_removed(olds, self.sections.deep_view(), si as int);
                }
            }
            let ghost mids = self.sections.deep_view();
            proof {
                assert forall|a: int| 0 <= a < mids.len() implies seq_has_section(
                    olds,
                    #[trigger] mids[a],
                ) by {
                    if found is None {
                        assert(olds[a] == mids[a]);
                    }
                }
                assert(forall|a: int|
                    0 <= a < mids.len() ==> (#[trigger] mids[a]).relative_path
                        != page@.relative_path);
                assert forall|a: int, k: int|
                    0 <= a < oldp.len() && 0 <= k < mids.len() implies (
                #[trigger] oldp[a]).relative_path != (#[trigger] mids[k]).relative_path by {
                    assert(seq_has_section(olds, mids[k]));
                    let b = choose|b: int| 0 <= b < olds.len() && (#[trigger] olds[b])
                        == mids[k];
                    assert(oldp[a].relative_path != olds[b].relative_path);
                }
            }
            upsert_page(&mut self.pages, page);
            proof {
                let newp = self.pages.deep_view();
                lemma_after_upsert_page(oldp, newp, page@, mids);
                assert(!bad_pagination(fv[j as int]));
                assert(page_wf(page@, base));
                assert forall|a: int| 0 <= a < newp.len() implies page_wf(
                    #[trigger] newp[a],
                    base,
                ) by {
                    if newp[a] != page@ {
                        let b = choose|b: int| 0 <= b < oldp.len() && (#[trigger] oldp[b])
                            == newp[a];
                        assert(page_wf(oldp[b], base));
                    }
                }
                assert forall|a: int| 0 <= a < mids.len() implies section_wf(
                    #[trigger] mids[a],
                    base,
                ) by {
                    let b = choose|b: int| 0 <= b < olds.len() && (#[trigger] olds[b])
                        == mids[a];
                    assert(section_wf(olds[b], base));
                }
                assert forall|a: int| 0 <= a < newp.len() implies page_from_files(
                    #[trigger] newp[a],
                    fv,
                    j as int + 1,
                    base,
                ) by {
                    if newp[a] == page@ {
                        assert(0 <= j < j as int + 1 && !is_section_file(fv[j as int]) && newp[a]
                            == page_of_file(fv[j as int], base));
                    } else {
                        let b = choose|b: int| 0 <= b < oldp.len() && (#[trigger] oldp[b])
                            == newp[a];
                        assert(page_from_files(oldp[b], fv, j as int, base));
                        let jj = choose|jj: int|
                            0 <= jj < j && !is_section_file(#[trigger] fv[jj]) && oldp[b]
                                == page_of_file(fv[jj], base);
                        assert(0 <= jj < j as int + 1 && !is_section_file(fv[jj]) && newp[a]
                            == page_of_file(fv[jj], base));
                    }
                }
                assert forall|a: int| 0 <= a < mids.len() implies section_from_files(
                    #[trigger] mids[a],
                    fv,
                    j as int + 1,
                    base,
                ) by {
                    let b = choose|b: int| 0 <= b < olds.len() && (#[trigger] olds[b])
                        == mids[a];
                    assert(section_from_files(olds[b], fv, j as int, base));
                    let jj = choose|jj: int|
                        0 <= jj < j && is_section_file(#[trigger] fv[jj]) && same_shell(
                            olds[b],
                            section_of_file(fv[jj], base),
                        );
                    assert(0 <= jj < j as int + 1 && is_section_file(fv[jj]) && same_shell(
                        mids[a],
                        section_of_file(fv[jj], base),
                    ));
                }
                assert forall|jj: int| 0 <= jj < j + 1 implies has_item(
                    rel_of_file(#[trigger] fv[jj]),
                    newp,
                    mids,
                ) by {
                    let rel = rel_of_file(fv[jj]);
                    if jj == j {
                        assert(pages_have_rel(newp, page@.relative_path));
                    } else {
                        assert(has_item(rel, oldp, olds));
                        if sections_have_rel(olds, rel) {
                            let k = choose|k: int|
                                0 <= k < olds.len() && (#[trigger] olds[k]).relative_path
                                    == rel;
                            if olds[k].relative_path == page@.relative_path {
                                assert(pages_have_rel(newp, rel));
                            } else {
                                if found is Some {
                                    assert(sections_have_rel(mids, olds[k].relative_path));
                                } else {
                                    assert(mids[k] == olds[k]);
                                    assert(sections_have_rel(mids, rel));
                                }
                            }
                        } else {
                            let i = choose|i: int|
                                0 <= i < oldp.len() && (#[trigger] oldp[i]).relative_path
                                    == rel;
                            assert(pages_have_rel(newp, oldp[i].relative_path));
                        }
                    }
                }
                assert(register_inv(fv, j as int + 1, newp, mids, base));
                assert(register_inv(
                    fv,
                    j as int + 1,
                    self.pages.deep_view(),
                    self.sections.deep_view(),
                    base,
                ));
            }
        }
        Result::Ok(())
    }

    /// Classifies every discovered file and builds the page and section
    /// records: an index file becomes a section, every other file a page; a
    /// later file with the same identity replaces an earlier item.
    pub fn register_files(&mut self, files: &Vec<ContentFile>) -> (r: Result<(), Error>)
        requires
            old(self).pages@.len() == 0,
            old(self).sections@.len() == 0,
            forall|j: int| 0 <= j < files@.len() ==> (#[trigger] files@[j]).parent_path@.len() >= 1,
        ensures
            *final(self) == (Site {
                pages: final(self).pages,
                sections: final(self).sections,
                ..*old(self)
            }),
            r is Err <==> exists|j: int|
                0 <= j < files@.len() && bad_pagination(#[trigger] files@[j]),
            r matches Result::Err(e) ==> e is Config,
            r is Ok ==> {
                &&& unique_rels(final(self).pages.deep_view(), final(self).sections.deep_view())
                &&& (forall|i: int|
                    0 <= i < final(self).pages.deep_view().len() ==> page_wf(
                        #[trigger] final(self).pages.deep_view()[i],
                        old(self).config.base_url@,
                    ))
                &&& (forall|k: int|
                    0 <= k < final(self).sections.deep_view().len() ==> section_wf(
                        #[trigger] final(self).sections.deep_view()[k],
                        old(self).config.base_url@,
                    ))
                &&& (forall|i: int|
                    0 <= i < final(self).pages.deep_view().len() ==> page_from_files(
                        #[trigger] final(self).pages.deep_view()[i],
                        files@,
                        files@.len() as int,
                        old(self).config.base_url@,
                    ))
                &&& (forall|k: int|
                    0 <= k < final(self).sections.deep_view().len() ==> section_from_files(
                        #[trigger] final(self).sections.deep_view()[k],
                        files@,
                        files@.len() as int,
                        old(self).config.base_url@,
                    ))
                &&& (forall|j: int|
                    0 <= j < files@.len() ==> has_item(
                        rel_of_file(#[trigger] files@[j]),
                        final(self).pages.deep_view(),
                        final(self).sections.deep_view(),
                    ))
            },
    {
        let ghost fv = files@;
        let ghost base = self.config.base_url@;
        proof {
            assert(register_inv(fv, 0, self.pages.deep_view(), self.sections.deep_view(), base));
        }
        let mut j: usize = 0;
        while j < files.len()
            invariant
                0 <= j <= files@.len(),
                fv == files@,
                base == self.config.base_url@,
                forall|jj: int|
                    0 <= jj < files@.len() ==> (#[trigger] files@[jj]).parent_path@.len() >= 1,
                *self == (Site { pages: self.pages, sections: self.sections, ..*old(self) }),
                register_inv(fv, j as int, self.pages.deep_view(), self.sections.deep_view(), base),
            decreases files@.len() - j,
        {
            match self.register_one(files, j) {
                Result::Ok(()) => {},
                Result::Err(e) => {
                    proof {
                        assert(bad_pagination(fv[j as int]));
                    }
                    return Result::Err(e);
                },
            }
            j = j + 1;
        }
        Result::Ok(())
    }


    /// The identities of all ignored pages in the site: pages excluded from
    /// their section's ordered list because they lack the sort key.
    pub fn get_ignored_pages(&self) -> (r: Vec<String>)
        ensures
            r.deep_view() == ignored_rels(self.sections.deep_view()),
    {
        let ghost sv = self.sections.deep_view();
        let mut r: Vec<String> = Vec::new();
        let mut k: usize = 0;
        proof {
            assert(sv.subrange(0, 0) =~= Seq::<SectionV>::empty());
        }
        while k < self.sections.len()
            invariant
                0 <= k <= self.sections@.len(),
                sv == self.sections.deep_view(),
                sv.len() == self.sections@.len(),
                r.deep_view() == ignored_rels(sv.subrange(0, k as int)),
            decreases self.sections@.len() - k,
        {
            proof {
                assert(sv.subrange(0, k + 1).drop_last() =~= sv.subrange(0, k as int));
                assert(sv.subrange(0, k + 1).last() == sv[k as int]);
                assert(sv[k as int] == self.sections@[k as int]@);
            }
            let ghost ig = sv[k as int].ignored_pages;
            let mut i: usize = 0;
            proof {
                assert(ig.subrange(0, 0).map_values(|p: PageV| p.relative_path) =~= Seq::<
                    Seq<char>,
                >::empty());
                assert(r.deep_view() =~= ignored_rels(sv.subrange(0, k as int)) + ig.subrange(
                    0,
                    0,
                ).map_values(|p: PageV| p.relative_path));
            }
            while i < self.sections[k].ignored_pages.len()
                invariant
                    k < self.sections@.len(),
                    sv == self.sections.deep_view(),
                    sv.len() == self.sections@.len(),
                    ig == sv[k as int].ignored_pages,
                    0 <= i <= self.sections@[k as int].ignored_pages@.len(),
                    ig.len() == self.sections@[k as int].ignored_pages@.len(),
                    r.deep_view() == ignored_rels(sv.subrange(0, k as int)) + ig.subrange(
                        0,
                        i as int,
                    ).map_values(|p: PageV| p.relative_path),
                decreases self.sections@[k as int].ignored_pages@.len() - i,
            {
                let ghost oldr = r.deep_view();
                r.push(self.sections[k].ignored_pages[i].relative_path.clone());
                proof {
                    assert(ig[i as int] == self.sections@[k as int]@.ignored_pages[i as int]);
                    assert(ig[i as int].relative_path
                        == self.sections@[k as int].ignored_pages@[i as int]@.relative_path);
                    assert(r.deep_view() =~= oldr.push(ig[i as int].relative_path));
                    assert(ig.subrange(0, i + 1).map_values(|p: PageV| p.relative_path)
                        =~= ig.subrange(0, i as int).map_values(|p: PageV| p.relative_path).push(
                        ig[i as int].relative_path,
                    ));
                    assert(r.deep_view() =~= ignored_rels(sv.subrange(0, k as int))
                        + ig.subrange(0, i + 1).map_values(|p: PageV| p.relative_path));
                }
                i = i + 1;
            }
            proof {
                assert(ig.subrange(0, i as int) =~= ig);
                assert(r.deep_view() =~= ignored_rels(sv.subrange(0, k + 1)));
            }
            k = k + 1;
        }
        proof {
            assert(sv.subrange(0, k as int) =~= sv);
        }
        r
    }

    /// Whether some section lists the page identity.
    fn page_listed(&self, rel: &String) -> (r: bool)
        ensures
            r == listed_in_sections(rel@, self.sections.deep_view()),
    {
        let ghost sv = self.sections.deep_view();
        let mut k: usize = 0;
        while k < self.sections.len()
            invariant
                0 <= k <= self.sections@.len(),
                sv == self.sections.deep_view(),
                sv.len() == self.sections@.len(),
                forall|kk: int|
                    0 <= kk < k ==> !(pages_have_rel((#[trigger] sv[kk]).pages, rel@)
                        || pages_have_rel(sv[kk].ignored_pages, rel@)),
            decreases self.sections@.len() - k,
        {
            proof {
                assert(sv[k as int] == self.sections@[k as int]@);
            }
            let in_pages = find_page_by_rel(&self.sections[k].pages, rel);
            let in_ignored = find_page_by_rel(&self.sections[k].ignored_pages, rel);
            if in_pages.is_some() || in_ignored.is_some() {
                return true;
            }
            k = k + 1;
        }
        false
    }

    /// All orphan pages: the pages no section lists, in collection order.
    pub fn get_all_orphan_pages(&self) -> (r: Vec<Page>)
        ensures
            r.deep_view() == orphans_of(self.pages.deep_view(), self.sections.deep_view()),
    {
        let ghost pv = self.pages.deep_view();
        let ghost sv = self.sections.deep_view();
        let mut r: Vec<Page> = Vec::new();
        let mut i: usize = 0;
        proof {
            assert(pv.subrange(0, 0) =~= Seq::<PageV>::empty());
        }
        while i < self.pages.len()
            invariant
                0 <= i <= self.pages@.len(),
                pv == self.pages.deep_view(),
                sv == self.sections.deep_view(),
                pv.len() == self.pages@.len(),
                r.deep_view() == orphans_of(pv.subrange(0, i as int), sv),
            decreases self.pages@.len() - i,
        {
            proof {
                assert(pv.subrange(0, i + 1).drop_last() =~= pv.subrange(0, i as int));
                assert(pv.subrange(0, i + 1).last() == pv[i as int]);
                assert(pv[i as int] == self.pages@[i as int]@);
            }
            if !self.page_listed(&self.pages[i].relative_path) {
                let ghost oldr = r.deep_view();
                r.push(self.pages[i].duplicate());
                proof {
                    assert(r.deep_view() =~= oldr.push(pv[i as int]));
                }
            }
            i = i + 1;
        }
        proof {
            assert(pv.subrange(0, i as int) =~= pv);
        }
        r
    }

    /// Removes the content item carrying `rel` from every collection and from
    /// the permalink table, then re-derives section ordering and the indexes.
    /// Deletions never take the cheap path: removing an item perturbs sibling
    /// ordering and the indexes.
    fn remove_content(&mut self, rel: &String)
        requires
            old(self).wf(),
        ensures
            final(self).wf(),
            *final(self) == (Site {
                pages: final(self).pages,
                sections: final(self).sections,
                tags: final(self).tags,
                categories: final(self).categories,
                permalinks: final(self).permalinks,
                ..*old(self)
            }),
            !has_item(rel@, final(self).pages.deep_view(), final(self).sections.deep_view()),
            final(self).permalinks@ == old(self).permalinks@.remove(rel@),
            !final(self).permalinks@.contains_key(rel@),
            forall|b: int|
                0 <= b < old(self).pages.deep_view().len() && (
                #[trigger] old(self).pages.deep_view()[b]).relative_path != rel@
                    ==> pages_have_rel(
                    final(self).pages.deep_view(),
                    old(self).pages.deep_view()[b].relative_path,
                ),
            forall|b: int|
                0 <= b < old(self).sections.deep_view().len() && (
                #[trigger] old(self).sections.deep_view()[b]).relative_path != rel@
                    ==> sections_have_rel(
                    final(self).sections.deep_view(),
                    old(self).sections.deep_view()[b].relative_path,
                ),
            graph_consistent(final(self).pages.deep_view(), final(self).sections.deep_view()),
            bucket_views(final(self).tags.entries@) == tags_of(final(self).pages.deep_view()),
            bucket_views(final(self).categories.entries@) == cats_of(
                final(self).pages.deep_view(),
            ),
    {
        let ghost oldp = self.pages.deep_view();
        let ghost olds = self.sections.deep_view();
        let ghost base = self.config.base_url@;
        if let Option::Some(i) = find_page_by_rel(&self.pages, rel) {
            let _ = self.pages.remove(i);
            proof {
                assert(self.pages.deep_view() =~= oldp.remove(i as int));
                lemma_page_removed(oldp, self.pages.deep_view(), i as int);
            }
        }
        let ghost midp = self.pages.deep_view();
        proof {
            assert(!pages_have_rel(midp, rel@));
            assert forall|a: int| 0 <= a < midp.len() implies seq_has_page(
                oldp,
                #[trigger] midp[a],
            ) by {
                if midp.len() == oldp.len() {
                    assert(midp[a] == oldp[a]);
                }
            }
            assert forall|a: int| 0 <= a < midp.len() implies page_wf(
                #[trigger] midp[a],
                base,
            ) by {
                let b = choose|b: int| 0 <= b < oldp.len() && (#[trigger] oldp[b]) == midp[a];
                assert(page_wf(oldp[b], base));
            }
            assert forall|a: int, k: int|
                0 <= a < midp.len() && 0 <= k < olds.len() implies (
            #[trigger] midp[a]).relative_path != (#[trigger] olds[k]).relative_path by {
                let b = choose|b: int| 0 <= b < oldp.len() && (#[trigger] oldp[b]) == midp[a];
                assert(oldp[b].relative_path != olds[k].relative_path);
            }
        }
        if let Option::Some(k) = find_section_by_rel(&self.sections, rel) {
            let _ = self.sections.remove(k);
            proof {
                assert(self.sections.deep_view() =~= olds.remove(k as int));
                lemma_section_removed(olds, self.sections.deep_view(), k as int);
            }
        }
        let ghost mids = self.sections.deep_view();
        proof {
            assert(!sections_have_rel(mids, rel@));
            assert forall|a: int| 0 <= a < mids.len() implies seq_has_section(
                olds,
                #[trigger] mids[a],
            ) by {
                if mids.len() == olds.len() {
                    assert(mids[a] == olds[a]);
                }
            }
            assert forall|a: int| 0 <= a < mids.len() implies section_wf(
                #[trigger] mids[a],
                base,
            ) by {
                let b = choose|b: int| 0 <= b < olds.len() && (#[trigger] olds[b]) == mids[a];
                assert(section_wf(olds[b], base));
            }
            assert forall|a: int, k: int|
                0 <= a < midp.len() && 0 <= k < mids.len() implies (
            #[trigger] midp[a]).relative_path != (#[trigger] mids[k]).relative_path by {
                let b = choose|b: int| 0 <= b < olds.len() && (#[trigger] olds[b]) == mids[k];
                assert(midp[a].relative_path != olds[b].relative_path);
            }
            assert(self.wf());
        }
        self.permalinks.remove(rel);
        self.populate_sections();
        proof {
            let fins = self.sections.deep_view();
            assert(!sections_have_rel(fins, rel@)) by {
                if sections_have_rel(fins, rel@) {
                    let k = choose|k: int|
                        0 <= k < fins.len() && (#[trigger] fins[k]).relative_path == rel@;
                    assert(same_shell(fins[k], mids[k]));
                    assert(false);
                }
            }
            assert forall|b: int|
                0 <= b < olds.len() && (#[trigger] olds[b]).relative_path
                    != rel@ implies sections_have_rel(fins, olds[b].relative_path) by {
                assert(sections_have_rel(mids, olds[b].relative_path));
                let k = choose|k: int|
                    0 <= k < mids.len() && (#[trigger] mids[k]).relative_path
                        == olds[b].relative_path;
                assert(same_shell(fins[k], mids[k]));
                assert(fins[k].relative_path == olds[b].relative_path);
            }
        }
        self.populate_tags_and_categories();
    }

    /// Applies one page change: the record is reloaded and its permalink
    /// patched. When the stored metadata equals the new metadata the change is
    /// cheap (only that page needs re-rendering); otherwise the section
    /// ordering and the indexes are re-derived and everything is stale.
    fn update_page(&mut self, f: &ContentFile) -> (r: Action)
        requires
            old(self).wf(),
            !is_section_file(*f),
            f.parent_path@.len() >= 1,
        ensures
            final(self).wf(),
            *final(self) == (Site {
                pages: final(self).pages,
                sections: final(self).sections,
                tags: final(self).tags,
                categories: final(self).categories,
                permalinks: final(self).permalinks,
                ..*old(self)
            }),
            pages_have_rel(
                final(self).pages.deep_view(),
                page_of_file(*f, old(self).config.base_url@).relative_path,
            ),
            final(self).permalinks@ == old(self).permalinks@.insert(
                page_of_file(*f, old(self).config.base_url@).relative_path,
                page_of_file(*f, old(self).config.base_url@).permalink,
            ),
            (exists|i: int|
                0 <= i < old(self).pages.deep_view().len() && (
                #[trigger] old(self).pages.deep_view()[i]).relative_path == page_of_file(
                    *f,
                    old(self).config.base_url@,
                ).relative_path && same_metadata(
                    old(self).pages.deep_view()[i].meta,
                    page_of_file(*f, old(self).config.base_url@).meta,
                )) ==> {
                &&& r matches Action::RenderPageOnly(rel) && rel@ == page_of_file(
                    *f,
                    old(self).config.base_url@,
                ).relative_path
                &&& final(self).sections == old(self).sections
                &&& final(self).tags == old(self).tags
                &&& final(self).categories == old(self).categories
                &&& exists|i: int|
                    0 <= i < old(self).pages.deep_view().len() && (
                    #[trigger] old(self).pages.deep_view()[i]).relative_path == page_of_file(
                        *f,
                        old(self).config.base_url@,
                    ).relative_path && final(self).pages.deep_view() == old(
                        self,
                    ).pages.deep_view().update(i, page_of_file(*f, old(self).config.base_url@))
            },
            !(exists|i: int|
                0 <= i < old(self).pages.deep_view().len() && (
                #[trigger] old(self).pages.deep_view()[i]).relative_path == page_of_file(
                    *f,
                    old(self).config.base_url@,
                ).relative_path && same_metadata(
                    old(self).pages.deep_view()[i].meta,
                    page_of_file(*f, old(self).config.base_url@).meta,
                )) ==> {
                &&& r is FullRebuild
                &&& graph_consistent(
                    final(self).pages.deep_view(),
                    final(self).sections.deep_view(),
                )
                &&& bucket_views(final(self).tags.entries@) == tags_of(
                    final(self).pages.deep_view(),
                )
                &&& bucket_views(final(self).categories.entries@) == cats_of(
                    final(self).pages.deep_view(),
                )
            },
    {
        let ghost base = self.config.base_url@;
        let ghost oldp = self.pages.deep_view();
        let ghost olds = self.sections.deep_view();
        let page = Page::new(
            clone_comps(&f.parent_path),
            f.stem.clone(),
            f.front.to_page_meta(),
            clone_string_vec(&f.assets),
            &self.config,
        );
        proof {
            assert(page@ == page_of_file(*f, base));
        }
        let rel_key = page.relative_path.clone();
        let url = page.permalink.clone();
        let found = find_page_by_rel(&self.pages, &page.relative_path);
        let cheap = match found {
            Option::Some(i) => metadata_eq(&self.pages[i].meta, &page.meta),
            Option::None => false,
        };
        proof {
            assert(cheap <==> exists|i: int|
                0 <= i < oldp.len() && (#[trigger] oldp[i]).relative_path == page@.relative_path
                    && same_metadata(oldp[i].meta, page@.meta)) by {
                if cheap {
                    let i = found->Some_0 as int;
                    assert(oldp[i].relative_path == page@.relative_path && same_metadata(
                        oldp[i].meta,
                        page@.meta,
                    ));
                } else {
                    if exists|i: int|
                        0 <= i < oldp.len() && (#[trigger] oldp[i]).relative_path
                            == page@.relative_path && same_metadata(oldp[i].meta, page@.meta) {
                        let i = choose|i: int|
                            0 <= i < oldp.len() && (#[trigger] oldp[i]).relative_path
                                == page@.relative_path && same_metadata(oldp[i].meta, page@.meta);
                        let fi = found->Some_0 as int;
                        assert(found is Some);
                        assert(oldp[fi].relative_path == page@.relative_path);
                        if i != fi {
                            assert(oldp[i].relative_path != oldp[fi].relative_path);
                        }
                        assert(i == fi);
                        assert(false);
                    }
                }
            }
        }
        if cheap {
            proof {
                let fi = found->Some_0 as int;
                assert(forall|k: int|
                    0 <= k < olds.len() ==> (#[trigger] oldp[fi]).relative_path != (
                    olds[k]).relative_path);
                assert(forall|k: int|
                    0 <= k < olds.len() ==> (#[trigger] olds[k]).relative_path
                        != page@.relative_path);
            }
            let i = match found {
                Option::Some(i) => i,
                Option::None => {
                    proof {
                        assert(false);
                    }
                    0
                },
            };
            let ghost pv = page@;
            let _ = self.pages.remove(i);
            self.pages.insert(i, page);
            proof {
                assert(self.pages.deep_view() =~= oldp.update(i as int, pv));
                lemma_after_upsert_page(oldp, self.pages.deep_view(), pv, olds);
                assert(page_wf(pv, base));
                assert forall|a: int|
                    0 <= a < self.pages.deep_view().len() implies page_wf(
                    #[trigger] self.pages.deep_view()[a],
                    base,
                ) by {
                    if self.pages.deep_view()[a] != pv {
                        let b = choose|b: int|
                            0 <= b < oldp.len() && (#[trigger] oldp[b])
                                == self.pages.deep_view()[a];
                        assert(page_wf(oldp[b], base));
                    }
                }
            }
            let rel_out = rel_key.clone();
            self.permalinks.insert(rel_key, url);
            Action::RenderPageOnly(rel_out)
        } else {
            let ghost pv = page@;
            if let Option::Some(si) = find_section_by_rel(&self.sections, &page.relative_path) {
                let _ = self.sections.remove(si);
                proof {
                    assert(self.sections.deep_view() =~= olds.remove(si as int));
                    lemma_section_removed(olds, self.sections.deep_view(), si as int);
                }
            }
            let ghost mids = self.sections.deep_view();
            proof {
                assert forall|a: int| 0 <= a < mids.len() implies seq_has_section(
                    olds,
                    #[trigger] mids[a],
                ) by {
                    if mids.len() == olds.len() {
                        assert(olds[a] == mids[a]);
                    }
                }
                assert(forall|a: int|
                    0 <= a < mids.len() ==> (#[trigger] mids[a]).relative_path
                        != pv.relative_path);
                assert forall|a: int| 0 <= a < mids.len() implies section_wf(
                    #[trigger] mids[a],
                    base,
                ) by {
                    let b = choose|b: int| 0 <= b < olds.len() && (#[trigger] olds[b]) == mids[a];
                    assert(section_wf(olds[b], base));
                }
                assert forall|a: int, k: int|
                    0 <= a < oldp.len() && 0 <= k < mids.len() implies (
                #[trigger] oldp[a]).relative_path != (#[trigger] mids[k]).relative_path by {
                    let b = choose|b: int| 0 <= b < olds.len() && (#[trigger] olds[b]) == mids[k];
                    assert(oldp[a].relative_path != olds[b].relative_path);
                }
            }
            upsert_page(&mut self.pages, page);
            proof {
                let newp = self.pages.deep_view();
                lemma_after_upsert_page(oldp, newp, pv, mids);
                assert(page_wf(pv, base));
                assert forall|a: int| 0 <= a < newp.len() implies page_wf(
                    #[trigger] newp[a],
                    base,
                ) by {
                    if newp[a] != pv {
                        let b = choose|b: int| 0 <= b < oldp.len() && (#[trigger] oldp[b])
                            == newp[a];
                        assert(page_wf(oldp[b], base));
                    }
                }
                assert(self.wf());
            }
            self.permalinks.insert(rel_key, url);
            self.populate_sections();
            proof {
                let finp = self.pages.deep_view();
                assert(pages_have_rel(finp, pv.relative_path));
            }
            self.populate_tags_and_categories();
            Action::FullRebuild
        }
    }

    /// Applies one section index change: the record is reloaded, its permalink
    /// patched, and the whole tree's section/subsection/ordering relationships
    /// re-derived, since one section's metadata can change the placement of
    /// others. The indexes are untouched; only the section's output is stale.
    fn update_section(&mut self, f: &ContentFile) -> (r: Result<Action, Error>)
        requires
            old(self).wf(),
            is_section_file(*f),
            f.parent_path@.len() >= 1,
        ensures
            r is Err <==> bad_pagination(*f),
            r matches Result::Err(e) ==> e is Config,
            r is Err ==> *final(self) == *old(self),
            r is Ok ==> {
                &&& final(self).wf()
                &&& *final(self) == (Site {
                    pages: final(self).pages,
                    sections: final(self).sections,
                    permalinks: final(self).permalinks,
                    ..*old(self)
                })
                &&& (exists|k: int|
                    0 <= k < final(self).sections.deep_view().len() && same_shell(
                        #[trigger] final(self).sections.deep_view()[k],
                        section_of_file(*f, old(self).config.base_url@),
                    ))
                &&& final(self).permalinks@ == old(self).permalinks@.insert(
                    section_of_file(*f, old(self).config.base_url@).relative_path,
                    section_of_file(*f, old(self).config.base_url@).permalink,
                )
                &&& graph_consistent(
                    final(self).pages.deep_view(),
                    final(self).sections.deep_view(),
                )
                &&& (r->Ok_0 matches Action::RenderSection(rel) && rel@ == section_of_file(
                    *f,
                    old(self).config.base_url@,
                ).relative_path)
            },
    {
        let ghost base = self.config.base_url@;
        let ghost oldp = self.pages.deep_view();
        let ghost olds = self.sections.deep_view();
        if let Option::Some(pb) = f.front.paginate_by {
            if pb == 0 {
                return Result::Err(
                    Error::Config("pagination size must be at least 1".to_owned()),
                );
            }
        }
        let sec = Section::new(
            clone_comps(&f.parent_path),
            f.front.to_section_meta(),
            &self.config,
        );
        proof {
            assert(sec@ == section_of_file(*f, base));
        }
        let ghost sv = sec@;
        let rel_key = sec.relative_path.clone();
        let url = sec.permalink.clone();
        if let Option::Some(pi) = find_page_by_rel(&self.pages, &sec.relative_path) {
            let _ = self.pages.remove(pi);
            proof {
                assert(self.pages.deep_view() =~= oldp.remove(pi as int));
                lemma_page_removed(oldp, self.pages.deep_view(), pi as int);
            }
        }
        let ghost midp = self.pages.deep_view();
        proof {
            assert forall|a: int| 0 <= a < midp.len() implies seq_has_page(
                oldp,
                #[trigger] midp[a],
            ) by {
                if midp.len() == oldp.len() {
                    assert(oldp[a] == midp[a]);
                }
            }
            assert(forall|a: int|
                0 <= a < midp.len() ==> (#[trigger] midp[a]).relative_path != sv.relative_path);
            assert forall|a: int| 0 <= a < midp.len() implies page_wf(
                #[trigger] midp[a],
                base,
            ) by {
                let b = choose|b: int| 0 <= b < oldp.len() && (#[trigger] oldp[b]) == midp[a];
                assert(page_wf(oldp[b], base));
            }
            assert forall|a: int, k: int|
                0 <= a < midp.len() && 0 <= k < olds.len() implies (
            #[trigger] midp[a]).relative_path != (#[trigger] olds[k]).relative_path by {
                let b = choose|b: int| 0 <= b < oldp.len() && (#[trigger] oldp[b]) == midp[a];
                assert(oldp[b].relative_path != olds[k].relative_path);
            }
        }
        upsert_section(&mut self.sections, sec);
        proof {
            let news = self.sections.deep_view();
            lemma_after_upsert_section(olds, news, sv, midp);
            assert(section_wf(sv, base));
            assert forall|a: int| 0 <= a < news.len() implies section_wf(
                #[trigger] news[a],
                base,
            ) by {
                if news[a] != sv {
                    let b = choose|b: int| 0 <= b < olds.len() && (#[trigger] olds[b]) == news[a];
                    assert(section_wf(olds[b], base));
                }
            }
            assert(self.wf());
            assert(exists|k: int| 0 <= k < news.len() && (#[trigger] news[k]) == sv) by {
                if exists|i: int|
                    0 <= i < olds.len() && (#[trigger] olds[i]).relative_path == sv.relative_path
                        && news == olds.update(i, sv) {
                    let i = choose|i: int|
                        0 <= i < olds.len() && (#[trigger] olds[i]).relative_path
                            == sv.relative_path && news == olds.update(i, sv);
                    assert(news[i] == sv);
                } else {
                    assert(news[olds.len() as int] == sv);
                }
            }
        }
        let ghost mids = self.sections.deep_view();
        let rel_out = rel_key.clone();
        self.permalinks.insert(rel_key, url);
        self.populate_sections();
        proof {
            let fins = self.sections.deep_view();
            assert(exists|k: int|
                0 <= k < fins.len() && same_shell(#[trigger] fins[k], sv)) by {
                let k = choose|k: int| 0 <= k < mids.len() && (#[trigger] mids[k]) == sv;
                assert(same_shell(fins[k], mids[k]));
                assert(same_shell(fins[k], sv));
            }
        }
        Result::Ok(Action::RenderSection(rel_out))
    }

    /// The incremental update controller's single entry point: applies one
    /// filesystem change to the in-memory graph and says what must be
    /// re-rendered. A page whose metadata is unchanged takes the cheap path
    /// (only its own output is stale); a changed or new page, a section
    /// change, and every deletion re-derive orderings (and, except for section
    /// changes, the indexes). On failure the graph is left as it was at the
    /// point of failure.
    pub fn apply_content_change(&mut self, change: Change) -> (r: Result<Action, Error>)
        requires
            old(self).wf(),
            change matches Change::PageUpdated(f) ==> !is_section_file(f)
                && f.parent_path@.len() >= 1,
            change matches Change::SectionUpdated(f) ==> is_section_file(f)
                && f.parent_path@.len() >= 1,
        ensures
            final(self).wf(),
            *final(self) == (Site {
                pages: final(self).pages,
                sections: final(self).sections,
                tags: final(self).tags,
                categories: final(self).categories,
                permalinks: final(self).permalinks,
                ..*old(self)
            }),
            r is Err <==> (change matches Change::SectionUpdated(f) && bad_pagination(f)),
            r matches Result::Err(e) ==> e is Config,
            r is Err ==> *final(self) == *old(self),
            (change matches Change::Removed(rel) ==> {
                &&& r == Result::<Action, Error>::Ok(Action::FullRebuild)
                &&& !has_item(
                    rel@,
                    final(self).pages.deep_view(),
                    final(self).sections.deep_view(),
                )
                &&& final(self).permalinks@ == old(self).permalinks@.remove(rel@)
                &&& !final(self).permalinks@.contains_key(rel@)
                &&& graph_consistent(
                    final(self).pages.deep_view(),
                    final(self).sections.deep_view(),
                )
                &&& bucket_views(final(self).tags.entries@) == tags_of(
                    final(self).pages.deep_view(),
                )
                &&& bucket_views(final(self).categories.entries@) == cats_of(
                    final(self).pages.deep_view(),
                )
            }),
            (change matches Change::PageUpdated(f) ==> {
                &&& pages_have_rel(
                    final(self).pages.deep_view(),
                    page_of_file(f, old(self).config.base_url@).relative_path,
                )
                &&& final(self).permalinks@ == old(self).permalinks@.insert(
                    page_of_file(f, old(self).config.base_url@).relative_path,
                    page_of_file(f, old(self).config.base_url@).permalink,
                )
                &&& ((exists|i: int|
                    0 <= i < old(self).pages.deep_view().len() && (
                    #[trigger] old(self).pages.deep_view()[i]).relative_path == page_of_file(
                        f,
                        old(self).config.base_url@,
                    ).relative_path && same_metadata(
                        old(self).pages.deep_view()[i].meta,
                        page_of_file(f, old(self).config.base_url@).meta,
                    )) ==> {
                    &&& (r matches Result::Ok(a) && a matches Action::RenderPageOnly(rel)
                        && rel@ == page_of_file(f, old(self).config.base_url@).relative_path)
                    &&& final(self).sections == old(self).sections
                    &&& final(self).tags == old(self).tags
                    &&& final(self).categories == old(self).categories
                })
                &&& (!(exists|i: int|
                    0 <= i < old(self).pages.deep_view().len() && (
                    #[trigger] old(self).pages.deep_view()[i]).relative_path == page_of_file(
                        f,
                        old(self).config.base_url@,
                    ).relative_path && same_metadata(
                        old(self).pages.deep_view()[i].meta,
                        page_of_file(f, old(self).config.base_url@).meta,
                    )) ==> {
                    &&& r == Result::<Action, Error>::Ok(Action::FullRebuild)
                    &&& graph_consistent(
                        final(self).pages.deep_view(),
                        final(self).sections.deep_view(),
                    )
                    &&& bucket_views(final(self).tags.entries@) == tags_of(
                        final(self).pages.deep_view(),
                    )
                    &&& bucket_views(final(self).categories.entries@) == cats_of(
                        final(self).pages.deep_view(),
                    )
                })
            }),
            (change matches Change::SectionUpdated(f) ==> r is Ok ==> {
                &&& (exists|k: int|
                    0 <= k < final(self).sections.deep_view().len() && same_shell(
                        #[trigger] final(self).sections.deep_view()[k],
                        section_of_file(f, old(self).config.base_url@),
                    ))
                &&& final(self).permalinks@ == old(self).permalinks@.insert(
                    section_of_file(f, old(self).config.base_url@).relative_path,
                    section_of_file(f, old(self).config.base_url@).permalink,
                )
                &&& graph_consistent(
                    final(self).pages.deep_view(),
                    final(self).sections.deep_view(),
                )
                &&& final(self).tags == old(self).tags
                &&& final(self).categories == old(self).categories
                &&& (r->Ok_0 matches Action::RenderSection(rel) && rel@ == section_of_file(
                    f,
                    old(self).config.base_url@,
                ).relative_path)
            }),
    {
        match change {
            Change::Removed(rel) => {
                self.remove_content(&rel);
                Result::Ok(Action::FullRebuild)
            },
            Change::PageUpdated(f) => {
                let a = self.update_page(&f);
                Result::Ok(a)
            },
            Change::SectionUpdated(f) => self.update_section(&f),
        }
    }

    /// Loads the whole site from the discovered content files: classifies and
    /// registers every file, inserts a synthetic root section when the content
    /// root has no index file, links and sorts every section, derives the tag
    /// and category indexes, and rebuilds the permalink table.
    pub fn load(&mut self, files: Vec<ContentFile>) -> (r: Result<(), Error>)
        requires
            forall|j: int| 0 <= j < files@.len() ==> (#[trigger] files@[j]).parent_path@.len() >= 1,
        ensures
            r is Err <==> (old(self).config.paginate_by == Option::Some(0usize) || exists|j: int|
                0 <= j < files@.len() && bad_pagination(#[trigger] files@[j])),
            r matches Result::Err(e) ==> e is Config,
            r is Ok ==> {
                &&& final(self).wf()
                &&& final(self).config == old(self).config
                &&& final(self).base_path == old(self).base_path
                &&& final(self).live_reload == old(self).live_reload
                &&& final(self).output_path == old(self).output_path
                &&& final(self).static_path == old(self).static_path
                &&& files_to_items_ok(
                    files@,
                    final(self).pages.deep_view(),
                    final(self).sections.deep_view(),
                    old(self).config.base_url@,
                )
                &&& sections_have_rel(final(self).sections.deep_view(), index_file_name())
                &&& table_ok(
                    final(self).permalinks@,
                    final(self).pages.deep_view(),
                    final(self).sections.deep_view(),
                )
                &&& bucket_views(final(self).tags.entries@) == tags_of(
                    final(self).pages.deep_view(),
                )
                &&& bucket_views(final(self).categories.entries@) == cats_of(
                    final(self).pages.deep_view(),
                )
                &&& graph_consistent(
                    final(self).pages.deep_view(),
                    final(self).sections.deep_view(),
                )
            },
    {
        let ghost fv = files@;
        let ghost base = self.config.base_url@;
        self.pages = Vec::new();
        self.sections = Vec::new();
        self.permalinks = PermalinkTable::new();
        if let Option::Some(pb) = self.config.paginate_by {
            if pb == 0 {
                return Result::Err(
                    Error::Config("pagination size must be at least 1".to_owned()),
                );
            }
        }
        match self.register_files(&files) {
            Result::Ok(()) => {},
            Result::Err(e) => {
                return Result::Err(e);
            },
        }
        let ghost regp = self.pages.deep_view();
        let ghost regs = self.sections.deep_view();
        let root_name: String = "_index.md".to_owned();
        proof {
            reveal_strlit("_index.md");
            assert(("_index.md")@ =~= index_file_name());
        }
        let has_root = find_section_by_rel(&self.sections, &root_name);
        if has_root.is_none() {
            let mut root_dir: Vec<String> = Vec::new();
            root_dir.push("content".to_owned());
            proof {
                reveal_strlit("content");
                assert(("content")@ =~= content_dir());
                assert(root_dir.deep_view() =~= seq![content_dir()]);
            }
            let root = Section::new(root_dir, SectionMeta::default_meta(), &self.config);
            proof {
                assert(root@.parent_path.subrange(1, root@.parent_path.len() as int)
                    =~= Seq::<Seq<char>>::empty());
                assert(Seq::<Seq<char>>::empty().push(index_file_name()) =~= seq![
                    index_file_name(),
                ]);
                assert(root@.relative_path == joined(seq![index_file_name()]));
                assert(joined(seq![index_file_name()]) == index_file_name());
                assert(is_root_shell(root@));
                assert(section_wf(root@, base));
                assert forall|i: int| 0 <= i < regp.len() implies (
                #[trigger] regp[i]).relative_path != index_file_name() by {
                    lemma_page_rel_ne_index(regp[i], base);
                }
                assert(!root_file_discovered(fv)) by {
                    if root_file_discovered(fv) {
                        let j = choose|j: int|
                            0 <= j < fv.len() && is_section_file(#[trigger] fv[j]) && rel_of_file(
                                fv[j],
                            ) == index_file_name();
                        assert(has_item(rel_of_file(fv[j]), regp, regs));
                        if pages_have_rel(regp, index_file_name()) {
                            let i = choose|i: int|
                                0 <= i < regp.len() && (#[trigger] regp[i]).relative_path
                                    == index_file_name();
                            assert(false);
                        } else {
                            let k = choose|k: int|
                                0 <= k < regs.len() && (#[trigger] regs[k]).relative_path
                                    == index_file_name();
                            assert(false);
                        }
                    }
                }
            }
            let ghost rootv = root@;
            self.sections.push(root);
            proof {
                assert(self.sections.deep_view() =~= regs.push(rootv));
                let news = self.sections.deep_view();
                assert(news[regs.len() as int] == rootv);
                assert(forall|k: int| 0 <= k < regs.len() ==> news[k] == regs[k]);
                assert forall|a: int, b: int|
                    0 <= a < b < news.len() implies (#[trigger] news[a]).relative_path != (
                #[trigger] news[b]).relative_path by {
                    if b < regs.len() {
                        assert(news[a] == regs[a] && news[b] == regs[b]);
                    } else {
                        assert(news[a] == regs[a]);
                        assert(regs[a].relative_path != index_file_name());
                    }
                }
                assert forall|jj: int| 0 <= jj < fv.len() implies has_item(
                    rel_of_file(#[trigger] fv[jj]),
                    regp,
                    news,
                ) by {
                    assert(has_item(rel_of_file(fv[jj]), regp, regs));
                    if sections_have_rel(regs, rel_of_file(fv[jj])) {
                        let k = choose|k: int|
                            0 <= k < regs.len() && (#[trigger] regs[k]).relative_path
                                == rel_of_file(fv[jj]);
                        assert(news[k].relative_path == rel_of_file(fv[jj]));
                    }
                }
                assert(sections_have_rel(news, index_file_name()));
            }
        }
        let ghost midp = self.pages.deep_view();
        let ghost mids = self.sections.deep_view();
        proof {
            assert(self.wf());
            assert(sections_have_rel(mids, index_file_name()));
            assert(forall|i: int|
                0 <= i < midp.len() ==> page_from_files(
                    #[trigger] midp[i],
                    fv,
                    fv.len() as int,
                    base,
                ));
            assert(forall|k: int|
                0 <= k < mids.len() ==> section_from_files(
                    #[trigger] mids[k],
                    fv,
                    fv.len() as int,
                    base,
                ) || (is_root_shell(#[trigger] mids[k]) && !root_file_discovered(fv)));
            assert(forall|jj: int|
                0 <= jj < fv.len() ==> has_item(rel_of_file(#[trigger] fv[jj]), midp, mids));
        }
        self.populate_sections();
        proof {
            let finp = self.pages.deep_view();
            let fins = self.sections.deep_view();
            assert(finp == midp);
            assert forall|k: int| 0 <= k < fins.len() implies (section_from_files(
                #[trigger] fins[k],
                fv,
                fv.len() as int,
                base,
            ) || (is_root_shell(#[trigger] fins[k]) && !root_file_discovered(fv))) by {
                assert(same_shell(fins[k], mids[k]));
                if section_from_files(mids[k], fv, fv.len() as int, base) {
                    let jj = choose|jj: int|
                        0 <= jj < fv.len() && is_section_file(#[trigger] fv[jj]) && same_shell(
                            mids[k],
                            section_of_file(fv[jj], base),
                        );
                    assert(same_shell(fins[k], section_of_file(fv[jj], base)));
                }
            }
            assert forall|jj: int| 0 <= jj < fv.len() implies has_item(
                rel_of_file(#[trigger] fv[jj]),
                finp,
                fins,
            ) by {
                assert(has_item(rel_of_file(fv[jj]), midp, mids));
                if sections_have_rel(mids, rel_of_file(fv[jj])) {
                    let k = choose|k: int|
                        0 <= k < mids.len() && (#[trigger] mids[k]).relative_path == rel_of_file(
                            fv[jj],
                        );
                    assert(same_shell(fins[k], mids[k]));
                    assert(fins[k].relative_path == rel_of_file(fv[jj]));
                }
            }
            assert(sections_have_rel(fins, index_file_name())) by {
                let k = choose|k: int|
                    0 <= k < mids.len() && (#[trigger] mids[k]).relative_path
                        == index_file_name();
                assert(same_shell(fins[k], mids[k]));
                assert(fins[k].relative_path == index_file_name());
            }
        }
        self.populate_tags_and_categories();
        self.build_permalink_table();
        Result::Ok(())
    }

    /// Rebuilds the permalink table from scratch: exactly one entry per live
    /// content item, mapping its relative source path to its canonical URL.
    fn build_permalink_table(&mut self)
        requires
            unique_rels(old(self).pages.deep_view(), old(self).sections.deep_view()),
        ensures
            *final(self) == (Site { permalinks: final(self).permalinks, ..*old(self) }),
            final(self).permalinks.wf(),
            table_ok(
                final(self).permalinks@,
                final(self).pages.deep_view(),
                final(self).sections.deep_view(),
            ),
    {
        let ghost pv = self.pages.deep_view();
        let ghost sv = self.sections.deep_view();
        let mut t = PermalinkTable::new();
        let mut i: usize = 0;
        while i < self.pages.len()
            invariant
                0 <= i <= self.pages@.len(),
                *self == *old(self),
                pv == self.pages.deep_view(),
                sv == self.sections.deep_view(),
                pv.len() == self.pages@.len(),
                unique_rels(pv, sv),
                t.wf(),
                forall|ii: int|
                    0 <= ii < i ==> t@.contains_key((#[trigger] pv[ii]).relative_path)
                        && t@[pv[ii].relative_path] == pv[ii].permalink,
                forall|key: Seq<char>|
                    t@.contains_key(key) ==> exists|ii: int|
                        0 <= ii < i && (#[trigger] pv[ii]).relative_path == key,
            decreases self.pages@.len() - i,
        {
            let ghost oldt = t@;
            t.insert(self.pages[i].relative_path.clone(), self.pages[i].permalink.clone());
            proof {
                assert(pv[i as int] == self.pages@[i as int]@);
                assert(t@ == oldt.insert(pv[i as int].relative_path, pv[i as int].permalink));
                assert forall|ii: int|
                    0 <= ii < i + 1 implies t@.contains_key(
                    (#[trigger] pv[ii]).relative_path,
                ) && t@[pv[ii].relative_path] == pv[ii].permalink by {
                    if ii < i {
                        assert(pv[ii].relative_path != pv[i as int].relative_path);
                    }
                }
                assert forall|key: Seq<char>| t@.contains_key(key) implies exists|ii: int|
                    0 <= ii < i + 1 && (#[trigger] pv[ii]).relative_path == key by {
                    if key != pv[i as int].relative_path {
                        assert(oldt.contains_key(key));
                    }
                }
            }
            i = i + 1;
        }
        let mut k: usize = 0;
        while k < self.sections.len()
            invariant
                0 <= k <= self.sections@.len(),
                *self == *old(self),
                pv == self.pages.deep_view(),
                sv == self.sections.deep_view(),
                pv.len() == self.pages@.len(),
                sv.len() == self.sections@.len(),
                unique_rels(pv, sv),
                t.wf(),
                forall|ii: int|
                    0 <= ii < pv.len() ==> t@.contains_key((#[trigger] pv[ii]).relative_path)
                        && t@[pv[ii].relative_path] == pv[ii].permalink,
                forall|kk: int|
                    0 <= kk < k ==> t@.contains_key((#[trigger] sv[kk]).relative_path)
                        && t@[sv[kk].relative_path] == sv[kk].permalink,
                forall|key: Seq<char>|
                    t@.contains_key(key) ==> pages_have_rel(pv, key) || exists|kk: int|
                        0 <= kk < k && (#[trigger] sv[kk]).relative_path == key,
            decreases self.sections@.len() - k,
        {
            let ghost oldt = t@;
            t.insert(self.sections[k].relative_path.clone(), self.sections[k].permalink.clone());
            proof {
                assert(sv[k as int] == self.sections@[k as int]@);
                assert(t@ == oldt.insert(sv[k as int].relative_path, sv[k as int].permalink));
                assert forall|ii: int|
                    0 <= ii < pv.len() implies t@.contains_key(
                    (#[trigger] pv[ii]).relative_path,
                ) && t@[pv[ii].relative_path] == pv[ii].permalink by {
                    assert(pv[ii].relative_path != sv[k as int].relative_path);
                }
                assert forall|kk: int|
                    0 <= kk < k + 1 implies t@.contains_key(
                    (#[trigger] sv[kk]).relative_path,
                ) && t@[sv[kk].relative_path] == sv[kk].permalink by {
                    if kk < k {
                        assert(sv[kk].relative_path != sv[k as int].relative_path);
                    }
                }
                assert forall|key: Seq<char>|
                    t@.contains_key(key) implies pages_have_rel(pv, key) || exists|kk: int|
                        0 <= kk < k + 1 && (#[trigger] sv[kk]).relative_path == key by {
                    if key != sv[k as int].relative_path {
                        assert(oldt.contains_key(key));
                    }
                }
            }
            k = k + 1;
        }
        self.permalinks = t;
    }

    /// Rebuilds the tag and category indexes from the current page
    /// collection; they are never patched in place.
    pub fn populate_tags_and_categories(&mut self)
        ensures
            bucket_views(final(self).tags.entries@) == tags_of(final(self).pages.deep_view()),
            bucket_views(final(self).categories.entries@) == cats_of(final(self).pages.deep_view()),
            *final(self) == (Site {
                tags: final(self).tags,
                categories: final(self).categories,
                ..*old(self)
            }),
    {
        self.tags = build_tag_index(&self.pages);
        self.categories = build_category_index(&self.pages);
    }
}

/// The identities of every ignored page, section by section.
pub open spec fn ignored_rels(sections: Seq<SectionV>) -> Seq<Seq<char>>
    decreases sections.len(),
{
    if sections.len() == 0 {
        Seq::empty()
    } else {
        ignored_rels(sections.drop_last()) + sections.last().ignored_pages.map_values(
            |p: PageV| p.relative_path,
        )
    }
}

/// Whether some section lists the identity among its ordered or ignored pages.
pub open spec fn listed_in_sections(rel: Seq<char>, sections: Seq<SectionV>) -> bool {
    exists|k: int|
        0 <= k < sections.len() && (pages_have_rel((#[trigger] sections[k]).pages, rel)
            || pages_have_rel(sections[k].ignored_pages, rel))
}

/// The pages no section lists: the orphans, in collection order.
pub open spec fn orphans_of(pages: Seq<PageV>, sections: Seq<SectionV>) -> Seq<PageV>
    decreases pages.len(),
{
    if pages.len() == 0 {
        Seq::empty()
    } else {
        let rest = orphans_of(pages.drop_last(), sections);
        if !listed_in_sections(pages.last().relative_path, sections) {
            rest.push(pages.last())
        } else {
            rest
        }
    }
}

/// The keyed subsequence holds only pages of the input.
proof fn lemma_keyed_membership(s: Seq<PageV>, m: SortBy)
    ensures
        forall|i: int|
            0 <= i < keyed(s, m).len() ==> seq_has_page(s, #[trigger] keyed(s, m)[i]),
    decreases s.len(),
{
    if s.len() > 0 {
        lemma_keyed_membership(s.drop_last(), m);
        let c = keyed(s, m);
        let rest = keyed(s.drop_last(), m);
        assert forall|i: int| 0 <= i < c.len() implies seq_has_page(s, #[trigger] c[i]) by {
            if crate::page::sort_key(s.last(), m) is Some && i == rest.len() {
                assert(c[i] == s.last());
                assert(s[s.len() - 1] == s.last());
            } else {
                assert(c[i] == rest[i]);
                assert(seq_has_page(s.drop_last(), rest[i]));
                let j = choose|j: int|
                    0 <= j < s.drop_last().len() && (#[trigger] s.drop_last()[j]) == rest[i];
                assert(s[j] == rest[i]);
            }
        }
    }
}

/// A fully keyed list is its own keyed subsequence.
proof fn lemma_keyed_id(s: Seq<PageV>, m: SortBy)
    requires
        all_keyed(s, m),
    ensures
        keyed(s, m) == s,
    decreases s.len(),
{
    if s.len() > 0 {
        assert(forall|i: int|
            0 <= i < s.drop_last().len() ==> (#[trigger] crate::page::sort_key(
                s.drop_last()[i],
                m,
            )) is Some);
        lemma_keyed_id(s.drop_last(), m);
        assert(crate::page::sort_key(s[s.len() - 1], m) is Some);
        assert(keyed(s, m) =~= s);
    }
}

/// Multiset-equal lists hold the same pages.
proof fn lemma_ms_membership(a: Seq<PageV>, b: Seq<PageV>)
    requires
        a.to_multiset() == b.to_multiset(),
    ensures
        forall|i: int| 0 <= i < a.len() ==> seq_has_page(b, #[trigger] a[i]),
{
    broadcast use vstd::seq_lib::group_to_multiset_ensures;

    assert forall|i: int| 0 <= i < a.len() implies seq_has_page(b, #[trigger] a[i]) by {
        assert(a.contains(a[i]));
        assert(a.to_multiset().count(a[i]) > 0);
        assert(b.to_multiset().count(a[i]) > 0);
        assert(b.contains(a[i]));
        let j = choose|j: int| 0 <= j < b.len() && b[j] == a[i];
        assert(b[j] == a[i]);
    }
}

/// The feed selection: the dated pages of the collection, sorted by date
/// descending, at most the fifteen most recent. Every returned page is one of
/// the input pages and declares a date.
pub fn feed_pages(pages: &Vec<Page>) -> (r: Vec<Page>)
    ensures
        r@.len() <= 15,
        all_keyed(r.deep_view(), SortBy::Date),
        sorted_by(r.deep_view(), SortBy::Date),
        forall|i: int|
            0 <= i < r.deep_view().len() ==> seq_has_page(
                pages.deep_view(),
                #[trigger] r.deep_view()[i],
            ),
{
    let ghost pv = pages.deep_view();
    let mut dated: Vec<Page> = Vec::new();
    let mut i: usize = 0;
    proof {
        assert(pv.subrange(0, 0) =~= Seq::<PageV>::empty());
    }
    while i < pages.len()
        invariant
            0 <= i <= pages@.len(),
            pv == pages.deep_view(),
            pv.len() == pages@.len(),
            dated.deep_view() == keyed(pv.subrange(0, i as int), SortBy::Date),
        decreases pages@.len() - i,
    {
        proof {
            assert(pv.subrange(0, i + 1).drop_last() =~= pv.subrange(0, i as int));
            assert(pv.subrange(0, i + 1).last() == pv[i as int]);
            assert(pv[i as int] == pages@[i as int]@);
        }
        if pages[i].meta.date.is_some() {
            let ghost oldd = dated.deep_view();
            dated.push(pages[i].duplicate());
            proof {
                assert(dated.deep_view() =~= oldd.push(pv[i as int]));
            }
        }
        i = i + 1;
    }
    proof {
        assert(pv.subrange(0, i as int) =~= pv);
        lemma_keyed_membership(pv, SortBy::Date);
    }
    let ghost dv = dated.deep_view();
    let (sorted, ignored) = sort_pages(dated, SortBy::Date);
    let _ = ignored;
    proof {
        assert(forall|a: int|
            0 <= a < dv.len() ==> (#[trigger] crate::page::sort_key(dv[a], SortBy::Date))
                is Some) by {
            lemma_keyed_membership(pv, SortBy::Date);
            assert forall|a: int|
                0 <= a < dv.len() implies (#[trigger] crate::page::sort_key(
                dv[a],
                SortBy::Date,
            )) is Some by {
                assert(dv[a] == keyed(pv, SortBy::Date)[a]);
                lemma_keyed_unlinked_date_some(pv, a);
            }
        }
        lemma_keyed_id(dv, SortBy::Date);
        assert(keyed(dv, SortBy::Date) == dv);
        lemma_ms_membership(sorted.deep_view(), dv);
        assert forall|a: int|
            0 <= a < sorted.deep_view().len() implies seq_has_page(
            pv,
            #[trigger] sorted.deep_view()[a],
        ) by {
            assert(seq_has_page(dv, sorted.deep_view()[a]));
            let j = choose|j: int|
                0 <= j < dv.len() && (#[trigger] dv[j]) == sorted.deep_view()[a];
            assert(dv[j] == keyed(pv, SortBy::Date)[j]);
            assert(seq_has_page(pv, keyed(pv, SortBy::Date)[j]));
        }
    }
    let mut r: Vec<Page> = Vec::new();
    let mut j: usize = 0;
    proof {
        assert(sorted.deep_view().subrange(0, 0) =~= Seq::<PageV>::empty());
    }
    while j < sorted.len() && j < 15
        invariant
            0 <= j <= sorted@.len(),
            j <= 15,
            sorted.deep_view().len() == sorted@.len(),
            all_keyed(sorted.deep_view(), SortBy::Date),
            sorted_by(sorted.deep_view(), SortBy::Date),
            forall|a: int|
                0 <= a < sorted.deep_view().len() ==> seq_has_page(
                    pv,
                    #[trigger] sorted.deep_view()[a],
                ),
            r.deep_view() == sorted.deep_view().subrange(0, j as int),
        decreases sorted@.len() - j,
    {
        let ghost oldr = r.deep_view();
        r.push(sorted[j].duplicate());
        proof {
            assert(r.deep_view() =~= oldr.push(sorted.deep_view()[j as int]));
            assert(r.deep_view() =~= sorted.deep_view().subrange(0, j + 1));
        }
        j = j + 1;
    }
    proof {
        let rv = r.deep_view();
        let sv2 = sorted.deep_view();
        assert(rv == sv2.subrange(0, j as int));
        assert(forall|a: int| 0 <= a < rv.len() ==> rv[a] == sv2[a]);
        assert forall|a: int, b: int|
            0 <= a < b < rv.len() implies crate::page::key_le(
            SortBy::Date,
            #[trigger] crate::page::key_of(rv[a], SortBy::Date),
            #[trigger] crate::page::key_of(rv[b], SortBy::Date),
        ) by {
            assert(rv[a] == sv2[a] && rv[b] == sv2[b]);
        }
    }
    r
}

/// A page of the keyed-by-date subsequence declares a date.
proof fn lemma_keyed_unlinked_date_some(s: Seq<PageV>, a: int)
    requires
        0 <= a < keyed(s, SortBy::Date).len(),
    ensures
        crate::page::sort_key(keyed(s, SortBy::Date)[a], SortBy::Date) is Some,
    decreases s.len(),
{
    if s.len() > 0 {
        let rest = keyed(s.drop_last(), SortBy::Date);
        if crate::page::sort_key(s.last(), SortBy::Date) is Some && a == rest.len() {
        } else {
            lemma_keyed_unlinked_date_some(s.drop_last(), a);
        }
    }
}

/// The page record a non-index content file denotes.
pub open spec fn page_of_file(f: ContentFile, base: Seq<char>) -> PageV {
    PageV {
        parent_path: f.parent_path.deep_view(),
        stem: f.stem@,
        relative_path: page_rel_path(f.parent_path.deep_view(), f.stem@),
        permalink: permalink_of(base, page_logical_path(f.parent_path.deep_view(), f.stem@)),
        assets: f.assets.deep_view(),
        meta: f.front.page_meta_spec(),
        previous: Option::None,
        next: Option::None,
    }
}

/// The section record an index file denotes, before linking.
pub open spec fn section_of_file(f: ContentFile, base: Seq<char>) -> SectionV {
    SectionV {
        parent_path: f.parent_path.deep_view(),
        relative_path: section_rel_path(f.parent_path.deep_view()),
        permalink: permalink_of(base, section_logical_path(f.parent_path.deep_view())),
        components: f.parent_path.deep_view().subrange(
            1,
            f.parent_path.deep_view().len() as int,
        ),
        meta: f.front.section_meta_spec(),
        pages: Seq::empty(),
        ignored_pages: Seq::empty(),
        subsections: Seq::empty(),
    }
}

/// Whether the collection holds this very page record.
pub open spec fn seq_has_page(s: Seq<PageV>, p: PageV) -> bool {
    exists|i: int| 0 <= i < s.len() && (#[trigger] s[i]) == p
}

/// Whether the collection holds this very section record.
pub open spec fn seq_has_section(s: Seq<SectionV>, sec: SectionV) -> bool {
    exists|i: int| 0 <= i < s.len() && (#[trigger] s[i]) == sec
}

/// Whether some page carries the identity `rel`.
pub open spec fn pages_have_rel(s: Seq<PageV>, rel: Seq<char>) -> bool {
    exists|i: int| 0 <= i < s.len() && (#[trigger] s[i]).relative_path == rel
}

/// Whether some section carries the identity `rel`.
pub open spec fn sections_have_rel(s: Seq<SectionV>, rel: Seq<char>) -> bool {
    exists|i: int| 0 <= i < s.len() && (#[trigger] s[i]).relative_path == rel
}

/// Whether some live item carries the identity `rel`.
pub open spec fn has_item(rel: Seq<char>, pages: Seq<PageV>, sections: Seq<SectionV>) -> bool {
    pages_have_rel(pages, rel) || sections_have_rel(sections, rel)
}

/// Whether one of the first `j` files is a non-index file denoting `p`.
pub open spec fn page_from_files(p: PageV, files: Seq<ContentFile>, j: int, base: Seq<char>) -> bool {
    exists|jj: int|
        0 <= jj < j && !is_section_file(#[trigger] files[jj]) && p == page_of_file(
            files[jj],
            base,
        )
}

/// Whether the discovered files include the content root's own index file.
pub open spec fn root_file_discovered(files: Seq<ContentFile>) -> bool {
    exists|j: int|
        0 <= j < files.len() && is_section_file(#[trigger] files[j]) && rel_of_file(files[j])
            == index_stem() + md_suffix()
}

/// Whether one of the first `j` files is an index file whose section shell is
/// the shell of `s`.
pub open spec fn section_from_files(
    s: SectionV,
    files: Seq<ContentFile>,
    j: int,
    base: Seq<char>,
) -> bool {
    exists|jj: int|
        0 <= jj < j && is_section_file(#[trigger] files[jj]) && same_shell(
            s,
            section_of_file(files[jj], base),
        )
}

/// The shell of the synthetic root section inserted when the content root has
/// no index file.
pub open spec fn is_root_shell(s: SectionV) -> bool {
    &&& s.parent_path == seq![content_dir()]
    &&& s.meta == (crate::meta::SectionMetaV {
        sort_by: SortBy::Unsorted,
        paginate_by: Option::None,
        paginate_path: Option::None,
        render: true,
        template: Option::None,
    })
}

/// How the collections relate to the discovered files: every page comes from
/// a non-index file, every section from an index file (or it is the synthetic
/// root), and every file's identity is carried by some live item.
pub open spec fn files_to_items_ok(
    files: Seq<ContentFile>,
    pages: Seq<PageV>,
    sections: Seq<SectionV>,
    base: Seq<char>,
) -> bool {
    &&& forall|i: int|
        0 <= i < pages.len() ==> page_from_files(
            #[trigger] pages[i],
            files,
            files.len() as int,
            base,
        )
    &&& forall|k: int|
        0 <= k < sections.len() ==> section_from_files(
            #[trigger] sections[k],
            files,
            files.len() as int,
            base,
        ) || (is_root_shell(#[trigger] sections[k]) && !root_file_discovered(files))
    &&& forall|j: int|
        0 <= j < files.len() ==> has_item(rel_of_file(#[trigger] files[j]), pages, sections)
}

/// How the permalink table relates to the collections: every live item's
/// identity maps to its canonical URL, and nothing else is in the table.
pub open spec fn table_ok(
    t: Map<Seq<char>, Seq<char>>,
    pages: Seq<PageV>,
    sections: Seq<SectionV>,
) -> bool {
    &&& forall|i: int|
        0 <= i < pages.len() ==> t.contains_key((#[trigger] pages[i]).relative_path)
            && t[pages[i].relative_path] == pages[i].permalink
    &&& forall|k: int|
        0 <= k < sections.len() ==> t.contains_key((#[trigger] sections[k]).relative_path)
            && t[sections[k].relative_path] == sections[k].permalink
    &&& forall|key: Seq<char>| t.contains_key(key) ==> has_item(key, pages, sections)
}

/// The index of the page carrying `rel`, if any.
fn find_page_by_rel(pages: &Vec<Page>, rel: &String) -> (r: Option<usize>)
    ensures
        match r {
            Option::Some(i) => i < pages@.len() && pages.deep_view()[i as int].relative_path
                == rel@,
            Option::None => forall|i: int|
                0 <= i < pages@.len() ==> (#[trigger] pages.deep_view()[i]).relative_path != rel@,
        },
{
    let mut i: usize = 0;
    while i < pages.len()
        invariant
            0 <= i <= pages@.len(),
            forall|j: int| 0 <= j < i ==> (#[trigger] pages.deep_view()[j]).relative_path != rel@,
        decreases pages@.len() - i,
    {
        if pages[i].relative_path == *rel {
            proof {
                assert(pages.deep_view()[i as int].relative_path == rel@);
            }
            return Option::Some(i);
        }
        proof {
            assert(pages.deep_view()[i as int].relative_path != rel@);
        }
        i = i + 1;
    }
    Option::None
}

/// The index of the section carrying `rel`, if any.
fn find_section_by_rel(sections: &Vec<Section>, rel: &String) -> (r: Option<usize>)
    ensures
        match r {
            Option::Some(i) => i < sections@.len() && sections.deep_view()[i as int].relative_path
                == rel@,
            Option::None => forall|i: int|
                0 <= i < sections@.len() ==> (#[trigger] sections.deep_view()[i]).relative_path
                    != rel@,
        },
{
    let mut i: usize = 0;
    while i < sections.len()
        invariant
            0 <= i <= sections@.len(),
            forall|j: int|
                0 <= j < i ==> (#[trigger] sections.deep_view()[j]).relative_path != rel@,
        decreases sections@.len() - i,
    {
        if sections[i].relative_path == *rel {
            proof {
                assert(sections.deep_view()[i as int].relative_path == rel@);
            }
            return Option::Some(i);
        }
        proof {
            assert(sections.deep_view()[i as int].relative_path != rel@);
        }
        i = i + 1;
    }
    Option::None
}

/// Replaces the page carrying the new page's identity, or appends it.
fn upsert_page(pages: &mut Vec<Page>, page: Page)
    ensures
        (exists|i: int|
            0 <= i < old(pages)@.len() && (#[trigger] old(pages).deep_view()[i]).relative_path
                == page@.relative_path) ==> exists|i: int|
            0 <= i < old(pages)@.len() && (#[trigger] old(pages).deep_view()[i]).relative_path
                == page@.relative_path && final(pages).deep_view() == old(
                pages,
            ).deep_view().update(i, page@),
        !(exists|i: int|
            0 <= i < old(pages)@.len() && (#[trigger] old(pages).deep_view()[i]).relative_path
                == page@.relative_path) ==> final(pages).deep_view() == old(
            pages,
        ).deep_view().push(page@),
{
    let ghost olds = pages.deep_view();
    match find_page_by_rel(pages, &page.relative_path) {
        Option::Some(i) => {
            let _ = pages.remove(i);
            pages.insert(i, page);
            proof {
                assert(pages.deep_view() =~= olds.update(i as int, pages.deep_view()[i as int]));
            }
        },
        Option::None => {
            pages.push(page);
            proof {
                assert(pages.deep_view() =~= olds.push(
                    pages.deep_view()[olds.len() as int],
                ));
            }
        },
    }
}

/// Replaces the section carrying the new section's identity, or appends it.
fn upsert_section(sections: &mut Vec<Section>, section: Section)
    ensures
        (exists|i: int|
            0 <= i < old(sections)@.len() && (
            #[trigger] old(sections).deep_view()[i]).relative_path == section@.relative_path)
            ==> exists|i: int|
            0 <= i < old(sections)@.len() && (
            #[trigger] old(sections).deep_view()[i]).relative_path == section@.relative_path
                && final(sections).deep_view() == old(sections).deep_view().update(i, section@),
        !(exists|i: int|
            0 <= i < old(sections)@.len() && (
            #[trigger] old(sections).deep_view()[i]).relative_path == section@.relative_path)
            ==> final(sections).deep_view() == old(sections).deep_view().push(section@),
{
    let ghost olds = sections.deep_view();
    match find_section_by_rel(sections, &section.relative_path) {
        Option::Some(i) => {
            let _ = sections.remove(i);
            sections.insert(i, section);
            proof {
                assert(sections.deep_view() =~= olds.update(
                    i as int,
                    sections.deep_view()[i as int],
                ));
            }
        },
        Option::None => {
            sections.push(section);
            proof {
                assert(sections.deep_view() =~= olds.push(
                    sections.deep_view()[olds.len() as int],
                ));
            }
        },
    }
}

/// The reserved index file name.
pub open spec fn index_file_name() -> Seq<char> {
    index_stem() + md_suffix()
}

/// Appending the same suffix to both sides keeps prefixes distinguishable.
proof fn lemma_append_inj(a: Seq<char>, b: Seq<char>, t: Seq<char>)
    requires
        a + t == b + t,
    ensures
        a == b,
{
    assert((a + t).len() == a.len() + t.len());
    assert((b + t).len() == b.len() + t.len());
    assert(a.len() == b.len());
    assert forall|i: int| 0 <= i < a.len() implies a[i] == b[i] by {
        assert((a + t)[i] == a[i]);
        assert((b + t)[i] == b[i]);
    }
    assert(a =~= b);
}

/// No character of the reserved index file name is the separator.
proof fn lemma_index_name_no_sep()
    ensures
        index_file_name().len() == 9,
        forall|i: int| 0 <= i < 9 ==> (#[trigger] index_file_name()[i]) != '/',
{
    assert forall|i: int| 0 <= i < 9 implies (#[trigger] index_file_name()[i]) != '/' by {
        if i < 6 {
            assert(index_file_name()[i] == index_stem()[i]);
            assert(index_stem()[0] == '_');
            assert(index_stem()[1] == 'i');
            assert(index_stem()[2] == 'n');
            assert(index_stem()[3] == 'd');
            assert(index_stem()[4] == 'e');
            assert(index_stem()[5] == 'x');
        } else {
            assert(index_file_name()[i] == md_suffix()[i - 6]);
            assert(md_suffix()[0] == '.');
            assert(md_suffix()[1] == 'm');
            assert(md_suffix()[2] == 'd');
        }
    }
}

/// A joined path of two or more components holds a separator, so it is never
/// the bare index file name.
proof fn lemma_joined_multi_ne_index(s: Seq<Seq<char>>)
    requires
        s.len() >= 2,
    ensures
        joined(s) != index_file_name(),
{
    let p = joined(s.drop_last()).len() as int;
    assert(joined(s) == joined(s.drop_last()) + crate::paths::sep() + s.last());
    assert(joined(s)[p] == '/');
    assert(joined(s).len() == p + 1 + s.last().len());
    lemma_index_name_no_sep();
    if joined(s) == index_file_name() {
        assert(0 <= p < 9);
        assert(index_file_name()[p] != '/');
    }
}

/// A well-formed page never carries the identity of a section index file.
proof fn lemma_page_rel_ne_index(p: PageV, base: Seq<char>)
    requires
        page_wf(p, base),
    ensures
        p.relative_path != index_file_name(),
{
    let comps = p.parent_path.subrange(1, p.parent_path.len() as int).push(
        p.stem + md_suffix(),
    );
    assert(p.relative_path == joined(comps));
    if p.parent_path.len() == 1 {
        assert(comps.len() == 1);
        assert(joined(comps) == comps[0]);
        assert(comps[0] == p.stem + md_suffix());
        if p.relative_path == index_file_name() {
            lemma_append_inj(p.stem, index_stem(), md_suffix());
            assert(false);
        }
    } else {
        assert(comps.len() >= 2);
        lemma_joined_multi_ne_index(comps);
    }
}

/// Removing one page keeps the others, their order and their distinctness,
/// and leaves no page with the removed identity.
proof fn lemma_page_removed(oldp: Seq<PageV>, newp: Seq<PageV>, i: int)
    requires
        0 <= i < oldp.len(),
        newp == oldp.remove(i),
        forall|a: int, b: int|
            0 <= a < b < oldp.len() ==> (#[trigger] oldp[a]).relative_path != (
            #[trigger] oldp[b]).relative_path,
    ensures
        newp.len() == oldp.len() - 1,
        forall|a: int| 0 <= a < newp.len() ==> seq_has_page(oldp, #[trigger] newp[a]),
        forall|b: int|
            0 <= b < oldp.len() && (#[trigger] oldp[b]).relative_path
                != oldp[i].relative_path ==> pages_have_rel(newp, oldp[b].relative_path),
        forall|a: int, b: int|
            0 <= a < b < newp.len() ==> (#[trigger] newp[a]).relative_path != (
            #[trigger] newp[b]).relative_path,
        forall|a: int|
            0 <= a < newp.len() ==> (#[trigger] newp[a]).relative_path != oldp[i].relative_path,
{
    oldp.remove_ensures(i);
    assert forall|a: int| 0 <= a < newp.len() implies seq_has_page(oldp, #[trigger] newp[a]) by {
        if a < i {
            assert(oldp[a] == newp[a]);
        } else {
            assert(oldp[a + 1] == newp[a]);
        }
    }
    assert forall|b: int|
        0 <= b < oldp.len() && (#[trigger] oldp[b]).relative_path
            != oldp[i].relative_path implies pages_have_rel(newp, oldp[b].relative_path) by {
        if b < i {
            assert(newp[b] == oldp[b]);
            assert(newp[b].relative_path == oldp[b].relative_path);
        } else {
            assert(b != i);
            assert(newp[b - 1] == oldp[b]);
            assert(newp[b - 1].relative_path == oldp[b].relative_path);
        }
    }
    assert forall|a: int, b: int| 0 <= a < b < newp.len() implies (
    #[trigger] newp[a]).relative_path != (#[trigger] newp[b]).relative_path by {
        let a2 = if a < i {
            a
        } else {
            a + 1
        };
        let b2 = if b < i {
            b
        } else {
            b + 1
        };
        assert(newp[a] == oldp[a2] && newp[b] == oldp[b2]);
    }
    assert forall|a: int| 0 <= a < newp.len() implies (#[trigger] newp[a]).relative_path
        != oldp[i].relative_path by {
        if a < i {
            assert(newp[a] == oldp[a]);
        } else {
            assert(newp[a] == oldp[a + 1]);
        }
    }
}

/// Removing one section keeps the others, their order and their distinctness,
/// and leaves no section with the removed identity.
proof fn lemma_section_removed(olds: Seq<SectionV>, news: Seq<SectionV>, i: int)
    requires
        0 <= i < olds.len(),
        news == olds.remove(i),
        forall|a: int, b: int|
            0 <= a < b < olds.len() ==> (#[trigger] olds[a]).relative_path != (
            #[trigger] olds[b]).relative_path,
    ensures
        news.len() == olds.len() - 1,
        forall|a: int| 0 <= a < news.len() ==> seq_has_section(olds, #[trigger] news[a]),
        forall|b: int|
            0 <= b < olds.len() && (#[trigger] olds[b]).relative_path
                != olds[i].relative_path ==> sections_have_rel(news, olds[b].relative_path),
        forall|a: int, b: int|
            0 <= a < b < news.len() ==> (#[trigger] news[a]).relative_path != (
            #[trigger] news[b]).relative_path,
        forall|a: int|
            0 <= a < news.len() ==> (#[trigger] news[a]).relative_path != olds[i].relative_path,
{
    olds.remove_ensures(i);
    assert forall|a: int| 0 <= a < news.len() implies seq_has_section(olds, #[trigger] news[a]) by {
        if a < i {
            assert(olds[a] == news[a]);
        } else {
            assert(olds[a + 1] == news[a]);
        }
    }
    assert forall|b: int|
        0 <= b < olds.len() && (#[trigger] olds[b]).relative_path
            != olds[i].relative_path implies sections_have_rel(news, olds[b].relative_path) by {
        if b < i {
            assert(news[b] == olds[b]);
            assert(news[b].relative_path == olds[b].relative_path);
        } else {
            assert(b != i);
            assert(news[b - 1] == olds[b]);
            assert(news[b - 1].relative_path == olds[b].relative_path);
        }
    }
    assert forall|a: int, b: int| 0 <= a < b < news.len() implies (
    #[trigger] news[a]).relative_path != (#[trigger] news[b]).relative_path by {
        let a2 = if a < i {
            a
        } else {
            a + 1
        };
        let b2 = if b < i {
            b
        } else {
            b + 1
        };
        assert(news[a] == olds[a2] && news[b] == olds[b2]);
    }
    assert forall|a: int| 0 <= a < news.len() implies (#[trigger] news[a]).relative_path
        != olds[i].relative_path by {
        if a < i {
            assert(news[a] == olds[a]);
        } else {
            assert(news[a] == olds[a + 1]);
        }
    }
}

/// After replacing or appending a page, the collection holds the new page,
/// keeps every identity, and stays distinct.
proof fn lemma_after_upsert_page(oldp: Seq<PageV>, newp: Seq<PageV>, p: PageV, mids: Seq<SectionV>)
    requires
        (exists|i: int|
            0 <= i < oldp.len() && (#[trigger] oldp[i]).relative_path == p.relative_path && newp
                == oldp.update(i, p)) || ((forall|i: int|
            0 <= i < oldp.len() ==> (#[trigger] oldp[i]).relative_path != p.relative_path) && newp
            == oldp.push(p)),
        forall|a: int, b: int|
            0 <= a < b < oldp.len() ==> (#[trigger] oldp[a]).relative_path != (
            #[trigger] oldp[b]).relative_path,
        forall|k: int|
            0 <= k < mids.len() ==> (#[trigger] mids[k]).relative_path != p.relative_path,
        forall|a: int, k: int|
            0 <= a < oldp.len() && 0 <= k < mids.len() ==> (#[trigger] oldp[a]).relative_path != (
            #[trigger] mids[k]).relative_path,
    ensures
        forall|a: int|
            0 <= a < newp.len() ==> seq_has_page(oldp, #[trigger] newp[a]) || newp[a] == p,
        pages_have_rel(newp, p.relative_path),
        forall|b: int|
            0 <= b < oldp.len() ==> pages_have_rel(newp, (#[trigger] oldp[b]).relative_path),
        forall|a: int, b: int|
            0 <= a < b < newp.len() ==> (#[trigger] newp[a]).relative_path != (
            #[trigger] newp[b]).relative_path,
        forall|a: int, k: int|
            0 <= a < newp.len() && 0 <= k < mids.len() ==> (#[trigger] newp[a]).relative_path != (
            #[trigger] mids[k]).relative_path,
{
    if exists|i: int|
        0 <= i < oldp.len() && (#[trigger] oldp[i]).relative_path == p.relative_path && newp
            == oldp.update(i, p) {
        let i = choose|i: int|
            0 <= i < oldp.len() && (#[trigger] oldp[i]).relative_path == p.relative_path && newp
                == oldp.update(i, p);
        assert(newp[i] == p);
        assert forall|a: int| 0 <= a < newp.len() implies seq_has_page(oldp, #[trigger] newp[a])
            || newp[a] == p by {
            if a != i {
                assert(oldp[a] == newp[a]);
            }
        }
        assert(newp[i].relative_path == p.relative_path);
        assert forall|b: int| 0 <= b < oldp.len() implies pages_have_rel(
            newp,
            (#[trigger] oldp[b]).relative_path,
        ) by {
            if b == i {
                assert(newp[i].relative_path == oldp[b].relative_path);
            } else {
                assert(newp[b] == oldp[b]);
                assert(newp[b].relative_path == oldp[b].relative_path);
            }
        }
        assert forall|a: int, b: int| 0 <= a < b < newp.len() implies (
        #[trigger] newp[a]).relative_path != (#[trigger] newp[b]).relative_path by {
            if a != i && b != i {
                assert(newp[a] == oldp[a] && newp[b] == oldp[b]);
            } else if a == i {
                assert(newp[b] == oldp[b] && oldp[i].relative_path == p.relative_path);
            } else {
                assert(newp[a] == oldp[a] && oldp[i].relative_path == p.relative_path);
            }
        }
        assert forall|a: int, k: int|
            0 <= a < newp.len() && 0 <= k < mids.len() implies (
        #[trigger] newp[a]).relative_path != (#[trigger] mids[k]).relative_path by {
            if a != i {
                assert(newp[a] == oldp[a]);
            }
        }
    } else {
        assert(newp == oldp.push(p));
        assert(newp[oldp.len() as int] == p);
        assert forall|a: int| 0 <= a < newp.len() implies seq_has_page(oldp, #[trigger] newp[a])
            || newp[a] == p by {
            if a < oldp.len() {
                assert(oldp[a] == newp[a]);
            }
        }
        assert(newp[oldp.len() as int].relative_path == p.relative_path);
        assert forall|b: int| 0 <= b < oldp.len() implies pages_have_rel(
            newp,
            (#[trigger] oldp[b]).relative_path,
        ) by {
            assert(newp[b] == oldp[b]);
            assert(newp[b].relative_path == oldp[b].relative_path);
        }
        assert forall|a: int, b: int| 0 <= a < b < newp.len() implies (
        #[trigger] newp[a]).relative_path != (#[trigger] newp[b]).relative_path by {
            if b < oldp.len() {
                assert(newp[a] == oldp[a] && newp[b] == oldp[b]);
            } else {
                assert(newp[a] == oldp[a] && newp[b] == p);
            }
        }
        assert forall|a: int, k: int|
            0 <= a < newp.len() && 0 <= k < mids.len() implies (
        #[trigger] newp[a]).relative_path != (#[trigger] mids[k]).relative_path by {
            if a < oldp.len() {
                assert(newp[a] == oldp[a]);
            } else {
                assert(newp[a] == p);
            }
        }
    }
}

/// After replacing or appending a section, the collection holds the new
/// section, keeps every identity, and stays distinct.
proof fn lemma_after_upsert_section(
    olds: Seq<SectionV>,
    news: Seq<SectionV>,
    s: SectionV,
    midp: Seq<PageV>,
)
    requires
        (exists|i: int|
            0 <= i < olds.len() && (#[trigger] olds[i]).relative_path == s.relative_path && news
                == olds.update(i, s)) || ((forall|i: int|
            0 <= i < olds.len() ==> (#[trigger] olds[i]).relative_path != s.relative_path) && news
            == olds.push(s)),
        forall|a: int, b: int|
            0 <= a < b < olds.len() ==> (#[trigger] olds[a]).relative_path != (
            #[trigger] olds[b]).relative_path,
        forall|k: int|
            0 <= k < midp.len() ==> (#[trigger] midp[k]).relative_path != s.relative_path,
        forall|a: int, k: int|
            0 <= a < midp.len() && 0 <= k < olds.len() ==> (#[trigger] midp[a]).relative_path != (
            #[trigger] olds[k]).relative_path,
    ensures
        forall|a: int|
            0 <= a < news.len() ==> seq_has_section(olds, #[trigger] news[a]) || news[a] == s,
        sections_have_rel(news, s.relative_path),
        forall|b: int|
            0 <= b < olds.len() ==> sections_have_rel(news, (#[trigger] olds[b]).relative_path),
        forall|a: int, b: int|
            0 <= a < b < news.len() ==> (#[trigger] news[a]).relative_path != (
            #[trigger] news[b]).relative_path,
        forall|a: int, k: int|
            0 <= a < midp.len() && 0 <= k < news.len() ==> (#[trigger] midp[a]).relative_path != (
            #[trigger] news[k]).relative_path,
{
    if exists|i: int|
        0 <= i < olds.len() && (#[trigger] olds[i]).relative_path == s.relative_path && news
            == olds.update(i, s) {
        let i = choose|i: int|
            0 <= i < olds.len() && (#[trigger] olds[i]).relative_path == s.relative_path && news
                == olds.update(i, s);
        assert(news[i] == s);
        assert forall|a: int| 0 <= a < news.len() implies seq_has_section(olds, #[trigger] news[a])
            || news[a] == s by {
            if a != i {
                assert(olds[a] == news[a]);
            }
        }
        assert(news[i].relative_path == s.relative_path);
        assert forall|b: int| 0 <= b < olds.len() implies sections_have_rel(
            news,
            (#[trigger] olds[b]).relative_path,
        ) by {
            if b == i {
                assert(news[i].relative_path == olds[b].relative_path);
            } else {
                assert(news[b] == olds[b]);
                assert(news[b].relative_path == olds[b].relative_path);
            }
        }
        assert forall|a: int, b: int| 0 <= a < b < news.len() implies (
        #[trigger] news[a]).relative_path != (#[trigger] news[b]).relative_path by {
            if a != i && b != i {
                assert(news[a] == olds[a] && news[b] == olds[b]);
            } else if a == i {
                assert(news[b] == olds[b] && olds[i].relative_path == s.relative_path);
            } else {
                assert(news[a] == olds[a] && olds[i].relative_path == s.relative_path);
            }
        }
        assert forall|a: int, k: int|
            0 <= a < midp.len() && 0 <= k < news.len() implies (
        #[trigger] midp[a]).relative_path != (#[trigger] news[k]).relative_path by {
            if k != i {
                assert(news[k] == olds[k]);
            }
        }
    } else {
        assert(news == olds.push(s));
        assert(news[olds.len() as int] == s);
        assert forall|a: int| 0 <= a < news.len() implies seq_has_section(olds, #[trigger] news[a])
            || news[a] == s by {
            if a < olds.len() {
                assert(olds[a] == news[a]);
            }
        }
        assert(news[olds.len() as int].relative_path == s.relative_path);
        assert forall|b: int| 0 <= b < olds.len() implies sections_have_rel(
            news,
            (#[trigger] olds[b]).relative_path,
        ) by {
            assert(news[b] == olds[b]);
            assert(news[b].relative_path == olds[b].relative_path);
        }
        assert forall|a: int, b: int| 0 <= a < b < news.len() implies (
        #[trigger] news[a]).relative_path != (#[trigger] news[b]).relative_path by {
            if b < olds.len() {
                assert(news[a] == olds[a] && news[b] == olds[b]);
            } else {
                assert(news[a] == olds[a] && news[b] == s);
            }
        }
        assert forall|a: int, k: int|
            0 <= a < midp.len() && 0 <= k < news.len() implies (
        #[trigger] midp[a]).relative_path != (#[trigger] news[k]).relative_path by {
            if k < olds.len() {
                assert(news[k] == olds[k]);
            } else {
                assert(news[k] == s);
            }
        }
    }
}


/// Sorting the children, linking them, and taking the ignored rest gives a
/// section whose derived lists are consistent.
proof fn lemma_section_built(
    newsec: SectionV,
    shell: SectionV,
    allp: Seq<PageV>,
    oldsec: Seq<SectionV>,
    sorted: Seq<PageV>,
    linked: Seq<PageV>,
    base: Seq<char>,
    m: SortBy,
)
    requires
        forall|i: int| 0 <= i < allp.len() ==> page_wf(#[trigger] allp[i], base),
        m == shell.meta.sort_by,
        m == SortBy::Unsorted ==> sorted == child_pages(allp, shell.parent_path)
            && newsec.ignored_pages.len() == 0,
        m != SortBy::Unsorted ==> all_keyed(sorted, m) && sorted_by(sorted, m)
            && sorted.to_multiset() == keyed(child_pages(allp, shell.parent_path), m).to_multiset()
            && newsec.ignored_pages == keyless(child_pages(allp, shell.parent_path), m),
        linked.len() == sorted.len(),
        forall|i: int| 0 <= i < linked.len() ==> same_but_links(#[trigger] linked[i], sorted[i]),
        linked_chain(linked),
        same_shell(newsec, shell),
        newsec.pages == linked,
        newsec.subsections == subsection_paths(oldsec, shell.parent_path),
    ensures
        section_lists_ok(newsec, allp, oldsec),
{
    reveal(section_lists_ok);
    let children = child_pages(allp, shell.parent_path);
    lemma_child_pages_wf(allp, shell.parent_path, base);
    assert(forall|i: int|
        0 <= i < children.len() ==> (#[trigger] children[i]).previous is None
            && children[i].next is None);
    if m == SortBy::Unsorted {
        assert(forall|i: int|
            0 <= i < linked.len() ==> same_but_links(#[trigger] linked[i], children[i]));
    } else {
        assert forall|i: int| 0 <= i < linked.len() implies (#[trigger] crate::page::sort_key(
            linked[i],
            m,
        )) == crate::page::sort_key(sorted[i], m) by {
            assert(linked[i].meta == sorted[i].meta);
        }
        assert(all_keyed(linked, m));
        assert forall|i: int, j: int| 0 <= i < j < linked.len() implies crate::page::key_le(
            m,
            #[trigger] crate::page::key_of(linked[i], m),
            #[trigger] crate::page::key_of(linked[j], m),
        ) by {
            assert(crate::page::key_le(
                m,
                crate::page::key_of(sorted[i], m),
                crate::page::key_of(sorted[j], m),
            ));
        }
        assert(sorted_by(linked, m));
        lemma_keyed_unlinked(children, m);
        lemma_ms_unlinked(sorted, keyed(children, m));
        lemma_strip_of_same(linked, sorted);
        lemma_strip_of_unlinked(sorted);
        assert(strip_links_all(linked).to_multiset() == keyed(children, m).to_multiset());
    }
}

/// Child pages inherit well-formedness from the collection.
proof fn lemma_child_pages_wf(pages: Seq<PageV>, dir: Seq<Seq<char>>, base: Seq<char>)
    requires
        forall|i: int| 0 <= i < pages.len() ==> page_wf(#[trigger] pages[i], base),
    ensures
        forall|i: int|
            0 <= i < child_pages(pages, dir).len() ==> page_wf(
                #[trigger] child_pages(pages, dir)[i],
                base,
            ),
    decreases pages.len(),
{
    if pages.len() > 0 {
        assert(forall|i: int|
            0 <= i < pages.drop_last().len() ==> page_wf(#[trigger] pages.drop_last()[i], base));
        lemma_child_pages_wf(pages.drop_last(), dir, base);
        let c = child_pages(pages, dir);
        let rest = child_pages(pages.drop_last(), dir);
        assert(page_wf(pages[pages.len() - 1], base));
        assert forall|i: int| 0 <= i < c.len() implies page_wf(c[i], base) by {
            if pages.last().parent_path == dir {
                if i < rest.len() {
                    assert(c[i] == rest[i]);
                } else {
                    assert(c[i] == pages.last());
                }
            } else {
                assert(c[i] == rest[i]);
            }
        }
    }
}

/// The keyed subsequence of an unlinked list stays unlinked.
proof fn lemma_keyed_unlinked(s: Seq<PageV>, m: SortBy)
    requires
        forall|i: int|
            0 <= i < s.len() ==> (#[trigger] s[i]).previous is None && s[i].next is None,
    ensures
        forall|i: int|
            0 <= i < keyed(s, m).len() ==> (#[trigger] keyed(s, m)[i]).previous is None && keyed(
                s,
                m,
            )[i].next is None,
    decreases s.len(),
{
    if s.len() > 0 {
        assert(forall|i: int|
            0 <= i < s.drop_last().len() ==> (#[trigger] s.drop_last()[i]).previous is None
                && s.drop_last()[i].next is None);
        lemma_keyed_unlinked(s.drop_last(), m);
        let c = keyed(s, m);
        let rest = keyed(s.drop_last(), m);
        assert(s[s.len() - 1].previous is None && s[s.len() - 1].next is None);
        assert forall|i: int| 0 <= i < c.len() implies (#[trigger] c[i]).previous is None
            && c[i].next is None by {
            if crate::page::sort_key(s.last(), m) is Some {
                if i < rest.len() {
                    assert(c[i] == rest[i]);
                } else {
                    assert(c[i] == s.last());
                }
            } else {
                assert(c[i] == rest[i]);
            }
        }
    }
}

/// Stripping links from two pointwise link-equivalent lists gives equal lists.
proof fn lemma_strip_of_same(a: Seq<PageV>, b: Seq<PageV>)
    requires
        a.len() == b.len(),
        forall|i: int| 0 <= i < a.len() ==> same_but_links(#[trigger] a[i], b[i]),
    ensures
        strip_links_all(a) == strip_links_all(b),
{
    assert(strip_links_all(a) =~= strip_links_all(b));
}

/// Stripping links from an unlinked list changes nothing.
proof fn lemma_strip_of_unlinked(s: Seq<PageV>)
    requires
        forall|i: int|
            0 <= i < s.len() ==> (#[trigger] s[i]).previous is None && s[i].next is None,
    ensures
        strip_links_all(s) == s,
{
    assert(strip_links_all(s) =~= s);
}

/// A list multiset-equal to an unlinked list is unlinked itself.
proof fn lemma_ms_unlinked(a: Seq<PageV>, b: Seq<PageV>)
    requires
        a.to_multiset() == b.to_multiset(),
        forall|i: int|
            0 <= i < b.len() ==> (#[trigger] b[i]).previous is None && b[i].next is None,
    ensures
        forall|i: int|
            0 <= i < a.len() ==> (#[trigger] a[i]).previous is None && a[i].next is None,
{
    broadcast use vstd::seq_lib::group_to_multiset_ensures;

    assert forall|i: int| 0 <= i < a.len() implies (#[trigger] a[i]).previous is None
        && a[i].next is None by {
        assert(a.contains(a[i]));
        assert(a.to_multiset().count(a[i]) > 0);
        assert(b.to_multiset().count(a[i]) > 0);
        assert(b.contains(a[i]));
        let j = choose|j: int| 0 <= j < b.len() && b[j] == a[i];
        assert(b[j].previous is None && b[j].next is None);
    }
}

/// Two section lists agreeing on paths and identities yield the same
/// subsection lists.
proof fn lemma_subsection_paths_congruent(s1: Seq<SectionV>, s2: Seq<SectionV>, dir: Seq<Seq<char>>)
    requires
        s1.len() == s2.len(),
        forall|k: int|
            0 <= k < s1.len() ==> (#[trigger] s1[k]).parent_path == s2[k].parent_path
                && s1[k].relative_path == s2[k].relative_path,
    ensures
        subsection_paths(s1, dir) == subsection_paths(s2, dir),
    decreases s1.len(),
{
    if s1.len() > 0 {
        assert(forall|k: int|
            0 <= k < s1.drop_last().len() ==> (#[trigger] s1.drop_last()[k]).parent_path
                == s2.drop_last()[k].parent_path && s1.drop_last()[k].relative_path
                == s2.drop_last()[k].relative_path);
        lemma_subsection_paths_congruent(s1.drop_last(), s2.drop_last(), dir);
        assert(s1.last().parent_path == s2.last().parent_path);
        assert(s1.last().relative_path == s2.last().relative_path);
    }
}

} // verus!
