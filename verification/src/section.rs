//! Sections: the containers the hierarchy is made of.

use crate::config::{permalink_of, Config};
use crate::meta::{clone_string_vec, SectionMeta, SectionMetaV};
use crate::page::{clone_page_vec, Page, PageV};
use crate::paths::{
    clone_comps, index_stem, join_comps, md_suffix, section_logical_path, section_rel_path,
};
use vstd::prelude::*;

verus! {

/// A section, seen from specifications.
pub ghost struct SectionV {
    pub parent_path: Seq<Seq<char>>,
    pub relative_path: Seq<char>,
    pub permalink: Seq<char>,
    pub components: Seq<Seq<char>>,
    pub meta: SectionMetaV,
    pub pages: Seq<PageV>,
    pub ignored_pages: Seq<PageV>,
    pub subsections: Seq<Seq<char>>,
}

/// A section: the content item made from a reserved `_index.md` file.
pub struct Section {
    /// The components of the directory holding the index file, root first.
    pub parent_path: Vec<String>,
    /// The index file's path relative to the content root; the identity.
    pub relative_path: String,
    /// The canonical output URL.
    pub permalink: String,
    /// The logical output path components, below the content root.
    pub components: Vec<String>,
    pub meta: SectionMeta,
    /// The ordered direct child pages, after sorting.
    pub pages: Vec<Page>,
    /// The direct child pages lacking the key the sort mode needs.
    pub ignored_pages: Vec<Page>,
    /// The identities of the direct child sections.
    pub subsections: Vec<String>,
}

impl View for Section {
    type V = SectionV;

    open spec fn view(&self) -> SectionV {
        SectionV {
            parent_path: self.parent_path.deep_view(),
            relative_path: self.relative_path@,
            permalink: self.permalink@,
            components: self.components.deep_view(),
            meta: self.meta@,
            pages: self.pages.deep_view(),
            ignored_pages: self.ignored_pages.deep_view(),
            subsections: self.subsections.deep_view(),
        }
    }
}

impl DeepView for Section {
    type V = SectionV;

    open spec fn deep_view(&self) -> SectionV {
        self.view()
    }
}

impl Section {
    /// Builds a section record with empty child lists; the relative path and
    /// the permalink are derived from the directory components.
    pub fn new(parent_path: Vec<String>, meta: SectionMeta, config: &Config) -> (s: Section)
        requires
            parent_path@.len() >= 1,
        ensures
            s@ == (SectionV {
                parent_path: parent_path.deep_view(),
                relative_path: section_rel_path(parent_path.deep_view()),
                permalink: permalink_of(
                    config.base_url@,
                    section_logical_path(parent_path.deep_view()),
                ),
                components: parent_path.deep_view().subrange(
                    1,
                    parent_path.deep_view().len() as int,
                ),
                meta: meta@,
                pages: Seq::<PageV>::empty(),
                ignored_pages: Seq::<PageV>::empty(),
                subsections: Seq::<Seq<char>>::empty(),
            }),
    {
        let ghost dir = parent_path.deep_view();
        let name: String = "_index.md".to_owned();
        proof {
            reveal_strlit("_index.md");
            assert(("_index.md")@ =~= index_stem() + md_suffix());
        }
        let mut comps = clone_comps(&parent_path);
        comps.push(name);
        let relative_path = join_comps(&comps, 1);
        proof {
            assert(comps.deep_view() =~= dir.push(index_stem() + md_suffix()));
            assert(comps.deep_view().subrange(1, comps.deep_view().len() as int) =~= dir.subrange(
                1,
                dir.len() as int,
            ).push(index_stem() + md_suffix()));
        }
        let logical = join_comps(&parent_path, 1);
        let permalink = config.make_permalink(logical.as_str());
        let mut components = clone_comps(&parent_path);
        let first = components.remove(0);
        proof {
            assert(components.deep_view() =~= dir.subrange(1, dir.len() as int));
        }
        let _ = first;
        let empty_pages: Vec<Page> = Vec::new();
        let empty_ignored: Vec<Page> = Vec::new();
        let empty_subs: Vec<String> = Vec::new();
        proof {
            assert(empty_pages.deep_view() =~= Seq::<PageV>::empty());
            assert(empty_ignored.deep_view() =~= Seq::<PageV>::empty());
            assert(empty_subs.deep_view() =~= Seq::<Seq<char>>::empty());
        }
        Section {
            parent_path,
            relative_path,
            permalink,
            components,
            meta,
            pages: empty_pages,
            ignored_pages: empty_ignored,
            subsections: empty_subs,
        }
    }

    /// A copy of the section record.
    pub fn duplicate(&self) -> (r: Section)
        ensures
            r@ == self@,
    {
        Section {
            parent_path: clone_comps(&self.parent_path),
            relative_path: self.relative_path.clone(),
            permalink: self.permalink.clone(),
            components: clone_comps(&self.components),
            meta: self.meta.duplicate(),
            pages: clone_page_vec(&self.pages),
            ignored_pages: clone_page_vec(&self.ignored_pages),
            subsections: clone_string_vec(&self.subsections),
        }
    }
}

} // verus!
