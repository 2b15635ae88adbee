//! The site configuration options that the graph engine reads.

use crate::paths::sep;
use vstd::prelude::*;
use vstd::string::StringExecFns;

verus! {

/// The canonical URL of an item: the base URL joined with its logical path,
/// with a trailing slash.
pub open spec fn permalink_of(base: Seq<char>, logical: Seq<char>) -> Seq<char> {
    if logical.len() == 0 {
        base + sep()
    } else {
        base + sep() + logical + sep()
    }
}

/// The configuration options the engine recognizes.
pub struct Config {
    /// The URL every permalink starts with, without a trailing slash.
    pub base_url: String,
    /// Whether an RSS feed is generated.
    pub generate_rss: bool,
    /// Whether per-tag list pages are generated.
    pub generate_tags_pages: bool,
    /// Whether per-category list pages are generated.
    pub generate_categories_pages: bool,
    /// The default page size for paginated sections.
    pub paginate_by: Option<usize>,
}

impl Config {
    /// A configuration with the given base URL and list pages switched off.
    pub fn new(base_url: String) -> (r: Config)
        ensures
            r.base_url@ == base_url@,
            !r.generate_rss,
            !r.generate_tags_pages,
            !r.generate_categories_pages,
            r.paginate_by is None,
    {
        Config {
            base_url,
            generate_rss: false,
            generate_tags_pages: false,
            generate_categories_pages: false,
            paginate_by: Option::None,
        }
    }

    /// The canonical URL for the given logical path.
    pub fn make_permalink(&self, path: &str) -> (r: String)
        ensures
            r@ == permalink_of(self.base_url@, path@),
    {
        let mut r = self.base_url.clone();
        r.append("/");
        proof {
            reveal_strlit("/");
            assert(("/")@ =~= sep());
        }
        if !path.is_empty() {
            r.append(path);
            r.append("/");
        }
        r
    }

    /// A copy of the configuration.
    pub fn duplicate(&self) -> (r: Config)
        ensures
            r.base_url@ == self.base_url@,
            r.generate_rss == self.generate_rss,
            r.generate_tags_pages == self.generate_tags_pages,
            r.generate_categories_pages == self.generate_categories_pages,
            r.paginate_by == self.paginate_by,
    {
        Config {
            base_url: self.base_url.clone(),
            generate_rss: self.generate_rss,
            generate_tags_pages: self.generate_tags_pages,
            generate_categories_pages: self.generate_categories_pages,
            paginate_by: self.paginate_by,
        }
    }
}

} // verus!
