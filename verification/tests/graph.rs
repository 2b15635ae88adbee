use site::config::Config;
use site::index::{sorted_list_items, Buckets, ListItem};
use site::meta::{FrontMatter, SortBy};
use site::page::{populate_previous_and_next_pages, sort_pages, Page};
use site::pagination::Paginator;
use site::section::Section;
use site::site::{feed_pages, Action, Change, ContentFile, Site};

fn file(dir: &[&str], stem: &str, front: FrontMatter) -> ContentFile {
    ContentFile {
        parent_path: dir.iter().map(|c| c.to_string()).collect(),
        stem: stem.to_string(),
        front,
        assets: Vec::new(),
    }
}

fn page_front(title: &str, date: Option<u64>) -> FrontMatter {
    let mut f = FrontMatter::empty();
    f.title = Some(title.to_string());
    f.date = date;
    f
}

fn new_site() -> Site {
    Site::new("/srv/demo".to_string(), Config::new("https://example.org".to_string()))
}

#[test]
fn date_sort_puts_dateless_pages_in_ignored() {
    // The content root has an index with date sorting, a page without a date
    // and a page with one: the dated page is ordered, the other ignored.
    let mut root_front = FrontMatter::empty();
    root_front.sort_by = SortBy::Date;
    let files = vec![
        file(&["content"], "_index", root_front),
        file(&["content"], "a", page_front("A", None)),
        file(&["content"], "b", page_front("B", Some(18262))),
    ];
    let mut s = new_site();
    s.load(files).unwrap();
    let root: &Section = s
        .sections
        .iter()
        .find(|sec| sec.relative_path == "_index.md")
        .unwrap();
    assert_eq!(root.pages.len(), 1);
    assert_eq!(root.pages[0].stem, "b");
    assert_eq!(root.ignored_pages.len(), 1);
    assert_eq!(root.ignored_pages[0].stem, "a");
    assert_eq!(s.get_ignored_pages(), vec!["a.md".to_string()]);
}

#[test]
fn unsorted_sections_keep_discovery_order() {
    let files = vec![
        file(&["content"], "_index", FrontMatter::empty()),
        file(&["content"], "z", page_front("Z", None)),
        file(&["content"], "a", page_front("A", None)),
        file(&["content"], "m", page_front("M", None)),
    ];
    let mut s = new_site();
    s.load(files).unwrap();
    let root = s.sections.iter().find(|sec| sec.relative_path == "_index.md").unwrap();
    let stems: Vec<&str> = root.pages.iter().map(|p| p.stem.as_str()).collect();
    assert_eq!(stems, vec!["z", "a", "m"]);
    assert!(root.ignored_pages.is_empty());
}

#[test]
fn previous_and_next_form_a_chain() {
    let files = vec![
        file(&["content"], "_index", FrontMatter::empty()),
        file(&["content"], "one", page_front("1", None)),
        file(&["content"], "two", page_front("2", None)),
        file(&["content"], "three", page_front("3", None)),
    ];
    let mut s = new_site();
    s.load(files).unwrap();
    let root = s.sections.iter().find(|sec| sec.relative_path == "_index.md").unwrap();
    assert_eq!(root.pages[0].previous, None);
    assert_eq!(root.pages[0].next, Some("two.md".to_string()));
    assert_eq!(root.pages[1].previous, Some("one.md".to_string()));
    assert_eq!(root.pages[1].next, Some("three.md".to_string()));
    assert_eq!(root.pages[2].previous, Some("two.md".to_string()));
    assert_eq!(root.pages[2].next, None);
}

#[test]
fn chain_holds_after_a_standalone_sort() {
    let mut a = page_front("A", Some(3));
    a.title = Some("A".to_string());
    let cfg = Config::new("https://example.org".to_string());
    let pages = vec![
        Page::new(
            vec!["content".to_string()],
            "a".to_string(),
            page_front("A", Some(3)).to_page_meta(),
            Vec::new(),
            &cfg,
        ),
        Page::new(
            vec!["content".to_string()],
            "b".to_string(),
            page_front("B", Some(9)).to_page_meta(),
            Vec::new(),
            &cfg,
        ),
    ];
    let _ = a;
    let (sorted, ignored) = sort_pages(pages, SortBy::Date);
    assert!(ignored.is_empty());
    // Date sorting is descending: the later date comes first.
    assert_eq!(sorted[0].stem, "b");
    let linked = populate_previous_and_next_pages(&sorted);
    assert_eq!(linked[0].next, Some("a.md".to_string()));
    assert_eq!(linked[1].previous, Some("b.md".to_string()));
}

#[test]
fn permalink_table_round_trip() {
    let files = vec![
        file(&["content"], "_index", FrontMatter::empty()),
        file(&["content", "posts"], "hello", page_front("Hello", None)),
    ];
    let mut s = new_site();
    s.load(files).unwrap();
    let key = "posts/hello.md".to_string();
    assert_eq!(
        s.permalinks.get(&key),
        Some("https://example.org/posts/hello/".to_string())
    );
    assert_eq!(
        s.permalinks.get(&"_index.md".to_string()),
        Some("https://example.org/".to_string())
    );
    // Deleting the item removes exactly its key.
    let action = s.apply_content_change(Change::Removed(key.clone())).unwrap();
    assert!(matches!(action, Action::FullRebuild));
    assert!(!s.permalinks.contains(&key));
}

#[test]
fn index_rebuild_is_idempotent() {
    let mut tagged = page_front("T", None);
    tagged.tags = Some(vec!["x".to_string(), "y".to_string()]);
    let files = vec![
        file(&["content"], "_index", FrontMatter::empty()),
        file(&["content"], "t", tagged),
    ];
    let mut s = new_site();
    s.load(files).unwrap();
    let first: Vec<(String, Vec<String>)> = s.tags.entries.clone();
    s.populate_tags_and_categories();
    assert_eq!(s.tags.entries, first);
}

#[test]
fn deleting_the_only_tagged_page_drops_the_tag_key() {
    // The page lives in a directory without an index file, so it is an orphan.
    let mut tagged = page_front("T", None);
    tagged.tags = Some(vec!["x".to_string()]);
    let files = vec![
        file(&["content"], "_index", FrontMatter::empty()),
        file(&["content", "notes"], "t", tagged),
    ];
    let mut s = new_site();
    s.load(files).unwrap();
    assert!(s.tags.entries.iter().any(|(k, _)| k == "x"));
    let orphans = s.get_all_orphan_pages();
    assert_eq!(orphans.len(), 1);
    assert_eq!(orphans[0].relative_path, "notes/t.md");
    s.apply_content_change(Change::Removed("notes/t.md".to_string())).unwrap();
    assert!(s.tags.entries.iter().all(|(k, _)| k != "x"));
    assert!(s.get_all_orphan_pages().is_empty());
}

#[test]
fn category_change_takes_the_expensive_path_and_reindexes() {
    let files = vec![
        file(&["content"], "_index", FrontMatter::empty()),
        file(&["content"], "a", page_front("A", None)),
    ];
    let mut s = new_site();
    s.load(files).unwrap();
    assert!(s.categories.entries.is_empty());
    let mut changed = page_front("A", None);
    changed.category = Some("news".to_string());
    let action = s
        .apply_content_change(Change::PageUpdated(file(&["content"], "a", changed)))
        .unwrap();
    assert!(matches!(action, Action::FullRebuild));
    let bucket = s.categories.entries.iter().find(|(k, _)| k == "news").unwrap();
    assert_eq!(bucket.1, vec!["a.md".to_string()]);
}

#[test]
fn unchanged_metadata_takes_the_cheap_path() {
    let files = vec![
        file(&["content"], "_index", FrontMatter::empty()),
        file(&["content"], "a", page_front("A", None)),
    ];
    let mut s = new_site();
    s.load(files).unwrap();
    let action = s
        .apply_content_change(Change::PageUpdated(file(
            &["content"],
            "a",
            page_front("A", None),
        )))
        .unwrap();
    assert!(matches!(action, Action::RenderPageOnly(rel) if rel == "a.md"));
}

#[test]
fn zero_pager_size_is_a_config_error() {
    let mut front = FrontMatter::empty();
    front.paginate_by = Some(0);
    let files = vec![file(&["content"], "_index", front)];
    let mut s = new_site();
    let r = s.load(files);
    assert!(matches!(r, Err(site::errors::Error::Config(_))));
}

#[test]
fn pagination_counts() {
    let cfg = Config::new("https://example.org".to_string());
    let mut front = FrontMatter::empty();
    front.paginate_by = Some(2);
    let section = Section::new(vec!["content".to_string()], front.to_section_meta(), &cfg);
    let empty: Vec<Page> = Vec::new();
    assert_eq!(Paginator::new(&empty, &section).pagers.len(), 0);
    let mut five: Vec<Page> = Vec::new();
    for stem in ["a", "b", "c", "d", "e"] {
        five.push(Page::new(
            vec!["content".to_string()],
            stem.to_string(),
            FrontMatter::empty().to_page_meta(),
            Vec::new(),
            &cfg,
        ));
    }
    let p = Paginator::new(&five, &section);
    assert_eq!(p.pagers.len(), 3);
    assert_eq!(p.pagers[0].index, 1);
    assert_eq!(p.pagers[0].pages.len(), 2);
    assert_eq!(p.pagers[2].pages.len(), 1);
    assert_eq!(p.pagers[0].previous, None);
    assert_eq!(p.pagers[0].next, Some(2));
    assert_eq!(p.pagers[2].next, None);
}

#[test]
fn slugs_come_from_the_slugifier() {
    let item = ListItem::new("My Test String!!!1!1", 4);
    assert_eq!(item.name, "My Test String!!!1!1");
    assert_eq!(item.slug, "my-test-string-1-1");
    assert_eq!(item.count, 4);
}

#[test]
fn list_items_sort_by_count_then_name() {
    let mut b = Buckets::new();
    b.add(&"zeta".to_string(), &"p1.md".to_string());
    b.add(&"alpha".to_string(), &"p1.md".to_string());
    b.add(&"beta".to_string(), &"p1.md".to_string());
    b.add(&"beta".to_string(), &"p2.md".to_string());
    let items = sorted_list_items(&b);
    let names: Vec<&str> = items.iter().map(|i| i.name.as_str()).collect();
    assert_eq!(names, vec!["beta", "alpha", "zeta"]);
    assert_eq!(items[0].count, 2);
}

#[test]
fn feed_takes_recent_dated_pages() {
    let cfg = Config::new("https://example.org".to_string());
    let mut pages: Vec<Page> = Vec::new();
    for (stem, date) in [("old", Some(1u64)), ("none", None), ("new", Some(5u64))] {
        pages.push(Page::new(
            vec!["content".to_string()],
            stem.to_string(),
            page_front(stem, date).to_page_meta(),
            Vec::new(),
            &cfg,
        ));
    }
    let feed = feed_pages(&pages);
    let stems: Vec<&str> = feed.iter().map(|p| p.stem.as_str()).collect();
    assert_eq!(stems, vec!["new", "old"]);
}

#[test]
fn section_metadata_change_rerenders_only_that_section() {
    let files = vec![
        file(&["content"], "_index", FrontMatter::empty()),
        file(&["content", "posts"], "_index", FrontMatter::empty()),
        file(&["content", "posts"], "p", page_front("P", Some(7))),
    ];
    let mut s = new_site();
    s.load(files).unwrap();
    let mut front = FrontMatter::empty();
    front.sort_by = SortBy::Date;
    let action = s
        .apply_content_change(Change::SectionUpdated(file(&["content", "posts"], "_index", front)))
        .unwrap();
    assert!(matches!(action, Action::RenderSection(rel) if rel == "posts/_index.md"));
    let posts = s
        .sections
        .iter()
        .find(|sec| sec.relative_path == "posts/_index.md")
        .unwrap();
    assert!(matches!(posts.meta.sort_by, SortBy::Date));
    assert_eq!(posts.pages.len(), 1);
}

#[test]
fn subsections_link_to_direct_children() {
    let files = vec![
        file(&["content"], "_index", FrontMatter::empty()),
        file(&["content", "posts"], "_index", FrontMatter::empty()),
    ];
    let mut s = new_site();
    s.load(files).unwrap();
    let root = s.sections.iter().find(|sec| sec.relative_path == "_index.md").unwrap();
    assert_eq!(root.subsections, vec!["posts/_index.md".to_string()]);
}

#[test]
fn synthetic_root_appears_when_no_index_exists() {
    let files = vec![file(&["content"], "solo", page_front("S", None))];
    let mut s = new_site();
    s.load(files).unwrap();
    let root = s.sections.iter().find(|sec| sec.relative_path == "_index.md").unwrap();
    assert_eq!(root.permalink, "https://example.org/");
    assert_eq!(root.pages.len(), 1);
}
