//! Paths of content files, modelled as directory components plus a file stem.
//!
//! A content file is identified by the components of its containing directory
//! (starting with the content root directory) and its file name without the
//! `.md` extension. Joining components is the only string operation the graph
//! needs; splitting never happens here.

use vstd::prelude::*;
use vstd::string::StringExecFns;

verus! {

/// The path separator used in relative paths and permalinks.
pub open spec fn sep() -> Seq<char> {
    seq!['/']
}

/// The extension shared by all content files.
pub open spec fn md_suffix() -> Seq<char> {
    seq!['.', 'm', 'd']
}

/// The stem of the reserved index file name `_index.md`.
pub open spec fn index_stem() -> Seq<char> {
    seq!['_', 'i', 'n', 'd', 'e', 'x']
}

/// The components of `comps`, joined with `/`.
pub open spec fn joined(comps: Seq<Seq<char>>) -> Seq<char>
    decreases comps.len(),
{
    if comps.len() == 0 {
        Seq::empty()
    } else if comps.len() == 1 {
        comps[0]
    } else {
        joined(comps.drop_last()) + sep() + comps.last()
    }
}

/// The path of a page relative to the content root: the directory components
/// after the root one, then the stem with its `.md` extension back.
pub open spec fn page_rel_path(dir: Seq<Seq<char>>, stem: Seq<char>) -> Seq<char> {
    joined(dir.subrange(1, dir.len() as int).push(stem + md_suffix()))
}

/// The logical output path of a page: like `page_rel_path`, extension stripped.
pub open spec fn page_logical_path(dir: Seq<Seq<char>>, stem: Seq<char>) -> Seq<char> {
    joined(dir.subrange(1, dir.len() as int).push(stem))
}

/// The path of a section's index file relative to the content root.
pub open spec fn section_rel_path(dir: Seq<Seq<char>>) -> Seq<char> {
    joined(dir.subrange(1, dir.len() as int).push(index_stem() + md_suffix()))
}

/// The logical output path of a section: its directory under the content root.
pub open spec fn section_logical_path(dir: Seq<Seq<char>>) -> Seq<char> {
    joined(dir.subrange(1, dir.len() as int))
}

/// Joins the components of `comps`, the first `skip` left out, with `/`.
pub fn join_comps(comps: &Vec<String>, skip: usize) -> (r: String)
    requires
        skip <= comps@.len(),
    ensures
        r@ == joined(comps.deep_view().subrange(skip as int, comps.deep_view().len() as int)),
{
    let ghost all = comps.deep_view();
    let mut r = String::new();
    let mut i: usize = skip;
    proof {
        assert(all.subrange(skip as int, skip as int) =~= Seq::<Seq<char>>::empty());
    }
    while i < comps.len()
        invariant
            skip <= i <= comps@.len(),
            all == comps.deep_view(),
            all.len() == comps@.len(),
            r@ == joined(all.subrange(skip as int, i as int)),
        decreases comps@.len() - i,
    {
        if i > skip {
            r.append("/");
            proof {
                reveal_strlit("/");
                assert(("/")@ =~= sep());
            }
        }
        r.append(comps[i].as_str());
        proof {
            assert(all[i as int] == comps@[i as int]@);
            assert(all.subrange(skip as int, i + 1).drop_last() =~= all.subrange(
                skip as int,
                i as int,
            ));
            assert(all.subrange(skip as int, i + 1).last() == all[i as int]);
        }
        i = i + 1;
    }
    proof {
        assert(all.subrange(skip as int, all.len() as int) == all.subrange(
            skip as int,
            i as int,
        ));
    }
    r
}

/// Compares two component lists for equality.
pub fn path_eq(a: &Vec<String>, b: &Vec<String>) -> (r: bool)
    ensures
        r == (a.deep_view() == b.deep_view()),
{
    if a.len() != b.len() {
        proof {
            assert(a.deep_view().len() == a@.len());
            assert(b.deep_view().len() == b@.len());
        }
        return false;
    }
    let mut i: usize = 0;
    while i < a.len()
        invariant
            0 <= i <= a@.len(),
            a@.len() == b@.len(),
            forall|j: int| 0 <= j < i ==> a.deep_view()[j] == b.deep_view()[j],
        decreases a@.len() - i,
    {
        if !(a[i] == b[i]) {
            proof {
                assert(a.deep_view()[i as int] != b.deep_view()[i as int]);
            }
            return false;
        }
        proof {
            assert(a.deep_view()[i as int] == b.deep_view()[i as int]);
        }
        i = i + 1;
    }
    proof {
        assert(a.deep_view() =~= b.deep_view());
    }
    true
}

/// Copies a component list.
pub fn clone_comps(v: &Vec<String>) -> (r: Vec<String>)
    ensures
        r@.len() == v@.len(),
        r.deep_view() == v.deep_view(),
{
    let mut r: Vec<String> = Vec::new();
    let mut i: usize = 0;
    while i < v.len()
        invariant
            0 <= i <= v@.len(),
            r@.len() == i,
            forall|j: int| 0 <= j < i ==> r.deep_view()[j] == v.deep_view()[j],
        decreases v@.len() - i,
    {
        r.push(v[i].clone());
        i = i + 1;
    }
    proof {
        assert(r.deep_view() =~= v.deep_view());
    }
    r
}

/// Whether `child` is a directory directly below `parent`.
pub fn is_direct_child_dir(child: &Vec<String>, parent: &Vec<String>) -> (r: bool)
    ensures
        r == (child.deep_view().len() == parent.deep_view().len() + 1
            && child.deep_view().drop_last() == parent.deep_view()),
{
    if child.len() < 1 || child.len() - 1 != parent.len() {
        proof {
            assert(child.deep_view().len() == child@.len());
            assert(parent.deep_view().len() == parent@.len());
        }
        return false;
    }
    let mut i: usize = 0;
    while i < parent.len()
        invariant
            0 <= i <= parent@.len(),
            child@.len() == parent@.len() + 1,
            forall|j: int| 0 <= j < i ==> child.deep_view()[j] == parent.deep_view()[j],
        decreases parent@.len() - i,
    {
        if !(child[i] == parent[i]) {
            proof {
                assert(child.deep_view().drop_last()[i as int] != parent.deep_view()[i as int]);
            }
            return false;
        }
        proof {
            assert(child.deep_view()[i as int] == parent.deep_view()[i as int]);
        }
        i = i + 1;
    }
    proof {
        assert(child.deep_view().drop_last() =~= parent.deep_view());
    }
    true
}

/// Whether `stem` is the reserved index file stem.
pub fn is_index_stem(stem: &String) -> (r: bool)
    ensures
        r == (stem@ == index_stem()),
{
    let ix: String = "_index".to_owned();
    proof {
        reveal_strlit("_index");
        assert(("_index")@ =~= index_stem());
    }
    *stem == ix
}

/// Copies a string option.
pub fn clone_opt_string(v: &Option<String>) -> (r: Option<String>)
    ensures
        r.deep_view() == v.deep_view(),
{
    match v {
        Option::Some(s) => Option::Some(s.clone()),
        Option::None => Option::None,
    }
}

/// Compares two string options for equality of their contents.
pub fn opt_string_eq(a: &Option<String>, b: &Option<String>) -> (r: bool)
    ensures
        r == (a.deep_view() == b.deep_view()),
{
    match (a, b) {
        (Option::Some(x), Option::Some(y)) => *x == *y,
        (Option::None, Option::None) => true,
        _ => false,
    }
}

} // verus!
