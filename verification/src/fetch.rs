//! Fetching one recipe by name from an ordered list of search roots.
//!
//! The decision logic is here: which paths are tried, in which order, and
//! which of the existing ones wins.  The I/O layer probes the candidates
//! for existence and loads the winner.

use vstd::prelude::*;
use crate::entry::RecipeEntryError;
use crate::paths::{extension_of, join_of, extension, join_path};

verus! {

/// What can go wrong while fetching a recipe.
#[derive(Debug, Clone)]
pub enum FetchError {
    /// A file could not be read.
    IoError(String),
    /// A found document could not be loaded.
    RecipeEntryError(RecipeEntryError),
    /// No root holds the name.
    InvalidPath(String),
}

/// The paths tried under one root: the name itself when it carries an
/// extension, else the name with `.cook` and then with `.menu`.
pub open spec fn name_candidates(root: Seq<char>, name: Seq<char>) -> Seq<Seq<char>> {
    if extension_of(name) is Some {
        seq![join_of(root, name)]
    } else {
        seq![join_of(root, name + ".cook"@), join_of(root, name + ".menu"@)]
    }
}

/// The paths tried over all roots, in root order: the first root's
/// candidates come first.
pub open spec fn fetch_candidates_of(roots: Seq<Seq<char>>, name: Seq<char>) -> Seq<
    Seq<char>,
>
    decreases roots.len(),
{
    if roots.len() == 0 {
        Seq::empty()
    } else {
        name_candidates(roots[0], name) + fetch_candidates_of(
            roots.subrange(1, roots.len() as int),
            name,
        )
    }
}

/// The candidate paths for `name` under the ordered `roots`.
pub fn fetch_candidates(roots: &Vec<String>, name: &str) -> (r: Vec<String>)
    ensures
        r.deep_view() == fetch_candidates_of(roots.deep_view(), name@),
{
    let ghost rs = roots.deep_view();
    let has_ext = extension(name).is_some();
    let mut out: Vec<String> = Vec::new();
    let mut i: usize = 0;
    proof {
        assert(rs.subrange(0, rs.len() as int) =~= rs);
        assert(out.deep_view() + fetch_candidates_of(rs.subrange(0, rs.len() as int), name@)
            =~= fetch_candidates_of(rs, name@));
    }
    while i < roots.len()
        invariant
            i <= roots.len(),
            rs == roots.deep_view(),
            rs.len() == roots.len(),
            has_ext == (extension_of(name@) is Some),
            out.deep_view() + fetch_candidates_of(rs.subrange(i as int, rs.len() as int), name@)
                =~= fetch_candidates_of(rs, name@),
        decreases roots.len() - i,
    {
        let ghost rest = rs.subrange(i as int, rs.len() as int);
        proof {
            assert(rest[0] == rs[i as int]);
            assert(rs[i as int] == roots@[i as int]@);
            assert(rest.subrange(1, rest.len() as int) =~= rs.subrange(
                i + 1,
                rs.len() as int,
            ));
        }
        let ghost old_out = out.deep_view();
        if has_ext {
            let c = join_path(roots[i].as_str(), name);
            out.push(c);
            proof {
                assert(out.deep_view() =~= old_out + name_candidates(rs[i as int], name@));
            }
        } else {
            let mut cook = name.to_owned();
            cook.append(".cook");
            let mut menu = name.to_owned();
            menu.append(".menu");
            proof {
                reveal_strlit(".cook");
                reveal_strlit(".menu");
                assert(cook@ =~= name@ + ".cook"@);
                assert(menu@ =~= name@ + ".menu"@);
            }
            let c1 = join_path(roots[i].as_str(), cook.as_str());
            let c2 = join_path(roots[i].as_str(), menu.as_str());
            out.push(c1);
            out.push(c2);
            proof {
                assert(out.deep_view() =~= old_out + name_candidates(rs[i as int], name@));
            }
        }
        i = i + 1;
    }
    proof {
        assert(fetch_candidates_of(rs.subrange(rs.len() as int, rs.len() as int), name@)
            =~= Seq::<Seq<char>>::empty());
        assert(out.deep_view() =~= fetch_candidates_of(rs, name@));
    }
    out
}

/// Picks the first existing candidate: each pair holds a path and
/// whether it exists.
pub fn select_existing(cands: &Vec<(String, bool)>) -> (r: Option<usize>)
    ensures
        match r {
            Some(i) => i < cands.len() && cands@[i as int].1 && forall|j: int|
                0 <= j < i ==> !cands@[j].1,
            None => forall|j: int| 0 <= j < cands.len() ==> !cands@[j].1,
        },
{
    let mut i: usize = 0;
    while i < cands.len()
        invariant
            i <= cands.len(),
            forall|j: int| 0 <= j < i ==> !cands@[j].1,
        decreases cands.len() - i,
    {
        if cands[i].1 {
            return Some(i);
        }
        i = i + 1;
    }
    None
}

/// Root priority: for a name without an extension and two roots, the
/// first candidate tried is the first root's `.cook` file, so when that
/// file exists the first-existing selection yields it — first root wins
/// on a collision.
pub proof fn lemma_fetch_root_priority(r1: Seq<char>, r2: Seq<char>, name: Seq<char>)
    requires
        extension_of(name) is None,
    ensures
        fetch_candidates_of(seq![r1, r2], name).len() == 4,
        fetch_candidates_of(seq![r1, r2], name)[0] == join_of(r1, name + ".cook"@),
        fetch_candidates_of(seq![r1, r2], name)[2] == join_of(r2, name + ".cook"@),
{
    let roots = seq![r1, r2];
    let sub1 = roots.subrange(1, 2);
    assert(sub1[0] == r2);
    assert(sub1.subrange(1, 1) =~= Seq::<Seq<char>>::empty());
    assert(fetch_candidates_of(roots, name) == name_candidates(r1, name)
        + fetch_candidates_of(sub1, name));
    assert(fetch_candidates_of(sub1, name) == name_candidates(r2, name)
        + fetch_candidates_of(sub1.subrange(1, 1), name));
}

} // verus!
