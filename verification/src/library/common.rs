//! The directory that paths have in common.

use crate::path::{is_ancestor, lemma_parent_shorter, parent, parent_of, path_list, SEPARATOR};
use crate::library::utility::is_ancestor_of;
use vstd::prelude::*;

verus! {

/// The longest path that is at or above both `a` and `b`.
pub open spec fn common_ancestor(a: Seq<u8>, b: Seq<u8>) -> Option<Seq<u8>>
    decreases a.len(),
    via common_ancestor_decreases
{
    if is_ancestor(a, b) {
        Some(a)
    } else {
        match parent(a) {
            Some(up) => common_ancestor(up, b),
            None => None,
        }
    }
}

#[via_fn]
proof fn common_ancestor_decreases(a: Seq<u8>, b: Seq<u8>) {
    lemma_parent_shorter(a);
}

/// The directory that `a` and `b` have in common, where it is more than
/// nothing and more than the root.
pub open spec fn common_path(a: Seq<u8>, b: Seq<u8>) -> Option<Seq<u8>> {
    match common_ancestor(a, b) {
        Some(common) => if common.len() == 0 || common == seq![SEPARATOR] {
            None
        } else {
            Some(common)
        },
        None => None,
    }
}

/// The directory that all of `paths` have in common: that of the first path
/// and each further one in turn. Nothing where there are no paths, or where
/// the paths have no more than the root in common.
pub open spec fn common_path_of(paths: Seq<Seq<u8>>) -> Option<Seq<u8>>
    decreases paths.len(),
{
    if paths.len() == 0 {
        None
    } else if paths.len() == 1 {
        Some(paths[0])
    } else {
        match common_path_of(paths.drop_last()) {
            Some(common) => common_path(common, paths.last()),
            None => None,
        }
    }
}

/// The first `count` of the paths.
pub open spec fn first_paths(paths: Seq<Vec<u8>>, count: usize) -> Seq<Seq<u8>> {
    path_list(paths).subrange(0, count as int)
}

proof fn lemma_first_paths(paths: Seq<Vec<u8>>, count: usize)
    requires
        count < paths.len() <= usize::MAX,
    ensures
        first_paths(paths, (count + 1) as usize).drop_last() == first_paths(paths, count),
        first_paths(paths, (count + 1) as usize).last() == paths[count as int]@,
        first_paths(paths, (count + 1) as usize).len() == count + 1,
        first_paths(paths, paths.len() as usize) == path_list(paths),
{
    assert(first_paths(paths, (count + 1) as usize).drop_last() =~= first_paths(paths, count));
    assert(first_paths(paths, paths.len() as usize) =~= path_list(paths));
}

/// Paths of which the first have nothing in common have nothing in common.
proof fn lemma_common_path_of_fails(paths: Seq<Vec<u8>>, count: usize)
    requires
        count < paths.len() <= usize::MAX,
        common_path_of(first_paths(paths, (count + 1) as usize)) is None,
    ensures
        common_path_of(path_list(paths)) is None,
    decreases paths.len() - count,
{
    if count + 1 < paths.len() {
        lemma_first_paths(paths, (count + 1) as usize);
        lemma_common_path_of_fails(paths, (count + 1) as usize);
    } else {
        lemma_first_paths(paths, count);
    }
}

/// The directory that `a` and `b` have in common.
pub fn cmp_path(a: &Vec<u8>, b: &Vec<u8>) -> (r: Option<Vec<u8>>)
    ensures
        match r {
            Some(common) => common_path(a@, b@) == Some(common@),
            None => common_path(a@, b@) is None,
        },
{
    let mut current: Vec<u8> = a.clone();
    loop
        invariant
            common_ancestor(current@, b@) == common_ancestor(a@, b@),
        decreases current.len(),
    {
        proof {
            lemma_parent_shorter(current@);
        }
        if is_ancestor_of(&current, b) {
            if current.len() == 0 || (current.len() == 1 && current[0] == SEPARATOR) {
                proof {
                    if current.len() == 1 {
                        assert(current@ =~= seq![SEPARATOR]);
                    }
                }
                return None;
            }
            proof {
                if current@ == seq![SEPARATOR] {
                    assert(seq![SEPARATOR].len() == 1);
                }
            }
            return Some(current);
        }
        match parent_of(&current) {
            Some(up) => {
                current = up;
            },
            None => {
                return None;
            },
        }
    }
}

/// The directory that all of `paths` have in common.
pub fn get_common_path(paths: &Vec<Vec<u8>>) -> (r: Option<Vec<u8>>)
    ensures
        match r {
            Some(common) => common_path_of(path_list(paths@)) == Some(common@),
            None => common_path_of(path_list(paths@)) is None,
        },
{
    if paths.len() == 0 {
        return None;
    }
    let mut acc: Vec<u8> = paths[0].clone();
    let mut i: usize = 1;
    proof {
        lemma_first_paths(paths@, 0);
    }
    while i < paths.len()
        invariant
            1 <= i <= paths.len(),
            common_path_of(first_paths(paths@, i)) == Some(acc@),
        decreases paths.len() - i,
    {
        proof {
            lemma_first_paths(paths@, i);
        }
        match cmp_path(&acc, &paths[i]) {
            Some(common) => {
                acc = common;
            },
            None => {
                proof {
                    lemma_common_path_of_fails(paths@, i);
                }
                return None;
            },
        }
        i += 1;
    }
    proof {
        lemma_first_paths(paths@, 0);
    }
    Some(acc)
}

} // verus!
