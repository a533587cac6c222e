//! The group tree, represented by the level sequence.
//!
//! The flat group list of a database is a pre-order traversal of the
//! group forest; each group carries its depth as `level`.  Parent and
//! child relations are therefore fully determined by positions and
//! levels: the parent of the group at index `i` is the nearest index
//! `j < i` whose level is smaller, and a top-level group parents to
//! the synthetic root.  This module verifies the well-formedness of a
//! level sequence and recovers the relations from it.

use vstd::prelude::*;

use crate::error::V1KpdbError;
use crate::group::{GroupModel, V1Group};

verus! {

/// The levels of a run of groups, in order.
pub open spec fn levels_of(gs: Seq<GroupModel>) -> Seq<u16> {
    gs.map_values(|g: GroupModel| g.level)
}

/// A level sequence describes a pre-order forest exactly when the
/// first group sits at level zero and no step climbs by more than
/// one.
pub open spec fn levels_wf(ls: Seq<u16>) -> bool {
    &&& ls.len() > 0 ==> ls[0] == 0
    &&& forall|i: int| 0 < i < ls.len() ==> #[trigger] ls[i] <= ls[i - 1] + 1
}

/// The nearest index at or below `j` whose level is below `v`, or -1
/// if there is none.
pub open spec fn scan_lower(ls: Seq<u16>, v: int, j: int) -> int
    decreases j + 1,
{
    if j < 0 {
        -1
    } else if ls[j] < v {
        j
    } else {
        scan_lower(ls, v, j - 1)
    }
}

/// The parent position of the group at `i`: the nearest earlier index
/// with a smaller level, or -1 for a top-level group.
pub open spec fn spec_parent_index(ls: Seq<u16>, i: int) -> int {
    scan_lower(ls, ls[i] as int, i - 1)
}

/// In a well-formed prefix, the nearest index with a level below `v`
/// sits exactly at level `v - 1`.
proof fn lemma_scan_finds_level(ls: Seq<u16>, v: int, j: int)
    requires
        ls.len() > 0,
        ls[0] == 0,
        forall|k: int| 0 < k < ls.len() ==> #[trigger] ls[k] <= ls[k - 1] + 1,
        0 <= j < ls.len(),
        1 <= v <= ls[j] + 1,
    ensures
        0 <= scan_lower(ls, v, j) <= j,
        ls[scan_lower(ls, v, j)] == v - 1,
    decreases j,
{
    if ls[j] < v {
    } else {
        lemma_scan_finds_level(ls, v, j - 1);
    }
}

/// A search for a negative level never finds one.
proof fn lemma_scan_none(ls: Seq<u16>, v: int, j: int)
    requires
        v <= 0,
        j < ls.len(),
    ensures
        scan_lower(ls, v, j) == -1,
    decreases j + 1,
{
    if j >= 0 {
        lemma_scan_none(ls, v, j - 1);
    }
}

/// Tree well-formedness: in a well-formed level sequence, every group
/// below the top level has its parent at an earlier index, exactly
/// one level up; top-level groups parent to the synthetic root.
pub proof fn lemma_tree_parent(ls: Seq<u16>, i: int)
    requires
        levels_wf(ls),
        0 <= i < ls.len(),
    ensures
        ls[i] > 0 ==> {
            let p = spec_parent_index(ls, i);
            &&& 0 <= p < i
            &&& ls[p] == ls[i] - 1
        },
        ls[i] == 0 ==> spec_parent_index(ls, i) == -1,
{
    if ls[i] > 0 {
        assert(i > 0);
        lemma_scan_finds_level(ls, ls[i] as int, i - 1);
    } else {
        lemma_scan_none(ls, ls[i] as int, i - 1);
    }
}

/// Checks that the level sequence of `groups` describes a pre-order
/// forest: the first group at level zero, no step climbing by more
/// than one.
pub fn check_levels(groups: &Vec<V1Group>) -> (r: Result<(), V1KpdbError>)
    ensures
        r is Ok <==> levels_wf(levels_of(crate::body::group_models(groups@))),
        r is Err ==> r == Err::<(), V1KpdbError>(V1KpdbError::TreeErr),
{
    let ghost ls = levels_of(crate::body::group_models(groups@));
    proof {
        assert(ls.len() == groups@.len());
        assert(forall|k: int| 0 <= k < ls.len() ==> ls[k] == groups@[k].level);
    }
    let n = groups.len();
    if n == 0 {
        return Ok(());
    }
    if groups[0].level != 0 {
        proof {
            assert(ls[0] != 0);
        }
        return Err(V1KpdbError::TreeErr);
    }
    let mut i: usize = 1;
    while i < n
        invariant
            1 <= i <= n,
            n == groups@.len(),
            ls == levels_of(crate::body::group_models(groups@)),
            ls.len() == n,
            forall|k: int| 0 <= k < ls.len() ==> ls[k] == groups@[k].level,
            ls[0] == 0,
            forall|k: int| 0 < k < i ==> #[trigger] ls[k] <= ls[k - 1] + 1,
        decreases n - i,
    {
        if groups[i].level as u32 > groups[i - 1].level as u32 + 1 {
            proof {
                assert(ls[i as int] > ls[i - 1] + 1);
            }
            return Err(V1KpdbError::TreeErr);
        }
        i += 1;
    }
    Ok(())
}

/// The parent position of the group at `i`, or `None` for a
/// top-level group: the nearest earlier index with a smaller level.
pub fn parent_index(groups: &Vec<V1Group>, i: usize) -> (r: Option<usize>)
    requires
        i < groups@.len(),
    ensures
        ({
            let ls = levels_of(crate::body::group_models(groups@));
            let p = spec_parent_index(ls, i as int);
            match r {
                Some(j) => p == j && j < i && groups@[j as int].level < groups@[i as int].level,
                None => p == -1,
            }
        }),
{
    let ghost ls = levels_of(crate::body::group_models(groups@));
    proof {
        assert(forall|k: int| 0 <= k < ls.len() ==> ls[k] == groups@[k].level);
    }
    let lvl = groups[i].level;
    let mut j: usize = i;
    while j > 0
        invariant
            j <= i < groups@.len(),
            ls == levels_of(crate::body::group_models(groups@)),
            forall|k: int| 0 <= k < ls.len() ==> ls[k] == groups@[k].level,
            lvl == groups@[i as int].level,
            scan_lower(ls, lvl as int, i - 1) == scan_lower(ls, lvl as int, j - 1),
        decreases j,
    {
        if groups[j - 1].level < lvl {
            return Some(j - 1);
        }
        j -= 1;
    }
    None
}

/// The positions of the direct children of the group at `parent`:
/// exactly the later positions whose parent position is `parent`, in
/// increasing order.
pub fn child_indices(groups: &Vec<V1Group>, parent: usize) -> (r: Vec<usize>)
    requires
        parent < groups@.len(),
    ensures
        ({
            let ls = levels_of(crate::body::group_models(groups@));
            &&& forall|k: int|
                0 <= k < r@.len() ==> parent < #[trigger] r@[k] < groups@.len()
                    && spec_parent_index(ls, r@[k] as int) == parent
            &&& forall|k1: int, k2: int| 0 <= k1 < k2 < r@.len() ==> r@[k1] < r@[k2]
            &&& forall|j: usize|
                parent < j < groups@.len() && spec_parent_index(ls, j as int) == parent
                    ==> #[trigger] r@.contains(j)
        }),
{
    let ghost ls = levels_of(crate::body::group_models(groups@));
    let n = groups.len();
    let mut out: Vec<usize> = Vec::new();
    let mut j: usize = parent + 1;
    while j < n
        invariant
            parent < j <= n,
            n == groups@.len(),
            ls == levels_of(crate::body::group_models(groups@)),
            forall|k: int|
                0 <= k < out@.len() ==> parent < #[trigger] out@[k] < j && spec_parent_index(
                    ls,
                    out@[k] as int,
                ) == parent,
            forall|k1: int, k2: int| 0 <= k1 < k2 < out@.len() ==> out@[k1] < out@[k2],
            forall|j0: usize|
                parent < j0 < j && spec_parent_index(ls, j0 as int) == parent
                    ==> #[trigger] out@.contains(j0),
        decreases n - j,
    {
        let ghost prev = out@;
        let is_child = match parent_index(groups, j) {
            Some(p) => p == parent,
            None => false,
        };
        if is_child {
            out.push(j);
        }
        proof {
            assert forall|j0: usize|
                parent < j0 < j + 1 && spec_parent_index(ls, j0 as int) == parent implies
                #[trigger] out@.contains(j0) by {
                if j0 < j {
                    assert(prev.contains(j0));
                    let k = choose|k: int| 0 <= k < prev.len() && prev[k] == j0;
                    assert(out@[k] == j0);
                } else {
                    assert(out@[out@.len() - 1] == j);
                }
            }
        }
        j += 1;
    }
    out
}

/// The position of the first group whose id is `id`, if any.
pub fn find_group_index(groups: &Vec<V1Group>, id: u32) -> (r: Option<usize>)
    ensures
        match r {
            Some(j) => j < groups@.len() && groups@[j as int].id == id,
            None => forall|k: int| 0 <= k < groups@.len() ==> groups@[k].id != id,
        },
{
    let n = groups.len();
    let mut j: usize = 0;
    while j < n
        invariant
            j <= n,
            n == groups@.len(),
            forall|k: int| 0 <= k < j ==> groups@[k].id != id,
        decreases n - j,
    {
        if groups[j].id == id {
            return Some(j);
        }
        j += 1;
    }
    None
}

} // verus!
