//! The Move Executor's per-item decisions: when to skip, where to move,
//! and which name resolves a collision — all from what the shell observed
//! on disk just before acting.

use vstd::prelude::*;
use crate::bytes::{dec_rep, bytes_clone};
use crate::names::{suffixed_dir_name, suffixed_file_name, stem_of, ext_or_empty};

verus! {

/// What the shell observed on disk for one selected item.
pub enum MoveObs {
    /// The recorded path no longer exists.
    Missing,
    /// A directory: whether an immediate child is still a directory after
    /// pruning, and whether `<destination>/<name>` already exists.
    Dir { has_subdir: bool, dest_taken: bool },
    /// A file: whether `<destination>/<name>` already exists.
    File { dest_taken: bool },
}

/// The decision for one selected item.
pub enum MoveStep {
    /// Skip: the path vanished; logged, never fatal.
    SkipMissing,
    /// Skip: a subdirectory is still pending below this directory; it may
    /// become movable on a later pass, once its children are cleared.
    SkipPendingChildren,
    /// Relocate the directory under the destination folder, under `name`.
    MoveDirAs { name: Vec<u8> },
    /// Rename the file in place to `name` if that differs from its own
    /// name, then relocate it under the destination folder.
    MoveFileAs { name: Vec<u8> },
}

/// Decides one selected item, given its own name and what the shell
/// observed. Depth ordering holds by construction: a directory that still
/// holds a subdirectory is never moved, whatever else was observed, so a
/// parent cannot be relocated while an unmoved child survives inside it.
/// A taken destination name is never reused: the item moves under a name
/// extended with the random suffix instead.
pub fn plan_move(name: &Vec<u8>, obs: &MoveObs, suffix: u32) -> (s: MoveStep)
    ensures
        *obs is Missing ==> s is SkipMissing,
        *obs matches MoveObs::Dir { has_subdir: true, .. } ==> s is SkipPendingChildren,
        *obs matches MoveObs::Dir { has_subdir: false, dest_taken } ==> (
            s matches MoveStep::MoveDirAs { name: n }
                && n@ == if dest_taken {
                    name@ + seq![45u8] + dec_rep(suffix as nat)
                } else {
                    name@
                }
        ),
        *obs matches MoveObs::File { dest_taken } ==> (
            s matches MoveStep::MoveFileAs { name: n }
                && n@ == if dest_taken {
                    stem_of(name@) + seq![45u8] + dec_rep(suffix as nat) + seq![46u8]
                        + ext_or_empty(name@)
                } else {
                    name@
                }
        ),
{
    match obs {
        MoveObs::Missing => MoveStep::SkipMissing,
        MoveObs::Dir { has_subdir: true, dest_taken: _ } => MoveStep::SkipPendingChildren,
        MoveObs::Dir { has_subdir: false, dest_taken } => {
            if *dest_taken {
                MoveStep::MoveDirAs { name: suffixed_dir_name(name, suffix) }
            } else {
                MoveStep::MoveDirAs { name: bytes_clone(name) }
            }
        },
        MoveObs::File { dest_taken } => {
            if *dest_taken {
                MoveStep::MoveFileAs { name: suffixed_file_name(name, suffix) }
            } else {
                MoveStep::MoveFileAs { name: bytes_clone(name) }
            }
        },
    }
}

/// Relies on rand::random for the collision suffix: nothing is assumed of
/// the value drawn, so every decision below holds whatever number comes
/// back.
pub assume_specification<T>[ rand::random::<T> ]() -> (r: T)
    where
        rand::distr::StandardUniform: rand::distr::Distribution<T>,
;

/// Decides one selected item with a freshly drawn collision suffix.
/// Whatever number the draw returns: a vanished item is skipped, a
/// directory with a pending child is skipped, and everything else moves —
/// under its own name when the destination is free, under a
/// suffix-extended one when it is taken.
pub fn plan_move_fresh(name: &Vec<u8>, obs: &MoveObs) -> (s: MoveStep)
    ensures
        *obs is Missing ==> s is SkipMissing,
        *obs matches MoveObs::Dir { has_subdir: true, .. } ==> s is SkipPendingChildren,
        *obs matches MoveObs::Dir { has_subdir: false, dest_taken } ==> (
            s matches MoveStep::MoveDirAs { name: n }
                && (if dest_taken {
                    exists|u: u32| n@ == name@ + seq![45u8] + #[trigger] dec_rep(u as nat)
                } else {
                    n@ == name@
                })
        ),
        *obs matches MoveObs::File { dest_taken } ==> (
            s matches MoveStep::MoveFileAs { name: n }
                && (if dest_taken {
                    exists|u: u32| n@ == stem_of(name@) + seq![45u8]
                        + #[trigger] dec_rep(u as nat) + seq![46u8] + ext_or_empty(name@)
                } else {
                    n@ == name@
                })
        ),
{
    let suffix = rand::random::<u32>();
    plan_move(name, obs, suffix)
}

/// Law: a collision never reuses the occupied name. The suffixed folder
/// name is strictly longer than the original, so when a directory finds its
/// name taken at the destination, the one already there and the one arriving
/// survive under two distinct names.
pub proof fn lemma_suffixed_dir_name_fresh(name: Seq<u8>, suffix: u32)
    ensures
        name + seq![45u8] + dec_rep(suffix as nat) != name,
{
    assert(dec_rep(suffix as nat).len() >= 1);
    assert((name + seq![45u8] + dec_rep(suffix as nat)).len() > name.len());
}

/// One immediate child of a directory, as the shell listed it while the
/// Move Executor prepared that directory.
pub struct EntrySnapshot {
    pub name: Vec<u8>,
    pub is_dir: bool,
    pub is_empty: bool,
}

/// Which immediate children are empty subdirectories: exactly those are
/// removed before the directory is judged movable.
pub fn empty_subdir_indices(entries: &Vec<EntrySnapshot>) -> (r: Vec<usize>)
    ensures
        forall|k: int| 0 <= k < r@.len() ==> (#[trigger] r@[k]) < entries@.len()
            && entries@[r@[k] as int].is_dir && entries@[r@[k] as int].is_empty,
        forall|i: int| 0 <= i < entries@.len()
            && (#[trigger] entries@[i]).is_dir && entries@[i].is_empty
            ==> r@.contains(i as usize),
        forall|k1: int, k2: int| 0 <= k1 < k2 < r@.len() ==> r@[k1] < r@[k2],
{
    let mut r: Vec<usize> = Vec::new();
    let mut i: usize = 0;
    while i < entries.len()
        invariant
            i <= entries@.len(),
            forall|k: int| 0 <= k < r@.len() ==> (#[trigger] r@[k]) < i
                && entries@[r@[k] as int].is_dir && entries@[r@[k] as int].is_empty,
            forall|j: int| 0 <= j < i && (#[trigger] entries@[j]).is_dir
                && entries@[j].is_empty ==> r@.contains(j as usize),
            forall|k1: int, k2: int| 0 <= k1 < k2 < r@.len() ==> r@[k1] < r@[k2],
        decreases entries@.len() - i,
    {
        if entries[i].is_dir && entries[i].is_empty {
            proof {
                let r0 = r@;
                assert forall|j: int| 0 <= j < i + 1 && (#[trigger] entries@[j]).is_dir
                    && entries@[j].is_empty implies r0.push(i).contains(j as usize) by {
                    if j < i {
                        let w = choose|w: int| 0 <= w < r0.len() && r0[w] == j as usize;
                        assert(r0.push(i)[w] == j as usize);
                    } else {
                        assert(r0.push(i)[r0.len() as int] == i);
                    }
                }
            }
            r.push(i);
        }
        i += 1;
    }
    r
}

/// After the empty subdirectories are gone, does any immediate child remain
/// a directory? If so, the parent cannot yet be moved as a unit.
pub fn any_subdir_left(entries: &Vec<EntrySnapshot>) -> (r: bool)
    ensures
        r == exists|i: int| 0 <= i < entries@.len() && (#[trigger] entries@[i]).is_dir
            && !entries@[i].is_empty,
{
    let mut i: usize = 0;
    while i < entries.len()
        invariant
            i <= entries@.len(),
            forall|j: int| 0 <= j < i
                ==> !((#[trigger] entries@[j]).is_dir && !entries@[j].is_empty),
        decreases entries@.len() - i,
    {
        if entries[i].is_dir && !entries[i].is_empty {
            return true;
        }
        i += 1;
    }
    false
}

} // verus!
