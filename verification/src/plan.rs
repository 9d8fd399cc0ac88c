//! Reconciliation planning: from two snapshots to an ordered action list.
//!
//! Given a source snapshot and a destination snapshot, [`compute_actions`]
//! produces the actions that make the destination tree match the source
//! tree: create missing directories and copy missing files, then delete
//! extraneous files, then delete extraneous directories deepest-first, so
//! that every directory is empty by the time it is removed.  Paths present
//! in both snapshots are never touched.

use vstd::prelude::*;

use crate::noise::spec_path_has_noise;
use crate::snapshot::FileMeta;
use crate::snapshot::Snapshot;
use crate::snapshot::clone_path;
use crate::snapshot::lemma_snap_map_contains;
use crate::snapshot::lemma_snap_map_index;

verus! {

/// The abstract content of a snapshot.
pub type SnapView = Map<Seq<Seq<u8>>, FileMeta>;

/// One filesystem mutation, on a path relative to the destination root.
#[derive(Debug, PartialEq, Eq)]
pub enum Action {
    /// Create this directory (and any missing ancestors) in the destination.
    CreateDir(Vec<Vec<u8>>),
    /// Copy this file's bytes from the source to the destination.
    CopyFile(Vec<Vec<u8>>),
    /// Remove this file from the destination.
    DeleteFile(Vec<Vec<u8>>),
    /// Remove this (by then empty) directory from the destination.
    DeleteDir(Vec<Vec<u8>>),
}

/// The relative path an action touches.
pub open spec fn action_path(a: Action) -> Seq<Seq<u8>> {
    match a {
        Action::CreateDir(p) => p.deep_view(),
        Action::CopyFile(p) => p.deep_view(),
        Action::DeleteFile(p) => p.deep_view(),
        Action::DeleteDir(p) => p.deep_view(),
    }
}

/// The phase an action belongs to: creations, then file deletions, then
/// directory deletions.
pub open spec fn action_phase(a: Action) -> int {
    match a {
        Action::CreateDir(_) => 0,
        Action::CopyFile(_) => 0,
        Action::DeleteFile(_) => 1,
        Action::DeleteDir(_) => 2,
    }
}

/// A path that must be created: present in the source, absent from the
/// destination.
pub open spec fn missing(p: Seq<Seq<u8>>, src: SnapView, dst: SnapView) -> bool {
    src.contains_key(p) && !dst.contains_key(p)
}

/// A file that must be pruned: present in the destination as a file,
/// absent from the source.
pub open spec fn prunable_file(p: Seq<Seq<u8>>, src: SnapView, dst: SnapView) -> bool {
    dst.contains_key(p) && !src.contains_key(p) && !dst[p].is_dir
}

/// A directory that must be pruned: present in the destination as a
/// directory, absent from the source.
pub open spec fn prunable_dir(p: Seq<Seq<u8>>, src: SnapView, dst: SnapView) -> bool {
    dst.contains_key(p) && !src.contains_key(p) && dst[p].is_dir
}

/// An action is justified by the snapshots: it creates exactly what is
/// missing, deletes exactly what is extraneous, and its kind matches the
/// entry's kind.  In particular it never touches a path present in both.
pub open spec fn action_agrees(a: Action, src: SnapView, dst: SnapView) -> bool {
    match a {
        Action::CreateDir(p) => missing(p.deep_view(), src, dst) && src[p.deep_view()].is_dir,
        Action::CopyFile(p) => missing(p.deep_view(), src, dst) && !src[p.deep_view()].is_dir,
        Action::DeleteFile(p) => prunable_file(p.deep_view(), src, dst),
        Action::DeleteDir(p) => prunable_dir(p.deep_view(), src, dst),
    }
}

/// Every action of the plan is justified by the snapshots.
pub open spec fn plan_sound(src: SnapView, dst: SnapView, r: Seq<Action>) -> bool {
    forall|i: int| 0 <= i < r.len() ==> action_agrees(#[trigger] r[i], src, dst)
}

/// The plan holds an action on path `p` in phase `ph`.
pub open spec fn has_action(r: Seq<Action>, p: Seq<Seq<u8>>, ph: int) -> bool {
    exists|i: int|
        0 <= i < r.len() && action_path(#[trigger] r[i]) == p && action_phase(r[i]) == ph
}

/// Every path that must change is acted on: missing paths are created,
/// extraneous files and directories are deleted.
pub open spec fn plan_complete(src: SnapView, dst: SnapView, r: Seq<Action>) -> bool {
    &&& forall|p: Seq<Seq<u8>>| #[trigger] missing(p, src, dst) ==> has_action(r, p, 0)
    &&& forall|p: Seq<Seq<u8>>| #[trigger] prunable_file(p, src, dst) ==> has_action(r, p, 1)
    &&& forall|p: Seq<Seq<u8>>| #[trigger] prunable_dir(p, src, dst) ==> has_action(r, p, 2)
}

/// Phases never interleave: all creations come first, then all file
/// deletions, then all directory deletions.
pub open spec fn plan_phased(r: Seq<Action>) -> bool {
    forall|i: int, j: int|
        0 <= i <= j < r.len() ==> action_phase(#[trigger] r[i]) <= action_phase(#[trigger] r[j])
}

/// Directory deletions come in order of non-increasing depth (component
/// count): a directory is only removed after every deeper one.
pub open spec fn plan_dirs_deepest_first(r: Seq<Action>) -> bool {
    forall|i: int, j: int|
        0 <= i < j < r.len() && action_phase(#[trigger] r[i]) == 2 && action_phase(
            #[trigger] r[j],
        ) == 2 ==> action_path(r[i]).len() >= action_path(r[j]).len()
}

/// `a` is a strict ancestor directory of `p`: a proper prefix of its
/// components.
pub open spec fn is_strict_ancestor(a: Seq<Seq<u8>>, p: Seq<Seq<u8>>) -> bool {
    a.len() < p.len() && p.subrange(0, a.len() as int) == a
}

/// Idempotence: when the two snapshots already hold the same paths, a
/// sound plan is empty — a second sync run performs no mutation.
pub proof fn lemma_idempotent(src: SnapView, dst: SnapView, r: Seq<Action>)
    requires
        plan_sound(src, dst, r),
        src.dom() == dst.dom(),
    ensures
        r.len() == 0,
{
    if r.len() > 0 {
        assert(action_agrees(r[0], src, dst));
        match r[0] {
            Action::CreateDir(p) => {
                assert(dst.dom().contains(p.deep_view()));
            },
            Action::CopyFile(p) => {
                assert(dst.dom().contains(p.deep_view()));
            },
            Action::DeleteFile(p) => {
                assert(src.dom().contains(p.deep_view()));
            },
            Action::DeleteDir(p) => {
                assert(src.dom().contains(p.deep_view()));
            },
        }
    }
}

/// Non-interference: a path present in both snapshots is touched by no
/// action of a sound plan.
pub proof fn lemma_shared_paths_untouched(src: SnapView, dst: SnapView, r: Seq<Action>)
    requires
        plan_sound(src, dst, r),
    ensures
        forall|i: int|
            0 <= i < r.len() ==> !(src.contains_key(action_path(#[trigger] r[i]))
                && dst.contains_key(action_path(r[i]))),
{
    assert forall|i: int| 0 <= i < r.len() implies !(src.contains_key(
        action_path(#[trigger] r[i]),
    ) && dst.contains_key(action_path(r[i]))) by {
        assert(action_agrees(r[i], src, dst));
    }
}

/// Noise exclusion: when neither snapshot holds a path with a noise
/// component — the walker's skip rule guarantees this — no action of a
/// sound plan touches such a path.
pub proof fn lemma_noise_excluded(src: SnapView, dst: SnapView, r: Seq<Action>)
    requires
        plan_sound(src, dst, r),
        forall|p: Seq<Seq<u8>>| src.contains_key(p) ==> !spec_path_has_noise(p),
        forall|p: Seq<Seq<u8>>| dst.contains_key(p) ==> !spec_path_has_noise(p),
    ensures
        forall|i: int| 0 <= i < r.len() ==> !spec_path_has_noise(action_path(#[trigger] r[i])),
{
    assert forall|i: int| 0 <= i < r.len() implies !spec_path_has_noise(
        action_path(#[trigger] r[i]),
    ) by {
        assert(action_agrees(r[i], src, dst));
        match r[i] {
            Action::CreateDir(p) => {
                assert(src.contains_key(p.deep_view()));
            },
            Action::CopyFile(p) => {
                assert(src.contains_key(p.deep_view()));
            },
            Action::DeleteFile(p) => {
                assert(dst.contains_key(p.deep_view()));
            },
            Action::DeleteDir(p) => {
                assert(dst.contains_key(p.deep_view()));
            },
        }
    }
}

/// Appending an action keeps every action the plan already has.
proof fn lemma_has_action_push(r: Seq<Action>, a: Action)
    ensures
        forall|p: Seq<Seq<u8>>, ph: int|
            #[trigger] has_action(r, p, ph) ==> has_action(r.push(a), p, ph),
{
    assert forall|p: Seq<Seq<u8>>, ph: int| #[trigger] has_action(r, p, ph) implies has_action(
        r.push(a),
        p,
        ph,
    ) by {
        let i = choose|i: int|
            0 <= i < r.len() && action_path(#[trigger] r[i]) == p && action_phase(r[i]) == ph;
        assert(r.push(a)[i] == r[i]);
    }
}

/// Appending a justified action keeps the plan sound.
proof fn lemma_plan_sound_push(src: SnapView, dst: SnapView, r: Seq<Action>, a: Action)
    requires
        plan_sound(src, dst, r),
        action_agrees(a, src, dst),
    ensures
        plan_sound(src, dst, r.push(a)),
{
    assert forall|i: int| 0 <= i < r.push(a).len() implies action_agrees(
        #[trigger] r.push(a)[i],
        src,
        dst,
    ) by {
        if i < r.len() {
            assert(r.push(a)[i] == r[i]);
            assert(action_agrees(r[i], src, dst));
        } else {
            assert(r.push(a)[i] == a);
        }
    }
}

/// Appending an action of a phase no earlier than all present keeps the
/// plan phased.
proof fn lemma_plan_phased_push(r: Seq<Action>, a: Action)
    requires
        plan_phased(r),
        forall|i: int| 0 <= i < r.len() ==> action_phase(#[trigger] r[i]) <= action_phase(a),
    ensures
        plan_phased(r.push(a)),
{
    assert forall|i: int, j: int| 0 <= i <= j < r.push(a).len() implies action_phase(
        #[trigger] r.push(a)[i],
    ) <= action_phase(#[trigger] r.push(a)[j]) by {
        if j < r.len() {
            assert(r.push(a)[i] == r[i] && r.push(a)[j] == r[j]);
        } else {
            assert(r.push(a)[j] == a);
            if i < r.len() {
                assert(r.push(a)[i] == r[i]);
            }
        }
    }
}

/// Appending a directory deletion no deeper than all present keeps the
/// deepest-first order.
proof fn lemma_deepest_first_push(r: Seq<Action>, a: Action)
    requires
        plan_dirs_deepest_first(r),
        forall|i: int|
            0 <= i < r.len() && action_phase(#[trigger] r[i]) == 2 ==> action_path(r[i]).len()
                >= action_path(a).len(),
    ensures
        plan_dirs_deepest_first(r.push(a)),
{
    assert forall|i: int, j: int|
        0 <= i < j < r.push(a).len() && action_phase(#[trigger] r.push(a)[i]) == 2 && action_phase(
            #[trigger] r.push(a)[j],
        ) == 2 implies action_path(r.push(a)[i]).len() >= action_path(r.push(a)[j]).len() by {
        assert(r.push(a)[i] == r[i]);
        if j < r.len() {
            assert(r.push(a)[j] == r[j]);
        } else {
            assert(r.push(a)[j] == a);
        }
    }
}

/// Depth ordering: in a deepest-first plan a directory is removed only
/// after every directory it strictly contains, so each removal meets an
/// already emptied directory.
pub proof fn lemma_child_deleted_before_parent(r: Seq<Action>, i: int, j: int)
    requires
        plan_dirs_deepest_first(r),
        0 <= i < r.len(),
        0 <= j < r.len(),
        action_phase(r[i]) == 2,
        action_phase(r[j]) == 2,
        is_strict_ancestor(action_path(r[i]), action_path(r[j])),
    ensures
        j < i,
{
    if i == j {
        assert(action_path(r[i]).len() < action_path(r[j]).len());
    }
    if i < j {
        assert(action_path(r[i]).len() >= action_path(r[j]).len());
    }
}

/// Compute the plan that reconciles the destination with the source.
///
/// The result is sound (every action is justified by the snapshots, and a
/// path present in both is never touched), complete (every missing path is
/// created with its kind, every extraneous file and directory is deleted),
/// phased (creations, then file deletions, then directory deletions), and
/// deletes directories deepest-first.  When the two snapshots already hold
/// the same paths the plan is empty.
pub fn compute_actions(src: &Snapshot, dst: &Snapshot) -> (r: Vec<Action>)
    requires
        src.wf(),
        dst.wf(),
    ensures
        plan_sound(src@, dst@, r@),
        plan_complete(src@, dst@, r@),
        plan_phased(r@),
        plan_dirs_deepest_first(r@),
        src@.dom() == dst@.dom() ==> r@.len() == 0,
{
    let ghost sv = src@;
    let ghost dv = dst@;
    let mut r: Vec<Action> = Vec::new();

    // Create what the source has and the destination lacks.
    let ns = src.len();
    let mut i: usize = 0;
    while i < ns
        invariant
            src.wf(),
            dst.wf(),
            sv == src@,
            dv == dst@,
            ns == src.entries_seq().len(),
            i <= ns,
            plan_sound(sv, dv, r@),
            forall|k: int| 0 <= k < r@.len() ==> action_phase(#[trigger] r@[k]) == 0,
            forall|j: int|
                0 <= j < i && missing(src.entries_seq()[j].path.deep_view(), sv, dv)
                    ==> has_action(r@, #[trigger] src.entries_seq()[j].path.deep_view(), 0),
        decreases ns - i,
    {
        let e = src.entry_at(i);
        proof {
            lemma_snap_map_index(src.entries_seq(), i as int);
        }
        if !dst.contains(&e.path) {
            let p = clone_path(&e.path);
            let a = if e.meta.is_dir {
                Action::CreateDir(p)
            } else {
                Action::CopyFile(p)
            };
            proof {
                assert(action_path(a) == e.path.deep_view());
                assert(action_agrees(a, sv, dv));
                lemma_plan_sound_push(sv, dv, r@, a);
                lemma_has_action_push(r@, a);
            }
            let ghost r_old = r@;
            r.push(a);
            proof {
                assert(r@[r_old.len() as int] == a);
                assert(has_action(r@, e.path.deep_view(), 0));
            }
        }
        i += 1;
    }
    proof {
        assert forall|p: Seq<Seq<u8>>| #[trigger] missing(p, sv, dv) implies has_action(
            r@,
            p,
            0,
        ) by {
            lemma_snap_map_contains(src.entries_seq(), p);
            let j = choose|j: int|
                0 <= j < src.entries_seq().len() && src.entries_seq()[j].path.deep_view() == p;
            assert(missing(src.entries_seq()[j].path.deep_view(), sv, dv));
        }
    }

    // Delete destination files absent from the source.
    let nd = dst.len();
    let mut j: usize = 0;
    while j < nd
        invariant
            src.wf(),
            dst.wf(),
            sv == src@,
            dv == dst@,
            nd == dst.entries_seq().len(),
            j <= nd,
            plan_sound(sv, dv, r@),
            plan_phased(r@),
            forall|k: int| 0 <= k < r@.len() ==> action_phase(#[trigger] r@[k]) <= 1,
            forall|p: Seq<Seq<u8>>| #[trigger] missing(p, sv, dv) ==> has_action(r@, p, 0),
            forall|q: int|
                0 <= q < j && prunable_file(dst.entries_seq()[q].path.deep_view(), sv, dv)
                    ==> has_action(r@, #[trigger] dst.entries_seq()[q].path.deep_view(), 1),
        decreases nd - j,
    {
        let e = dst.entry_at(j);
        proof {
            lemma_snap_map_index(dst.entries_seq(), j as int);
        }
        if !e.meta.is_dir {
            if !src.contains(&e.path) {
                let p = clone_path(&e.path);
                let a = Action::DeleteFile(p);
                proof {
                    assert(action_path(a) == e.path.deep_view());
                    assert(action_agrees(a, sv, dv));
                    lemma_plan_sound_push(sv, dv, r@, a);
                    lemma_has_action_push(r@, a);
                    lemma_plan_phased_push(r@, a);
                }
                let ghost r_old = r@;
                r.push(a);
                proof {
                    assert(r@[r_old.len() as int] == a);
                    assert(has_action(r@, e.path.deep_view(), 1));
                }
            }
        }
        j += 1;
    }
    proof {
        assert forall|p: Seq<Seq<u8>>| #[trigger] prunable_file(p, sv, dv) implies has_action(
            r@,
            p,
            1,
        ) by {
            lemma_snap_map_contains(dst.entries_seq(), p);
            let q = choose|q: int|
                0 <= q < dst.entries_seq().len() && dst.entries_seq()[q].path.deep_view() == p;
            assert(prunable_file(dst.entries_seq()[q].path.deep_view(), sv, dv));
        }
    }

    // Collect destination directories absent from the source.
    let mut pending: Vec<Vec<Vec<u8>>> = Vec::new();
    let mut t: usize = 0;
    while t < nd
        invariant
            src.wf(),
            dst.wf(),
            sv == src@,
            dv == dst@,
            nd == dst.entries_seq().len(),
            t <= nd,
            forall|k: int|
                0 <= k < pending@.len() ==> prunable_dir(
                    #[trigger] pending@[k].deep_view(),
                    sv,
                    dv,
                ),
            forall|q: int|
                0 <= q < t && prunable_dir(dst.entries_seq()[q].path.deep_view(), sv, dv)
                    ==> exists|k: int|
                    0 <= k < pending@.len() && #[trigger] pending@[k].deep_view()
                        == dst.entries_seq()[q].path.deep_view(),
        decreases nd - t,
    {
        let e = dst.entry_at(t);
        proof {
            lemma_snap_map_index(dst.entries_seq(), t as int);
        }
        if e.meta.is_dir {
            if !src.contains(&e.path) {
                let p = clone_path(&e.path);
                let ghost pending_old = pending@;
                pending.push(p);
                proof {
                    assert(pending@[pending_old.len() as int] == p);
                    assert forall|k: int| 0 <= k < pending@.len() implies prunable_dir(
                        #[trigger] pending@[k].deep_view(),
                        sv,
                        dv,
                    ) by {
                        if k < pending_old.len() {
                            assert(pending@[k] == pending_old[k]);
                        }
                    }
                    assert forall|q: int|
                        0 <= q < t + 1 && prunable_dir(
                            dst.entries_seq()[q].path.deep_view(),
                            sv,
                            dv,
                        ) implies exists|k: int|
                        0 <= k < pending@.len() && #[trigger] pending@[k].deep_view()
                            == dst.entries_seq()[q].path.deep_view() by {
                        if q < t {
                            let k = choose|k: int|
                                0 <= k < pending_old.len() && #[trigger] pending_old[k].deep_view()
                                    == dst.entries_seq()[q].path.deep_view();
                            assert(pending@[k] == pending_old[k]);
                            assert(pending@[k].deep_view()
                                == dst.entries_seq()[q].path.deep_view());
                        } else {
                            assert(pending@[pending_old.len() as int].deep_view()
                                == dst.entries_seq()[q].path.deep_view());
                        }
                    }
                }
            }
        }
        t += 1;
    }
    proof {
        assert forall|p: Seq<Seq<u8>>| #[trigger] prunable_dir(p, sv, dv) implies (exists|k: int|
            0 <= k < pending@.len() && #[trigger] pending@[k].deep_view() == p) by {
            lemma_snap_map_contains(dst.entries_seq(), p);
            let q = choose|q: int|
                0 <= q < dst.entries_seq().len() && dst.entries_seq()[q].path.deep_view() == p;
            assert(prunable_dir(dst.entries_seq()[q].path.deep_view(), sv, dv));
        }
    }

    // Delete those directories deepest-first, so each is empty in turn.
    while pending.len() > 0
        invariant
            sv == src@,
            dv == dst@,
            plan_sound(sv, dv, r@),
            plan_phased(r@),
            plan_dirs_deepest_first(r@),
            forall|p: Seq<Seq<u8>>| #[trigger] missing(p, sv, dv) ==> has_action(r@, p, 0),
            forall|p: Seq<Seq<u8>>| #[trigger] prunable_file(p, sv, dv) ==> has_action(r@, p, 1),
            forall|k: int|
                0 <= k < pending@.len() ==> prunable_dir(
                    #[trigger] pending@[k].deep_view(),
                    sv,
                    dv,
                ),
            forall|p: Seq<Seq<u8>>|
                #[trigger] prunable_dir(p, sv, dv) ==> (exists|k: int|
                    0 <= k < pending@.len() && #[trigger] pending@[k].deep_view() == p)
                    || has_action(r@, p, 2),
            forall|x: int, k: int|
                0 <= x < r@.len() && action_phase(#[trigger] r@[x]) == 2 && 0 <= k
                    < pending@.len() ==> action_path(r@[x]).len()
                    >= (#[trigger] pending@[k]).deep_view().len(),
        decreases pending@.len(),
    {
        // Find a deepest pending directory.
        let mut m: usize = 0;
        let mut u: usize = 1;
        while u < pending.len()
            invariant
                pending@.len() > 0,
                m < pending@.len(),
                u <= pending@.len(),
                forall|k: int|
                    0 <= k < u ==> (#[trigger] pending@[k]).len() <= pending@[m as int].len(),
            decreases pending@.len() - u,
        {
            if pending[u].len() > pending[m].len() {
                m = u;
            }
            u += 1;
        }
        let ghost pending_old = pending@;
        let ghost r_old = r@;
        let p = pending.swap_remove(m);
        let a = Action::DeleteDir(p);
        proof {
            assert(pending_old[m as int].deep_view() == action_path(a));
            assert(prunable_dir(action_path(a), sv, dv));
            assert(action_agrees(a, sv, dv));
            assert(forall|x: int|
                0 <= x < r@.len() && action_phase(#[trigger] r@[x]) == 2 ==> action_path(
                    r@[x],
                ).len() >= action_path(a).len());
            lemma_plan_sound_push(sv, dv, r@, a);
            lemma_has_action_push(r@, a);
            lemma_plan_phased_push(r@, a);
            lemma_deepest_first_push(r@, a);
        }
        r.push(a);
        proof {
            assert(r@[r_old.len() as int] == a);
            assert(has_action(r@, pending_old[m as int].deep_view(), 2));
            // Each remaining pending value is one of the old values.
            assert forall|k: int| 0 <= k < pending@.len() implies (pending@[k]
                == pending_old[k] || pending@[k] == pending_old[pending_old.len() - 1]) by {
                if k != m {
                    assert(pending@[k] == pending_old[k]);
                }
            }
            assert forall|p2: Seq<Seq<u8>>| #[trigger] prunable_dir(p2, sv, dv) implies (exists|
                k: int,
            |
                0 <= k < pending@.len() && #[trigger] pending@[k].deep_view() == p2)
                || has_action(r@, p2, 2) by {
                if exists|k: int|
                    0 <= k < pending_old.len() && #[trigger] pending_old[k].deep_view() == p2 {
                    let k = choose|k: int|
                        0 <= k < pending_old.len() && #[trigger] pending_old[k].deep_view()
                            == p2;
                    if k == m {
                        assert(has_action(r@, p2, 2));
                    } else if k == pending_old.len() - 1 {
                        assert(pending@[m as int] == pending_old[k]);
                        assert(pending@[m as int].deep_view() == p2);
                    } else {
                        assert(pending@[k] == pending_old[k]);
                        assert(pending@[k].deep_view() == p2);
                    }
                } else {
                    assert(has_action(r_old, p2, 2));
                }
            }
            // Depth bound: maximality carries to the remaining values.
            assert forall|x: int, k: int|
                0 <= x < r@.len() && action_phase(#[trigger] r@[x]) == 2 && 0 <= k
                    < pending@.len() implies action_path(r@[x]).len()
                >= (#[trigger] pending@[k]).deep_view().len() by {
                assert(pending@[k] == pending_old[k]
                    || pending@[k] == pending_old[pending_old.len() - 1]);
                if x < r_old.len() {
                    assert(r@[x] == r_old[x]);
                } else {
                    assert(r@[x] == a);
                }
            }
        }
    }
    proof {
        if sv.dom() == dv.dom() {
            lemma_idempotent(sv, dv, r@);
        }
    }
    r
}

} // verus!
