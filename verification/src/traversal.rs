//! Whole traversals: what the scheduler has recorded when its count of
//! pending probes reaches zero, in whatever order the probes completed.
//!
//! A traversal is described by a [`Scan`], which fixes what listing each
//! directory gives, and by the sequence of probes that completed. The
//! theorems here hold of every such sequence in which each probe had been
//! submitted before it completed and tells what the scan holds.

use vstd::prelude::*;
use vstd::multiset::*;
use crate::probe::{
    child_dirs, child_dirs_membership, file_bytes, is_child, is_directory, on_one_device, own_size,
    own_size_is_file_bytes, probe_outcome, summary_of, EntryView, ProbeView,
};
use crate::results::total;
use crate::scheduler::{admitted, admitted_membership, begin, step, submissions, SchedulerView};

verus! {

/// What a traversal is run on: the listing of every directory that can be
/// listed, the root, its device, and the paths never to submit.
pub struct Scan {
    /// The entries of each directory that can be listed. A path that is no
    /// key here fails to open.
    pub listings: Map<Seq<char>, Seq<EntryView>>,
    pub root: Seq<char>,
    pub device: u64,
    pub blacklist: Set<Seq<char>>,
}

impl Scan {
    /// Whether `p` can be listed.
    pub open spec fn listed(self, p: Seq<char>) -> bool {
        self.listings.contains_key(p)
    }

    /// The directories submitted when the probe of `p` completes: its
    /// subdirectories on the root's device that are not blacklisted.
    pub open spec fn children(self, p: Seq<char>) -> Seq<Seq<char>> {
        if self.listed(p) {
            admitted(child_dirs(self.listings[p], self.device), self.blacklist)
        } else {
            Seq::empty()
        }
    }

    /// Whether probing `p` leads to the submission of `c`.
    pub open spec fn discovers(self, p: Seq<char>, c: Seq<char>) -> bool {
        self.children(p).contains(c)
    }

    /// Whether `e` is what a probe tells of the directory it names: the
    /// summary of its listing, or a failure where it cannot be listed. There
    /// is a summary only of a listing whose own size fits in 64 bits.
    pub open spec fn faithful(self, e: ProbeView) -> bool {
        match e {
            ProbeView::Probed(summary) => self.listed(summary.path) && own_size(
                self.listings[summary.path],
                self.device,
            ) <= u64::MAX && e == probe_outcome(
                summary.path,
                self.device,
                Ok(self.listings[summary.path]),
            ),
            ProbeView::Failed { path, .. } => !self.listed(path),
        }
    }

    /// Whether `p` is found `n` submissions away from the root.
    pub open spec fn reached_in(self, p: Seq<char>, n: nat) -> bool
        decreases n,
    {
        if n == 0 {
            p == self.root
        } else {
            exists|q: Seq<char>|
                self.reached_in(q, (n - 1) as nat) && #[trigger] self.discovers(q, p)
        }
    }

    /// Whether `p` is the root or is found from it, through directories that
    /// can be listed, by way of subdirectories on the root's device that are
    /// not blacklisted.
    pub open spec fn reachable(self, p: Seq<char>) -> bool {
        exists|n: nat| self.reached_in(p, n)
    }

    /// Whether some directory that can be listed holds `p` as a subdirectory
    /// on the root's device.
    pub open spec fn holds_child(self, p: Seq<char>) -> bool {
        exists|q: Seq<char>, i: int|
            self.listed(q) && 0 <= i < self.listings[q].len() && (
            #[trigger] self.listings[q][i]).path == p && is_child(self.listings[q][i], self.device)
    }

    /// Whether the listing of `p` holds `c` as a directory, on whatever
    /// device and blacklisted or not.
    pub open spec fn holds_directory(self, p: Seq<char>, c: Seq<char>) -> bool {
        self.listed(p) && exists|i: int|
            0 <= i < self.listings[p].len() && (#[trigger] self.listings[p][i]).path == c
                && is_directory(self.listings[p][i])
    }

    /// Whether `p` lies `n` directories below the root.
    pub open spec fn in_tree_at(self, p: Seq<char>, n: nat) -> bool
        decreases n,
    {
        if n == 0 {
            p == self.root
        } else {
            exists|q: Seq<char>|
                self.in_tree_at(q, (n - 1) as nat) && #[trigger] self.holds_directory(q, p)
        }
    }

    /// Whether `p` is a directory of the tree under the root: the root, or
    /// a directory that one of them holds.
    pub open spec fn in_tree(self, p: Seq<char>) -> bool {
        exists|n: nat| self.in_tree_at(p, n)
    }

    /// Whether the blacklist takes single directories out of the tree and
    /// nothing with them: the root is not blacklisted, and no blacklisted
    /// directory holds another.
    pub open spec fn blacklist_is_shallow(self) -> bool {
        &&& !self.blacklist.contains(self.root)
        &&& forall|p: Seq<char>, c: Seq<char>| #[trigger]
            self.holds_directory(p, c) ==> !self.blacklist.contains(p)
    }

    /// Whether every subdirectory in every listing is on the root's device.
    pub open spec fn on_one_device(self) -> bool {
        forall|p: Seq<char>| #[trigger]
            self.listed(p) ==> on_one_device(self.listings[p], self.device)
    }

    /// For every reachable directory that can be listed, the bytes of the
    /// files directly in it.
    pub open spec fn file_sizes(self) -> Map<Seq<char>, u64> {
        Map::new(
            |p: Seq<char>| self.reachable(p) && self.listed(p),
            |p: Seq<char>| file_bytes(self.listings[p]) as u64,
        )
    }

    /// The sizes that a complete traversal records: the own size of every
    /// reachable directory that can be listed.
    pub open spec fn expected(self) -> Map<Seq<char>, u64> {
        Map::new(
            |p: Seq<char>| self.reachable(p) && self.listed(p),
            |p: Seq<char>| summary_of(p, self.listings[p], self.device).size,
        )
    }
}

/// The scheduler's state after the probes `events` completed, in that order.
pub open spec fn state_after(scan: Scan, events: Seq<ProbeView>) -> SchedulerView
    decreases events.len(),
{
    if events.len() == 0 {
        begin(scan.device, scan.blacklist)
    } else {
        step(state_after(scan, events.drop_last()), events.last())
    }
}

/// The directories submitted and not yet completed after `events`, each as
/// often as it is outstanding.
pub open spec fn in_flight(scan: Scan, events: Seq<ProbeView>) -> Multiset<Seq<char>>
    decreases events.len(),
{
    if events.len() == 0 {
        Multiset::singleton(scan.root)
    } else {
        in_flight(scan, events.drop_last()).remove(events.last().path()).add(
            submissions(state_after(scan, events.drop_last()), events.last()).to_multiset(),
        )
    }
}

/// The number of probes submitted up to the end of `events`, the root's
/// included.
pub open spec fn submitted(scan: Scan, events: Seq<ProbeView>) -> nat
    decreases events.len(),
{
    if events.len() == 0 {
        1
    } else {
        submitted(scan, events.drop_last()) + submissions(
            state_after(scan, events.drop_last()),
            events.last(),
        ).len()
    }
}

/// Whether `events` can be the completions of a traversal of `scan`: each
/// probe was outstanding when it completed, and tells what the scan holds.
pub open spec fn valid(scan: Scan, events: Seq<ProbeView>) -> bool
    decreases events.len(),
{
    events.len() == 0 || {
        &&& valid(scan, events.drop_last())
        &&& in_flight(scan, events.drop_last()).contains(events.last().path())
        &&& scan.faithful(events.last())
    }
}

/// Whether a probe of `p` is among `events`.
pub open spec fn completed(events: Seq<ProbeView>, p: Seq<char>) -> bool {
    exists|i: int| 0 <= i < events.len() && (#[trigger] events[i]).path() == p
}

/// The device and the blacklist stay as the traversal began with them.
pub proof fn state_keeps_scan(scan: Scan, events: Seq<ProbeView>)
    ensures
        state_after(scan, events).device == scan.device,
        state_after(scan, events).blacklist == scan.blacklist,
    decreases events.len(),
{
    if events.len() > 0 {
        state_keeps_scan(scan, events.drop_last());
    }
}

/// A faithful probe leads to the submission of exactly the children that
/// the scan gives its directory.
pub proof fn submissions_are_children(scan: Scan, events: Seq<ProbeView>, e: ProbeView)
    requires
        scan.faithful(e),
    ensures
        submissions(state_after(scan, events), e) == scan.children(e.path()),
{
    state_keeps_scan(scan, events);
}

/// The scheduler's count of pending probes is the number of directories
/// outstanding, and it is the number of probes submitted less the number
/// completed.
pub proof fn pending_counts_outstanding(scan: Scan, events: Seq<ProbeView>)
    requires
        valid(scan, events),
    ensures
        state_after(scan, events).pending == in_flight(scan, events).len(),
        state_after(scan, events).pending == submitted(scan, events) - events.len(),
    decreases events.len(),
{
    broadcast use group_multiset_axioms;
    broadcast use vstd::seq_lib::group_to_multiset_ensures;

    if events.len() > 0 {
        let before = events.drop_last();
        let e = events.last();
        pending_counts_outstanding(scan, before);
        let flying = in_flight(scan, before);
        assert(Multiset::singleton(e.path()).subset_of(flying)) by {
            assert forall|v: Seq<char>|
                Multiset::singleton(e.path()).count(v) <= flying.count(v) by {
                if v != e.path() {
                    assert(Multiset::singleton(e.path()).count(v) == 0);
                }
            }
        }
    }
}

/// Every directory outstanding is reachable.
pub proof fn outstanding_is_reachable(scan: Scan, events: Seq<ProbeView>)
    requires
        valid(scan, events),
    ensures
        forall|p: Seq<char>| in_flight(scan, events).contains(p) ==> scan.reachable(p),
    decreases events.len(),
{
    broadcast use group_multiset_axioms;
    broadcast use vstd::seq_lib::group_to_multiset_ensures;

    if events.len() == 0 {
        assert forall|p: Seq<char>| in_flight(scan, events).contains(p) implies scan.reachable(
            p,
        ) by {
            assert(p == scan.root);
            assert(scan.reached_in(p, 0));
        }
    } else {
        let before = events.drop_last();
        let e = events.last();
        let q = e.path();
        outstanding_is_reachable(scan, before);
        submissions_are_children(scan, before, e);
        assert forall|p: Seq<char>| in_flight(scan, events).contains(p) implies scan.reachable(
            p,
        ) by {
            if !in_flight(scan, before).contains(p) {
                assert(scan.children(q).contains(p));
                assert(scan.reachable(q));
                let n = choose|n: nat| scan.reached_in(q, n);
                assert(scan.reached_in(q, ((n + 1) - 1) as nat) && scan.discovers(q, p));
                assert(scan.reached_in(p, n + 1));
            }
        }
    }
}

/// Every probe that completed was of a reachable directory.
pub proof fn completed_is_reachable(scan: Scan, events: Seq<ProbeView>)
    requires
        valid(scan, events),
    ensures
        forall|p: Seq<char>| completed(events, p) ==> scan.reachable(p),
    decreases events.len(),
{
    if events.len() > 0 {
        let before = events.drop_last();
        completed_is_reachable(scan, before);
        outstanding_is_reachable(scan, before);
        assert forall|p: Seq<char>| completed(events, p) implies scan.reachable(p) by {
            let i = choose|i: int| 0 <= i < events.len() && (#[trigger] events[i]).path() == p;
            if i < events.len() - 1 {
                assert(before[i].path() == p);
                assert(completed(before, p));
            }
        }
    }
}

/// Whatever is recorded is the own size of a reachable directory that can be
/// listed.
pub proof fn recorded_is_expected(scan: Scan, events: Seq<ProbeView>)
    requires
        valid(scan, events),
    ensures
        state_after(scan, events).results.submap_of(scan.expected()),
    decreases events.len(),
{
    if events.len() > 0 {
        let before = events.drop_last();
        recorded_is_expected(scan, before);
        outstanding_is_reachable(scan, before);
    }
}

/// Whether nothing that the traversal has come across is lost: the root and
/// every child of a completed directory is outstanding or completed, and
/// every completed directory that can be listed is recorded.
pub open spec fn nothing_lost(scan: Scan, events: Seq<ProbeView>) -> bool {
    &&& in_flight(scan, events).contains(scan.root) || completed(events, scan.root)
    &&& forall|p: Seq<char>, c: Seq<char>|
        #![trigger completed(events, p), scan.discovers(p, c)]
        completed(events, p) && scan.discovers(p, c) ==> in_flight(scan, events).contains(c)
            || completed(events, c)
    &&& forall|p: Seq<char>| #[trigger]
        completed(events, p) && scan.listed(p) ==> state_after(scan, events).results.contains_key(
            p,
        )
}

/// A probe completed earlier stays completed.
proof fn completed_stays(events: Seq<ProbeView>, p: Seq<char>)
    requires
        events.len() > 0,
        completed(events.drop_last(), p),
    ensures
        completed(events, p),
{
    let before = events.drop_last();
    let i = choose|i: int| 0 <= i < before.len() && (#[trigger] before[i]).path() == p;
    assert(events[i].path() == p);
}

/// A completed probe is the last one or completed earlier.
proof fn completed_when(events: Seq<ProbeView>, p: Seq<char>)
    requires
        events.len() > 0,
        completed(events, p),
    ensures
        events.last().path() == p || completed(events.drop_last(), p),
{
    let before = events.drop_last();
    let i = choose|i: int| 0 <= i < events.len() && (#[trigger] events[i]).path() == p;
    if i < events.len() - 1 {
        assert(before[i].path() == p);
    }
}

/// A traversal loses nothing that it has come across.
pub proof fn traversal_loses_nothing(scan: Scan, events: Seq<ProbeView>)
    requires
        valid(scan, events),
    ensures
        nothing_lost(scan, events),
    decreases events.len(),
{
    broadcast use group_multiset_axioms;
    broadcast use vstd::seq_lib::group_to_multiset_ensures;

    if events.len() == 0 {
        assert forall|p: Seq<char>| !completed(events, p) by {}
    } else {
        let before = events.drop_last();
        let e = events.last();
        let q = e.path();
        traversal_loses_nothing(scan, before);
        submissions_are_children(scan, before, e);
        let flying = in_flight(scan, before);
        let now = in_flight(scan, events);
        assert(completed(events, q)) by {
            assert(events[events.len() - 1].path() == q);
        }
        assert forall|c: Seq<char>| flying.contains(c) implies now.contains(c) || completed(
            events,
            c,
        ) by {
            if c != q {
                assert(Multiset::singleton(q).count(c) == 0);
            }
        }
        assert(now.contains(scan.root) || completed(events, scan.root)) by {
            if completed(before, scan.root) {
                completed_stays(events, scan.root);
            }
        }
        assert forall|p: Seq<char>, c: Seq<char>|
            #![trigger completed(events, p), scan.discovers(p, c)]
            completed(events, p) && scan.discovers(p, c) implies now.contains(c) || completed(
                events,
                c,
            ) by {
            completed_when(events, p);
            if completed(before, p) {
                if completed(before, c) {
                    completed_stays(events, c);
                }
            } else {
                assert(scan.children(q).contains(c));
            }
        }
        assert forall|p: Seq<char>| #[trigger]
            completed(events, p) && scan.listed(p) implies state_after(
                scan,
                events,
            ).results.contains_key(p) by {
            completed_when(events, p);
        }
    }
}

/// Once nothing is outstanding, every directory found within `n` submissions
/// of the root has completed.
proof fn reached_is_completed(scan: Scan, events: Seq<ProbeView>, p: Seq<char>, n: nat)
    requires
        nothing_lost(scan, events),
        in_flight(scan, events).len() == 0,
        scan.reached_in(p, n),
    ensures
        completed(events, p),
    decreases n,
{
    broadcast use group_multiset_axioms;

    if n > 0 {
        let q = choose|q: Seq<char>|
            scan.reached_in(q, (n - 1) as nat) && #[trigger] scan.discovers(q, p);
        reached_is_completed(scan, events, q, (n - 1) as nat);
        assert(completed(events, q) && scan.discovers(q, p));
    }
}

/// When no probe is pending, the probes that completed are those of the
/// reachable directories.
pub proof fn finished_has_probed_all(scan: Scan, events: Seq<ProbeView>)
    requires
        valid(scan, events),
        state_after(scan, events).pending == 0,
    ensures
        forall|p: Seq<char>| completed(events, p) <==> scan.reachable(p),
{
    pending_counts_outstanding(scan, events);
    traversal_loses_nothing(scan, events);
    completed_is_reachable(scan, events);
    assert forall|p: Seq<char>| scan.reachable(p) implies completed(events, p) by {
        let n = choose|n: nat| scan.reached_in(p, n);
        reached_is_completed(scan, events, p, n);
    }
}

/// When no probe is pending, the sizes recorded are those of the reachable
/// directories that can be listed, and of no others: each directory found
/// from the root has been probed, one that could not be listed is left out,
/// and neither the order in which the probes completed nor their number at
/// any one time has a part in the outcome.
pub proof fn finished_records_expected(scan: Scan, events: Seq<ProbeView>)
    requires
        valid(scan, events),
        state_after(scan, events).pending == 0,
    ensures
        state_after(scan, events).results == scan.expected(),
{
    finished_has_probed_all(scan, events);
    traversal_loses_nothing(scan, events);
    recorded_is_expected(scan, events);
    assert(state_after(scan, events).results =~= scan.expected());
}

/// Whether the traversal has had to do with `p`: a probe of it is
/// outstanding or has completed, or a size is recorded under it.
pub open spec fn touched(scan: Scan, events: Seq<ProbeView>, p: Seq<char>) -> bool {
    ||| in_flight(scan, events).contains(p)
    ||| completed(events, p)
    ||| state_after(scan, events).results.contains_key(p)
}

/// A directory other than the root that the traversal has had to do with is
/// not blacklisted, and some listing holds it as a subdirectory on the
/// root's device.
pub proof fn touched_was_admitted(scan: Scan, events: Seq<ProbeView>, p: Seq<char>)
    requires
        valid(scan, events),
        touched(scan, events, p),
        p != scan.root,
    ensures
        !scan.blacklist.contains(p),
        scan.holds_child(p),
{
    outstanding_is_reachable(scan, events);
    completed_is_reachable(scan, events);
    recorded_is_expected(scan, events);
    if state_after(scan, events).results.contains_key(p) {
        assert(scan.expected().contains_key(p));
    }
    assert(scan.reachable(p));
    let n = choose|n: nat| scan.reached_in(p, n);
    let q = choose|q: Seq<char>|
        scan.reached_in(q, (n - 1) as nat) && #[trigger] scan.discovers(q, p);
    let found = child_dirs(scan.listings[q], scan.device);
    admitted_membership(found, scan.blacklist, p);
    child_dirs_membership(scan.listings[q], scan.device, p);
    let i = choose|i: int|
        0 <= i < scan.listings[q].len() && (#[trigger] scan.listings[q][i]).path == p && is_child(
            scan.listings[q][i],
            scan.device,
        );
    assert(scan.listed(q) && scan.listings[q][i].path == p);
}

/// A blacklisted directory other than the root is never probed: no probe of
/// it is ever outstanding or completed, and nothing is recorded under it.
pub proof fn blacklisted_is_never_probed(scan: Scan, events: Seq<ProbeView>, p: Seq<char>)
    requires
        valid(scan, events),
        scan.blacklist.contains(p),
        p != scan.root,
    ensures
        !touched(scan, events, p),
{
    if touched(scan, events, p) {
        touched_was_admitted(scan, events, p);
    }
}

/// A directory other than the root that no listing holds as a subdirectory
/// on the root's device is never probed, and nothing is recorded under it.
pub proof fn other_device_is_never_probed(scan: Scan, events: Seq<ProbeView>, p: Seq<char>)
    requires
        valid(scan, events),
        !scan.holds_child(p),
        p != scan.root,
    ensures
        !touched(scan, events, p),
{
    if touched(scan, events, p) {
        touched_was_admitted(scan, events, p);
    }
}

/// A directory that cannot be listed leaves no size behind, and keeps none
/// of its siblings from being probed: of two children of one probed
/// directory, the one that can be listed is recorded when the traversal is
/// over, the other is not.
pub proof fn failure_spares_siblings(
    scan: Scan,
    events: Seq<ProbeView>,
    parent: Seq<char>,
    denied: Seq<char>,
    sibling: Seq<char>,
)
    requires
        valid(scan, events),
        state_after(scan, events).pending == 0,
        scan.reachable(parent),
        scan.discovers(parent, denied),
        scan.discovers(parent, sibling),
        !scan.listed(denied),
        scan.listed(sibling),
    ensures
        !state_after(scan, events).results.contains_key(denied),
        state_after(scan, events).results.contains_key(sibling),
        completed(events, denied),
{
    finished_records_expected(scan, events);
    finished_has_probed_all(scan, events);
    let n = choose|n: nat| scan.reached_in(parent, n);
    assert(scan.reached_in(parent, ((n + 1) - 1) as nat) && scan.discovers(parent, sibling));
    assert(scan.reached_in(sibling, n + 1));
    assert(scan.reached_in(parent, ((n + 1) - 1) as nat) && scan.discovers(parent, denied));
    assert(scan.reached_in(denied, n + 1));
}

/// The sizes recorded are finitely many.
pub proof fn recorded_is_finite(scan: Scan, events: Seq<ProbeView>)
    ensures
        state_after(scan, events).results.dom().finite(),
    decreases events.len(),
{
    if events.len() > 0 {
        recorded_is_finite(scan, events.drop_last());
    }
}

/// The own size of every directory that was probed and can be listed fits in
/// 64 bits: its probe gave a summary.
pub proof fn completed_fits(scan: Scan, events: Seq<ProbeView>, p: Seq<char>)
    requires
        valid(scan, events),
        completed(events, p),
        scan.listed(p),
    ensures
        own_size(scan.listings[p], scan.device) <= u64::MAX,
    decreases events.len(),
{
    completed_when(events, p);
    if events.last().path() != p {
        completed_fits(scan, events.drop_last(), p);
    }
}

/// When the traversal is over, the size recorded for the root is the sum of
/// the lengths of the files directly in it, where the root can be listed and
/// its subdirectories are on its device.
pub proof fn root_size_is_file_bytes(scan: Scan, events: Seq<ProbeView>)
    requires
        valid(scan, events),
        state_after(scan, events).pending == 0,
        scan.listed(scan.root),
        on_one_device(scan.listings[scan.root], scan.device),
    ensures
        state_after(scan, events).results.contains_key(scan.root),
        state_after(scan, events).results[scan.root] == file_bytes(scan.listings[scan.root]),
{
    finished_records_expected(scan, events);
    finished_has_probed_all(scan, events);
    assert(scan.reached_in(scan.root, 0));
    completed_fits(scan, events, scan.root);
    own_size_is_file_bytes(scan.listings[scan.root], scan.device);
}

/// When the traversal of a tree on one device is over, each size recorded is
/// the sum of the lengths of the files directly in its directory, so that
/// the sum of all sizes recorded is the sum of the lengths of all files in
/// the reachable directories.
pub proof fn finished_sums_files(scan: Scan, events: Seq<ProbeView>)
    requires
        valid(scan, events),
        state_after(scan, events).pending == 0,
        scan.on_one_device(),
    ensures
        forall|p: Seq<char>| #[trigger]
            state_after(scan, events).results.contains_key(p) ==> state_after(
                scan,
                events,
            ).results[p] == file_bytes(scan.listings[p]),
        state_after(scan, events).results == scan.file_sizes(),
        state_after(scan, events).results.dom().finite(),
        total(state_after(scan, events).results) == total(scan.file_sizes()),
{
    finished_records_expected(scan, events);
    finished_has_probed_all(scan, events);
    recorded_is_finite(scan, events);
    assert forall|p: Seq<char>| scan.expected().contains_key(p) implies scan.expected()[p]
        == file_bytes(scan.listings[p]) && scan.expected()[p] == scan.file_sizes()[p] by {
        assert(scan.listed(p));
        completed_fits(scan, events, p);
        own_size_is_file_bytes(scan.listings[p], scan.device);
    }
    assert(scan.expected() =~= scan.file_sizes());
}

/// What is found within `n` submissions of the root lies `n` directories
/// below it and is not blacklisted, where the root is not.
proof fn reached_is_in_tree(scan: Scan, p: Seq<char>, n: nat)
    requires
        !scan.blacklist.contains(scan.root),
        scan.reached_in(p, n),
    ensures
        scan.in_tree_at(p, n),
        !scan.blacklist.contains(p),
    decreases n,
{
    if n > 0 {
        let q = choose|q: Seq<char>|
            scan.reached_in(q, (n - 1) as nat) && #[trigger] scan.discovers(q, p);
        reached_is_in_tree(scan, q, (n - 1) as nat);
        admitted_membership(child_dirs(scan.listings[q], scan.device), scan.blacklist, p);
        child_dirs_membership(scan.listings[q], scan.device, p);
        let i = choose|i: int|
            0 <= i < scan.listings[q].len() && (#[trigger] scan.listings[q][i]).path == p
                && is_child(scan.listings[q][i], scan.device);
        assert(scan.listings[q][i].path == p && is_directory(scan.listings[q][i]));
        assert(scan.in_tree_at(q, (n - 1) as nat) && scan.holds_directory(q, p));
    }
}

/// On one device and with a shallow blacklist, a directory of the tree that
/// is not blacklisted is found from the root.
proof fn in_tree_is_reached(scan: Scan, p: Seq<char>, n: nat)
    requires
        scan.on_one_device(),
        scan.blacklist_is_shallow(),
        scan.in_tree_at(p, n),
        !scan.blacklist.contains(p),
    ensures
        scan.reached_in(p, n),
    decreases n,
{
    if n > 0 {
        let q = choose|q: Seq<char>|
            scan.in_tree_at(q, (n - 1) as nat) && #[trigger] scan.holds_directory(q, p);
        in_tree_is_reached(scan, q, (n - 1) as nat);
        let i = choose|i: int|
            0 <= i < scan.listings[q].len() && (#[trigger] scan.listings[q][i]).path == p
                && is_directory(scan.listings[q][i]);
        assert(scan.listed(q));
        assert(is_child(scan.listings[q][i], scan.device));
        child_dirs_membership(scan.listings[q], scan.device, p);
        admitted_membership(child_dirs(scan.listings[q], scan.device), scan.blacklist, p);
        assert(scan.reached_in(q, (n - 1) as nat) && scan.discovers(q, p));
    }
}

/// When the traversal of a tree on one device is over, the directories
/// recorded are those of the tree, less the blacklisted ones and less those
/// that could not be listed. This holds where the blacklist is shallow: what
/// lies below a blacklisted directory is never found.
pub proof fn finished_keys_are_the_tree(scan: Scan, events: Seq<ProbeView>)
    requires
        valid(scan, events),
        state_after(scan, events).pending == 0,
        scan.on_one_device(),
        scan.blacklist_is_shallow(),
    ensures
        state_after(scan, events).results.dom() == Set::new(
            |p: Seq<char>| scan.in_tree(p) && !scan.blacklist.contains(p) && scan.listed(p),
        ),
{
    finished_records_expected(scan, events);
    assert forall|p: Seq<char>|
        scan.reachable(p) <==> scan.in_tree(p) && !scan.blacklist.contains(p) by {
        if scan.reachable(p) {
            let n = choose|n: nat| scan.reached_in(p, n);
            reached_is_in_tree(scan, p, n);
        }
        if scan.in_tree(p) && !scan.blacklist.contains(p) {
            let n = choose|n: nat| scan.in_tree_at(p, n);
            in_tree_is_reached(scan, p, n);
        }
    }
    assert(state_after(scan, events).results.dom() =~= Set::new(
        |p: Seq<char>| scan.in_tree(p) && !scan.blacklist.contains(p) && scan.listed(p),
    ));
}

} // verus!
