//! How many probes a traversal makes: one for each reachable directory,
//! where the directories form a tree.

use vstd::prelude::*;
use vstd::multiset::*;
use crate::probe::ProbeView;
use crate::traversal::{
    completed, completed_is_reachable, finished_has_probed_all, in_flight,
    outstanding_is_reachable, pending_counts_outstanding, state_after, submissions_are_children,
    submitted, valid, Scan,
};

verus! {

/// Whether the directories of `scan` form a tree under the root: nothing
/// leads to the root, no directory is found from two others, and none is
/// found twice in one listing.
pub open spec fn is_tree(scan: Scan) -> bool {
    &&& forall|q: Seq<char>| !#[trigger] scan.discovers(q, scan.root)
    &&& forall|q1: Seq<char>, q2: Seq<char>, c: Seq<char>|
        #![trigger scan.discovers(q1, c), scan.discovers(q2, c)]
        scan.discovers(q1, c) && scan.discovers(q2, c) ==> q1 == q2
    &&& forall|q: Seq<char>| #[trigger] scan.children(q).no_duplicates()
}

/// The directories that the probes `events` were of, in order.
pub open spec fn paths(events: Seq<ProbeView>) -> Seq<Seq<char>> {
    Seq::new(events.len(), |i: int| events[i].path())
}

/// The reachable directories of `scan`.
pub open spec fn directories(scan: Scan) -> Set<Seq<char>> {
    Set::new(|p: Seq<char>| scan.reachable(p))
}

/// Whether each directory has been submitted at most once, and each but the
/// root by a probe that completed.
spec fn once(scan: Scan, events: Seq<ProbeView>) -> bool {
    &&& forall|p: Seq<char>|
        in_flight(scan, events).count(p) + (#[trigger] paths(events).to_multiset().count(p)) <= 1
    &&& forall|p: Seq<char>|
        #![trigger in_flight(scan, events).count(p)]
        #![trigger completed(events, p)]
        in_flight(scan, events).count(p) > 0 || completed(events, p) ==> p == scan.root
            || exists|q: Seq<char>| completed(events, q) && #[trigger] scan.discovers(q, p)
}

/// A probe of `p` has completed exactly where `p` is among the paths.
proof fn completed_iff_counted(events: Seq<ProbeView>, p: Seq<char>)
    ensures
        completed(events, p) <==> paths(events).to_multiset().count(p) > 0,
{
    broadcast use vstd::seq_lib::group_to_multiset_ensures;

    let all = paths(events);
    if completed(events, p) {
        let i = choose|i: int| 0 <= i < events.len() && (#[trigger] events[i]).path() == p;
        assert(all[i] == p);
        assert(all.contains(p));
    }
    if all.contains(p) {
        let i = choose|i: int| 0 <= i < all.len() && all[i] == p;
        assert(events[i].path() == p);
    }
}

proof fn probed_once(scan: Scan, events: Seq<ProbeView>)
    requires
        valid(scan, events),
        is_tree(scan),
    ensures
        once(scan, events),
    decreases events.len(),
{
    broadcast use group_multiset_axioms;
    broadcast use vstd::seq_lib::group_to_multiset_ensures;

    if events.len() == 0 {
        assert forall|p: Seq<char>| !completed(events, p) by {}
        assert forall|p: Seq<char>| paths(events).to_multiset().count(p) == 0 by {
            completed_iff_counted(events, p);
        }
    } else {
        let before = events.drop_last();
        let e = events.last();
        let q = e.path();
        probed_once(scan, before);
        submissions_are_children(scan, before, e);
        let flying = in_flight(scan, before);
        let now = in_flight(scan, events);
        let done = paths(before).to_multiset();
        let found = scan.children(q);
        assert(paths(events) =~= paths(before).push(q));
        assert(paths(events).to_multiset() =~= done.insert(q));
        assert(now == flying.remove(q).add(found.to_multiset()));
        assert(completed(events, q)) by {
            assert(events[events.len() - 1].path() == q);
        }
        assert(flying.count(q) == 1 && done.count(q) == 0) by {
            assert(flying.count(q) + paths(before).to_multiset().count(q) <= 1);
        }
        completed_iff_counted(before, q);
        assert forall|c: Seq<char>| scan.discovers(q, c) implies flying.count(c) == 0
            && done.count(c) == 0 by {
            completed_iff_counted(before, c);
            if flying.count(c) > 0 || completed(before, c) {
                assert(c != scan.root);
                let q2 = choose|q2: Seq<char>|
                    completed(before, q2) && #[trigger] scan.discovers(q2, c);
                assert(q2 == q);
            }
        }
        assert(found.no_duplicates());
        found.lemma_multiset_has_no_duplicates();
        assert forall|p: Seq<char>|
            now.count(p) + (#[trigger] paths(events).to_multiset().count(p)) <= 1 by {
            assert(flying.count(p) + paths(before).to_multiset().count(p) <= 1);
            assert(found.to_multiset().count(p) > 0 <==> scan.discovers(q, p));
            if found.to_multiset().count(p) > 0 {
                assert(found.to_multiset().contains(p));
            }
            if p != q {
                assert(Multiset::singleton(q).count(p) == 0);
            }
        }
        assert forall|p: Seq<char>|
            #![trigger now.count(p)]
            #![trigger completed(events, p)]
            now.count(p) > 0 || completed(events, p) implies p == scan.root || exists|
            q2: Seq<char>,
        | completed(events, q2) && #[trigger] scan.discovers(q2, p) by {
            if p != scan.root {
                if found.to_multiset().count(p) > 0 {
                    assert(completed(events, q) && scan.discovers(q, p));
                } else {
                    if !(flying.count(p) > 0 || completed(before, p)) {
                        assert(completed(events, p));
                        let i = choose|i: int|
                            0 <= i < events.len() && (#[trigger] events[i]).path() == p;
                        if i < events.len() - 1 {
                            assert(before[i].path() == p);
                        }
                        assert(p == q);
                    }
                    let q2 = choose|q2: Seq<char>|
                        completed(before, q2) && #[trigger] scan.discovers(q2, p);
                    let i = choose|i: int|
                        0 <= i < before.len() && (#[trigger] before[i]).path() == q2;
                    assert(events[i].path() == q2);
                    assert(completed(events, q2) && scan.discovers(q2, p));
                }
            }
        }
    }
}

/// In a tree no directory is probed twice: the probes that completed were
/// of different directories, and none of them is outstanding again.
pub proof fn each_directory_probed_once(scan: Scan, events: Seq<ProbeView>)
    requires
        valid(scan, events),
        is_tree(scan),
    ensures
        paths(events).no_duplicates(),
        forall|p: Seq<char>| in_flight(scan, events).count(p) <= 1,
        forall|p: Seq<char>| !(in_flight(scan, events).contains(p) && completed(events, p)),
{
    broadcast use group_multiset_axioms;

    probed_once(scan, events);
    assert forall|p: Seq<char>| in_flight(scan, events).count(p) <= 1 by {
        assert(in_flight(scan, events).count(p) + paths(events).to_multiset().count(p) <= 1);
    }
    assert forall|p: Seq<char>| !(in_flight(scan, events).contains(p) && completed(events, p)) by {
        assert(in_flight(scan, events).count(p) + paths(events).to_multiset().count(p) <= 1);
        completed_iff_counted(events, p);
    }
    assert forall|p: Seq<char>|
        paths(events).to_multiset().contains(p) implies paths(events).to_multiset().count(p)
        == 1 by {
        assert(in_flight(scan, events).count(p) + paths(events).to_multiset().count(p) <= 1);
    }
    paths(events).lemma_multiset_has_no_duplicates_conv();
}

/// When the traversal of a tree is over, it has submitted one probe for each
/// reachable directory and seen each complete: the number of submissions and
/// the number of completions are both the number of reachable directories.
pub proof fn finished_counts_directories(scan: Scan, events: Seq<ProbeView>)
    requires
        valid(scan, events),
        is_tree(scan),
        state_after(scan, events).pending == 0,
    ensures
        directories(scan).finite(),
        events.len() == directories(scan).len(),
        submitted(scan, events) == directories(scan).len(),
{
    each_directory_probed_once(scan, events);
    finished_has_probed_all(scan, events);
    pending_counts_outstanding(scan, events);
    let all = paths(events);
    vstd::seq_lib::seq_to_set_is_finite(all);
    all.unique_seq_to_set();
    assert(all.to_set() =~= directories(scan)) by {
        assert forall|p: Seq<char>| all.to_set().contains(p) <==> directories(scan).contains(
            p,
        ) by {
            completed_iff_counted(events, p);
            all.to_multiset_ensures();
        }
    }
}

/// In a tree with finitely many reachable directories, no probe is pending
/// exactly when as many probes have completed as there are reachable
/// directories.
pub proof fn done_when_all_completed(scan: Scan, events: Seq<ProbeView>)
    requires
        valid(scan, events),
        is_tree(scan),
        directories(scan).finite(),
    ensures
        state_after(scan, events).pending == 0 <==> events.len() == directories(scan).len(),
{
    broadcast use group_multiset_axioms;

    if state_after(scan, events).pending == 0 {
        finished_counts_directories(scan, events);
    }
    if events.len() == directories(scan).len() {
        each_directory_probed_once(scan, events);
        completed_is_reachable(scan, events);
        outstanding_is_reachable(scan, events);
        pending_counts_outstanding(scan, events);
        let all = paths(events);
        vstd::seq_lib::seq_to_set_is_finite(all);
        all.unique_seq_to_set();
        assert(all.to_set().subset_of(directories(scan))) by {
            assert forall|p: Seq<char>| all.to_set().contains(p) implies directories(
                scan,
            ).contains(p) by {
                completed_iff_counted(events, p);
                all.to_multiset_ensures();
            }
        }
        vstd::set_lib::lemma_subset_equality(all.to_set(), directories(scan));
        let flying = in_flight(scan, events);
        if flying.len() > 0 {
            lemma_multiset_empty_len(flying);
            let p = choose|p: Seq<char>| 0 < flying.count(p);
            assert(directories(scan).contains(p));
            assert(all.to_set().contains(p));
            completed_iff_counted(events, p);
            all.to_multiset_ensures();
            assert(flying.contains(p) && completed(events, p));
        }
    }
}

} // verus!
