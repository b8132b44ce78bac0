//! The bookkeeping of a traversal: what is recorded and what is submitted
//! when a probe completes, and when the traversal is over.
//!
//! The scheduler counts the probes that were submitted and have not yet
//! completed. The traversal is over when that count is zero, whatever the
//! workers that run the probes are doing.

use vstd::prelude::*;
use vstd::hash_set::StringHashSet;
use crate::probe::{texts, DirMetadata, ErrorKind, ProbeError, ProbeView, probe_view};
use crate::results::ResultMap;

verus! {

/// A directory to probe, with the device that the traversal stays on.
#[derive(Clone, Debug)]
pub struct ScanRequest {
    pub path: String,
    pub device: u64,
}

/// A [`ScanRequest`] with its path as a sequence of characters.
pub struct ScanRequestView {
    pub path: Seq<char>,
    pub device: u64,
}

impl View for ScanRequest {
    type V = ScanRequestView;

    open spec fn view(&self) -> ScanRequestView {
        ScanRequestView { path: self.path@, device: self.device }
    }
}

/// The requests of `v`, each as its view.
pub open spec fn request_views(v: Seq<ScanRequest>) -> Seq<ScanRequestView> {
    Seq::new(v.len(), |i: int| v[i]@)
}

/// One request for each of `paths`, in order, all on `device`.
pub open spec fn requests_for(paths: Seq<Seq<char>>, device: u64) -> Seq<ScanRequestView> {
    Seq::new(paths.len(), |i: int| ScanRequestView { path: paths[i], device })
}

/// The state of a traversal.
pub struct SchedulerView {
    /// The device of the root, fixed when the traversal begins.
    pub device: u64,
    /// The paths that are never submitted.
    pub blacklist: Set<Seq<char>>,
    /// The probes submitted and not yet completed.
    pub pending: nat,
    /// The own size of each directory probed with success.
    pub results: Map<Seq<char>, u64>,
}

/// Those of `children` that are not in `blacklist`, in order.
pub open spec fn admitted(children: Seq<Seq<char>>, blacklist: Set<Seq<char>>) -> Seq<Seq<char>>
    decreases children.len(),
{
    if children.len() == 0 {
        Seq::empty()
    } else if blacklist.contains(children.last()) {
        admitted(children.drop_last(), blacklist)
    } else {
        admitted(children.drop_last(), blacklist).push(children.last())
    }
}

/// The state in which only the root has been submitted.
pub open spec fn begin(device: u64, blacklist: Set<Seq<char>>) -> SchedulerView {
    SchedulerView { device, blacklist, pending: 1, results: Map::empty() }
}

/// The directories that are submitted when the probe `e` completes in the
/// state `s`: the subdirectories it found that are not blacklisted, and none
/// where it failed.
pub open spec fn submissions(s: SchedulerView, e: ProbeView) -> Seq<Seq<char>> {
    match e {
        ProbeView::Probed(summary) => admitted(summary.paths, s.blacklist),
        ProbeView::Failed { .. } => Seq::empty(),
    }
}

/// The state after the probe `e` has completed in the state `s`. A probe
/// that succeeded records its directory's own size; one that failed records
/// nothing. Either way one probe fewer is pending, and as many more as are
/// submitted.
pub open spec fn step(s: SchedulerView, e: ProbeView) -> SchedulerView {
    SchedulerView {
        device: s.device,
        blacklist: s.blacklist,
        pending: (s.pending - 1 + submissions(s, e).len()) as nat,
        results: match e {
            ProbeView::Probed(summary) => s.results.insert(summary.path, summary.size),
            ProbeView::Failed { .. } => s.results,
        },
    }
}

/// No more paths are admitted from a part of a list than from the whole.
pub proof fn admitted_of_prefix(children: Seq<Seq<char>>, blacklist: Set<Seq<char>>, n: int)
    requires
        0 <= n <= children.len(),
    ensures
        admitted(children.take(n), blacklist).len() <= admitted(children, blacklist).len(),
    decreases children.len(),
{
    if n == children.len() {
        assert(children.take(n) =~= children);
    } else {
        admitted_of_prefix(children.drop_last(), blacklist, n);
        assert(children.drop_last().take(n) =~= children.take(n));
    }
}

/// A path is admitted exactly where it is among the children and not in the
/// blacklist.
pub proof fn admitted_membership(children: Seq<Seq<char>>, blacklist: Set<Seq<char>>, c: Seq<char>)
    ensures
        admitted(children, blacklist).contains(c) <==> children.contains(c) && !blacklist.contains(
            c,
        ),
    decreases children.len(),
{
    if children.len() > 0 {
        let rest = children.drop_last();
        let last = children.last();
        admitted_membership(rest, blacklist, c);
        let kept = admitted(children, blacklist);
        if kept.contains(c) {
            let k = choose|k: int| 0 <= k < kept.len() && kept[k] == c;
            if !blacklist.contains(last) && k == kept.len() - 1 {
                assert(children[children.len() - 1] == c);
            } else {
                assert(admitted(rest, blacklist)[k] == c);
                let i = choose|i: int| 0 <= i < rest.len() && rest[i] == c;
                assert(children[i] == c);
            }
        }
        if children.contains(c) && !blacklist.contains(c) {
            let i = choose|i: int| 0 <= i < children.len() && children[i] == c;
            if i == children.len() - 1 {
                assert(kept[kept.len() - 1] == c);
            } else {
                assert(rest[i] == c);
                let k = choose|k: int|
                    0 <= k < admitted(rest, blacklist).len() && admitted(rest, blacklist)[k] == c;
                assert(kept[k] == c);
            }
        }
    }
}

/// The coordinator's side of a traversal.
pub struct Scheduler {
    device: u64,
    blacklist: StringHashSet,
    pending: u64,
    results: ResultMap,
}

impl View for Scheduler {
    type V = SchedulerView;

    closed spec fn view(&self) -> SchedulerView {
        SchedulerView {
            device: self.device,
            blacklist: self.blacklist@,
            pending: self.pending as nat,
            results: self.results@,
        }
    }
}

impl Scheduler {
    /// The results held are well formed.
    pub closed spec fn wf(&self) -> bool {
        self.results.wf()
    }

    /// A well-formed scheduler has recorded finitely many sizes.
    pub proof fn results_finite(&self)
        requires
            self.wf(),
        ensures
            self@.results.dom().finite(),
    {
        self.results.keys_finite();
    }

    /// Begins a traversal at `root`, whose device is `device`, or `None`
    /// where the root could not be found. Returns the scheduler with the
    /// request for the root, which counts as submitted; where there is no
    /// device, the traversal does not begin.
    pub fn start(root: String, device: Option<u64>, blacklist: &Vec<String>) -> (started: Result<
        (Scheduler, ScanRequest),
        ProbeError,
    >)
        ensures
            match device {
                Some(d) => started matches Ok((scheduler, request)) && scheduler.wf()
                    && scheduler@ == begin(d, texts(blacklist@).to_set()) && request@ == (
                ScanRequestView { path: root@, device: d }),
                None => started matches Err(error) && error.path@ == root@ && error.kind
                    == ErrorKind::RootNotFound,
            },
    {
        match device {
            None => Err(ProbeError { path: root, kind: ErrorKind::RootNotFound }),
            Some(d) => {
                let ghost excluded = texts(blacklist@);
                let mut set = StringHashSet::new();
                let mut i: usize = 0;
                while i < blacklist.len()
                    invariant
                        0 <= i <= blacklist.len(),
                        excluded == texts(blacklist@),
                        set@ == excluded.take(i as int).to_set(),
                    decreases blacklist.len() - i,
                {
                    proof {
                        excluded.take(i as int).lemma_push_to_set_commute(excluded[i as int]);
                        assert(excluded.take(i + 1) =~= excluded.take(i as int).push(
                            excluded[i as int],
                        ));
                    }
                    set.insert(blacklist[i].clone());
                    i += 1;
                }
                assert(excluded.take(i as int) =~= excluded);
                let scheduler = Scheduler {
                    device: d,
                    blacklist: set,
                    pending: 1,
                    results: ResultMap::new(),
                };
                Ok((scheduler, ScanRequest { path: root, device: d }))
            },
        }
    }

    /// The probes submitted and not yet completed.
    pub fn pending(&self) -> (n: u64)
        ensures
            n == self@.pending,
    {
        self.pending
    }

    /// Whether the traversal is over: every probe submitted has completed.
    pub fn is_done(&self) -> (done: bool)
        ensures
            done == (self@.pending == 0),
    {
        self.pending == 0
    }

    /// The device that the traversal stays on.
    pub fn device(&self) -> (device: u64)
        ensures
            device == self@.device,
    {
        self.device
    }

    /// Whether `path` is never submitted.
    pub fn is_blacklisted(&self, path: &str) -> (excluded: bool)
        ensures
            excluded == self@.blacklist.contains(path@),
    {
        self.blacklist.contains(path)
    }

    /// The sizes recorded so far.
    pub fn results(&self) -> (results: &ResultMap)
        requires
            self.wf(),
        ensures
            results.wf(),
            results@ == self@.results,
            results@.dom().finite(),
    {
        proof {
            self.results.keys_finite();
        }
        &self.results
    }

    /// Gives up the sizes recorded.
    pub fn into_results(self) -> (results: ResultMap)
        requires
            self.wf(),
        ensures
            results.wf(),
            results@ == self@.results,
            results@.dom().finite(),
    {
        proof {
            self.results.keys_finite();
        }
        self.results
    }

    /// Takes in one completed probe and returns the probes to submit next.
    ///
    /// Where the probe succeeded, its directory's own size is recorded and
    /// each subdirectory it found is submitted on the traversal's device,
    /// unless it is blacklisted. Where it failed, nothing is recorded and
    /// nothing submitted. Either way the probe no longer counts as pending,
    /// and each probe returned does.
    pub fn complete(&mut self, result: Result<DirMetadata, ProbeError>) -> (requests: Vec<
        ScanRequest,
    >)
        requires
            old(self).wf(),
            old(self)@.pending > 0,
            step(old(self)@, probe_view(result)).pending <= u64::MAX,
        ensures
            final(self).wf(),
            final(self)@ == step(old(self)@, probe_view(result)),
            requests@.len() == submissions(old(self)@, probe_view(result)).len(),
            request_views(requests@) == requests_for(
                submissions(old(self)@, probe_view(result)),
                old(self)@.device,
            ),
    {
        let mut requests: Vec<ScanRequest> = Vec::new();
        self.pending = self.pending - 1;
        match result {
            Err(_) => {
                assert(request_views(requests@) =~= requests_for(
                    Seq::empty(),
                    old(self)@.device,
                ));
            },
            Ok(summary) => {
                let ghost children = texts(summary.paths@);
                let ghost excluded = self.blacklist@;
                self.results.insert(summary.path.clone(), summary.size);
                let mut i: usize = 0;
                while i < summary.paths.len()
                    invariant
                        0 <= i <= summary.paths.len(),
                        children == texts(summary.paths@),
                        self.blacklist@ == excluded,
                        self.device == old(self).device,
                        self.results@ == old(self).results@.insert(summary.path@, summary.size),
                        self.results.wf(),
                        self.pending == old(self).pending - 1 + admitted(
                            children.take(i as int),
                            excluded,
                        ).len(),
                        old(self).pending - 1 + admitted(children, excluded).len() <= u64::MAX,
                        request_views(requests@) == requests_for(
                            admitted(children.take(i as int), excluded),
                            old(self).device,
                        ),
                    decreases summary.paths.len() - i,
                {
                    proof {
                        assert(children.take(i + 1).drop_last() =~= children.take(i as int));
                        assert(children.take(i + 1).last() == summary.paths@[i as int]@);
                        admitted_of_prefix(children, excluded, i + 1);
                    }
                    let child = &summary.paths[i];
                    if !self.blacklist.contains(child.as_str()) {
                        let ghost before = requests@;
                        requests.push(ScanRequest { path: child.clone(), device: self.device });
                        self.pending = self.pending + 1;
                        assert(admitted(children.take(i + 1), excluded) == admitted(
                            children.take(i as int),
                            excluded,
                        ).push(child@));
                        assert(request_views(requests@) =~= request_views(before).push(
                            ScanRequestView { path: child@, device: old(self).device },
                        ));
                        assert(request_views(requests@) =~= requests_for(
                            admitted(children.take(i + 1), excluded),
                            old(self).device,
                        ));
                    }
                    i += 1;
                }
                assert(children.take(i as int) =~= children);
            },
        }
        requests
    }
}

} // verus!
