//! What the store watcher reports, and how a batch of changed paths is
//! reconciled: each path is traced up to the ticket folder it lies in.
use vstd::prelude::*;
use crate::text::str_eq;
use crate::human::{uuid_of, parse_uuid};

verus! {

/// The kind of change the watcher saw on a path.
#[derive(Clone, Copy, Debug, PartialEq, Eq)]
pub enum WatchEventKind {
    Created,
    Modified,
    Deleted,
}

/// A structured event emitted by the reconciler for outside consumers.
pub struct ReconcileEvent {
    pub path: String,
    pub kind: WatchEventKind,
}

/// The characters of each path component.
pub open spec fn comps_view(c: Seq<String>) -> Seq<Seq<char>> {
    c.map_values(|s: String| s@)
}

/// How many leading components make up the ticket folder of a path: up to
/// and including the deepest component that is a UUID; `None` when no
/// component is one.
pub open spec fn ticket_root_len(c: Seq<Seq<char>>) -> Option<int>
    decreases c.len(),
{
    if c.len() == 0 {
        None
    } else if uuid_of(c.last()) is Some {
        Some(c.len() as int)
    } else {
        ticket_root_len(c.drop_last())
    }
}

proof fn lemma_root_len_bounds(c: Seq<Seq<char>>)
    ensures
        ticket_root_len(c) matches Some(n) ==> 1 <= n <= c.len(),
    decreases c.len(),
{
    if c.len() > 0 {
        lemma_root_len_bounds(c.drop_last());
    }
}

/// The ticket folder of a path given by its components (see
/// `ticket_root_len`), as the number of leading components it spans.
pub fn find_ticket_root(components: &Vec<String>) -> (r: Option<usize>)
    ensures
        (match r { Some(n) => Some(n as int), None => None }) == ticket_root_len(comps_view(components@)),
{
    let ghost cv = comps_view(components@);
    let mut n = components.len();
    assert(cv.subrange(0, n as int) =~= cv);
    while n > 0
        invariant
            n <= components@.len(),
            cv == comps_view(components@),
            ticket_root_len(cv) == ticket_root_len(cv.subrange(0, n as int)),
        decreases n,
    {
        let ghost sub = cv.subrange(0, n as int);
        assert(sub.last() == components@[n - 1]@);
        if parse_uuid(components[n - 1].as_str()).is_some() {
            return Some(n);
        }
        assert(sub.drop_last() =~= cv.subrange(0, n - 1));
        n = n - 1;
    }
    None
}

/// Whether `r` is the ticket folder of path `p`.
pub open spec fn root_is(p: Seq<Seq<char>>, r: Seq<Seq<char>>) -> bool {
    match ticket_root_len(p) {
        Some(n) => r == p.take(n),
        None => false,
    }
}

/// The ticket folders that changed paths lie in, as component lists.
pub open spec fn targeted_roots(pending: Seq<Seq<Seq<char>>>) -> Set<Seq<Seq<char>>> {
    Set::new(|r: Seq<Seq<char>>| exists|i: int| 0 <= i < pending.len()
        && #[trigger] root_is(pending[i], r))
}

/// What a batch of changed paths calls for.
pub enum ReconcilePlan {
    /// No path lies in a ticket folder: rescan everything.
    FullScan,
    /// Integrate each of these ticket folders (component lists), once each.
    Targeted(Vec<Vec<String>>),
}

/// The component lists of a list of paths.
pub open spec fn paths_view(p: Seq<Vec<String>>) -> Seq<Seq<Seq<char>>> {
    p.map_values(|v: Vec<String>| comps_view(v@))
}

fn same_components(a: &Vec<String>, b: &Vec<String>) -> (r: bool)
    ensures
        r == (comps_view(a@) == comps_view(b@)),
{
    if a.len() != b.len() {
        assert(comps_view(a@).len() != comps_view(b@).len());
        return false;
    }
    let mut i: usize = 0;
    while i < a.len()
        invariant
            a@.len() == b@.len(),
            i <= a@.len(),
            forall|j: int| 0 <= j < i ==> a@[j]@ == b@[j]@,
        decreases a@.len() - i,
    {
        if !str_eq(a[i].as_str(), b[i].as_str()) {
            assert(comps_view(a@)[i as int] != comps_view(b@)[i as int]);
            return false;
        }
        i = i + 1;
    }
    assert(comps_view(a@) =~= comps_view(b@));
    true
}

fn prefix_of(v: &Vec<String>, n: usize) -> (r: Vec<String>)
    requires
        n <= v@.len(),
    ensures
        comps_view(r@) == comps_view(v@).take(n as int),
{
    let mut out: Vec<String> = Vec::new();
    let mut i: usize = 0;
    while i < n
        invariant
            n <= v@.len(),
            i <= n,
            comps_view(out@) == comps_view(v@).take(i as int),
        decreases n - i,
    {
        let ghost before = out@;
        out.push(v[i].clone());
        assert(comps_view(out@) =~= comps_view(before).push(v@[i as int]@));
        i = i + 1;
        assert(comps_view(out@) =~= comps_view(v@).take(i as int));
    }
    out
}

/// The ticket folders of the paths, each once, in the order the paths
/// first name them.
pub open spec fn roots_in_order(pending: Seq<Seq<Seq<char>>>) -> Seq<Seq<Seq<char>>>
    decreases pending.len(),
{
    if pending.len() == 0 {
        Seq::empty()
    } else {
        let rest = roots_in_order(pending.drop_last());
        let p = pending.last();
        match ticket_root_len(p) {
            Some(n) => if rest.contains(p.take(n)) { rest } else { rest.push(p.take(n)) },
            None => rest,
        }
    }
}

/// Trace every changed path to its ticket folder. When none lies in one,
/// rescan everything; otherwise integrate each folder found, once, in the
/// order the paths first name them.
pub fn reconcile_plan(pending: &Vec<Vec<String>>) -> (r: ReconcilePlan)
    ensures
        r is FullScan <==> targeted_roots(paths_view(pending@)) == Set::<Seq<Seq<char>>>::empty(),
        r matches ReconcilePlan::Targeted(v) ==> {
            &&& paths_view(v@) == roots_in_order(paths_view(pending@))
            &&& paths_view(v@).no_duplicates()
            &&& paths_view(v@).to_set() == targeted_roots(paths_view(pending@))
        },
{
    let ghost pv = paths_view(pending@);
    let mut roots: Vec<Vec<String>> = Vec::new();
    let mut i: usize = 0;
    while i < pending.len()
        invariant
            pv == paths_view(pending@),
            i <= pending@.len(),
            paths_view(roots@) == roots_in_order(pv.take(i as int)),
            paths_view(roots@).no_duplicates(),
            forall|r: Seq<Seq<char>>| paths_view(roots@).contains(r) <==> (exists|j: int| 0 <= j < i
                && #[trigger] root_is(pv[j], r)),
        decreases pending@.len() - i,
    {
        assert(pv[i as int] == comps_view(pending@[i as int]@));
        proof {
            lemma_root_len_bounds(pv[i as int]);
            assert(pv.take(i + 1).drop_last() =~= pv.take(i as int));
            assert(pv.take(i + 1).last() == pv[i as int]);
        }
        match find_ticket_root(&pending[i]) {
            Some(n) => {
                let root = prefix_of(&pending[i], n);
                let ghost rv = comps_view(root@);
                assert(root_is(pv[i as int], rv));
                let mut seen = false;
                let mut k: usize = 0;
                while k < roots.len()
                    invariant
                        k <= roots@.len(),
                        seen == exists|q: int| 0 <= q < k && paths_view(roots@)[q] == comps_view(root@),
                    decreases roots@.len() - k,
                {
                    assert(paths_view(roots@)[k as int] == comps_view(roots@[k as int]@));
                    if same_components(&roots[k], &root) {
                        seen = true;
                    }
                    k = k + 1;
                }
                let ghost before = roots@;
                if !seen {
                    roots.push(root);
                    proof {
                        assert(paths_view(roots@) =~= paths_view(before).push(comps_view(root@)));
                    }
                }
                proof {
                    assert forall|r: Seq<Seq<char>>| paths_view(roots@).contains(r) <==> (exists|j: int| 0 <= j < i + 1
                        && #[trigger] root_is(pv[j], r)) by {
                        if paths_view(roots@).contains(r) {
                            if !paths_view(before).contains(r) {
                                let q = choose|q: int| 0 <= q < paths_view(roots@).len() && paths_view(roots@)[q] == r;
                                if q < before.len() {
                                    assert(paths_view(roots@)[q] == paths_view(before)[q]);
                                }
                                assert(r == rv);
                                assert(root_is(pv[i as int], r));
                            }
                        }
                        if exists|j: int| 0 <= j < i + 1 && #[trigger] root_is(pv[j], r) {
                            let j = choose|j: int| 0 <= j < i + 1 && #[trigger] root_is(pv[j], r);
                            if j == i {
                                if seen {
                                    let q = choose|q: int| 0 <= q < before.len() && paths_view(before)[q] == comps_view(root@);
                                    assert(paths_view(roots@)[q] == r);
                                } else {
                                    assert(paths_view(roots@)[roots@.len() - 1] == r);
                                }
                            } else {
                                assert(paths_view(before).contains(r));
                                let q = choose|q: int| 0 <= q < before.len() && paths_view(before)[q] == r;
                                assert(paths_view(roots@)[q] == r);
                            }
                        }
                    }
                }
            },
            None => {
                proof {
                    assert forall|r: Seq<Seq<char>>| paths_view(roots@).contains(r) <==> (exists|j: int| 0 <= j < i + 1
                        && #[trigger] root_is(pv[j], r)) by {
                        if exists|j: int| 0 <= j < i + 1 && #[trigger] root_is(pv[j], r) {
                            let j = choose|j: int| 0 <= j < i + 1 && #[trigger] root_is(pv[j], r);
                            assert(j != i);
                        }
                    }
                }
            },
        }
        i = i + 1;
    }
    assert(pv.take(pv.len() as int) =~= pv);
    assert(paths_view(roots@).to_set() =~= targeted_roots(pv));
    if roots.len() == 0 {
        assert(paths_view(roots@).to_set() =~= Set::<Seq<Seq<char>>>::empty());
        ReconcilePlan::FullScan
    } else {
        assert(paths_view(roots@).to_set().contains(paths_view(roots@)[0]));
        ReconcilePlan::Targeted(roots)
    }
}

/// What a reconcile pass reports: how many ticket folders it targeted, how
/// many of them it integrated, whether it fell back to a full scan, and the
/// diagnostics of that scan.
pub struct ReconcileOutcome<D> {
    pub targeted_paths: usize,
    pub integrated_orphans: usize,
    pub fallback_scan: bool,
    pub diagnostics: Vec<D>,
}

/// How many of the flags are set.
pub open spec fn count_true(s: Seq<bool>) -> nat
    decreases s.len(),
{
    if s.len() == 0 {
        0
    } else {
        count_true(s.drop_last()) + if s.last() { 1nat } else { 0nat }
    }
}

/// The report of a reconcile pass carried out by `plan`. A full scan
/// reports the scan's diagnostics (none when the scan failed) and nothing
/// targeted or integrated; a targeted pass reports how many folders it
/// targeted and how many were integrated (`integrated[i]` says whether
/// integrating the i-th folder succeeded and took it in), with no
/// diagnostics.
pub fn reconcile_outcome<D>(plan: &ReconcilePlan, scan_diagnostics: Option<Vec<D>>, integrated: &Vec<bool>) -> (r: ReconcileOutcome<D>)
    requires
        plan matches ReconcilePlan::Targeted(v) ==> integrated@.len() == v@.len(),
    ensures
        plan is FullScan ==> {
            &&& r.fallback_scan
            &&& r.targeted_paths == 0
            &&& r.integrated_orphans == 0
            &&& r.diagnostics@ == match scan_diagnostics {
                Some(d) => d@,
                None => Seq::<D>::empty(),
            }
        },
        plan matches ReconcilePlan::Targeted(v) ==> {
            &&& !r.fallback_scan
            &&& r.targeted_paths == v@.len()
            &&& r.integrated_orphans == count_true(integrated@)
            &&& r.diagnostics@.len() == 0
        },
{
    match plan {
        ReconcilePlan::FullScan => {
            let diagnostics = match scan_diagnostics {
                Some(d) => d,
                None => Vec::new(),
            };
            ReconcileOutcome { targeted_paths: 0, integrated_orphans: 0, fallback_scan: true, diagnostics }
        },
        ReconcilePlan::Targeted(v) => {
            let mut n: usize = 0;
            let mut i: usize = 0;
            while i < integrated.len()
                invariant
                    i <= integrated@.len(),
                    n <= i,
                    n == count_true(integrated@.take(i as int)),
                decreases integrated@.len() - i,
            {
                assert(integrated@.take(i + 1).drop_last() =~= integrated@.take(i as int));
                if integrated[i] {
                    n = n + 1;
                }
                i = i + 1;
            }
            assert(integrated@.take(integrated@.len() as int) =~= integrated@);
            ReconcileOutcome { targeted_paths: v.len(), integrated_orphans: n, fallback_scan: false, diagnostics: Vec::new() }
        },
    }
}

} // verus!
