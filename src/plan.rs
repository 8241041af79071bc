use crate::schedule::{
    count_open, count_running, graph_wf, indices_below, lemma_count_open_none_succeeded,
    lemma_no_running, Node, NodeState, Scheduler,
};
use std::collections::VecDeque;
use vstd::prelude::*;

verus! {

/// Tags carried by a dependency edge.
#[derive(Clone, Copy)]
pub struct DepTags {
    pub required: bool,
    pub recommended: bool,
    pub optional: bool,
    pub test: bool,
    pub build: bool,
}

/// A declared dependency of a package, by name.
pub struct DepEdge {
    pub name: String,
    pub tags: DepTags,
}

#[derive(Clone, Copy, PartialEq, Eq, Structural)]
pub enum PackageKind {
    Bottle,
    Cask,
}

#[derive(Clone, Copy, PartialEq, Eq, Structural)]
pub enum ResolutionStatus {
    Installed,
    Missing,
}

/// One entry of a resolved install plan.
pub struct PackageSpec {
    pub name: String,
    pub kind: PackageKind,
    pub deps: Vec<DepEdge>,
    pub status: ResolutionStatus,
}

/// User options that decide which edges are kept.
#[derive(Clone, Copy)]
pub struct PlanOptions {
    pub include_optional: bool,
    pub skip_recommended: bool,
}

/// Why a plan could not be turned into a graph.
pub enum PlanError {
    /// A kept dependency names a package that the plan does not hold.
    Inconsistent(String),
}

/// An edge is effective unless it is a test edge, an optional edge without
/// `include_optional`, or a recommended edge under `skip_recommended`.
pub open spec fn is_effective(tags: DepTags, opts: PlanOptions) -> bool {
    !tags.test && !(tags.optional && !opts.include_optional) && !(tags.recommended
        && opts.skip_recommended)
}

pub fn edge_is_effective(tags: &DepTags, opts: &PlanOptions) -> (r: bool)
    ensures
        r == is_effective(*tags, *opts),
{
    !tags.test && !(tags.optional && !opts.include_optional) && !(tags.recommended
        && opts.skip_recommended)
}

/// Package names in the plan are pairwise distinct.
pub open spec fn names_unique(plan: Seq<PackageSpec>) -> bool {
    forall|i: int, j: int|
        0 <= i < plan.len() && 0 <= j < plan.len() && i != j ==> #[trigger] plan[i].name@
            != #[trigger] plan[j].name@
}

/// Plan positions of the specs still to install, in plan order.
pub open spec fn missing_positions(plan: Seq<PackageSpec>) -> Seq<int>
    decreases plan.len(),
{
    if plan.len() == 0 {
        Seq::empty()
    } else {
        let rest = missing_positions(plan.drop_last());
        if plan.last().status == ResolutionStatus::Missing {
            rest.push(plan.len() - 1)
        } else {
            rest
        }
    }
}

/// Some entry of the plan carries this name.
pub open spec fn plan_names(plan: Seq<PackageSpec>, name: Seq<char>) -> bool {
    exists|q: int| 0 <= q < plan.len() && #[trigger] plan[q].name@ == name
}

/// Every effective edge of a missing spec names an entry of the plan.
pub open spec fn plan_consistent(plan: Seq<PackageSpec>, opts: PlanOptions) -> bool {
    forall|p: int, u: int|
        0 <= p < plan.len() && plan[p].status == ResolutionStatus::Missing && 0 <= u
            < plan[p].deps@.len() && is_effective(#[trigger] plan[p].deps@[u].tags, opts)
            ==> plan_names(plan, plan[p].deps@[u].name@)
}

/// Among its first `upto` edges, the spec at plan position `p` has an
/// effective one naming the spec at plan position `q`.
pub open spec fn keeps_edge_upto(plan: Seq<PackageSpec>, opts: PlanOptions, p: int, q: int, upto: int) -> bool {
    exists|u: int|
        0 <= u < upto && is_effective(plan[p].deps@[u].tags, opts)
            && #[trigger] plan[p].deps@[u].name@ == plan[q].name@
}

/// The spec at plan position `p` keeps an edge to the spec at plan position `q`.
pub open spec fn keeps_edge(plan: Seq<PackageSpec>, opts: PlanOptions, p: int, q: int) -> bool {
    keeps_edge_upto(plan, opts, p, q, plan[p].deps@.len() as int)
}

pub proof fn lemma_missing_positions(plan: Seq<PackageSpec>)
    ensures
        forall|i: int, j: int|
            0 <= i < j < missing_positions(plan).len() ==> #[trigger] missing_positions(plan)[i]
                < #[trigger] missing_positions(plan)[j],
        forall|i: int|
            0 <= i < missing_positions(plan).len() ==> 0 <= #[trigger] missing_positions(plan)[i]
                < plan.len() && plan[missing_positions(plan)[i]].status
                == ResolutionStatus::Missing,
        forall|p: int|
            0 <= p < plan.len() && #[trigger] plan[p].status == ResolutionStatus::Missing
                ==> missing_positions(plan).contains(p),
    decreases plan.len(),
{
    if plan.len() > 0 {
        let q = plan.drop_last();
        lemma_missing_positions(q);
        let m = missing_positions(plan);
        let r = missing_positions(q);
        assert forall|p: int|
            0 <= p < plan.len() && #[trigger] plan[p].status == ResolutionStatus::Missing implies m.contains(p) by {
            if p < q.len() {
                assert(q[p] == plan[p]);
                assert(r.contains(p));
                let k = choose|k: int| 0 <= k < r.len() && r[k] == p;
                assert(m[k] == p);
            } else {
                assert(m[m.len() - 1] == p);
            }
        }
        assert forall|i: int| 0 <= i < m.len() implies 0 <= #[trigger] m[i] < plan.len()
            && plan[m[i]].status == ResolutionStatus::Missing by {
            if i < r.len() {
                assert(m[i] == r[i]);
                assert(q[r[i]] == plan[r[i]]);
            }
        }
    }
}

/// Node index of plan position `q` among the missing positions.
fn node_index(missing: &Vec<usize>, q: usize) -> (r: Option<usize>)
    ensures
        match r {
            Some(b) => b < missing@.len() && missing@[b as int] == q,
            None => !missing@.contains(q),
        },
{
    let mut b: usize = 0;
    while b < missing.len()
        invariant
            b <= missing@.len(),
            forall|i: int| 0 <= i < b ==> missing@[i] != q,
        decreases missing@.len() - b,
    {
        if missing[b] == q {
            return Some(b);
        }
        b = b + 1;
    }
    None
}

/// Plan position of the entry named `name`.
fn position_of(plan: &Vec<PackageSpec>, name: &String) -> (r: Option<usize>)
    ensures
        match r {
            Some(q) => q < plan@.len() && plan@[q as int].name@ == name@,
            None => !plan_names(plan@, name@),
        },
{
    let mut q: usize = 0;
    while q < plan.len()
        invariant
            q <= plan@.len(),
            forall|i: int| 0 <= i < q ==> plan@[i].name@ != name@,
        decreases plan@.len() - q,
    {
        if plan[q].name == *name {
            return Some(q);
        }
        q = q + 1;
    }
    None
}

fn copy_indices(v: &Vec<usize>) -> (r: Vec<usize>)
    ensures
        r@ == v@,
{
    let mut r: Vec<usize> = Vec::new();
    let mut i: usize = 0;
    while i < v.len()
        invariant
            i <= v@.len(),
            r@ == v@.subrange(0, i as int),
        decreases v@.len() - i,
    {
        r.push(v[i]);
        proof {
            assert(v@.subrange(0, i as int + 1) =~= v@.subrange(0, i as int).push(v@[i as int]));
        }
        i = i + 1;
    }
    proof {
        assert(v@.subrange(0, i as int) =~= v@);
    }
    r
}

fn vec_contains(v: &Vec<usize>, x: usize) -> (r: bool)
    ensures
        r == v@.contains(x),
{
    let mut i: usize = 0;
    while i < v.len()
        invariant
            i <= v@.len(),
            forall|j: int| 0 <= j < i ==> v@[j] != x,
        decreases v@.len() - i,
    {
        if v[i] == x {
            return true;
        }
        i = i + 1;
    }
    false
}

fn collect_missing(plan: &Vec<PackageSpec>) -> (r: Vec<usize>)
    ensures
        r@.len() == missing_positions(plan@).len(),
        forall|j: int| 0 <= j < r@.len() ==> r@[j] as int == #[trigger] missing_positions(plan@)[j],
{
    let mut missing: Vec<usize> = Vec::new();
    let mut i: usize = 0;
    while i < plan.len()
        invariant
            i <= plan@.len(),
            missing@.len() == missing_positions(plan@.subrange(0, i as int)).len(),
            forall|j: int| 0 <= j < missing@.len() ==> missing@[j] as int == #[trigger] missing_positions(plan@.subrange(0, i as int))[j],
        decreases plan@.len() - i,
    {
        proof {
            assert(plan@.subrange(0, i as int + 1).drop_last() =~= plan@.subrange(0, i as int));
        }
        if plan[i].status == ResolutionStatus::Missing {
            missing.push(i);
        }
        i = i + 1;
    }
    proof {
        assert(plan@.subrange(0, i as int) =~= plan@);
    }
    missing
}

/// Kept prerequisites, as node indices, of the spec at plan position `pos`;
/// `Err` names an effective dependency that the plan does not hold.
fn kept_prereqs(plan: &Vec<PackageSpec>, opts: &PlanOptions, missing: &Vec<usize>, pos: usize) -> (r: Result<Vec<usize>, String>)
    requires
        pos < plan@.len(),
        names_unique(plan@),
        missing@.len() == missing_positions(plan@).len(),
        forall|j: int| 0 <= j < missing@.len() ==> missing@[j] as int == #[trigger] missing_positions(plan@)[j],
    ensures
        match r {
            Ok(pr) => {
                &&& indices_below(pr@, missing@.len() as int)
                &&& pr@.no_duplicates()
                &&& forall|b: int| 0 <= b < missing@.len() ==> (#[trigger] pr@.contains(b as usize)
                    <==> keeps_edge(plan@, *opts, pos as int, missing@[b] as int))
                &&& forall|u: int| 0 <= u < plan@[pos as int].deps@.len() && is_effective(
                    #[trigger] plan@[pos as int].deps@[u].tags, *opts) ==> plan_names(plan@, plan@[pos as int].deps@[u].name@)
            },
            Err(name) => exists|u: int| 0 <= u < plan@[pos as int].deps@.len() && is_effective(
                #[trigger] plan@[pos as int].deps@[u].tags, *opts) && plan@[pos as int].deps@[u].name@ == name@
                && !plan_names(plan@, name@),
        },
{
    proof {
        lemma_missing_positions(plan@);
    }
    let ghost mp = missing_positions(plan@);
    let ghost n = missing@.len();
    let ml = missing.len();
    let mut pr: Vec<usize> = Vec::new();
    let mut u: usize = 0;
    let deps = &plan[pos].deps;
    while u < deps.len()
        invariant
            pos < plan@.len(),
            *deps == plan@[pos as int].deps,
            u <= deps@.len(),
            n == missing@.len(),
            n == ml,
            n == mp.len(),
            mp == missing_positions(plan@),
            names_unique(plan@),
            forall|j: int| 0 <= j < missing@.len() ==> missing@[j] as int == #[trigger] mp[j],
            forall|i: int, j: int| 0 <= i < j < mp.len() ==> #[trigger] mp[i] < #[trigger] mp[j],
            forall|i: int| 0 <= i < mp.len() ==> 0 <= #[trigger] mp[i] < plan@.len()
                && plan@[mp[i]].status == ResolutionStatus::Missing,
            indices_below(pr@, n as int),
            pr@.no_duplicates(),
            forall|b: int| 0 <= b < n ==> (#[trigger] pr@.contains(b as usize)
                <==> keeps_edge_upto(plan@, *opts, pos as int, mp[b], u as int)),
            forall|v: int| 0 <= v < u && is_effective(#[trigger] deps@[v].tags, *opts)
                ==> plan_names(plan@, deps@[v].name@),
        decreases deps@.len() - u,
    {
        let e = &deps[u];
        let ghost pr0 = pr@;
        if edge_is_effective(&e.tags, opts) {
            match position_of(plan, &e.name) {
                None => {
                    return Err(e.name.clone());
                },
                Some(q) => {
                    let mut hit: Option<usize> = None;
                    if plan[q].status == ResolutionStatus::Missing {
                        hit = node_index(missing, q);
                        proof {
                            if hit is None {
                                lemma_missing_positions(plan@);
                                let k = choose|k: int| 0 <= k < mp.len() && mp[k] == q as int;
                                assert(missing@[k] == q);
                            }
                        }
                    }
                    proof {
                        assert forall|b: int| 0 <= b < n && (hit is None || b != hit->0 as int)
                            implies plan@[mp[b]].name@ != e.name@ by {
                            assert(plan@[mp[b]].status == ResolutionStatus::Missing);
                            assert(missing@[b] as int == mp[b]);
                            if mp[b] == q as int {
                                assert(missing@[b] == q);
                                if hit is Some {
                                    let h = hit->0 as int;
                                    assert(missing@[h] as int == mp[h]);
                                    if h < b {
                                        assert(mp[h] < mp[b]);
                                    } else {
                                        assert(mp[b] < mp[h]);
                                    }
                                }
                            } else {
                                assert(plan@[mp[b]].name@ != plan@[q as int].name@);
                            }
                        }
                    }
                    match hit {
                        Some(b) => {
                            if !vec_contains(&pr, b) {
                                pr.push(b);
                                proof {
                                    assert(pr@[pr@.len() - 1] == b);
                                    assert forall|i: int, j: int| 0 <= i < pr@.len() && 0 <= j < pr@.len() && i != j implies pr@[i] != pr@[j] by {
                                        if i < pr0.len() && j < pr0.len() {
                                            assert(pr@[i] == pr0[i] && pr@[j] == pr0[j]);
                                        } else if i < pr0.len() {
                                            assert(pr0.contains(pr@[i]));
                                        } else if j < pr0.len() {
                                            assert(pr0.contains(pr@[j]));
                                        }
                                    }
                                }
                            }
                        },
                        None => {},
                    }
                    proof {
                        if hit is Some {
                            let h = hit->0;
                            if !pr0.contains(h) {
                                assert(pr@[pr@.len() - 1] == h);
                            } else {
                                let t = choose|t: int| 0 <= t < pr0.len() && pr0[t] == h;
                                assert(pr@[t] == h);
                            }
                            assert(pr@.contains(h));
                            assert(missing@[h as int] as int == mp[h as int]);
                        }
                        assert forall|b: int| 0 <= b < n implies (#[trigger] pr@.contains(b as usize)
                            <==> keeps_edge_upto(plan@, *opts, pos as int, mp[b], u as int + 1)) by {
                            if keeps_edge_upto(plan@, *opts, pos as int, mp[b], u as int + 1) {
                                let v = choose|v: int| 0 <= v < u + 1 && is_effective(plan@[pos as int].deps@[v].tags, *opts)
                                    && #[trigger] plan@[pos as int].deps@[v].name@ == plan@[mp[b]].name@;
                                if v < u {
                                    assert(pr0.contains(b as usize));
                                    let t = choose|t: int| 0 <= t < pr0.len() && pr0[t] == b as usize;
                                    assert(pr@[t] == b as usize);
                                } else {
                                    assert(b == hit->0 as int);
                                    assert(pr@.contains(hit->0));
                                }
                            }
                            if pr@.contains(b as usize) && !pr0.contains(b as usize) {
                                assert(pr@[pr@.len() - 1] == b as usize);
                                assert(hit == Some(b as usize));
                                assert(missing@[b] as int == mp[b]);
                                assert(plan@[pos as int].deps@[u as int].name@ == plan@[mp[b]].name@);
                            }
                            if pr0.contains(b as usize) {
                                let v = choose|v: int| 0 <= v < u && is_effective(plan@[pos as int].deps@[v].tags, *opts)
                                    && #[trigger] plan@[pos as int].deps@[v].name@ == plan@[mp[b]].name@;
                                let t = choose|t: int| 0 <= t < pr0.len() && pr0[t] == b as usize;
                                assert(pr@[t] == b as usize);
                            }
                        }
                        assert(plan@[q as int].name@ == deps@[u as int].name@);
                    }
                },
            }
        } else {
            proof {
                assert forall|b: int| 0 <= b < n implies (#[trigger] pr@.contains(b as usize)
                    <==> keeps_edge_upto(plan@, *opts, pos as int, mp[b], u as int + 1)) by {
                    if keeps_edge_upto(plan@, *opts, pos as int, mp[b], u as int + 1) {
                        let v = choose|v: int| 0 <= v < u + 1 && is_effective(plan@[pos as int].deps@[v].tags, *opts)
                            && #[trigger] plan@[pos as int].deps@[v].name@ == plan@[mp[b]].name@;
                        assert(v < u);
                    }
                    if pr@.contains(b as usize) {
                        let v = choose|v: int| 0 <= v < u && is_effective(plan@[pos as int].deps@[v].tags, *opts)
                            && #[trigger] plan@[pos as int].deps@[v].name@ == plan@[mp[b]].name@;
                    }
                }
            }
        }
        u = u + 1;
    }
    Ok(pr)
}

/// Nodes whose prerequisite lists hold `b`, in increasing order.
fn dependents_of(pre_all: &Vec<Vec<usize>>, b: usize) -> (r: Vec<usize>)
    ensures
        indices_below(r@, pre_all@.len() as int),
        forall|i: int, j: int| 0 <= i < j < r@.len() ==> #[trigger] r@[i] < #[trigger] r@[j],
        forall|a: int| 0 <= a < pre_all@.len() ==> (#[trigger] r@.contains(a as usize) <==> pre_all@[a]@.contains(b)),
{
    let mut r: Vec<usize> = Vec::new();
    let mut a: usize = 0;
    while a < pre_all.len()
        invariant
            a <= pre_all@.len(),
            forall|i: int| 0 <= i < r@.len() ==> (#[trigger] r@[i]) < a,
            forall|i: int, j: int| 0 <= i < j < r@.len() ==> #[trigger] r@[i] < #[trigger] r@[j],
            forall|c: int| 0 <= c < pre_all@.len() ==> (#[trigger] r@.contains(c as usize) <==> (c < a && pre_all@[c]@.contains(b))),
        decreases pre_all@.len() - a,
    {
        let ghost r0 = r@;
        if vec_contains(&pre_all[a], b) {
            r.push(a);
            proof {
                assert forall|c: int| 0 <= c < pre_all@.len() implies (#[trigger] r@.contains(c as usize) <==> (c < a + 1 && pre_all@[c]@.contains(b))) by {
                    if r@.contains(c as usize) && c != a as int {
                        let t = choose|t: int| 0 <= t < r@.len() && r@[t] == c as usize;
                        assert(t < r0.len());
                        assert(r0.contains(c as usize));
                    }
                    if c < a && pre_all@[c]@.contains(b) {
                        assert(r0.contains(c as usize));
                        let t = choose|t: int| 0 <= t < r0.len() && r0[t] == c as usize;
                        assert(r@[t] == c as usize);
                    }
                    if c == a as int {
                        assert(r@[r@.len() - 1] == a);
                    }
                }
            }
        } else {
            proof {
                assert forall|c: int| 0 <= c < pre_all@.len() implies (#[trigger] r@.contains(c as usize) <==> (c < a + 1 && pre_all@[c]@.contains(b))) by {
                    if r@.contains(c as usize) {
                        let t = choose|t: int| 0 <= t < r@.len() && r@[t] == c as usize;
                        assert(r@[t] < a);
                    }
                }
            }
        }
        a = a + 1;
    }
    r
}

/// Build the install graph of `plan`: one node per missing spec, in plan
/// order, with the effective edges between missing specs kept. Nodes with
/// no kept prerequisite start `Ready` and fill the queue in plan order;
/// the others start `Pending` with their prerequisite count.
pub fn build_scheduler(plan: &Vec<PackageSpec>, opts: &PlanOptions, max_concurrent: usize) -> (r: Result<Scheduler, PlanError>)
    requires
        names_unique(plan@),
        max_concurrent >= 1,
    ensures
        (r is Ok) <==> plan_consistent(plan@, *opts),
        match r {
            Ok(s) => {
                &&& s.wf()
                &&& s.max_concurrent == max_concurrent
                &&& s.in_flight == 0
                &&& s.first_failure is None
                &&& s.nodes@.len() == missing_positions(plan@).len()
                &&& forall|a: int| 0 <= a < s.nodes@.len() ==> {
                    &&& (#[trigger] s.nodes@[a]).name@ == plan@[missing_positions(plan@)[a]].name@
                    &&& s.remaining@[a] == s.prereqs(a).len()
                    &&& s.states@[a] == if s.prereqs(a).len() == 0 {
                        NodeState::Ready
                    } else {
                        NodeState::Pending
                    }
                }
                &&& forall|a: int, b: int| 0 <= a < s.nodes@.len() && 0 <= b < s.nodes@.len() ==> (
                    #[trigger] s.prereqs(a).contains(b as usize) <==> keeps_edge(plan@, *opts,
                    missing_positions(plan@)[a], missing_positions(plan@)[b]))
                &&& forall|i: int, j: int| 0 <= i < j < s.queue@.len() ==> #[trigger] s.queue@[i] < #[trigger] s.queue@[j]
            },
            Err(PlanError::Inconsistent(name)) => exists|p: int, u: int|
                0 <= p < plan@.len() && plan@[p].status == ResolutionStatus::Missing && 0 <= u
                    < plan@[p].deps@.len() && is_effective(#[trigger] plan@[p].deps@[u].tags, *opts)
                    && plan@[p].deps@[u].name@ == name@ && !plan_names(plan@, name@),
        },
{
    proof {
        lemma_missing_positions(plan@);
    }
    let ghost mp = missing_positions(plan@);
    let missing = collect_missing(plan);
    let n = missing.len();
    let mut pre_all: Vec<Vec<usize>> = Vec::new();
    let mut a: usize = 0;
    while a < n
        invariant
            n == missing@.len(),
            mp == missing_positions(plan@),
            names_unique(plan@),
            missing@.len() == mp.len(),
            forall|j: int| 0 <= j < missing@.len() ==> missing@[j] as int == #[trigger] mp[j],
            forall|i: int| 0 <= i < mp.len() ==> 0 <= #[trigger] mp[i] < plan@.len()
                && plan@[mp[i]].status == ResolutionStatus::Missing,
            a <= n,
            pre_all@.len() == a,
            forall|c: int| 0 <= c < a ==> {
                &&& indices_below((#[trigger] pre_all@[c])@, n as int)
                &&& pre_all@[c]@.no_duplicates()
                &&& forall|b: int| 0 <= b < n ==> (#[trigger] pre_all@[c]@.contains(b as usize)
                    <==> keeps_edge(plan@, *opts, mp[c], mp[b]))
                &&& forall|u: int| 0 <= u < plan@[mp[c]].deps@.len() && is_effective(
                    #[trigger] plan@[mp[c]].deps@[u].tags, *opts) ==> plan_names(plan@, plan@[mp[c]].deps@[u].name@)
            },
        decreases n - a,
    {
        let pos = missing[a];
        proof {
            assert(missing@[a as int] as int == mp[a as int]);
        }
        match kept_prereqs(plan, opts, &missing, pos) {
            Ok(pr) => {
                pre_all.push(pr);
            },
            Err(name) => {
                proof {
                    assert(mp[a as int] == pos as int);
                    assert(!plan_consistent(plan@, *opts)) by {
                        let u = choose|u: int| 0 <= u < plan@[pos as int].deps@.len() && is_effective(
                            #[trigger] plan@[pos as int].deps@[u].tags, *opts) && plan@[pos as int].deps@[u].name@ == name@
                            && !plan_names(plan@, name@);
                        assert(is_effective(plan@[pos as int].deps@[u].tags, *opts));
                    }
                }
                return Err(PlanError::Inconsistent(name));
            },
        }
        a = a + 1;
    }
    proof {
        assert forall|p: int, u: int|
            0 <= p < plan@.len() && plan@[p].status == ResolutionStatus::Missing && 0 <= u
                < plan@[p].deps@.len() && is_effective(#[trigger] plan@[p].deps@[u].tags, *opts)
                implies plan_names(plan@, plan@[p].deps@[u].name@) by {
            assert(mp.contains(p));
            let c = choose|c: int| 0 <= c < mp.len() && mp[c] == p;
            assert(pre_all@[c]@.no_duplicates());
            assert(is_effective(plan@[mp[c]].deps@[u].tags, *opts));
        }
    }
    let mut nodes: Vec<Node> = Vec::new();
    let mut states: Vec<NodeState> = Vec::new();
    let mut remaining: Vec<usize> = Vec::new();
    let mut queue: VecDeque<usize> = VecDeque::new();
    let mut b: usize = 0;
    while b < n
        invariant
            n == missing@.len(),
            n == pre_all@.len(),
            mp == missing_positions(plan@),
            missing@.len() == mp.len(),
            forall|j: int| 0 <= j < missing@.len() ==> missing@[j] as int == #[trigger] mp[j],
            forall|i: int| 0 <= i < mp.len() ==> 0 <= #[trigger] mp[i] < plan@.len(),
            b <= n,
            nodes@.len() == b,
            states@.len() == b,
            remaining@.len() == b,
            forall|c: int| 0 <= c < b ==> {
                &&& (#[trigger] nodes@[c]).name@ == plan@[mp[c]].name@
                &&& nodes@[c].prereqs@ == pre_all@[c]@
                &&& indices_below(nodes@[c].dependents@, n as int)
                &&& forall|i: int, j: int| 0 <= i < j < nodes@[c].dependents@.len() ==> #[trigger] nodes@[c].dependents@[i] < #[trigger] nodes@[c].dependents@[j]
                &&& forall|d: int| 0 <= d < n ==> (#[trigger] nodes@[c].dependents@.contains(d as usize) <==> pre_all@[d]@.contains(c as usize))
                &&& remaining@[c] == pre_all@[c]@.len()
                &&& states@[c] == if pre_all@[c]@.len() == 0 {
                    NodeState::Ready
                } else {
                    NodeState::Pending
                }
            },
            forall|i: int| 0 <= i < queue@.len() ==> (#[trigger] queue@[i]) < b,
            forall|i: int, j: int| 0 <= i < j < queue@.len() ==> #[trigger] queue@[i] < #[trigger] queue@[j],
            forall|c: int| 0 <= c < b ==> (#[trigger] queue@.contains(c as usize) <==> states@[c] is Ready),
        decreases n - b,
    {
        let pos = missing[b];
        proof {
            assert(missing@[b as int] as int == mp[b as int]);
        }
        let name = plan[pos].name.clone();
        let prereqs = copy_indices(&pre_all[b]);
        let dependents = dependents_of(&pre_all, b);
        let count = prereqs.len();
        let ghost q0 = queue@;
        let ghost n0 = nodes@;
        let ghost s0 = states@;
        let ghost r0 = remaining@;
        if count == 0 {
            states.push(NodeState::Ready);
            queue.push_back(b);
        } else {
            states.push(NodeState::Pending);
        }
        remaining.push(count);
        nodes.push(Node { name, prereqs, dependents });
        proof {
            assert(mp[b as int] == pos as int);
            assert forall|c: int| 0 <= c < b implies nodes@[c] == n0[c] && states@[c] == s0[c] && remaining@[c] == r0[c] by {}
            let nb = nodes@[b as int];
            assert(nb.name@ == plan@[mp[b as int]].name@);
            assert(nb.prereqs@ == pre_all@[b as int]@);
            assert(indices_below(nb.dependents@, n as int));
            assert forall|d: int| 0 <= d < n implies (#[trigger] nb.dependents@.contains(d as usize) <==> pre_all@[d]@.contains(b)) by {}
            assert forall|i: int, j: int| 0 <= i < j < nb.dependents@.len() implies #[trigger] nb.dependents@[i] < #[trigger] nb.dependents@[j] by {}
            assert(remaining@[b as int] == pre_all@[b as int]@.len());
            assert(states@[b as int] == if pre_all@[b as int]@.len() == 0 {
                    NodeState::Ready
                } else {
                    NodeState::Pending
                });
            assert forall|c: int| 0 <= c < b + 1 implies (#[trigger] queue@.contains(c as usize) <==> states@[c] is Ready) by {
                if count == 0 && c == b as int {
                    assert(queue@[queue@.len() - 1] == b);
                } else if queue@.contains(c as usize) {
                    let t = choose|t: int| 0 <= t < queue@.len() && queue@[t] == c as usize;
                    if count == 0 && t == queue@.len() - 1 {
                        assert(c == b as int);
                    } else {
                        assert(q0[t] == c as usize);
                        assert(q0.contains(c as usize));
                    }
                } else if c < b && states@[c] is Ready {
                    assert(q0.contains(c as usize));
                    let t = choose|t: int| 0 <= t < q0.len() && q0[t] == c as usize;
                    assert(queue@[t] == c as usize);
                }
            }
            assert forall|i: int| 0 <= i < queue@.len() implies (#[trigger] queue@[i]) < b + 1 by {
                if i < q0.len() {
                    assert(queue@[i] == q0[i]);
                }
            }
            assert forall|i: int, j: int| 0 <= i < j < queue@.len() implies #[trigger] queue@[i] < #[trigger] queue@[j] by {
                if j < q0.len() {
                    assert(queue@[i] == q0[i] && queue@[j] == q0[j]);
                } else {
                    assert(queue@[i] == q0[i]);
                }
            }
        }
        b = b + 1;
    }
    let s = Scheduler { nodes, states, remaining, queue, in_flight: 0, max_concurrent, first_failure: None };
    proof {
        lemma_built_wf(s, pre_all@.map_values(|v: Vec<usize>| v@));
        assert forall|a: int, c: int| 0 <= a < s.nodes@.len() && 0 <= c < s.nodes@.len() implies (
            #[trigger] s.prereqs(a).contains(c as usize) <==> keeps_edge(plan@, *opts, mp[a], mp[c])) by {
            assert(s.prereqs(a) == pre_all@[a]@);
        }
    }
    Ok(s)
}

proof fn lemma_built_wf(s: Scheduler, pre: Seq<Seq<usize>>)
    requires
        s.nodes@.len() <= usize::MAX,
        s.states@.len() == s.nodes@.len(),
        s.remaining@.len() == s.nodes@.len(),
        pre.len() == s.nodes@.len(),
        s.in_flight == 0,
        s.max_concurrent >= 1,
        forall|c: int| 0 <= c < s.nodes@.len() ==> {
            &&& (#[trigger] s.nodes@[c]).prereqs@ == pre[c]
            &&& indices_below(pre[c], s.nodes@.len() as int)
            &&& pre[c].no_duplicates()
            &&& indices_below(s.nodes@[c].dependents@, s.nodes@.len() as int)
            &&& forall|i: int, j: int| 0 <= i < j < s.nodes@[c].dependents@.len() ==> #[trigger] s.nodes@[c].dependents@[i] < #[trigger] s.nodes@[c].dependents@[j]
            &&& forall|d: int| 0 <= d < s.nodes@.len() ==> (#[trigger] s.nodes@[c].dependents@.contains(d as usize) <==> pre[d].contains(c as usize))
            &&& s.remaining@[c] == pre[c].len()
            &&& s.states@[c] == if pre[c].len() == 0 {
                NodeState::Ready
            } else {
                NodeState::Pending
            }
        },
        forall|i: int, j: int| 0 <= i < j < s.queue@.len() ==> #[trigger] s.queue@[i] < #[trigger] s.queue@[j],
        forall|i: int| 0 <= i < s.queue@.len() ==> (#[trigger] s.queue@[i]) < s.nodes@.len(),
        forall|c: int| 0 <= c < s.nodes@.len() ==> (#[trigger] s.queue@.contains(c as usize) <==> s.states@[c] is Ready),
    ensures
        s.wf(),
{
    let n = s.nodes@.len();
    assert forall|k: int| 0 <= k < n implies !(#[trigger] s.states@[k]).is_succeeded() && !(s.states@[k] is Running) by {
        assert(s.nodes@[k].prereqs@ == pre[k]);
    }
    assert forall|k: int| 0 <= k < n implies #[trigger] s.nodes@[k].dependents@.no_duplicates() by {
        let ds = s.nodes@[k].dependents@;
        assert forall|i: int, j: int| 0 <= i < ds.len() && 0 <= j < ds.len() && i != j implies ds[i] != ds[j] by {
            if i < j {
                assert(ds[i] < ds[j]);
            } else {
                assert(ds[j] < ds[i]);
            }
        }
    }
    assert forall|j: int, k: int| 0 <= j < n && 0 <= k < n implies (s.nodes@[j].dependents@.contains(k as usize)
        <==> #[trigger] s.nodes@[k].prereqs@.contains(j as usize)) by {
        assert(s.nodes@[k].prereqs@ == pre[k]);
        assert(s.nodes@[j].dependents@.contains(k as usize) <==> pre[k].contains(j as usize));
    }
    assert(graph_wf(s.nodes@));
    assert forall|k: int| 0 <= k < n implies {
        &&& ((#[trigger] s.states@[k]) is Pending || s.states@[k] is Ready)
            ==> s.remaining@[k] == count_open(s.states@, s.prereqs(k))
        &&& (s.states@[k] is Ready || s.states@[k] is Running
            || s.states@[k] is Succeeded) ==> s.prereqs_succeeded(k)
        &&& s.states@[k] is Failed ==> s.dependents_failed(k)
    } by {
        assert(s.nodes@[k].prereqs@ == pre[k]);
        lemma_count_open_none_succeeded(s.states@, s.prereqs(k));
    }
    assert(s.queue@.no_duplicates()) by {
        assert forall|i: int, j: int| 0 <= i < s.queue@.len() && 0 <= j < s.queue@.len() && i != j implies s.queue@[i] != s.queue@[j] by {
            if i < j {
                assert(s.queue@[i] < s.queue@[j]);
            } else {
                assert(s.queue@[j] < s.queue@[i]);
            }
        }
    }
    assert forall|i: int| 0 <= i < s.queue@.len() implies (#[trigger] s.queue@[i]) < s.states@.len()
        && s.states@[s.queue@[i] as int] is Ready by {
        let c = s.queue@[i] as int;
        assert(s.queue@.contains(c as usize));
    }
    lemma_no_running(s.states@);
}

/// Re-running on a plan in which everything is installed does nothing: the
/// graph built from it is empty, every node is terminal, nothing is queued
/// and nothing runs.
pub proof fn lemma_rerun_after_success_is_noop(plan: Seq<PackageSpec>, s: Scheduler)
    requires
        forall|p: int| 0 <= p < plan.len() ==> (#[trigger] plan[p]).status == ResolutionStatus::Installed,
        s.wf(),
        s.nodes@.len() == missing_positions(plan).len(),
    ensures
        s.nodes@.len() == 0,
        s.all_terminal(),
        s.queue@.len() == 0,
        s.in_flight == 0,
{
    lemma_missing_positions(plan);
    if missing_positions(plan).len() > 0 {
        assert(plan[missing_positions(plan)[0]].status == ResolutionStatus::Missing);
    }
    if s.queue@.len() > 0 {
        assert(s.queue@[0] < s.states@.len());
    }
    lemma_no_running(s.states@);
}

} // verus!
