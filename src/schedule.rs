use std::collections::VecDeque;
use vstd::prelude::*;
use vstd::string::StringExecFns;
use crate::install::ErrKind;

verus! {

/// Lifecycle of one node of the install graph.
pub enum NodeState {
    Pending,
    Ready,
    Running,
    /// Installed; holds the artifact path.
    Succeeded(String),
    /// Failed; holds a human-readable reason.
    Failed(String),
}

impl NodeState {
    pub open spec fn is_succeeded(self) -> bool {
        self is Succeeded
    }

    pub open spec fn is_terminal(self) -> bool {
        self is Succeeded || self is Failed
    }
}

/// Static part of a graph node: its name and its kept edges, by node index.
pub struct Node {
    pub name: String,
    /// Kept prerequisites of this node.
    pub prereqs: Vec<usize>,
    /// Nodes that keep an edge to this node.
    pub dependents: Vec<usize>,
}

/// Number of entries of `ps` whose node has not succeeded yet.
pub open spec fn count_open(states: Seq<NodeState>, ps: Seq<usize>) -> nat
    decreases ps.len(),
{
    if ps.len() == 0 {
        0
    } else {
        count_open(states, ps.drop_last()) + if states[ps.last() as int].is_succeeded() {
            0nat
        } else {
            1nat
        }
    }
}

/// Number of nodes in `Running`.
pub open spec fn count_running(states: Seq<NodeState>) -> nat
    decreases states.len(),
{
    if states.len() == 0 {
        0
    } else {
        count_running(states.drop_last()) + if states.last() is Running {
            1nat
        } else {
            0nat
        }
    }
}

/// Number of nodes not in `Failed`.
pub open spec fn count_unfailed(states: Seq<NodeState>) -> nat
    decreases states.len(),
{
    if states.len() == 0 {
        0
    } else {
        count_unfailed(states.drop_last()) + if states.last() is Failed {
            0nat
        } else {
            1nat
        }
    }
}

/// Every entry of `s` is a valid node index.
pub open spec fn indices_below(s: Seq<usize>, n: int) -> bool {
    forall|i: int| 0 <= i < s.len() ==> (#[trigger] s[i]) < n
}

/// The edge lists of the graph are in range, duplicate-free, and the
/// dependents lists are exactly the reverse of the prerequisite lists.
pub open spec fn graph_wf(nodes: Seq<Node>) -> bool {
    &&& forall|k: int|
        0 <= k < nodes.len() ==> {
            &&& indices_below((#[trigger] nodes[k]).prereqs@, nodes.len() as int)
            &&& indices_below(nodes[k].dependents@, nodes.len() as int)
            &&& nodes[k].prereqs@.no_duplicates()
            &&& nodes[k].dependents@.no_duplicates()
        }
    &&& forall|j: int, k: int|
        #![trigger nodes[j].dependents@.contains(k as usize)]
        #![trigger nodes[k].prereqs@.contains(j as usize)]
        0 <= j < nodes.len() && 0 <= k < nodes.len() ==> (nodes[j].dependents@.contains(k as usize)
            <==> nodes[k].prereqs@.contains(j as usize))
}

/// Reason recorded on a node whose prerequisite `dep_name` failed with `msg`.
pub open spec fn failure_reason(dep_name: Seq<char>, msg: Seq<char>) -> Seq<char> {
    "dependency '"@ + dep_name + "' failed: "@ + msg
}

pub proof fn lemma_count_open_none_succeeded(states: Seq<NodeState>, ps: Seq<usize>)
    requires
        forall|k: int| 0 <= k < states.len() ==> !(#[trigger] states[k]).is_succeeded(),
        indices_below(ps, states.len() as int),
    ensures
        count_open(states, ps) == ps.len(),
    decreases ps.len(),
{
    if ps.len() > 0 {
        let q = ps.drop_last();
        assert forall|i: int| 0 <= i < q.len() implies q[i] < states.len() by {
            assert(q[i] == ps[i]);
        }
        assert(ps[ps.len() - 1] < states.len());
        lemma_count_open_none_succeeded(states, q);
    }
}

pub proof fn lemma_count_open_zero(states: Seq<NodeState>, ps: Seq<usize>)
    requires
        indices_below(ps, states.len() as int),
    ensures
        (count_open(states, ps) == 0) <==> (forall|i: int|
            0 <= i < ps.len() ==> states[#[trigger] ps[i] as int].is_succeeded()),
    decreases ps.len(),
{
    if ps.len() > 0 {
        let q = ps.drop_last();
        lemma_count_open_zero(states, q);
        assert forall|i: int| 0 <= i < q.len() implies q[i] == ps[i] by {}
        if count_open(states, ps) == 0 {
            assert forall|i: int| 0 <= i < ps.len() implies states[#[trigger] ps[i] as int].is_succeeded() by {
                if i < q.len() {
                    assert(q[i] == ps[i]);
                }
            }
        }
        if forall|i: int| 0 <= i < ps.len() ==> states[#[trigger] ps[i] as int].is_succeeded() {
            assert forall|i: int| 0 <= i < q.len() implies states[#[trigger] q[i] as int].is_succeeded() by {
                assert(q[i] == ps[i]);
            }
            assert(states[ps[ps.len() - 1] as int].is_succeeded());
        }
    }
}

/// Changing whether `x` has succeeded moves the open count of a
/// duplicate-free list by one exactly when the list holds `x`.
pub proof fn lemma_count_open_change(s1: Seq<NodeState>, s2: Seq<NodeState>, ps: Seq<usize>, x: usize)
    requires
        s1.len() == s2.len(),
        x < s1.len(),
        indices_below(ps, s1.len() as int),
        ps.no_duplicates(),
        forall|i: int| 0 <= i < s1.len() && i != x as int ==> s1[i].is_succeeded() == s2[i].is_succeeded(),
    ensures
        !ps.contains(x) ==> count_open(s2, ps) == count_open(s1, ps),
        ps.contains(x) && !s1[x as int].is_succeeded() && s2[x as int].is_succeeded() ==> count_open(s2, ps) + 1 == count_open(s1, ps),
        ps.contains(x) && s1[x as int].is_succeeded() == s2[x as int].is_succeeded() ==> count_open(s2, ps) == count_open(s1, ps),
    decreases ps.len(),
{
    if ps.len() > 0 {
        let q = ps.drop_last();
        assert forall|i: int| 0 <= i < q.len() implies q[i] < s1.len() by {
            assert(q[i] == ps[i]);
        }
        assert(q.no_duplicates()) by {
            assert forall|i: int, j: int| 0 <= i < q.len() && 0 <= j < q.len() && i != j implies q[i] != q[j] by {
                assert(q[i] == ps[i] && q[j] == ps[j]);
            }
        }
        lemma_count_open_change(s1, s2, q, x);
        let l = ps.last();
        assert(l < s1.len()) by {
            assert(ps[ps.len() - 1] == l);
        }
        assert(count_open(s1, ps) == count_open(s1, q) + if s1[l as int].is_succeeded() { 0nat } else { 1nat });
        assert(count_open(s2, ps) == count_open(s2, q) + if s2[l as int].is_succeeded() { 0nat } else { 1nat });
        if ps.contains(x) {
            if l == x {
                assert(!q.contains(x)) by {
                    if q.contains(x) {
                        let i = choose|i: int| 0 <= i < q.len() && q[i] == x;
                        assert(ps[i] == ps[ps.len() - 1]);
                    }
                }
            } else {
                let i = choose|i: int| 0 <= i < ps.len() && ps[i] == x;
                assert(i < q.len());
                assert(q[i] == x);
            }
        } else {
            assert(!q.contains(x)) by {
                if q.contains(x) {
                    let i = choose|i: int| 0 <= i < q.len() && q[i] == x;
                    assert(ps[i] == x);
                }
            }
        }
    }
}

pub proof fn lemma_count_running_update(s: Seq<NodeState>, i: int, v: NodeState)
    requires
        0 <= i < s.len(),
    ensures
        count_running(s.update(i, v)) + (if s[i] is Running { 1int } else { 0int })
            == count_running(s) + (if v is Running { 1int } else { 0int }),
    decreases s.len(),
{
    let t = s.update(i, v);
    if i == s.len() - 1 {
        assert(t.drop_last() =~= s.drop_last());
    } else {
        lemma_count_running_update(s.drop_last(), i, v);
        assert(t.drop_last() =~= s.drop_last().update(i, v));
    }
}

pub proof fn lemma_count_unfailed_update(s: Seq<NodeState>, i: int, v: NodeState)
    requires
        0 <= i < s.len(),
    ensures
        count_unfailed(s.update(i, v)) + (if s[i] is Failed { 0int } else { 1int })
            == count_unfailed(s) + (if v is Failed { 0int } else { 1int }),
    decreases s.len(),
{
    let t = s.update(i, v);
    if i == s.len() - 1 {
        assert(t.drop_last() =~= s.drop_last());
    } else {
        lemma_count_unfailed_update(s.drop_last(), i, v);
        assert(t.drop_last() =~= s.drop_last().update(i, v));
    }
}

/// Dependents that become ready when their last open prerequisite succeeds.
pub open spec fn becomes_ready(states: Seq<NodeState>, remaining: Seq<usize>) -> spec_fn(usize) -> bool {
    |d: usize| states[d as int] is Pending && remaining[d as int] == 1
}

/// `(name, path)` of each succeeded node among the first `k`, in node order.
pub open spec fn succeeded_entries(nodes: Seq<Node>, states: Seq<NodeState>, k: int) -> Seq<(Seq<char>, Seq<char>)>
    decreases k,
{
    if k <= 0 {
        Seq::empty()
    } else {
        let rest = succeeded_entries(nodes, states, k - 1);
        match states[k - 1] {
            NodeState::Succeeded(path) => rest.push((nodes[k - 1].name@, path@)),
            _ => rest,
        }
    }
}

/// `(name, reason)` of each failed node among the first `k`, in node order.
pub open spec fn failed_entries(nodes: Seq<Node>, states: Seq<NodeState>, k: int) -> Seq<(Seq<char>, Seq<char>)>
    decreases k,
{
    if k <= 0 {
        Seq::empty()
    } else {
        let rest = failed_entries(nodes, states, k - 1);
        match states[k - 1] {
            NodeState::Failed(why) => rest.push((nodes[k - 1].name@, why@)),
            _ => rest,
        }
    }
}

/// Outcome of a run: `(name, artifact path)` of each installed node and
/// `(name, reason)` of each failed node.
pub struct InstallReport {
    pub succeeded: Vec<(String, String)>,
    pub failed: Vec<(String, String)>,
    /// Kind of the first task that failed on its own, if any.
    pub first_failure: Option<ErrKind>,
}

/// Why an install task failed.
pub struct TaskError {
    pub kind: ErrKind,
    pub message: String,
}

/// What the controller should do next.
pub enum Action {
    /// Start the install task of this node; it is now `Running`.
    Spawn(usize),
    /// Block until some running task completes, then report it.
    AwaitCompletion,
    /// Every node is terminal.
    Finished,
    /// Nothing runs, nothing is ready, yet some node is not terminal.
    Stalled,
}

/// The controller's view of one install run: the graph, per-node state,
/// readiness counters, the ready queue and the in-flight count.
pub struct Scheduler {
    pub nodes: Vec<Node>,
    pub states: Vec<NodeState>,
    /// Per node: kept prerequisites that have not succeeded yet.
    pub remaining: Vec<usize>,
    /// Ready nodes, in dispatch order.
    pub queue: VecDeque<usize>,
    pub in_flight: usize,
    pub max_concurrent: usize,
    /// Kind of the first task that failed on its own, if any.
    pub first_failure: Option<ErrKind>,
}

impl Scheduler {
    pub open spec fn prereqs(&self, k: int) -> Seq<usize> {
        self.nodes@[k].prereqs@
    }

    pub open spec fn dependents(&self, k: int) -> Seq<usize> {
        self.nodes@[k].dependents@
    }

    pub open spec fn all_terminal(&self) -> bool {
        forall|k: int| 0 <= k < self.states@.len() ==> (#[trigger] self.states@[k]).is_terminal()
    }

    /// A node that is ready, running or succeeded has only succeeded prerequisites.
    pub open spec fn prereqs_succeeded(&self, k: int) -> bool {
        forall|i: int|
            0 <= i < self.prereqs(k).len() ==> self.states@[#[trigger] self.prereqs(k)[i] as int].is_succeeded()
    }

    /// Every dependent of `k` has failed.
    pub open spec fn dependents_failed(&self, k: int) -> bool {
        forall|i: int|
            0 <= i < self.dependents(k).len() ==> self.states@[#[trigger] self.dependents(k)[i] as int] is Failed
    }

    pub open spec fn queue_wf(&self) -> bool {
        &&& self.queue@.no_duplicates()
        &&& forall|i: int|
            0 <= i < self.queue@.len() ==> (#[trigger] self.queue@[i]) < self.states@.len()
                && self.states@[self.queue@[i] as int] is Ready
        &&& forall|k: int|
            0 <= k < self.states@.len() && self.states@[k] is Ready ==> #[trigger] self.queue@.contains(
                k as usize,
            )
    }

    /// Graph shape, readiness counters, monotone-state consequences,
    /// ready-queue consistency and the concurrency ceiling.
    pub open spec fn wf(&self) -> bool {
        &&& graph_wf(self.nodes@)
        &&& self.nodes@.len() <= usize::MAX
        &&& self.states@.len() == self.nodes@.len()
        &&& self.remaining@.len() == self.nodes@.len()
        &&& forall|k: int|
            0 <= k < self.nodes@.len() ==> {
                &&& ((#[trigger] self.states@[k]) is Pending || self.states@[k] is Ready)
                    ==> self.remaining@[k] == count_open(self.states@, self.prereqs(k))
                &&& (self.states@[k] is Ready || self.states@[k] is Running
                    || self.states@[k] is Succeeded) ==> self.prereqs_succeeded(k)
                &&& self.states@[k] is Failed ==> self.dependents_failed(k)
            }
        &&& self.queue_wf()
        &&& self.in_flight == count_running(self.states@)
        &&& self.in_flight <= self.max_concurrent
        &&& self.max_concurrent >= 1
    }

    /// Decide the controller's next step; on `Spawn` the node leaves the
    /// queue and becomes `Running`.
    pub fn next_action(&mut self) -> (r: Action)
        requires
            old(self).wf(),
        ensures
            final(self).wf(),
            final(self).nodes@ == old(self).nodes@,
            final(self).remaining@ == old(self).remaining@,
            final(self).max_concurrent == old(self).max_concurrent,
            (r is Finished) <==> old(self).all_terminal(),
            (r is Spawn) <==> (!old(self).all_terminal() && old(self).queue@.len() > 0
                && old(self).in_flight < old(self).max_concurrent),
            (r is AwaitCompletion) <==> (!old(self).all_terminal() && old(self).in_flight > 0 && (
            old(self).queue@.len() == 0 || old(self).in_flight == old(self).max_concurrent)),
            (r is Stalled) <==> (!old(self).all_terminal() && old(self).queue@.len() == 0
                && old(self).in_flight == 0),
            r is Spawn ==> {
                &&& final(self).prereqs_succeeded(r->Spawn_0 as int)
                &&& r->Spawn_0 == old(self).queue@[0]
                &&& final(self).queue@ == old(self).queue@.drop_first()
                &&& final(self).states@ == old(self).states@.update(r->Spawn_0 as int, NodeState::Running)
                &&& final(self).in_flight == old(self).in_flight + 1
            },
            !(r is Spawn) ==> *final(self) == *old(self),
    {
        let n = self.states.len();
        let mut k: usize = 0;
        let mut done = true;
        while k < n
            invariant
                self.wf(),
                n == self.states@.len(),
                k <= n,
                done == (forall|j: int| 0 <= j < k ==> (#[trigger] self.states@[j]).is_terminal()),
            decreases n - k,
        {
            match &self.states[k] {
                NodeState::Succeeded(_) | NodeState::Failed(_) => {},
                _ => {
                    done = false;
                },
            }
            k = k + 1;
        }
        if done {
            proof {
                self.lemma_no_work_when_terminal();
            }
            return Action::Finished;
        }
        if self.queue.len() > 0 && self.in_flight < self.max_concurrent {
            let id = self.queue.pop_front().unwrap();
            proof {
                assert(old(self).queue@[0] == id);
                lemma_count_running_update(self.states@, id as int, NodeState::Running);
            }
            self.states.set(id, NodeState::Running);
            self.in_flight = self.in_flight + 1;
            proof {
                self.lemma_spawn_keeps_wf(*old(self), id);
            }
            return Action::Spawn(id);
        }
        if self.in_flight > 0 {
            Action::AwaitCompletion
        } else if self.queue.len() == 0 {
            Action::Stalled
        } else {
            proof {
                assert(false);
            }
            Action::AwaitCompletion
        }
    }

    /// Record the outcome of the task of `id` (`Ok(path)` or `Err(error)`)
    /// and propagate it: on success dependents whose last open prerequisite
    /// this was become ready and join the queue in dependents order; on
    /// failure every pending node downstream of `id` fails with a reason
    /// naming its failed prerequisite (`id` itself for its direct
    /// dependents), and the first failure kind of the run is kept.
    pub fn process_task_outcome(&mut self, id: usize, outcome: Result<String, TaskError>)
        requires
            old(self).wf(),
            id < old(self).nodes@.len(),
            old(self).states@[id as int] is Running,
        ensures
            final(self).wf(),
            final(self).nodes@ == old(self).nodes@,
            final(self).max_concurrent == old(self).max_concurrent,
            final(self).in_flight + 1 == old(self).in_flight,
            match outcome {
                Ok(path) => {
                    &&& final(self).first_failure == old(self).first_failure
                    &&& final(self).states@[id as int] == NodeState::Succeeded(path)
                    &&& final(self).success_step(*old(self), id as int, old(self).dependents(id as int).len() as int)
                    &&& final(self).queue@ == old(self).queue@ + old(self).dependents(id as int).filter(
                        becomes_ready(old(self).states@, old(self).remaining@),
                    )
                },
                Err(e) => {
                    &&& final(self).first_failure == if old(self).first_failure is None {
                        Some(e.kind)
                    } else {
                        old(self).first_failure
                    }
                    &&& final(self).states@[id as int] == NodeState::Failed(e.message)
                    &&& final(self).failure_step(*old(self), id as int)
                    &&& forall|d: int|
                        0 <= d < old(self).nodes@.len() && old(self).dependents(id as int).contains(d as usize)
                            && old(self).states@[d] is Pending ==> (#[trigger] final(self).states@[d]) is Failed
                            && final(self).states@[d]->Failed_0@ == failure_reason(old(self).nodes@[id as int].name@, e.message@)
                    &&& final(self).remaining@ == old(self).remaining@
                    &&& final(self).queue@ == old(self).queue@
                },
            },
    {
        let prev = self.first_failure;
        match outcome {
            Ok(path) => {
                self.record_success(id, path);
            },
            Err(e) => {
                let ghost s0 = *self;
                self.first_failure = match prev {
                    None => Some(e.kind),
                    Some(k) => Some(k),
                };
                proof {
                    lemma_wf_frame(s0, *self);
                }
                self.record_failure(id, e.message);
            },
        }
    }

    /// Final partition of the nodes: `(name, path)` of each succeeded node
    /// and `(name, reason)` of each failed one, in node order.
    pub fn report(&self) -> (r: InstallReport)
        requires
            self.states@.len() == self.nodes@.len(),
        ensures
            r.succeeded@.map_values(|e: (String, String)| (e.0@, e.1@)) == succeeded_entries(
                self.nodes@,
                self.states@,
                self.nodes@.len() as int,
            ),
            r.failed@.map_values(|e: (String, String)| (e.0@, e.1@)) == failed_entries(
                self.nodes@,
                self.states@,
                self.nodes@.len() as int,
            ),
            r.first_failure == self.first_failure,
    {
        let mut succeeded: Vec<(String, String)> = Vec::new();
        let mut failed: Vec<(String, String)> = Vec::new();
        let n = self.states.len();
        let mut k: usize = 0;
        while k < n
            invariant
                n == self.states@.len(),
                self.states@.len() == self.nodes@.len(),
                k <= n,
                succeeded@.map_values(|e: (String, String)| (e.0@, e.1@)) == succeeded_entries(
                    self.nodes@,
                    self.states@,
                    k as int,
                ),
                failed@.map_values(|e: (String, String)| (e.0@, e.1@)) == failed_entries(
                    self.nodes@,
                    self.states@,
                    k as int,
                ),
            decreases n - k,
        {
            let ghost s0 = succeeded@;
            let ghost f0 = failed@;
            match &self.states[k] {
                NodeState::Succeeded(path) => {
                    succeeded.push((self.nodes[k].name.clone(), path.clone()));
                    proof {
                        assert(succeeded@.map_values(|e: (String, String)| (e.0@, e.1@)) =~= s0.map_values(
                            |e: (String, String)| (e.0@, e.1@)).push((self.nodes@[k as int].name@, path@)));
                        assert(failed@.map_values(|e: (String, String)| (e.0@, e.1@)) =~= failed_entries(
                            self.nodes@, self.states@, k as int + 1));
                    }
                },
                NodeState::Failed(why) => {
                    failed.push((self.nodes[k].name.clone(), why.clone()));
                    proof {
                        assert(failed@.map_values(|e: (String, String)| (e.0@, e.1@)) =~= f0.map_values(
                            |e: (String, String)| (e.0@, e.1@)).push((self.nodes@[k as int].name@, why@)));
                        assert(succeeded@.map_values(|e: (String, String)| (e.0@, e.1@)) =~= succeeded_entries(
                            self.nodes@, self.states@, k as int + 1));
                    }
                },
                _ => {},
            }
            k = k + 1;
        }
        InstallReport { succeeded, failed, first_failure: self.first_failure }
    }

    /// A node that has succeeded has only succeeded prerequisites.
    pub proof fn lemma_succeeded_prereqs_succeeded(&self, k: int, p: usize)
        requires
            self.wf(),
            0 <= k < self.nodes@.len(),
            self.states@[k] is Succeeded,
            self.prereqs(k).contains(p),
        ensures
            self.states@[p as int] is Succeeded,
    {
        let i = choose|i: int| 0 <= i < self.prereqs(k).len() && self.prereqs(k)[i] == p;
        assert(self.states@[self.prereqs(k)[i] as int].is_succeeded());
    }

    /// At most `max_concurrent` nodes are running at any time.
    pub proof fn lemma_running_bounded(&self)
        requires
            self.wf(),
        ensures
            count_running(self.states@) <= self.max_concurrent,
    {
    }

    /// Failure is closed under reverse edges: every dependent of a failed
    /// node has failed, so every node reachable from it through dependents
    /// has failed too.
    pub proof fn lemma_failure_reaches_dependents(&self, k: int, d: usize)
        requires
            self.wf(),
            0 <= k < self.nodes@.len(),
            self.states@[k] is Failed,
            self.dependents(k).contains(d),
        ensures
            self.states@[d as int] is Failed,
    {
        let i = choose|i: int| 0 <= i < self.dependents(k).len() && self.dependents(k)[i] == d;
        assert(self.states@[self.dependents(k)[i] as int] is Failed);
    }

    /// Relation between the state before and after a successful completion
    /// of `id`, once `done` dependents of `id` have been visited.
    pub open spec fn success_step(&self, pre: Scheduler, id: int, done: int) -> bool {
        forall|k: int|
            #![trigger self.states@[k]]
            #![trigger self.remaining@[k]]
            0 <= k < self.nodes@.len() && k != id ==> if pre.dependents(id).subrange(0, done).contains(
                k as usize,
            ) && pre.states@[k] is Pending {
                &&& self.remaining@[k] == pre.remaining@[k] - 1
                &&& self.states@[k] == if pre.remaining@[k] == 1 {
                    NodeState::Ready
                } else {
                    NodeState::Pending
                }
            } else {
                &&& self.remaining@[k] == pre.remaining@[k]
                &&& self.states@[k] == pre.states@[k]
            }
    }

    #[verifier::spinoff_prover]
    #[verifier::rlimit(50)]
    fn record_success(&mut self, id: usize, path: String)
        requires
            old(self).wf(),
            id < old(self).nodes@.len(),
            old(self).states@[id as int] is Running,
        ensures
            final(self).wf(),
            final(self).nodes@ == old(self).nodes@,
            final(self).max_concurrent == old(self).max_concurrent,
            final(self).first_failure == old(self).first_failure,
            final(self).states@[id as int] == NodeState::Succeeded(path),
            final(self).in_flight + 1 == old(self).in_flight,
            final(self).success_step(*old(self), id as int, old(self).dependents(id as int).len() as int),
            final(self).queue@ == old(self).queue@ + old(self).dependents(id as int).filter(
                becomes_ready(old(self).states@, old(self).remaining@),
            ),
    {
        let ghost pre = *self;
        let ghost p = path;
        proof {
            lemma_count_running_update(self.states@, id as int, NodeState::Succeeded(path));
        }
        self.states.set(id, NodeState::Succeeded(path));
        self.in_flight = self.in_flight - 1;
        let deps_len = self.nodes[id].dependents.len();
        let mut i: usize = 0;
        proof {
            reveal(Seq::filter);
            assert(pre.dependents(id as int).subrange(0, 0).filter(becomes_ready(pre.states@, pre.remaining@)) =~= Seq::<usize>::empty());
            assert(self.queue@ =~= pre.queue@ + pre.dependents(id as int).subrange(0, 0).filter(becomes_ready(pre.states@, pre.remaining@)));
        }
        while i < deps_len
            invariant
                pre.wf(),
                id < pre.nodes@.len(),
                pre.states@[id as int] is Running,
                self.nodes@ == pre.nodes@,
                self.max_concurrent == pre.max_concurrent,
                self.first_failure == pre.first_failure,
                self.states@.len() == pre.states@.len(),
                self.remaining@.len() == pre.remaining@.len(),
                self.states@[id as int] == NodeState::Succeeded(p),
                self.in_flight + 1 == pre.in_flight,
                self.in_flight == count_running(self.states@),
                deps_len == pre.dependents(id as int).len(),
                i <= deps_len,
                self.success_step(pre, id as int, i as int),
                self.queue_wf(),
                self.queue@ == pre.queue@ + pre.dependents(id as int).subrange(0, i as int).filter(
                    becomes_ready(pre.states@, pre.remaining@),
                ),
            decreases deps_len - i,
        {
            let d = self.nodes[id].dependents[i];
            let ghost before = *self;
            let ghost deps = pre.dependents(id as int);
            proof {
                assert(deps[i as int] == d);
                assert(indices_below(pre.nodes@[id as int].dependents@, pre.nodes@.len() as int));
                assert(d < pre.nodes@.len());
                assert(!deps.subrange(0, i as int).contains(d)) by {
                    if deps.subrange(0, i as int).contains(d) {
                        let j = choose|j: int| 0 <= j < i && #[trigger] deps.subrange(0, i as int)[j] == d;
                        assert(deps[j] == d);
                    }
                }
                assert(pre.prereqs(d as int).contains(id)) by {
                    assert(pre.nodes@[id as int].dependents@[i as int] == d);
                    assert(pre.nodes@[id as int].dependents@.contains((d as int) as usize));
                }
                assert(d != id) by {
                    if d == id {
                        assert(pre.prereqs_succeeded(d as int));
                        let j = choose|j: int| 0 <= j < pre.prereqs(d as int).len() && pre.prereqs(d as int)[j] == id;
                        assert(pre.states@[pre.prereqs(d as int)[j] as int].is_succeeded());
                    }
                }
                assert(deps.subrange(0, i as int + 1) =~= deps.subrange(0, i as int).push(d));
                reveal(Seq::filter);
                assert(deps.subrange(0, i as int + 1).drop_last() =~= deps.subrange(0, i as int));
            }
            let pending = match &self.states[d] {
                NodeState::Pending => true,
                _ => false,
            };
            if pending {
                let r = self.remaining[d];
                proof {
                    assert(pre.states@[d as int] is Pending);
                    lemma_count_open_change(pre.states@, self.states@, pre.prereqs(d as int), id);
                }
                self.remaining.set(d, r - 1);
                if r == 1 {
                    proof {
                        lemma_count_running_update(self.states@, d as int, NodeState::Ready);
                    }
                    self.states.set(d, NodeState::Ready);
                    self.queue.push_back(d);
                    proof {
                        assert(!before.queue@.contains(d)) by {
                            if before.queue@.contains(d) {
                                let j = choose|j: int| 0 <= j < before.queue@.len() && before.queue@[j] == d;
                                assert(before.states@[before.queue@[j] as int] is Ready);
                            }
                        }
                        assert forall|k: int| 0 <= k < self.states@.len() && self.states@[k] is Ready implies #[trigger] self.queue@.contains(k as usize) by {
                            if k == d as int {
                                assert(self.queue@[self.queue@.len() - 1] == d);
                            } else {
                                assert(before.queue@.contains(k as usize));
                                let j = choose|j: int| 0 <= j < before.queue@.len() && before.queue@[j] == k as usize;
                                assert(self.queue@[j] == k as usize);
                            }
                        }
                        assert forall|j: int| 0 <= j < self.queue@.len() implies (#[trigger] self.queue@[j]) < self.states@.len()
                            && self.states@[self.queue@[j] as int] is Ready by {
                            if j < before.queue@.len() {
                                assert(self.queue@[j] == before.queue@[j]);
                            }
                        }
                        assert(self.queue@.no_duplicates()) by {
                            assert forall|a: int, b: int| 0 <= a < self.queue@.len() && 0 <= b < self.queue@.len() && a != b implies self.queue@[a] != self.queue@[b] by {
                                if a < before.queue@.len() && b < before.queue@.len() {
                                    assert(self.queue@[a] == before.queue@[a]);
                                    assert(self.queue@[b] == before.queue@[b]);
                                } else if a < before.queue@.len() {
                                    assert(self.queue@[a] == before.queue@[a]);
                                    assert(before.queue@.contains(self.queue@[a]));
                                } else if b < before.queue@.len() {
                                    assert(self.queue@[b] == before.queue@[b]);
                                    assert(before.queue@.contains(self.queue@[b]));
                                }
                            }
                        }
                        assert(self.queue@ =~= pre.queue@ + deps.subrange(0, i as int + 1).filter(
                            becomes_ready(pre.states@, pre.remaining@)));
                    }
                } else {
                    proof {
                        assert(self.queue@ =~= pre.queue@ + deps.subrange(0, i as int + 1).filter(
                            becomes_ready(pre.states@, pre.remaining@)));
                    }
                }
            } else {
                proof {
                    assert(pre.states@[d as int] == self.states@[d as int]);
                    assert(self.queue@ =~= pre.queue@ + deps.subrange(0, i as int + 1).filter(
                        becomes_ready(pre.states@, pre.remaining@)));
                }
            }
            proof {
                assert forall|k: int| 0 <= k < self.nodes@.len() && k != id as int && k != d as int implies
                    (#[trigger] deps.subrange(0, i as int + 1).contains(k as usize) == deps.subrange(0, i as int).contains(k as usize)) by {
                    if deps.subrange(0, i as int + 1).contains(k as usize) {
                        let j = choose|j: int| 0 <= j < i + 1 && #[trigger] deps.subrange(0, i as int + 1)[j] == k as usize;
                        assert(deps.subrange(0, i as int)[j] == k as usize);
                    }
                    if deps.subrange(0, i as int).contains(k as usize) {
                        let j = choose|j: int| 0 <= j < i && #[trigger] deps.subrange(0, i as int)[j] == k as usize;
                        assert(deps.subrange(0, i as int + 1)[j] == k as usize);
                    }
                }
                assert(deps.subrange(0, i as int + 1)[i as int] == d);
            }
            i = i + 1;
        }
        proof {
            assert(pre.dependents(id as int).subrange(0, deps_len as int) =~= pre.dependents(id as int));
            self.lemma_success_keeps_wf(pre, id);
        }
    }

    proof fn lemma_success_keeps_wf(&self, pre: Scheduler, id: usize)
        requires
            pre.wf(),
            id < pre.nodes@.len(),
            pre.states@[id as int] is Running,
            self.nodes@ == pre.nodes@,
            self.max_concurrent == pre.max_concurrent,
            self.states@.len() == pre.states@.len(),
            self.remaining@.len() == pre.remaining@.len(),
            self.states@[id as int] is Succeeded,
            self.in_flight + 1 == pre.in_flight,
            self.in_flight == count_running(self.states@),
            self.success_step(pre, id as int, pre.dependents(id as int).len() as int),
            self.queue_wf(),
        ensures
            self.wf(),
    {
        assert(pre.dependents(id as int).subrange(0, pre.dependents(id as int).len() as int) =~= pre.dependents(id as int));
        assert forall|k: int| 0 <= k < self.nodes@.len() implies {
            &&& ((#[trigger] self.states@[k]) is Pending || self.states@[k] is Ready)
                ==> self.remaining@[k] == count_open(self.states@, self.prereqs(k))
            &&& (self.states@[k] is Ready || self.states@[k] is Running
                || self.states@[k] is Succeeded) ==> self.prereqs_succeeded(k)
            &&& self.states@[k] is Failed ==> self.dependents_failed(k)
        } by {
            lemma_count_open_change(pre.states@, self.states@, self.prereqs(k), id);
            let dep = pre.dependents(id as int).contains(k as usize);
            assert(dep == pre.prereqs(k).contains(id));
            if k != id as int && dep {
                // a dependent of a running node cannot be ready, running or succeeded
                if pre.states@[k] is Ready || pre.states@[k] is Running || pre.states@[k] is Succeeded {
                    assert(pre.prereqs_succeeded(k));
                    let j = choose|j: int| 0 <= j < pre.prereqs(k).len() && pre.prereqs(k)[j] == id;
                    assert(pre.states@[pre.prereqs(k)[j] as int].is_succeeded());
                }
            }
            if self.states@[k] is Ready || self.states@[k] is Running || self.states@[k] is Succeeded {
                if k != id as int && dep && pre.states@[k] is Pending {
                    lemma_count_open_zero(self.states@, self.prereqs(k));
                } else if k != id as int {
                    assert(pre.prereqs_succeeded(k));
                    assert forall|i: int| 0 <= i < self.prereqs(k).len() implies self.states@[#[trigger] self.prereqs(k)[i] as int].is_succeeded() by {
                        assert(pre.states@[pre.prereqs(k)[i] as int].is_succeeded());
                        let q = self.prereqs(k)[i] as int;
                        assert(q < self.nodes@.len());
                        if q != id as int {
                            if !(pre.dependents(id as int).contains(q as usize) && pre.states@[q] is Pending) {
                                assert(self.states@[q] == pre.states@[q]);
                            }
                        }
                    }
                } else {
                    assert(pre.prereqs_succeeded(k));
                    assert forall|i: int| 0 <= i < self.prereqs(k).len() implies self.states@[#[trigger] self.prereqs(k)[i] as int].is_succeeded() by {
                        assert(pre.states@[pre.prereqs(k)[i] as int].is_succeeded());
                        let q = self.prereqs(k)[i] as int;
                        if q != id as int {
                            if !(pre.dependents(id as int).contains(q as usize) && pre.states@[q] is Pending) {
                                assert(self.states@[q] == pre.states@[q]);
                            }
                        }
                    }
                }
            }
            if self.states@[k] is Failed {
                assert(pre.states@[k] is Failed);
                assert(pre.dependents_failed(k));
                assert forall|i: int| 0 <= i < self.dependents(k).len() implies self.states@[#[trigger] self.dependents(k)[i] as int] is Failed by {
                    let q = self.dependents(k)[i] as int;
                    assert(pre.states@[q] is Failed);
                    assert(q != id as int);
                }
            }
        }
    }

    /// Node `k` has failed with the reason derived from a failed
    /// prerequisite, which is `id` itself or a node that changed since `pre`.
    pub open spec fn failed_through_prereq(&self, pre: Scheduler, id: int, k: int) -> bool {
        exists|p: usize|
            #[trigger] self.prereqs(k).contains(p) && self.states@[p as int] is Failed
                && self.states@[k] is Failed && self.states@[k]->Failed_0@ == failure_reason(
                self.nodes@[p as int].name@,
                self.states@[p as int]->Failed_0@,
            ) && (p as int == id || self.states@[p as int] != pre.states@[p as int])
    }

    /// Relation between the state before and after a failed completion of
    /// `id`: every other node keeps its state, or was pending and now fails
    /// because a prerequisite failed that is `id` or itself changed, so
    /// only nodes downstream of `id` change.
    pub open spec fn failure_step(&self, pre: Scheduler, id: int) -> bool {
        forall|k: int|
            #![trigger self.states@[k]]
            0 <= k < self.nodes@.len() && k != id ==> self.states@[k] == pre.states@[k] || (
            pre.states@[k] is Pending && self.failed_through_prereq(pre, id, k))
    }

    /// Every dependent of `id` that was pending in `pre` either still is, or
    /// has failed with the reason naming `id`.
    spec fn direct_reasons(&self, pre: Scheduler, id: int) -> bool {
        forall|d: int|
            #![trigger self.states@[d]]
            0 <= d < self.states@.len() && pre.dependents(id).contains(d as usize) && pre.states@[d] is Pending
                ==> self.states@[d] == pre.states@[d] || (self.states@[d] is Failed
                && self.states@[d]->Failed_0@ == failure_reason(self.nodes@[id].name@, self.states@[id]->Failed_0@))
    }

    spec fn cascade_inv(&self, pre: Scheduler, id: usize, work: Seq<usize>, skip: int) -> bool {
        &&& pre.wf()
        &&& id < pre.nodes@.len()
        &&& pre.states@[id as int] is Running
        &&& self.nodes@ == pre.nodes@
        &&& self.max_concurrent == pre.max_concurrent
        &&& self.remaining@ == pre.remaining@
        &&& self.queue@ == pre.queue@
        &&& self.states@.len() == pre.states@.len()
        &&& self.states@[id as int] is Failed
        &&& self.in_flight + 1 == pre.in_flight
        &&& self.in_flight == count_running(self.states@)
        &&& self.failure_step(pre, id as int)
        &&& forall|k: int|
            0 <= k < self.states@.len() ==> (#[trigger] self.states@[k]).is_succeeded()
                == pre.states@[k].is_succeeded()
        &&& work.no_duplicates()
        &&& forall|i: int| 0 <= i < work.len() && work[i] != id ==> pre.states@[#[trigger] work[i] as int] is Pending
        &&& forall|i: int|
            0 <= i < work.len() ==> (#[trigger] work[i]) < self.states@.len() && self.states@[work[i] as int] is Failed
        &&& forall|k: int|
            0 <= k < self.states@.len() && (#[trigger] self.states@[k]) is Failed && !work.contains(k as usize) && k != skip
                ==> self.dependents_failed(k)
    }

    #[verifier::spinoff_prover]
    #[verifier::rlimit(60)]
    fn record_failure(&mut self, id: usize, reason: String)
        requires
            old(self).wf(),
            id < old(self).nodes@.len(),
            old(self).states@[id as int] is Running,
        ensures
            final(self).wf(),
            final(self).nodes@ == old(self).nodes@,
            final(self).max_concurrent == old(self).max_concurrent,
            final(self).first_failure == old(self).first_failure,
            final(self).remaining@ == old(self).remaining@,
            final(self).queue@ == old(self).queue@,
            final(self).states@[id as int] == NodeState::Failed(reason),
            final(self).in_flight + 1 == old(self).in_flight,
            final(self).failure_step(*old(self), id as int),
            forall|d: int|
                0 <= d < old(self).nodes@.len() && old(self).dependents(id as int).contains(d as usize)
                    && old(self).states@[d] is Pending ==> (#[trigger] final(self).states@[d]) is Failed
                    && final(self).states@[d]->Failed_0@ == failure_reason(old(self).nodes@[id as int].name@, reason@),
    {
        let ghost pre = *self;
        let ghost why = reason;
        proof {
            lemma_count_running_update(self.states@, id as int, NodeState::Failed(reason));
        }
        self.states.set(id, NodeState::Failed(reason));
        self.in_flight = self.in_flight - 1;
        let mut work: VecDeque<usize> = VecDeque::new();
        work.push_back(id);
        proof {
            assert(work@[0] == id);
            assert forall|k: int| 0 <= k < self.states@.len() && (#[trigger] self.states@[k]) is Failed && !work@.contains(k as usize) && k != -1
                implies self.dependents_failed(k) by {
                assert(k != id as int);
                assert(pre.dependents_failed(k));
                assert forall|i: int| 0 <= i < self.dependents(k).len() implies self.states@[#[trigger] self.dependents(k)[i] as int] is Failed by {
                    assert(pre.states@[pre.dependents(k)[i] as int] is Failed);
                }
            }
        }
        while work.len() > 0
            invariant
                self.cascade_inv(pre, id, work@, -1),
                self.first_failure == pre.first_failure,
                self.states@[id as int] == NodeState::Failed(why),
                work@.contains(id) ==> work@.len() == 1,
                self.direct_reasons(pre, id as int),
            decreases 2 * count_unfailed(self.states@) + work@.len(),
        {
            let ghost measure = 2 * count_unfailed(self.states@) + work@.len();
            let ghost w0 = work@;
            let x = work.pop_front().unwrap();
            proof {
                assert(w0[0] == x);
                assert(x != id ==> pre.states@[w0[0] as int] is Pending);
                assert forall|i: int| 0 <= i < work@.len() && work@[i] != id implies pre.states@[#[trigger] work@[i] as int] is Pending by {
                    assert(work@[i] == w0[i + 1]);
                }
                assert(!work@.contains(id)) by {
                    if work@.contains(id) {
                        let t = choose|t: int| 0 <= t < work@.len() && work@[t] == id;
                        assert(w0[t + 1] == id);
                        assert(w0.contains(id));
                    }
                }
                assert forall|i: int| 0 <= i < work@.len() implies work@[i] == w0[i + 1] by {}
                assert(work@.no_duplicates()) by {
                    assert forall|a: int, b: int| 0 <= a < work@.len() && 0 <= b < work@.len() && a != b implies work@[a] != work@[b] by {
                        assert(work@[a] == w0[a + 1] && work@[b] == w0[b + 1]);
                    }
                }
                assert forall|k: int| 0 <= k < self.states@.len() && (#[trigger] self.states@[k]) is Failed && !work@.contains(k as usize) && k != x as int
                    implies self.dependents_failed(k) by {
                    if w0.contains(k as usize) {
                        let u = choose|u: int| 0 <= u < w0.len() && w0[u] == k as usize;
                        assert(u != 0);
                        assert(work@[u - 1] == k as usize);
                    }
                }
                assert(x < self.states@.len());
                assert(!work@.contains(x)) by {
                    if work@.contains(x) {
                        let j = choose|j: int| 0 <= j < work@.len() && work@[j] == x;
                        assert(w0[j + 1] == x);
                    }
                }
                assert forall|i: int| 0 <= i < work@.len() implies (#[trigger] work@[i]) < self.states@.len() && self.states@[work@[i] as int] is Failed by {
                }
            }
            let why_x = match &self.states[x] {
                NodeState::Failed(r) => r.clone(),
                _ => String::new(),
            };
            let deps_len = self.nodes[x].dependents.len();
            let mut j: usize = 0;
            while j < deps_len
                invariant
                    self.cascade_inv(pre, id, work@, x as int),
                    self.first_failure == pre.first_failure,
                    self.states@[id as int] == NodeState::Failed(why),
                    !work@.contains(id),
                    x != id ==> pre.states@[x as int] is Pending,
                    self.direct_reasons(pre, id as int),
                    x < self.states@.len(),
                    self.states@[x as int] == NodeState::Failed(why_x),
                    !work@.contains(x),
                    deps_len == self.dependents(x as int).len(),
                    j <= deps_len,
                    forall|t: int| 0 <= t < j ==> self.states@[#[trigger] self.dependents(x as int)[t] as int] is Failed,
                    2 * count_unfailed(self.states@) + work@.len() < measure,
                decreases deps_len - j,
            {
                let d = self.nodes[x].dependents[j];
                let pending = match &self.states[d] {
                    NodeState::Pending => true,
                    _ => false,
                };
                if pending {
                    let mut msg = String::from_str("dependency '");
                    msg.append(self.nodes[x].name.as_str());
                    msg.append("' failed: ");
                    msg.append(why_x.as_str());
                    proof {
                        reveal_strlit("dependency '");
                        reveal_strlit("' failed: ");
                        assert(msg@ == failure_reason(self.nodes@[x as int].name@, why_x@));
                        lemma_count_unfailed_update(self.states@, d as int, NodeState::Failed(msg));
                        lemma_count_running_update(self.states@, d as int, NodeState::Failed(msg));
                    }
                    let ghost before = *self;
                    let ghost wbefore = work@;
                    self.states.set(d, NodeState::Failed(msg));
                    work.push_back(d);
                    proof {
                        self.lemma_cascade_step(before, pre, id, x, d, wbefore, work@);
                        assert(!work@.contains(id)) by {
                            if work@.contains(id) {
                                let t = choose|t: int| 0 <= t < work@.len() && work@[t] == id;
                                if t < wbefore.len() {
                                    assert(wbefore[t] == id);
                                }
                            }
                        }
                        assert forall|k: int|
                            #![trigger self.states@[k]]
                            0 <= k < self.states@.len() && pre.dependents(id as int).contains(k as usize) && pre.states@[k] is Pending
                            implies self.states@[k] == pre.states@[k] || (self.states@[k] is Failed
                            && self.states@[k]->Failed_0@ == failure_reason(self.nodes@[id as int].name@, self.states@[id as int]->Failed_0@)) by {
                            if k != d as int {
                                assert(self.states@[k] == before.states@[k]);
                                assert(before.direct_reasons(pre, id as int));
                            } else if x != id {
                                assert(before.states@[id as int] is Failed);
                                assert(before.dependents_failed(id as int));
                                let i = choose|i: int| 0 <= i < pre.dependents(id as int).len() && pre.dependents(id as int)[i] == d;
                                assert(before.states@[before.dependents(id as int)[i] as int] is Failed);
                            }
                        }
                    }
                }
                proof {
                    assert forall|t: int| 0 <= t < j + 1 implies self.states@[#[trigger] self.dependents(x as int)[t] as int] is Failed by {
                        if t == j as int {
                            assert(self.dependents(x as int)[t] == d);
                            if !pending {
                                self.lemma_dependent_of_failed(pre, id, work@, x, d, j as int);
                            }
                        }
                    }
                }
                j = j + 1;
            }
            proof {
                assert forall|k: int| 0 <= k < self.states@.len() && (#[trigger] self.states@[k]) is Failed && !work@.contains(k as usize) && k != -1
                    implies self.dependents_failed(k) by {
                    if k != x as int {
                        assert(self.cascade_inv(pre, id, work@, x as int));
                    }
                }
            }
        }
        proof {
            self.lemma_failure_keeps_wf(pre, id);
            assert forall|d: int|
                0 <= d < pre.nodes@.len() && pre.dependents(id as int).contains(d as usize)
                    && pre.states@[d] is Pending implies (#[trigger] self.states@[d]) is Failed
                    && self.states@[d]->Failed_0@ == failure_reason(pre.nodes@[id as int].name@, why@) by {
                assert(self.dependents_failed(id as int));
                let i = choose|i: int| 0 <= i < pre.dependents(id as int).len() && pre.dependents(id as int)[i] == d as usize;
                assert(self.states@[self.dependents(id as int)[i] as int] is Failed);
            }
        }
    }

    proof fn lemma_dependent_of_failed(&self, pre: Scheduler, id: usize, work: Seq<usize>, x: usize, d: usize, j: int)
        requires
            self.cascade_inv(pre, id, work, x as int),
            x < self.states@.len(),
            self.states@[x as int] is Failed,
            0 <= j < self.dependents(x as int).len(),
            d == self.dependents(x as int)[j],
            !(self.states@[d as int] is Pending),
        ensures
            self.states@[d as int] is Failed,
    {
        assert(indices_below(self.nodes@[x as int].dependents@, self.nodes@.len() as int));
        assert(d < self.nodes@.len());
        assert(self.nodes@[x as int].dependents@.contains((d as int) as usize));
        assert(self.prereqs(d as int).contains(x));
        if !(self.states@[d as int] is Failed) {
            assert(self.states@[d as int] == pre.states@[d as int]);
            assert(pre.prereqs_succeeded(d as int));
            let t = choose|t: int| 0 <= t < self.prereqs(d as int).len() && self.prereqs(d as int)[t] == x;
            assert(pre.states@[pre.prereqs(d as int)[t] as int].is_succeeded());
            assert(self.states@[x as int].is_succeeded());
        }
    }

    #[verifier::spinoff_prover]
    #[verifier::rlimit(60)]
    proof fn lemma_cascade_step(
        &self,
        before: Scheduler,
        pre: Scheduler,
        id: usize,
        x: usize,
        d: usize,
        wbefore: Seq<usize>,
        wafter: Seq<usize>,
    )
        requires
            before.cascade_inv(pre, id, wbefore, x as int),
            x < before.states@.len(),
            before.states@[x as int] is Failed,
            x != id ==> pre.states@[x as int] is Pending,
            before.dependents(x as int).contains(d),
            before.states@[d as int] is Pending,
            self.nodes@ == before.nodes@,
            self.max_concurrent == before.max_concurrent,
            self.remaining@ == before.remaining@,
            self.queue@ == before.queue@,
            self.in_flight == before.in_flight,
            self.in_flight == count_running(self.states@),
            self.states@.len() == before.states@.len(),
            self.states@[d as int] is Failed,
            self.states@[d as int]->Failed_0@ == failure_reason(
                before.nodes@[x as int].name@,
                before.states@[x as int]->Failed_0@,
            ),
            forall|k: int| 0 <= k < self.states@.len() && k != d ==> self.states@[k] == before.states@[k],
            wafter == wbefore.push(d),
        ensures
            self.cascade_inv(pre, id, wafter, x as int),
    {
        assert(indices_below(before.nodes@[x as int].dependents@, before.nodes@.len() as int));
        let t = choose|t: int| 0 <= t < before.dependents(x as int).len() && before.dependents(x as int)[t] == d;
        assert(before.dependents(x as int)[t] == d);
        assert(d < before.nodes@.len());
        assert(before.nodes@[x as int].dependents@.contains((d as int) as usize));
        assert(self.prereqs(d as int).contains(x));
        assert(before.states@[d as int] == pre.states@[d as int]);
        assert(self.failed_through_prereq(pre, id as int, d as int));
        assert forall|k: int| #![trigger self.states@[k]]
            0 <= k < self.nodes@.len() && k != id ==> self.states@[k] == pre.states@[k] || (
            pre.states@[k] is Pending && self.failed_through_prereq(pre, id as int, k)) by {
            if 0 <= k < self.nodes@.len() && k != id && k != d as int && self.states@[k] != pre.states@[k] {
                assert(before.states@[k] == self.states@[k]);
                assert(before.failed_through_prereq(pre, id as int, k));
                let p = choose|p: usize|
                    #[trigger] before.prereqs(k).contains(p) && before.states@[p as int] is Failed
                        && before.states@[k] is Failed && before.states@[k]->Failed_0@ == failure_reason(
                        before.nodes@[p as int].name@,
                        before.states@[p as int]->Failed_0@,
                    ) && (p as int == id || before.states@[p as int] != pre.states@[p as int]);
                assert(before.states@[p as int] is Failed);
                assert(indices_below(before.nodes@[k].prereqs@, before.nodes@.len() as int));
                let u = choose|u: int| 0 <= u < before.prereqs(k).len() && before.prereqs(k)[u] == p;
                assert(before.prereqs(k)[u] == p);
                assert(p < before.nodes@.len());
                assert(p != d);
                assert(self.states@[p as int] == before.states@[p as int]);
                assert(self.prereqs(k).contains(p));
            }
        }
        assert(!wbefore.contains(d)) by {
            if wbefore.contains(d) {
                let u = choose|u: int| 0 <= u < wbefore.len() && wbefore[u] == d;
                assert(before.states@[wbefore[u] as int] is Failed);
            }
        }
        assert forall|i: int| 0 <= i < wafter.len() implies (#[trigger] wafter[i]) < self.states@.len() && self.states@[wafter[i] as int] is Failed by {
            if i < wbefore.len() {
                assert(wafter[i] == wbefore[i]);
                assert(before.states@[wbefore[i] as int] is Failed);
            }
        }
        assert forall|i: int| 0 <= i < wafter.len() && wafter[i] != id implies pre.states@[#[trigger] wafter[i] as int] is Pending by {
            if i < wbefore.len() {
                assert(wafter[i] == wbefore[i]);
            }
        }
        assert(wafter.no_duplicates()) by {
            assert forall|a: int, b: int| 0 <= a < wafter.len() && 0 <= b < wafter.len() && a != b implies wafter[a] != wafter[b] by {
                if a < wbefore.len() && b < wbefore.len() {
                    assert(wafter[a] == wbefore[a] && wafter[b] == wbefore[b]);
                } else if a < wbefore.len() {
                    assert(wafter[a] == wbefore[a]);
                    assert(wbefore.contains(wafter[a]));
                } else if b < wbefore.len() {
                    assert(wafter[b] == wbefore[b]);
                    assert(wbefore.contains(wafter[b]));
                }
            }
        }
        assert forall|k: int| 0 <= k < self.states@.len() && (#[trigger] self.states@[k]) is Failed && !wafter.contains(k as usize) && k != x as int
            implies self.dependents_failed(k) by {
            assert(k != d as int) by {
                if k == d as int {
                    assert(wafter[wafter.len() - 1] == d);
                }
            }
            assert(before.states@[k] is Failed);
            assert(!wbefore.contains(k as usize)) by {
                if wbefore.contains(k as usize) {
                    let u = choose|u: int| 0 <= u < wbefore.len() && wbefore[u] == k as usize;
                    assert(wafter[u] == k as usize);
                }
            }
            assert(before.dependents_failed(k));
            assert forall|i: int| 0 <= i < self.dependents(k).len() implies self.states@[#[trigger] self.dependents(k)[i] as int] is Failed by {
                assert(before.states@[before.dependents(k)[i] as int] is Failed);
            }
        }
    }

    proof fn lemma_failure_keeps_wf(&self, pre: Scheduler, id: usize)
        requires
            self.cascade_inv(pre, id, Seq::empty(), -1),
        ensures
            self.wf(),
    {
        assert forall|k: int| 0 <= k < self.nodes@.len() implies {
            &&& ((#[trigger] self.states@[k]) is Pending || self.states@[k] is Ready)
                ==> self.remaining@[k] == count_open(self.states@, self.prereqs(k))
            &&& (self.states@[k] is Ready || self.states@[k] is Running
                || self.states@[k] is Succeeded) ==> self.prereqs_succeeded(k)
            &&& self.states@[k] is Failed ==> self.dependents_failed(k)
        } by {
            lemma_count_open_change(pre.states@, self.states@, self.prereqs(k), id);
            if !(self.states@[k] is Failed) {
                assert(k != id as int);
                assert(self.states@[k] == pre.states@[k]);
            }
            if self.states@[k] is Ready || self.states@[k] is Running || self.states@[k] is Succeeded {
                assert(pre.prereqs_succeeded(k));
                assert forall|i: int| 0 <= i < self.prereqs(k).len() implies self.states@[#[trigger] self.prereqs(k)[i] as int].is_succeeded() by {
                    assert(indices_below(self.nodes@[k].prereqs@, self.nodes@.len() as int));
                    assert(pre.states@[pre.prereqs(k)[i] as int].is_succeeded());
                }
            }
        }
        assert forall|i: int| 0 <= i < self.queue@.len() implies (#[trigger] self.queue@[i]) < self.states@.len()
            && self.states@[self.queue@[i] as int] is Ready by {
            let q = self.queue@[i] as int;
            assert(pre.states@[q] is Ready);
            assert(q != id as int);
            if self.states@[q] != pre.states@[q] {
                assert(pre.states@[q] is Pending);
            }
        }
        assert forall|k: int| 0 <= k < self.states@.len() && self.states@[k] is Ready implies #[trigger] self.queue@.contains(k as usize) by {
            assert(k != id as int);
            assert(pre.states@[k] is Ready);
        }
    }

    proof fn lemma_no_work_when_terminal(&self)
        requires
            self.wf(),
            self.all_terminal(),
        ensures
            self.in_flight == 0,
            self.queue@.len() == 0,
    {
        assert forall|k: int| 0 <= k < self.states@.len() implies !((#[trigger] self.states@[k]) is Running) by {
            assert(self.states@[k].is_terminal());
        }
        lemma_no_running(self.states@);
        if self.queue@.len() > 0 {
            assert(self.states@[self.queue@[0] as int] is Ready);
        }
    }

    proof fn lemma_spawn_keeps_wf(&self, pre: Scheduler, id: usize)
        requires
            pre.wf(),
            pre.queue@.len() > 0,
            id == pre.queue@[0],
            self.nodes@ == pre.nodes@,
            self.remaining@ == pre.remaining@,
            self.max_concurrent == pre.max_concurrent,
            self.queue@ == pre.queue@.drop_first(),
            self.states@ == pre.states@.update(id as int, NodeState::Running),
            self.in_flight == pre.in_flight + 1,
            self.in_flight == count_running(self.states@),
            pre.in_flight < pre.max_concurrent,
        ensures
            self.wf(),
    {
        assert(pre.states@[id as int] is Ready);
        assert forall|k: int| 0 <= k < self.nodes@.len() implies {
            &&& ((#[trigger] self.states@[k]) is Pending || self.states@[k] is Ready)
                ==> self.remaining@[k] == count_open(self.states@, self.prereqs(k))
            &&& (self.states@[k] is Ready || self.states@[k] is Running
                || self.states@[k] is Succeeded) ==> self.prereqs_succeeded(k)
            &&& self.states@[k] is Failed ==> self.dependents_failed(k)
        } by {
            assert(pre.states@[k] == self.states@[k] || k == id as int);
            lemma_count_open_change(pre.states@, self.states@, self.prereqs(k), id);
            if pre.states@[k] is Ready || pre.states@[k] is Running || pre.states@[k] is Succeeded {
                assert(pre.prereqs_succeeded(k));
                assert forall|i: int| 0 <= i < self.prereqs(k).len() implies self.states@[#[trigger] self.prereqs(k)[i] as int].is_succeeded() by {
                    assert(pre.states@[pre.prereqs(k)[i] as int].is_succeeded());
                }
            }
            if self.states@[k] is Failed {
                assert(pre.dependents_failed(k));
                assert forall|i: int| 0 <= i < self.dependents(k).len() implies self.states@[#[trigger] self.dependents(k)[i] as int] is Failed by {
                    assert(pre.states@[pre.dependents(k)[i] as int] is Failed);
                }
            }
        }
        assert forall|i: int| 0 <= i < self.queue@.len() implies (#[trigger] self.queue@[i]) < self.states@.len()
            && self.states@[self.queue@[i] as int] is Ready by {
            assert(self.queue@[i] == pre.queue@[i + 1]);
        }
        assert forall|k: int| 0 <= k < self.states@.len() && self.states@[k] is Ready implies #[trigger] self.queue@.contains(k as usize) by {
            assert(pre.queue@.contains(k as usize));
            let i = choose|i: int| 0 <= i < pre.queue@.len() && pre.queue@[i] == k as usize;
            assert(i != 0);
            assert(self.queue@[i - 1] == k as usize);
        }
        assert(self.queue@.no_duplicates()) by {
            assert forall|i: int, j: int| 0 <= i < self.queue@.len() && 0 <= j < self.queue@.len() && i != j implies self.queue@[i] != self.queue@[j] by {
                assert(self.queue@[i] == pre.queue@[i + 1]);
                assert(self.queue@[j] == pre.queue@[j + 1]);
            }
        }
    }
}

proof fn lemma_unchanged_up_to(post: Scheduler, pre: Scheduler, id: int, bound: nat)
    requires
        post.failure_step(pre, id),
        graph_wf(post.nodes@),
        0 <= id < post.nodes@.len(),
        post.dependents(id).len() == 0,
        post.states@.len() == post.nodes@.len(),
    ensures
        forall|k: int|
            0 <= k < post.nodes@.len() && k != id && (#[trigger] post.states@[k]) is Failed
                && post.states@[k]->Failed_0@.len() <= bound ==> post.states@[k] == pre.states@[k],
    decreases bound,
{
    assert forall|k: int|
        0 <= k < post.nodes@.len() && k != id && (#[trigger] post.states@[k]) is Failed
            && post.states@[k]->Failed_0@.len() <= bound implies post.states@[k] == pre.states@[k] by {
        if post.states@[k] != pre.states@[k] {
            assert(post.failed_through_prereq(pre, id, k));
            let p = choose|p: usize|
                #[trigger] post.prereqs(k).contains(p) && post.states@[p as int] is Failed
                    && post.states@[k] is Failed && post.states@[k]->Failed_0@ == failure_reason(
                    post.nodes@[p as int].name@,
                    post.states@[p as int]->Failed_0@,
                ) && (p as int == id || post.states@[p as int] != pre.states@[p as int]);
            assert(indices_below(post.nodes@[k].prereqs@, post.nodes@.len() as int));
            let u = choose|u: int| 0 <= u < post.prereqs(k).len() && post.prereqs(k)[u] == p;
            assert(post.prereqs(k)[u] == p);
            if p as int == id {
                assert(post.nodes@[k].prereqs@.contains((id as int) as usize));
                assert(post.nodes@[id].dependents@.contains((k as int) as usize));
            } else {
                reveal_strlit("dependency '");
                assert(post.states@[k]->Failed_0@.len() > post.states@[p as int]->Failed_0@.len());
                lemma_unchanged_up_to(post, pre, id, (bound - 1) as nat);
                assert(post.states@[p as int] == pre.states@[p as int]);
            }
        }
    }
}

/// The failure of a node without dependents changes no other node.
pub proof fn lemma_failure_without_dependents_is_local(post: Scheduler, pre: Scheduler, id: int)
    requires
        post.wf(),
        post.failure_step(pre, id),
        0 <= id < post.nodes@.len(),
        post.dependents(id).len() == 0,
    ensures
        forall|k: int| 0 <= k < post.nodes@.len() && k != id ==> #[trigger] post.states@[k] == pre.states@[k],
{
    assert forall|k: int| 0 <= k < post.nodes@.len() && k != id implies #[trigger] post.states@[k] == pre.states@[k] by {
        if post.states@[k] != pre.states@[k] {
            lemma_unchanged_up_to(post, pre, id, post.states@[k]->Failed_0@.len());
        }
    }
}

/// Well-formedness does not depend on the recorded failure kind.
proof fn lemma_wf_frame(a: Scheduler, b: Scheduler)
    requires
        a.wf(),
        b.nodes == a.nodes,
        b.states == a.states,
        b.remaining == a.remaining,
        b.queue == a.queue,
        b.in_flight == a.in_flight,
        b.max_concurrent == a.max_concurrent,
    ensures
        b.wf(),
{
    assert forall|k: int| 0 <= k < b.nodes@.len() implies {
        &&& ((#[trigger] b.states@[k]) is Pending || b.states@[k] is Ready)
            ==> b.remaining@[k] == count_open(b.states@, b.prereqs(k))
        &&& (b.states@[k] is Ready || b.states@[k] is Running
            || b.states@[k] is Succeeded) ==> b.prereqs_succeeded(k)
        &&& b.states@[k] is Failed ==> b.dependents_failed(k)
    } by {
        assert(a.prereqs(k) == b.prereqs(k));
        if b.states@[k] is Ready || b.states@[k] is Running || b.states@[k] is Succeeded {
            assert(a.prereqs_succeeded(k));
            assert forall|i: int| 0 <= i < b.prereqs(k).len() implies b.states@[#[trigger] b.prereqs(k)[i] as int].is_succeeded() by {
                assert(a.states@[a.prereqs(k)[i] as int].is_succeeded());
            }
        }
        if b.states@[k] is Failed {
            assert(a.dependents_failed(k));
            assert forall|i: int| 0 <= i < b.dependents(k).len() implies b.states@[#[trigger] b.dependents(k)[i] as int] is Failed by {
                assert(a.states@[a.dependents(k)[i] as int] is Failed);
            }
        }
    }
    assert forall|k: int| 0 <= k < b.states@.len() && b.states@[k] is Ready implies #[trigger] b.queue@.contains(k as usize) by {
        assert(a.queue@.contains(k as usize));
    }
}

pub proof fn lemma_no_running(s: Seq<NodeState>)
    requires
        forall|k: int| 0 <= k < s.len() ==> !((#[trigger] s[k]) is Running),
    ensures
        count_running(s) == 0,
    decreases s.len(),
{
    if s.len() > 0 {
        assert(!(s.last() is Running));
        lemma_no_running(s.drop_last());
    }
}

} // verus!
