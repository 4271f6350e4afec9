//! The scheduler: runs the domains of a registry in cycles until no domain
//! has work left, or a cycle budget is spent.
//!
//! Each cycle orders the awake domains by urgency, and each domain in turn
//! checks its goals (queueing recovery transitions for the failed ones),
//! resumes a suspended transition or handles its next message, and falls
//! asleep when it has nothing left to do. Messages sent during the cycle are
//! routed at its end. A run is driven cycle by cycle through `step`, so that
//! a host can persist a snapshot between cycles.

use vstd::prelude::*;
use crate::domain_registry::{DomainInstance, DomainRegistry, SuspendedContext};
use crate::bytecode::{GoalBytecode, TransitionBytecode};
use crate::goal_engine::{GoalEngine, PredOutcome, predicate_outcome};
use crate::interpreter::{Interpreter, Machine, Run, SliceResult, run, texts};
use crate::bytecode::constants_view;
use crate::messaging::{Mailbox, MailboxView, Message, MessageView, messages_view, mailbox_full, mailbox_after_push, mailbox_pop};
use std::collections::VecDeque;
use crate::logical_clock::after_receive;
use crate::rng::DeterministicRng;
use crate::state::{IsolatedState, name_set, strictly_sorted};
use crate::text::{join2, join3, join4, join5, join6, join7, i64_text, u64_text, usize_text, text_lt, text_less,
    lemma_text_lt_asymmetric, lemma_text_lt_total, lemma_text_lt_transitive};
use crate::tracer::{EventView, Tracer};

verus! {

#[derive(Debug, Clone)]
pub struct ExecutionResult {
    pub converged: bool,
    pub steps: usize,
    pub low_priority_executed: bool,
    pub warning_detected: bool,
    pub trace: Vec<String>,
}

pub struct Scheduler {
    registry: DomainRegistry,
    rng: DeterministicRng,
    pub tracer: Tracer,
}

/// A run in progress: the cycles done so far, whether the last cycle did
/// any work, and the result being built.
pub struct RunState {
    pub cycle: usize,
    pub active: bool,
    pub finished: bool,
    pub result: ExecutionResult,
}

/// What the host does after a call of `step`.
pub enum CycleAction {
    /// Call `step` again.
    Continue,
    /// The cycle numbered here did work: persist a snapshot, report it with
    /// `note_snapshot`, then call `step` again.
    SaveSnapshot(usize),
    /// The run is over.
    Finished,
}

pub open spec fn start_line() -> Seq<char> {
    "[Scheduler] Starting execution loop..."@
}

pub open spec fn end_line() -> Seq<char> {
    "[Scheduler] Quiescent state reached. Halting."@
}

pub open spec fn halt_line(max_cycles: usize) -> Seq<char> {
    "[Scheduler] HALT: Max cycles "@ + crate::text::int_text(max_cycles as int)
        + " reached. Stopping to prevent infinite loop."@
}

/// The stamp of the oldest waiting message: the front of the high queue,
/// else the front of the normal queue, else the cycle itself.
pub open spec fn oldest_stamp(m: MailboxView, cycle: u64) -> u64 {
    if m.high.len() > 0 {
        m.high[0].clock
    } else if m.normal.len() > 0 {
        m.normal[0].clock
    } else {
        cycle
    }
}

/// `v` capped at `u64::MAX`.
pub open spec fn capped(v: int) -> u64 {
    if v > u64::MAX { u64::MAX } else { v as u64 }
}

/// How urgent a domain is in `cycle`: 100 per unit of schedule weight, 1000
/// more when a high-priority message waits, and 10 per cycle that its
/// oldest message has waited.
pub open spec fn urgency(d: DomainInstance, cycle: u64) -> u64 {
    let age = if cycle > oldest_stamp(d.mailbox@, cycle) { cycle - oldest_stamp(d.mailbox@, cycle) } else { 0 };
    let high = if d.mailbox@.high.len() > 0 { 1000int } else { 0int };
    capped(d.schedule_weight * 100 + high + capped(age * 10))
}

/// `(ua, a)` runs before `(ub, b)`: higher urgency first, then names in
/// ascending order.
pub open spec fn runs_before(ua: u64, a: Seq<char>, ub: u64, b: Seq<char>) -> bool {
    ua > ub || (ua == ub && text_lt(a, b))
}

/// The awake domains of `doms`, ordered for `cycle`: each awake domain once,
/// in `runs_before` order.
pub open spec fn cycle_order(doms: Map<Seq<char>, DomainInstance>, cycle: u64, order: Seq<String>) -> bool {
    &&& forall|i: int| 0 <= i < order.len() ==> doms.contains_key(#[trigger] order[i]@) && !doms[order[i]@].is_quiescent
    &&& forall|n: Seq<char>| #[trigger] doms.contains_key(n) && !doms[n].is_quiescent ==> exists|i: int|
        0 <= i < order.len() && order[i]@ == n
    &&& forall|i: int, j: int| 0 <= i < j < order.len() ==> runs_before(
        urgency(doms[order[i]@], cycle),
        #[trigger] order[i]@,
        urgency(doms[order[j]@], cycle),
        #[trigger] order[j]@,
    )
}

/// `d2` is `d` with at most messages added to its queues and its sleep
/// flag changed: nothing of it ran.
pub open spec fn only_delivered(d: DomainInstance, d2: DomainInstance) -> bool {
    &&& d2 == (DomainInstance { mailbox: d2.mailbox, is_quiescent: d2.is_quiescent, ..d })
    &&& d.mailbox@.high.is_prefix_of(d2.mailbox@.high)
    &&& d.mailbox@.normal.is_prefix_of(d2.mailbox@.normal)
    &&& d2.mailbox@.capacity == d.mailbox@.capacity
    &&& d2.mailbox@.skips == d.mailbox@.skips
}

proof fn lemma_runs_before_total(ua: u64, a: Seq<char>, ub: u64, b: Seq<char>)
    requires
        a != b,
    ensures
        runs_before(ua, a, ub, b) || runs_before(ub, b, ua, a),
{
    lemma_text_lt_total(a, b);
}

proof fn lemma_runs_before_transitive(ua: u64, a: Seq<char>, ub: u64, b: Seq<char>, uc: u64, c: Seq<char>)
    requires
        runs_before(ua, a, ub, b),
        runs_before(ub, b, uc, c),
    ensures
        runs_before(ua, a, uc, c),
{
    if ua == ub && ub == uc {
        lemma_text_lt_transitive(a, b, c);
    }
}

proof fn lemma_runs_before_irreflexive(ua: u64, a: Seq<char>)
    ensures
        !runs_before(ua, a, ua, a),
{
    lemma_text_lt_asymmetric(a, a);
}

/// `urgency` of `d` in `cycle`.
fn urgency_of(d: &DomainInstance, cycle: u64) -> (u: u64)
    ensures
        u == urgency(*d, cycle),
{
    let oldest = if d.mailbox.high.len() > 0 {
        d.mailbox.high[0].clock
    } else if d.mailbox.normal.len() > 0 {
        d.mailbox.normal[0].clock
    } else {
        cycle
    };
    let age: u64 = if cycle > oldest { cycle - oldest } else { 0 };
    let aging: u64 = if age > u64::MAX / 10 { u64::MAX } else { age * 10 };
    let base: u64 = d.schedule_weight as u64 * 100 + if d.mailbox.high.len() > 0 { 1000 } else { 0 };
    if aging > u64::MAX - base { u64::MAX } else { base + aging }
}

/// Inserts `(name, u)` into a list kept in `runs_before` order.
fn insert_by_urgency(list: &mut Vec<(String, u64)>, name: String, u: u64)
    requires
        forall|i: int, j: int| 0 <= i < j < old(list).len() ==> runs_before(
            (#[trigger] old(list)@[i]).1,
            old(list)@[i].0@,
            (#[trigger] old(list)@[j]).1,
            old(list)@[j].0@,
        ),
        forall|i: int| 0 <= i < old(list).len() ==> (#[trigger] old(list)@[i]).0@ != name@,
    ensures
        forall|i: int, j: int| 0 <= i < j < final(list).len() ==> runs_before(
            (#[trigger] final(list)@[i]).1,
            final(list)@[i].0@,
            (#[trigger] final(list)@[j]).1,
            final(list)@[j].0@,
        ),
        exists|p: int| 0 <= p <= old(list).len() && final(list)@ == old(list)@.insert(p, (name, u)),
{
    let mut p: usize = 0;
    while p < list.len() && (list[p].1 > u || (list[p].1 == u && text_less(list[p].0.as_str(), name.as_str())))
        invariant
            p <= list.len(),
            forall|t: int| 0 <= t < p ==> runs_before((#[trigger] list@[t]).1, list@[t].0@, u, name@),
        decreases list.len() - p,
    {
        p = p + 1;
    }
    let ghost old_l = list@;
    proof {
        if p < old_l.len() {
            lemma_runs_before_total(old_l[p as int].1, old_l[p as int].0@, u, name@);
            assert forall|t: int| p <= t < old_l.len() implies runs_before(u, name@, (#[trigger] old_l[t]).1, old_l[t].0@) by {
                if t > p {
                    lemma_runs_before_transitive(u, name@, old_l[p as int].1, old_l[p as int].0@, old_l[t].1, old_l[t].0@);
                }
            }
        }
    }
    list.insert(p, (name, u));
    proof {
        let nl = list@;
        assert(nl =~= old_l.insert(p as int, (name, u)));
        assert forall|i: int, j: int| 0 <= i < j < nl.len() implies runs_before(
            (#[trigger] nl[i]).1,
            nl[i].0@,
            (#[trigger] nl[j]).1,
            nl[j].0@,
        ) by {
            if j < p {
                assert(nl[i] == old_l[i] && nl[j] == old_l[j]);
            } else if j == p {
                assert(nl[i] == old_l[i]);
            } else if i < p {
                assert(nl[i] == old_l[i] && nl[j] == old_l[j - 1]);
                lemma_runs_before_transitive(old_l[i].1, old_l[i].0@, u, name@, old_l[j - 1].1, old_l[j - 1].0@);
            } else if i == p {
                assert(nl[j] == old_l[j - 1]);
            } else {
                assert(nl[i] == old_l[i - 1] && nl[j] == old_l[j - 1]);
            }
        }
    }
}

impl Scheduler {
    /// The registry the scheduler runs.
    pub closed spec fn domains(&self) -> Map<Seq<char>, DomainInstance> {
        self.registry.domains()
    }

    /// The trace events recorded so far.
    pub closed spec fn events(&self) -> Seq<crate::tracer::EventView> {
        self.tracer@
    }

    /// The seed of the scheduler's random source.
    pub closed spec fn seed(&self) -> u64 {
        self.rng.seed()
    }

    /// A scheduler for `registry`, with seed 0 and an empty tracer.
    pub fn new(registry: DomainRegistry) -> (s: Self)
        ensures
            s.domains() == registry.domains(),
            s.events().len() == 0,
            s.seed() == 0,
    {
        Scheduler { registry, rng: DeterministicRng::new(0), tracer: Tracer::new() }
    }

    /// The same scheduler drawing from the generator for `seed`.
    pub fn with_seed(self, seed: u64) -> (s: Self)
        ensures
            s.domains() == self.domains(),
            s.events() == self.events(),
            s.seed() == seed,
    {
        let mut s = self;
        s.rng = DeterministicRng::new(seed);
        s
    }

    /// The registry the scheduler runs.
    pub fn get_registry(&self) -> (r: &DomainRegistry)
        ensures
            r.domains() == self.domains(),
    {
        &self.registry
    }

    /// The awake domains with their urgency in `cycle`, in registry order.
    fn awake_domains(&self, cycle: u64) -> (awake: Vec<(String, u64)>)
        ensures
            forall|t: int| 0 <= t < awake.len() ==> ({
                let (n, u) = #[trigger] awake@[t];
                &&& self.domains().contains_key(n@)
                &&& !self.domains()[n@].is_quiescent
                &&& u == urgency(self.domains()[n@], cycle)
            }),
            forall|n: Seq<char>| #[trigger] self.domains().contains_key(n) && !self.domains()[n].is_quiescent ==> exists|t: int|
                0 <= t < awake.len() && awake@[t].0@ == n,
            forall|a: int, b: int| 0 <= a < b < awake.len() ==> #[trigger] awake@[a].0@ != #[trigger] awake@[b].0@,
    {
        let names = self.registry.instances.keys();
        let ghost doms = self.domains();
        let mut awake: Vec<(String, u64)> = Vec::new();
        let mut i: usize = 0;
        while i < names.len()
            invariant
                i <= names.len(),
                doms == self.domains(),
                forall|t: int| 0 <= t < names.len() ==> doms.contains_key(#[trigger] names@[t]@),
                forall|a: int, b: int| 0 <= a < b < names.len() ==> #[trigger] names@[a]@ != #[trigger] names@[b]@,
                forall|t: int| 0 <= t < awake.len() ==> ({
                    let (n, u) = #[trigger] awake@[t];
                    &&& doms.contains_key(n@)
                    &&& !doms[n@].is_quiescent
                    &&& u == urgency(doms[n@], cycle)
                }),
                forall|t: int| 0 <= t < awake.len() ==> exists|k: int| 0 <= k < i && names@[k]@ == (#[trigger] awake@[t]).0@,
                forall|k: int| 0 <= k < i && !doms[(#[trigger] names@[k])@].is_quiescent ==> exists|t: int|
                    0 <= t < awake.len() && awake@[t].0@ == names@[k]@,
                forall|a: int, b: int| 0 <= a < b < awake.len() ==> #[trigger] awake@[a].0@ != #[trigger] awake@[b].0@,
            decreases names.len() - i,
        {
            let d = self.registry.instances.get(names[i].as_str()).unwrap();
            if !d.is_quiescent {
                let u = urgency_of(d, cycle);
                let ghost old_a = awake@;
                awake.push((names[i].clone(), u));
                proof {
                    assert forall|a: int, b: int| 0 <= a < b < awake.len() implies #[trigger] awake@[a].0@ != #[trigger] awake@[b].0@ by {
                        if b == awake.len() - 1 {
                            let k = choose|k: int| 0 <= k < i && names@[k]@ == old_a[a].0@;
                            assert(names@[k]@ != names@[i as int]@);
                        } else {
                            assert(awake@[a] == old_a[a] && awake@[b] == old_a[b]);
                        }
                    }
                    assert forall|t: int| 0 <= t < awake.len() implies exists|k: int| 0 <= k < i + 1 && names@[k]@ == (#[trigger] awake@[t]).0@ by {
                        if t < old_a.len() {
                            assert(awake@[t] == old_a[t]);
                            let k = choose|k: int| 0 <= k < i && names@[k]@ == old_a[t].0@;
                        } else {
                            assert(names@[i as int]@ == awake@[t].0@);
                        }
                    }
                    assert forall|k: int| 0 <= k < i + 1 && !doms[(#[trigger] names@[k])@].is_quiescent implies exists|t: int|
                        0 <= t < awake.len() && awake@[t].0@ == names@[k]@ by {
                        if k == i {
                            assert(awake@[old_a.len() as int].0@ == names@[k]@);
                        } else {
                            let t = choose|t: int| 0 <= t < old_a.len() && old_a[t].0@ == names@[k]@;
                            assert(awake@[t] == old_a[t]);
                        }
                    }
                    assert forall|t: int| 0 <= t < awake.len() implies ({
                        let (n, uu) = #[trigger] awake@[t];
                        &&& doms.contains_key(n@)
                        &&& !doms[n@].is_quiescent
                        &&& uu == urgency(doms[n@], cycle)
                    }) by {
                        if t < old_a.len() {
                            assert(awake@[t] == old_a[t]);
                        }
                    }
                }
            }
            i = i + 1;
        }
        proof {
            assert forall|n: Seq<char>| #[trigger] doms.contains_key(n) && !doms[n].is_quiescent implies exists|t: int|
                0 <= t < awake.len() && awake@[t].0@ == n by {
                let k = choose|k: int| 0 <= k < names.len() && names@[k]@ == n;
                assert(!doms[names@[k]@].is_quiescent);
            }
        }
        awake
    }

    /// The awake domains, in the order in which they run in `cycle`.
    #[verifier::rlimit(60)]
    pub fn cycle_order(&self, cycle: u64) -> (order: Vec<String>)
        ensures
            cycle_order(self.domains(), cycle, order@),
    {
        let ghost doms = self.domains();
        let awake = self.awake_domains(cycle);
        let sorted = sort_by_urgency(awake);
        let mut order: Vec<String> = Vec::new();
        let mut j: usize = 0;
        while j < sorted.len()
            invariant
                j <= sorted.len(),
                order.len() == j,
                forall|t: int| 0 <= t < j ==> (#[trigger] order@[t])@ == sorted@[t].0@,
            decreases sorted.len() - j,
        {
            order.push(sorted[j].0.clone());
            j = j + 1;
        }
        proof {
            assert forall|t: int| 0 <= t < order.len() implies doms.contains_key(#[trigger] order@[t]@) && !doms[order@[t]@].is_quiescent by {
                assert(order@[t]@ == sorted@[t].0@);
                assert(among(awake@, sorted@[t], awake.len() as int));
                let k = choose|k: int| 0 <= k < awake.len() && #[trigger] awake@[k] == sorted@[t];
                assert(awake@[k].0@ == sorted@[t].0@);
            }
            assert forall|n: Seq<char>| #[trigger] doms.contains_key(n) && !doms[n].is_quiescent implies exists|t: int|
                0 <= t < order.len() && order@[t]@ == n by {
                let k = choose|k: int| 0 <= k < awake.len() && awake@[k].0@ == n;
                assert(among(sorted@, awake@[k], sorted.len() as int));
                let t = choose|t: int| 0 <= t < sorted.len() && #[trigger] sorted@[t] == awake@[k];
                assert(order@[t]@ == n);
            }
            assert forall|a: int, b: int| 0 <= a < b < order.len() implies runs_before(
                urgency(doms[order@[a]@], cycle),
                #[trigger] order@[a]@,
                urgency(doms[order@[b]@], cycle),
                #[trigger] order@[b]@,
            ) by {
                assert(among(awake@, sorted@[a], awake.len() as int));
                assert(among(awake@, sorted@[b], awake.len() as int));
                let ka = choose|k: int| 0 <= k < awake.len() && #[trigger] awake@[k] == sorted@[a];
                let kb = choose|k: int| 0 <= k < awake.len() && #[trigger] awake@[k] == sorted@[b];
                assert(awake@[ka].1 == urgency(doms[awake@[ka].0@], cycle));
                assert(awake@[kb].1 == urgency(doms[awake@[kb].0@], cycle));
            }
        }
        order
    }
}

/// `x` is one of the first `n` entries of `s`.
pub open spec fn among(s: Seq<(String, u64)>, x: (String, u64), n: int) -> bool {
    exists|k: int| 0 <= k < n && #[trigger] s[k] == x
}

/// The entries of `items` in `runs_before` order.
#[verifier::rlimit(60)]
fn sort_by_urgency(items: Vec<(String, u64)>) -> (sorted: Vec<(String, u64)>)
    requires
        forall|a: int, b: int| 0 <= a < b < items.len() ==> #[trigger] items@[a].0@ != #[trigger] items@[b].0@,
    ensures
        sorted.len() == items.len(),
        forall|t: int| 0 <= t < sorted.len() ==> among(items@, #[trigger] sorted@[t], items.len() as int),
        forall|k: int| 0 <= k < items.len() ==> among(sorted@, #[trigger] items@[k], sorted.len() as int),
        forall|a: int, b: int| 0 <= a < b < sorted.len() ==> runs_before(
            (#[trigger] sorted@[a]).1,
            sorted@[a].0@,
            (#[trigger] sorted@[b]).1,
            sorted@[b].0@,
        ),
{
    let mut sorted: Vec<(String, u64)> = Vec::new();
    let mut i: usize = 0;
    while i < items.len()
        invariant
            i <= items.len(),
            sorted.len() == i,
            forall|a: int, b: int| 0 <= a < b < items.len() ==> #[trigger] items@[a].0@ != #[trigger] items@[b].0@,
            forall|t: int| 0 <= t < sorted.len() ==> among(items@, #[trigger] sorted@[t], i as int),
            forall|k: int| 0 <= k < i ==> among(sorted@, #[trigger] items@[k], sorted.len() as int),
            forall|a: int, b: int| 0 <= a < b < sorted.len() ==> runs_before(
                (#[trigger] sorted@[a]).1,
                sorted@[a].0@,
                (#[trigger] sorted@[b]).1,
                sorted@[b].0@,
            ),
        decreases items.len() - i,
    {
        let ghost old_s = sorted@;
        proof {
            assert forall|t: int| 0 <= t < old_s.len() implies (#[trigger] old_s[t]).0@ != items@[i as int].0@ by {
                assert(among(items@, old_s[t], i as int));
                let k = choose|k: int| 0 <= k < i && #[trigger] items@[k] == old_s[t];
                assert(items@[k].0@ != items@[i as int].0@);
            }
        }
        let (n, u) = (items[i].0.clone(), items[i].1);
        assert((n, u) == items@[i as int]);
        insert_by_urgency(&mut sorted, n, u);
        proof {
            let p = choose|p: int| 0 <= p <= old_s.len() && sorted@ == old_s.insert(p, items@[i as int]);
            assert forall|t: int| 0 <= t < sorted.len() implies among(items@, #[trigger] sorted@[t], i + 1) by {
                if t < p {
                    assert(sorted@[t] == old_s[t]);
                    assert(among(items@, old_s[t], i as int));
                } else if t > p {
                    assert(sorted@[t] == old_s[t - 1]);
                    assert(among(items@, old_s[t - 1], i as int));
                } else {
                    assert(items@[i as int] == sorted@[t]);
                }
            }
            assert forall|k: int| 0 <= k < i + 1 implies among(sorted@, #[trigger] items@[k], sorted.len() as int) by {
                if k == i {
                    assert(sorted@[p] == items@[k]);
                } else {
                    assert(among(old_s, items@[k], old_s.len() as int));
                    let t = choose|t: int| 0 <= t < old_s.len() && #[trigger] old_s[t] == items@[k];
                    if t < p {
                        assert(sorted@[t] == old_s[t]);
                    } else {
                        assert(sorted@[t + 1] == old_s[t]);
                    }
                }
            }
        }
        i = i + 1;
    }
    sorted
}

/// The view of a recovery request: a high-priority message to `name`
/// asking it to run `strat`, stamped `clock`.
pub open spec fn recovery_view(name: Seq<char>, strat: Seq<char>, clock: u64) -> MessageView {
    MessageView {
        id: Seq::empty(),
        source_domain: Seq::empty(),
        target_domain: name,
        payload: strat,
        priority: 1,
        clock,
    }
}

/// Whether a message with payload `p` waits in one of the two queues.
pub open spec fn waiting(high: Seq<MessageView>, normal: Seq<MessageView>, p: Seq<char>) -> bool {
    (exists|i: int| 0 <= i < high.len() && #[trigger] high[i].payload == p) || (exists|i: int|
        0 <= i < normal.len() && #[trigger] normal[i].payload == p)
}

/// The recovery requests that `strats` add, in order, to queues holding
/// `high` and `normal` with room for `capacity` messages, and whether any
/// strategy was not waiting yet. A strategy already waiting is skipped; one
/// that finds the mailbox full still counts as work but is not queued.
pub open spec fn recovery_plan(
    high: Seq<MessageView>,
    normal: Seq<MessageView>,
    capacity: nat,
    name: Seq<char>,
    strats: Seq<Seq<char>>,
    clock: u64,
) -> (Seq<MessageView>, bool)
    decreases strats.len(),
{
    if strats.len() == 0 {
        (Seq::empty(), false)
    } else {
        let (added, any) = recovery_plan(high, normal, capacity, name, strats.drop_last(), clock);
        let s = strats.last();
        if waiting(high + added, normal, s) {
            (added, any)
        } else if high.len() + added.len() + normal.len() >= capacity {
            (added, true)
        } else {
            (added.push(recovery_view(name, s, clock)), true)
        }
    }
}

/// Whether some message of `q` carries payload `p`.
fn carries_payload(q: &VecDeque<Message>, p: &String) -> (r: bool)
    ensures
        r == exists|i: int| 0 <= i < q@.len() && #[trigger] q@[i].payload@ == p@,
{
    let mut i: usize = 0;
    while i < q.len()
        invariant
            i <= q@.len(),
            forall|t: int| 0 <= t < i ==> #[trigger] q@[t].payload@ != p@,
        decreases q@.len() - i,
    {
        if q[i].payload == *p {
            return true;
        }
        i = i + 1;
    }
    false
}

/// Queues a recovery request for each strategy of `strats` that no waiting
/// message carries yet, as `recovery_plan` describes, and says whether any
/// strategy was missing.
fn schedule_recoveries(mailbox: &mut Mailbox, name: &String, strats: &Vec<String>, clock: u64) -> (any: bool)
    ensures
        ({
            let (added, a) = recovery_plan(
                messages_view(old(mailbox)@.high),
                messages_view(old(mailbox)@.normal),
                old(mailbox)@.capacity,
                name@,
                texts(strats@),
                clock,
            );
            &&& messages_view(final(mailbox)@.high) == messages_view(old(mailbox)@.high) + added
            &&& any == a
        }),
        final(mailbox)@.normal == old(mailbox)@.normal,
        final(mailbox)@.capacity == old(mailbox)@.capacity,
        final(mailbox)@.skips == old(mailbox)@.skips,
{
    let ghost hv = messages_view(mailbox@.high);
    let ghost nv = messages_view(mailbox@.normal);
    let ghost cap = mailbox@.capacity;
    let mut any = false;
    let mut i: usize = 0;
    while i < strats.len()
        invariant
            i <= strats.len(),
            hv == messages_view(old(mailbox)@.high),
            nv == messages_view(old(mailbox)@.normal),
            cap == old(mailbox)@.capacity,
            mailbox@.normal == old(mailbox)@.normal,
            mailbox@.capacity == cap,
            mailbox@.skips == old(mailbox)@.skips,
            ({
                let (added, a) = recovery_plan(hv, nv, cap, name@, texts(strats@).subrange(0, i as int), clock);
                messages_view(mailbox@.high) == hv + added && any == a
            }),
        decreases strats.len() - i,
    {
        let ghost pre = texts(strats@).subrange(0, i as int);
        let ghost (added, a) = recovery_plan(hv, nv, cap, name@, pre, clock);
        proof {
            assert(texts(strats@).subrange(0, i + 1).drop_last() =~= pre);
            assert(texts(strats@).subrange(0, i + 1).last() == strats@[i as int]@);
        }
        let strat = &strats[i];
        let in_high = carries_payload(&mailbox.high, strat);
        let in_normal = carries_payload(&mailbox.normal, strat);
        proof {
            let hv2 = messages_view(mailbox@.high);
            assert(in_high == exists|k: int| 0 <= k < hv2.len() && #[trigger] hv2[k].payload == strat@) by {
                if in_high {
                    let k = choose|k: int| 0 <= k < mailbox@.high.len() && #[trigger] mailbox@.high[k].payload@ == strat@;
                    assert(hv2[k].payload == strat@);
                }
                if exists|k: int| 0 <= k < hv2.len() && #[trigger] hv2[k].payload == strat@ {
                    let k = choose|k: int| 0 <= k < hv2.len() && #[trigger] hv2[k].payload == strat@;
                    assert(mailbox@.high[k].payload@ == strat@);
                }
            }
            assert(in_normal == exists|k: int| 0 <= k < nv.len() && #[trigger] nv[k].payload == strat@) by {
                if in_normal {
                    let k = choose|k: int| 0 <= k < mailbox@.normal.len() && #[trigger] mailbox@.normal[k].payload@ == strat@;
                    assert(nv[k].payload == strat@);
                }
                if exists|k: int| 0 <= k < nv.len() && #[trigger] nv[k].payload == strat@ {
                    let k = choose|k: int| 0 <= k < nv.len() && #[trigger] nv[k].payload == strat@;
                    assert(mailbox@.normal[k].payload@ == strat@);
                }
            }
        }
        if !in_high && !in_normal {
            any = true;
            let msg = Message {
                id: String::new(),
                source_domain: String::new(),
                target_domain: name.clone(),
                payload: strat.clone(),
                priority: 1,
                clock,
            };
            let ghost before = mailbox@;
            let _ = mailbox.push(msg);
            proof {
                if !mailbox_full(before) {
                    assert(messages_view(mailbox@.high) =~= messages_view(before.high).push(msg@));
                }
                assert(msg@ == recovery_view(name@, strat@, clock));
            }
        }
        i = i + 1;
    }
    assert(texts(strats@).subrange(0, i as int) =~= texts(strats@));
    any
}

/// The outcome of goal `g` over memory `mem`.
pub open spec fn goal_outcome(g: GoalBytecode, schema: Seq<String>, mem: Map<Seq<char>, i64>, gas: usize) -> PredOutcome {
    predicate_outcome(g.instructions@, g.constants@, schema, mem, "Goal"@, gas as nat)
}

/// The recovery requests that a pass over `goals` queues: for each goal
/// that evaluates to false, in order, the requests of its recovery
/// transitions; and whether any failed goal had a strategy not waiting yet.
pub open spec fn goals_plan(
    high: Seq<MessageView>,
    normal: Seq<MessageView>,
    capacity: nat,
    name: Seq<char>,
    goals: Seq<GoalBytecode>,
    schema: Seq<String>,
    mem: Map<Seq<char>, i64>,
    gas: usize,
    clock: u64,
) -> (Seq<MessageView>, bool)
    decreases goals.len(),
{
    if goals.len() == 0 {
        (Seq::empty(), false)
    } else {
        let (added, any) = goals_plan(high, normal, capacity, name, goals.drop_last(), schema, mem, gas, clock);
        let g = goals.last();
        if goal_outcome(g, schema, mem, gas) == PredOutcome::Value(false) {
            let (more, any2) = recovery_plan(high + added, normal, capacity, name, texts(g.recovery_transitions@), clock);
            (added + more, any || any2)
        } else {
            (added, any)
        }
    }
}

/// Some goal of `goals` evaluates to false.
pub open spec fn some_goal_fails(goals: Seq<GoalBytecode>, schema: Seq<String>, mem: Map<Seq<char>, i64>, gas: usize) -> bool {
    exists|i: int| 0 <= i < goals.len() && goal_outcome(#[trigger] goals[i], schema, mem, gas) == PredOutcome::Value(false)
}

/// The start of a cycle's trace lines.
pub open spec fn cycle_tag_text(cycle: usize) -> Seq<char> {
    "[Scheduler Cycle "@ + crate::text::int_text(cycle as int) + "] "@
}

/// `[Scheduler Cycle <cycle>] `.
fn cycle_tag(cycle: usize) -> (s: String)
    ensures
        s@ == cycle_tag_text(cycle),
{
    join3("[Scheduler Cycle ", usize_text(cycle).as_str(), "] ")
}

/// A trace line of cycle `cycle`: its tag, then `rest`.
fn tag_line(cycle: usize, rest: &str) -> (s: String)
    ensures
        s@ == cycle_tag_text(cycle) + rest@,
        cycle_tag_text(cycle).is_prefix_of(s@),
{
    let tag = cycle_tag(cycle);
    let s = join2(tag.as_str(), rest);
    assert(s@.subrange(0, tag@.len() as int) =~= tag@);
    s
}

/// `rest` as a trace line of cycle `cycle`.
pub open spec fn tagged(cycle: usize, rest: Seq<char>) -> Seq<char> {
    cycle_tag_text(cycle) + rest
}

/// A tracer event of cycle `cycle`.
pub open spec fn event_of(cycle: usize, domain: Seq<char>, action: Seq<char>, details: Seq<char>) -> EventView {
    EventView { cycle: cycle as nat, domain, action, details }
}

/// Appends a line to a trace.
fn push_line(trace: &mut Vec<String>, s: String)
    ensures
        final(trace)@ == old(trace)@.push(s),
        texts(final(trace)@) == texts(old(trace)@).push(s@),
{
    trace.push(s);
    assert(texts(trace@) =~= texts(old(trace)@).push(s@));
}

/// The text of memory `m`: `"k": v` for each field in name order,
/// separated by `, `.
pub open spec fn memory_text(m: Map<Seq<char>, i64>) -> Seq<char> {
    fields_text(choose|ks: Seq<String>| strictly_sorted(ks) && name_set(ks) == m.dom(), m)
}

/// What a goal evaluation that would panic is reported as.
pub open spec fn goal_abort_text() -> Seq<char> {
    "Goal evaluation aborted: an instruction would overflow or index out of range"@
}

/// The trace line and the tracer event that report goal `g` of domain
/// `name` with outcome `o`.
pub open spec fn goal_report(name: Seq<char>, g: GoalBytecode, o: PredOutcome, cycle: usize) -> (Seq<char>, EventView) {
    match o {
        PredOutcome::Value(true) => (
            tagged(cycle, "Domain '"@ + name + "' achieved GOAL: '"@ + g.name@ + "'"@),
            event_of(cycle, name, "GOAL_MET"@, g.name@),
        ),
        PredOutcome::Value(false) => (
            tagged(cycle, "Domain '"@ + name + "' GOAL FAILED: '"@ + g.name@ + "' -> Scheduling recovery strategies"@),
            event_of(cycle, name, "GOAL_FAILED"@, g.name@),
        ),
        PredOutcome::Error(e) => (
            tagged(cycle, "Domain '"@ + name + "' goal error in '"@ + g.name@ + "': "@ + e),
            event_of(cycle, name, "GOAL_ERROR"@, e),
        ),
        PredOutcome::Crash => (
            tagged(cycle, "Domain '"@ + name + "' goal error in '"@ + g.name@ + "': "@ + goal_abort_text()),
            event_of(cycle, name, "GOAL_ERROR"@, goal_abort_text()),
        ),
    }
}

/// The trace lines and tracer events of a goal pass of domain `name` over
/// `goals`, in order.
pub open spec fn goal_reports(
    name: Seq<char>,
    schema: Seq<String>,
    mem: Map<Seq<char>, i64>,
    goals: Seq<GoalBytecode>,
    gas: usize,
    cycle: usize,
) -> (Seq<Seq<char>>, Seq<EventView>)
    decreases goals.len(),
{
    if goals.len() == 0 {
        (Seq::empty(), Seq::empty())
    } else {
        let (lines, events) = goal_reports(name, schema, mem, goals.drop_last(), gas, cycle);
        let (l, e) = goal_report(name, goals.last(), goal_outcome(goals.last(), schema, mem, gas), cycle);
        (lines.push(l), events.push(e))
    }
}

/// Evaluates every goal of `d`, in order, against its memory; logs each
/// outcome, and for each failed goal queues its recovery transitions as
/// `goals_plan` describes. Returns whether some goal failed; `active` is set
/// when a recovery strategy was missing from the mailbox.
fn run_goals(
    d: &mut DomainInstance,
    tracer: &mut Tracer,
    trace: &mut Vec<String>,
    active: &mut bool,
    cycle: usize,
    gas: usize,
) -> (failed: bool)
    ensures
        failed == some_goal_fails(old(d).bytecode.goals@, old(d).schema@, old(d).state@, gas),
        goals_done(*old(d), *final(d), gas),
        *final(d) == (DomainInstance { mailbox: final(d).mailbox, ..*old(d) }),
        ({
            let (added, any) = goals_plan(
                messages_view(old(d).mailbox@.high),
                messages_view(old(d).mailbox@.normal),
                old(d).mailbox@.capacity,
                old(d).name@,
                old(d).bytecode.goals@,
                old(d).schema@,
                old(d).state@,
                gas,
                old(d).logical_clock.tick,
            );
            &&& messages_view(final(d).mailbox@.high) == messages_view(old(d).mailbox@.high) + added
            &&& *final(active) == (*old(active) || any)
        }),
        final(d).mailbox@.normal == old(d).mailbox@.normal,
        final(d).mailbox@.capacity == old(d).mailbox@.capacity,
        final(d).mailbox@.skips == old(d).mailbox@.skips,
        old(trace)@.is_prefix_of(final(trace)@),
        old(tracer)@.is_prefix_of(final(tracer)@),
        texts(final(trace)@) == texts(old(trace)@)
            + goal_reports(old(d).name@, old(d).schema@, old(d).state@, old(d).bytecode.goals@, gas, cycle).0,
        final(tracer)@ == old(tracer)@
            + goal_reports(old(d).name@, old(d).schema@, old(d).state@, old(d).bytecode.goals@, gas, cycle).1,
{
    let ghost d0 = *d;
    let ghost hv = messages_view(d.mailbox@.high);
    let ghost goals = d.bytecode.goals@;
    let mut failed = false;
    let mut i: usize = 0;
    while i < d.bytecode.goals.len()
        invariant
            i <= goals.len(),
            d0 == *old(d),
            hv == messages_view(d0.mailbox@.high),
            goals == d0.bytecode.goals@,
            *d == (DomainInstance { mailbox: d.mailbox, ..d0 }),
            d.mailbox@.normal == d0.mailbox@.normal,
            d.mailbox@.capacity == d0.mailbox@.capacity,
            d.mailbox@.skips == d0.mailbox@.skips,
            failed == some_goal_fails(goals.subrange(0, i as int), d0.schema@, d0.state@, gas),
            ({
                let (added, any) = goals_plan(hv, messages_view(d0.mailbox@.normal), d0.mailbox@.capacity, d0.name@,
                    goals.subrange(0, i as int), d0.schema@, d0.state@, gas, d0.logical_clock.tick);
                &&& messages_view(d.mailbox@.high) == hv + added
                &&& *active == (*old(active) || any)
            }),
            old(trace)@.is_prefix_of(trace@),
            old(tracer)@.is_prefix_of(tracer@),
            texts(trace@) == texts(old(trace)@) + goal_reports(d0.name@, d0.schema@, d0.state@, goals.subrange(0, i as int), gas, cycle).0,
            tracer@ == old(tracer)@ + goal_reports(d0.name@, d0.schema@, d0.state@, goals.subrange(0, i as int), gas, cycle).1,
        decreases goals.len() - i,
    {
        let ghost pre = goals.subrange(0, i as int);
        let ghost g = goals[i as int];
        proof {
            assert(goals.subrange(0, i + 1).drop_last() =~= pre);
            assert(goals.subrange(0, i + 1).last() == g);
        }
        let ghost tr0 = trace@;
        let ghost tc0 = tracer@;
        let goal = &d.bytecode.goals[i];
        let outcome = GoalEngine::try_evaluate(goal, &d.state, d.schema.as_slice(), gas);
        match outcome {
            Some(Ok(true)) => {
                tracer.record(cycle, d.name.as_str(), "GOAL_MET", goal.name.as_str());
                push_line(trace, tag_line(cycle, join5("Domain '", d.name.as_str(), "' achieved GOAL: '", goal.name.as_str(), "'").as_str()));
            },
            Some(Ok(false)) => {
                failed = true;
                tracer.record(cycle, d.name.as_str(), "GOAL_FAILED", goal.name.as_str());
                push_line(trace, tag_line(cycle, join5("Domain '", d.name.as_str(), "' GOAL FAILED: '", goal.name.as_str(),
                    "' -> Scheduling recovery strategies").as_str()));
                let clock = d.logical_clock.tick;
                let any = schedule_recoveries(&mut d.mailbox, &d.name, &goal.recovery_transitions, clock);
                if any {
                    *active = true;
                }
            },
            Some(Err(e)) => {
                tracer.record(cycle, d.name.as_str(), "GOAL_ERROR", e.as_str());
                push_line(trace, tag_line(cycle, join6("Domain '", d.name.as_str(), "' goal error in '", goal.name.as_str(), "': ", e.as_str()).as_str()));
            },
            None => {
                let e = "Goal evaluation aborted: an instruction would overflow or index out of range";
                tracer.record(cycle, d.name.as_str(), "GOAL_ERROR", e);
                push_line(trace, tag_line(cycle, join6("Domain '", d.name.as_str(), "' goal error in '", goal.name.as_str(), "': ", e).as_str()));
            },
        }
        proof {
            assert(tr0.is_prefix_of(trace@));
            assert(tc0.is_prefix_of(tracer@));
            let nxt = goals.subrange(0, i + 1);
            let prev = goal_reports(d0.name@, d0.schema@, d0.state@, pre, gas, cycle);
            let rep = goal_report(d0.name@, g, goal_outcome(g, d0.schema@, d0.state@, gas), cycle);
            assert(goal_reports(d0.name@, d0.schema@, d0.state@, nxt, gas, cycle) == (prev.0.push(rep.0), prev.1.push(rep.1)));
            assert(texts(trace@) == texts(old(trace)@) + prev.0.push(rep.0));
            assert(tracer@ == old(tracer)@ + prev.1.push(rep.1));
            assert(some_goal_fails(goals.subrange(0, i + 1), d0.schema@, d0.state@, gas)
                == (some_goal_fails(pre, d0.schema@, d0.state@, gas) || goal_outcome(g, d0.schema@, d0.state@, gas) == PredOutcome::Value(false))) by {
                let nxt = goals.subrange(0, i + 1);
                if some_goal_fails(pre, d0.schema@, d0.state@, gas) {
                    let k = choose|k: int| 0 <= k < pre.len() && goal_outcome(#[trigger] pre[k], d0.schema@, d0.state@, gas) == PredOutcome::Value(false);
                    assert(nxt[k] == pre[k]);
                }
                if goal_outcome(g, d0.schema@, d0.state@, gas) == PredOutcome::Value(false) {
                    assert(nxt[i as int] == g);
                }
                if some_goal_fails(nxt, d0.schema@, d0.state@, gas) {
                    let k = choose|k: int| 0 <= k < nxt.len() && goal_outcome(#[trigger] nxt[k], d0.schema@, d0.state@, gas) == PredOutcome::Value(false);
                    if k < i {
                        assert(pre[k] == nxt[k]);
                    }
                }
            }
        }
        i = i + 1;
    }
    assert(goals.subrange(0, i as int) =~= goals);
    failed
}

/// Where a transition is looked up by name: the first one so named.
pub open spec fn transition_found(ts: Seq<TransitionBytecode>, name: Seq<char>, r: Option<usize>) -> bool {
    match r {
        Some(k) => k < ts.len() && ts[k as int].name@ == name && forall|j: int| 0 <= j < k ==> #[trigger] ts[j].name@ != name,
        None => forall|j: int| 0 <= j < ts.len() ==> #[trigger] ts[j].name@ != name,
    }
}

/// The clock reading after a message stamped `incoming` is received and
/// handled (capped at `u64::MAX`).
pub open spec fn clock_after_receipt(current: u64, incoming: u64) -> u64 {
    capped(after_receive(current, incoming) + 1)
}

/// Registers all zero.
pub open spec fn zero_registers() -> Seq<i64> {
    Seq::new(256, |i: int| 0i64)
}

/// The work picked for a domain, as values.
pub struct WorkView {
    pub transition: Option<usize>,
    pub start_pc: usize,
    pub outbox: Seq<Message>,
    pub registers: Seq<i64>,
}

/// A domain's goal pass: `d1` is `d` with the recovery requests of
/// `goals_plan` added to its high queue.
pub open spec fn goals_done(d: DomainInstance, d1: DomainInstance, gas: usize) -> bool {
    let (added, _) = goals_plan(
        messages_view(d.mailbox@.high),
        messages_view(d.mailbox@.normal),
        d.mailbox@.capacity,
        d.name@,
        d.bytecode.goals@,
        d.schema@,
        d.state@,
        gas,
        d.logical_clock.tick,
    );
    &&& d1 == (DomainInstance { mailbox: d1.mailbox, ..d })
    &&& messages_view(d1.mailbox@.high) == messages_view(d.mailbox@.high) + added
    &&& d1.mailbox@.normal == d.mailbox@.normal
    &&& d1.mailbox@.capacity == d.mailbox@.capacity
    &&& d1.mailbox@.skips == d.mailbox@.skips
}

/// Picking a domain's work: its suspended transition, taken out of `d1`,
/// or else its next message, whose stamp its clock takes in.
pub open spec fn work_picked(d1: DomainInstance, d2: DomainInstance, w: WorkView) -> bool {
    match d1.suspended_context {
        Some(sc) => {
            &&& d2 == (DomainInstance { suspended_context: None, ..d1 })
            &&& transition_found(d1.bytecode.transitions@, sc.transition_name@, w.transition)
            &&& w.start_pc == sc.pc
            &&& w.outbox == sc.outbox@
            &&& w.registers == sc.registers@
        },
        None => {
            let (m2, popped) = mailbox_pop(d1.mailbox@);
            &&& d2.mailbox@ == m2
            &&& match popped {
                Some(msg) => {
                    &&& d2 == (DomainInstance { mailbox: d2.mailbox, logical_clock: d2.logical_clock, ..d1 })
                    &&& d2.logical_clock.tick == clock_after_receipt(d1.logical_clock.tick, msg.clock)
                    &&& transition_found(d1.bytecode.transitions@, msg.payload@, w.transition)
                    &&& w.start_pc == 0
                    &&& w.outbox.len() == 0
                    &&& w.registers == zero_registers()
                },
                None => {
                    &&& d2 == (DomainInstance { mailbox: d2.mailbox, ..d1 })
                    &&& w.transition is None
                },
            }
        },
    }
}

/// Running the picked work of `d2` for one slice: a completed slice commits
/// its memory and advances the clock once per message sent; a slice out of
/// budget is kept to resume; anything else leaves the domain as it was.
pub open spec fn work_done(d2: DomainInstance, d3: DomainInstance, w: WorkView, gas: usize) -> bool {
    match w.transition {
        None => d3 == d2,
        Some(k) => {
            &&& k < d2.bytecode.transitions.len()
            &&& match work_outcome(d2, d2.bytecode.transitions@[k as int], w.registers, w.start_pc, w.outbox, gas) {
                Run::Completed(m) => {
                    &&& d3 == (DomainInstance { state: d3.state, logical_clock: d3.logical_clock, ..d2 })
                    &&& d3.state@ == m.mem
                    &&& d3.logical_clock.tick == capped(d2.logical_clock.tick + m.outbox.len())
                },
                Run::Suspended(m) => {
                    &&& d3 == (DomainInstance { suspended_context: d3.suspended_context, ..d2 })
                    &&& d3.suspended_context matches Some(sc) && sc.transition_name@ == d2.bytecode.transitions@[k as int].name@
                        && sc.pc == m.pc && sc.registers@ == m.regs && messages_view(sc.outbox@) == m.outbox
                },
                _ => d3 == d2,
            }
        },
    }
}

/// The messages that the work of `d2` sends, stamped by its clock.
pub open spec fn sent_by(d2: DomainInstance, w: WorkView, gas: usize) -> Seq<MessageView> {
    match w.transition {
        Some(k) => match work_outcome(d2, d2.bytecode.transitions@[k as int], w.registers, w.start_pc, w.outbox, gas) {
            Run::Completed(m) => stamped(m.outbox, d2.logical_clock.tick),
            _ => Seq::empty(),
        },
        None => Seq::empty(),
    }
}

/// The end of a turn: a domain with an empty mailbox, nothing suspended and
/// no failed goal falls asleep.
pub open spec fn sleep_after(d3: DomainInstance, d4: DomainInstance, failed: bool) -> bool {
    if d3.mailbox@.high.len() == 0 && d3.mailbox@.normal.len() == 0 && d3.suspended_context is None && !failed {
        d4 == (DomainInstance { is_quiescent: true, ..d3 })
    } else {
        d4 == d3
    }
}

/// Whether the turn of `d`, whose goal pass left `d1`, counts as work: a
/// recovery strategy was missing from its mailbox, or it had a suspended
/// transition or a message to take.
pub open spec fn turn_did_work(d: DomainInstance, d1: DomainInstance, gas: usize) -> bool {
    let (_, missing) = goals_plan(
        messages_view(d.mailbox@.high),
        messages_view(d.mailbox@.normal),
        d.mailbox@.capacity,
        d.name@,
        d.bytecode.goals@,
        d.schema@,
        d.state@,
        gas,
        d.logical_clock.tick,
    );
    missing || d1.suspended_context is Some || mailbox_pop(d1.mailbox@).1 is Some
}

/// The trace line of a domain falling asleep at the end of its turn.
pub open spec fn sleep_report(d3: DomainInstance, failed: bool, cycle: usize) -> Seq<Seq<char>> {
    if d3.mailbox@.high.len() == 0 && d3.mailbox@.normal.len() == 0 && d3.suspended_context is None && !failed {
        seq![tagged(cycle, "Domain '"@ + d3.name@ + "' entered deterministic quiescent sleep state."@)]
    } else {
        Seq::empty()
    }
}

/// What a domain's turn shows outside the domain: the messages it sent,
/// whether it counted as work, the trace lines and tracer events it
/// logged, and whether it took a normal-priority message.
pub struct TurnView {
    pub sent: Seq<MessageView>,
    pub worked: bool,
    pub lines: Seq<Seq<char>>,
    pub events: Seq<EventView>,
    pub low: bool,
}

/// The view of the turn of `d` in cycle `cycle` whose stages left `d1`
/// (goal pass), `d2` with work `w` (pick) and `d3` (slice).
#[verifier::opaque]
pub open spec fn turn_view(
    d: DomainInstance,
    d1: DomainInstance,
    d2: DomainInstance,
    w: WorkView,
    d3: DomainInstance,
    gas: usize,
    cycle: usize,
) -> TurnView {
    let goals = goal_reports(d.name@, d.schema@, d.state@, d.bytecode.goals@, gas, cycle);
    let pick = pick_report(d1, w, cycle);
    let work = work_report(d2, w, gas, cycle);
    TurnView {
        sent: sent_by(d2, w, gas),
        worked: turn_did_work(d, d1, gas),
        lines: goals.0 + pick.0 + work.0 + sleep_report(d3, some_goal_fails(d.bytecode.goals@, d.schema@, d.state@, gas), cycle),
        events: goals.1 + pick.1 + work.1,
        low: d1.suspended_context is None && (mailbox_pop(d1.mailbox@).1 matches Some(m) && m.priority == 0),
    }
}

/// One turn of domain `d` in cycle `cycle`, ending in `d4`: its goal pass,
/// the pick of its work, one slice of that work, and whether it falls
/// asleep; `t` is what the turn showed.
#[verifier::opaque]
pub open spec fn domain_turn(d: DomainInstance, d4: DomainInstance, gas: usize, cycle: usize, t: TurnView) -> bool {
    exists|d1: DomainInstance, d2: DomainInstance, w: WorkView, d3: DomainInstance|
        #![trigger goals_done(d, d1, gas), work_picked(d1, d2, w), work_done(d2, d3, w, gas)]
        goals_done(d, d1, gas) && work_picked(d1, d2, w) && work_done(d2, d3, w, gas)
            && sleep_after(d3, d4, some_goal_fails(d.bytecode.goals@, d.schema@, d.state@, gas))
            && t == turn_view(d, d1, d2, w, d3, gas, cycle)
}

/// The trace lines and tracer events of picking the work `w` of `d1`: the
/// resumed transition, or the message taken (and its drop when no
/// transition matches it).
#[verifier::opaque]
pub open spec fn pick_report(d1: DomainInstance, w: WorkView, cycle: usize) -> (Seq<Seq<char>>, Seq<EventView>) {
    match d1.suspended_context {
        Some(sc) => (
            seq![tagged(cycle, "Domain '"@ + d1.name@ + "' resuming suspended transition '"@ + sc.transition_name@
                + ("' at pc="@ + crate::text::int_text(sc.pc as int)))],
            Seq::empty(),
        ),
        None => match mailbox_pop(d1.mailbox@).1 {
            Some(msg) => {
                let tail = " (Priority "@ + crate::text::int_text(msg.priority as int) + ", Clock: "@
                    + crate::text::int_text(msg.clock as int) + ")"@;
                let taken = tagged(cycle, "Domain '"@ + d1.name@ + "' processing message: '"@ + msg.payload@ + ("'"@ + tail));
                let dropped = tagged(cycle, "Domain '"@ + d1.name@ + "' dropped message '"@ + msg.payload@ + "' (No matching transition)"@);
                (
                    if w.transition is None { seq![taken, dropped] } else { seq![taken] },
                    seq![event_of(cycle, d1.name@, "PROCESS_MESSAGE"@, msg.payload@)],
                )
            },
            None => (Seq::empty(), Seq::empty()),
        },
    }
}

/// The position of the first transition called `name`.
fn find_transition(ts: &Vec<TransitionBytecode>, name: &String) -> (r: Option<usize>)
    ensures
        transition_found(ts@, name@, r),
{
    let mut k: usize = 0;
    while k < ts.len()
        invariant
            k <= ts.len(),
            forall|j: int| 0 <= j < k ==> #[trigger] ts@[j].name@ != name@,
        decreases ts.len() - k,
    {
        if ts[k].name == *name {
            return Some(k);
        }
        k = k + 1;
    }
    None
}

/// What a domain runs in a cycle: a transition (by position, or none when
/// no transition matched), where to start it, the messages it already sent
/// and its registers.
struct Work {
    transition: Option<usize>,
    start_pc: usize,
    outbox: Vec<Message>,
    registers: [i64; 256],
}

impl View for Work {
    type V = WorkView;

    closed spec fn view(&self) -> WorkView {
        WorkView { transition: self.transition, start_pc: self.start_pc, outbox: self.outbox@, registers: self.registers@ }
    }
}

/// Counts the receipt of a message stamped `incoming` and its handling on
/// `clock`.
fn receive_on(clock: &mut crate::logical_clock::LogicalClock, incoming: u64)
    ensures
        final(clock).tick == clock_after_receipt(old(clock).tick, incoming),
{
    if incoming >= clock.tick && incoming == u64::MAX {
        clock.tick = u64::MAX;
    } else {
        clock.update(incoming);
    }
    if clock.tick < u64::MAX {
        clock.tick();
    }
}

/// Picks the work of `d` for this cycle: the suspended transition if there
/// is one, else the next message of its mailbox, whose stamp the clock takes
/// in.
fn take_work(
    d: &mut DomainInstance,
    tracer: &mut Tracer,
    trace: &mut Vec<String>,
    active: &mut bool,
    low_priority: &mut bool,
    cycle: usize,
) -> (w: Work)
    ensures
        work_picked(*old(d), *final(d), w@),
        old(d).suspended_context is Some ==> *final(active) && *final(low_priority) == *old(low_priority),
        old(d).suspended_context is None ==> match mailbox_pop(old(d).mailbox@).1 {
            Some(msg) => *final(active) && *final(low_priority) == (*old(low_priority) || msg.priority == 0),
            None => *final(active) == *old(active) && *final(low_priority) == *old(low_priority),
        },
        old(trace)@.is_prefix_of(final(trace)@),
        old(tracer)@.is_prefix_of(final(tracer)@),
        texts(final(trace)@) == texts(old(trace)@) + pick_report(*old(d), w@, cycle).0,
        final(tracer)@ == old(tracer)@ + pick_report(*old(d), w@, cycle).1,
{
    reveal(pick_report);
    let ghost d1 = *d;
    let taken = d.suspended_context.take();
    match taken {
        Some(sc) => {
            *active = true;
            push_line(trace, tag_line(cycle, join5("Domain '", d.name.as_str(), "' resuming suspended transition '",
                sc.transition_name.as_str(), join2("' at pc=", usize_text(sc.pc).as_str()).as_str()).as_str()));
            let transition = find_transition(&d.bytecode.transitions, &sc.transition_name);
            let SuspendedContext { transition_name: _, pc, registers, outbox } = sc;
            Work { transition, start_pc: pc, outbox, registers }
        },
        None => {
            match d.mailbox.pop() {
                Some(msg) => {
                    *active = true;
                    if msg.priority == 0 {
                        *low_priority = true;
                    }
                    receive_on(&mut d.logical_clock, msg.clock);
                    tracer.record(cycle, d.name.as_str(), "PROCESS_MESSAGE", msg.payload.as_str());
                    let tail = join5(" (Priority ", u64_text(msg.priority as u64).as_str(), ", Clock: ", u64_text(msg.clock).as_str(), ")");
                    push_line(trace, tag_line(cycle, join5("Domain '", d.name.as_str(), "' processing message: '", msg.payload.as_str(),
                        join2("'", tail.as_str()).as_str()).as_str()));
                    let transition = find_transition(&d.bytecode.transitions, &msg.payload);
                    if transition.is_none() {
                        push_line(trace, tag_line(cycle, join5("Domain '", d.name.as_str(), "' dropped message '", msg.payload.as_str(),
                            "' (No matching transition)").as_str()));
                    }
                    let w = Work { transition, start_pc: 0, outbox: Vec::new(), registers: [0i64; 256] };
                    assert(w.registers@ =~= zero_registers());
                    w
                },
                None => Work { transition: None, start_pc: 0, outbox: Vec::new(), registers: [0i64; 256] },
            }
        },
    }
}

/// The messages of a completed slice as they leave the domain: in order,
/// each stamped with the next clock reading after `tick` (capped).
pub open spec fn stamped(out: Seq<MessageView>, tick: u64) -> Seq<MessageView> {
    Seq::new(out.len(), |j: int| MessageView { clock: capped(tick + j + 1), ..out[j] })
}

/// The capabilities a domain's code runs with under the scheduler: full
/// authority, so its messages go to any domain.
pub open spec fn scheduled_capabilities() -> Seq<Seq<char>> {
    seq!["root"@]
}

/// What a slice of transition `t`, started at `start_pc` with `registers`
/// and the messages `outbox` already sent, does on `d`'s memory.
pub open spec fn work_outcome(d: DomainInstance, t: TransitionBytecode, registers: Seq<i64>, start_pc: usize, outbox: Seq<Message>, gas: usize) -> Run {
    run(
        t.instructions@,
        constants_view(t.constants@),
        texts(d.schema@),
        scheduled_capabilities(),
        Machine { mem: d.state@, regs: registers, pc: start_pc as int, outbox: messages_view(outbox) },
        gas as nat,
    )
}

/// `"k": v` for field `k` of memory `m`.
pub open spec fn field_entry(k: Seq<char>, m: Map<Seq<char>, i64>) -> Seq<char> {
    "\""@ + k + "\": "@ + crate::text::int_text(m[k] as int)
}

/// The entries of the fields `ks` of `m`, in order, separated by `, `.
pub open spec fn fields_text(ks: Seq<String>, m: Map<Seq<char>, i64>) -> Seq<char>
    decreases ks.len(),
{
    if ks.len() == 0 {
        Seq::empty()
    } else if ks.len() == 1 {
        field_entry(ks[0]@, m)
    } else {
        fields_text(ks.drop_last(), m) + ", "@ + field_entry(ks.last()@, m)
    }
}

/// `"k": v` for each field of `state` in name order, separated by `, `.
fn state_text(state: &IsolatedState) -> (s: String)
    ensures
        s@ == memory_text(state@),
{
    let keys = state.keys_sorted();
    let mut out = String::new();
    let mut i: usize = 0;
    assert(keys@.subrange(0, 0) =~= Seq::<String>::empty());
    while i < keys.len()
        invariant
            i <= keys.len(),
            name_set(keys@) == state@.dom(),
            out@ == fields_text(keys@.subrange(0, i as int), state@),
        decreases keys.len() - i,
    {
        proof {
            assert(name_set(keys@).contains(keys@[i as int]@));
            let pre = keys@.subrange(0, i as int);
            let nxt = keys@.subrange(0, i + 1);
            assert(nxt.drop_last() =~= pre);
            assert(nxt.last() == keys@[i as int]);
            if i == 0 {
                assert(nxt.len() == 1 && nxt[0] == keys@[0]);
            }
        }
        if i > 0 {
            out.append(", ");
        }
        let v = match state.get(keys[i].as_str()) {
            Some(v) => v,
            None => 0,
        };
        out.append(join4("\"", keys[i].as_str(), "\": ", i64_text(v).as_str()).as_str());
        proof {
            reveal_strlit("\"");
            reveal_strlit("\": ");
            reveal_strlit(", ");
        }
        assert(out@ =~= fields_text(keys@.subrange(0, i + 1), state@));
        i = i + 1;
    }
    assert(keys@.subrange(0, i as int) =~= keys@);
    proof {
        let ck = choose|ks: Seq<String>| strictly_sorted(ks) && name_set(ks) == state@.dom();
        assert(strictly_sorted(keys@) && name_set(keys@) == state@.dom());
        lemma_sorted_names_unique(keys@, ck);
        lemma_fields_text_names(keys@, ck, state@);
    }
    out
}

/// The text reported when a slice would panic.
pub open spec fn slice_abort_text() -> Seq<char> {
    "slice aborted: an instruction would overflow or index out of range"@
}

/// The trace lines and tracer events of running the work `w` of `d2` for
/// one slice: the memory after a completed slice, the position of a
/// suspended one, or the error of a faulting one.
#[verifier::opaque]
pub open spec fn work_report(d2: DomainInstance, w: WorkView, gas: usize, cycle: usize) -> (Seq<Seq<char>>, Seq<EventView>) {
    match w.transition {
        None => (Seq::empty(), Seq::empty()),
        Some(k) => {
            let t = d2.bytecode.transitions@[k as int];
            match work_outcome(d2, t, w.registers, w.start_pc, w.outbox, gas) {
                Run::Completed(m) => (
                    seq![tagged(cycle, "Domain '"@ + d2.name@ + "' state AFTER '"@ + t.name@ + "': {"@ + (memory_text(m.mem) + "}"@))],
                    seq![event_of(cycle, d2.name@, "STATE_MUTATED"@, memory_text(m.mem))],
                ),
                Run::Suspended(m) => (
                    seq![tagged(cycle, "Domain '"@ + d2.name@ + "' transition '"@ + t.name@ + "' exhausted gas slices, suspended at pc="@
                        + (crate::text::int_text(m.pc) + ". Execution yielded."@))],
                    Seq::empty(),
                ),
                Run::Fault(e, _) => (seq![tagged(cycle, "Execution error in '"@ + d2.name@ + "': "@ + e)], Seq::empty()),
                Run::Crash => (seq![tagged(cycle, "Execution error in '"@ + d2.name@ + "': "@ + slice_abort_text())], Seq::empty()),
            }
        },
    }
}

/// Runs the picked transition of `d` for one slice: a completed slice
/// commits its memory and hands its messages, stamped by `d`'s clock, to
/// `outgoing`; a slice out of budget is kept to resume; a faulting slice
/// leaves `d` as it was.
fn run_work(
    d: &mut DomainInstance,
    tracer: &mut Tracer,
    trace: &mut Vec<String>,
    outgoing: &mut Vec<Message>,
    w: Work,
    cycle: usize,
    gas: usize,
)
    requires
        w.transition matches Some(k) ==> k < old(d).bytecode.transitions.len(),
    ensures
        old(trace)@.is_prefix_of(final(trace)@),
        old(tracer)@.is_prefix_of(final(tracer)@),
        texts(final(trace)@) == texts(old(trace)@) + work_report(*old(d), w@, gas, cycle).0,
        final(tracer)@ == old(tracer)@ + work_report(*old(d), w@, gas, cycle).1,
        work_done(*old(d), *final(d), w@, gas),
        final(outgoing)@.len() == old(outgoing)@.len() + sent_by(*old(d), w@, gas).len(),
        final(outgoing)@.subrange(0, old(outgoing)@.len() as int) == old(outgoing)@,
        messages_view(final(outgoing)@.subrange(old(outgoing)@.len() as int, final(outgoing)@.len() as int))
            == sent_by(*old(d), w@, gas),
{
    reveal(work_report);
    if w.transition.is_none() {
        return;
    }
    let k = w.transition.unwrap();
    let t = &d.bytecode.transitions[k];
    let mut interpreter = Interpreter::with_state(d.state.snapshot());
    interpreter.registers = w.registers;
    let mut caps: Vec<String> = Vec::new();
    caps.push(String::from_str("root"));
    interpreter.set_capabilities(caps);
    let ghost i0 = interpreter;
    proof {
        reveal_strlit("root");
        assert(texts(i0.available_capabilities@) =~= scheduled_capabilities());
    }
    let result = interpreter.try_run_slice(t, d.schema.as_slice(), gas, w.start_pc, w.outbox);
    match result {
        Some(SliceResult::Completed(outbox)) => {
            let Interpreter { state, registers: _, available_capabilities: _ } = interpreter;
            d.state = state;
            let state_str = state_text(&d.state);
            tracer.record(cycle, d.name.as_str(), "STATE_MUTATED", state_str.as_str());
            push_line(trace, tag_line(cycle, join6("Domain '", d.name.as_str(), "' state AFTER '", t.name.as_str(), "': {",
                join2(state_str.as_str(), "}").as_str()).as_str()));
            let ghost base = outgoing@;
            let ghost tick0 = d.logical_clock.tick;
            let ghost d1 = *d;
            let mut j: usize = 0;
            while j < outbox.len()
                invariant
                    j <= outbox.len(),
                    *d == (DomainInstance { logical_clock: d.logical_clock, ..d1 }),
                    outgoing@.len() == base.len() + j,
                    outgoing@.subrange(0, base.len() as int) == base,
                    d.logical_clock.tick == capped(tick0 + j),
                    forall|q: int| 0 <= q < j ==> (#[trigger] outgoing@[base.len() + q])@
                        == (MessageView { clock: capped(tick0 + q + 1), ..outbox@[q]@ }),
                decreases outbox.len() - j,
            {
                if d.logical_clock.tick < u64::MAX {
                    d.logical_clock.tick();
                }
                let mut m = outbox[j].clone();
                m.clock = d.logical_clock.tick;
                outgoing.push(m);
                proof {
                    assert(outgoing@.subrange(0, base.len() as int) =~= base);
                }
                j = j + 1;
            }
            proof {
                let tail = outgoing@.subrange(base.len() as int, outgoing@.len() as int);
                assert(messages_view(tail) =~= stamped(messages_view(outbox@), tick0)) by {
                    assert forall|q: int| 0 <= q < tail.len() implies messages_view(tail)[q] == stamped(messages_view(outbox@), tick0)[q] by {
                        assert(tail[q] == outgoing@[base.len() + q]);
                    }
                }
            }
        },
        Some(SliceResult::Suspended { pc, outbox }) => {
            push_line(trace, tag_line(cycle, join6("Domain '", d.name.as_str(), "' transition '", t.name.as_str(),
                "' exhausted gas slices, suspended at pc=", join2(usize_text(pc).as_str(), ". Execution yielded.").as_str()).as_str()));
            let sc = SuspendedContext { transition_name: t.name.clone(), pc, registers: interpreter.registers, outbox };
            d.suspended_context = Some(sc);
        },
        Some(SliceResult::Fault(e)) => {
            push_line(trace, tag_line(cycle, join4("Execution error in '", d.name.as_str(), "': ", e.as_str()).as_str()));
        },
        None => {
            push_line(trace, tag_line(cycle, join4("Execution error in '", d.name.as_str(), "': ",
                "slice aborted: an instruction would overflow or index out of range").as_str()));
        },
    }
}

/// The mailboxes of the domains.
pub open spec fn mailboxes_of(doms: Map<Seq<char>, DomainInstance>) -> Map<Seq<char>, MailboxView> {
    Map::new(|n: Seq<char>| doms.contains_key(n), |n: Seq<char>| doms[n].mailbox@)
}

/// Routing `msgs` in order over `boxes`: a message whose target is known
/// and has room is queued there, any other is handed back. The mailboxes
/// afterwards, whether some message was queued, and how many were handed
/// back.
pub open spec fn routed(boxes: Map<Seq<char>, MailboxView>, msgs: Seq<Message>) -> (Map<Seq<char>, MailboxView>, bool, nat)
    decreases msgs.len(),
{
    if msgs.len() == 0 {
        (boxes, false, 0)
    } else {
        let (b, any, refused) = routed(boxes, msgs.drop_last());
        let m = msgs.last();
        let t = m.target_domain@;
        if b.contains_key(t) && !mailbox_full(b[t]) {
            (b.insert(t, mailbox_after_push(b[t], m)), true, refused)
        } else {
            (b, any, refused + 1)
        }
    }
}

/// Some message of `msgs` is addressed to `n`.
pub open spec fn addressed_to(msgs: Seq<Message>, n: Seq<char>) -> bool {
    exists|j: int| 0 <= j < msgs.len() && #[trigger] msgs[j].target_domain@ == n
}

proof fn lemma_routed_dom(boxes: Map<Seq<char>, MailboxView>, msgs: Seq<Message>)
    ensures
        routed(boxes, msgs).0.dom() == boxes.dom(),
    decreases msgs.len(),
{
    if msgs.len() > 0 {
        lemma_routed_dom(boxes, msgs.drop_last());
        let b = routed(boxes, msgs.drop_last()).0;
        let t = msgs.last().target_domain@;
        if b.contains_key(t) {
            assert(b.insert(t, mailbox_after_push(b[t], msgs.last())).dom() =~= b.dom());
        }
    }
}

/// The messages that the turns `ts` sent, one turn after the other.
pub open spec fn turns_sent(ts: Seq<TurnView>) -> Seq<MessageView>
    decreases ts.len(),
{
    if ts.len() == 0 { Seq::empty() } else { turns_sent(ts.drop_last()) + ts.last().sent }
}

/// The trace lines that the turns `ts` logged, one turn after the other.
pub open spec fn turns_lines(ts: Seq<TurnView>) -> Seq<Seq<char>>
    decreases ts.len(),
{
    if ts.len() == 0 { Seq::empty() } else { turns_lines(ts.drop_last()) + ts.last().lines }
}

/// The tracer events that the turns `ts` recorded, one turn after the other.
pub open spec fn turns_events(ts: Seq<TurnView>) -> Seq<EventView>
    decreases ts.len(),
{
    if ts.len() == 0 { Seq::empty() } else { turns_events(ts.drop_last()) + ts.last().events }
}

/// Some turn of `ts` counted as work.
pub open spec fn any_worked(ts: Seq<TurnView>) -> bool {
    exists|k: int| 0 <= k < ts.len() && #[trigger] ts[k].worked
}

/// Some turn of `ts` took a normal-priority message.
pub open spec fn any_low(ts: Seq<TurnView>) -> bool {
    exists|k: int| 0 <= k < ts.len() && #[trigger] ts[k].low
}

/// What a cycle shows outside the domains: whether it did work, the trace
/// lines and tracer events it logged, and whether it took a
/// normal-priority message.
pub struct CycleView {
    pub active: bool,
    pub lines: Seq<Seq<char>>,
    pub events: Seq<EventView>,
    pub low: bool,
}

/// Cycle `cycle` takes the domains from `before` to `after` and shows `c`,
/// as witnessed by: the awake domains in the order they ran (`order`); the
/// domains once each had its turn (`mids`) and what each turn showed
/// (`turns`); and the messages of the cycle in the order they were sent
/// (`out`). At the end of the cycle `out` is routed over the mailboxes of
/// `mids`: each message joins its target's queue if the target exists and
/// has room, and wakes it. The cycle did work when some turn did or some
/// message was delivered; it logged the turns' lines and events, then those
/// of the routing.
#[verifier::opaque]
pub open spec fn cycle_witness(
    before: Map<Seq<char>, DomainInstance>,
    after: Map<Seq<char>, DomainInstance>,
    cycle: usize,
    gas: usize,
    c: CycleView,
    order: Seq<String>,
    mids: Map<Seq<char>, DomainInstance>,
    turns: Seq<TurnView>,
    out: Seq<Message>,
) -> bool {
    let (boxes, delivered, _) = routed(mailboxes_of(mids), out);
    let (route_lines, route_events) = route_reports(mailboxes_of(mids), out, cycle);
    &&& cycle_order(before, cycle as u64, order)
    &&& turns.len() == order.len()
    &&& mids.dom() == before.dom()
    &&& after.dom() == before.dom()
    &&& forall|n: Seq<char>| #[trigger] before.contains_key(n) && before[n].is_quiescent ==> mids[n] == before[n]
    &&& forall|k: int| 0 <= k < order.len() ==> domain_turn(before[(#[trigger] order[k])@], mids[order[k]@], gas, cycle, turns[k])
    &&& messages_view(out) == turns_sent(turns)
    &&& forall|n: Seq<char>| #[trigger] before.contains_key(n) ==> {
        &&& only_delivered(mids[n], after[n])
        &&& after[n].mailbox@ == boxes[n]
        &&& after[n].is_quiescent == (mids[n].is_quiescent && !addressed_to(out, n))
    }
    &&& c.active == (any_worked(turns) || delivered)
    &&& c.lines == turns_lines(turns) + route_lines
    &&& c.events == turns_events(turns) + route_events
    &&& c.low == any_low(turns)
}

/// Cycle `cycle`, with slices of `gas` instructions, takes the domains from
/// `before` to `after` and shows `c`.
pub open spec fn cycle_effect(
    before: Map<Seq<char>, DomainInstance>,
    after: Map<Seq<char>, DomainInstance>,
    cycle: usize,
    gas: usize,
    c: CycleView,
) -> bool {
    exists|order: Seq<String>, mids: Map<Seq<char>, DomainInstance>, turns: Seq<TurnView>, out: Seq<Message>|
        #[trigger] cycle_witness(before, after, cycle, gas, c, order, mids, turns, out)
}

/// The trace lines that the cycles `cs` logged, one cycle after the other.
pub open spec fn cycles_lines(cs: Seq<CycleView>) -> Seq<Seq<char>>
    decreases cs.len(),
{
    if cs.len() == 0 { Seq::empty() } else { cycles_lines(cs.drop_last()) + cs.last().lines }
}

/// The tracer events that the cycles `cs` recorded, one cycle after the
/// other.
pub open spec fn cycles_events(cs: Seq<CycleView>) -> Seq<EventView>
    decreases cs.len(),
{
    if cs.len() == 0 { Seq::empty() } else { cycles_events(cs.drop_last()) + cs.last().events }
}

/// What a run shows: how many cycles it ran, whether it converged, its
/// trace lines, the tracer events it recorded, and whether it took a
/// normal-priority message.
pub struct RunView {
    pub steps: usize,
    pub converged: bool,
    pub lines: Seq<Seq<char>>,
    pub events: Seq<EventView>,
    pub low: bool,
}

/// A run of `r.steps` cycles, numbered from 1, took the domains from
/// `before` to `after` through the registries `regs`, cycle `i + 1` showing
/// `cs[i]`. Every cycle but the last did work; the run converged exactly
/// when its last cycle did none, and otherwise it stopped at `max_cycles`.
/// Its trace is the start line, the lines of the cycles in order, the halt
/// line if it did not converge, and the end line; its events are those of
/// the cycles in order.
pub open spec fn run_witness(
    before: Map<Seq<char>, DomainInstance>,
    after: Map<Seq<char>, DomainInstance>,
    gas: usize,
    max_cycles: usize,
    r: RunView,
    regs: Seq<Map<Seq<char>, DomainInstance>>,
    cs: Seq<CycleView>,
) -> bool {
    &&& r.steps <= max_cycles
    &&& regs.len() == r.steps + 1
    &&& cs.len() == r.steps
    &&& regs[0] == before
    &&& regs[r.steps as int] == after
    &&& forall|i: int| 0 <= i < r.steps ==> cycle_effect(#[trigger] regs[i], regs[i + 1], (i + 1) as usize, gas, cs[i])
    &&& forall|i: int| 0 <= i < r.steps - 1 ==> (#[trigger] cs[i]).active
    &&& r.converged == (r.steps > 0 && !cs[r.steps - 1].active)
    &&& !r.converged ==> r.steps == max_cycles
    &&& r.lines == seq![start_line()] + cycles_lines(cs)
        + if r.converged { seq![end_line()] } else { seq![halt_line(max_cycles), end_line()] }
    &&& r.events == cycles_events(cs)
    &&& r.low == exists|i: int| 0 <= i < r.steps && (#[trigger] cs[i]).low
}

/// A run with slices of `gas` instructions and at most `max_cycles` cycles
/// took the domains from `before` to `after` and showed `r`.
pub open spec fn run_effect(
    before: Map<Seq<char>, DomainInstance>,
    after: Map<Seq<char>, DomainInstance>,
    gas: usize,
    max_cycles: usize,
    r: RunView,
) -> bool {
    exists|regs: Seq<Map<Seq<char>, DomainInstance>>, cs: Seq<CycleView>|
        #[trigger] run_witness(before, after, gas, max_cycles, r, regs, cs)
}

/// The trace lines and tracer events of routing `msgs` in order over
/// `boxes`: a line and an event for each message, and a second line for
/// each one that is handed back.
pub open spec fn route_reports(boxes: Map<Seq<char>, MailboxView>, msgs: Seq<Message>, cycle: usize) -> (Seq<Seq<char>>, Seq<EventView>)
    decreases msgs.len(),
{
    if msgs.len() == 0 {
        (Seq::empty(), Seq::empty())
    } else {
        let (lines, events) = route_reports(boxes, msgs.drop_last(), cycle);
        let b = routed(boxes, msgs.drop_last()).0;
        let m = msgs.last();
        let t = m.target_domain@;
        let line = tagged(cycle, "Routing message -> [Target: "@ + t + ", Payload: "@ + m.payload@
            + (", Priority: "@ + crate::text::int_text(m.priority as int) + ", Clock: "@ + crate::text::int_text(m.clock as int) + "]"@));
        let e = event_of(cycle, "SYSTEM"@, "ROUTING_MESSAGE"@, "Payload: "@ + m.payload@ + ", Target: "@ + t);
        if b.contains_key(t) && !mailbox_full(b[t]) {
            (lines.push(line), events.push(e))
        } else {
            (lines.push(line).push(tagged(cycle, "ROUTING ERROR (Mailbox Full): "@ + message_debug_text(m@))), events.push(e))
        }
    }
}

/// What `{:?}` prints for a message (the derived `Debug` layout).
pub uninterp spec fn message_debug_text(m: MessageView) -> Seq<char>;

/// `format!("{:?}", m)` on a message; the text is named by
/// `message_debug_text`.
#[verifier::external_body]
fn debug_text(m: &Message) -> (s: String)
    ensures
        s@ == message_debug_text(m@),
{
    format!("{:?}", m)
}

impl Scheduler {
    /// One domain's turn in a cycle: its goals, then its suspended
    /// transition or next message, then whether it falls asleep. Messages
    /// that it sends are collected in `outgoing`; its trace lines and tracer
    /// events are those of `domain_turn`.
    #[verifier::rlimit(40)]
    fn run_domain(
        &mut self,
        name: &String,
        run: &mut RunState,
        outgoing: &mut Vec<Message>,
        gas: usize,
    )
        ensures
            final(self).domains().dom() == old(self).domains().dom(),
            forall|n: Seq<char>| n != name@ ==> #[trigger] final(self).domains()[n] == old(self).domains()[n],
            old(self).domains().contains_key(name@) ==> exists|t: TurnView|
                #[trigger] domain_turn(old(self).domains()[name@], final(self).domains()[name@], gas, old(run).cycle, t)
                && messages_view(final(outgoing)@.subrange(old(outgoing)@.len() as int, final(outgoing)@.len() as int)) == t.sent
                && final(run).active == (old(run).active || t.worked)
                && texts(final(run).result.trace@) == texts(old(run).result.trace@) + t.lines
                && final(self).events() == old(self).events() + t.events
                && final(run).result.low_priority_executed == (old(run).result.low_priority_executed || t.low),
            !old(self).domains().contains_key(name@) ==> {
                &&& final(outgoing)@ == old(outgoing)@
                &&& final(run).active == old(run).active
                &&& final(run).result.trace@ == old(run).result.trace@
                &&& final(self).events() == old(self).events()
                &&& final(run).result.low_priority_executed == old(run).result.low_priority_executed
            },
            old(run).result.trace@.is_prefix_of(final(run).result.trace@),
            old(self).events().is_prefix_of(final(self).events()),
            final(run).cycle == old(run).cycle,
            final(run).finished == old(run).finished,
            final(run).result.steps == old(run).result.steps,
            final(run).result.converged == old(run).result.converged,
            final(run).result.warning_detected == old(run).result.warning_detected,
            old(run).active ==> final(run).active,
            old(outgoing)@.is_prefix_of(final(outgoing)@),
    {
        reveal(domain_turn);
        reveal(turn_view);
        let cycle = run.cycle;
        let ghost doms0 = self.registry.domains();
        let ghost out0 = outgoing@;
        let ghost act0 = run.active;
        let ghost low0 = run.result.low_priority_executed;
        let ghost tr0 = run.result.trace@;
        let ghost ev0 = self.events();
        let ghost mut tv = TurnView { sent: Seq::empty(), worked: false, lines: Seq::empty(), events: Seq::empty(), low: false };
        match self.registry.get_mut(name.as_str()) {
            Some(d) => {
                let ghost d0 = *d;
                let ghost tc0 = self.tracer@;
                let goals_failed = run_goals(d, &mut self.tracer, &mut run.result.trace, &mut run.active, cycle, gas);
                let ghost d1 = *d;
                let w = take_work(d, &mut self.tracer, &mut run.result.trace, &mut run.active,
                    &mut run.result.low_priority_executed, cycle);
                let ghost d2 = *d;
                let ghost wv = w@;
                proof {
                    if w.transition is Some {
                        assert(w.transition->0 < d.bytecode.transitions.len());
                    }
                }
                run_work(d, &mut self.tracer, &mut run.result.trace, outgoing, w, cycle, gas);
                let ghost d3 = *d;
                let ghost tr3 = run.result.trace@;
                if d.mailbox.is_empty() && d.suspended_context.is_none() && !goals_failed {
                    d.is_quiescent = true;
                    push_line(&mut run.result.trace, tag_line(cycle, join3("Domain '", d.name.as_str(), "' entered deterministic quiescent sleep state.").as_str()));
                }
                proof {
                    let failed = some_goal_fails(d0.bytecode.goals@, d0.schema@, d0.state@, gas);
                    assert(goals_done(d0, d1, gas) && work_picked(d1, d2, wv) && work_done(d2, d3, wv, gas));
                    assert(sleep_after(d3, *d, failed));
                    tv = turn_view(d0, d1, d2, wv, d3, gas, cycle);
                    assert(domain_turn(d0, *d, gas, cycle, tv));
                    assert(run.active == (act0 || tv.worked));
                    assert(messages_view(outgoing@.subrange(out0.len() as int, outgoing@.len() as int)) == tv.sent);
                    assert(outgoing@.subrange(0, out0.len() as int) == out0);
                    assert(out0.is_prefix_of(outgoing@));
                    assert(texts(tr3) + sleep_report(d3, failed, cycle) =~= texts(run.result.trace@));
                    assert(texts(run.result.trace@) =~= texts(tr0) + tv.lines);
                    assert(self.tracer@ =~= tc0 + tv.events);
                    assert(run.result.low_priority_executed == (low0 || tv.low));
                }
            },
            None => {},
        }
        proof {
            assert(self.registry.domains().dom() =~= doms0.dom());
            if doms0.contains_key(name@) {
                assert(domain_turn(doms0[name@], self.domains()[name@], gas, cycle, tv));
            }
        }
    }

    /// Hands the messages of a cycle to their targets, in order. A delivered
    /// message makes the cycle active; each one is logged, and a refused one
    /// twice (`route_reports`).
    fn route_all(&mut self, outgoing: Vec<Message>, run: &mut RunState)
        ensures
            final(self).domains().dom() == old(self).domains().dom(),
            forall|n: Seq<char>| #[trigger] old(self).domains().contains_key(n) ==> only_delivered(old(self).domains()[n], final(self).domains()[n]),
            old(run).result.trace@.is_prefix_of(final(run).result.trace@),
            old(self).events().is_prefix_of(final(self).events()),
            final(run).cycle == old(run).cycle,
            final(run).finished == old(run).finished,
            final(run).result.steps == old(run).result.steps,
            final(run).result.converged == old(run).result.converged,
            final(run).result.warning_detected == old(run).result.warning_detected,
            final(run).result.low_priority_executed == old(run).result.low_priority_executed,
            old(run).active ==> final(run).active,
            forall|n: Seq<char>| #[trigger] old(self).domains().contains_key(n) ==> final(self).domains()[n].mailbox@
                == routed(mailboxes_of(old(self).domains()), outgoing@).0[n],
            forall|n: Seq<char>| #[trigger] old(self).domains().contains_key(n) ==> final(self).domains()[n].is_quiescent
                == (old(self).domains()[n].is_quiescent && !addressed_to(outgoing@, n)),
            final(run).active == (old(run).active || routed(mailboxes_of(old(self).domains()), outgoing@).1),
            final(run).result.trace@.len() == old(run).result.trace@.len() + outgoing@.len()
                + routed(mailboxes_of(old(self).domains()), outgoing@).2,
            final(self).events().len() == old(self).events().len() + outgoing@.len(),
            texts(final(run).result.trace@) == texts(old(run).result.trace@)
                + route_reports(mailboxes_of(old(self).domains()), outgoing@, old(run).cycle).0,
            final(self).events() == old(self).events() + route_reports(mailboxes_of(old(self).domains()), outgoing@, old(run).cycle).1,
    {
        let cycle = run.cycle;
        let ghost mb0 = mailboxes_of(self.domains());
        let mut i: usize = 0;
        assert(outgoing@.subrange(0, 0) =~= Seq::<Message>::empty());
        while i < outgoing.len()
            invariant
                i <= outgoing.len(),
                mb0 == mailboxes_of(old(self).domains()),
                routed(mb0, outgoing@.subrange(0, i as int)).0.dom() == mb0.dom(),
                forall|n: Seq<char>| #[trigger] old(self).domains().contains_key(n) ==> self.domains()[n].mailbox@
                    == routed(mb0, outgoing@.subrange(0, i as int)).0[n],
                forall|n: Seq<char>| #[trigger] old(self).domains().contains_key(n) ==> self.domains()[n].is_quiescent
                    == (old(self).domains()[n].is_quiescent && !addressed_to(outgoing@.subrange(0, i as int), n)),
                run.active == (old(run).active || routed(mb0, outgoing@.subrange(0, i as int)).1),
                run.result.trace@.len() == old(run).result.trace@.len() + i + routed(mb0, outgoing@.subrange(0, i as int)).2,
                self.events().len() == old(self).events().len() + i,
                texts(run.result.trace@) == texts(old(run).result.trace@) + route_reports(mb0, outgoing@.subrange(0, i as int), cycle).0,
                self.events() == old(self).events() + route_reports(mb0, outgoing@.subrange(0, i as int), cycle).1,
                cycle == run.cycle,
                self.domains().dom() == old(self).domains().dom(),
                forall|n: Seq<char>| #[trigger] old(self).domains().contains_key(n) ==> only_delivered(old(self).domains()[n], self.domains()[n]),
                old(run).result.trace@.is_prefix_of(run.result.trace@),
                old(self).events().is_prefix_of(self.events()),
                run.cycle == old(run).cycle,
                run.finished == old(run).finished,
                run.result.steps == old(run).result.steps,
                run.result.converged == old(run).result.converged,
                run.result.warning_detected == old(run).result.warning_detected,
                run.result.low_priority_executed == old(run).result.low_priority_executed,
                old(run).active ==> run.active,
            decreases outgoing.len() - i,
        {
            let ghost tr0 = run.result.trace@;
            let ghost ev0 = self.events();
            let ghost dom0 = self.domains();
            let ghost pre = outgoing@.subrange(0, i as int);
            let ghost nxt = outgoing@.subrange(0, i + 1);
            proof {
                assert(nxt.drop_last() =~= pre);
                lemma_routed_dom(mb0, nxt);
            }
            let msg = outgoing[i].clone();
            let details = join4("Payload: ", msg.payload.as_str(), ", Target: ", msg.target_domain.as_str());
            self.tracer.record(cycle, "SYSTEM", "ROUTING_MESSAGE", details.as_str());
            let tail = join5(", Priority: ", u64_text(msg.priority as u64).as_str(), ", Clock: ", u64_text(msg.clock).as_str(), "]");
            push_line(&mut run.result.trace, tag_line(cycle, join5("Routing message -> [Target: ", msg.target_domain.as_str(), ", Payload: ",
                msg.payload.as_str(), tail.as_str()).as_str()));
            match self.registry.route_message(msg) {
                Ok(()) => {
                    run.active = true;
                },
                Err(e) => {
                    push_line(&mut run.result.trace, tag_line(cycle, join2("ROUTING ERROR (Mailbox Full): ", debug_text(&e).as_str()).as_str()));
                },
            }
            proof {
                assert(tr0.is_prefix_of(run.result.trace@));
                assert(ev0.is_prefix_of(self.events()));
                assert(self.domains().dom() =~= dom0.dom());
                assert forall|n: Seq<char>| #[trigger] old(self).domains().contains_key(n) implies only_delivered(old(self).domains()[n], self.domains()[n]) by {
                    let d0 = old(self).domains()[n];
                    let d1 = dom0[n];
                    let d2 = self.domains()[n];
                    assert(only_delivered(d0, d1));
                    if n == msg.target_domain@ {
                        if !mailbox_full(d1.mailbox@) {
                            assert(d1.mailbox@.high.is_prefix_of(d2.mailbox@.high));
                            assert(d1.mailbox@.normal.is_prefix_of(d2.mailbox@.normal));
                        }
                    }
                    assert(d0.mailbox@.high.is_prefix_of(d2.mailbox@.high));
                    assert(d0.mailbox@.normal.is_prefix_of(d2.mailbox@.normal));
                }
                let b = routed(mb0, pre).0;
                let t = msg.target_domain@;
                assert(nxt.last() == msg);
                assert(b.contains_key(t) == dom0.contains_key(t));
                if dom0.contains_key(t) {
                    assert(b[t] == dom0[t].mailbox@);
                }
                assert forall|n: Seq<char>| #[trigger] old(self).domains().contains_key(n) implies self.domains()[n].mailbox@
                    == routed(mb0, nxt).0[n] by {
                    if n != t {
                        assert(self.domains()[n] == dom0[n]);
                    }
                }
                assert forall|n: Seq<char>| #[trigger] old(self).domains().contains_key(n) implies self.domains()[n].is_quiescent
                    == (old(self).domains()[n].is_quiescent && !addressed_to(nxt, n)) by {
                    if addressed_to(pre, n) {
                        let j = choose|j: int| 0 <= j < pre.len() && #[trigger] pre[j].target_domain@ == n;
                        assert(nxt[j] == pre[j]);
                    }
                    if n == t {
                        assert(nxt[i as int].target_domain@ == n);
                    } else {
                        assert(self.domains()[n] == dom0[n]);
                        if addressed_to(nxt, n) {
                            let j = choose|j: int| 0 <= j < nxt.len() && #[trigger] nxt[j].target_domain@ == n;
                            assert(j < i);
                            assert(pre[j] == nxt[j]);
                        }
                    }
                }
                assert(texts(run.result.trace@) =~= texts(old(run).result.trace@) + route_reports(mb0, nxt, cycle).0);
                assert(self.events() =~= old(self).events() + route_reports(mb0, nxt, cycle).1);
            }
            i = i + 1;
        }
        assert(outgoing@.subrange(0, i as int) =~= outgoing@);
    }
}

impl Scheduler {
    /// A run that has done no cycle yet; its trace opens with the start line.
    pub fn start_run(&self) -> (run: RunState)
        ensures
            run.cycle == 0,
            run.active,
            !run.finished,
            run.result.converged,
            !run.result.warning_detected,
            !run.result.low_priority_executed,
            run.result.steps == 0,
            run.result.trace@.len() == 1,
            run.result.trace@[0]@ == start_line(),
    {
        let mut trace: Vec<String> = Vec::new();
        trace.push(String::from_str("[Scheduler] Starting execution loop..."));
        RunState {
            cycle: 0,
            active: true,
            finished: false,
            result: ExecutionResult {
                converged: true,
                steps: 0,
                low_priority_executed: false,
                warning_detected: false,
                trace,
            },
        }
    }

    /// Advances `run` by one cycle, or ends it: a run ends when the last
    /// cycle did no work (it converged), or, while there is still work, when
    /// `max_cycles` cycles are done (it halts with a warning). In a cycle the
    /// awake domains take their turns in urgency order, and the messages they
    /// sent are then routed to their targets; the cycle's trace lines,
    /// tracer events and low-priority flag are those `cycle_effect` gives. A
    /// cycle that did work asks for a snapshot when `snapshots` is set.
    pub fn step(&mut self, run: &mut RunState, max_cycles: usize, gas: usize, snapshots: bool) -> (a: CycleAction)
        requires
            !old(run).finished,
            old(run).cycle <= max_cycles,
            old(run).result.steps == old(run).cycle,
            old(run).result.converged == !old(run).result.warning_detected,
        ensures
            final(run).cycle <= max_cycles,
            final(run).result.steps == final(run).cycle,
            final(run).result.converged == !final(run).result.warning_detected,
            (a is Finished) == final(run).finished,
            old(run).result.trace@.is_prefix_of(final(run).result.trace@),
            old(self).events().is_prefix_of(final(self).events()),
            final(self).domains().dom() == old(self).domains().dom(),
            !old(run).active ==> {
                &&& a is Finished
                &&& *final(self) == *old(self)
                &&& final(run).cycle == old(run).cycle
                &&& final(run).result.converged == old(run).result.converged
                &&& final(run).result.trace@.len() == old(run).result.trace@.len() + 1
                &&& final(run).result.trace@.last()@ == end_line()
                &&& texts(final(run).result.trace@) == texts(old(run).result.trace@).push(end_line())
                &&& final(run).result.low_priority_executed == old(run).result.low_priority_executed
            },
            old(run).active && old(run).cycle >= max_cycles ==> {
                &&& a is Finished
                &&& *final(self) == *old(self)
                &&& final(run).cycle == old(run).cycle
                &&& !final(run).result.converged
                &&& final(run).result.trace@.len() == old(run).result.trace@.len() + 2
                &&& final(run).result.trace@[final(run).result.trace@.len() - 2]@ == halt_line(max_cycles)
                &&& final(run).result.trace@.last()@ == end_line()
                &&& texts(final(run).result.trace@) == texts(old(run).result.trace@).push(halt_line(max_cycles)).push(end_line())
                &&& final(run).result.low_priority_executed == old(run).result.low_priority_executed
            },
            old(run).active && old(run).cycle < max_cycles ==> {
                &&& !(a is Finished)
                &&& final(run).cycle == old(run).cycle + 1
                &&& final(run).result.converged == old(run).result.converged
                &&& (a is SaveSnapshot <==> snapshots && final(run).active)
                &&& a matches CycleAction::SaveSnapshot(c) ==> c == final(run).cycle
                &&& exists|c: CycleView| #[trigger] cycle_effect(old(self).domains(), final(self).domains(), final(run).cycle, gas, c)
                    && c.active == final(run).active
                    && texts(final(run).result.trace@) == texts(old(run).result.trace@) + c.lines
                    && final(self).events() == old(self).events() + c.events
                    && final(run).result.low_priority_executed == (old(run).result.low_priority_executed || c.low)
            },
    {
        if !run.active {
            push_line(&mut run.result.trace, String::from_str("[Scheduler] Quiescent state reached. Halting."));
            run.finished = true;
            return CycleAction::Finished;
        }
        if run.cycle >= max_cycles {
            push_line(&mut run.result.trace, join3("[Scheduler] HALT: Max cycles ", usize_text(max_cycles).as_str(),
                " reached. Stopping to prevent infinite loop."));
            run.result.converged = false;
            run.result.warning_detected = true;
            push_line(&mut run.result.trace, String::from_str("[Scheduler] Quiescent state reached. Halting."));
            run.finished = true;
            return CycleAction::Finished;
        }
        run.active = false;
        run.cycle = run.cycle + 1;
        run.result.steps = run.result.steps + 1;
        let order = self.cycle_order(run.cycle as u64);
        let mut outgoing: Vec<Message> = Vec::new();
        let ghost run1 = *run;
        let ghost mut turns: Seq<TurnView> = Seq::empty();
        let mut i: usize = 0;
        while i < order.len()
            invariant
                i <= order.len(),
                run.cycle == run1.cycle,
                run.finished == run1.finished,
                run.result.steps == run1.result.steps,
                run.result.converged == run1.result.converged,
                run.result.warning_detected == run1.result.warning_detected,
                run1.result.trace@.is_prefix_of(run.result.trace@),
                old(self).events().is_prefix_of(self.events()),
                self.domains().dom() == old(self).domains().dom(),
                cycle_order(old(self).domains(), run.cycle as u64, order@),
                turns.len() == i,
                messages_view(outgoing@) == turns_sent(turns),
                run.active == any_worked(turns),
                texts(run.result.trace@) == texts(run1.result.trace@) + turns_lines(turns),
                self.events() == old(self).events() + turns_events(turns),
                run.result.low_priority_executed == (run1.result.low_priority_executed || any_low(turns)),
                forall|n: Seq<char>| #[trigger] old(self).domains().contains_key(n) && old(self).domains()[n].is_quiescent
                    ==> self.domains()[n] == old(self).domains()[n],
                forall|k: int| 0 <= k < i ==> domain_turn(old(self).domains()[(#[trigger] order@[k])@], self.domains()[order@[k]@], gas,
                    run.cycle, turns[k]),
                forall|n: Seq<char>| #[trigger] old(self).domains().contains_key(n)
                    && (forall|k: int| 0 <= k < i ==> order@[k]@ != n) ==> self.domains()[n] == old(self).domains()[n],
            decreases order.len() - i,
        {
            let ghost before = self.domains();
            let ghost out0 = outgoing@;
            let ghost act0 = run.active;
            let ghost low0 = run.result.low_priority_executed;
            let ghost trb = run.result.trace@;
            let ghost evb = self.events();
            proof {
                assert(old(self).domains().contains_key(order@[i as int]@) && !old(self).domains()[order@[i as int]@].is_quiescent);
                let u = |n: Seq<char>| urgency(old(self).domains()[n], run.cycle as u64);
                assert forall|k: int| 0 <= k < i implies order@[k]@ != order@[i as int]@ by {
                    assert(runs_before(u(order@[k]@), order@[k]@, u(order@[i as int]@), order@[i as int]@));
                    if order@[k]@ == order@[i as int]@ {
                        lemma_runs_before_irreflexive(u(order@[k]@), order@[k]@);
                    }
                }
                assert(before[order@[i as int]@] == old(self).domains()[order@[i as int]@]);
            }
            self.run_domain(&order[i], run, &mut outgoing, gas);
            proof {
                let nm = order@[i as int]@;
                let t: TurnView = choose|t: TurnView|
                    #[trigger] domain_turn(before[nm], self.domains()[nm], gas, run.cycle, t)
                    && messages_view(outgoing@.subrange(out0.len() as int, outgoing@.len() as int)) == t.sent
                    && run.active == (act0 || t.worked)
                    && texts(run.result.trace@) == texts(trb) + t.lines
                    && self.events() == evb + t.events
                    && run.result.low_priority_executed == (low0 || t.low);
                let turns0 = turns;
                turns = turns.push(t);
                assert(turns.drop_last() =~= turns0);
                let tail = outgoing@.subrange(out0.len() as int, outgoing@.len() as int);
                assert(outgoing@ =~= out0 + tail);
                assert(messages_view(out0 + tail) =~= messages_view(out0) + messages_view(tail));
                assert(texts(run.result.trace@) =~= texts(run1.result.trace@) + turns_lines(turns));
                assert(self.events() =~= old(self).events() + turns_events(turns));
                assert(any_worked(turns) == (any_worked(turns0) || t.worked)) by {
                    if any_worked(turns0) {
                        let j = choose|j: int| 0 <= j < turns0.len() && #[trigger] turns0[j].worked;
                        assert(turns[j] == turns0[j]);
                    }
                    if t.worked {
                        assert(turns[i as int] == t);
                    }
                    if any_worked(turns) {
                        let j = choose|j: int| 0 <= j < turns.len() && #[trigger] turns[j].worked;
                        if j < i {
                            assert(turns0[j] == turns[j]);
                        }
                    }
                }
                assert(any_low(turns) == (any_low(turns0) || t.low)) by {
                    if any_low(turns0) {
                        let j = choose|j: int| 0 <= j < turns0.len() && #[trigger] turns0[j].low;
                        assert(turns[j] == turns0[j]);
                    }
                    if t.low {
                        assert(turns[i as int] == t);
                    }
                    if any_low(turns) {
                        let j = choose|j: int| 0 <= j < turns.len() && #[trigger] turns[j].low;
                        if j < i {
                            assert(turns0[j] == turns[j]);
                        }
                    }
                }
                let u = |n: Seq<char>| urgency(old(self).domains()[n], run.cycle as u64);
                assert forall|k: int| 0 <= k < i + 1 implies domain_turn(old(self).domains()[(#[trigger] order@[k])@],
                    self.domains()[order@[k]@], gas, run.cycle, turns[k]) by {
                    if k < i {
                        assert(runs_before(u(order@[k]@), order@[k]@, u(order@[i as int]@), order@[i as int]@));
                        if order@[k]@ == order@[i as int]@ {
                            lemma_runs_before_irreflexive(u(order@[k]@), order@[k]@);
                        }
                        assert(turns[k] == turns0[k]);
                    }
                }
            }
            i = i + 1;
        }
        let ghost pre = self.domains();
        let ghost out = outgoing@;
        self.route_all(outgoing, run);
        proof {
            let route = route_reports(mailboxes_of(pre), out, run.cycle);
            let c = CycleView {
                active: run.active,
                lines: turns_lines(turns) + route.0,
                events: turns_events(turns) + route.1,
                low: any_low(turns),
            };
            reveal(cycle_witness);
            assert(cycle_witness(old(self).domains(), self.domains(), run.cycle, gas, c, order@, pre, turns, out));
            assert(cycle_effect(old(self).domains(), self.domains(), run.cycle, gas, c));
            assert(texts(run.result.trace@) =~= texts(old(run).result.trace@) + c.lines);
            assert(self.events() =~= old(self).events() + c.events);
        }
        if snapshots && run.active {
            CycleAction::SaveSnapshot(run.cycle)
        } else {
            CycleAction::Continue
        }
    }

    /// Logs how persisting the snapshot of cycle `cycle` went.
    pub fn note_snapshot(run: &mut RunState, cycle: usize, outcome: Result<(), String>)
        ensures
            *final(run) == (RunState { result: final(run).result, ..*old(run) }),
            final(run).result.trace@.len() == old(run).result.trace@.len() + 1,
            old(run).result.trace@.is_prefix_of(final(run).result.trace@),
            cycle_tag_text(cycle).is_prefix_of(final(run).result.trace@.last()@),
            outcome is Ok ==> final(run).result.trace@.last()@ == tagged(cycle, "Snapshot saved successfully."@),
            outcome matches Err(e) ==> final(run).result.trace@.last()@ == tagged(cycle, "SNAPSHOT ERROR: "@ + e@),
            final(run).result.steps == old(run).result.steps,
            final(run).result.converged == old(run).result.converged,
            final(run).result.warning_detected == old(run).result.warning_detected,
            final(run).result.low_priority_executed == old(run).result.low_priority_executed,
    {
        match outcome {
            Ok(()) => push_line(&mut run.result.trace, tag_line(cycle, "Snapshot saved successfully.")),
            Err(e) => push_line(&mut run.result.trace, tag_line(cycle, join2("SNAPSHOT ERROR: ", e.as_str()).as_str())),
        }
    }

    /// The result of a run.
    pub fn finish(run: RunState) -> (r: ExecutionResult)
        ensures
            r == run.result,
    {
        run.result
    }

    /// Runs cycles until no domain has work left or `max_cycles` cycles are
    /// done, and returns what happened, with the full trace. Each cycle is
    /// one `step`: the awake domains take their turns in urgency order and
    /// the messages they sent are routed at its end. The run converged when
    /// its last cycle did no work; a run still busy after `max_cycles` cycles
    /// halts with a warning. The trace, the tracer events and the
    /// low-priority flag are those `run_effect` gives.
    pub fn execute_until_quiescent(&mut self, max_cycles: usize, slice_gas_limit: usize) -> (r: ExecutionResult)
        ensures
            exists|rv: RunView| #[trigger] run_effect(old(self).domains(), final(self).domains(), slice_gas_limit, max_cycles, rv)
                && rv.steps == r.steps && rv.converged == r.converged && rv.lines == texts(r.trace@)
                && final(self).events() == old(self).events() + rv.events && rv.low == r.low_priority_executed,
            r.steps <= max_cycles,
            r.converged == !r.warning_detected,
            !r.converged ==> r.steps == max_cycles,
            r.trace@.len() >= 2,
            r.trace@[0]@ == start_line(),
            r.trace@.last()@ == end_line(),
            !r.converged ==> r.trace@[r.trace@.len() - 2]@ == halt_line(max_cycles),
            final(self).domains().dom() == old(self).domains().dom(),
    {
        let mut run = self.start_run();
        let mut done = false;
        let ghost mut regs: Seq<Map<Seq<char>, DomainInstance>> = seq![self.domains()];
        let ghost mut cs: Seq<CycleView> = Seq::empty();
        proof {
            assert(texts(run.result.trace@) =~= seq![start_line()] + cycles_lines(cs));
            assert(self.events() =~= old(self).events() + cycles_events(cs));
        }
        while !done
            invariant
                done == run.finished,
                run.cycle <= max_cycles,
                run.result.steps == run.cycle,
                run.result.converged == !run.result.warning_detected,
                run.result.trace@.len() >= 1,
                run.result.trace@[0]@ == start_line(),
                done ==> run.result.trace@.len() >= 2 && run.result.trace@.last()@ == end_line(),
                done && !run.result.converged ==> run.result.steps == max_cycles
                    && run.result.trace@[run.result.trace@.len() - 2]@ == halt_line(max_cycles),
                !done ==> run.result.converged,
                self.domains().dom() == old(self).domains().dom(),
                regs.len() == run.cycle + 1,
                cs.len() == run.cycle,
                regs[0] == old(self).domains(),
                regs[run.cycle as int] == self.domains(),
                forall|i: int| 0 <= i < run.cycle ==> cycle_effect(#[trigger] regs[i], regs[i + 1], (i + 1) as usize, slice_gas_limit, cs[i]),
                forall|i: int| 0 <= i < run.cycle - 1 ==> (#[trigger] cs[i]).active,
                !done ==> run.active == (run.cycle == 0 || cs[run.cycle - 1].active),
                done ==> run.result.converged == (run.cycle > 0 && !cs[run.cycle - 1].active),
                !done ==> texts(run.result.trace@) == seq![start_line()] + cycles_lines(cs),
                done ==> texts(run.result.trace@) == seq![start_line()] + cycles_lines(cs)
                    + if run.result.converged { seq![end_line()] } else { seq![halt_line(max_cycles), end_line()] },
                self.events() == old(self).events() + cycles_events(cs),
                run.result.low_priority_executed == exists|i: int| 0 <= i < run.cycle && (#[trigger] cs[i]).low,
            decreases max_cycles - run.cycle + if done { 0int } else { 1int },
        {
            let ghost t0 = run.result.trace@;
            let ghost c0 = run.cycle;
            let ghost regs0 = regs;
            let ghost cs0 = cs;
            let ghost ev0 = self.events();
            let ghost low0 = run.result.low_priority_executed;
            let a = self.step(&mut run, max_cycles, slice_gas_limit, false);
            proof {
                assert(t0[0] == run.result.trace@[0]);
                if run.cycle != c0 {
                    let c: CycleView = choose|c: CycleView| #[trigger] cycle_effect(regs0[c0 as int], self.domains(), run.cycle, slice_gas_limit, c)
                        && c.active == run.active
                        && texts(run.result.trace@) == texts(t0) + c.lines
                        && self.events() == ev0 + c.events
                        && run.result.low_priority_executed == (low0 || c.low);
                    regs = regs.push(self.domains());
                    cs = cs.push(c);
                    assert(cs.drop_last() =~= cs0);
                    assert(texts(run.result.trace@) =~= seq![start_line()] + cycles_lines(cs));
                    assert(self.events() =~= old(self).events() + cycles_events(cs));
                    assert forall|i: int| 0 <= i < run.cycle implies cycle_effect(#[trigger] regs[i], regs[i + 1], (i + 1) as usize,
                        slice_gas_limit, cs[i]) by {
                        if i < c0 {
                            assert(regs[i] == regs0[i] && regs[i + 1] == regs0[i + 1] && cs[i] == cs0[i]);
                        }
                    }
                    assert forall|i: int| 0 <= i < run.cycle - 1 implies (#[trigger] cs[i]).active by {
                        assert(cs[i] == cs0[i]);
                    }
                    assert(run.result.low_priority_executed == exists|i: int| 0 <= i < run.cycle && (#[trigger] cs[i]).low) by {
                        if low0 {
                            let j = choose|j: int| 0 <= j < c0 && (#[trigger] cs0[j]).low;
                            assert(cs[j] == cs0[j]);
                        }
                        if c.low {
                            assert(cs[c0 as int] == c);
                        }
                        if exists|i: int| 0 <= i < run.cycle && (#[trigger] cs[i]).low {
                            let j = choose|j: int| 0 <= j < run.cycle && (#[trigger] cs[j]).low;
                            if j < c0 {
                                assert(cs0[j] == cs[j]);
                            }
                        }
                    }
                } else {
                    if run.result.converged {
                        assert(texts(run.result.trace@) =~= seq![start_line()] + cycles_lines(cs) + seq![end_line()]);
                    } else {
                        assert(texts(run.result.trace@) =~= seq![start_line()] + cycles_lines(cs) + seq![halt_line(max_cycles), end_line()]);
                    }
                }
            }
            if let CycleAction::Finished = a {
                done = true;
            }
        }
        let ghost doms = self.domains();
        let ghost ev = self.events();
        let r = Self::finish(run);
        proof {
            let rv = RunView {
                steps: r.steps,
                converged: r.converged,
                lines: texts(r.trace@),
                events: cycles_events(cs),
                low: r.low_priority_executed,
            };
            assert(run_witness(old(self).domains(), doms, slice_gas_limit, max_cycles, rv, regs, cs));
            assert(run_effect(old(self).domains(), doms, slice_gas_limit, max_cycles, rv));
        }
        r
    }
}

/// The names of `s`, as character sequences.
pub open spec fn names_of(s: Seq<String>) -> Seq<Seq<char>> {
    s.map_values(|x: String| x@)
}

/// `s` is in `runs_before` order for the urgencies `u`.
pub open spec fn in_run_order(s: Seq<Seq<char>>, u: spec_fn(Seq<char>) -> u64) -> bool {
    forall|i: int, j: int| 0 <= i < j < s.len() ==> runs_before(u(#[trigger] s[i]), s[i], u(#[trigger] s[j]), s[j])
}

proof fn lemma_run_order_unique(s1: Seq<Seq<char>>, s2: Seq<Seq<char>>, u: spec_fn(Seq<char>) -> u64)
    requires
        in_run_order(s1, u),
        in_run_order(s2, u),
        forall|x: Seq<char>| s1.contains(x) <==> s2.contains(x),
    ensures
        s1 == s2,
    decreases s1.len(),
{
    if s1.len() == 0 {
        if s2.len() > 0 {
            assert(s2.contains(s2[0]));
        }
        assert(s1 =~= s2);
    } else if s2.len() == 0 {
        assert(s1.contains(s1[0]));
    } else {
        let a = s1[0];
        let b = s2[0];
        if a != b {
            assert(s1.contains(b)) by {
                assert(s2.contains(b));
            }
            assert(s2.contains(a)) by {
                assert(s1.contains(a));
            }
            let q = choose|q: int| 0 <= q < s1.len() && s1[q] == b;
            let p = choose|p: int| 0 <= p < s2.len() && s2[p] == a;
            assert(q > 0 && p > 0);
            assert(runs_before(u(a), a, u(b), b));
            assert(runs_before(u(b), b, u(a), a));
            lemma_runs_before_transitive(u(a), a, u(b), b, u(a), a);
            lemma_runs_before_irreflexive(u(a), a);
        }
        let t1 = s1.drop_first();
        let t2 = s2.drop_first();
        assert forall|x: Seq<char>| t1.contains(x) <==> t2.contains(x) by {
            if t1.contains(x) {
                let i = choose|i: int| 0 <= i < t1.len() && t1[i] == x;
                assert(s1[i + 1] == x);
                assert(s1.contains(x));
                assert(s2.contains(x));
                let k = choose|k: int| 0 <= k < s2.len() && s2[k] == x;
                if k == 0 {
                    assert(runs_before(u(s1[0]), s1[0], u(s1[i + 1]), s1[i + 1]));
                    lemma_runs_before_irreflexive(u(a), a);
                }
                assert(t2[k - 1] == x);
            }
            if t2.contains(x) {
                let i = choose|i: int| 0 <= i < t2.len() && t2[i] == x;
                assert(s2[i + 1] == x);
                assert(s2.contains(x));
                assert(s1.contains(x));
                let k = choose|k: int| 0 <= k < s1.len() && s1[k] == x;
                if k == 0 {
                    assert(runs_before(u(s2[0]), s2[0], u(s2[i + 1]), s2[i + 1]));
                    lemma_runs_before_irreflexive(u(a), a);
                }
                assert(t1[k - 1] == x);
            }
        }
        assert forall|i: int, j: int| 0 <= i < j < t1.len() implies runs_before(u(#[trigger] t1[i]), t1[i], u(#[trigger] t1[j]), t1[j]) by {
            assert(t1[i] == s1[i + 1] && t1[j] == s1[j + 1]);
        }
        assert forall|i: int, j: int| 0 <= i < j < t2.len() implies runs_before(u(#[trigger] t2[i]), t2[i], u(#[trigger] t2[j]), t2[j]) by {
            assert(t2[i] == s2[i + 1] && t2[j] == s2[j + 1]);
        }
        lemma_run_order_unique(t1, t2, u);
        assert(s1 =~= seq![a] + t1);
        assert(s2 =~= seq![b] + t2);
    }
}

/// The order of a cycle does not depend on how the registry happens to be
/// laid out: any two orders that meet `cycle_order` for the same domains and
/// cycle name the same domains in the same positions.
pub proof fn lemma_cycle_order_unique(
    doms: Map<Seq<char>, DomainInstance>,
    cycle: u64,
    o1: Seq<String>,
    o2: Seq<String>,
)
    requires
        cycle_order(doms, cycle, o1),
        cycle_order(doms, cycle, o2),
    ensures
        names_of(o1) == names_of(o2),
{
    let u = |n: Seq<char>| urgency(doms[n], cycle);
    let s1 = names_of(o1);
    let s2 = names_of(o2);
    assert forall|i: int, j: int| 0 <= i < j < s1.len() implies runs_before(u(#[trigger] s1[i]), s1[i], u(#[trigger] s1[j]), s1[j]) by {
        assert(s1[i] == o1[i]@ && s1[j] == o1[j]@);
    }
    assert forall|i: int, j: int| 0 <= i < j < s2.len() implies runs_before(u(#[trigger] s2[i]), s2[i], u(#[trigger] s2[j]), s2[j]) by {
        assert(s2[i] == o2[i]@ && s2[j] == o2[j]@);
    }
    assert forall|x: Seq<char>| s1.contains(x) <==> s2.contains(x) by {
        if s1.contains(x) {
            let i = choose|i: int| 0 <= i < s1.len() && s1[i] == x;
            assert(o1[i]@ == x);
            assert(doms.contains_key(o1[i]@) && !doms[o1[i]@].is_quiescent);
            let k = choose|k: int| 0 <= k < o2.len() && o2[k]@ == x;
            assert(s2[k] == x);
        }
        if s2.contains(x) {
            let i = choose|i: int| 0 <= i < s2.len() && s2[i] == x;
            assert(o2[i]@ == x);
            assert(doms.contains_key(o2[i]@) && !doms[o2[i]@].is_quiescent);
            let k = choose|k: int| 0 <= k < o1.len() && o1[k]@ == x;
            assert(s1[k] == x);
        }
    }
    lemma_run_order_unique(s1, s2, u);
}

/// A sorted listing of names is unique: two strictly sorted lists of the
/// same names hold them in the same order. So `keys_sorted`, and the state
/// text built from it, depend on the state's fields alone.
pub proof fn lemma_sorted_names_unique(a: Seq<String>, b: Seq<String>)
    requires
        strictly_sorted(a),
        strictly_sorted(b),
        name_set(a) == name_set(b),
    ensures
        names_of(a) == names_of(b),
{
    let u = |n: Seq<char>| 0u64;
    let sa = names_of(a);
    let sb = names_of(b);
    assert forall|i: int, j: int| 0 <= i < j < sa.len() implies runs_before(u(#[trigger] sa[i]), sa[i], u(#[trigger] sa[j]), sa[j]) by {
        assert(sa[i] == a[i]@ && sa[j] == a[j]@);
    }
    assert forall|i: int, j: int| 0 <= i < j < sb.len() implies runs_before(u(#[trigger] sb[i]), sb[i], u(#[trigger] sb[j]), sb[j]) by {
        assert(sb[i] == b[i]@ && sb[j] == b[j]@);
    }
    assert forall|x: Seq<char>| sa.contains(x) <==> sb.contains(x) by {
        if sa.contains(x) {
            let i = choose|i: int| 0 <= i < sa.len() && sa[i] == x;
            assert(a[i]@ == x);
            assert(name_set(a).contains(x));
            assert(name_set(b).contains(x));
            let k = choose|k: int| 0 <= k < b.len() && #[trigger] b[k]@ == x;
            assert(sb[k] == x);
        }
        if sb.contains(x) {
            let i = choose|i: int| 0 <= i < sb.len() && sb[i] == x;
            assert(b[i]@ == x);
            assert(name_set(b).contains(x));
            assert(name_set(a).contains(x));
            let k = choose|k: int| 0 <= k < a.len() && #[trigger] a[k]@ == x;
            assert(sa[k] == x);
        }
    }
    lemma_run_order_unique(sa, sb, u);
}

/// The text of the fields depends on their names alone.
pub proof fn lemma_fields_text_names(a: Seq<String>, b: Seq<String>, m: Map<Seq<char>, i64>)
    requires
        names_of(a) == names_of(b),
    ensures
        fields_text(a, m) == fields_text(b, m),
    decreases a.len(),
{
    assert(names_of(a).len() == a.len() && names_of(b).len() == b.len());
    if a.len() > 0 {
        assert(names_of(a.drop_last()) =~= names_of(b.drop_last())) by {
            assert forall|i: int| 0 <= i < a.len() - 1 implies names_of(a.drop_last())[i] == names_of(b.drop_last())[i] by {
                assert(names_of(a)[i] == names_of(b)[i]);
            }
        }
        lemma_fields_text_names(a.drop_last(), b.drop_last(), m);
        assert(names_of(a)[a.len() - 1] == names_of(b)[b.len() - 1]);
        assert(names_of(a)[0] == names_of(b)[0]);
    }
}

} // verus!
