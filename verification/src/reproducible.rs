//! Reproducibility of scheduled runs: from registries that agree, the same
//! budgets lead through the same cycles to registries that agree.

use vstd::prelude::*;
use crate::domain_registry::{DomainInstance, SuspendedContext};
use crate::messaging::{Message, MailboxView, messages_view, mailbox_pop, mailbox_full, mailbox_after_push};
use crate::scheduler::{
    WorkView, goals_done, work_picked, work_done, sleep_after, domain_turn, sent_by, turn_did_work,
    transition_found, routed, addressed_to, mailboxes_of, urgency, oldest_stamp, cycle_order, cycle_witness,
    cycle_effect, names_of, lemma_cycle_order_unique, run_witness, run_effect, TurnView, CycleView, RunView,
    turn_view, pick_report, work_report, sleep_report, route_reports, turns_lines, turns_events, turns_sent,
    cycles_lines, cycles_events,
};

verus! {

/// Two mailboxes hold messages with the same contents, in the same order,
/// with the same capacity and the same count of skips.
pub open spec fn mailbox_alike(x: MailboxView, y: MailboxView) -> bool {
    &&& messages_view(x.high) == messages_view(y.high)
    &&& messages_view(x.normal) == messages_view(y.normal)
    &&& x.capacity == y.capacity
    &&& x.skips == y.skips
}

/// Two pieces of suspended work resume the same transition at the same
/// place, with the same registers and the same messages sent.
pub open spec fn suspended_alike(x: Option<SuspendedContext>, y: Option<SuspendedContext>) -> bool {
    match (x, y) {
        (None, None) => true,
        (Some(p), Some(q)) => {
            &&& p.transition_name@ == q.transition_name@
            &&& p.pc == q.pc
            &&& p.registers@ == q.registers@
            &&& messages_view(p.outbox@) == messages_view(q.outbox@)
        },
        _ => false,
    }
}

/// Two domains agree: the same name, code and settings, and the same
/// memory, clock, sleep flag, mailbox contents and suspended work.
pub open spec fn alike(a: DomainInstance, b: DomainInstance) -> bool {
    &&& a.name == b.name
    &&& a.schema == b.schema
    &&& a.bytecode == b.bytecode
    &&& a.schedule_weight == b.schedule_weight
    &&& a.last_failed_goal == b.last_failed_goal
    &&& a.goal_oscillation_count == b.goal_oscillation_count
    &&& a.state@ == b.state@
    &&& a.logical_clock.tick == b.logical_clock.tick
    &&& a.is_quiescent == b.is_quiescent
    &&& mailbox_alike(a.mailbox@, b.mailbox@)
    &&& suspended_alike(a.suspended_context, b.suspended_context)
}

/// Two registries hold the same domain names, and agreeing domains under
/// each.
pub open spec fn registries_alike(r1: Map<Seq<char>, DomainInstance>, r2: Map<Seq<char>, DomainInstance>) -> bool {
    &&& r1.dom() == r2.dom()
    &&& forall|n: Seq<char>| #[trigger] r1.contains_key(n) ==> alike(r1[n], r2[n])
}

proof fn lemma_views_drop_first(s: Seq<Message>)
    requires
        s.len() > 0,
    ensures
        messages_view(s.drop_first()) == messages_view(s).drop_first(),
        messages_view(s)[0] == s[0]@,
{
    assert(messages_view(s.drop_first()) =~= messages_view(s).drop_first());
}

proof fn lemma_views_push(s: Seq<Message>, m: Message)
    ensures
        messages_view(s.push(m)) == messages_view(s).push(m@),
{
    assert(messages_view(s.push(m)) =~= messages_view(s).push(m@));
}

proof fn lemma_views_drop_last(s: Seq<Message>)
    requires
        s.len() > 0,
    ensures
        messages_view(s.drop_last()) == messages_view(s).drop_last(),
        messages_view(s)[s.len() - 1] == s.last()@,
{
    assert(messages_view(s.drop_last()) =~= messages_view(s).drop_last());
}

proof fn lemma_pop_alike(x: MailboxView, y: MailboxView)
    requires
        mailbox_alike(x, y),
    ensures
        mailbox_alike(mailbox_pop(x).0, mailbox_pop(y).0),
        mailbox_pop(x).1 is Some <==> mailbox_pop(y).1 is Some,
        mailbox_pop(x).1 is Some ==> mailbox_pop(x).1->0@ == mailbox_pop(y).1->0@,
{
    assert(x.high.len() == messages_view(x.high).len() && y.high.len() == messages_view(y.high).len());
    assert(x.normal.len() == messages_view(x.normal).len() && y.normal.len() == messages_view(y.normal).len());
    if x.high.len() > 0 {
        lemma_views_drop_first(x.high);
        lemma_views_drop_first(y.high);
    }
    if x.normal.len() > 0 {
        lemma_views_drop_first(x.normal);
        lemma_views_drop_first(y.normal);
    }
}

proof fn lemma_transition_found_unique(ts: Seq<crate::bytecode::TransitionBytecode>, name: Seq<char>, r1: Option<usize>, r2: Option<usize>)
    requires
        transition_found(ts, name, r1),
        transition_found(ts, name, r2),
    ensures
        r1 == r2,
{
    match (r1, r2) {
        (Some(a), Some(b)) => {
            if a < b {
                assert(ts[a as int].name@ != name);
            } else if b < a {
                assert(ts[b as int].name@ != name);
            }
        },
        (Some(a), None) => {
            assert(ts[a as int].name@ != name);
        },
        (None, Some(b)) => {
            assert(ts[b as int].name@ != name);
        },
        _ => {},
    }
}

/// Two picks of work that run the same transition from the same place with
/// the same registers and the same messages already sent.
pub open spec fn work_alike(v: WorkView, w: WorkView) -> bool {
    &&& v.transition == w.transition
    &&& v.transition is Some ==> {
        &&& v.start_pc == w.start_pc
        &&& v.registers == w.registers
        &&& messages_view(v.outbox) == messages_view(w.outbox)
    }
}

proof fn lemma_pick_alike(a1: DomainInstance, b1: DomainInstance, a2: DomainInstance, b2: DomainInstance, va: WorkView, vb: WorkView)
    requires
        alike(a1, b1),
        work_picked(a1, a2, va),
        work_picked(b1, b2, vb),
    ensures
        alike(a2, b2),
        work_alike(va, vb),
        (mailbox_pop(a1.mailbox@).1 is Some) == (mailbox_pop(b1.mailbox@).1 is Some),
        mailbox_pop(a1.mailbox@).1 is Some ==> mailbox_pop(a1.mailbox@).1->0@ == mailbox_pop(b1.mailbox@).1->0@,
        forall|c: usize| #[trigger] pick_report(a1, va, c) == pick_report(b1, vb, c),
{
    reveal(pick_report);
    lemma_pop_alike(a1.mailbox@, b1.mailbox@);
    match a1.suspended_context {
        Some(sa) => {
            assert(suspended_alike(a1.suspended_context, b1.suspended_context));
            assert(b1.suspended_context is Some);
            let sb = b1.suspended_context->0;
            assert(sa.transition_name@ == sb.transition_name@ && sa.pc == sb.pc && sa.registers@ == sb.registers@
                && messages_view(sa.outbox@) == messages_view(sb.outbox@));
            lemma_transition_found_unique(a1.bytecode.transitions@, sa.transition_name@, va.transition, vb.transition);
        },
        None => {
            match mailbox_pop(a1.mailbox@).1 {
                Some(ma) => {
                    let mb = mailbox_pop(b1.mailbox@).1->0;
                    assert(ma@.payload == mb@.payload);
                    lemma_transition_found_unique(a1.bytecode.transitions@, ma.payload@, va.transition, vb.transition);
                    assert(messages_view(va.outbox) =~= messages_view(vb.outbox));
                },
                None => {},
            }
        },
    }
}

proof fn lemma_work_alike(a2: DomainInstance, b2: DomainInstance, a3: DomainInstance, b3: DomainInstance, va: WorkView, vb: WorkView, gas: usize)
    requires
        alike(a2, b2),
        work_alike(va, vb),
        work_done(a2, a3, va, gas),
        work_done(b2, b3, vb, gas),
    ensures
        alike(a3, b3),
        sent_by(a2, va, gas) == sent_by(b2, vb, gas),
        forall|c: usize| #[trigger] work_report(a2, va, gas, c) == work_report(b2, vb, gas, c),
{
    reveal(work_report);
}

proof fn lemma_turn_alike(a: DomainInstance, b: DomainInstance, a4: DomainInstance, b4: DomainInstance, gas: usize,
    cycle: usize, ta: TurnView, tb: TurnView)
    requires
        alike(a, b),
        domain_turn(a, a4, gas, cycle, ta),
        domain_turn(b, b4, gas, cycle, tb),
    ensures
        alike(a4, b4),
        ta == tb,
{
    reveal(domain_turn);
    let (a1, a2, va, a3) = choose|d1: DomainInstance, d2: DomainInstance, w: WorkView, d3: DomainInstance|
        goals_done(a, d1, gas) && work_picked(d1, d2, w) && work_done(d2, d3, w, gas)
            && sleep_after(d3, a4, crate::scheduler::some_goal_fails(a.bytecode.goals@, a.schema@, a.state@, gas))
            && ta == turn_view(a, d1, d2, w, d3, gas, cycle);
    let (b1, b2, vb, b3) = choose|d1: DomainInstance, d2: DomainInstance, w: WorkView, d3: DomainInstance|
        goals_done(b, d1, gas) && work_picked(d1, d2, w) && work_done(d2, d3, w, gas)
            && sleep_after(d3, b4, crate::scheduler::some_goal_fails(b.bytecode.goals@, b.schema@, b.state@, gas))
            && tb == turn_view(b, d1, d2, w, d3, gas, cycle);
    assert(alike(a1, b1));
    lemma_pick_alike(a1, b1, a2, b2, va, vb);
    lemma_work_alike(a2, b2, a3, b3, va, vb, gas);
    assert(pick_report(a1, va, cycle) == pick_report(b1, vb, cycle));
    assert(work_report(a2, va, gas, cycle) == work_report(b2, vb, gas, cycle));
    assert(a3.mailbox@.high.len() == messages_view(a3.mailbox@.high).len());
    assert(b3.mailbox@.high.len() == messages_view(b3.mailbox@.high).len());
    assert(a3.mailbox@.normal.len() == messages_view(a3.mailbox@.normal).len());
    assert(b3.mailbox@.normal.len() == messages_view(b3.mailbox@.normal).len());
    let fa = crate::scheduler::some_goal_fails(a.bytecode.goals@, a.schema@, a.state@, gas);
    assert(sleep_report(a3, fa, cycle) == sleep_report(b3, fa, cycle));
    reveal(turn_view);
}

/// Two maps of mailboxes with the same names and agreeing mailboxes.
pub open spec fn boxes_alike(b1: Map<Seq<char>, MailboxView>, b2: Map<Seq<char>, MailboxView>) -> bool {
    &&& b1.dom() == b2.dom()
    &&& forall|n: Seq<char>| #[trigger] b1.contains_key(n) ==> mailbox_alike(b1[n], b2[n])
}

proof fn lemma_push_alike(x: MailboxView, y: MailboxView, m1: Message, m2: Message)
    requires
        mailbox_alike(x, y),
        m1@ == m2@,
    ensures
        mailbox_alike(mailbox_after_push(x, m1), mailbox_after_push(y, m2)),
{
    lemma_views_push(x.high, m1);
    lemma_views_push(y.high, m2);
    lemma_views_push(x.normal, m1);
    lemma_views_push(y.normal, m2);
}

proof fn lemma_routed_alike(b1: Map<Seq<char>, MailboxView>, b2: Map<Seq<char>, MailboxView>, m1: Seq<Message>, m2: Seq<Message>, cycle: usize)
    requires
        boxes_alike(b1, b2),
        messages_view(m1) == messages_view(m2),
    ensures
        route_reports(b1, m1, cycle) == route_reports(b2, m2, cycle),
        boxes_alike(routed(b1, m1).0, routed(b2, m2).0),
        routed(b1, m1).0.dom() == b1.dom(),
        routed(b1, m1).1 == routed(b2, m2).1,
        routed(b1, m1).2 == routed(b2, m2).2,
    decreases m1.len(),
{
    assert(m1.len() == messages_view(m1).len() && m2.len() == messages_view(m2).len());
    if m1.len() > 0 {
        lemma_views_drop_last(m1);
        lemma_views_drop_last(m2);
        lemma_routed_alike(b1, b2, m1.drop_last(), m2.drop_last(), cycle);
        let c1 = routed(b1, m1.drop_last()).0;
        let c2 = routed(b2, m2.drop_last()).0;
        let x1 = m1.last();
        let x2 = m2.last();
        assert(x1@ == x2@);
        let t = x1.target_domain@;
        assert(c1.contains_key(t) == c2.contains_key(t));
        if c1.contains_key(t) {
            let y1 = c1[t];
            let y2 = c2[t];
            assert(mailbox_alike(y1, y2));
            assert(y1.high.len() == messages_view(y1.high).len() && y2.high.len() == messages_view(y2.high).len());
            assert(y1.normal.len() == messages_view(y1.normal).len() && y2.normal.len() == messages_view(y2.normal).len());
            assert(mailbox_full(y1) == mailbox_full(y2));
            if !mailbox_full(y1) {
                lemma_push_alike(y1, y2, x1, x2);
                let e1 = c1.insert(t, mailbox_after_push(y1, x1));
                let e2 = c2.insert(t, mailbox_after_push(y2, x2));
                assert(e1.dom() =~= e2.dom());
                assert(e1.dom() =~= c1.dom());
                assert forall|n: Seq<char>| #[trigger] e1.contains_key(n) implies mailbox_alike(e1[n], e2[n]) by {
                    if n != t {
                        assert(c1.contains_key(n));
                    }
                }
            }
        }
    }
}

proof fn lemma_addressed_alike(m1: Seq<Message>, m2: Seq<Message>, n: Seq<char>)
    requires
        messages_view(m1) == messages_view(m2),
    ensures
        addressed_to(m1, n) == addressed_to(m2, n),
{
    assert(m1.len() == messages_view(m1).len() && m2.len() == messages_view(m2).len());
    if addressed_to(m1, n) {
        let j = choose|j: int| 0 <= j < m1.len() && #[trigger] m1[j].target_domain@ == n;
        assert(messages_view(m1)[j] == m1[j]@ && messages_view(m2)[j] == m2[j]@);
        assert(m2[j].target_domain@ == n);
    }
    if addressed_to(m2, n) {
        let j = choose|j: int| 0 <= j < m2.len() && #[trigger] m2[j].target_domain@ == n;
        assert(messages_view(m1)[j] == m1[j]@ && messages_view(m2)[j] == m2[j]@);
        assert(m1[j].target_domain@ == n);
    }
}

proof fn lemma_urgency_alike(a: DomainInstance, b: DomainInstance, cycle: u64)
    requires
        alike(a, b),
    ensures
        urgency(a, cycle) == urgency(b, cycle),
{
    let x = a.mailbox@;
    let y = b.mailbox@;
    assert(x.high.len() == messages_view(x.high).len() && y.high.len() == messages_view(y.high).len());
    assert(x.normal.len() == messages_view(x.normal).len() && y.normal.len() == messages_view(y.normal).len());
    if x.high.len() > 0 {
        assert(messages_view(x.high)[0] == x.high[0]@ && messages_view(y.high)[0] == y.high[0]@);
    }
    if x.normal.len() > 0 {
        assert(messages_view(x.normal)[0] == x.normal[0]@ && messages_view(y.normal)[0] == y.normal[0]@);
    }
    assert(oldest_stamp(x, cycle) == oldest_stamp(y, cycle));
}

proof fn lemma_order_alike(
    b1: Map<Seq<char>, DomainInstance>,
    b2: Map<Seq<char>, DomainInstance>,
    cycle: u64,
    o1: Seq<String>,
    o2: Seq<String>,
)
    requires
        registries_alike(b1, b2),
        cycle_order(b1, cycle, o1),
        cycle_order(b2, cycle, o2),
    ensures
        o1.len() == o2.len(),
        forall|k: int| 0 <= k < o1.len() ==> #[trigger] o1[k]@ == o2[k]@,
{
    assert forall|n: Seq<char>| #[trigger] b1.contains_key(n) implies urgency(b1[n], cycle) == urgency(b2[n], cycle) by {
        lemma_urgency_alike(b1[n], b2[n], cycle);
    }
    assert(cycle_order(b2, cycle, o1)) by {
        assert forall|i: int, j: int| 0 <= i < j < o1.len() implies crate::scheduler::runs_before(
            urgency(b2[o1[i]@], cycle), #[trigger] o1[i]@, urgency(b2[o1[j]@], cycle), #[trigger] o1[j]@) by {
            assert(b1.contains_key(o1[i]@) && b1.contains_key(o1[j]@));
        }
        assert forall|n: Seq<char>| #[trigger] b2.contains_key(n) && !b2[n].is_quiescent implies exists|i: int|
            0 <= i < o1.len() && o1[i]@ == n by {
            assert(b1.contains_key(n) && !b1[n].is_quiescent);
        }
    }
    lemma_cycle_order_unique(b2, cycle, o1, o2);
    assert(o1.len() == names_of(o1).len() && o2.len() == names_of(o2).len());
    assert forall|k: int| 0 <= k < o1.len() implies #[trigger] o1[k]@ == o2[k]@ by {
        assert(names_of(o1)[k] == o1[k]@ && names_of(o2)[k] == o2[k]@);
    }
}

proof fn lemma_turns_alike(
    b1: Map<Seq<char>, DomainInstance>,
    b2: Map<Seq<char>, DomainInstance>,
    a1: Map<Seq<char>, DomainInstance>,
    a2: Map<Seq<char>, DomainInstance>,
    cycle: usize,
    gas: usize,
    c1: CycleView,
    c2: CycleView,
    o1: Seq<String>,
    o2: Seq<String>,
    mids1: Map<Seq<char>, DomainInstance>,
    mids2: Map<Seq<char>, DomainInstance>,
    t1: Seq<TurnView>,
    t2: Seq<TurnView>,
    out1: Seq<Message>,
    out2: Seq<Message>,
)
    requires
        registries_alike(b1, b2),
        cycle_witness(b1, a1, cycle, gas, c1, o1, mids1, t1, out1),
        cycle_witness(b2, a2, cycle, gas, c2, o2, mids2, t2, out2),
    ensures
        t1 == t2,
        forall|n: Seq<char>| #[trigger] b1.contains_key(n) ==> alike(mids1[n], mids2[n]),
{
    reveal(cycle_witness);
    lemma_order_alike(b1, b2, cycle as u64, o1, o2);
    assert forall|k: int| 0 <= k < o1.len() implies #[trigger] t1[k] == t2[k]
        && alike(mids1[o1[k]@], mids2[o1[k]@]) by {
        let n = o1[k]@;
        assert(o2[k]@ == n);
        assert(b1.contains_key(n));
        assert(domain_turn(b1[o1[k]@], mids1[o1[k]@], gas, cycle, t1[k]));
        assert(domain_turn(b2[o2[k]@], mids2[o2[k]@], gas, cycle, t2[k]));
        lemma_turn_alike(b1[n], b2[n], mids1[n], mids2[n], gas, cycle, t1[k], t2[k]);
    }
    assert(t1 =~= t2);
    assert forall|n: Seq<char>| #[trigger] b1.contains_key(n) implies alike(mids1[n], mids2[n]) by {
        if !b1[n].is_quiescent {
            let k = choose|k: int| 0 <= k < o1.len() && o1[k]@ == n;
            assert(t1[k] == t2[k]);
        }
    }
}

/// A cycle is reproducible: the same cycle with the same budget, run on
/// registries that agree, leaves registries that agree and shows the same:
/// work done or not, trace lines, tracer events and the low-priority flag.
pub proof fn lemma_cycle_alike(
    b1: Map<Seq<char>, DomainInstance>,
    b2: Map<Seq<char>, DomainInstance>,
    a1: Map<Seq<char>, DomainInstance>,
    a2: Map<Seq<char>, DomainInstance>,
    cycle: usize,
    gas: usize,
    c1: CycleView,
    c2: CycleView,
)
    requires
        registries_alike(b1, b2),
        cycle_effect(b1, a1, cycle, gas, c1),
        cycle_effect(b2, a2, cycle, gas, c2),
    ensures
        registries_alike(a1, a2),
        c1 == c2,
{
    let (o1, mids1, t1, out1) = choose|order: Seq<String>, mids: Map<Seq<char>, DomainInstance>, turns: Seq<TurnView>, out: Seq<Message>|
        #[trigger] cycle_witness(b1, a1, cycle, gas, c1, order, mids, turns, out);
    let (o2, mids2, t2, out2) = choose|order: Seq<String>, mids: Map<Seq<char>, DomainInstance>, turns: Seq<TurnView>, out: Seq<Message>|
        #[trigger] cycle_witness(b2, a2, cycle, gas, c2, order, mids, turns, out);
    lemma_turns_alike(b1, b2, a1, a2, cycle, gas, c1, c2, o1, o2, mids1, mids2, t1, t2, out1, out2);
    reveal(cycle_witness);
    let bx1 = mailboxes_of(mids1);
    let bx2 = mailboxes_of(mids2);
    assert(boxes_alike(bx1, bx2)) by {
        assert(bx1.dom() =~= bx2.dom());
        assert forall|n: Seq<char>| #[trigger] bx1.contains_key(n) implies mailbox_alike(bx1[n], bx2[n]) by {
            assert(b1.contains_key(n));
        }
    }
    lemma_routed_alike(bx1, bx2, out1, out2, cycle);
    let rt1 = routed(bx1, out1).0;
    let rt2 = routed(bx2, out2).0;
    assert forall|n: Seq<char>| #[trigger] a1.contains_key(n) implies alike(a1[n], a2[n]) by {
        assert(b1.contains_key(n));
        assert(bx1.contains_key(n));
        assert(rt1.contains_key(n));
        assert(mailbox_alike(rt1[n], rt2[n]));
        assert(alike(mids1[n], mids2[n]));
        lemma_addressed_alike(out1, out2, n);
    }
}

proof fn lemma_runs_agree_up_to(
    b1: Map<Seq<char>, DomainInstance>,
    b2: Map<Seq<char>, DomainInstance>,
    a1: Map<Seq<char>, DomainInstance>,
    a2: Map<Seq<char>, DomainInstance>,
    gas: usize,
    max_cycles: usize,
    v1: RunView,
    v2: RunView,
    r1: Seq<Map<Seq<char>, DomainInstance>>,
    c1: Seq<CycleView>,
    r2: Seq<Map<Seq<char>, DomainInstance>>,
    c2: Seq<CycleView>,
    i: int,
)
    requires
        0 <= i <= v1.steps,
        i <= v2.steps,
        run_witness(b1, a1, gas, max_cycles, v1, r1, c1),
        run_witness(b2, a2, gas, max_cycles, v2, r2, c2),
        registries_alike(b1, b2),
    ensures
        registries_alike(r1[i], r2[i]),
        forall|j: int| 0 <= j < i ==> #[trigger] c1[j] == c2[j],
    decreases i,
{
    if i > 0 {
        lemma_runs_agree_up_to(b1, b2, a1, a2, gas, max_cycles, v1, v2, r1, c1, r2, c2, i - 1);
        let k = i - 1;
        assert(cycle_effect(r1[k], r1[k + 1], (k + 1) as usize, gas, c1[k]));
        assert(cycle_effect(r2[k], r2[k + 1], (k + 1) as usize, gas, c2[k]));
        lemma_cycle_alike(r1[k], r2[k], r1[k + 1], r2[k + 1], (k + 1) as usize, gas, c1[k], c2[k]);
    }
}

/// Runs are reproducible: two runs with the same budgets, started from
/// registries that agree (the same domains, with the same code, memory,
/// clocks, mailbox contents and suspended work), show the same (the same
/// number of cycles, the same ending, the same trace lines, the same tracer
/// events and the same low-priority flag) and leave registries that agree.
pub proof fn lemma_runs_reproducible(
    b1: Map<Seq<char>, DomainInstance>,
    b2: Map<Seq<char>, DomainInstance>,
    a1: Map<Seq<char>, DomainInstance>,
    a2: Map<Seq<char>, DomainInstance>,
    gas: usize,
    max_cycles: usize,
    v1: RunView,
    v2: RunView,
)
    requires
        registries_alike(b1, b2),
        run_effect(b1, a1, gas, max_cycles, v1),
        run_effect(b2, a2, gas, max_cycles, v2),
    ensures
        v1 == v2,
        registries_alike(a1, a2),
{
    let (r1, c1) = choose|regs: Seq<Map<Seq<char>, DomainInstance>>, cs: Seq<CycleView>|
        #[trigger] run_witness(b1, a1, gas, max_cycles, v1, regs, cs);
    let (r2, c2) = choose|regs: Seq<Map<Seq<char>, DomainInstance>>, cs: Seq<CycleView>|
        #[trigger] run_witness(b2, a2, gas, max_cycles, v2, regs, cs);
    let m: int = if v1.steps < v2.steps { v1.steps as int } else { v2.steps as int };
    lemma_runs_agree_up_to(b1, b2, a1, a2, gas, max_cycles, v1, v2, r1, c1, r2, c2, m);
    if v1.steps < v2.steps {
        if v1.steps > 0 {
            assert(c2[v1.steps - 1].active);
            assert(c1[v1.steps - 1] == c2[v1.steps - 1]);
        }
        assert(!v1.converged);
    } else if v2.steps < v1.steps {
        if v2.steps > 0 {
            assert(c1[v2.steps - 1].active);
            assert(c1[v2.steps - 1] == c2[v2.steps - 1]);
        }
        assert(!v2.converged);
    } else {
        assert(c1 =~= c2);
        if v1.steps > 0 {
            assert(c1[v1.steps - 1] == c2[v1.steps - 1]);
        }
        assert(v1.low == v2.low);
        assert(v1 == v2);
    }
}

/// Every registry agrees with itself.
pub proof fn lemma_registries_alike_refl(r: Map<Seq<char>, DomainInstance>)
    ensures
        registries_alike(r, r),
{
}

} // verus!
