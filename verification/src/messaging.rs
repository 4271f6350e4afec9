//! Messages between domains and the bounded, two-level mailbox that holds
//! them until the scheduler delivers them.

use vstd::prelude::*;
use std::collections::VecDeque;

verus! {

#[derive(Debug, PartialEq)]
pub struct Message {
    pub id: String,
    pub source_domain: String,
    pub target_domain: String,
    pub payload: String,
    /// 0 = normal, anything above = high priority.
    pub priority: u8,
    pub clock: u64,
}

/// The content of a message, with its strings taken as character sequences.
pub struct MessageView {
    pub id: Seq<char>,
    pub source_domain: Seq<char>,
    pub target_domain: Seq<char>,
    pub payload: Seq<char>,
    pub priority: u8,
    pub clock: u64,
}

impl View for Message {
    type V = MessageView;

    open spec fn view(&self) -> MessageView {
        MessageView {
            id: self.id@,
            source_domain: self.source_domain@,
            target_domain: self.target_domain@,
            payload: self.payload@,
            priority: self.priority,
            clock: self.clock,
        }
    }
}

impl Clone for Message {
    fn clone(&self) -> (r: Message)
        ensures
            r == *self,
    {
        Message {
            id: self.id.clone(),
            source_domain: self.source_domain.clone(),
            target_domain: self.target_domain.clone(),
            payload: self.payload.clone(),
            priority: self.priority,
            clock: self.clock,
        }
    }
}

/// The views of a sequence of messages.
pub open spec fn messages_view(s: Seq<Message>) -> Seq<MessageView> {
    s.map_values(|m: Message| m@)
}

/// A mailbox with a high- and a normal-priority queue and a bound on the
/// number of messages that it accepts.
pub struct Mailbox {
    pub high: VecDeque<Message>,
    pub normal: VecDeque<Message>,
    pub capacity: usize,
    /// High-priority deliveries in a row while a normal message waited.
    pub skips: u8,
}

/// The abstract content of a mailbox.
pub struct MailboxView {
    pub high: Seq<Message>,
    pub normal: Seq<Message>,
    pub capacity: nat,
    /// How many high-priority messages were delivered in a row while a
    /// normal one was waiting.
    pub skips: nat,
}

impl View for Mailbox {
    type V = MailboxView;

    open spec fn view(&self) -> MailboxView {
        MailboxView {
            high: self.high@,
            normal: self.normal@,
            capacity: self.capacity as nat,
            skips: self.skips as nat,
        }
    }
}

/// Whether a push onto `m` is refused for lack of room.
pub open spec fn mailbox_full(m: MailboxView) -> bool {
    m.high.len() + m.normal.len() >= m.capacity
}

/// What `push` makes of a mailbox with room: the message joins the back of
/// the queue of its priority.
pub open spec fn mailbox_after_push(m: MailboxView, msg: Message) -> MailboxView {
    if msg.priority > 0 {
        MailboxView { high: m.high.push(msg), ..m }
    } else {
        MailboxView { normal: m.normal.push(msg), ..m }
    }
}

/// What `pop` does: the mailbox afterwards and the message delivered.
///
/// High-priority messages go first, but after three of them in a row with a
/// normal message waiting, the oldest normal message is delivered.
pub open spec fn mailbox_pop(m: MailboxView) -> (MailboxView, Option<Message>) {
    if m.high.len() == 0 && m.normal.len() == 0 {
        (m, None)
    } else if m.high.len() == 0 {
        (MailboxView { normal: m.normal.drop_first(), skips: 0, ..m }, Some(m.normal[0]))
    } else if m.normal.len() == 0 {
        (MailboxView { high: m.high.drop_first(), ..m }, Some(m.high[0]))
    } else if m.skips >= 3 {
        (MailboxView { normal: m.normal.drop_first(), skips: 0, ..m }, Some(m.normal[0]))
    } else {
        (MailboxView { high: m.high.drop_first(), skips: m.skips + 1, ..m }, Some(m.high[0]))
    }
}

impl Mailbox {
    /// An empty mailbox that accepts up to `capacity` messages.
    pub fn new(capacity: usize) -> (m: Self)
        ensures
            m@.high.len() == 0,
            m@.normal.len() == 0,
            m@.capacity == capacity,
            m@.skips == 0,
    {
        Mailbox { high: VecDeque::new(), normal: VecDeque::new(), capacity, skips: 0 }
    }

    /// Queues `msg` by its priority; when the mailbox already holds
    /// `capacity` messages it is handed back unchanged.
    pub fn push(&mut self, msg: Message) -> (r: Result<(), Message>)
        ensures
            mailbox_full(old(self)@) ==> r == Err::<(), Message>(msg) && final(self)@ == old(self)@,
            !mailbox_full(old(self)@) ==> r is Ok && final(self)@ == mailbox_after_push(old(self)@, msg),
    {
        let hl = self.high.len();
        if hl >= self.capacity || self.normal.len() >= self.capacity - hl {
            return Err(msg);
        }
        if msg.priority > 0 {
            self.high.push_back(msg);
        } else {
            self.normal.push_back(msg);
        }
        Ok(())
    }

    /// Delivers the next message, as `mailbox_pop` describes.
    pub fn pop(&mut self) -> (r: Option<Message>)
        ensures
            (final(self)@, r) == mailbox_pop(old(self)@),
    {
        if self.high.len() == 0 && self.normal.len() == 0 {
            return None;
        }
        if self.high.len() == 0 {
            self.skips = 0;
            return self.normal.pop_front();
        }
        if self.normal.len() == 0 {
            return self.high.pop_front();
        }
        if self.skips >= 3 {
            self.skips = 0;
            self.normal.pop_front()
        } else {
            self.skips = self.skips + 1;
            self.high.pop_front()
        }
    }

    /// Whether both queues are empty.
    pub fn is_empty(&self) -> (r: bool)
        ensures
            r == (self@.high.len() == 0 && self@.normal.len() == 0),
    {
        self.high.len() == 0 && self.normal.len() == 0
    }
}

impl Default for Mailbox {
    /// A mailbox for 100 messages.
    fn default() -> (m: Self)
        ensures
            m@.high.len() == 0,
            m@.normal.len() == 0,
            m@.capacity == 100,
            m@.skips == 0,
    {
        Mailbox::new(100)
    }
}

/// No starvation: when a normal-priority message waits, at most three
/// high-priority messages are delivered before the oldest normal one, so it
/// comes out within the next four pops.
pub proof fn lemma_normal_not_starved(m: MailboxView)
    requires
        m.normal.len() > 0,
    ensures
        ({
            let p1 = mailbox_pop(m);
            let p2 = mailbox_pop(p1.0);
            let p3 = mailbox_pop(p2.0);
            let p4 = mailbox_pop(p3.0);
            p1.1 == Some(m.normal[0]) || p2.1 == Some(m.normal[0]) || p3.1 == Some(m.normal[0])
                || p4.1 == Some(m.normal[0])
        }),
{
}

/// An operation on a mailbox: a push of a message, or a pop.
pub enum MailOp {
    Push(Message),
    Pop,
}

/// The mailbox after the operations `ops`, in order, on `m` (a push into a
/// full mailbox is refused), and the messages that the pops delivered, in
/// order.
pub open spec fn mail_run(m: MailboxView, ops: Seq<MailOp>) -> (MailboxView, Seq<Message>)
    decreases ops.len(),
{
    if ops.len() == 0 {
        (m, Seq::empty())
    } else {
        let (m1, out) = mail_run(m, ops.drop_last());
        match ops.last() {
            MailOp::Push(x) => if mailbox_full(m1) {
                (m1, out)
            } else {
                (mailbox_after_push(m1, x), out)
            },
            MailOp::Pop => {
                let (m2, r) = mailbox_pop(m1);
                match r {
                    Some(y) => (m2, out.push(y)),
                    None => (m2, out),
                }
            },
        }
    }
}

/// How many pops `ops` holds.
pub open spec fn pop_count(ops: Seq<MailOp>) -> nat
    decreases ops.len(),
{
    if ops.len() == 0 {
        0
    } else {
        pop_count(ops.drop_last()) + if ops.last() is Pop { 1nat } else { 0nat }
    }
}

/// `x` is among the first four messages of `out`.
pub open spec fn among_first_four(out: Seq<Message>, x: Message) -> bool {
    exists|j: int| 0 <= j < 4 && j < out.len() && #[trigger] out[j] == x
}

proof fn lemma_front_normal_waits_or_left(m: MailboxView, ops: Seq<MailOp>)
    requires
        m.normal.len() > 0,
    ensures
        ({
            let (m2, out) = mail_run(m, ops);
            ||| among_first_four(out, m.normal[0])
            ||| {
                &&& m2.normal.len() > 0
                &&& m2.normal[0] == m.normal[0]
                &&& out.len() == pop_count(ops)
                &&& m2.skips == m.skips + out.len()
                &&& out.len() > 0 ==> m2.skips <= 3
            }
        }),
    decreases ops.len(),
{
    if ops.len() > 0 {
        let pre = ops.drop_last();
        lemma_front_normal_waits_or_left(m, pre);
        let (m1, out1) = mail_run(m, pre);
        let x = m.normal[0];
        if among_first_four(out1, x) {
            let j = choose|j: int| 0 <= j < 4 && j < out1.len() && #[trigger] out1[j] == x;
            match ops.last() {
                MailOp::Pop => {
                    let (m2, r) = mailbox_pop(m1);
                    if r is Some {
                        assert(out1.push(r->0)[j] == x);
                    }
                },
                _ => {},
            }
        } else {
            match ops.last() {
                MailOp::Pop => {
                    let (m2, r) = mailbox_pop(m1);
                    if m1.high.len() == 0 || m1.skips >= 3 {
                        assert(r == Some(x));
                        assert(out1.push(x)[out1.len() as int] == x);
                    }
                },
                _ => {},
            }
        }
    }
}

/// No starvation, whatever arrives meanwhile: when a normal-priority
/// message is at the front of its queue, then over any sequence of pushes
/// and pops holding at least four pops, it is among the first four messages
/// delivered.
pub proof fn lemma_normal_not_starved_with_arrivals(m: MailboxView, ops: Seq<MailOp>)
    requires
        m.normal.len() > 0,
        pop_count(ops) >= 4,
    ensures
        among_first_four(mail_run(m, ops).1, m.normal[0]),
{
    lemma_front_normal_waits_or_left(m, ops);
}

/// `x` is among the first `n` messages of `out`.
pub open spec fn among_first(out: Seq<Message>, x: Message, n: int) -> bool {
    exists|j: int| 0 <= j < n && j < out.len() && #[trigger] out[j] == x
}

/// The message `x` still waits at position `k - nd` of the normal queue of
/// `m2`, after `nd` normal messages and `pops` pops in all, each of which
/// delivered a message, with no more than three high-priority ones before
/// each normal one.
pub open spec fn kth_waiting(m2: MailboxView, out: Seq<Message>, pops: nat, x: Message, k: int, nd: int) -> bool {
    &&& 0 <= nd <= k
    &&& m2.normal.len() > k - nd
    &&& m2.normal[k - nd] == x
    &&& out.len() == pops
    &&& out.len() <= 4 * nd + m2.skips
    &&& out.len() > 0 ==> m2.skips <= 3
}

proof fn lemma_kth_normal_waits_or_left(m: MailboxView, ops: Seq<MailOp>, k: int)
    requires
        0 <= k < m.normal.len(),
    ensures
        among_first(mail_run(m, ops).1, m.normal[k], 4 * (k + 1))
            || exists|nd: int| #[trigger] kth_waiting(mail_run(m, ops).0, mail_run(m, ops).1, pop_count(ops), m.normal[k], k, nd),
    decreases ops.len(),
{
    let x = m.normal[k];
    if ops.len() == 0 {
        assert(mail_run(m, ops) == (m, Seq::<Message>::empty()));
        assert(pop_count(ops) == 0);
        assert(kth_waiting(mail_run(m, ops).0, mail_run(m, ops).1, pop_count(ops), x, k, 0));
    } else {
        let pre = ops.drop_last();
        lemma_kth_normal_waits_or_left(m, pre, k);
        let (m1, out1) = mail_run(m, pre);
        let (m3, out3) = mail_run(m, ops);
        let pc = pop_count(ops);
        if among_first(out1, x, 4 * (k + 1)) {
            let j = choose|j: int| 0 <= j < 4 * (k + 1) && j < out1.len() && #[trigger] out1[j] == x;
            assert(out3.len() >= out1.len() && out3[j] == out1[j]) by {
                match ops.last() {
                    MailOp::Pop => {
                        let (m2, r) = mailbox_pop(m1);
                        if r is Some {
                            assert(out1.push(r->0)[j] == out1[j]);
                        }
                    },
                    _ => {},
                }
            }
            assert(among_first(out3, x, 4 * (k + 1)));
        } else {
            let nd = choose|nd: int| #[trigger] kth_waiting(m1, out1, pop_count(pre), x, k, nd);
            match ops.last() {
                MailOp::Pop => {
                    assert(pc == pop_count(pre) + 1);
                    let (m2, r) = mailbox_pop(m1);
                    if m1.high.len() == 0 || m1.skips >= 3 {
                        assert(r == Some(m1.normal[0]));
                        assert(out3 == out1.push(m1.normal[0]));
                        if nd == k {
                            assert(out3[out1.len() as int] == x);
                            assert(among_first(out3, x, 4 * (k + 1)));
                        } else {
                            assert(m2.normal[k - (nd + 1)] == m1.normal[k - nd]);
                            assert(kth_waiting(m3, out3, pc, x, k, nd + 1));
                            assert(kth_waiting(mail_run(m, ops).0, mail_run(m, ops).1, pop_count(ops), x, k, nd + 1));
                        }
                    } else {
                        assert(r == Some(m1.high[0]));
                        assert(out3 == out1.push(m1.high[0]));
                        assert(m2.normal == m1.normal);
                        assert(kth_waiting(m3, out3, pc, x, k, nd));
                        assert(kth_waiting(mail_run(m, ops).0, mail_run(m, ops).1, pop_count(ops), x, k, nd));
                    }
                },
                MailOp::Push(y) => {
                    assert(pc == pop_count(pre));
                    if !mailbox_full(m1) {
                        let m2 = mailbox_after_push(m1, y);
                        assert(m2.normal[k - nd] == x);
                        assert(kth_waiting(m3, out3, pc, x, k, nd));
                    } else {
                        assert(kth_waiting(m3, out3, pc, x, k, nd));
                    }
                    assert(kth_waiting(mail_run(m, ops).0, mail_run(m, ops).1, pop_count(ops), x, k, nd));
                },
            }
        }
    }
}

/// No starvation for any waiting normal-priority message: the one at
/// position `k` of the normal queue, whatever arrives meanwhile, is among
/// the first `4 * (k + 1)` messages delivered by any sequence of pushes and
/// pops holding at least that many pops.
pub proof fn lemma_kth_normal_not_starved(m: MailboxView, ops: Seq<MailOp>, k: int)
    requires
        0 <= k < m.normal.len(),
        pop_count(ops) >= 4 * (k + 1),
    ensures
        among_first(mail_run(m, ops).1, m.normal[k], 4 * (k + 1)),
{
    lemma_kth_normal_waits_or_left(m, ops, k);
}

/// Pops deliver each queue in arrival order: whatever `pop` returns is the
/// front of one of the two queues, and it leaves that queue.
pub proof fn lemma_pop_takes_a_front(m: MailboxView)
    ensures
        ({
            let (m2, r) = mailbox_pop(m);
            match r {
                None => m.high.len() == 0 && m.normal.len() == 0 && m2 == m,
                Some(x) => (m.high.len() > 0 && x == m.high[0] && m2.high == m.high.drop_first()
                    && m2.normal == m.normal) || (m.normal.len() > 0 && x == m.normal[0]
                    && m2.normal == m.normal.drop_first() && m2.high == m.high),
            }
        }),
{
}

/// A push is refused exactly when the mailbox is full, and a refused push
/// leaves the mailbox unchanged; an accepted one adds one message.
pub proof fn lemma_push_bounded(m: MailboxView, msg: Message)
    requires
        m.high.len() + m.normal.len() <= m.capacity,
    ensures
        !mailbox_full(m) ==> ({
            let m2 = mailbox_after_push(m, msg);
            m2.high.len() + m2.normal.len() == m.high.len() + m.normal.len() + 1
                && m2.high.len() + m2.normal.len() <= m2.capacity
        }),
{
}

} // verus!
