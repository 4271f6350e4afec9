//! The running domains: each one's memory, code, mailbox and clock, and the
//! registry that finds them by name and routes messages to them.

use vstd::prelude::*;
use crate::bytecode::DomainBytecode;
use crate::logical_clock::LogicalClock;
use crate::messaging::{Mailbox, Message, MailboxView, mailbox_full, mailbox_after_push};
use crate::state::{IsolatedState, zeroed};
use crate::strmap::StrMap;
use crate::text::{text_lt, text_less, lemma_text_lt_total, lemma_text_lt_transitive};

verus! {

/// A transition that ran out of budget, kept to be resumed where it stopped.
#[derive(Debug, Clone)]
pub struct SuspendedContext {
    pub transition_name: String,
    pub pc: usize,
    pub registers: [i64; 256],
    pub outbox: Vec<Message>,
}

pub struct DomainInstance {
    pub name: String,
    pub state: IsolatedState,
    pub schema: Vec<String>,
    pub bytecode: DomainBytecode,
    pub mailbox: Mailbox,
    /// A higher weight runs earlier in a cycle.
    pub schedule_weight: u8,
    pub logical_clock: LogicalClock,
    pub is_quiescent: bool,
    pub suspended_context: Option<SuspendedContext>,
    pub last_failed_goal: Option<String>,
    pub goal_oscillation_count: u32,
}

impl DomainInstance {
    /// A domain at rest: zeroed memory for `schema`, an empty mailbox for 100
    /// messages, weight 1, clock 0, nothing suspended.
    pub fn new(name: String, schema: Vec<String>, bytecode: DomainBytecode) -> (d: Self)
        ensures
            d.name == name,
            d.state@ == zeroed(schema@),
            d.schema == schema,
            d.bytecode == bytecode,
            d.mailbox@ == (MailboxView { high: Seq::empty(), normal: Seq::empty(), capacity: 100, skips: 0 }),
            d.schedule_weight == 1,
            d.logical_clock.tick == 0,
            !d.is_quiescent,
            d.suspended_context is None,
            d.last_failed_goal is None,
            d.goal_oscillation_count == 0,
    {
        let state = IsolatedState::new(schema.as_slice());
        let mailbox = Mailbox::default();
        assert(mailbox@.high =~= Seq::<Message>::empty() && mailbox@.normal =~= Seq::<Message>::empty());
        DomainInstance {
            name,
            state,
            schema,
            bytecode,
            mailbox,
            schedule_weight: 1,
            logical_clock: LogicalClock::new(),
            is_quiescent: false,
            suspended_context: None,
            last_failed_goal: None,
            goal_oscillation_count: 0,
        }
    }

    /// The same domain with schedule weight `weight`.
    pub fn with_weight(self, weight: u8) -> (d: Self)
        ensures
            d == (DomainInstance { schedule_weight: weight, ..self }),
    {
        let mut d = self;
        d.schedule_weight = weight;
        d
    }
}

pub struct DomainRegistry {
    pub instances: StrMap<DomainInstance>,
}

impl DomainRegistry {
    /// The domains by name.
    pub open spec fn domains(&self) -> Map<Seq<char>, DomainInstance> {
        self.instances.content()
    }

    /// A registry without domains.
    pub fn new() -> (r: Self)
        ensures
            r.domains() == Map::<Seq<char>, DomainInstance>::empty(),
    {
        DomainRegistry { instances: StrMap::new() }
    }

    /// Adds `instance` under its name, replacing a domain of the same name.
    pub fn register(&mut self, instance: DomainInstance)
        ensures
            final(self).domains() == old(self).domains().insert(instance.name@, instance),
    {
        let name = instance.name.clone();
        self.instances.insert(name, instance);
    }

    /// The domain called `name`, to be changed in place.
    pub fn get_mut(&mut self, name: &str) -> (r: Option<&mut DomainInstance>)
        ensures
            match r {
                Some(d) => old(self).domains().contains_key(name@) && *d == old(self).domains()[name@]
                    && final(self).domains() == old(self).domains().insert(name@, *final(d)),
                None => !old(self).domains().contains_key(name@) && final(self).domains() == old(self).domains(),
            },
    {
        self.instances.get_mut(name)
    }

    /// The message that starts a fresh run: it goes to the domain called
    /// `Producer` when there is one, else to the domain whose name comes
    /// first, and asks for that domain's first transition (`run` when it has
    /// none), at normal priority and clock 0. `None` when there is no domain.
    pub fn boot_message(&self) -> (r: Option<Message>)
        ensures
            match r {
                None => forall|k: Seq<char>| !self.domains().contains_key(k),
                Some(m) => {
                    let d = self.domains()[m.target_domain@];
                    &&& self.domains().contains_key(m.target_domain@)
                    &&& self.domains().contains_key("Producer"@) ==> m.target_domain@ == "Producer"@
                    &&& !self.domains().contains_key("Producer"@) ==> forall|k: Seq<char>|
                        #[trigger] self.domains().contains_key(k) && k != m.target_domain@ ==> text_lt(m.target_domain@, k)
                    &&& m.payload@ == (if d.bytecode.transitions.len() > 0 { d.bytecode.transitions@[0].name@ } else { "run"@ })
                    &&& m.id@.len() == 0
                    &&& m.source_domain@.len() == 0
                    &&& m.priority == 0
                    &&& m.clock == 0
                },
            },
    {
        let target: String = if self.instances.contains_key("Producer") {
            String::from_str("Producer")
        } else {
            let names = self.instances.keys();
            if names.len() == 0 {
                proof {
                    assert forall|k: Seq<char>| !self.domains().contains_key(k) by {
                        if self.domains().contains_key(k) {
                            let i = choose|i: int| 0 <= i < names.len() && names@[i]@ == k;
                        }
                    }
                }
                return None;
            }
            let mut best: usize = 0;
            let mut i: usize = 1;
            while i < names.len()
                invariant
                    1 <= i <= names.len(),
                    best < i,
                    forall|t: int| 0 <= t < i && t != best ==> text_lt(names@[best as int]@, #[trigger] names@[t]@),
                    forall|a: int, b: int| 0 <= a < b < names.len() ==> #[trigger] names@[a]@ != #[trigger] names@[b]@,
                decreases names.len() - i,
            {
                if text_less(names[i].as_str(), names[best].as_str()) {
                    proof {
                        assert forall|t: int| 0 <= t < i + 1 && t != i implies text_lt(names@[i as int]@, #[trigger] names@[t]@) by {
                            if t != best {
                                lemma_text_lt_transitive(names@[i as int]@, names@[best as int]@, names@[t]@);
                            }
                        }
                    }
                    best = i;
                } else {
                    proof {
                        if best < i {
                            assert(names@[best as int]@ != names@[i as int]@);
                        }
                        lemma_text_lt_total(names@[best as int]@, names@[i as int]@);
                    }
                }
                i = i + 1;
            }
            proof {
                assert forall|k: Seq<char>| #[trigger] self.domains().contains_key(k) && k != names@[best as int]@
                    implies text_lt(names@[best as int]@, k) by {
                    let t = choose|t: int| 0 <= t < names.len() && names@[t]@ == k;
                }
            }
            names[best].clone()
        };
        proof {
            reveal_strlit("Producer");
        }
        let d = self.instances.get(target.as_str()).unwrap();
        let payload = if d.bytecode.transitions.len() > 0 {
            d.bytecode.transitions[0].name.clone()
        } else {
            String::from_str("run")
        };
        Some(Message { id: String::new(), source_domain: String::new(), target_domain: target, payload, priority: 0, clock: 0 })
    }

    /// Delivers `msg` to its target domain and wakes that domain. A message
    /// for an unknown domain, or one that finds the target's mailbox full,
    /// is handed back.
    pub fn route_message(&mut self, msg: Message) -> (r: Result<(), Message>)
        ensures
            !old(self).domains().contains_key(msg.target_domain@) ==> r == Err::<(), Message>(msg)
                && final(self).domains() == old(self).domains(),
            old(self).domains().contains_key(msg.target_domain@) ==> ({
                let d = old(self).domains()[msg.target_domain@];
                let d2 = final(self).domains()[msg.target_domain@];
                &&& final(self).domains() == old(self).domains().insert(msg.target_domain@, d2)
                &&& d2 == (DomainInstance { is_quiescent: false, mailbox: d2.mailbox, ..d })
                &&& mailbox_full(d.mailbox@) ==> r == Err::<(), Message>(msg) && d2.mailbox@ == d.mailbox@
                &&& !mailbox_full(d.mailbox@) ==> r is Ok && d2.mailbox@ == mailbox_after_push(d.mailbox@, msg)
            }),
    {
        match self.instances.get_mut(msg.target_domain.as_str()) {
            Some(instance) => {
                instance.is_quiescent = false;
                instance.mailbox.push(msg)
            },
            None => Err(msg),
        }
    }
}

} // verus!
