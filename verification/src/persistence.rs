//! Snapshots of the running domains: what is captured of each domain, and
//! how a snapshot is applied back onto a registry. Reading and writing the
//! snapshot file is the host program's part.

use vstd::prelude::*;
use std::collections::VecDeque;
use crate::domain_registry::{DomainInstance, DomainRegistry};
use crate::messaging::{MailboxView, Message};
use crate::state::IsolatedState;
use crate::text::join3;

verus! {

/// What a snapshot keeps of one domain: its memory and both mailbox queues.
pub struct DomainSnapshot {
    pub state: IsolatedState,
    pub mailbox_high: Vec<Message>,
    pub mailbox_normal: Vec<Message>,
}

/// A snapshot of every domain, taken at the end of cycle `cycle`.
pub struct SnapshotData {
    pub cycle: usize,
    pub domains: Vec<(String, DomainSnapshot)>,
}

/// The place a snapshot is kept.
pub struct SnapshotManager {
    filepath: String,
}

/// The error text for a snapshot entry that names no registered domain.
pub open spec fn unknown_domain_message(name: Seq<char>) -> Seq<char> {
    "Snapshot contains unknown domain '"@ + name + "'"@
}

/// `d2` is `d` with its memory and its mailbox queues taken from `s`.
pub open spec fn restored_from(d2: DomainInstance, d: DomainInstance, s: DomainSnapshot) -> bool {
    &&& d2 == (DomainInstance { state: s.state, mailbox: d2.mailbox, ..d })
    &&& d2.mailbox@ == (MailboxView { high: s.mailbox_high@, normal: s.mailbox_normal@, ..d.mailbox@ })
}

/// The last of the first `k` entries that names `n`, or -1.
pub open spec fn latest_entry(entries: Seq<(String, DomainSnapshot)>, n: Seq<char>, k: int) -> int
    decreases k,
{
    if k <= 0 {
        -1
    } else if entries[k - 1].0@ == n {
        k - 1
    } else {
        latest_entry(entries, n, k - 1)
    }
}

/// `after` is `before` with the first `k` entries applied: the same domains,
/// each one restored from the last of those entries that names it, the
/// others unchanged.
pub open spec fn applied(
    before: Map<Seq<char>, DomainInstance>,
    after: Map<Seq<char>, DomainInstance>,
    entries: Seq<(String, DomainSnapshot)>,
    k: int,
) -> bool {
    &&& after.dom() == before.dom()
    &&& forall|n: Seq<char>| #[trigger] before.contains_key(n) ==> {
        let j = latest_entry(entries, n, k);
        if j < 0 {
            after[n] == before[n]
        } else {
            restored_from(after[n], before[n], entries[j].1)
        }
    }
}

/// Every one of the first `k` entries names a domain of `doms`.
pub open spec fn all_known(doms: Map<Seq<char>, DomainInstance>, entries: Seq<(String, DomainSnapshot)>, k: int) -> bool {
    forall|j: int| 0 <= j < k ==> doms.contains_key(#[trigger] entries[j].0@)
}

proof fn lemma_latest_entry_bounds(entries: Seq<(String, DomainSnapshot)>, n: Seq<char>, k: int)
    requires
        0 <= k,
    ensures
        latest_entry(entries, n, k) < k,
        latest_entry(entries, n, k) >= 0 ==> entries[latest_entry(entries, n, k)].0@ == n,
    decreases k,
{
    if k > 0 {
        lemma_latest_entry_bounds(entries, n, k - 1);
    }
}

/// A queue holding the messages of `v`, first one in front.
fn queue_of(v: Vec<Message>) -> (q: VecDeque<Message>)
    ensures
        q@ == v@,
{
    let ghost all = v@;
    let mut v = v;
    let mut q: VecDeque<Message> = VecDeque::new();
    while v.len() > 0
        invariant
            v@ + q@ == all,
        decreases v.len(),
    {
        let ghost before = v@;
        let m = v.pop().unwrap();
        assert(before == v@.push(m));
        q.push_front(m);
        assert(v@ + q@ =~= before + q@.drop_first());
    }
    assert(q@ =~= all);
    q
}

/// The messages of a queue, front first.
fn messages_of(q: &VecDeque<Message>) -> (v: Vec<Message>)
    ensures
        v@ == q@,
{
    let mut v: Vec<Message> = Vec::new();
    let mut i: usize = 0;
    while i < q.len()
        invariant
            i <= q@.len(),
            v@ == q@.subrange(0, i as int),
        decreases q@.len() - i,
    {
        v.push(q[i].clone());
        i = i + 1;
        assert(v@ =~= q@.subrange(0, i as int));
    }
    assert(v@ =~= q@);
    v
}

impl SnapshotData {
    /// A snapshot of every domain of `registry`, one entry per domain.
    pub fn capture(cycle: usize, registry: &DomainRegistry) -> (d: SnapshotData)
        ensures
            d.cycle == cycle,
            forall|j: int| 0 <= j < d.domains.len() ==> ({
                let (n, s) = #[trigger] d.domains@[j];
                &&& registry.domains().contains_key(n@)
                &&& s.state@ == registry.domains()[n@].state@
                &&& s.mailbox_high@ == registry.domains()[n@].mailbox@.high
                &&& s.mailbox_normal@ == registry.domains()[n@].mailbox@.normal
            }),
            forall|n: Seq<char>| #[trigger] registry.domains().contains_key(n) ==> exists|j: int|
                0 <= j < d.domains.len() && d.domains@[j].0@ == n,
            forall|i: int, j: int| 0 <= i < j < d.domains.len() ==> #[trigger] d.domains@[i].0@ != #[trigger] d.domains@[j].0@,
    {
        let names = registry.instances.keys();
        let mut domains: Vec<(String, DomainSnapshot)> = Vec::new();
        let mut i: usize = 0;
        while i < names.len()
            invariant
                i <= names.len(),
                domains.len() == i,
                forall|t: int| 0 <= t < names.len() ==> registry.domains().contains_key(#[trigger] names@[t]@),
                forall|t: int| 0 <= t < i ==> (#[trigger] domains@[t]).0@ == names@[t]@,
                forall|t: int| 0 <= t < i ==> ({
                    let (n, s) = #[trigger] domains@[t];
                    &&& s.state@ == registry.domains()[n@].state@
                    &&& s.mailbox_high@ == registry.domains()[n@].mailbox@.high
                    &&& s.mailbox_normal@ == registry.domains()[n@].mailbox@.normal
                }),
            decreases names.len() - i,
        {
            assert(registry.domains().contains_key(names@[i as int]@));
            let d = registry.instances.get(names[i].as_str()).unwrap();
            let snap = DomainSnapshot {
                state: d.state.snapshot(),
                mailbox_high: messages_of(&d.mailbox.high),
                mailbox_normal: messages_of(&d.mailbox.normal),
            };
            domains.push((names[i].clone(), snap));
            i = i + 1;
        }
        proof {
            assert forall|n: Seq<char>| #[trigger] registry.domains().contains_key(n) implies exists|j: int|
                0 <= j < domains.len() && domains@[j].0@ == n by {
                let t = choose|t: int| 0 <= t < names.len() && names@[t]@ == n;
                assert(domains@[t].0@ == n);
            }
            assert forall|a: int, b: int| 0 <= a < b < domains.len() implies #[trigger] domains@[a].0@ != #[trigger] domains@[b].0@ by {
                assert(domains@[a].0@ == names@[a]@ && domains@[b].0@ == names@[b]@);
                assert(names@[a]@ != names@[b]@);
            }
        }
        SnapshotData { cycle, domains }
    }
}

impl SnapshotManager {
    /// Where the snapshot is kept.
    pub closed spec fn path(&self) -> Seq<char> {
        self.filepath@
    }

    /// A manager for the snapshot file at `filepath`.
    pub fn new(filepath: &str) -> (m: Self)
        ensures
            m.path() == filepath@,
    {
        SnapshotManager { filepath: String::from_str(filepath) }
    }

    /// The path of the snapshot file.
    pub fn filepath(&self) -> (r: &str)
        ensures
            r@ == self.path(),
    {
        self.filepath.as_str()
    }

    /// Applies `data` to `registry`, entry by entry: each entry replaces the
    /// memory and the mailbox queues of the domain it names. An entry that
    /// names no registered domain stops the restore with an error; the
    /// entries before it stay applied.
    pub fn restore_into(&self, data: SnapshotData, registry: &mut DomainRegistry) -> (r: Result<(), String>)
        ensures
            r is Ok <==> all_known(old(registry).domains(), data.domains@, data.domains@.len() as int),
            r is Ok ==> applied(old(registry).domains(), final(registry).domains(), data.domains@, data.domains@.len() as int),
            r matches Err(e) ==> exists|k: int| #![trigger data.domains@[k]]
                0 <= k < data.domains@.len()
                && all_known(old(registry).domains(), data.domains@, k)
                && !old(registry).domains().contains_key(data.domains@[k].0@)
                && e@ == unknown_domain_message(data.domains@[k].0@)
                && applied(old(registry).domains(), final(registry).domains(), data.domains@, k),
    {
        let ghost all = data.domains@;
        let ghost before = registry.domains();
        let mut entries = data.domains;
        let mut i: usize = 0;
        assert(all.len() == entries.len());
        assert(applied(before, registry.domains(), all, 0));
        while entries.len() > 0
            invariant
                i + entries.len() == all.len(),
                all.len() <= usize::MAX,
                entries@ == all.subrange(i as int, all.len() as int),
                before == old(registry).domains(),
                all == data.domains@,
                all_known(before, all, i as int),
                applied(before, registry.domains(), all, i as int),
            decreases entries.len(),
        {
            assert(entries@[0] == all[i as int]);
            let (name, snap) = entries.remove(0);
            assert(entries@ =~= all.subrange(i + 1, all.len() as int));
            let ghost cur = registry.domains();
            match registry.get_mut(name.as_str()) {
                Some(instance) => {
                    let DomainSnapshot { state, mailbox_high, mailbox_normal } = snap;
                    instance.state = state;
                    instance.mailbox.high = queue_of(mailbox_high);
                    instance.mailbox.normal = queue_of(mailbox_normal);
                    proof {
                        let now = registry.domains();
                        assert forall|n: Seq<char>| #[trigger] before.contains_key(n) implies {
                            let j = latest_entry(all, n, i + 1);
                            if j < 0 {
                                now[n] == before[n]
                            } else {
                                restored_from(now[n], before[n], all[j].1)
                            }
                        } by {
                            lemma_latest_entry_bounds(all, n, i as int);
                            if n != name@ {
                                assert(latest_entry(all, n, i + 1) == latest_entry(all, n, i as int));
                            } else {
                                assert(latest_entry(all, n, i + 1) == i);
                            }
                        }
                        assert(now.dom() =~= before.dom());
                    }
                    i = i + 1;
                },
                None => {
                    let e = join3("Snapshot contains unknown domain '", name.as_str(), "'");
                    assert(!before.contains_key(all[i as int].0@));
                    assert(all[i as int] == data.domains@[i as int]);
                    return Err(e);
                },
            }
        }
        Ok(())
    }
}

proof fn lemma_latest_entry_distinct(entries: Seq<(String, DomainSnapshot)>, j: int, k: int)
    requires
        0 <= j < k <= entries.len(),
        forall|a: int, b: int| 0 <= a < b < entries.len() ==> #[trigger] entries[a].0@ != #[trigger] entries[b].0@,
    ensures
        latest_entry(entries, entries[j].0@, k) == j,
    decreases k,
{
    if k - 1 != j {
        assert(entries[j].0@ != entries[k - 1].0@);
        lemma_latest_entry_distinct(entries, j, k - 1);
    }
}

/// A restore gives back what the snapshot held: once every entry of a
/// snapshot with distinct names is applied, each domain an entry names holds
/// exactly that entry's memory and mailbox queues, with its other parts as
/// they were, and the domains no entry names are unchanged.
pub proof fn lemma_restore_gives_back(
    before: Map<Seq<char>, DomainInstance>,
    after: Map<Seq<char>, DomainInstance>,
    entries: Seq<(String, DomainSnapshot)>,
)
    requires
        applied(before, after, entries, entries.len() as int),
        all_known(before, entries, entries.len() as int),
        forall|a: int, b: int| 0 <= a < b < entries.len() ==> #[trigger] entries[a].0@ != #[trigger] entries[b].0@,
    ensures
        forall|j: int| 0 <= j < entries.len() ==> {
            let n = (#[trigger] entries[j]).0@;
            &&& after.contains_key(n)
            &&& after[n].state == entries[j].1.state
            &&& after[n].mailbox@.high == entries[j].1.mailbox_high@
            &&& after[n].mailbox@.normal == entries[j].1.mailbox_normal@
            &&& after[n].mailbox@.capacity == before[n].mailbox@.capacity
            &&& after[n].name == before[n].name
            &&& after[n].bytecode == before[n].bytecode
        },
        forall|n: Seq<char>| #[trigger] before.contains_key(n) && (forall|j: int| 0 <= j < entries.len() ==> entries[j].0@ != n)
            ==> after[n] == before[n],
{
    assert forall|j: int| 0 <= j < entries.len() implies {
        let n = (#[trigger] entries[j]).0@;
        &&& after.contains_key(n)
        &&& after[n].state == entries[j].1.state
        &&& after[n].mailbox@.high == entries[j].1.mailbox_high@
        &&& after[n].mailbox@.normal == entries[j].1.mailbox_normal@
        &&& after[n].mailbox@.capacity == before[n].mailbox@.capacity
        &&& after[n].name == before[n].name
        &&& after[n].bytecode == before[n].bytecode
    } by {
        let n = entries[j].0@;
        assert(before.contains_key(n));
        lemma_latest_entry_distinct(entries, j, entries.len() as int);
    }
    assert forall|n: Seq<char>| #[trigger] before.contains_key(n) && (forall|j: int| 0 <= j < entries.len() ==> entries[j].0@ != n)
        implies after[n] == before[n] by {
        lemma_latest_entry_bounds(entries, n, entries.len() as int);
    }
}

} // verus!
