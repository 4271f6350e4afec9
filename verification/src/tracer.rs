//! The structured execution trace: one event per scheduler action, and its
//! rendering as aligned text lines. Writing and reading the JSON form is the
//! host program's part.

use vstd::prelude::*;
use crate::text::{nat_digits, push_char, usize_text};

verus! {

pub struct TraceEvent {
    pub cycle: usize,
    pub domain: String,
    pub action: String,
    pub details: String,
}

pub struct Tracer {
    events: Vec<TraceEvent>,
}

/// The content of an event, with its strings taken as character sequences.
pub struct EventView {
    pub cycle: nat,
    pub domain: Seq<char>,
    pub action: Seq<char>,
    pub details: Seq<char>,
}

impl View for TraceEvent {
    type V = EventView;

    open spec fn view(&self) -> EventView {
        EventView { cycle: self.cycle as nat, domain: self.domain@, action: self.action@, details: self.details@ }
    }
}

/// The views of a sequence of events.
pub open spec fn events_view(s: Seq<TraceEvent>) -> Seq<EventView> {
    s.map_values(|e: TraceEvent| e@)
}

impl View for Tracer {
    type V = Seq<EventView>;

    closed spec fn view(&self) -> Seq<EventView> {
        events_view(self.events@)
    }
}

/// The decimal digits of `n`, with zeros in front up to `width` characters.
pub open spec fn zero_padded(n: nat, width: nat) -> Seq<char> {
    let d = nat_digits(n);
    if d.len() >= width { d } else { Seq::new((width - d.len()) as nat, |i: int| '0') + d }
}

/// `s` with spaces after it up to `width` characters.
pub open spec fn space_padded(s: Seq<char>, width: nat) -> Seq<char> {
    if s.len() >= width { s } else { s + Seq::new((width - s.len()) as nat, |i: int| ' ') }
}

/// The text line of an event: the cycle in three digits at least, the
/// domain and the action in columns of 15 and 18 characters, the details.
pub open spec fn event_line(e: EventView) -> Seq<char> {
    "[Cycle "@ + zero_padded(e.cycle, 3) + "] "@ + space_padded(e.domain, 15) + " | "@ + space_padded(e.action, 18)
        + " | "@ + e.details
}

/// Appends `c` to `s` until `s` has grown by `count` characters.
fn push_repeated(s: &mut String, c: char, count: usize)
    ensures
        final(s)@ == old(s)@ + Seq::new(count as nat, |i: int| c),
{
    let mut k: usize = 0;
    while k < count
        invariant
            k <= count,
            s@ == old(s)@ + Seq::new(k as nat, |i: int| c),
        decreases count - k,
    {
        push_char(s, c);
        k = k + 1;
        assert(s@ =~= old(s)@ + Seq::new(k as nat, |i: int| c));
    }
}

/// Appends `t` and then spaces up to `width` characters of `t`.
fn push_padded(s: &mut String, t: &str, width: usize)
    ensures
        final(s)@ == old(s)@ + space_padded(t@, width as nat),
{
    s.append(t);
    let n = t.unicode_len();
    if n < width {
        push_repeated(s, ' ', width - n);
    }
    assert(s@ =~= old(s)@ + space_padded(t@, width as nat));
}

impl Tracer {
    /// A tracer with no events.
    pub fn new() -> (t: Self)
        ensures
            t@ == Seq::<EventView>::empty(),
    {
        let t = Tracer { events: Vec::new() };
        assert(t@ =~= Seq::<EventView>::empty());
        t
    }

    /// Appends an event.
    pub fn record(&mut self, cycle: usize, domain: &str, action: &str, details: &str)
        ensures
            final(self)@ == old(self)@.push(EventView { cycle: cycle as nat, domain: domain@, action: action@, details: details@ }),
    {
        let e = TraceEvent {
            cycle,
            domain: String::from_str(domain),
            action: String::from_str(action),
            details: String::from_str(details),
        };
        self.events.push(e);
        assert(events_view(self.events@) =~= events_view(old(self).events@).push(e@));
    }

    /// The events recorded so far, oldest first.
    pub fn events(&self) -> (r: &Vec<TraceEvent>)
        ensures
            events_view(r@) == self@,
    {
        &self.events
    }

    /// The text line of one event, as `event_line` lays it out.
    pub fn format_event(e: &TraceEvent) -> (line: String)
        ensures
            line@ == event_line(e@),
    {
        let mut line = String::from_str("[Cycle ");
        let digits = usize_text(e.cycle);
        let n = digits.as_str().unicode_len();
        if n < 3 {
            push_repeated(&mut line, '0', 3 - n);
        }
        line.append(digits.as_str());
        line.append("] ");
        push_padded(&mut line, e.domain.as_str(), 15);
        line.append(" | ");
        push_padded(&mut line, e.action.as_str(), 18);
        line.append(" | ");
        line.append(e.details.as_str());
        proof {
            reveal_strlit("[Cycle ");
        }
        assert(line@ =~= event_line(e@));
        line
    }

    /// The text lines of a sequence of events, one per event, in order.
    pub fn format_trace(events: &Vec<TraceEvent>) -> (lines: Vec<String>)
        ensures
            lines@.len() == events@.len(),
            forall|i: int| 0 <= i < events@.len() ==> (#[trigger] lines@[i])@ == event_line(events@[i]@),
    {
        let mut lines: Vec<String> = Vec::new();
        let mut i: usize = 0;
        while i < events.len()
            invariant
                i <= events@.len(),
                lines@.len() == i,
                forall|j: int| 0 <= j < i ==> (#[trigger] lines@[j])@ == event_line(events@[j]@),
            decreases events@.len() - i,
        {
            lines.push(Self::format_event(&events[i]));
            i = i + 1;
        }
        lines
    }
}

} // verus!
