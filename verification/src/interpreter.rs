//! The slice interpreter: runs a transition's bytecode against a domain's
//! isolated memory under an instruction budget.

use vstd::prelude::*;
use crate::bytecode::{Constant, ConstantView, OpCode, TransitionBytecode, constants_view};
use crate::messaging::{Message, MessageView, messages_view};
use crate::state::{IsolatedState, undeclared_field_message, zeroed};
use crate::text::{join2, join3};

verus! {

pub struct Interpreter {
    pub state: IsolatedState,
    pub registers: [i64; 256],
    pub available_capabilities: Vec<String>,
}

pub enum SliceResult {
    Completed(Vec<Message>),
    Suspended { pc: usize, outbox: Vec<Message> },
    Fault(String),
}

/// The abstract machine: memory, registers, program counter and the
/// messages sent so far.
pub struct Machine {
    pub mem: Map<Seq<char>, i64>,
    pub regs: Seq<i64>,
    pub pc: int,
    pub outbox: Seq<MessageView>,
}

/// The outcome of one instruction.
pub enum Step {
    Next(Machine),
    Halt(Machine),
    Fault(Seq<char>, Machine),
    /// The instruction would panic (an index out of range or an integer
    /// overflow).
    Crash,
}

/// The outcome of a slice.
pub enum Run {
    Completed(Machine),
    Suspended(Machine),
    Fault(Seq<char>, Machine),
    Crash,
}

/// The views of a sequence of strings.
pub open spec fn texts(s: Seq<String>) -> Seq<Seq<char>> {
    s.map_values(|x: String| x@)
}

pub open spec fn fits_i64(v: int) -> bool {
    i64::MIN <= v <= i64::MAX
}

/// Integer division rounding toward zero, as Rust's `/` on integers does.
pub open spec fn trunc_div(a: int, b: int) -> int {
    let q = (if a < 0 { -a } else { a }) / (if b < 0 { -b } else { b });
    if (a < 0) != (b < 0) { -q } else { q }
}

/// `a / b` on `i64`.
pub fn div_i64(a: i64, b: i64) -> (r: i64)
    requires
        b != 0,
        !(a == i64::MIN && b == -1),
    ensures
        r == trunc_div(a as int, b as int),
{
    let na: u64 = if a < 0 { (0i128 - a as i128) as u64 } else { a as u64 };
    let nb: u64 = if b < 0 { (0i128 - b as i128) as u64 } else { b as u64 };
    let q = na / nb;
    assert(q <= na);
    if (a < 0) != (b < 0) {
        (0i128 - q as i128) as i64
    } else {
        assert(q <= i64::MAX) by {
            if na == i64::MAX + 1 {
                assert(na / nb <= na / 2) by (nonlinear_arith)
                    requires
                        nb >= 2,
                ;
            }
        }
        q as i64
    }
}

/// Integer division overflows only for `i64::MIN / -1`.
pub proof fn lemma_trunc_div_fits(a: i64, b: i64)
    requires
        b != 0,
        !(a == i64::MIN && b == -1),
    ensures
        fits_i64(trunc_div(a as int, b as int)),
{
    let na: int = if a < 0 { -(a as int) } else { a as int };
    let nb: int = if b < 0 { -(b as int) } else { b as int };
    assert(na / nb <= na) by (nonlinear_arith)
        requires
            na >= 0,
            nb >= 1,
    ;
    assert(na / nb >= 0) by (nonlinear_arith)
        requires
            na >= 0,
            nb >= 1,
    ;
    if na == i64::MAX + 1 && nb >= 2 {
        assert(na / nb <= na / 2) by (nonlinear_arith)
            requires
                na >= 0,
                nb >= 2,
        ;
    }
}

pub open spec fn with_reg(m: Machine, r: u8, v: i64) -> Machine {
    Machine { regs: m.regs.update(r as int, v), ..m }
}

pub open spec fn flag(b: bool) -> i64 {
    if b { 1 } else { 0 }
}

/// Whether `caps` holds the capability `c`.
pub open spec fn holds(caps: Seq<Seq<char>>, c: Seq<char>) -> bool {
    caps.contains(c)
}

/// A domain may send to `target` when it holds `send_to:<target>` or `root`.
pub open spec fn may_send(caps: Seq<Seq<char>>, target: Seq<char>) -> bool {
    holds(caps, "send_to:"@ + target) || holds(caps, "root"@)
}

pub open spec fn missing_capability_message(target: Seq<char>) -> Seq<char> {
    "Authority/Scope breach: missing capability 'send_to:"@ + target + "'"@
}

/// A message as the interpreter sends it: no id, no source, clock 0.
pub open spec fn outgoing(target: Seq<char>, payload: Seq<char>, priority: u8) -> MessageView {
    MessageView {
        id: Seq::empty(),
        source_domain: Seq::empty(),
        target_domain: target,
        payload,
        priority,
        clock: 0,
    }
}

/// Sending `consts[t]` the payload `consts[p]`; `high` picks the opcode and
/// the priority.
pub open spec fn send_step(
    consts: Seq<ConstantView>,
    caps: Seq<Seq<char>>,
    n: Machine,
    t: usize,
    p: usize,
    high: bool,
) -> Step {
    if t >= consts.len() {
        Step::Crash
    } else {
        match consts[t as int] {
            ConstantView::Str(target) => {
                if !may_send(caps, target) {
                    Step::Fault(missing_capability_message(target), n)
                } else if p >= consts.len() {
                    Step::Crash
                } else {
                    match consts[p as int] {
                        ConstantView::Str(payload) => Step::Next(
                            Machine {
                                outbox: n.outbox.push(outgoing(target, payload, if high { 1u8 } else { 0u8 })),
                                ..n
                            },
                        ),
                        _ => Step::Fault(
                            if high { "SendHighMsg payload must be a string"@ } else { "SendMsg payload must be a string"@ },
                            n,
                        ),
                    }
                }
            },
            _ => Step::Fault(
                if high { "SendHighMsg target must be a string"@ } else { "SendMsg target must be a string"@ },
                n,
            ),
        }
    }
}

pub open spec fn arith(n: Machine, v: int, dest: u8) -> Step {
    if fits_i64(v) { Step::Next(with_reg(n, dest, v as i64)) } else { Step::Crash }
}

/// One instruction of a transition, at `m.pc`.
pub open spec fn step(
    code: Seq<OpCode>,
    consts: Seq<ConstantView>,
    fields: Seq<Seq<char>>,
    caps: Seq<Seq<char>>,
    m: Machine,
) -> Step {
    let n = Machine { pc: m.pc + 1, ..m };
    let g = |r: u8| n.regs[r as int];
    match code[m.pc] {
        OpCode::LoadConst { const_idx, dest_reg } => {
            if const_idx >= consts.len() {
                Step::Crash
            } else {
                match consts[const_idx as int] {
                    ConstantView::Int(v) => Step::Next(with_reg(n, dest_reg, v)),
                    ConstantView::Str(_) => Step::Next(n),
                }
            }
        },
        OpCode::LoadState { field_idx, dest_reg } => {
            if field_idx >= fields.len() {
                Step::Crash
            } else {
                let key = fields[field_idx as int];
                Step::Next(with_reg(n, dest_reg, if n.mem.contains_key(key) { n.mem[key] } else { 0 }))
            }
        },
        OpCode::StoreState { src_reg, field_idx } => {
            if field_idx >= fields.len() {
                Step::Crash
            } else {
                let key = fields[field_idx as int];
                if n.mem.contains_key(key) {
                    Step::Next(Machine { mem: n.mem.insert(key, g(src_reg)), ..n })
                } else {
                    Step::Fault(undeclared_field_message(key), n)
                }
            }
        },
        OpCode::AddInt { r1, r2, dest } => arith(n, g(r1) + g(r2), dest),
        OpCode::SubInt { r1, r2, dest } => arith(n, g(r1) - g(r2), dest),
        OpCode::MulInt { r1, r2, dest } => arith(n, g(r1) * g(r2), dest),
        OpCode::DivInt { r1, r2, dest } => {
            if g(r2) == 0 {
                Step::Fault("Deterministic fault: Division by zero"@, n)
            } else {
                arith(n, trunc_div(g(r1) as int, g(r2) as int), dest)
            }
        },
        OpCode::CmpEq { r1, r2, dest } => Step::Next(with_reg(n, dest, flag(g(r1) == g(r2)))),
        OpCode::CmpLt { r1, r2, dest } => Step::Next(with_reg(n, dest, flag(g(r1) < g(r2)))),
        OpCode::CmpGt { r1, r2, dest } => Step::Next(with_reg(n, dest, flag(g(r1) > g(r2)))),
        OpCode::CmpGte { r1, r2, dest } => Step::Next(with_reg(n, dest, flag(g(r1) >= g(r2)))),
        OpCode::CmpLte { r1, r2, dest } => Step::Next(with_reg(n, dest, flag(g(r1) <= g(r2)))),
        OpCode::AndBool { r1, r2, dest } => Step::Next(with_reg(n, dest, flag(g(r1) != 0 && g(r2) != 0))),
        OpCode::OrBool { r1, r2, dest } => Step::Next(with_reg(n, dest, flag(g(r1) != 0 || g(r2) != 0))),
        OpCode::NotBool { r1, dest } => Step::Next(with_reg(n, dest, flag(g(r1) == 0))),
        OpCode::ListLen { .. } | OpCode::ListGet { .. } | OpCode::ListAppend { .. } => Step::Fault(
            "Deterministic fault: List commands unsupported in Phase 1 runtime"@,
            n,
        ),
        OpCode::EmitEffect { .. } | OpCode::CheckGoal { .. } => Step::Fault(
            "Deterministic fault: Effects and Advanced Goal checking via bytecode not yet wired"@,
            n,
        ),
        OpCode::JumpIfFalse { test_reg, target_offset } => {
            if g(test_reg) == 0 {
                Step::Next(Machine { pc: target_offset as int, ..n })
            } else {
                Step::Next(n)
            }
        },
        OpCode::Jump { target_offset } => Step::Next(Machine { pc: target_offset as int, ..n }),
        OpCode::SendMsg { target_const_idx, msg_const_idx } => send_step(
            consts,
            caps,
            n,
            target_const_idx,
            msg_const_idx,
            false,
        ),
        OpCode::SendHighMsg { target_const_idx, msg_const_idx } => send_step(
            consts,
            caps,
            n,
            target_const_idx,
            msg_const_idx,
            true,
        ),
        OpCode::HaltSlice => Step::Halt(n),
    }
}

/// A slice run from machine `m` with `gas` instructions left: it ends when
/// the program counter leaves the code or a `HaltSlice` executes, it is
/// suspended when the budget runs out first, and it stops at a fault.
pub open spec fn run(
    code: Seq<OpCode>,
    consts: Seq<ConstantView>,
    fields: Seq<Seq<char>>,
    caps: Seq<Seq<char>>,
    m: Machine,
    gas: nat,
) -> Run
    decreases gas,
{
    if m.pc >= code.len() {
        Run::Completed(m)
    } else if gas == 0 {
        Run::Suspended(m)
    } else {
        match step(code, consts, fields, caps, m) {
            Step::Next(m2) => run(code, consts, fields, caps, m2, (gas - 1) as nat),
            Step::Halt(m2) => Run::Completed(m2),
            Step::Fault(e, m2) => Run::Fault(e, m2),
            Step::Crash => Run::Crash,
        }
    }
}

/// The machine of an interpreter about to run at `pc` with `outbox`.
pub open spec fn machine_of(i: Interpreter, pc: int, outbox: Seq<Message>) -> Machine {
    Machine { mem: i.state@, regs: i.registers@, pc, outbox: messages_view(outbox) }
}

/// What `run_slice` computes for these arguments.
pub open spec fn slice_outcome(
    i: Interpreter,
    trans: TransitionBytecode,
    fields: Seq<String>,
    gas: nat,
    start_pc: int,
    outbox: Seq<Message>,
) -> Run {
    run(
        trans.instructions@,
        constants_view(trans.constants@),
        texts(fields),
        texts(i.available_capabilities@),
        machine_of(i, start_pc, outbox),
        gas,
    )
}

/// The interpreter after the slice and the returned value agree with `o`.
pub open spec fn slice_result_is(r: SliceResult, after: Interpreter, o: Run) -> bool {
    match o {
        Run::Completed(m) => after.state@ == m.mem && after.registers@ == m.regs && (r matches SliceResult::Completed(ob)
            && messages_view(ob@) == m.outbox),
        Run::Suspended(m) => after.state@ == m.mem && after.registers@ == m.regs && (r matches SliceResult::Suspended { pc, outbox }
            && pc == m.pc && messages_view(outbox@) == m.outbox),
        Run::Fault(e, m) => after.state@ == m.mem && after.registers@ == m.regs && (r matches SliceResult::Fault(msg)
            && msg@ == e),
        Run::Crash => false,
    }
}

/// What one executed instruction asks the loop to do next.
enum Flow {
    Continue(usize),
    Halt,
    Fault(String),
}

/// Whether some capability in `caps` is exactly `c`.
fn has_capability(caps: &Vec<String>, c: &String) -> (r: bool)
    ensures
        r == holds(texts(caps@), c@),
{
    let mut i: usize = 0;
    while i < caps.len()
        invariant
            i <= caps.len(),
            forall|j: int| 0 <= j < i ==> #[trigger] caps@[j]@ != c@,
        decreases caps.len() - i,
    {
        if caps[i] == *c {
            assert(texts(caps@)[i as int] == c@);
            return true;
        }
        i = i + 1;
    }
    assert forall|j: int| 0 <= j < texts(caps@).len() implies texts(caps@)[j] != c@ by {
        assert(caps@[j]@ != c@);
    }
    false
}

impl Interpreter {
    /// A fresh interpreter over a zeroed state for `schema`.
    pub fn new(schema: &[String]) -> (r: Self)
        ensures
            r.state@ == zeroed(schema@),
            r.registers@ == Seq::new(256, |i: int| 0i64),
            r.available_capabilities@.len() == 0,
    {
        let r = Interpreter { state: IsolatedState::new(schema), registers: [0i64; 256], available_capabilities: Vec::new() };
        assert(r.registers@ =~= Seq::new(256, |i: int| 0i64));
        r
    }

    /// A fresh interpreter over the given state.
    pub fn with_state(state: IsolatedState) -> (r: Self)
        ensures
            r.state@ == state@,
            r.registers@ == Seq::new(256, |i: int| 0i64),
            r.available_capabilities@.len() == 0,
    {
        let r = Interpreter { state, registers: [0i64; 256], available_capabilities: Vec::new() };
        assert(r.registers@ =~= Seq::new(256, |i: int| 0i64));
        r
    }

    /// Replaces the capabilities granted to the running code.
    pub fn set_capabilities(&mut self, caps: Vec<String>)
        ensures
            final(self).available_capabilities@ == caps@,
            final(self).state@ == old(self).state@,
            final(self).registers@ == old(self).registers@,
    {
        self.available_capabilities = caps;
    }

    fn send(&mut self, consts: &Vec<Constant>, t: usize, p: usize, high: bool, next_pc: usize, outbox: &mut Vec<Message>) -> (r: Flow)
        requires
            !(send_step(constants_view(consts@), texts(old(self).available_capabilities@), machine_of(*old(self), next_pc as int, old(outbox)@), t, p, high) is Crash),
        ensures
            *final(self) == *old(self),
            match send_step(constants_view(consts@), texts(old(self).available_capabilities@), machine_of(*old(self), next_pc as int, old(outbox)@), t, p, high) {
                Step::Next(m2) => r == Flow::Continue(next_pc) && messages_view(final(outbox)@) == m2.outbox,
                Step::Fault(e, _) => r matches Flow::Fault(msg) && msg@ == e,
                _ => false,
            },
    {
        let target = match &consts[t] {
            Constant::String(s) => s.clone(),
            _ => {
                return Flow::Fault(String::from_str(if high { "SendHighMsg target must be a string" } else { "SendMsg target must be a string" }));
            },
        };
        let wanted = join2("send_to:", target.as_str());
        let root = String::from_str("root");
        if !has_capability(&self.available_capabilities, &wanted) && !has_capability(&self.available_capabilities, &root) {
            return Flow::Fault(join3("Authority/Scope breach: missing capability 'send_to:", target.as_str(), "'"));
        }
        let payload = match &consts[p] {
            Constant::String(s) => s.clone(),
            _ => {
                return Flow::Fault(String::from_str(if high { "SendHighMsg payload must be a string" } else { "SendMsg payload must be a string" }));
            },
        };
        let msg = Message {
            id: String::new(),
            source_domain: String::new(),
            target_domain: target,
            payload,
            priority: if high { 1 } else { 0 },
            clock: 0,
        };
        outbox.push(msg);
        proof {
            assert(messages_view(outbox@) =~= messages_view(old(outbox)@).push(msg@));
        }
        Flow::Continue(next_pc)
    }

    /// Executes the instruction at `pc`.
    fn exec_one(&mut self, trans: &TransitionBytecode, field_names: &[String], pc: usize, outbox: &mut Vec<Message>) -> (r: Flow)
        requires
            pc < trans.instructions.len(),
            !(step(trans.instructions@, constants_view(trans.constants@), texts(field_names@), texts(old(self).available_capabilities@), machine_of(*old(self), pc as int, old(outbox)@)) is Crash),
        ensures
            final(self).available_capabilities == old(self).available_capabilities,
            match step(trans.instructions@, constants_view(trans.constants@), texts(field_names@), texts(old(self).available_capabilities@), machine_of(*old(self), pc as int, old(outbox)@)) {
                Step::Next(m2) => r matches Flow::Continue(npc) && machine_of(*final(self), npc as int, final(outbox)@) == m2,
                Step::Halt(m2) => r is Halt && machine_of(*final(self), m2.pc, final(outbox)@) == m2,
                Step::Fault(e, m2) => r matches Flow::Fault(msg) && msg@ == e && final(self).state@ == m2.mem && final(self).registers@ == m2.regs,
                Step::Crash => false,
            },
    {
        let consts = &trans.constants;
        let next = pc + 1;
        let ghost cv = constants_view(consts@);
        match &trans.instructions[pc] {
            OpCode::LoadConst { const_idx, dest_reg } => {
                assert(cv[*const_idx as int] == consts@[*const_idx as int]@);
                match &consts[*const_idx] {
                    Constant::Int(val) => {
                        self.registers[*dest_reg as usize] = *val;
                    },
                    Constant::String(_) => {},
                }
                Flow::Continue(next)
            },
            OpCode::LoadState { field_idx, dest_reg } => {
                let key = &field_names[*field_idx];
                let val = match self.state.get(key.as_str()) {
                    Some(v) => v,
                    None => 0,
                };
                self.registers[*dest_reg as usize] = val;
                Flow::Continue(next)
            },
            OpCode::StoreState { src_reg, field_idx } => {
                let key = &field_names[*field_idx];
                let val = self.registers[*src_reg as usize];
                match self.state.set(key.as_str(), val) {
                    Ok(()) => Flow::Continue(next),
                    Err(e) => Flow::Fault(e),
                }
            },
            OpCode::AddInt { r1, r2, dest } => {
                self.registers[*dest as usize] = self.registers[*r1 as usize] + self.registers[*r2 as usize];
                Flow::Continue(next)
            },
            OpCode::SubInt { r1, r2, dest } => {
                self.registers[*dest as usize] = self.registers[*r1 as usize] - self.registers[*r2 as usize];
                Flow::Continue(next)
            },
            OpCode::MulInt { r1, r2, dest } => {
                self.registers[*dest as usize] = self.registers[*r1 as usize] * self.registers[*r2 as usize];
                Flow::Continue(next)
            },
            OpCode::DivInt { r1, r2, dest } => {
                let divisor = self.registers[*r2 as usize];
                if divisor == 0 {
                    return Flow::Fault(String::from_str("Deterministic fault: Division by zero"));
                }
                if self.registers[*r1 as usize] == i64::MIN && divisor == -1 {
                    assert(trunc_div(i64::MIN as int, -1) == i64::MAX + 1);
                }
                self.registers[*dest as usize] = div_i64(self.registers[*r1 as usize], divisor);
                Flow::Continue(next)
            },
            OpCode::CmpEq { r1, r2, dest } => {
                self.registers[*dest as usize] = if self.registers[*r1 as usize] == self.registers[*r2 as usize] { 1 } else { 0 };
                Flow::Continue(next)
            },
            OpCode::CmpLt { r1, r2, dest } => {
                self.registers[*dest as usize] = if self.registers[*r1 as usize] < self.registers[*r2 as usize] { 1 } else { 0 };
                Flow::Continue(next)
            },
            OpCode::CmpGt { r1, r2, dest } => {
                self.registers[*dest as usize] = if self.registers[*r1 as usize] > self.registers[*r2 as usize] { 1 } else { 0 };
                Flow::Continue(next)
            },
            OpCode::CmpGte { r1, r2, dest } => {
                self.registers[*dest as usize] = if self.registers[*r1 as usize] >= self.registers[*r2 as usize] { 1 } else { 0 };
                Flow::Continue(next)
            },
            OpCode::CmpLte { r1, r2, dest } => {
                self.registers[*dest as usize] = if self.registers[*r1 as usize] <= self.registers[*r2 as usize] { 1 } else { 0 };
                Flow::Continue(next)
            },
            OpCode::AndBool { r1, r2, dest } => {
                let a = self.registers[*r1 as usize] != 0;
                let b = self.registers[*r2 as usize] != 0;
                self.registers[*dest as usize] = if a && b { 1 } else { 0 };
                Flow::Continue(next)
            },
            OpCode::OrBool { r1, r2, dest } => {
                let a = self.registers[*r1 as usize] != 0;
                let b = self.registers[*r2 as usize] != 0;
                self.registers[*dest as usize] = if a || b { 1 } else { 0 };
                Flow::Continue(next)
            },
            OpCode::NotBool { r1, dest } => {
                let a = self.registers[*r1 as usize] != 0;
                self.registers[*dest as usize] = if !a { 1 } else { 0 };
                Flow::Continue(next)
            },
            OpCode::ListLen { .. } | OpCode::ListGet { .. } | OpCode::ListAppend { .. } => {
                Flow::Fault(String::from_str("Deterministic fault: List commands unsupported in Phase 1 runtime"))
            },
            OpCode::EmitEffect { .. } | OpCode::CheckGoal { .. } => {
                Flow::Fault(String::from_str("Deterministic fault: Effects and Advanced Goal checking via bytecode not yet wired"))
            },
            OpCode::JumpIfFalse { test_reg, target_offset } => {
                if self.registers[*test_reg as usize] == 0 {
                    Flow::Continue(*target_offset)
                } else {
                    Flow::Continue(next)
                }
            },
            OpCode::Jump { target_offset } => Flow::Continue(*target_offset),
            OpCode::SendMsg { target_const_idx, msg_const_idx } => {
                self.send(consts, *target_const_idx, *msg_const_idx, false, next, outbox)
            },
            OpCode::SendHighMsg { target_const_idx, msg_const_idx } => {
                self.send(consts, *target_const_idx, *msg_const_idx, true, next, outbox)
            },
            OpCode::HaltSlice => Flow::Halt,
        }
    }

    /// Whether sending `consts[t]` the payload `consts[p]` would panic.
    fn send_crashes(&self, consts: &Vec<Constant>, t: usize, p: usize, Ghost(n): Ghost<Machine>, high: bool) -> (r: bool)
        ensures
            r == (send_step(constants_view(consts@), texts(self.available_capabilities@), n, t, p, high) is Crash),
    {
        if t >= consts.len() {
            return true;
        }
        assert(constants_view(consts@)[t as int] == consts@[t as int]@);
        match &consts[t] {
            Constant::String(target) => {
                let wanted = join2("send_to:", target.as_str());
                let root = String::from_str("root");
                proof {
                    reveal_strlit("root");
                    reveal_strlit("send_to:");
                }
                if !has_capability(&self.available_capabilities, &wanted) && !has_capability(&self.available_capabilities, &root) {
                    return false;
                }
                p >= consts.len()
            },
            _ => false,
        }
    }

    /// Whether the instruction at `pc` would panic (an index out of range or
    /// an integer overflow).
    fn step_crashes(&self, trans: &TransitionBytecode, field_names: &[String], pc: usize, Ghost(outbox): Ghost<Seq<Message>>) -> (r: bool)
        requires
            pc < trans.instructions.len(),
        ensures
            r == (step(trans.instructions@, constants_view(trans.constants@), texts(field_names@), texts(self.available_capabilities@), machine_of(*self, pc as int, outbox)) is Crash),
    {
        let ghost m = machine_of(*self, pc as int, outbox);
        let ghost n = Machine { pc: m.pc + 1, ..m };
        let consts = &trans.constants;
        let regs = &self.registers;
        match &trans.instructions[pc] {
            OpCode::LoadConst { const_idx, .. } => *const_idx >= consts.len(),
            OpCode::LoadState { field_idx, .. } => *field_idx >= field_names.len(),
            OpCode::StoreState { field_idx, .. } => *field_idx >= field_names.len(),
            OpCode::AddInt { r1, r2, .. } => {
                let v = regs[*r1 as usize] as i128 + regs[*r2 as usize] as i128;
                v < i64::MIN as i128 || v > i64::MAX as i128
            },
            OpCode::SubInt { r1, r2, .. } => {
                let v = regs[*r1 as usize] as i128 - regs[*r2 as usize] as i128;
                v < i64::MIN as i128 || v > i64::MAX as i128
            },
            OpCode::MulInt { r1, r2, .. } => {
                let a = regs[*r1 as usize] as i128;
                let b = regs[*r2 as usize] as i128;
                assert(-0x8000_0000_0000_0000 <= a <= 0x7fff_ffff_ffff_ffff && -0x8000_0000_0000_0000 <= b <= 0x7fff_ffff_ffff_ffff);
                assert(-0x4000_0000_0000_0000_0000_0000_0000_0000 <= a * b <= 0x4000_0000_0000_0000_0000_0000_0000_0000) by (nonlinear_arith)
                    requires
                        -0x8000_0000_0000_0000 <= a <= 0x7fff_ffff_ffff_ffff,
                        -0x8000_0000_0000_0000 <= b <= 0x7fff_ffff_ffff_ffff,
                ;
                let v = a * b;
                v < i64::MIN as i128 || v > i64::MAX as i128
            },
            OpCode::DivInt { r1, r2, .. } => {
                let a = regs[*r1 as usize];
                let b = regs[*r2 as usize];
                if b != 0 && a == i64::MIN && b == -1 {
                    assert(trunc_div(a as int, b as int) == i64::MAX + 1);
                    true
                } else {
                    if b != 0 {
                        proof { lemma_trunc_div_fits(a, b); }
                    }
                    false
                }
            },
            OpCode::SendMsg { target_const_idx, msg_const_idx } => {
                self.send_crashes(consts, *target_const_idx, *msg_const_idx, Ghost(n), false)
            },
            OpCode::SendHighMsg { target_const_idx, msg_const_idx } => {
                self.send_crashes(consts, *target_const_idx, *msg_const_idx, Ghost(n), true)
            },
            _ => false,
        }
    }

    /// Runs `trans` from `start_pc` with at most `gas_limit` instructions,
    /// on top of the messages already in `outbox`.
    ///
    /// The outcome is `slice_outcome`: completed when the code ends or halts,
    /// suspended at the current position when the budget runs out, or a
    /// fault (a write outside the schema, a division by zero, a send without
    /// the capability, an unsupported instruction). Inputs on which an
    /// instruction would panic are excluded.
    pub fn run_slice(
        &mut self,
        trans: &TransitionBytecode,
        field_names: &[String],
        gas_limit: usize,
        start_pc: usize,
        outbox: Vec<Message>,
    ) -> (r: SliceResult)
        requires
            !(slice_outcome(*old(self), *trans, field_names@, gas_limit as nat, start_pc as int, outbox@) is Crash),
        ensures
            slice_result_is(r, *final(self), slice_outcome(*old(self), *trans, field_names@, gas_limit as nat, start_pc as int, outbox@)),
            final(self).available_capabilities == old(self).available_capabilities,
    {
        match self.try_run_slice(trans, field_names, gas_limit, start_pc, outbox) {
            Some(r) => r,
            None => {
                assert(false);
                SliceResult::Fault(String::new())
            },
        }
    }

    /// `run_slice` for any input: `None` where an instruction would panic
    /// (an index out of range or an integer overflow), checked before that
    /// instruction runs; otherwise the outcome of the slice.
    pub fn try_run_slice(
        &mut self,
        trans: &TransitionBytecode,
        field_names: &[String],
        gas_limit: usize,
        start_pc: usize,
        outbox: Vec<Message>,
    ) -> (r: Option<SliceResult>)
        ensures
            r is None <==> slice_outcome(*old(self), *trans, field_names@, gas_limit as nat, start_pc as int, outbox@) is Crash,
            r matches Some(sr) ==> slice_result_is(sr, *final(self), slice_outcome(*old(self), *trans, field_names@, gas_limit as nat, start_pc as int, outbox@)),
            final(self).available_capabilities == old(self).available_capabilities,
    {
        let ghost total = slice_outcome(*self, *trans, field_names@, gas_limit as nat, start_pc as int, outbox@);
        let ghost code = trans.instructions@;
        let ghost cv = constants_view(trans.constants@);
        let ghost fv = texts(field_names@);
        let ghost caps = texts(self.available_capabilities@);
        let ghost caps0 = self.available_capabilities;
        let mut ob = outbox;
        let mut gas_used: usize = 0;
        let mut pc = start_pc;
        while pc < trans.instructions.len()
            invariant
                gas_used <= gas_limit,
                self.available_capabilities == caps0,
                caps0 == old(self).available_capabilities,
                total == slice_outcome(*old(self), *trans, field_names@, gas_limit as nat, start_pc as int, outbox@),
                caps == texts(self.available_capabilities@),
                code == trans.instructions@,
                cv == constants_view(trans.constants@),
                fv == texts(field_names@),
                run(code, cv, fv, caps, machine_of(*self, pc as int, ob@), (gas_limit - gas_used) as nat) == total,
            decreases gas_limit - gas_used,
        {
            if gas_used >= gas_limit {
                let ghost m = machine_of(*self, pc as int, ob@);
                assert(run(code, cv, fv, caps, m, 0) == Run::Suspended(m));
                assert(total == Run::Suspended(m));
                let r = SliceResult::Suspended { pc, outbox: ob };
                assert(slice_result_is(r, *self, total));
                return Some(r);
            }
            let ghost m0 = machine_of(*self, pc as int, ob@);
            let ghost g0 = (gas_limit - gas_used) as nat;
            assert(run(code, cv, fv, caps, m0, g0) == match step(code, cv, fv, caps, m0) {
                Step::Next(m2) => run(code, cv, fv, caps, m2, (g0 - 1) as nat),
                Step::Halt(m2) => Run::Completed(m2),
                Step::Fault(e, m2) => Run::Fault(e, m2),
                Step::Crash => Run::Crash,
            });
            if self.step_crashes(trans, field_names, pc, Ghost(ob@)) {
                return None;
            }
            gas_used = gas_used + 1;
            match self.exec_one(trans, field_names, pc, &mut ob) {
                Flow::Continue(npc) => {
                    pc = npc;
                },
                Flow::Halt => {
                    return Some(SliceResult::Completed(ob));
                },
                Flow::Fault(e) => {
                    return Some(SliceResult::Fault(e));
                },
            }
        }
        Some(SliceResult::Completed(ob))
    }
}

/// One instruction never adds or removes a memory field.
proof fn lemma_step_keeps_fields(code: Seq<OpCode>, consts: Seq<ConstantView>, fields: Seq<Seq<char>>, caps: Seq<Seq<char>>, m: Machine)
    ensures
        match step(code, consts, fields, caps, m) {
            Step::Next(m2) => m2.mem.dom() == m.mem.dom(),
            Step::Halt(m2) => m2.mem.dom() == m.mem.dom(),
            Step::Fault(_, m2) => m2.mem.dom() == m.mem.dom(),
            Step::Crash => true,
        },
{
    match code[m.pc] {
        OpCode::StoreState { src_reg, field_idx } => {
            if field_idx < fields.len() {
                let key = fields[field_idx as int];
                if m.mem.contains_key(key) {
                    assert(m.mem.insert(key, m.regs[src_reg as int]).dom() =~= m.mem.dom());
                }
            }
        },
        _ => {},
    }
}

/// Isolation of domain memory: a slice writes only the fields that the
/// memory already has. Whatever the code, the memory it ends with (done,
/// suspended or faulted) has exactly the fields it started with.
pub proof fn lemma_run_keeps_fields(
    code: Seq<OpCode>,
    consts: Seq<ConstantView>,
    fields: Seq<Seq<char>>,
    caps: Seq<Seq<char>>,
    m: Machine,
    gas: nat,
)
    ensures
        match run(code, consts, fields, caps, m, gas) {
            Run::Completed(m2) => m2.mem.dom() == m.mem.dom(),
            Run::Suspended(m2) => m2.mem.dom() == m.mem.dom(),
            Run::Fault(_, m2) => m2.mem.dom() == m.mem.dom(),
            Run::Crash => true,
        },
    decreases gas,
{
    if m.pc >= code.len() || gas == 0 {
    } else {
        lemma_step_keeps_fields(code, consts, fields, caps, m);
        match step(code, consts, fields, caps, m) {
            Step::Next(m2) => {
                lemma_run_keeps_fields(code, consts, fields, caps, m2, (gas - 1) as nat);
            },
            _ => {},
        }
    }
}

/// Slices compose: a slice that runs out of budget after `g1`
/// instructions and is resumed where it stopped, with `g2` more, ends as one
/// slice with `g1 + g2` instructions would.
pub proof fn lemma_resume_continues_run(
    code: Seq<OpCode>,
    consts: Seq<ConstantView>,
    fields: Seq<Seq<char>>,
    caps: Seq<Seq<char>>,
    m: Machine,
    g1: nat,
    g2: nat,
)
    requires
        run(code, consts, fields, caps, m, g1) is Suspended,
    ensures
        run(code, consts, fields, caps, run(code, consts, fields, caps, m, g1)->Suspended_0, g2)
            == run(code, consts, fields, caps, m, g1 + g2),
    decreases g1,
{
    if m.pc < code.len() && g1 > 0 {
        match step(code, consts, fields, caps, m) {
            Step::Next(m2) => {
                lemma_resume_continues_run(code, consts, fields, caps, m2, (g1 - 1) as nat, g2);
                assert((g1 - 1) as nat + g2 == (g1 + g2 - 1) as nat);
            },
            _ => {},
        }
    }
}

/// Resuming a suspended slice is the same as having given it more budget:
/// if `run_slice` on `i` from `start_pc` with `g1` instructions is
/// suspended, then running again from the position it stopped at, on the
/// memory and registers it left and the messages it had sent, with `g2`
/// instructions, gives what one slice with `g1 + g2` instructions gives.
pub proof fn lemma_slice_resume(
    i: Interpreter,
    j: Interpreter,
    trans: TransitionBytecode,
    fields: Seq<String>,
    g1: nat,
    g2: nat,
    start_pc: int,
    outbox: Seq<Message>,
    resume_outbox: Seq<Message>,
)
    requires
        slice_outcome(i, trans, fields, g1, start_pc, outbox) matches Run::Suspended(m) && j.state@ == m.mem
            && j.registers@ == m.regs && messages_view(resume_outbox) == m.outbox,
        j.available_capabilities@ == i.available_capabilities@,
    ensures
        slice_outcome(j, trans, fields, g2, (slice_outcome(i, trans, fields, g1, start_pc, outbox)->Suspended_0).pc, resume_outbox)
            == slice_outcome(i, trans, fields, g1 + g2, start_pc, outbox),
{
    let code = trans.instructions@;
    let consts = constants_view(trans.constants@);
    let m0 = machine_of(i, start_pc, outbox);
    lemma_resume_continues_run(code, consts, texts(fields), texts(i.available_capabilities@), m0, g1, g2);
    let m = slice_outcome(i, trans, fields, g1, start_pc, outbox)->Suspended_0;
    assert(machine_of(j, m.pc, resume_outbox) == m);
}

/// What a comparison instruction does: the next instruction comes next,
/// memory and the messages sent stay as they were, and the destination
/// register alone changes, to 1 when the comparison of the two operand
/// registers holds and to 0 when it does not (`<=` and `>=` hold on equal
/// values, `<` and `>` do not).
pub proof fn lemma_comparison_meaning(
    code: Seq<OpCode>,
    consts: Seq<ConstantView>,
    fields: Seq<Seq<char>>,
    caps: Seq<Seq<char>>,
    m: Machine,
)
    requires
        0 <= m.pc < code.len(),
    ensures
        match code[m.pc] {
            OpCode::CmpEq { r1, r2, dest } => step(code, consts, fields, caps, m) == Step::Next(
                Machine { regs: m.regs.update(dest as int, if m.regs[r1 as int] == m.regs[r2 as int] { 1i64 } else { 0i64 }), pc: m.pc + 1, ..m }),
            OpCode::CmpLt { r1, r2, dest } => step(code, consts, fields, caps, m) == Step::Next(
                Machine { regs: m.regs.update(dest as int, if m.regs[r1 as int] < m.regs[r2 as int] { 1i64 } else { 0i64 }), pc: m.pc + 1, ..m }),
            OpCode::CmpGt { r1, r2, dest } => step(code, consts, fields, caps, m) == Step::Next(
                Machine { regs: m.regs.update(dest as int, if m.regs[r1 as int] > m.regs[r2 as int] { 1i64 } else { 0i64 }), pc: m.pc + 1, ..m }),
            OpCode::CmpGte { r1, r2, dest } => step(code, consts, fields, caps, m) == Step::Next(
                Machine { regs: m.regs.update(dest as int, if m.regs[r1 as int] >= m.regs[r2 as int] { 1i64 } else { 0i64 }), pc: m.pc + 1, ..m }),
            OpCode::CmpLte { r1, r2, dest } => step(code, consts, fields, caps, m) == Step::Next(
                Machine { regs: m.regs.update(dest as int, if m.regs[r1 as int] <= m.regs[r2 as int] { 1i64 } else { 0i64 }), pc: m.pc + 1, ..m }),
            _ => true,
        },
{
}

/// What an arithmetic or logical instruction does: the destination
/// register alone changes, to the sum, difference or product of the operand
/// registers (a result out of the `i64` range panics), or to 1 or 0 as the
/// operands, read as booleans (non-zero is true), are both true, either
/// true, or (for `NotBool`) false; the next instruction comes next.
pub proof fn lemma_arithmetic_meaning(
    code: Seq<OpCode>,
    consts: Seq<ConstantView>,
    fields: Seq<Seq<char>>,
    caps: Seq<Seq<char>>,
    m: Machine,
)
    requires
        0 <= m.pc < code.len(),
    ensures
        match code[m.pc] {
            OpCode::AddInt { r1, r2, dest } => {
                let v = m.regs[r1 as int] + m.regs[r2 as int];
                step(code, consts, fields, caps, m) == if i64::MIN <= v <= i64::MAX {
                    Step::Next(Machine { regs: m.regs.update(dest as int, v as i64), pc: m.pc + 1, ..m })
                } else {
                    Step::Crash
                }
            },
            OpCode::SubInt { r1, r2, dest } => {
                let v = m.regs[r1 as int] - m.regs[r2 as int];
                step(code, consts, fields, caps, m) == if i64::MIN <= v <= i64::MAX {
                    Step::Next(Machine { regs: m.regs.update(dest as int, v as i64), pc: m.pc + 1, ..m })
                } else {
                    Step::Crash
                }
            },
            OpCode::MulInt { r1, r2, dest } => {
                let v = m.regs[r1 as int] * m.regs[r2 as int];
                step(code, consts, fields, caps, m) == if i64::MIN <= v <= i64::MAX {
                    Step::Next(Machine { regs: m.regs.update(dest as int, v as i64), pc: m.pc + 1, ..m })
                } else {
                    Step::Crash
                }
            },
            OpCode::AndBool { r1, r2, dest } => step(code, consts, fields, caps, m) == Step::Next(
                Machine { regs: m.regs.update(dest as int, if m.regs[r1 as int] != 0 && m.regs[r2 as int] != 0 { 1i64 } else { 0i64 }), pc: m.pc + 1, ..m }),
            OpCode::OrBool { r1, r2, dest } => step(code, consts, fields, caps, m) == Step::Next(
                Machine { regs: m.regs.update(dest as int, if m.regs[r1 as int] != 0 || m.regs[r2 as int] != 0 { 1i64 } else { 0i64 }), pc: m.pc + 1, ..m }),
            OpCode::NotBool { r1, dest } => step(code, consts, fields, caps, m) == Step::Next(
                Machine { regs: m.regs.update(dest as int, if m.regs[r1 as int] == 0 { 1i64 } else { 0i64 }), pc: m.pc + 1, ..m }),
            _ => true,
        },
{
}

/// What division does: a zero divisor faults; otherwise the destination
/// register gets the quotient rounded toward zero: `q * b + r == a` with a
/// remainder `r` smaller than `b` in size and of `a`'s sign.
pub proof fn lemma_division_meaning(
    code: Seq<OpCode>,
    consts: Seq<ConstantView>,
    fields: Seq<Seq<char>>,
    caps: Seq<Seq<char>>,
    m: Machine,
)
    requires
        0 <= m.pc < code.len(),
    ensures
        code[m.pc] matches OpCode::DivInt { r1, r2, dest } ==> {
            let a = m.regs[r1 as int] as int;
            let b = m.regs[r2 as int] as int;
            &&& b == 0 ==> step(code, consts, fields, caps, m) is Fault
            &&& b != 0 ==> {
                let q = trunc_div(a, b);
                let r = a - q * b;
                &&& (if r < 0 { -r } else { r }) < (if b < 0 { -b } else { b })
                &&& (r == 0 || (r < 0) == (a < 0))
                &&& step(code, consts, fields, caps, m) == if i64::MIN <= q <= i64::MAX {
                    Step::Next(Machine { regs: m.regs.update(dest as int, q as i64), pc: m.pc + 1, ..m })
                } else {
                    Step::Crash
                }
            }
        },
{
    if let OpCode::DivInt { r1, r2, dest } = code[m.pc] {
        let a = m.regs[r1 as int] as int;
        let b = m.regs[r2 as int] as int;
        if b != 0 {
            lemma_trunc_div_remainder(a, b);
        }
    }
}

/// Division rounds toward zero: for a non-zero `b`, `trunc_div(a, b) * b`
/// falls short of `a` by a remainder smaller than `b` in size and of `a`'s
/// sign.
pub proof fn lemma_trunc_div_remainder(a: int, b: int)
    requires
        b != 0,
    ensures
        ({
            let q = trunc_div(a, b);
            let r = a - q * b;
            &&& (if r < 0 { -r } else { r }) < (if b < 0 { -b } else { b })
            &&& (r == 0 || (r < 0) == (a < 0))
        }),
{
    let na = if a < 0 { -a } else { a };
    let nb = if b < 0 { -b } else { b };
    let q0 = na / nb;
    let r0 = na % nb;
    assert(na == q0 * nb + r0 && 0 <= r0 < nb) by (nonlinear_arith)
        requires
            nb > 0,
            na >= 0,
            q0 == na / nb,
            r0 == na % nb,
    ;
    let q = trunc_div(a, b);
    assert(q == if (a < 0) != (b < 0) { -q0 } else { q0 });
    // a == sign(a) * na, b == sign(b) * nb; q * b == sign(a) * q0 * nb.
    if a >= 0 && b > 0 {
        assert(q * b == q0 * nb);
    } else if a >= 0 && b < 0 {
        assert(q * b == (-q0) * (-nb));
        assert((-q0) * (-nb) == q0 * nb) by (nonlinear_arith);
    } else if a < 0 && b > 0 {
        assert(q * b == (-q0) * nb);
        assert((-q0) * nb == -(q0 * nb)) by (nonlinear_arith);
    } else {
        assert(q * b == q0 * (-nb));
        assert(q0 * (-nb) == -(q0 * nb)) by (nonlinear_arith);
    }
}

/// What loads, stores and jumps do: a constant or a field (0 when the
/// memory lacks it) is copied into the destination register; a register is
/// written to a declared field (an undeclared one faults); a jump goes to
/// its target, a conditional one only when the tested register is 0;
/// `HaltSlice` stops.
pub proof fn lemma_data_and_control_meaning(
    code: Seq<OpCode>,
    consts: Seq<ConstantView>,
    fields: Seq<Seq<char>>,
    caps: Seq<Seq<char>>,
    m: Machine,
)
    requires
        0 <= m.pc < code.len(),
    ensures
        match code[m.pc] {
            OpCode::LoadConst { const_idx, dest_reg } => const_idx < consts.len() ==> match consts[const_idx as int] {
                ConstantView::Int(v) => step(code, consts, fields, caps, m) == Step::Next(
                    Machine { regs: m.regs.update(dest_reg as int, v), pc: m.pc + 1, ..m }),
                ConstantView::Str(_) => step(code, consts, fields, caps, m) == Step::Next(Machine { pc: m.pc + 1, ..m }),
            },
            OpCode::LoadState { field_idx, dest_reg } => field_idx < fields.len() ==> step(code, consts, fields, caps, m) == Step::Next(
                Machine {
                    regs: m.regs.update(dest_reg as int, if m.mem.contains_key(fields[field_idx as int]) { m.mem[fields[field_idx as int]] } else { 0i64 }),
                    pc: m.pc + 1,
                    ..m
                }),
            OpCode::StoreState { src_reg, field_idx } => field_idx < fields.len() ==> (
                if m.mem.contains_key(fields[field_idx as int]) {
                    step(code, consts, fields, caps, m) == Step::Next(
                        Machine { mem: m.mem.insert(fields[field_idx as int], m.regs[src_reg as int]), pc: m.pc + 1, ..m })
                } else {
                    step(code, consts, fields, caps, m) is Fault
                }),
            OpCode::Jump { target_offset } => step(code, consts, fields, caps, m) == Step::Next(Machine { pc: target_offset as int, ..m }),
            OpCode::JumpIfFalse { test_reg, target_offset } => step(code, consts, fields, caps, m) == Step::Next(
                Machine { pc: if m.regs[test_reg as int] == 0 { target_offset as int } else { m.pc + 1 }, ..m }),
            OpCode::HaltSlice => step(code, consts, fields, caps, m) == Step::Halt(Machine { pc: m.pc + 1, ..m }),
            OpCode::ListLen { .. } | OpCode::ListGet { .. } | OpCode::ListAppend { .. } | OpCode::EmitEffect { .. }
            | OpCode::CheckGoal { .. } => step(code, consts, fields, caps, m) is Fault,
            _ => true,
        },
{
}

/// What a send does: with the target and the payload both text constants
/// and the right to send to the target (`send_to:<target>` or `root` among
/// the capabilities), the message joins the messages sent, with priority 0
/// for `SendMsg` and 1 for `SendHighMsg`; without that right it faults.
pub proof fn lemma_send_meaning(
    code: Seq<OpCode>,
    consts: Seq<ConstantView>,
    fields: Seq<Seq<char>>,
    caps: Seq<Seq<char>>,
    m: Machine,
)
    requires
        0 <= m.pc < code.len(),
    ensures
        ({
            let (t, p, high) = match code[m.pc] {
                OpCode::SendMsg { target_const_idx, msg_const_idx } => (target_const_idx, msg_const_idx, Some(false)),
                OpCode::SendHighMsg { target_const_idx, msg_const_idx } => (target_const_idx, msg_const_idx, Some(true)),
                _ => (0usize, 0usize, None),
            };
            high is Some && t < consts.len() && p < consts.len() ==> match (consts[t as int], consts[p as int]) {
                (ConstantView::Str(target), ConstantView::Str(payload)) => if caps.contains("send_to:"@ + target) || caps.contains("root"@) {
                    step(code, consts, fields, caps, m) == Step::Next(Machine {
                        outbox: m.outbox.push(MessageView {
                            id: Seq::empty(),
                            source_domain: Seq::empty(),
                            target_domain: target,
                            payload,
                            priority: if high == Some(true) { 1u8 } else { 0u8 },
                            clock: 0,
                        }),
                        pc: m.pc + 1,
                        ..m
                    })
                } else {
                    step(code, consts, fields, caps, m) is Fault
                },
                _ => step(code, consts, fields, caps, m) is Fault,
            }
        }),
{
}

/// The machine after `k` instructions from `m`, when each of them simply
/// moves on (none halts, faults or panics).
pub open spec fn exec_steps(
    code: Seq<OpCode>,
    consts: Seq<ConstantView>,
    fields: Seq<Seq<char>>,
    caps: Seq<Seq<char>>,
    m: Machine,
    k: nat,
) -> Option<Machine>
    decreases k,
{
    if k == 0 {
        Some(m)
    } else {
        match step(code, consts, fields, caps, m) {
            Step::Next(m2) => exec_steps(code, consts, fields, caps, m2, (k - 1) as nat),
            _ => None,
        }
    }
}

/// Running `a + b` instructions is running `a`, then `b` more.
pub proof fn lemma_exec_steps_append(
    code: Seq<OpCode>,
    consts: Seq<ConstantView>,
    fields: Seq<Seq<char>>,
    caps: Seq<Seq<char>>,
    m: Machine,
    a: nat,
    b: nat,
)
    requires
        exec_steps(code, consts, fields, caps, m, a) is Some,
    ensures
        exec_steps(code, consts, fields, caps, m, a + b)
            == exec_steps(code, consts, fields, caps, exec_steps(code, consts, fields, caps, m, a)->0, b),
    decreases a,
{
    if a > 0 {
        match step(code, consts, fields, caps, m) {
            Step::Next(m2) => {
                lemma_exec_steps_append(code, consts, fields, caps, m2, (a - 1) as nat, b);
                assert((a - 1) as nat + b == (a + b - 1) as nat);
            },
            _ => {},
        }
    }
}

} // verus!
