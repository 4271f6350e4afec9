//! Goal and invariant evaluation: side-effect-free predicates over a
//! snapshot of a domain's memory.

use vstd::prelude::*;
use crate::bytecode::{Constant, ConstantView, GoalBytecode, InvariantBytecode, OpCode, constants_view};
use crate::interpreter::{Interpreter, fits_i64, flag, texts, trunc_div, div_i64, lemma_trunc_div_fits};
use crate::state::IsolatedState;
use crate::text::{join3, join4, int_text, usize_text};

verus! {

pub struct GoalEngine;

/// The registers, the last register written, and the program counter of a
/// predicate under evaluation.
pub struct PredMachine {
    pub regs: Seq<i64>,
    pub last: Option<u8>,
    pub pc: int,
}

pub enum PredStep {
    Next(PredMachine),
    Halt(PredMachine),
    Error(Seq<char>),
    Crash,
}

/// The outcome of a predicate: its truth value, an error, or a panic.
pub enum PredOutcome {
    Value(bool),
    Error(Seq<char>),
    Crash,
}

pub open spec fn side_effect_message(ctx: Seq<char>) -> Seq<char> {
    "Illegal operation in "@ + ctx + " context: Side effects are forbidden."@
}

pub open spec fn division_message(ctx: Seq<char>) -> Seq<char> {
    "Division by zero in "@ + ctx + " context"@
}

pub open spec fn exhausted_message(ctx: Seq<char>, limit: nat) -> Seq<char> {
    ctx + " evaluation exhausted gas boundary (Max "@ + int_text(limit as int) + " instructions)"@
}

pub open spec fn no_value_message(ctx: Seq<char>) -> Seq<char> {
    ctx + " evaluated to no resulting value."@
}

pub open spec fn written(n: PredMachine, dest: u8, v: i64) -> PredMachine {
    PredMachine { regs: n.regs.update(dest as int, v), last: Some(dest), ..n }
}

pub open spec fn pred_arith(n: PredMachine, v: int, dest: u8) -> PredStep {
    if fits_i64(v) { PredStep::Next(written(n, dest, v as i64)) } else { PredStep::Crash }
}

/// One instruction of a predicate. Loads, arithmetic and comparisons write
/// a register; a store or a normal send is refused; any other instruction
/// is skipped.
pub open spec fn pred_step(
    code: Seq<OpCode>,
    consts: Seq<ConstantView>,
    schema: Seq<Seq<char>>,
    mem: Map<Seq<char>, i64>,
    ctx: Seq<char>,
    m: PredMachine,
) -> PredStep {
    let n = PredMachine { pc: m.pc + 1, ..m };
    let g = |r: u8| n.regs[r as int];
    match code[m.pc] {
        OpCode::LoadConst { const_idx, dest_reg } => {
            if const_idx >= consts.len() {
                PredStep::Crash
            } else {
                match consts[const_idx as int] {
                    ConstantView::Int(v) => PredStep::Next(written(n, dest_reg, v)),
                    ConstantView::Str(_) => PredStep::Next(n),
                }
            }
        },
        OpCode::LoadState { field_idx, dest_reg } => {
            if field_idx >= schema.len() {
                PredStep::Crash
            } else {
                let key = schema[field_idx as int];
                PredStep::Next(written(n, dest_reg, if mem.contains_key(key) { mem[key] } else { 0 }))
            }
        },
        OpCode::CmpEq { r1, r2, dest } => PredStep::Next(written(n, dest, flag(g(r1) == g(r2)))),
        OpCode::CmpLt { r1, r2, dest } => PredStep::Next(written(n, dest, flag(g(r1) < g(r2)))),
        OpCode::CmpGt { r1, r2, dest } => PredStep::Next(written(n, dest, flag(g(r1) > g(r2)))),
        OpCode::CmpGte { r1, r2, dest } => PredStep::Next(written(n, dest, flag(g(r1) >= g(r2)))),
        OpCode::CmpLte { r1, r2, dest } => PredStep::Next(written(n, dest, flag(g(r1) <= g(r2)))),
        OpCode::HaltSlice => PredStep::Halt(n),
        OpCode::StoreState { .. } | OpCode::SendMsg { .. } => PredStep::Error(side_effect_message(ctx)),
        OpCode::AddInt { r1, r2, dest } => pred_arith(n, g(r1) + g(r2), dest),
        OpCode::SubInt { r1, r2, dest } => pred_arith(n, g(r1) - g(r2), dest),
        OpCode::MulInt { r1, r2, dest } => pred_arith(n, g(r1) * g(r2), dest),
        OpCode::DivInt { r1, r2, dest } => {
            if g(r2) == 0 {
                PredStep::Error(division_message(ctx))
            } else {
                pred_arith(n, trunc_div(g(r1) as int, g(r2) as int), dest)
            }
        },
        _ => PredStep::Next(n),
    }
}

/// The answer once the predicate stops: the last written register, read as
/// a boolean.
pub open spec fn pred_finish(ctx: Seq<char>, m: PredMachine) -> PredOutcome {
    match m.last {
        Some(r) => PredOutcome::Value(m.regs[r as int] != 0),
        None => PredOutcome::Error(no_value_message(ctx)),
    }
}

/// A predicate evaluated from `m` with `gas` instructions left out of
/// `limit`.
pub open spec fn pred_run(
    code: Seq<OpCode>,
    consts: Seq<ConstantView>,
    schema: Seq<Seq<char>>,
    mem: Map<Seq<char>, i64>,
    ctx: Seq<char>,
    limit: nat,
    m: PredMachine,
    gas: nat,
) -> PredOutcome
    decreases gas,
{
    if m.pc >= code.len() {
        pred_finish(ctx, m)
    } else if gas == 0 {
        PredOutcome::Error(exhausted_message(ctx, limit))
    } else {
        match pred_step(code, consts, schema, mem, ctx, m) {
            PredStep::Next(m2) => pred_run(code, consts, schema, mem, ctx, limit, m2, (gas - 1) as nat),
            PredStep::Halt(m2) => pred_finish(ctx, m2),
            PredStep::Error(e) => PredOutcome::Error(e),
            PredStep::Crash => PredOutcome::Crash,
        }
    }
}

/// The outcome of evaluating `code` over memory `mem` with budget `limit`.
pub open spec fn predicate_outcome(
    code: Seq<OpCode>,
    consts: Seq<Constant>,
    schema: Seq<String>,
    mem: Map<Seq<char>, i64>,
    ctx: Seq<char>,
    limit: nat,
) -> PredOutcome {
    pred_run(
        code,
        constants_view(consts),
        texts(schema),
        mem,
        ctx,
        limit,
        PredMachine { regs: Seq::new(256, |i: int| 0i64), last: None, pc: 0 },
        limit,
    )
}

/// The kinds of error a predicate can end in.
pub enum PredError {
    SideEffect,
    Division,
    Exhausted,
    NoValue,
}

/// The text of an error of kind `k` for a predicate named `ctx` with budget
/// `limit`.
pub open spec fn pred_error_text(k: PredError, ctx: Seq<char>, limit: nat) -> Seq<char> {
    match k {
        PredError::SideEffect => side_effect_message(ctx),
        PredError::Division => division_message(ctx),
        PredError::Exhausted => exhausted_message(ctx, limit),
        PredError::NoValue => no_value_message(ctx),
    }
}

/// `o2` is `o1` with the predicate named `c2` instead of `c1`: the same
/// truth value or panic, or an error of the same kind.
pub open spec fn relabelled(o1: PredOutcome, o2: PredOutcome, c1: Seq<char>, c2: Seq<char>, limit: nat) -> bool {
    match o1 {
        PredOutcome::Value(b) => o2 == PredOutcome::Value(b),
        PredOutcome::Crash => o2 is Crash,
        PredOutcome::Error(e) => exists|k: PredError|
            e == #[trigger] pred_error_text(k, c1, limit) && o2 == PredOutcome::Error(pred_error_text(k, c2, limit)),
    }
}

proof fn lemma_pred_step_relabel(
    code: Seq<OpCode>,
    consts: Seq<ConstantView>,
    schema: Seq<Seq<char>>,
    mem: Map<Seq<char>, i64>,
    c1: Seq<char>,
    c2: Seq<char>,
    limit: nat,
    m: PredMachine,
)
    ensures
        match pred_step(code, consts, schema, mem, c1, m) {
            PredStep::Next(m2) => pred_step(code, consts, schema, mem, c2, m) == PredStep::Next(m2),
            PredStep::Halt(m2) => pred_step(code, consts, schema, mem, c2, m) == PredStep::Halt(m2),
            PredStep::Crash => pred_step(code, consts, schema, mem, c2, m) is Crash,
            PredStep::Error(e) => exists|k: PredError|
                e == #[trigger] pred_error_text(k, c1, limit) && pred_step(code, consts, schema, mem, c2, m)
                    == PredStep::Error(pred_error_text(k, c2, limit)),
        },
{
    match code[m.pc] {
        OpCode::StoreState { .. } | OpCode::SendMsg { .. } => {
            assert(pred_error_text(PredError::SideEffect, c1, limit) == side_effect_message(c1));
            assert(pred_error_text(PredError::SideEffect, c2, limit) == side_effect_message(c2));
        },
        OpCode::DivInt { .. } => {
            assert(pred_error_text(PredError::Division, c1, limit) == division_message(c1));
            assert(pred_error_text(PredError::Division, c2, limit) == division_message(c2));
        },
        _ => {},
    }
}

proof fn lemma_pred_finish_relabel(c1: Seq<char>, c2: Seq<char>, limit: nat, m: PredMachine)
    ensures
        relabelled(pred_finish(c1, m), pred_finish(c2, m), c1, c2, limit),
{
    assert(pred_error_text(PredError::NoValue, c1, limit) == no_value_message(c1));
    assert(pred_error_text(PredError::NoValue, c2, limit) == no_value_message(c2));
}

proof fn lemma_pred_run_relabel(
    code: Seq<OpCode>,
    consts: Seq<ConstantView>,
    schema: Seq<Seq<char>>,
    mem: Map<Seq<char>, i64>,
    c1: Seq<char>,
    c2: Seq<char>,
    limit: nat,
    m: PredMachine,
    gas: nat,
)
    ensures
        relabelled(pred_run(code, consts, schema, mem, c1, limit, m, gas), pred_run(code, consts, schema, mem, c2, limit, m, gas), c1, c2, limit),
    decreases gas,
{
    if m.pc >= code.len() {
        lemma_pred_finish_relabel(c1, c2, limit, m);
    } else if gas == 0 {
        assert(pred_error_text(PredError::Exhausted, c1, limit) == exhausted_message(c1, limit));
        assert(pred_error_text(PredError::Exhausted, c2, limit) == exhausted_message(c2, limit));
    } else {
        lemma_pred_step_relabel(code, consts, schema, mem, c1, c2, limit, m);
        match pred_step(code, consts, schema, mem, c1, m) {
            PredStep::Next(m2) => {
                lemma_pred_run_relabel(code, consts, schema, mem, c1, c2, limit, m2, (gas - 1) as nat);
            },
            PredStep::Halt(m2) => {
                lemma_pred_finish_relabel(c1, c2, limit, m2);
            },
            _ => {},
        }
    }
}

/// An invariant evaluates as a goal with the same code, constants, schema,
/// memory and budget would: to the same truth value, panicking on the same
/// inputs, and failing with the same error except that the text names an
/// "Invariant" where the goal's names a "Goal".
pub proof fn lemma_invariant_evaluates_as_goal(
    code: Seq<OpCode>,
    consts: Seq<Constant>,
    schema: Seq<String>,
    mem: Map<Seq<char>, i64>,
    limit: nat,
)
    ensures
        relabelled(
            predicate_outcome(code, consts, schema, mem, "Goal"@, limit),
            predicate_outcome(code, consts, schema, mem, "Invariant"@, limit),
            "Goal"@,
            "Invariant"@,
            limit,
        ),
        relabelled(
            predicate_outcome(code, consts, schema, mem, "Invariant"@, limit),
            predicate_outcome(code, consts, schema, mem, "Goal"@, limit),
            "Invariant"@,
            "Goal"@,
            limit,
        ),
{
    let m0 = PredMachine { regs: Seq::new(256, |i: int| 0i64), last: None, pc: 0 };
    lemma_pred_run_relabel(code, constants_view(consts), texts(schema), mem, "Goal"@, "Invariant"@, limit, m0, limit);
    lemma_pred_run_relabel(code, constants_view(consts), texts(schema), mem, "Invariant"@, "Goal"@, limit, m0, limit);
}

/// `r` is what the outcome `o` says.
pub open spec fn predicate_result_is(r: Result<bool, String>, o: PredOutcome) -> bool {
    match o {
        PredOutcome::Value(b) => r == Ok::<bool, String>(b),
        PredOutcome::Error(e) => r matches Err(msg) && msg@ == e,
        PredOutcome::Crash => false,
    }
}

enum PredFlow {
    Continue,
    Halt,
    Error(String),
}

/// The word that names the kind of predicate in error texts.
pub open spec fn ctx_of(is_inv: bool) -> Seq<char> {
    if is_inv { "Invariant"@ } else { "Goal"@ }
}

fn ctx_text(is_inv: bool) -> (s: &'static str)
    ensures
        s@ == ctx_of(is_inv),
{
    if is_inv { "Invariant" } else { "Goal" }
}

fn pred_exec_one(
    code: &Vec<OpCode>,
    consts: &Vec<Constant>,
    schema: &[String],
    interp: &mut Interpreter,
    last: &mut Option<u8>,
    pc: usize,
    is_inv: bool,
) -> (r: PredFlow)
    requires
        pc < code.len(),
        !(pred_step(code@, constants_view(consts@), texts(schema@), old(interp).state@, ctx_of(is_inv),
            PredMachine { regs: old(interp).registers@, last: *old(last), pc: pc as int }) is Crash),
    ensures
        final(interp).state@ == old(interp).state@,
        match pred_step(code@, constants_view(consts@), texts(schema@), old(interp).state@, ctx_of(is_inv),
            PredMachine { regs: old(interp).registers@, last: *old(last), pc: pc as int }) {
            PredStep::Next(m2) => r is Continue && m2 == PredMachine { regs: final(interp).registers@, last: *final(last), pc: pc + 1 },
            PredStep::Halt(m2) => r is Halt && m2 == PredMachine { regs: final(interp).registers@, last: *final(last), pc: pc + 1 },
            PredStep::Error(e) => r matches PredFlow::Error(msg) && msg@ == e,
            PredStep::Crash => false,
        },
{
    let ctx = ctx_text(is_inv);
    match &code[pc] {
        OpCode::LoadConst { const_idx, dest_reg } => {
            assert(constants_view(consts@)[*const_idx as int] == consts@[*const_idx as int]@);
            match &consts[*const_idx] {
                Constant::Int(val) => {
                    interp.registers[*dest_reg as usize] = *val;
                    *last = Some(*dest_reg);
                },
                Constant::String(_) => {},
            }
            PredFlow::Continue
        },
        OpCode::LoadState { field_idx, dest_reg } => {
            let key = &schema[*field_idx];
            let val = match interp.state.get(key.as_str()) {
                Some(v) => v,
                None => 0,
            };
            interp.registers[*dest_reg as usize] = val;
            *last = Some(*dest_reg);
            PredFlow::Continue
        },
        OpCode::CmpEq { r1, r2, dest } => {
            interp.registers[*dest as usize] = if interp.registers[*r1 as usize] == interp.registers[*r2 as usize] { 1 } else { 0 };
            *last = Some(*dest);
            PredFlow::Continue
        },
        OpCode::CmpLt { r1, r2, dest } => {
            interp.registers[*dest as usize] = if interp.registers[*r1 as usize] < interp.registers[*r2 as usize] { 1 } else { 0 };
            *last = Some(*dest);
            PredFlow::Continue
        },
        OpCode::CmpGt { r1, r2, dest } => {
            interp.registers[*dest as usize] = if interp.registers[*r1 as usize] > interp.registers[*r2 as usize] { 1 } else { 0 };
            *last = Some(*dest);
            PredFlow::Continue
        },
        OpCode::CmpGte { r1, r2, dest } => {
            interp.registers[*dest as usize] = if interp.registers[*r1 as usize] >= interp.registers[*r2 as usize] { 1 } else { 0 };
            *last = Some(*dest);
            PredFlow::Continue
        },
        OpCode::CmpLte { r1, r2, dest } => {
            interp.registers[*dest as usize] = if interp.registers[*r1 as usize] <= interp.registers[*r2 as usize] { 1 } else { 0 };
            *last = Some(*dest);
            PredFlow::Continue
        },
        OpCode::HaltSlice => PredFlow::Halt,
        OpCode::StoreState { .. } | OpCode::SendMsg { .. } => {
            PredFlow::Error(join3("Illegal operation in ", ctx, " context: Side effects are forbidden."))
        },
        OpCode::AddInt { r1, r2, dest } => {
            interp.registers[*dest as usize] = interp.registers[*r1 as usize] + interp.registers[*r2 as usize];
            *last = Some(*dest);
            PredFlow::Continue
        },
        OpCode::SubInt { r1, r2, dest } => {
            interp.registers[*dest as usize] = interp.registers[*r1 as usize] - interp.registers[*r2 as usize];
            *last = Some(*dest);
            PredFlow::Continue
        },
        OpCode::MulInt { r1, r2, dest } => {
            interp.registers[*dest as usize] = interp.registers[*r1 as usize] * interp.registers[*r2 as usize];
            *last = Some(*dest);
            PredFlow::Continue
        },
        OpCode::DivInt { r1, r2, dest } => {
            let divisor = interp.registers[*r2 as usize];
            if divisor == 0 {
                return PredFlow::Error(join3("Division by zero in ", ctx, " context"));
            }
            if interp.registers[*r1 as usize] == i64::MIN && divisor == -1 {
                assert(trunc_div(i64::MIN as int, -1) == i64::MAX + 1) by {
                    assert(0x8000_0000_0000_0000int / 1int == 0x8000_0000_0000_0000int);
                }
            }
            interp.registers[*dest as usize] = div_i64(interp.registers[*r1 as usize], divisor);
            *last = Some(*dest);
            PredFlow::Continue
        },
        _ => PredFlow::Continue,
    }
}

/// Whether the predicate instruction at `pc` would panic (an index out of
/// range or an integer overflow).
fn pred_step_crashes(
    code: &Vec<OpCode>,
    consts: &Vec<Constant>,
    schema: &[String],
    regs: &[i64; 256],
    pc: usize,
    Ghost(mem): Ghost<Map<Seq<char>, i64>>,
    Ghost(ctx): Ghost<Seq<char>>,
    Ghost(last): Ghost<Option<u8>>,
) -> (r: bool)
    requires
        pc < code.len(),
    ensures
        r == (pred_step(code@, constants_view(consts@), texts(schema@), mem, ctx, PredMachine { regs: regs@, last, pc: pc as int }) is Crash),
{
    match &code[pc] {
        OpCode::LoadConst { const_idx, .. } => *const_idx >= consts.len(),
        OpCode::LoadState { field_idx, .. } => *field_idx >= schema.len(),
        OpCode::AddInt { r1, r2, .. } => {
            let v = regs[*r1 as usize] as i128 + regs[*r2 as usize] as i128;
            v < i64::MIN as i128 || v > i64::MAX as i128
        },
        OpCode::SubInt { r1, r2, .. } => {
            let v = regs[*r1 as usize] as i128 - regs[*r2 as usize] as i128;
            v < i64::MIN as i128 || v > i64::MAX as i128
        },
        OpCode::MulInt { r1, r2, .. } => {
            let a = regs[*r1 as usize] as i128;
            let b = regs[*r2 as usize] as i128;
            assert(-0x4000_0000_0000_0000_0000_0000_0000_0000 <= a * b <= 0x4000_0000_0000_0000_0000_0000_0000_0000) by (nonlinear_arith)
                requires
                    -0x8000_0000_0000_0000 <= a <= 0x7fff_ffff_ffff_ffff,
                    -0x8000_0000_0000_0000 <= b <= 0x7fff_ffff_ffff_ffff,
            ;
            let v = a * b;
            v < i64::MIN as i128 || v > i64::MAX as i128
        },
        OpCode::DivInt { r1, r2, .. } => {
            let a = regs[*r1 as usize];
            let b = regs[*r2 as usize];
            if b != 0 && a == i64::MIN && b == -1 {
                assert(trunc_div(a as int, b as int) == i64::MAX + 1);
                true
            } else {
                if b != 0 {
                    proof { lemma_trunc_div_fits(a, b); }
                }
                false
            }
        },
        _ => false,
    }
}

/// Evaluates a predicate's code; `invariant` picks the wording of errors.
fn evaluate_code(
    code: &Vec<OpCode>,
    consts: &Vec<Constant>,
    state: &IsolatedState,
    schema: &[String],
    gas_limit: usize,
    is_inv: bool,
) -> (r: Option<Result<bool, String>>)
    ensures
        r is None <==> predicate_outcome(code@, consts@, schema@, state@, ctx_of(is_inv), gas_limit as nat) is Crash,
        r matches Some(v) ==> predicate_result_is(v, predicate_outcome(code@, consts@, schema@, state@, ctx_of(is_inv), gas_limit as nat)),
{
    let ghost total = predicate_outcome(code@, consts@, schema@, state@, ctx_of(is_inv), gas_limit as nat);
    let ghost cv = constants_view(consts@);
    let ghost sv = texts(schema@);
    let ghost ctx = ctx_of(is_inv);
    let mut interp = Interpreter::with_state(state.snapshot());
    let mut gas_used: usize = 0;
    let mut pc: usize = 0;
    let mut last: Option<u8> = None;
    proof {
        assert(interp.registers@ =~= Seq::new(256, |i: int| 0i64));
    }
    let mut halted = false;
    while pc < code.len()
        invariant_except_break
            gas_used <= gas_limit,
            interp.state@ == state@,
            cv == constants_view(consts@),
            sv == texts(schema@),
            ctx == ctx_of(is_inv),
            total == predicate_outcome(code@, consts@, schema@, state@, ctx, gas_limit as nat),
            pred_run(code@, cv, sv, state@, ctx, gas_limit as nat, PredMachine { regs: interp.registers@, last, pc: pc as int }, (gas_limit - gas_used) as nat) == total,
        ensures
            total == pred_finish(ctx, PredMachine { regs: interp.registers@, last, pc: pc as int }),
            ctx == ctx_of(is_inv),
        decreases gas_limit - gas_used,
    {
        if gas_used >= gas_limit {
            let e = join4(ctx_text(is_inv), " evaluation exhausted gas boundary (Max ", usize_text(gas_limit).as_str(), " instructions)");
            return Some(Err(e));
        }
        if pred_step_crashes(code, consts, schema, &interp.registers, pc, Ghost(state@), Ghost(ctx), Ghost(last)) {
            return None;
        }
        gas_used = gas_used + 1;
        match pred_exec_one(code, consts, schema, &mut interp, &mut last, pc, is_inv) {
            PredFlow::Continue => {
                pc = pc + 1;
            },
            PredFlow::Halt => {
                pc = pc + 1;
                break;
            },
            PredFlow::Error(e) => {
                return Some(Err(e));
            },
        }
    }
    match last {
        Some(reg) => Some(Ok(interp.registers[reg as usize] != 0)),
        None => Some(Err(join2_ctx(ctx_text(is_inv)))),
    }
}

fn join2_ctx(ctx: &str) -> (s: String)
    ensures
        s@ == no_value_message(ctx@),
{
    crate::text::join2(ctx, " evaluated to no resulting value.")
}

impl GoalEngine {
    /// Evaluates a goal's predicate against a snapshot of `state`, with at
    /// most `gas_limit` instructions. Inputs on which an instruction would
    /// panic are excluded.
    pub fn evaluate(goal: &GoalBytecode, state: &IsolatedState, schema: &[String], gas_limit: usize) -> (r: Result<bool, String>)
        requires
            !(predicate_outcome(goal.instructions@, goal.constants@, schema@, state@, "Goal"@, gas_limit as nat) is Crash),
        ensures
            predicate_result_is(r, predicate_outcome(goal.instructions@, goal.constants@, schema@, state@, "Goal"@, gas_limit as nat)),
    {
        match evaluate_code(&goal.instructions, &goal.constants, state, schema, gas_limit, false) {
            Some(r) => r,
            None => {
                assert(false);
                Ok(false)
            },
        }
    }

    /// `evaluate` for any input: `None` where an instruction of the
    /// predicate would panic, checked before it runs.
    pub fn try_evaluate(goal: &GoalBytecode, state: &IsolatedState, schema: &[String], gas_limit: usize) -> (r: Option<Result<bool, String>>)
        ensures
            r is None <==> predicate_outcome(goal.instructions@, goal.constants@, schema@, state@, "Goal"@, gas_limit as nat) is Crash,
            r matches Some(v) ==> predicate_result_is(v, predicate_outcome(goal.instructions@, goal.constants@, schema@, state@, "Goal"@, gas_limit as nat)),
    {
        evaluate_code(&goal.instructions, &goal.constants, state, schema, gas_limit, false)
    }

    /// Evaluates an invariant's predicate against a snapshot of `state`,
    /// with at most `gas_limit` instructions.
    pub fn evaluate_invariant(inv: &InvariantBytecode, state: &IsolatedState, schema: &[String], gas_limit: usize) -> (r: Result<bool, String>)
        requires
            !(predicate_outcome(inv.instructions@, inv.constants@, schema@, state@, "Invariant"@, gas_limit as nat) is Crash),
        ensures
            predicate_result_is(r, predicate_outcome(inv.instructions@, inv.constants@, schema@, state@, "Invariant"@, gas_limit as nat)),
    {
        match evaluate_code(&inv.instructions, &inv.constants, state, schema, gas_limit, true) {
            Some(r) => r,
            None => {
                assert(false);
                Ok(false)
            },
        }
    }
}

/// What an instruction of a predicate does: a comparison writes 1 to its
/// destination when the comparison of the operand registers holds and 0
/// when it does not (`<=` and `>=` hold on equal values, `<` and `>` do
/// not), arithmetic writes the sum, difference or product (a result out of
/// the `i64` range panics), a load writes the constant or the field (0 when
/// the memory lacks it); each makes its destination the last register
/// written, and the next instruction comes next. A store or a send is
/// refused, and `HaltSlice` stops.
pub proof fn lemma_predicate_instruction_meaning(
    code: Seq<OpCode>,
    consts: Seq<ConstantView>,
    schema: Seq<Seq<char>>,
    mem: Map<Seq<char>, i64>,
    ctx: Seq<char>,
    m: PredMachine,
)
    requires
        0 <= m.pc < code.len(),
    ensures
        ({
            let r = pred_step(code, consts, schema, mem, ctx, m);
            let set = |dest: u8, v: i64| PredStep::Next(PredMachine { regs: m.regs.update(dest as int, v), last: Some(dest), pc: m.pc + 1 });
            let a = |x: u8| m.regs[x as int];
            match code[m.pc] {
                OpCode::CmpEq { r1, r2, dest } => r == set(dest, if a(r1) == a(r2) { 1i64 } else { 0i64 }),
                OpCode::CmpLt { r1, r2, dest } => r == set(dest, if a(r1) < a(r2) { 1i64 } else { 0i64 }),
                OpCode::CmpGt { r1, r2, dest } => r == set(dest, if a(r1) > a(r2) { 1i64 } else { 0i64 }),
                OpCode::CmpGte { r1, r2, dest } => r == set(dest, if a(r1) >= a(r2) { 1i64 } else { 0i64 }),
                OpCode::CmpLte { r1, r2, dest } => r == set(dest, if a(r1) <= a(r2) { 1i64 } else { 0i64 }),
                OpCode::AddInt { r1, r2, dest } => r == if i64::MIN <= a(r1) + a(r2) <= i64::MAX {
                    set(dest, (a(r1) + a(r2)) as i64)
                } else {
                    PredStep::Crash
                },
                OpCode::SubInt { r1, r2, dest } => r == if i64::MIN <= a(r1) - a(r2) <= i64::MAX {
                    set(dest, (a(r1) - a(r2)) as i64)
                } else {
                    PredStep::Crash
                },
                OpCode::MulInt { r1, r2, dest } => r == if i64::MIN <= a(r1) * a(r2) <= i64::MAX {
                    set(dest, (a(r1) * a(r2)) as i64)
                } else {
                    PredStep::Crash
                },
                OpCode::DivInt { r1, r2, dest } => if a(r2) == 0 {
                    r is Error
                } else {
                    r == if i64::MIN <= trunc_div(a(r1) as int, a(r2) as int) <= i64::MAX {
                        set(dest, trunc_div(a(r1) as int, a(r2) as int) as i64)
                    } else {
                        PredStep::Crash
                    }
                },
                OpCode::LoadConst { const_idx, dest_reg } => const_idx < consts.len() ==> match consts[const_idx as int] {
                    ConstantView::Int(v) => r == set(dest_reg, v),
                    ConstantView::Str(_) => r == PredStep::Next(PredMachine { pc: m.pc + 1, ..m }),
                },
                OpCode::LoadState { field_idx, dest_reg } => field_idx < schema.len() ==> r == set(
                    dest_reg,
                    if mem.contains_key(schema[field_idx as int]) { mem[schema[field_idx as int]] } else { 0i64 },
                ),
                OpCode::StoreState { .. } => r is Error,
                OpCode::SendMsg { .. } => r is Error,
                OpCode::HaltSlice => r == PredStep::Halt(PredMachine { pc: m.pc + 1, ..m }),
                _ => r == PredStep::Next(PredMachine { pc: m.pc + 1, ..m }),
            }
        }),
{
}

/// What a predicate answers when it stops: whether the last register it
/// wrote is non-zero, or an error when it wrote none.
pub proof fn lemma_predicate_answer(ctx: Seq<char>, m: PredMachine)
    ensures
        match m.last {
            Some(r) => pred_finish(ctx, m) == PredOutcome::Value(m.regs[r as int] != 0),
            None => pred_finish(ctx, m) is Error,
        },
{
}

} // verus!
