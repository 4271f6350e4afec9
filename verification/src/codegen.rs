//! Code generation: from the syntax tree to bytecode.

use vstd::prelude::*;
use crate::ast::{
    Ast, DomainDecl, DomainView, Expr, ExprView, FieldView, Statement, StatementView,
    exprs_view_seq, lemma_exprs_view_index,
};
use crate::bytecode::{
    BytecodeProgram, Constant, ConstantView, DomainBytecode, GoalBytecode, OpCode,
    TransitionBytecode, constants_view,
};
use crate::interpreter::{Machine, Step, exec_steps, lemma_exec_steps_append, step, texts};
use crate::goal_engine::{PredMachine, PredStep, pred_step};
use crate::strmap::StrMap;
use crate::text::string_is;

verus! {

pub struct CodeGenerator {
    program: BytecodeProgram,
}

/// The state of code generation for one unit: the instructions and the
/// constants so far, and the next free register.
pub struct Gen {
    pub code: Seq<OpCode>,
    pub consts: Seq<ConstantView>,
    pub next: nat,
}

pub open spec fn empty_gen() -> Gen {
    Gen { code: Seq::empty(), consts: Seq::empty(), next: 0 }
}

/// Adding a constant: an equal one already in the pool is shared.
pub open spec fn add_const(g: Gen, c: ConstantView) -> (Gen, usize) {
    if g.consts.contains(c) {
        (g, g.consts.index_of(c) as usize)
    } else {
        (Gen { consts: g.consts.push(c), ..g }, g.consts.len() as usize)
    }
}

/// Allocating a register; registers run out after 255 (the counter would
/// overflow).
pub open spec fn alloc_spec(g: Gen) -> Option<(Gen, u8)> {
    if g.next < 255 { Some((Gen { next: g.next + 1, ..g }, g.next as u8)) } else { None }
}

pub open spec fn emit(g: Gen, op: OpCode) -> Gen {
    Gen { code: g.code.push(op), ..g }
}

/// The instruction for a binary operator.
pub open spec fn binop_code(op: Seq<char>, r1: u8, r2: u8, dest: u8) -> Option<OpCode> {
    if op == "+"@ { Some(OpCode::AddInt { r1, r2, dest }) }
    else if op == "-"@ { Some(OpCode::SubInt { r1, r2, dest }) }
    else if op == "=="@ { Some(OpCode::CmpEq { r1, r2, dest }) }
    else if op == "<"@ { Some(OpCode::CmpLt { r1, r2, dest }) }
    else if op == ">"@ { Some(OpCode::CmpGt { r1, r2, dest }) }
    else if op == ">="@ { Some(OpCode::CmpGte { r1, r2, dest }) }
    else if op == "<="@ { Some(OpCode::CmpLte { r1, r2, dest }) }
    else { None }
}

/// Loading a constant into a fresh register.
pub open spec fn load_const(g: Gen, c: ConstantView) -> Option<(Gen, u8)> {
    let (g1, ci) = add_const(g, c);
    match alloc_spec(g1) {
        Some((g2, d)) => Some((emit(g2, OpCode::LoadConst { const_idx: ci, dest_reg: d }), d)),
        None => None,
    }
}

/// Sending `message` to `target`.
pub open spec fn send_code(g: Gen, target: Seq<char>, message: Seq<char>, high: bool) -> Option<(Gen, u8)> {
    let (g1, tc) = add_const(g, ConstantView::Str(target));
    let (g2, mc) = add_const(g1, ConstantView::Str(message));
    let g3 = emit(g2, if high {
        OpCode::SendHighMsg { target_const_idx: tc, msg_const_idx: mc }
    } else {
        OpCode::SendMsg { target_const_idx: tc, msg_const_idx: mc }
    });
    alloc_spec(g3)
}

/// Compiling an expression: the generation state afterwards and the
/// register that holds its value, or `None` where the generator would panic
/// (an unsupported operator, or more than 255 registers).
pub open spec fn compile(fm: Map<Seq<char>, usize>, g: Gen, e: ExprView) -> Option<(Gen, u8)>
    decreases e, 0nat,
{
    match e {
        ExprView::IntLiteral(v) => load_const(g, ConstantView::Int(v)),
        ExprView::StringLiteral(s) => load_const(g, ConstantView::Str(s)),
        ExprView::Ident(name) => match alloc_spec(g) {
            Some((g1, d)) => Some((
                if fm.contains_key(name) { emit(g1, OpCode::LoadState { field_idx: fm[name], dest_reg: d }) } else { g1 },
                d,
            )),
            None => None,
        },
        ExprView::Assignment { target, value } => match compile(fm, g, *value) {
            Some((g1, src)) => Some((
                if fm.contains_key(target) { emit(g1, OpCode::StoreState { src_reg: src, field_idx: fm[target] }) } else { g1 },
                src,
            )),
            None => None,
        },
        ExprView::BinaryOp { left, op, right } => match compile(fm, g, *left) {
            Some((g1, r1)) => match compile(fm, g1, *right) {
                Some((g2, r2)) => match alloc_spec(g2) {
                    Some((g3, d)) => match binop_code(op, r1, r2, d) {
                        Some(opc) => Some((emit(g3, opc), d)),
                        None => None,
                    },
                    None => None,
                },
                None => None,
            },
            None => None,
        },
        ExprView::If { condition, consequence } => match compile(fm, g, *condition) {
            Some((g1, c)) => {
                let j = g1.code.len();
                let g2 = emit(g1, OpCode::JumpIfFalse { test_reg: c, target_offset: 0 });
                match compile_list(fm, g2, consequence) {
                    Some(g3) => Some((
                        Gen { code: g3.code.update(j as int, OpCode::JumpIfFalse { test_reg: c, target_offset: g3.code.len() as usize }), ..g3 },
                        c,
                    )),
                    None => None,
                }
            },
            None => None,
        },
        ExprView::Send { target, message } => send_code(g, target, message, false),
        ExprView::SendHigh { target, message } => send_code(g, target, message, true),
    }
}

/// Compiling a sequence of expressions in order.
pub open spec fn compile_list(fm: Map<Seq<char>, usize>, g: Gen, s: Seq<ExprView>) -> Option<Gen>
    decreases s, s.len(),
{
    if s.len() == 0 {
        Some(g)
    } else {
        match compile_list(fm, g, s.subrange(0, s.len() - 1)) {
            Some(g1) => match compile(fm, g1, s[s.len() - 1]) {
                Some((g2, _)) => Some(g2),
                None => None,
            },
            None => None,
        }
    }
}

/// The code of a transition body: its statements, then `HaltSlice`.
pub open spec fn transition_code(fm: Map<Seq<char>, usize>, body: Seq<ExprView>) -> Option<Gen> {
    match compile_list(fm, empty_gen(), body) {
        Some(g) => Some(emit(g, OpCode::HaltSlice)),
        None => None,
    }
}

/// The code of a goal: its predicate, then `HaltSlice`.
pub open spec fn goal_code(fm: Map<Seq<char>, usize>, target: ExprView) -> Option<Gen> {
    match compile(fm, empty_gen(), target) {
        Some((g, _)) => Some(emit(g, OpCode::HaltSlice)),
        None => None,
    }
}

/// The index of each field name: its last position in the state block.
pub open spec fn field_indices(fs: Seq<FieldView>) -> Map<Seq<char>, usize>
    decreases fs.len(),
{
    if fs.len() == 0 {
        Map::empty()
    } else {
        field_indices(fs.drop_last()).insert(fs.last().0, (fs.len() - 1) as usize)
    }
}

/// Every unit of the domain compiles.
pub open spec fn domain_compiles(d: DomainView) -> bool {
    let fm = field_indices(d.state);
    &&& forall|k: int| 0 <= k < d.transitions.len() ==> #[trigger] transition_code(fm, d.transitions[k].1) is Some
    &&& forall|k: int| 0 <= k < d.goals.len() ==> #[trigger] goal_code(fm, d.goals[k].1) is Some
}

/// Every unit of every domain compiles.
pub open spec fn program_compiles(st: Seq<StatementView>) -> bool {
    forall|i: int| #![trigger st[i]] 0 <= i < st.len() && st[i] is DomainDecl ==> domain_compiles(st[i]->DomainDecl_0)
}

/// The domain declarations among the statements, in order.
pub open spec fn domain_decls(st: Seq<StatementView>) -> Seq<DomainView>
    decreases st.len(),
{
    if st.len() == 0 {
        Seq::empty()
    } else {
        let rest = domain_decls(st.drop_last());
        match st.last() {
            StatementView::DomainDecl(d) => rest.push(d),
            _ => rest,
        }
    }
}

/// `c` is the generated bytecode of domain `d`.
pub open spec fn domain_code_is(c: DomainBytecode, d: DomainView) -> bool {
    let fm = field_indices(d.state);
    &&& c.name@ == d.name
    &&& c.scope is None
    &&& c.capability_manifest@.len() == 0
    &&& texts(c.state_schema@) == d.state.map_values(|f: FieldView| f.0)
    &&& c.invariants@.len() == 0
    &&& c.transitions@.len() == d.transitions.len()
    &&& forall|k: int| 0 <= k < d.transitions.len() ==> {
        let t = #[trigger] c.transitions@[k];
        let g = transition_code(fm, d.transitions[k].1)->0;
        &&& t.name@ == d.transitions[k].0
        &&& t.scope is None
        &&& t.required_capabilities@.len() == 0
        &&& t.instructions@ == g.code
        &&& constants_view(t.constants@) == g.consts
    }
    &&& c.goals@.len() == d.goals.len()
    &&& forall|k: int| 0 <= k < d.goals.len() ==> {
        let t = #[trigger] c.goals@[k];
        let g = goal_code(fm, d.goals[k].1)->0;
        &&& t.name@ == d.goals[k].0
        &&& t.scope is None
        &&& t.required_capabilities@.len() == 0
        &&& t.priority == 0
        &&& t.recovery_transitions@.len() == 0
        &&& t.instructions@ == g.code
        &&& constants_view(t.constants@) == g.consts
    }
}

/// The generator's output so far holds the bytecode of `ds`, in order.
pub open spec fn program_is(p: BytecodeProgram, ds: Seq<DomainView>) -> bool {
    &&& p.domains@.len() == ds.len()
    &&& forall|i: int| 0 <= i < ds.len() ==> domain_code_is(#[trigger] p.domains@[i], ds[i])
}

impl CodeGenerator {
    /// A generator with an empty program.
    pub fn new() -> (g: Self)
        ensures
            g.program().domains@.len() == 0,
    {
        CodeGenerator { program: BytecodeProgram { domains: Vec::new() } }
    }

    /// The program generated so far.
    pub closed spec fn program(self) -> BytecodeProgram {
        self.program
    }

    /// Generates the bytecode of every domain of `ast`, in order, after
    /// the program built so far. Programs with a unit that the generator
    /// cannot compile (see `compile`) are excluded.
    pub fn generate(self, ast: &Ast) -> (p: BytecodeProgram)
        requires
            program_compiles(ast@),
            self.program().domains@.len() == 0,
        ensures
            program_is(p, domain_decls(ast@)),
    {
        let mut gen = self;
        let ghost st = ast@;
        let mut i: usize = 0;
        assert(st.subrange(0, 0) =~= Seq::<StatementView>::empty());
        while i < ast.statements.len()
            invariant
                st == ast@,
                i <= ast.statements.len(),
                program_compiles(st),
                program_is(gen.program, domain_decls(st.subrange(0, i as int))),
            decreases ast.statements.len() - i,
        {
            assert(st.subrange(0, i + 1).drop_last() =~= st.subrange(0, i as int));
            assert(st.subrange(0, i + 1).last() == st[i as int]);
            match &ast.statements[i] {
                Statement::DomainDecl(domain) => {
                    assert(st[i as int] == StatementView::DomainDecl(domain@));
                    let code = gen.generate_domain(domain);
                    let ghost before = gen.program.domains@;
                    gen.program.domains.push(code);
                    assert(gen.program.domains@ == before.push(code));
                },
                Statement::SystemDecl(_) => {},
            }
            i = i + 1;
        }
        assert(st.subrange(0, i as int) =~= st);
        gen.program
    }

    fn generate_domain(&self, domain: &DomainDecl) -> (c: DomainBytecode)
        requires
            domain_compiles(domain@),
        ensures
            domain_code_is(c, domain@),
    {
        let ghost fs = domain@.state;
        let mut state_schema: Vec<String> = Vec::new();
        let mut field_map: StrMap<usize> = StrMap::new();
        let mut idx: usize = 0;
        assert(fs.subrange(0, 0) =~= Seq::<FieldView>::empty());
        while idx < domain.state.len()
            invariant
                fs == domain@.state,
                idx <= domain.state.len(),
                field_map.content() == field_indices(fs.subrange(0, idx as int)),
                texts(state_schema@) == fs.subrange(0, idx as int).map_values(|f: FieldView| f.0),
            decreases domain.state.len() - idx,
        {
            let field = &domain.state[idx];
            let ghost before = state_schema@;
            state_schema.push(field.name.clone());
            field_map.insert(field.name.clone(), idx);
            proof {
                assert(fs.subrange(0, idx + 1).drop_last() =~= fs.subrange(0, idx as int));
                assert(fs[idx as int].0 == field.name@);
                assert(texts(state_schema@) =~= texts(before).push(field.name@));
                assert(fs.subrange(0, idx + 1).map_values(|f: FieldView| f.0) =~= fs.subrange(0, idx as int).map_values(|f: FieldView| f.0).push(fs[idx as int].0));
            }
            idx = idx + 1;
        }
        assert(fs.subrange(0, idx as int) =~= fs);
        let ghost fm = field_indices(fs);
        let mut transitions: Vec<TransitionBytecode> = Vec::new();
        let mut k: usize = 0;
        while k < domain.transitions.len()
            invariant
                k <= domain.transitions.len(),
                fs == domain@.state,
                fm == field_indices(fs),
                field_map.content() == fm,
                domain_compiles(domain@),
                transitions@.len() == k,
                forall|t: int| 0 <= t < k ==> {
                    let tb = #[trigger] transitions@[t];
                    let g = transition_code(fm, domain@.transitions[t].1)->0;
                    &&& tb.name@ == domain@.transitions[t].0
                    &&& tb.scope is None
                    &&& tb.required_capabilities@.len() == 0
                    &&& tb.instructions@ == g.code
                    &&& constants_view(tb.constants@) == g.consts
                },
            decreases domain.transitions.len() - k,
        {
            let trans = &domain.transitions[k];
            assert(domain@.transitions[k as int] == (trans.name@, exprs_view_seq(trans.slice_step@)));
            assert(transition_code(fm, domain@.transitions[k as int].1) is Some);
            let mut cg = FuncGen::new(&field_map);
            let mut m: usize = 0;
            let ghost body = exprs_view_seq(trans.slice_step@);
            proof { lemma_exprs_view_index(trans.slice_step@); }
            assert(body.subrange(0, 0) =~= Seq::<ExprView>::empty());
            while m < trans.slice_step.len()
                invariant
                    m <= trans.slice_step.len(),
                    body == exprs_view_seq(trans.slice_step@),
                    body.len() == trans.slice_step.len(),
                    forall|t: int| 0 <= t < trans.slice_step.len() ==> #[trigger] body[t] == trans.slice_step@[t]@,
                    cg.fm() == fm,
                    cg.gen().consts.no_duplicates(),
                    compile_list(fm, empty_gen(), body) is Some,
                    compile_list(fm, empty_gen(), body.subrange(0, m as int)) == Some(cg.gen()),
                decreases trans.slice_step.len() - m,
            {
                proof {
                    assert(body.subrange(0, m + 1).subrange(0, m as int) =~= body.subrange(0, m as int));
                    lemma_compile_list_prefix(fm, empty_gen(), body, m as int + 1);
                }
                cg.compile_expr(&trans.slice_step[m]);
                m = m + 1;
            }
            assert(body.subrange(0, m as int) =~= body);
            cg.emit(OpCode::HaltSlice);
            let FuncGen { field_map: _, instructions, constants, next_reg: _ } = cg;
            transitions.push(TransitionBytecode {
                name: trans.name.clone(),
                scope: None,
                required_capabilities: Vec::new(),
                constants,
                instructions,
            });
            k = k + 1;
        }
        let mut goals: Vec<GoalBytecode> = Vec::new();
        let mut k: usize = 0;
        while k < domain.goals.len()
            invariant
                k <= domain.goals.len(),
                fm == field_indices(domain@.state),
                field_map.content() == fm,
                domain_compiles(domain@),
                goals@.len() == k,
                forall|t: int| 0 <= t < k ==> {
                    let tb = #[trigger] goals@[t];
                    let g = goal_code(fm, domain@.goals[t].1)->0;
                    &&& tb.name@ == domain@.goals[t].0
                    &&& tb.scope is None
                    &&& tb.required_capabilities@.len() == 0
                    &&& tb.priority == 0
                    &&& tb.recovery_transitions@.len() == 0
                    &&& tb.instructions@ == g.code
                    &&& constants_view(tb.constants@) == g.consts
                },
            decreases domain.goals.len() - k,
        {
            let goal = &domain.goals[k];
            assert(domain@.goals[k as int] == (goal.name@, goal.target@));
            assert(goal_code(fm, domain@.goals[k as int].1) is Some);
            let mut cg = FuncGen::new(&field_map);
            cg.compile_expr(&goal.target);
            cg.emit(OpCode::HaltSlice);
            let FuncGen { field_map: _, instructions, constants, next_reg: _ } = cg;
            goals.push(GoalBytecode {
                name: goal.name.clone(),
                scope: None,
                required_capabilities: Vec::new(),
                priority: 0,
                recovery_transitions: Vec::new(),
                constants,
                instructions,
            });
            k = k + 1;
        }
        DomainBytecode {
            name: domain.name.clone(),
            scope: None,
            capability_manifest: Vec::new(),
            state_schema,
            transitions,
            goals,
            invariants: Vec::new(),
        }
    }
}

proof fn lemma_compile_list_prefix(fm: Map<Seq<char>, usize>, g: Gen, s: Seq<ExprView>, n: int)
    requires
        0 <= n <= s.len(),
        compile_list(fm, g, s) is Some,
    ensures
        compile_list(fm, g, s.subrange(0, n)) is Some,
    decreases s.len(),
{
    if n < s.len() {
        assert(s.subrange(0, s.len() - 1).subrange(0, n) =~= s.subrange(0, n));
        lemma_compile_list_prefix(fm, g, s.subrange(0, s.len() - 1), n);
    } else {
        assert(s.subrange(0, n) =~= s);
    }
}

/// Code generation for one unit (a transition or a goal).
struct FuncGen<'a> {
    field_map: &'a StrMap<usize>,
    instructions: Vec<OpCode>,
    constants: Vec<Constant>,
    next_reg: u8,
}

impl<'a> FuncGen<'a> {
    spec fn gen(self) -> Gen {
        Gen { code: self.instructions@, consts: constants_view(self.constants@), next: self.next_reg as nat }
    }

    spec fn fm(self) -> Map<Seq<char>, usize> {
        self.field_map.content()
    }

    fn new(field_map: &'a StrMap<usize>) -> (g: Self)
        ensures
            g.gen() == empty_gen(),
            g.fm() == field_map.content(),
    {
        let g = FuncGen { field_map, instructions: Vec::new(), constants: Vec::new(), next_reg: 0 };
        assert(g.gen().consts =~= Seq::<ConstantView>::empty());
        assert(g.gen() =~= empty_gen());
        g
    }

    fn emit(&mut self, op: OpCode)
        ensures
            final(self).gen() == emit(old(self).gen(), op),
            final(self).fm() == old(self).fm(),
    {
        self.instructions.push(op);
    }

    fn alloc_reg(&mut self) -> (r: u8)
        requires
            alloc_spec(old(self).gen()) is Some,
        ensures
            alloc_spec(old(self).gen()) == Some((final(self).gen(), r)),
            final(self).fm() == old(self).fm(),
    {
        let r = self.next_reg;
        self.next_reg = self.next_reg + 1;
        r
    }

    fn add_constant(&mut self, val: Constant) -> (r: usize)
        requires
            old(self).gen().consts.no_duplicates(),
        ensures
            add_const(old(self).gen(), val@) == (final(self).gen(), r),
            final(self).gen().consts.no_duplicates(),
            final(self).fm() == old(self).fm(),
    {
        let ghost cv = constants_view(self.constants@);
        let mut i: usize = 0;
        while i < self.constants.len()
            invariant
                i <= self.constants.len(),
                cv == constants_view(self.constants@),
                cv.no_duplicates(),
                self.gen() == old(self).gen(),
                forall|j: int| 0 <= j < i ==> cv[j] != val@,
            decreases self.constants.len() - i,
        {
            if self.constants[i].same_as(&val) {
                proof {
                    assert(cv[i as int] == val@);
                    assert(cv.contains(val@));
                    let k = cv.index_of(val@);
                    assert(cv[k] == val@);
                    if k != i as int {
                        assert(cv.no_duplicates());
                    }
                }
                return i;
            }
            i = i + 1;
        }
        let pos = self.constants.len();
        let ghost vv = val@;
        self.constants.push(val);
        proof {
            assert(!cv.contains(vv));
            assert(constants_view(self.constants@) =~= cv.push(vv));
        }
        pos
    }

    /// Compiles `expr` and gives the register that holds its value.
    fn compile_expr(&mut self, expr: &Expr) -> (r: u8)
        requires
            compile(old(self).fm(), old(self).gen(), expr@) is Some,
            old(self).gen().consts.no_duplicates(),
        ensures
            compile(old(self).fm(), old(self).gen(), expr@) == Some((final(self).gen(), r)),
            final(self).gen().consts.no_duplicates(),
            final(self).fm() == old(self).fm(),
            final(self).gen().code.len() >= old(self).gen().code.len(),
        decreases expr,
    {
        match expr {
            Expr::IntLiteral(v) => {
                let const_idx = self.add_constant(Constant::Int(*v));
                let dest_reg = self.alloc_reg();
                self.emit(OpCode::LoadConst { const_idx, dest_reg });
                dest_reg
            },
            Expr::StringLiteral(v) => {
                let const_idx = self.add_constant(Constant::String(v.clone()));
                let dest_reg = self.alloc_reg();
                self.emit(OpCode::LoadConst { const_idx, dest_reg });
                dest_reg
            },
            Expr::Ident(name) => {
                let dest_reg = self.alloc_reg();
                match self.field_map.get(name.as_str()) {
                    Some(field_idx) => {
                        self.emit(OpCode::LoadState { field_idx: *field_idx, dest_reg });
                    },
                    None => {},
                }
                dest_reg
            },
            Expr::Assignment { target, value } => {
                let src_reg = self.compile_expr(value);
                match self.field_map.get(target.as_str()) {
                    Some(field_idx) => {
                        self.emit(OpCode::StoreState { src_reg, field_idx: *field_idx });
                    },
                    None => {},
                }
                src_reg
            },
            Expr::BinaryOp { left, op, right } => {
                let r1 = self.compile_expr(left);
                let r2 = self.compile_expr(right);
                let dest = self.alloc_reg();
                let opcode = if string_is(op, "+") {
                    OpCode::AddInt { r1, r2, dest }
                } else if string_is(op, "-") {
                    OpCode::SubInt { r1, r2, dest }
                } else if string_is(op, "==") {
                    OpCode::CmpEq { r1, r2, dest }
                } else if string_is(op, "<") {
                    OpCode::CmpLt { r1, r2, dest }
                } else if string_is(op, ">") {
                    OpCode::CmpGt { r1, r2, dest }
                } else if string_is(op, ">=") {
                    OpCode::CmpGte { r1, r2, dest }
                } else {
                    OpCode::CmpLte { r1, r2, dest }
                };
                self.emit(opcode);
                dest
            },
            Expr::If { condition, consequence } => {
                let cond_reg = self.compile_expr(condition);
                let jmp_idx = self.instructions.len();
                self.emit(OpCode::JumpIfFalse { test_reg: cond_reg, target_offset: 0 });
                let ghost g2 = self.gen();
                let ghost body = exprs_view_seq(consequence@);
                proof {
                    lemma_exprs_view_index(consequence@);
                    assert(decreases_to!(*expr => *consequence));
                }
                assert(body.subrange(0, 0) =~= Seq::<ExprView>::empty());
                let mut m: usize = 0;
                while m < consequence.len()
                    invariant
                        m <= consequence.len(),
                        decreases_to!(*expr => *consequence),
                        body == exprs_view_seq(consequence@),
                        body.len() == consequence.len(),
                        forall|t: int| 0 <= t < consequence.len() ==> #[trigger] body[t] == consequence@[t]@,
                        self.fm() == old(self).fm(),
                        self.gen().consts.no_duplicates(),
                        self.instructions.len() > jmp_idx,
                        compile_list(self.fm(), g2, body) is Some,
                        compile_list(self.fm(), g2, body.subrange(0, m as int)) == Some(self.gen()),
                    decreases consequence.len() - m,
                {
                    proof {
                        assert(body.subrange(0, m + 1).subrange(0, m as int) =~= body.subrange(0, m as int));
                        lemma_compile_list_prefix(self.fm(), g2, body, m as int + 1);
                        assert(decreases_to!(*consequence => consequence@));
                        assert(decreases_to!(consequence@ => consequence@[m as int]));
                    }
                    self.compile_expr(&consequence[m]);
                    m = m + 1;
                }
                assert(body.subrange(0, m as int) =~= body);
                let target = self.instructions.len();
                self.instructions.set(jmp_idx, OpCode::JumpIfFalse { test_reg: cond_reg, target_offset: target });
                cond_reg
            },
            Expr::Send { target, message } => {
                let target_const_idx = self.add_constant(Constant::String(target.clone()));
                let msg_const_idx = self.add_constant(Constant::String(message.clone()));
                self.emit(OpCode::SendMsg { target_const_idx, msg_const_idx });
                self.alloc_reg()
            },
            Expr::SendHigh { target, message } => {
                let target_const_idx = self.add_constant(Constant::String(target.clone()));
                let msg_const_idx = self.add_constant(Constant::String(message.clone()));
                self.emit(OpCode::SendHighMsg { target_const_idx, msg_const_idx });
                self.alloc_reg()
            },
        }
    }
}

/// The next free register after compiling `e` from register `n`, or `None`
/// where the generator would panic: what `compile` needs of its state.
pub open spec fn regs_after(e: ExprView, n: nat) -> Option<nat>
    decreases e, 0nat,
{
    match e {
        ExprView::IntLiteral(_) | ExprView::StringLiteral(_) | ExprView::Ident(_) | ExprView::Send { .. }
        | ExprView::SendHigh { .. } => if n < 255 { Some(n + 1) } else { None },
        ExprView::Assignment { value, .. } => regs_after(*value, n),
        ExprView::BinaryOp { left, op, right } => match regs_after(*left, n) {
            Some(n1) => match regs_after(*right, n1) {
                Some(n2) => if n2 < 255 && binop_code(op, 0, 0, 0) is Some { Some(n2 + 1) } else { None },
                None => None,
            },
            None => None,
        },
        ExprView::If { condition, consequence } => match regs_after(*condition, n) {
            Some(n1) => regs_after_list(consequence, n1),
            None => None,
        },
    }
}

/// `regs_after` over a sequence of expressions compiled in order.
pub open spec fn regs_after_list(s: Seq<ExprView>, n: nat) -> Option<nat>
    decreases s, s.len(),
{
    if s.len() == 0 {
        Some(n)
    } else {
        match regs_after_list(s.subrange(0, s.len() - 1), n) {
            Some(n1) => regs_after(s[s.len() - 1], n1),
            None => None,
        }
    }
}

proof fn lemma_binop_code_any_regs(op: Seq<char>, r1: u8, r2: u8, d: u8)
    ensures
        (binop_code(op, r1, r2, d) is Some) == (binop_code(op, 0, 0, 0) is Some),
{
}

/// Whether `compile` succeeds, and the register it leaves next, depend on
/// the generator's next register alone.
proof fn lemma_compile_regs(fm: Map<Seq<char>, usize>, g: Gen, e: ExprView)
    ensures
        (compile(fm, g, e) is Some) == (regs_after(e, g.next) is Some),
        compile(fm, g, e) matches Some((g2, _)) ==> regs_after(e, g.next) == Some(g2.next),
    decreases e, 0nat,
{
    match e {
        ExprView::Assignment { target, value } => {
            lemma_compile_regs(fm, g, *value);
        },
        ExprView::BinaryOp { left, op, right } => {
            lemma_compile_regs(fm, g, *left);
            match compile(fm, g, *left) {
                Some((g1, r1)) => {
                    lemma_compile_regs(fm, g1, *right);
                    match compile(fm, g1, *right) {
                        Some((g2, r2)) => {
                            if g2.next < 255 {
                                lemma_binop_code_any_regs(op, r1, r2, g2.next as u8);
                            }
                        },
                        None => {},
                    }
                },
                None => {},
            }
        },
        ExprView::If { condition, consequence } => {
            lemma_compile_regs(fm, g, *condition);
            match compile(fm, g, *condition) {
                Some((g1, c)) => {
                    let g2 = emit(g1, OpCode::JumpIfFalse { test_reg: c, target_offset: 0 });
                    lemma_compile_list_regs(fm, g2, consequence);
                },
                None => {},
            }
        },
        _ => {},
    }
}

proof fn lemma_compile_list_regs(fm: Map<Seq<char>, usize>, g: Gen, s: Seq<ExprView>)
    ensures
        (compile_list(fm, g, s) is Some) == (regs_after_list(s, g.next) is Some),
        compile_list(fm, g, s) matches Some(g2) ==> regs_after_list(s, g.next) == Some(g2.next),
    decreases s, s.len(),
{
    if s.len() > 0 {
        let pre = s.subrange(0, s.len() - 1);
        lemma_compile_list_regs(fm, g, pre);
        match compile_list(fm, g, pre) {
            Some(g1) => {
                lemma_compile_regs(fm, g1, s[s.len() - 1]);
            },
            None => {},
        }
    }
}

/// `regs_after` of an expression, computed.
fn regs_needed(e: &Expr, n: usize) -> (r: Option<usize>)
    requires
        n <= 255,
    ensures
        match regs_after(e@, n as nat) {
            Some(m) => r == Some(m as usize) && m <= 255,
            None => r is None,
        },
    decreases e,
{
    match e {
        Expr::IntLiteral(_) | Expr::StringLiteral(_) | Expr::Ident(_) | Expr::Send { .. } | Expr::SendHigh { .. } => {
            if n < 255 { Some(n + 1) } else { None }
        },
        Expr::Assignment { value, .. } => regs_needed(value, n),
        Expr::BinaryOp { left, op, right } => {
            let n1 = match regs_needed(left, n) {
                Some(n1) => n1,
                None => {
                    return None;
                },
            };
            let n2 = match regs_needed(right, n1) {
                Some(n2) => n2,
                None => {
                    return None;
                },
            };
            let supported = string_is(op, "+") || string_is(op, "-") || string_is(op, "==") || string_is(op, "<")
                || string_is(op, ">") || string_is(op, ">=") || string_is(op, "<=");
            if n2 < 255 && supported { Some(n2 + 1) } else { None }
        },
        Expr::If { condition, consequence } => {
            let mut cur = match regs_needed(condition, n) {
                Some(n1) => n1,
                None => {
                    return None;
                },
            };
            let ghost cv = exprs_view_seq(consequence@);
            proof {
                lemma_exprs_view_index(consequence@);
                assert(decreases_to!(*e => *consequence));
                assert(cv.subrange(0, 0) =~= Seq::<ExprView>::empty());
            }
            let mut i: usize = 0;
            while i < consequence.len()
                invariant
                    i <= consequence.len(),
                    cur <= 255,
                    cv == exprs_view_seq(consequence@),
                    cv.len() == consequence@.len(),
                    forall|k: int| 0 <= k < consequence@.len() ==> #[trigger] cv[k] == consequence@[k]@,
                    decreases_to!(*e => *consequence),
                    regs_after_list(cv.subrange(0, i as int), regs_after(condition@, n as nat)->0) == Some(cur as nat),
                    regs_after(condition@, n as nat) is Some,
                    regs_after(e@, n as nat) == regs_after_list(cv, regs_after(condition@, n as nat)->0),
                decreases consequence.len() - i,
            {
                proof {
                    assert(decreases_to!(*consequence => consequence@));
                    assert(decreases_to!(consequence@ => consequence@[i as int]));
                    assert(cv.subrange(0, i + 1).subrange(0, i as int) =~= cv.subrange(0, i as int));
                    assert(cv.subrange(0, i + 1)[i as int] == consequence@[i as int]@);
                }
                cur = match regs_needed(&consequence[i], cur) {
                    Some(m) => m,
                    None => {
                        proof {
                            let n1 = regs_after(condition@, n as nat)->0;
                            assert(regs_after_list(cv.subrange(0, i + 1), n1) is None);
                            lemma_regs_after_list_prefix_none(cv, i as int + 1, n1);
                        }
                        return None;
                    },
                };
                i = i + 1;
            }
            assert(cv.subrange(0, i as int) =~= cv);
            Some(cur)
        },
    }
}

/// Whether the generator can compile every unit of every domain of `ast`.
pub fn program_fits(ast: &Ast) -> (r: bool)
    ensures
        r == program_compiles(ast@),
{
    let ghost st = ast@;
    let mut i: usize = 0;
    while i < ast.statements.len()
        invariant
            i <= ast.statements.len(),
            st == ast@,
            st.len() == ast.statements.len(),
            forall|k: int| #![trigger st[k]] 0 <= k < i && st[k] is DomainDecl ==> domain_compiles(st[k]->DomainDecl_0),
        decreases ast.statements.len() - i,
    {
        assert(st[i as int] == ast.statements@[i as int]@);
        match &ast.statements[i] {
            Statement::DomainDecl(d) => {
                if !domain_fits(d) {
                    return false;
                }
            },
            Statement::SystemDecl(_) => {},
        }
        i = i + 1;
    }
    true
}

/// Whether every transition and goal of `d` compiles.
fn domain_fits(d: &DomainDecl) -> (r: bool)
    ensures
        r == domain_compiles(d@),
{
    let ghost dv = d@;
    let ghost fm = field_indices(dv.state);
    let mut k: usize = 0;
    while k < d.transitions.len()
        invariant
            k <= d.transitions.len(),
            dv == d@,
            fm == field_indices(dv.state),
            dv.transitions.len() == d.transitions.len(),
            forall|j: int| 0 <= j < k ==> #[trigger] transition_code(fm, dv.transitions[j].1) is Some,
        decreases d.transitions.len() - k,
    {
        let body = &d.transitions[k].slice_step;
        let ghost bv = exprs_view_seq(body@);
        assert(dv.transitions[k as int].1 == bv);
        proof {
            lemma_compile_list_regs(fm, empty_gen(), bv);
            lemma_exprs_view_index(body@);
        }
        let mut cur: usize = 0;
        let mut i: usize = 0;
        assert(bv.subrange(0, 0) =~= Seq::<ExprView>::empty());
        while i < body.len()
            invariant
                i <= body.len(),
                cur <= 255,
                bv == exprs_view_seq(body@),
                bv.len() == body@.len(),
                k < d.transitions.len(),
                dv == d@,
                fm == field_indices(dv.state),
                dv.transitions.len() == d.transitions.len(),
                dv.transitions[k as int].1 == bv,
                (compile_list(fm, empty_gen(), bv) is Some) == (regs_after_list(bv, empty_gen().next) is Some),
                forall|j: int| 0 <= j < k ==> #[trigger] transition_code(fm, dv.transitions[j].1) is Some,
                forall|t: int| 0 <= t < body@.len() ==> #[trigger] bv[t] == body@[t]@,
                regs_after_list(bv.subrange(0, i as int), 0) == Some(cur as nat),
            decreases body.len() - i,
        {
            proof {
                assert(bv.subrange(0, i + 1).subrange(0, i as int) =~= bv.subrange(0, i as int));
                assert(bv.subrange(0, i + 1)[i as int] == body@[i as int]@);
            }
            cur = match regs_needed(&body[i], cur) {
                Some(m) => m,
                None => {
                    proof {
                        assert(regs_after_list(bv.subrange(0, i + 1), 0) is None);
                        lemma_regs_after_list_prefix_none(bv, i as int + 1, 0);
                        assert(transition_code(fm, dv.transitions[k as int].1) is None);
                    }
                    return false;
                },
            };
            i = i + 1;
        }
        assert(bv.subrange(0, i as int) =~= bv);
        k = k + 1;
    }
    let mut k: usize = 0;
    while k < d.goals.len()
        invariant
            k <= d.goals.len(),
            dv == d@,
            fm == field_indices(dv.state),
            dv.goals.len() == d.goals.len(),
            forall|j: int| 0 <= j < dv.transitions.len() ==> #[trigger] transition_code(fm, dv.transitions[j].1) is Some,
            forall|j: int| 0 <= j < k ==> #[trigger] goal_code(fm, dv.goals[j].1) is Some,
        decreases d.goals.len() - k,
    {
        let target = &d.goals[k].target;
        assert(dv.goals[k as int].1 == target@);
        proof {
            lemma_compile_regs(fm, empty_gen(), target@);
        }
        match regs_needed(target, 0) {
            Some(_) => {},
            None => {
                assert(goal_code(fm, dv.goals[k as int].1) is None);
                return false;
            },
        }
        k = k + 1;
    }
    true
}

/// Once a prefix of a sequence cannot be compiled, neither can the whole.
proof fn lemma_regs_after_list_prefix_none(s: Seq<ExprView>, n: int, start: nat)
    requires
        0 <= n <= s.len(),
        regs_after_list(s.subrange(0, n), start) is None,
    ensures
        regs_after_list(s, start) is None,
    decreases s.len() - n,
{
    if n < s.len() {
        let t = s.subrange(0, n + 1);
        assert(t.subrange(0, n) =~= s.subrange(0, n));
        lemma_regs_after_list_prefix_none(s, n + 1, start);
    } else {
        assert(s.subrange(0, n) =~= s);
    }
}

/// The value of `a op b` for an operator that the generator compiles,
/// written as in a source: the sum or the difference, or 1 or 0 as the
/// comparison holds.
pub open spec fn operator_value(op: Seq<char>, a: int, b: int) -> Option<int> {
    if op == seq!['+'] {
        Some(a + b)
    } else if op == seq!['-'] {
        Some(a - b)
    } else if op == seq!['=', '='] {
        Some(if a == b { 1int } else { 0int })
    } else if op == seq!['<'] {
        Some(if a < b { 1int } else { 0int })
    } else if op == seq!['>'] {
        Some(if a > b { 1int } else { 0int })
    } else if op == seq!['>', '='] {
        Some(if a >= b { 1int } else { 0int })
    } else if op == seq!['<', '='] {
        Some(if a <= b { 1int } else { 0int })
    } else {
        None
    }
}

/// The instruction generated for a binary operator computes that operator:
/// an operator is compiled exactly when it has a value, and the instruction
/// for it, run in a transition or in a goal on operands `a` and `b` (read
/// from its operand registers), writes the value of `a op b` to its
/// destination register and nothing else (so `>=` writes 1 on equal
/// operands and `>` writes 0).
pub proof fn lemma_operator_code_computes(
    op: Seq<char>,
    r1: u8,
    r2: u8,
    dest: u8,
    code: Seq<OpCode>,
    consts: Seq<ConstantView>,
    fields: Seq<Seq<char>>,
    caps: Seq<Seq<char>>,
    m: Machine,
    mem: Map<Seq<char>, i64>,
    ctx: Seq<char>,
    pm: PredMachine,
)
    ensures
        binop_code(op, r1, r2, dest) is Some <==> operator_value(op, 0, 0) is Some,
        0 <= m.pc < code.len() && binop_code(op, r1, r2, dest) == Some(code[m.pc]) ==> ({
            let v = operator_value(op, m.regs[r1 as int] as int, m.regs[r2 as int] as int)->0;
            i64::MIN <= v <= i64::MAX ==> step(code, consts, fields, caps, m)
                == Step::Next(Machine { regs: m.regs.update(dest as int, v as i64), pc: m.pc + 1, ..m })
        }),
        0 <= pm.pc < code.len() && binop_code(op, r1, r2, dest) == Some(code[pm.pc]) ==> ({
            let v = operator_value(op, pm.regs[r1 as int] as int, pm.regs[r2 as int] as int)->0;
            i64::MIN <= v <= i64::MAX ==> pred_step(code, consts, fields, mem, ctx, pm)
                == PredStep::Next(PredMachine { regs: pm.regs.update(dest as int, v as i64), last: Some(dest), pc: pm.pc + 1 })
        }),
{
    reveal_strlit("+");
    reveal_strlit("-");
    reveal_strlit("==");
    reveal_strlit("<");
    reveal_strlit(">");
    reveal_strlit(">=");
    reveal_strlit("<=");
    assert("+"@ =~= seq!['+']);
    assert("-"@ =~= seq!['-']);
    assert("=="@ =~= seq!['=', '=']);
    assert("<"@ =~= seq!['<']);
    assert(">"@ =~= seq!['>']);
    assert(">="@ =~= seq!['>', '=']);
    assert("<="@ =~= seq!['<', '=']);
}

/// Arithmetic expressions: integer literals, state fields, and the
/// operators the generator compiles, applied to such expressions.
pub open spec fn arith_expr(fm: Map<Seq<char>, usize>, e: ExprView) -> bool
    decreases e,
{
    match e {
        ExprView::IntLiteral(_) => true,
        ExprView::Ident(name) => fm.contains_key(name),
        ExprView::BinaryOp { left, op, right } => operator_value(op, 0, 0) is Some && arith_expr(fm, *left) && arith_expr(fm, *right),
        _ => false,
    }
}

/// The value of an arithmetic expression over memory `mem` (a field that
/// the memory lacks reads 0), or `None` when some part of it leaves the
/// `i64` range.
pub open spec fn expr_value(mem: Map<Seq<char>, i64>, e: ExprView) -> Option<int>
    decreases e,
{
    match e {
        ExprView::IntLiteral(v) => Some(v as int),
        ExprView::Ident(name) => Some(if mem.contains_key(name) { mem[name] as int } else { 0int }),
        ExprView::BinaryOp { left, op, right } => match (expr_value(mem, *left), expr_value(mem, *right)) {
            (Some(a), Some(b)) => match operator_value(op, a, b) {
                Some(v) => if i64::MIN <= v <= i64::MAX { Some(v) } else { None },
                None => None,
            },
            _ => None,
        },
        _ => None,
    }
}

proof fn lemma_compile_grows(fm: Map<Seq<char>, usize>, g: Gen, e: ExprView)
    requires
        arith_expr(fm, e),
        compile(fm, g, e) is Some,
    ensures
        ({
            let (g2, r) = compile(fm, g, e)->0;
            &&& g.code.is_prefix_of(g2.code)
            &&& g.consts.is_prefix_of(g2.consts)
            &&& g.next <= r < g2.next
            &&& g2.code.len() > g.code.len()
        }),
    decreases e,
{
    match e {
        ExprView::IntLiteral(v) => {
            let (g1, ci) = add_const(g, ConstantView::Int(v));
            assert(g.consts.is_prefix_of(g1.consts)) by {
                if !g.consts.contains(ConstantView::Int(v)) {
                    assert(g1.consts.subrange(0, g.consts.len() as int) =~= g.consts);
                } else {
                    assert(g1.consts.subrange(0, g.consts.len() as int) =~= g.consts);
                }
            }
            let (g2, _) = compile(fm, g, e)->0;
            assert(g2.code.subrange(0, g.code.len() as int) =~= g.code);
        },
        ExprView::Ident(name) => {
            let (g2, _) = compile(fm, g, e)->0;
            assert(g2.code.subrange(0, g.code.len() as int) =~= g.code);
            assert(g2.consts.subrange(0, g.consts.len() as int) =~= g.consts);
        },
        ExprView::BinaryOp { left, op, right } => {
            lemma_compile_grows(fm, g, *left);
            let (g1, r1) = compile(fm, g, *left)->0;
            lemma_compile_grows(fm, g1, *right);
            let (g2, r2) = compile(fm, g1, *right)->0;
            let (g3, d) = alloc_spec(g2)->0;
            let g4 = emit(g3, binop_code(op, r1, r2, d)->0);
            assert(g4.code.subrange(0, g2.code.len() as int) =~= g2.code);
            assert(g.code.is_prefix_of(g4.code)) by {
                assert(g4.code.subrange(0, g.code.len() as int) =~= g2.code.subrange(0, g.code.len() as int));
                assert(g2.code.subrange(0, g.code.len() as int) =~= g1.code.subrange(0, g.code.len() as int));
            }
            assert(g.consts.is_prefix_of(g4.consts)) by {
                assert(g4.consts == g2.consts);
                assert(g2.consts.subrange(0, g.consts.len() as int) =~= g1.consts.subrange(0, g.consts.len() as int));
            }
        },
        _ => {},
    }
}

proof fn lemma_prefix_trans<A>(a: Seq<A>, b: Seq<A>, c: Seq<A>)
    requires
        a.is_prefix_of(b),
        b.is_prefix_of(c),
    ensures
        a.is_prefix_of(c),
{
    assert forall|i: int| 0 <= i < a.len() implies c[i] == a[i] by {
        assert(b[i] == a[i]);
    }
    assert(c.subrange(0, a.len() as int) =~= a);
}

/// Compiled expressions compute their value: running the instructions
/// generated for an arithmetic expression, from where they start, on a
/// machine whose memory gives the expression a value, moves through them
/// one by one and leaves that value in the register that the generator
/// reported, touching only the registers it allocated for the expression
/// and neither the memory nor the messages sent. (Fields are read through
/// a schema that lists each field at its index.)
pub proof fn lemma_compiled_expression_computes(
    fm: Map<Seq<char>, usize>,
    g: Gen,
    e: ExprView,
    code: Seq<OpCode>,
    consts: Seq<ConstantView>,
    fields: Seq<Seq<char>>,
    caps: Seq<Seq<char>>,
    m: Machine,
)
    requires
        arith_expr(fm, e),
        compile(fm, g, e) is Some,
        (compile(fm, g, e)->0).0.code.is_prefix_of(code),
        (compile(fm, g, e)->0).0.consts.is_prefix_of(consts),
        forall|n: Seq<char>| #[trigger] fm.contains_key(n) ==> fm[n] < fields.len() && fields[fm[n] as int] == n,
        consts.len() <= usize::MAX,
        m.pc == g.code.len(),
        m.regs.len() == 256,
        expr_value(m.mem, e) is Some,
    ensures
        ({
            let (g2, r) = compile(fm, g, e)->0;
            let k = (g2.code.len() - g.code.len()) as nat;
            &&& exec_steps(code, consts, fields, caps, m, k) is Some
            &&& exec_steps(code, consts, fields, caps, m, k)->0.pc == g2.code.len()
            &&& exec_steps(code, consts, fields, caps, m, k)->0.mem == m.mem
            &&& exec_steps(code, consts, fields, caps, m, k)->0.outbox == m.outbox
            &&& exec_steps(code, consts, fields, caps, m, k)->0.regs.len() == 256
            &&& exec_steps(code, consts, fields, caps, m, k)->0.regs[r as int] as int == expr_value(m.mem, e)->0
            &&& forall|i: int| 0 <= i < 256 && !(g.next <= i < g2.next)
                ==> #[trigger] exec_steps(code, consts, fields, caps, m, k)->0.regs[i] == m.regs[i]
        }),
    decreases e,
{
    lemma_compile_grows(fm, g, e);
    let (g2, r) = compile(fm, g, e)->0;
    match e {
        ExprView::IntLiteral(v) => {
            let (g1, ci) = add_const(g, ConstantView::Int(v));
            assert(ci < g1.consts.len() && g1.consts[ci as int] == ConstantView::Int(v)) by {
                assert(g.consts.len() <= consts.len());
                if g.consts.contains(ConstantView::Int(v)) {
                    let i = g.consts.index_of(ConstantView::Int(v));
                    assert(0 <= i < g.consts.len() && g.consts[i] == ConstantView::Int(v));
                    assert(ci as int == i);
                }
            }
            assert(g2.consts == g1.consts);
            assert(consts[ci as int] == ConstantView::Int(v));
            assert(g2.code == g.code.push(OpCode::LoadConst { const_idx: ci, dest_reg: g.next as u8 }));
            assert(code[g.code.len() as int] == g2.code[g.code.len() as int]);
            let m1 = Machine { regs: m.regs.update(g.next as int, v), pc: m.pc + 1, ..m };
            assert(step(code, consts, fields, caps, m) == Step::Next(m1));
            assert(exec_steps(code, consts, fields, caps, m1, 0) == Some(m1));
            assert(exec_steps(code, consts, fields, caps, m, 1) == Some(m1));
        },
        ExprView::Ident(name) => {
            assert(g2.code == g.code.push(OpCode::LoadState { field_idx: fm[name], dest_reg: g.next as u8 }));
            assert(code[g.code.len() as int] == g2.code[g.code.len() as int]);
            assert(fields[fm[name] as int] == name);
            let v: i64 = if m.mem.contains_key(name) { m.mem[name] } else { 0i64 };
            let m1 = Machine { regs: m.regs.update(g.next as int, v), pc: m.pc + 1, ..m };
            assert(step(code, consts, fields, caps, m) == Step::Next(m1));
            assert(exec_steps(code, consts, fields, caps, m1, 0) == Some(m1));
            assert(exec_steps(code, consts, fields, caps, m, 1) == Some(m1));
        },
        ExprView::BinaryOp { left, op, right } => {
            lemma_compile_grows(fm, g, *left);
            let (g1, r1) = compile(fm, g, *left)->0;
            lemma_compile_grows(fm, g1, *right);
            let (gr, r2) = compile(fm, g1, *right)->0;
            let (g3, d) = alloc_spec(gr)->0;
            let opc = binop_code(op, r1, r2, d)->0;
            assert(g2 == emit(g3, opc));
            assert(gr.code.is_prefix_of(g2.code)) by {
                assert(g2.code.subrange(0, gr.code.len() as int) =~= gr.code);
            }
            lemma_prefix_trans(gr.code, g2.code, code);
            lemma_prefix_trans(g1.code, gr.code, code);
            assert(g2.consts == gr.consts);
            lemma_prefix_trans(g1.consts, gr.consts, consts);
            lemma_compiled_expression_computes(fm, g, *left, code, consts, fields, caps, m);
            let k1 = (g1.code.len() - g.code.len()) as nat;
            let m1 = exec_steps(code, consts, fields, caps, m, k1)->0;
            lemma_compiled_expression_computes(fm, g1, *right, code, consts, fields, caps, m1);
            let k2 = (gr.code.len() - g1.code.len()) as nat;
            let mr = exec_steps(code, consts, fields, caps, m1, k2)->0;
            let a = expr_value(m.mem, *left)->0;
            let b = expr_value(m.mem, *right)->0;
            assert(mr.regs[r1 as int] == m1.regs[r1 as int]);
            assert(code[gr.code.len() as int] == opc) by {
                assert(g2.code[gr.code.len() as int] == opc);
            }
            lemma_operator_code_computes(op, r1, r2, d, code, consts, fields, caps, mr, Map::empty(), Seq::empty(),
                PredMachine { regs: mr.regs, last: None, pc: -1 });
            let v = operator_value(op, a, b)->0;
            let m3 = Machine { regs: mr.regs.update(d as int, v as i64), pc: mr.pc + 1, ..mr };
            assert(step(code, consts, fields, caps, mr) == Step::Next(m3));
            assert(exec_steps(code, consts, fields, caps, m3, 0) == Some(m3));
            assert(exec_steps(code, consts, fields, caps, mr, 1) == Some(m3));
            lemma_exec_steps_append(code, consts, fields, caps, m, k1, k2);
            lemma_exec_steps_append(code, consts, fields, caps, m, k1 + k2, 1);
            assert((g2.code.len() - g.code.len()) as nat == k1 + k2 + 1);
            assert forall|i: int| 0 <= i < 256 && !(g.next <= i < g2.next) implies m3.regs[i] == m.regs[i] by {
                assert(mr.regs[i] == m1.regs[i]);
                assert(m1.regs[i] == m.regs[i]);
            }
        },
        _ => {},
    }
}

} // verus!
