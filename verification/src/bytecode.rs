//! The Ved bytecode: constants, instructions, compiled units, and the
//! binary packing of a whole program.

use vstd::prelude::*;
use vstd::utf8::encode_utf8;

verus! {

#[derive(Debug, Clone, PartialEq)]
pub enum Constant {
    Int(i64),
    String(String),
}

/// A constant with its string taken as a character sequence.
pub enum ConstantView {
    Int(i64),
    Str(Seq<char>),
}

impl View for Constant {
    type V = ConstantView;

    open spec fn view(&self) -> ConstantView {
        match self {
            Constant::Int(v) => ConstantView::Int(*v),
            Constant::String(s) => ConstantView::Str(s@),
        }
    }
}

/// The views of a constant pool.
pub open spec fn constants_view(s: Seq<Constant>) -> Seq<ConstantView> {
    s.map_values(|c: Constant| c@)
}

impl Constant {
    /// Whether two constants are equal (same kind and same value).
    pub fn same_as(&self, other: &Constant) -> (r: bool)
        ensures
            r == (self@ == other@),
    {
        match (self, other) {
            (Constant::Int(a), Constant::Int(b)) => *a == *b,
            (Constant::String(a), Constant::String(b)) => *a == *b,
            _ => false,
        }
    }

    /// A copy of the constant.
    pub fn duplicate(&self) -> (r: Constant)
        ensures
            r@ == self@,
    {
        match self {
            Constant::Int(a) => Constant::Int(*a),
            Constant::String(a) => Constant::String(a.clone()),
        }
    }
}

#[derive(Debug, Clone, PartialEq)]
pub enum OpCode {
    // VM control and state
    LoadConst { const_idx: usize, dest_reg: u8 },
    LoadState { field_idx: usize, dest_reg: u8 },
    StoreState { src_reg: u8, field_idx: usize },
    // Arithmetic
    AddInt { r1: u8, r2: u8, dest: u8 },
    SubInt { r1: u8, r2: u8, dest: u8 },
    MulInt { r1: u8, r2: u8, dest: u8 },
    DivInt { r1: u8, r2: u8, dest: u8 },
    // Comparisons
    CmpEq { r1: u8, r2: u8, dest: u8 },
    CmpLt { r1: u8, r2: u8, dest: u8 },
    CmpGt { r1: u8, r2: u8, dest: u8 },
    CmpGte { r1: u8, r2: u8, dest: u8 },
    CmpLte { r1: u8, r2: u8, dest: u8 },
    // Logical
    AndBool { r1: u8, r2: u8, dest: u8 },
    OrBool { r1: u8, r2: u8, dest: u8 },
    NotBool { r1: u8, dest: u8 },
    // Control flow
    JumpIfFalse { test_reg: u8, target_offset: usize },
    Jump { target_offset: usize },
    // Lists
    ListLen { target_reg: u8, dest_reg: u8 },
    ListGet { target_reg: u8, idx_reg: u8, dest_reg: u8 },
    ListAppend { target_reg: u8, val_reg: u8 },
    // Messaging and effects
    SendMsg { target_const_idx: usize, msg_const_idx: usize },
    SendHighMsg { target_const_idx: usize, msg_const_idx: usize },
    EmitEffect { effect_idx: usize, arg_regs: Vec<u8> },
    CheckGoal { goal_idx: usize },
    HaltSlice,
}

#[derive(Debug, Clone)]
pub struct TransitionBytecode {
    pub name: String,
    pub scope: Option<String>,
    pub required_capabilities: Vec<String>,
    pub constants: Vec<Constant>,
    pub instructions: Vec<OpCode>,
}

#[derive(Debug, Clone)]
pub struct GoalBytecode {
    pub name: String,
    pub scope: Option<String>,
    pub required_capabilities: Vec<String>,
    pub priority: u8,
    pub recovery_transitions: Vec<String>,
    pub constants: Vec<Constant>,
    pub instructions: Vec<OpCode>,
}

#[derive(Debug, Clone)]
pub struct InvariantBytecode {
    pub name: String,
    pub constants: Vec<Constant>,
    pub instructions: Vec<OpCode>,
}

#[derive(Debug, Clone)]
pub struct DomainBytecode {
    pub name: String,
    pub scope: Option<String>,
    pub capability_manifest: Vec<String>,
    pub state_schema: Vec<String>,
    pub transitions: Vec<TransitionBytecode>,
    pub goals: Vec<GoalBytecode>,
    pub invariants: Vec<InvariantBytecode>,
}

#[derive(Debug, Clone)]
pub struct BytecodeProgram {
    pub domains: Vec<DomainBytecode>,
}

/// The `n` low bytes of `w`, least significant first.
pub open spec fn le_bytes(w: nat, n: nat) -> Seq<u8>
    decreases n,
{
    if n == 0 {
        Seq::empty()
    } else {
        seq![(w % 256) as u8] + le_bytes(w / 256, (n - 1) as nat)
    }
}

/// A length or index written as a little-endian `u16` (the value is
/// truncated to 16 bits).
pub open spec fn le16(v: nat) -> Seq<u8> {
    le_bytes(v % 0x1_0000, 2)
}

/// A length or index written as a little-endian `u32` (the value is
/// truncated to 32 bits).
pub open spec fn le32(v: nat) -> Seq<u8> {
    le_bytes(v % 0x1_0000_0000, 4)
}

/// An `i64` in two's complement, little-endian.
pub open spec fn le_i64(v: int) -> Seq<u8> {
    le_bytes((if v < 0 { v + 0x1_0000_0000_0000_0000 } else { v }) as nat, 8)
}

/// The opcode byte of an instruction.
pub open spec fn spec_opcode_tag(op: OpCode) -> u8 {
    match op {
        OpCode::LoadConst { .. } => 0x01,
        OpCode::LoadState { .. } => 0x02,
        OpCode::StoreState { .. } => 0x03,
        OpCode::AddInt { .. } => 0x0A,
        OpCode::SubInt { .. } => 0x0B,
        OpCode::MulInt { .. } => 0x0C,
        OpCode::DivInt { .. } => 0x0D,
        OpCode::CmpEq { .. } => 0x10,
        OpCode::CmpLt { .. } => 0x11,
        OpCode::CmpGt { .. } => 0x12,
        OpCode::CmpGte { .. } => 0x13,
        OpCode::CmpLte { .. } => 0x14,
        OpCode::AndBool { .. } => 0x1A,
        OpCode::OrBool { .. } => 0x1B,
        OpCode::NotBool { .. } => 0x1C,
        OpCode::JumpIfFalse { .. } => 0x20,
        OpCode::Jump { .. } => 0x21,
        OpCode::ListLen { .. } => 0x30,
        OpCode::ListGet { .. } => 0x31,
        OpCode::ListAppend { .. } => 0x32,
        OpCode::SendMsg { .. } => 0x40,
        OpCode::SendHighMsg { .. } => 0x41,
        OpCode::EmitEffect { .. } => 0x42,
        OpCode::CheckGoal { .. } => 0x43,
        OpCode::HaltSlice => 0xFF,
    }
}

/// The operand count and operand bytes of an instruction: registers take
/// one byte, indices and offsets four.
pub open spec fn operands(op: OpCode) -> (u8, Seq<u8>) {
    match op {
        OpCode::LoadConst { const_idx, dest_reg } => (2, le32(const_idx as nat) + seq![dest_reg]),
        OpCode::LoadState { field_idx, dest_reg } => (2, le32(field_idx as nat) + seq![dest_reg]),
        OpCode::StoreState { src_reg, field_idx } => (2, seq![src_reg] + le32(field_idx as nat)),
        OpCode::AddInt { r1, r2, dest } => (3, seq![r1, r2, dest]),
        OpCode::SubInt { r1, r2, dest } => (3, seq![r1, r2, dest]),
        OpCode::MulInt { r1, r2, dest } => (3, seq![r1, r2, dest]),
        OpCode::DivInt { r1, r2, dest } => (3, seq![r1, r2, dest]),
        OpCode::CmpEq { r1, r2, dest } => (3, seq![r1, r2, dest]),
        OpCode::CmpLt { r1, r2, dest } => (3, seq![r1, r2, dest]),
        OpCode::CmpGt { r1, r2, dest } => (3, seq![r1, r2, dest]),
        OpCode::CmpGte { r1, r2, dest } => (3, seq![r1, r2, dest]),
        OpCode::CmpLte { r1, r2, dest } => (3, seq![r1, r2, dest]),
        OpCode::AndBool { r1, r2, dest } => (3, seq![r1, r2, dest]),
        OpCode::OrBool { r1, r2, dest } => (3, seq![r1, r2, dest]),
        OpCode::ListGet { target_reg, idx_reg, dest_reg } => (3, seq![target_reg, idx_reg, dest_reg]),
        OpCode::NotBool { r1, dest } => (2, seq![r1, dest]),
        OpCode::ListLen { target_reg, dest_reg } => (2, seq![target_reg, dest_reg]),
        OpCode::ListAppend { target_reg, val_reg } => (2, seq![target_reg, val_reg]),
        OpCode::JumpIfFalse { test_reg, target_offset } => (2, seq![test_reg] + le32(target_offset as nat)),
        OpCode::Jump { target_offset } => (1, le32(target_offset as nat)),
        OpCode::SendMsg { target_const_idx, msg_const_idx } => (2, le32(target_const_idx as nat) + le32(msg_const_idx as nat)),
        OpCode::SendHighMsg { target_const_idx, msg_const_idx } => (2, le32(target_const_idx as nat) + le32(msg_const_idx as nat)),
        OpCode::EmitEffect { effect_idx, arg_regs } => (3, le32(effect_idx as nat) + seq![(arg_regs@.len() % 256) as u8] + arg_regs@),
        OpCode::CheckGoal { goal_idx } => (1, le32(goal_idx as nat)),
        OpCode::HaltSlice => (0, Seq::empty()),
    }
}

/// An instruction as `[opcode] [operand count] [operands...]`.
pub open spec fn packed(op: OpCode) -> Seq<u8> {
    seq![spec_opcode_tag(op), operands(op).0] + operands(op).1
}

/// The concatenation of `f` over the items of `s`.
pub open spec fn concat_map<T>(s: Seq<T>, f: spec_fn(T) -> Seq<u8>) -> Seq<u8>
    decreases s.len(),
{
    if s.len() == 0 {
        Seq::empty()
    } else {
        concat_map(s.drop_last(), f) + f(s.last())
    }
}

/// The packed form of a sequence of instructions.
pub open spec fn packed_code(code: Seq<OpCode>) -> Seq<u8> {
    concat_map(code, |op: OpCode| packed(op))
}

/// A string as its UTF-8 length (`u16`) and bytes.
pub open spec fn string_bytes(s: Seq<char>) -> Seq<u8> {
    le16(encode_utf8(s).len()) + encode_utf8(s)
}

/// One constant: tag 0 and the `i64`, or tag 1 and the string.
pub open spec fn constant_bytes(c: Constant) -> Seq<u8> {
    match c {
        Constant::Int(v) => seq![0u8] + le_i64(v as int),
        Constant::String(s) => seq![1u8] + string_bytes(s@),
    }
}

/// A constant pool: its size (`u16`) and its constants.
pub open spec fn constants_bytes(cs: Seq<Constant>) -> Seq<u8> {
    le16(cs.len()) + concat_map(cs, |c: Constant| constant_bytes(c))
}

/// A code block: its byte length (`u32`) and the packed instructions.
pub open spec fn code_bytes(code: Seq<OpCode>) -> Seq<u8> {
    le32(packed_code(code).len()) + packed_code(code)
}

/// A list of strings: its length (`u16`) and each string.
pub open spec fn strings_bytes(ss: Seq<String>) -> Seq<u8> {
    le16(ss.len()) + concat_map(ss, |s: String| string_bytes(s@))
}

pub open spec fn transition_bytes(t: TransitionBytecode) -> Seq<u8> {
    string_bytes(t.name@) + constants_bytes(t.constants@) + code_bytes(t.instructions@)
}

pub open spec fn goal_bytes(g: GoalBytecode) -> Seq<u8> {
    string_bytes(g.name@) + constants_bytes(g.constants@) + strings_bytes(g.recovery_transitions@) + code_bytes(g.instructions@)
}

pub open spec fn invariant_bytes(i: InvariantBytecode) -> Seq<u8> {
    string_bytes(i.name@) + constants_bytes(i.constants@) + code_bytes(i.instructions@)
}

/// A domain: name, state schema, transitions, goals and invariants.
pub open spec fn domain_bytes(d: DomainBytecode) -> Seq<u8> {
    string_bytes(d.name@) + strings_bytes(d.state_schema@) + transitions_bytes(d.transitions@)
        + goals_bytes(d.goals@) + invariants_bytes(d.invariants@)
}

/// The transitions section: their count, then each transition.
pub open spec fn transitions_bytes(ts: Seq<TransitionBytecode>) -> Seq<u8> {
    le16(ts.len()) + concat_map(ts, |t: TransitionBytecode| transition_bytes(t))
}

/// The goals section: their count, then each goal.
pub open spec fn goals_bytes(gs: Seq<GoalBytecode>) -> Seq<u8> {
    le16(gs.len()) + concat_map(gs, |g: GoalBytecode| goal_bytes(g))
}

/// The invariants section: their count, then each invariant.
pub open spec fn invariants_bytes(vs: Seq<InvariantBytecode>) -> Seq<u8> {
    le16(vs.len()) + concat_map(vs, |i: InvariantBytecode| invariant_bytes(i))
}

/// A whole program: the magic `VEDC`, version 1, the domain count and the
/// domains.
pub open spec fn program_bytes(p: BytecodeProgram) -> Seq<u8> {
    seq![0x56u8, 0x45u8, 0x44u8, 0x43u8, 1u8] + le16(p.domains@.len())
        + concat_map(p.domains@, |d: DomainBytecode| domain_bytes(d))
}

/// Appends the `n` low bytes of `w`, least significant first.
fn push_le(buf: &mut Vec<u8>, w: u64, n: usize)
    ensures
        final(buf)@ == old(buf)@ + le_bytes(w as nat, n as nat),
{
    let mut x = w;
    let mut k: usize = 0;
    while k < n
        invariant
            k <= n,
            old(buf)@ + le_bytes(w as nat, n as nat) == buf@ + le_bytes(x as nat, (n - k) as nat),
        decreases n - k,
    {
        let ghost before = buf@;
        buf.push((x % 256) as u8);
        assert(le_bytes(x as nat, (n - k) as nat) == seq![(x % 256) as u8] + le_bytes((x / 256) as nat, (n - k - 1) as nat));
        assert(buf@ + le_bytes((x / 256) as nat, (n - k - 1) as nat) =~= before + le_bytes(x as nat, (n - k) as nat));
        x = x / 256;
        k = k + 1;
    }
    assert(le_bytes(x as nat, 0) =~= Seq::<u8>::empty());
    assert(buf@ + Seq::<u8>::empty() =~= buf@);
}

fn push_u16(buf: &mut Vec<u8>, v: usize)
    ensures
        final(buf)@ == old(buf)@ + le16(v as nat),
{
    push_le(buf, (v as u64) % 0x1_0000, 2);
}

fn push_u32(buf: &mut Vec<u8>, v: usize)
    ensures
        final(buf)@ == old(buf)@ + le32(v as nat),
{
    push_le(buf, (v as u64) % 0x1_0000_0000, 4);
}

proof fn lemma_concat_map_push<T>(s: Seq<T>, x: T, f: spec_fn(T) -> Seq<u8>)
    ensures
        concat_map(s.push(x), f) == concat_map(s, f) + f(x),
{
    assert(s.push(x).drop_last() =~= s);
}

proof fn lemma_concat_map_append<T>(a: Seq<T>, b: Seq<T>, f: spec_fn(T) -> Seq<u8>)
    ensures
        concat_map(a + b, f) == concat_map(a, f) + concat_map(b, f),
    decreases b.len(),
{
    if b.len() == 0 {
        assert(a + b =~= a);
        assert(concat_map(a, f) + concat_map(b, f) =~= concat_map(a, f));
    } else {
        lemma_concat_map_append(a, b.drop_last(), f);
        assert((a + b).drop_last() =~= a + b.drop_last());
        assert((a + b).last() == b.last());
        assert(concat_map(a, f) + concat_map(b.drop_last(), f) + f(b.last())
            =~= concat_map(a, f) + (concat_map(b.drop_last(), f) + f(b.last())));
    }
}

/// Packing a sequence item by item: the bytes of the items before position
/// `k`, then those of item `k`, then those of the items after it.
pub proof fn lemma_concat_map_split<T>(ds: Seq<T>, k: int, f: spec_fn(T) -> Seq<u8>)
    requires
        0 <= k < ds.len(),
    ensures
        concat_map(ds, f) == concat_map(ds.subrange(0, k), f) + f(ds[k]) + concat_map(ds.subrange(k + 1, ds.len() as int), f),
{
    let pre = ds.subrange(0, k);
    let post = ds.subrange(k + 1, ds.len() as int);
    assert(ds =~= pre.push(ds[k]) + post);
    lemma_concat_map_append(pre.push(ds[k]), post, f);
    lemma_concat_map_push(pre, ds[k], f);
}

impl OpCode {
    fn opcode_tag(&self) -> (r: u8)
        ensures
            r == spec_opcode_tag(*self),
    {
        match self {
            OpCode::LoadConst { .. } => 0x01,
            OpCode::LoadState { .. } => 0x02,
            OpCode::StoreState { .. } => 0x03,
            OpCode::AddInt { .. } => 0x0A,
            OpCode::SubInt { .. } => 0x0B,
            OpCode::MulInt { .. } => 0x0C,
            OpCode::DivInt { .. } => 0x0D,
            OpCode::CmpEq { .. } => 0x10,
            OpCode::CmpLt { .. } => 0x11,
            OpCode::CmpGt { .. } => 0x12,
            OpCode::CmpGte { .. } => 0x13,
            OpCode::CmpLte { .. } => 0x14,
            OpCode::AndBool { .. } => 0x1A,
            OpCode::OrBool { .. } => 0x1B,
            OpCode::NotBool { .. } => 0x1C,
            OpCode::JumpIfFalse { .. } => 0x20,
            OpCode::Jump { .. } => 0x21,
            OpCode::ListLen { .. } => 0x30,
            OpCode::ListGet { .. } => 0x31,
            OpCode::ListAppend { .. } => 0x32,
            OpCode::SendMsg { .. } => 0x40,
            OpCode::SendHighMsg { .. } => 0x41,
            OpCode::EmitEffect { .. } => 0x42,
            OpCode::CheckGoal { .. } => 0x43,
            OpCode::HaltSlice => 0xFF,
        }
    }

    /// Appends the instruction as `[opcode] [operand count] [operands]`.
    pub fn pack(&self, buf: &mut Vec<u8>)
        ensures
            final(buf)@ == old(buf)@ + packed(*self),
    {
        buf.push(self.opcode_tag());
        let mut ops: Vec<u8> = Vec::new();
        let op_count: u8;
        match self {
            OpCode::LoadConst { const_idx, dest_reg } => {
                push_u32(&mut ops, *const_idx);
                ops.push(*dest_reg);
                op_count = 2;
            },
            OpCode::LoadState { field_idx, dest_reg } => {
                push_u32(&mut ops, *field_idx);
                ops.push(*dest_reg);
                op_count = 2;
            },
            OpCode::StoreState { src_reg, field_idx } => {
                ops.push(*src_reg);
                push_u32(&mut ops, *field_idx);
                op_count = 2;
            },
            OpCode::AddInt { r1, r2, dest } | OpCode::SubInt { r1, r2, dest } | OpCode::MulInt { r1, r2, dest }
            | OpCode::DivInt { r1, r2, dest } | OpCode::CmpEq { r1, r2, dest } | OpCode::CmpLt { r1, r2, dest }
            | OpCode::CmpGt { r1, r2, dest } | OpCode::CmpGte { r1, r2, dest } | OpCode::CmpLte { r1, r2, dest }
            | OpCode::AndBool { r1, r2, dest } | OpCode::OrBool { r1, r2, dest }
            | OpCode::ListGet { target_reg: r1, idx_reg: r2, dest_reg: dest } => {
                ops.push(*r1);
                ops.push(*r2);
                ops.push(*dest);
                op_count = 3;
            },
            OpCode::NotBool { r1, dest } | OpCode::ListLen { target_reg: r1, dest_reg: dest }
            | OpCode::ListAppend { target_reg: r1, val_reg: dest } => {
                ops.push(*r1);
                ops.push(*dest);
                op_count = 2;
            },
            OpCode::JumpIfFalse { test_reg, target_offset } => {
                ops.push(*test_reg);
                push_u32(&mut ops, *target_offset);
                op_count = 2;
            },
            OpCode::Jump { target_offset } => {
                push_u32(&mut ops, *target_offset);
                op_count = 1;
            },
            OpCode::SendMsg { target_const_idx, msg_const_idx } | OpCode::SendHighMsg { target_const_idx, msg_const_idx } => {
                push_u32(&mut ops, *target_const_idx);
                push_u32(&mut ops, *msg_const_idx);
                op_count = 2;
            },
            OpCode::EmitEffect { effect_idx, arg_regs } => {
                push_u32(&mut ops, *effect_idx);
                ops.push((arg_regs.len() % 256) as u8);
                let mut i: usize = 0;
                let ghost start = ops@;
                while i < arg_regs.len()
                    invariant
                        i <= arg_regs.len(),
                        ops@ == start + arg_regs@.subrange(0, i as int),
                    decreases arg_regs.len() - i,
                {
                    ops.push(arg_regs[i]);
                    i = i + 1;
                    assert(ops@ =~= start + arg_regs@.subrange(0, i as int));
                }
                assert(arg_regs@.subrange(0, i as int) =~= arg_regs@);
                op_count = 3;
            },
            OpCode::CheckGoal { goal_idx } => {
                push_u32(&mut ops, *goal_idx);
                op_count = 1;
            },
            OpCode::HaltSlice => {
                op_count = 0;
            },
        }
        buf.push(op_count);
        let ghost before = buf@;
        let mut i: usize = 0;
        while i < ops.len()
            invariant
                i <= ops.len(),
                buf@ == before + ops@.subrange(0, i as int),
            decreases ops.len() - i,
        {
            buf.push(ops[i]);
            i = i + 1;
            assert(buf@ =~= before + ops@.subrange(0, i as int));
        }
        assert(ops@.subrange(0, i as int) =~= ops@);
        assert(ops@ =~= operands(*self).1);
        assert(buf@ =~= old(buf)@ + packed(*self));
    }
}

pub struct BinaryPacker;

/// Appends `src` to `buf`.
fn append_bytes(buf: &mut Vec<u8>, src: &[u8])
    ensures
        final(buf)@ == old(buf)@ + src@,
{
    let mut i: usize = 0;
    while i < src.len()
        invariant
            i <= src.len(),
            buf@ == old(buf)@ + src@.subrange(0, i as int),
        decreases src.len() - i,
    {
        buf.push(src[i]);
        i = i + 1;
        assert(buf@ =~= old(buf)@ + src@.subrange(0, i as int));
    }
    assert(src@.subrange(0, i as int) =~= src@);
}

impl BinaryPacker {
    fn write_string(s: &str, buf: &mut Vec<u8>)
        ensures
            final(buf)@ == old(buf)@ + string_bytes(s@),
    {
        let bytes = s.as_bytes();
        push_u16(buf, bytes.len());
        append_bytes(buf, bytes);
        assert(final(buf)@ =~= old(buf)@ + string_bytes(s@));
    }

    fn write_constants(consts: &[Constant], buf: &mut Vec<u8>)
        ensures
            final(buf)@ == old(buf)@ + constants_bytes(consts@),
    {
        push_u16(buf, consts.len());
        let ghost start = buf@;
        let mut i: usize = 0;
        while i < consts.len()
            invariant
                i <= consts.len(),
                start == old(buf)@ + le16(consts@.len()),
                buf@ == start + concat_map(consts@.subrange(0, i as int), |c: Constant| constant_bytes(c)),
            decreases consts.len() - i,
        {
            proof {
                assert(consts@.subrange(0, i + 1) =~= consts@.subrange(0, i as int).push(consts@[i as int]));
                lemma_concat_map_push(consts@.subrange(0, i as int), consts@[i as int], |c: Constant| constant_bytes(c));
            }
            let ghost before = buf@;
            match &consts[i] {
                Constant::Int(v) => {
                    buf.push(0);
                    let w: u64 = if *v < 0 { (*v as i128 + 0x1_0000_0000_0000_0000i128) as u64 } else { *v as u64 };
                    push_le(buf, w, 8);
                },
                Constant::String(st) => {
                    buf.push(1);
                    Self::write_string(st.as_str(), buf);
                },
            }
            assert(buf@ =~= before + constant_bytes(consts@[i as int]));
            i = i + 1;
        }
        assert(consts@.subrange(0, i as int) =~= consts@);
        assert(buf@ =~= old(buf)@ + constants_bytes(consts@));
    }

    fn write_strings(ss: &Vec<String>, buf: &mut Vec<u8>)
        ensures
            final(buf)@ == old(buf)@ + strings_bytes(ss@),
    {
        push_u16(buf, ss.len());
        let ghost start = buf@;
        let mut i: usize = 0;
        while i < ss.len()
            invariant
                i <= ss.len(),
                start == old(buf)@ + le16(ss@.len()),
                buf@ == start + concat_map(ss@.subrange(0, i as int), |s: String| string_bytes(s@)),
            decreases ss.len() - i,
        {
            proof {
                assert(ss@.subrange(0, i + 1) =~= ss@.subrange(0, i as int).push(ss@[i as int]));
                lemma_concat_map_push(ss@.subrange(0, i as int), ss@[i as int], |s: String| string_bytes(s@));
            }
            Self::write_string(ss[i].as_str(), buf);
            i = i + 1;
        }
        assert(ss@.subrange(0, i as int) =~= ss@);
        assert(buf@ =~= old(buf)@ + strings_bytes(ss@));
    }

    fn write_code(code: &Vec<OpCode>, buf: &mut Vec<u8>)
        ensures
            final(buf)@ == old(buf)@ + code_bytes(code@),
    {
        let mut instr_buf: Vec<u8> = Vec::new();
        let mut i: usize = 0;
        while i < code.len()
            invariant
                i <= code.len(),
                instr_buf@ == packed_code(code@.subrange(0, i as int)),
            decreases code.len() - i,
        {
            proof {
                assert(code@.subrange(0, i + 1) =~= code@.subrange(0, i as int).push(code@[i as int]));
                lemma_concat_map_push(code@.subrange(0, i as int), code@[i as int], |op: OpCode| packed(op));
            }
            code[i].pack(&mut instr_buf);
            i = i + 1;
        }
        assert(code@.subrange(0, i as int) =~= code@);
        push_u32(buf, instr_buf.len());
        append_bytes(buf, instr_buf.as_slice());
        assert(buf@ =~= old(buf)@ + code_bytes(code@));
    }

    fn write_transitions(ts: &Vec<TransitionBytecode>, buf: &mut Vec<u8>)
        ensures
            final(buf)@ == old(buf)@ + transitions_bytes(ts@),
    {
        push_u16(buf, ts.len());
        let ghost start = buf@;
        let mut i: usize = 0;
        while i < ts.len()
            invariant
                i <= ts.len(),
                start == old(buf)@ + le16(ts@.len()),
                buf@ == start + concat_map(ts@.subrange(0, i as int), |t: TransitionBytecode| transition_bytes(t)),
            decreases ts.len() - i,
        {
            proof {
                assert(ts@.subrange(0, i + 1) =~= ts@.subrange(0, i as int).push(ts@[i as int]));
                lemma_concat_map_push(ts@.subrange(0, i as int), ts@[i as int], |t: TransitionBytecode| transition_bytes(t));
            }
            let ghost before = buf@;
            let tr = &ts[i];
            Self::write_string(tr.name.as_str(), buf);
            Self::write_constants(tr.constants.as_slice(), buf);
            Self::write_code(&tr.instructions, buf);
            assert(buf@ =~= before + transition_bytes(*tr));
            i = i + 1;
        }
        assert(ts@.subrange(0, i as int) =~= ts@);
        assert(buf@ =~= old(buf)@ + transitions_bytes(ts@));
    }

    fn write_goals(gs: &Vec<GoalBytecode>, buf: &mut Vec<u8>)
        ensures
            final(buf)@ == old(buf)@ + goals_bytes(gs@),
    {
        push_u16(buf, gs.len());
        let ghost start = buf@;
        let mut i: usize = 0;
        while i < gs.len()
            invariant
                i <= gs.len(),
                start == old(buf)@ + le16(gs@.len()),
                buf@ == start + concat_map(gs@.subrange(0, i as int), |g: GoalBytecode| goal_bytes(g)),
            decreases gs.len() - i,
        {
            proof {
                assert(gs@.subrange(0, i + 1) =~= gs@.subrange(0, i as int).push(gs@[i as int]));
                lemma_concat_map_push(gs@.subrange(0, i as int), gs@[i as int], |g: GoalBytecode| goal_bytes(g));
            }
            let ghost before = buf@;
            let g = &gs[i];
            Self::write_string(g.name.as_str(), buf);
            Self::write_constants(g.constants.as_slice(), buf);
            Self::write_strings(&g.recovery_transitions, buf);
            Self::write_code(&g.instructions, buf);
            assert(buf@ =~= before + goal_bytes(*g));
            i = i + 1;
        }
        assert(gs@.subrange(0, i as int) =~= gs@);
        assert(buf@ =~= old(buf)@ + goals_bytes(gs@));
    }

    fn write_invariants(vs: &Vec<InvariantBytecode>, buf: &mut Vec<u8>)
        ensures
            final(buf)@ == old(buf)@ + invariants_bytes(vs@),
    {
        push_u16(buf, vs.len());
        let ghost start = buf@;
        let mut i: usize = 0;
        while i < vs.len()
            invariant
                i <= vs.len(),
                start == old(buf)@ + le16(vs@.len()),
                buf@ == start + concat_map(vs@.subrange(0, i as int), |i: InvariantBytecode| invariant_bytes(i)),
            decreases vs.len() - i,
        {
            proof {
                assert(vs@.subrange(0, i + 1) =~= vs@.subrange(0, i as int).push(vs@[i as int]));
                lemma_concat_map_push(vs@.subrange(0, i as int), vs@[i as int], |i: InvariantBytecode| invariant_bytes(i));
            }
            let ghost before = buf@;
            let inv = &vs[i];
            Self::write_string(inv.name.as_str(), buf);
            Self::write_constants(inv.constants.as_slice(), buf);
            Self::write_code(&inv.instructions, buf);
            assert(buf@ =~= before + invariant_bytes(*inv));
            i = i + 1;
        }
        assert(vs@.subrange(0, i as int) =~= vs@);
        assert(buf@ =~= old(buf)@ + invariants_bytes(vs@));
    }

    fn write_domain(dom: &DomainBytecode, buf: &mut Vec<u8>)
        ensures
            final(buf)@ == old(buf)@ + domain_bytes(*dom),
    {
        Self::write_string(dom.name.as_str(), buf);
        Self::write_strings(&dom.state_schema, buf);
        Self::write_transitions(&dom.transitions, buf);
        Self::write_goals(&dom.goals, buf);
        Self::write_invariants(&dom.invariants, buf);
        assert(buf@ =~= old(buf)@ + domain_bytes(*dom));
    }

    /// The binary form of a program, as `program_bytes` describes.
    pub fn serialize(prog: &BytecodeProgram) -> (r: Vec<u8>)
        ensures
            r@ == program_bytes(*prog),
    {
        let mut buf: Vec<u8> = Vec::new();
        buf.push(0x56);
        buf.push(0x45);
        buf.push(0x44);
        buf.push(0x43);
        buf.push(1);
        push_u16(&mut buf, prog.domains.len());
        let ghost start = buf@;
        let mut i: usize = 0;
        while i < prog.domains.len()
            invariant
                i <= prog.domains.len(),
                buf@ == start + concat_map(prog.domains@.subrange(0, i as int), |d: DomainBytecode| domain_bytes(d)),
            decreases prog.domains.len() - i,
        {
            proof {
                assert(prog.domains@.subrange(0, i + 1) =~= prog.domains@.subrange(0, i as int).push(prog.domains@[i as int]));
                lemma_concat_map_push(prog.domains@.subrange(0, i as int), prog.domains@[i as int], |d: DomainBytecode| domain_bytes(d));
            }
            Self::write_domain(&prog.domains[i], &mut buf);
            i = i + 1;
        }
        assert(prog.domains@.subrange(0, i as int) =~= prog.domains@);
        assert(buf@ =~= program_bytes(*prog));
        buf
    }
}

} // verus!
