//! The name-based instruction set and the bundle of transitions that carries
//! it, an older, symbolic form of compiled Ved code.

use vstd::prelude::*;

verus! {

/// One symbolic instruction: state fields and message targets are named,
/// jumps give absolute positions.
#[derive(Debug, Clone)]
pub enum Instruction {
    LoadConst(i64),
    LoadState(String),
    StoreState(String),
    Add,
    Sub,
    CmpEq,
    JumpIf(usize),
    Jump(usize),
    SendMsg(String),
    HaltSlice,
}

/// A named transition and its code.
#[derive(Debug, Clone)]
pub struct Transition {
    pub name: String,
    pub code: Vec<Instruction>,
}

/// A set of transitions shipped together.
#[derive(Debug, Clone)]
pub struct VedBundle {
    pub transitions: Vec<Transition>,
}

} // verus!
