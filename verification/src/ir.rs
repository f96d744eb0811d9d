//! The linear intermediate representation and the lowering pass that builds
//! it from a syntax tree.
//!
//! Lowering walks the tree once, depth first and left to right. It allocates
//! variable slots per function scope, interns string literals globally,
//! assigns buffer ids, and resolves forward jumps with a backpatch stack.
//! The whole pass is specified by the spec function [`lower_node`]: the
//! executable builder is proved to return exactly what the spec says, state
//! and all.

use vstd::pervasive::VecAdditionalExecFns;
use vstd::prelude::*;

use crate::loc::Loc;
use crate::parser::{BinOp, CmpOp, Node};

verus! {

broadcast use vstd::std_specs::vec::group_vec_axioms;

/// An operand of the intermediate representation.
#[derive(Debug)]
pub enum Value {
    Void,
    IntConst(usize),
    StringRef(usize),
    VarRef(usize),
    VarAddress(usize),
    BufferRef(usize),
    BinaryOp(BinOp, Box<Value>, Box<Value>),
    CompareOp(CmpOp, Box<Value>, Box<Value>),
    PointerLoad(Box<Value>),
    Call(String, Vec<Value>),
}

/// One instruction of a lowered function body.
#[derive(Debug)]
pub enum Instruction {
    AssignVar(usize, Value),
    Label(usize),
    JumpIfZero(Value, usize),
    Jump(usize),
    Prologue(usize),
    Return(Value),
    Exit(u8),
    StoreThroughPointer(Value, Value),
    EvaluateForEffect(Value),
}

/// Which rule of the language a semantic error breaks.
#[derive(Clone, Copy, Debug, PartialEq, Eq, Structural)]
pub enum IRErrorKind {
    DuplicateDeclaration,
    UndeclaredVariable,
}

/// A semantic error found during lowering: the offending name and where it
/// stands in the source. Lowering halts at the first one.
#[derive(Debug)]
pub struct IRError {
    pub loc: Loc,
    pub kind: IRErrorKind,
    pub name: String,
}

/// A lowered function: its name, its variable scope (index = slot number)
/// and its instruction list.
#[derive(Debug)]
pub struct FnDef {
    pub name: String,
    pub scope: Vec<String>,
    pub body: Vec<Instruction>,
}

/// A whole lowered program: the interned string table, the buffer-size
/// table, the label counter, and one entry per function, in first-definition
/// order. The backpatch stack holds indices of jump instructions whose
/// target label is not yet known; it is empty between lowering calls.
#[derive(Debug)]
pub struct Program {
    pub strings: Vec<String>,
    pub bufs: Vec<usize>,
    pub label_count: usize,
    pub fns: Vec<FnDef>,
    pub backpatch_stack: Vec<usize>,
}

// ---------------------------------------------------------------------------
// Mathematical views
// ---------------------------------------------------------------------------

/// The mathematical model of a [`Value`].
pub enum ValueV {
    Void,
    IntConst(nat),
    StringRef(nat),
    VarRef(nat),
    VarAddress(nat),
    BufferRef(nat),
    BinaryOp(BinOp, Box<ValueV>, Box<ValueV>),
    CompareOp(CmpOp, Box<ValueV>, Box<ValueV>),
    PointerLoad(Box<ValueV>),
    Call(Seq<char>, Seq<ValueV>),
}

/// The mathematical model of an [`Instruction`].
pub enum InstrV {
    AssignVar(nat, ValueV),
    Label(nat),
    JumpIfZero(ValueV, nat),
    Jump(nat),
    Prologue(nat),
    Return(ValueV),
    Exit(u8),
    StoreThroughPointer(ValueV, ValueV),
    EvaluateForEffect(ValueV),
}

/// The mathematical model of an [`IRError`].
pub struct IRErrorV {
    pub loc: Loc,
    pub kind: IRErrorKind,
    pub name: Seq<char>,
}

/// The mathematical model of a [`FnDef`].
#[verifier::ext_equal]
pub struct FnDefV {
    pub name: Seq<char>,
    pub scope: Seq<Seq<char>>,
    pub body: Seq<InstrV>,
}

/// The mathematical model of a [`Program`].
#[verifier::ext_equal]
pub struct ProgramV {
    pub strings: Seq<Seq<char>>,
    pub bufs: Seq<nat>,
    pub label_count: nat,
    pub fns: Seq<FnDefV>,
    pub stack: Seq<nat>,
}

/// The full state threaded through lowering: the program tables plus the
/// scope and instruction list of the function being lowered.
#[verifier::ext_equal]
pub struct LSt {
    pub prog: ProgramV,
    pub scope: Seq<Seq<char>>,
    pub code: Seq<InstrV>,
}

/// The mathematical model of a [`Value`].
pub open spec fn value_view(v: Value) -> ValueV
    decreases v,
    via value_view_decreases
{
    match v {
        Value::Void => ValueV::Void,
        Value::IntConst(n) => ValueV::IntConst(n as nat),
        Value::StringRef(id) => ValueV::StringRef(id as nat),
        Value::VarRef(slot) => ValueV::VarRef(slot as nat),
        Value::VarAddress(slot) => ValueV::VarAddress(slot as nat),
        Value::BufferRef(id) => ValueV::BufferRef(id as nat),
        Value::BinaryOp(op, a, b) => ValueV::BinaryOp(
            op,
            Box::new(value_view(*a)),
            Box::new(value_view(*b)),
        ),
        Value::CompareOp(op, a, b) => ValueV::CompareOp(
            op,
            Box::new(value_view(*a)),
            Box::new(value_view(*b)),
        ),
        Value::PointerLoad(p) => ValueV::PointerLoad(Box::new(value_view(*p))),
        Value::Call(name, args) => ValueV::Call(name.view(), values_view(args.view())),
    }
}

#[via_fn]
proof fn value_view_decreases(v: Value) {
    broadcast use vstd::std_specs::vec::group_vec_axioms;
    match v {
        Value::Call(name, args) => {
            assert(decreases_to!(v => args));
            assert(decreases_to!(args => args.view()));
        },
        _ => {},
    }
}

/// The mathematical models of a sequence of [`Value`]s.
pub open spec fn values_view(vs: Seq<Value>) -> Seq<ValueV>
    decreases vs,
{
    if vs.len() == 0 {
        Seq::empty()
    } else {
        values_view(vs.drop_last()).push(value_view(vs.last()))
    }
}

impl View for Value {
    type V = ValueV;

    open spec fn view(&self) -> ValueV {
        value_view(*self)
    }
}

impl DeepView for Value {
    type V = ValueV;

    open spec fn deep_view(&self) -> ValueV {
        value_view(*self)
    }
}

/// What [`values_view`] holds, element by element.
pub proof fn lemma_values_view(vs: Seq<Value>)
    ensures
        values_view(vs).len() == vs.len(),
        forall|i: int| 0 <= i < vs.len() ==> values_view(vs)[i] == value_view(#[trigger] vs[i]),
    decreases vs,
{
    if vs.len() > 0 {
        lemma_values_view(vs.drop_last());
        assert forall|i: int| 0 <= i < vs.len() implies values_view(vs)[i] == value_view(
            #[trigger] vs[i],
        ) by {
            if i < vs.len() - 1 {
                assert(vs.drop_last()[i] == vs[i]);
            }
        }
    }
}

/// The mathematical model of an [`Instruction`].
pub open spec fn instr_view(i: Instruction) -> InstrV {
    match i {
        Instruction::AssignVar(slot, v) => InstrV::AssignVar(slot as nat, value_view(v)),
        Instruction::Label(id) => InstrV::Label(id as nat),
        Instruction::JumpIfZero(v, l) => InstrV::JumpIfZero(value_view(v), l as nat),
        Instruction::Jump(l) => InstrV::Jump(l as nat),
        Instruction::Prologue(n) => InstrV::Prologue(n as nat),
        Instruction::Return(v) => InstrV::Return(value_view(v)),
        Instruction::Exit(c) => InstrV::Exit(c),
        Instruction::StoreThroughPointer(p, v) => InstrV::StoreThroughPointer(
            value_view(p),
            value_view(v),
        ),
        Instruction::EvaluateForEffect(v) => InstrV::EvaluateForEffect(value_view(v)),
    }
}

impl View for Instruction {
    type V = InstrV;

    open spec fn view(&self) -> InstrV {
        instr_view(*self)
    }
}

impl DeepView for Instruction {
    type V = InstrV;

    open spec fn deep_view(&self) -> InstrV {
        instr_view(*self)
    }
}

impl View for IRError {
    type V = IRErrorV;

    open spec fn view(&self) -> IRErrorV {
        IRErrorV { loc: self.loc, kind: self.kind, name: self.name.view() }
    }
}

impl View for FnDef {
    type V = FnDefV;

    open spec fn view(&self) -> FnDefV {
        FnDefV {
            name: self.name.view(),
            scope: self.scope.deep_view(),
            body: self.body.deep_view(),
        }
    }
}

impl DeepView for FnDef {
    type V = FnDefV;

    open spec fn deep_view(&self) -> FnDefV {
        self.view()
    }
}

impl View for Program {
    type V = ProgramV;

    open spec fn view(&self) -> ProgramV {
        ProgramV {
            strings: self.strings.deep_view(),
            bufs: nats_of(self.bufs.view()),
            label_count: self.label_count as nat,
            fns: self.fns.deep_view(),
            stack: nats_of(self.backpatch_stack.view()),
        }
    }
}

/// A sequence of machine integers, as mathematical naturals.
pub open spec fn nats_of(v: Seq<usize>) -> Seq<nat> {
    v.map_values(|b: usize| b as nat)
}

/// The lowering state that a call to `visit` sees: the program tables plus
/// the current scope and instruction list.
pub open spec fn st_of(p: &Program, scope: &Vec<String>, code: &Vec<Instruction>) -> LSt {
    LSt { prog: p.view(), scope: scope.deep_view(), code: code.deep_view() }
}

// ---------------------------------------------------------------------------
// Sizes, used to bound how many labels lowering can create
// ---------------------------------------------------------------------------

/// The number of syntax-tree nodes under (and including) `node`.
pub open spec fn node_size(node: Node) -> nat
    decreases node,
{
    match node {
        Node::FuncCall(_, _, args) => 1 + nodes_size(args.view()),
        Node::StrLit(_, _) => 1,
        Node::Block(_, nodes) => 1 + nodes_size(nodes.view()),
        Node::VarDecl(_, _, init) => 1 + node_size(*init),
        Node::VarAccess(_, _) => 1,
        Node::VarAssign(_, _, v) => 1 + node_size(*v),
        Node::Int(_, _) => 1,
        Node::BinOp(_, _, a, b) => 1 + node_size(*a) + node_size(*b),
        Node::CmpOp(_, _, a, b) => 1 + node_size(*a) + node_size(*b),
        Node::If { loc: _, cond, then_branch, else_branch } => {
            1 + node_size(*cond) + node_size(*then_branch) + (match else_branch {
                Some(e) => node_size(*e),
                None => 0,
            })
        },
        Node::Nop(_) => 1,
        Node::While { loc: _, cond, body } => 1 + node_size(*cond) + node_size(*body),
        Node::FuncDef { loc: _, name: _, args: _, body } => 1 + node_size(*body),
        Node::Buf(_, _) => 1,
        Node::Return(_, v) => 1 + node_size(*v),
        Node::PtrAccess(_, p) => 1 + node_size(*p),
        Node::PtrAssign(_, p, v) => 1 + node_size(*p) + node_size(*v),
        Node::VarAddr(_, _) => 1,
    }
}

/// The total size of a sequence of syntax-tree nodes.
pub open spec fn nodes_size(nodes: Seq<Node>) -> nat
    decreases nodes,
{
    if nodes.len() == 0 {
        0
    } else {
        node_size(nodes[0]) + nodes_size(nodes.drop_first())
    }
}

// ---------------------------------------------------------------------------
// Small spec helpers: table lookup, interning, function registration
// ---------------------------------------------------------------------------

/// The first index at which `s` occurs in `tbl`, if any.
pub open spec fn find_str(tbl: Seq<Seq<char>>, s: Seq<char>) -> Option<nat>
    decreases tbl,
{
    if tbl.len() == 0 {
        None
    } else if tbl[0] == s {
        Some(0)
    } else {
        match find_str(tbl.drop_first(), s) {
            None => None,
            Some(i) => Some((i + 1) as nat),
        }
    }
}

/// Intern `s` in `tbl`: reuse the id of an exact match, else append.
pub open spec fn intern_spec(tbl: Seq<Seq<char>>, s: Seq<char>) -> (Seq<Seq<char>>, nat) {
    match find_str(tbl, s) {
        Some(i) => (tbl, i),
        None => (tbl.push(s), tbl.len()),
    }
}

/// The index of the function named `name`, if any.
pub open spec fn find_fn(fns: Seq<FnDefV>, name: Seq<char>) -> Option<nat>
    decreases fns,
{
    if fns.len() == 0 {
        None
    } else if fns[0].name == name {
        Some(0)
    } else {
        match find_fn(fns.drop_first(), name) {
            None => None,
            Some(i) => Some((i + 1) as nat),
        }
    }
}

/// Register a lowered function: a redefinition overwrites the old entry in
/// place, anything else is appended.
pub open spec fn fns_upsert(fns: Seq<FnDefV>, f: FnDefV) -> Seq<FnDefV> {
    match find_fn(fns, f.name) {
        Some(i) => fns.update(i as int, f),
        None => fns.push(f),
    }
}

/// Replace the target of a jump instruction; anything else is unchanged
/// (lowering only ever patches jumps).
pub open spec fn patch_target(i: InstrV, label: nat) -> InstrV {
    match i {
        InstrV::JumpIfZero(v, _) => InstrV::JumpIfZero(v, label),
        InstrV::Jump(_) => InstrV::Jump(label),
        _ => i,
    }
}

/// Materialize a new label: emit `Label` and advance the label counter.
pub open spec fn add_label_spec(st: LSt) -> (LSt, nat) {
    (
        LSt {
            prog: ProgramV { label_count: st.prog.label_count + 1, ..st.prog },
            code: st.code.push(InstrV::Label(st.prog.label_count)),
            ..st
        },
        st.prog.label_count,
    )
}

/// Pop the most recent backpatch entry, materialize a label, and patch the
/// recorded jump to it.
pub open spec fn backpatch_spec(st: LSt) -> LSt {
    let i = st.prog.stack.last();
    let st1 = LSt {
        prog: ProgramV { stack: st.prog.stack.drop_last(), ..st.prog },
        ..st
    };
    let (st2, label) = add_label_spec(st1);
    LSt { code: st2.code.update(i as int, patch_target(st2.code[i as int], label)), ..st2 }
}

// ---------------------------------------------------------------------------
// The lowering specification
// ---------------------------------------------------------------------------

/// What lowering one node does to the state, and the operand it produces;
/// or the semantic error that aborts it.
pub open spec fn lower_node(st: LSt, node: Node) -> Result<(LSt, ValueV), IRErrorV>
    decreases node,
{
    match node {
        Node::FuncCall(_, name, args) => {
            match lower_args(st, args.view()) {
                Err(e) => Err(e),
                Ok((st1, vs)) => Ok((st1, ValueV::Call(name.view(), vs))),
            }
        },
        Node::StrLit(_, s) => {
            let (tbl, id) = intern_spec(st.prog.strings, s.view());
            Ok((LSt { prog: ProgramV { strings: tbl, ..st.prog }, ..st }, ValueV::StringRef(id)))
        },
        Node::Block(_, nodes) => {
            match lower_stmts(st, nodes.view()) {
                Err(e) => Err(e),
                Ok(st1) => Ok((st1, ValueV::Void)),
            }
        },
        Node::VarDecl(loc, name, init) => {
            if find_str(st.scope, name.view()) is Some {
                Err(IRErrorV { loc, kind: IRErrorKind::DuplicateDeclaration, name: name.view() })
            } else {
                match lower_node(st, *init) {
                    Err(e) => Err(e),
                    Ok((st1, v)) => Ok((
                        LSt {
                            scope: st1.scope.push(name.view()),
                            code: st1.code.push(InstrV::AssignVar(st1.scope.len(), v)),
                            ..st1
                        },
                        ValueV::Void,
                    )),
                }
            }
        },
        Node::VarAccess(loc, name) => {
            match find_str(st.scope, name.view()) {
                Some(slot) => Ok((st, ValueV::VarRef(slot))),
                None => Err(IRErrorV {
                    loc,
                    kind: IRErrorKind::UndeclaredVariable,
                    name: name.view(),
                }),
            }
        },
        Node::VarAssign(loc, name, value) => {
            match find_str(st.scope, name.view()) {
                Some(slot) => {
                    match lower_node(st, *value) {
                        Err(e) => Err(e),
                        Ok((st1, v)) => Ok((
                            LSt { code: st1.code.push(InstrV::AssignVar(slot, v)), ..st1 },
                            ValueV::Void,
                        )),
                    }
                },
                None => Err(IRErrorV {
                    loc,
                    kind: IRErrorKind::UndeclaredVariable,
                    name: name.view(),
                }),
            }
        },
        Node::Int(_, n) => Ok((st, ValueV::IntConst(n as nat))),
        Node::BinOp(_, op, a, b) => {
            match lower_node(st, *a) {
                Err(e) => Err(e),
                Ok((st1, va)) => match lower_node(st1, *b) {
                    Err(e) => Err(e),
                    Ok((st2, vb)) => Ok((
                        st2,
                        ValueV::BinaryOp(op, Box::new(va), Box::new(vb)),
                    )),
                },
            }
        },
        Node::CmpOp(_, op, a, b) => {
            match lower_node(st, *a) {
                Err(e) => Err(e),
                Ok((st1, va)) => match lower_node(st1, *b) {
                    Err(e) => Err(e),
                    Ok((st2, vb)) => Ok((
                        st2,
                        ValueV::CompareOp(op, Box::new(va), Box::new(vb)),
                    )),
                },
            }
        },
        Node::If { loc: _, cond, then_branch, else_branch } => {
            match lower_node(st, *cond) {
                Err(e) => Err(e),
                Ok((st1, vc)) => {
                    let st2 = LSt {
                        prog: ProgramV {
                            stack: st1.prog.stack.push(st1.code.len()),
                            ..st1.prog
                        },
                        code: st1.code.push(InstrV::JumpIfZero(vc, 0)),
                        ..st1
                    };
                    match lower_node(st2, *then_branch) {
                        Err(e) => Err(e),
                        Ok((st3, _)) => {
                            let i = st3.prog.stack.last();
                            let st4 = LSt {
                                prog: ProgramV { stack: st3.prog.stack.drop_last(), ..st3.prog },
                                ..st3
                            };
                            let st5 = if else_branch is Some {
                                LSt {
                                    prog: ProgramV {
                                        stack: st4.prog.stack.push(st4.code.len()),
                                        ..st4.prog
                                    },
                                    code: st4.code.push(InstrV::Jump(0)),
                                    ..st4
                                }
                            } else {
                                st4
                            };
                            let (st6, label) = add_label_spec(st5);
                            let st7 = LSt {
                                code: st6.code.update(
                                    i as int,
                                    patch_target(st6.code[i as int], label),
                                ),
                                ..st6
                            };
                            match else_branch {
                                None => Ok((st7, ValueV::Void)),
                                Some(els) => {
                                    match lower_node(st7, *els) {
                                        Err(e) => Err(e),
                                        Ok((st8, _)) => Ok((backpatch_spec(st8), ValueV::Void)),
                                    }
                                },
                            }
                        },
                    }
                },
            }
        },
        Node::Nop(_) => Ok((st, ValueV::Void)),
        Node::While { loc: _, cond, body } => {
            let (st1, start_label) = add_label_spec(st);
            match lower_node(st1, *cond) {
                Err(e) => Err(e),
                Ok((st2, vc)) => {
                    let st3 = LSt {
                        prog: ProgramV {
                            stack: st2.prog.stack.push(st2.code.len()),
                            ..st2.prog
                        },
                        code: st2.code.push(InstrV::JumpIfZero(vc, 0)),
                        ..st2
                    };
                    match lower_node(st3, *body) {
                        Err(e) => Err(e),
                        Ok((st4, _)) => {
                            let st5 = LSt {
                                code: st4.code.push(InstrV::Jump(start_label)),
                                ..st4
                            };
                            Ok((backpatch_spec(st5), ValueV::Void))
                        },
                    }
                },
            }
        },
        Node::FuncDef { loc: _, name, args, body } => {
            let inner = LSt {
                prog: st.prog,
                scope: args.deep_view(),
                code: seq![InstrV::Prologue(args.view().len())],
            };
            match lower_node(inner, *body) {
                Err(e) => Err(e),
                Ok((st1, _)) => {
                    let f = FnDefV {
                        name: name.view(),
                        scope: st1.scope,
                        body: st1.code.push(InstrV::Return(ValueV::Void)),
                    };
                    Ok((
                        LSt {
                            prog: ProgramV {
                                fns: fns_upsert(st1.prog.fns, f),
                                ..st1.prog
                            },
                            scope: st.scope,
                            code: st.code,
                        },
                        ValueV::Void,
                    ))
                },
            }
        },
        Node::Buf(_, size) => {
            Ok((
                LSt {
                    prog: ProgramV { bufs: st.prog.bufs.push(size as nat), ..st.prog },
                    ..st
                },
                ValueV::BufferRef(st.prog.bufs.len()),
            ))
        },
        Node::Return(_, value) => {
            match lower_node(st, *value) {
                Err(e) => Err(e),
                Ok((st1, v)) => Ok((
                    LSt { code: st1.code.push(InstrV::Return(v)), ..st1 },
                    ValueV::Void,
                )),
            }
        },
        Node::PtrAccess(_, p) => {
            match lower_node(st, *p) {
                Err(e) => Err(e),
                Ok((st1, v)) => Ok((st1, ValueV::PointerLoad(Box::new(v)))),
            }
        },
        Node::PtrAssign(_, p, v) => {
            match lower_node(st, *p) {
                Err(e) => Err(e),
                Ok((st1, vp)) => match lower_node(st1, *v) {
                    Err(e) => Err(e),
                    Ok((st2, vv)) => Ok((
                        LSt {
                            code: st2.code.push(InstrV::StoreThroughPointer(vp, vv)),
                            ..st2
                        },
                        ValueV::Void,
                    )),
                },
            }
        },
        Node::VarAddr(loc, name) => {
            match find_str(st.scope, name.view()) {
                Some(slot) => Ok((st, ValueV::VarAddress(slot))),
                None => Err(IRErrorV {
                    loc,
                    kind: IRErrorKind::UndeclaredVariable,
                    name: name.view(),
                }),
            }
        },
    }
}

/// Lower a call's arguments left to right, threading the state.
pub open spec fn lower_args(st: LSt, args: Seq<Node>) -> Result<(LSt, Seq<ValueV>), IRErrorV>
    decreases args,
{
    if args.len() == 0 {
        Ok((st, Seq::empty()))
    } else {
        match lower_node(st, args[0]) {
            Err(e) => Err(e),
            Ok((st1, v)) => match lower_args(st1, args.drop_first()) {
                Err(e) => Err(e),
                Ok((st2, vs)) => Ok((st2, seq![v] + vs)),
            },
        }
    }
}

/// Lower a block's statements in order; a nonvoid result is kept for its
/// side effects by an `EvaluateForEffect` instruction.
pub open spec fn lower_stmts(st: LSt, nodes: Seq<Node>) -> Result<LSt, IRErrorV>
    decreases nodes,
{
    if nodes.len() == 0 {
        Ok(st)
    } else {
        match lower_node(st, nodes[0]) {
            Err(e) => Err(e),
            Ok((st1, v)) => {
                let st2 = if v == ValueV::Void {
                    st1
                } else {
                    LSt { code: st1.code.push(InstrV::EvaluateForEffect(v)), ..st1 }
                };
                lower_stmts(st2, nodes.drop_first())
            },
        }
    }
}

/// What building a whole program from the top-level node yields: the
/// top-level block becomes the entry function, with a `Prologue(0)` before
/// it and an `Exit(0)` after it.
pub open spec fn from_ast_spec(node: Node) -> Result<ProgramV, IRErrorV> {
    let st0 = LSt {
        prog: ProgramV {
            strings: Seq::empty(),
            bufs: Seq::empty(),
            label_count: 0,
            fns: Seq::empty(),
            stack: Seq::empty(),
        },
        scope: Seq::empty(),
        code: seq![InstrV::Prologue(0)],
    };
    match lower_node(st0, node) {
        Err(e) => Err(e),
        Ok((st1, _)) => {
            let f = FnDefV {
                name: "_start".view(),
                scope: st1.scope,
                body: st1.code.push(InstrV::Exit(0)),
            };
            Ok(ProgramV { fns: fns_upsert(st1.prog.fns, f), ..st1.prog })
        },
    }
}

/// Prefix-of is transitive.
proof fn lemma_prefix_trans<T>(a: Seq<T>, b: Seq<T>, c: Seq<T>)
    requires
        a.len() <= b.len(),
        b.len() <= c.len(),
        b.subrange(0, a.len() as int) == a,
        c.subrange(0, b.len() as int) == b,
    ensures
        c.subrange(0, a.len() as int) == a,
{
    assert forall|k: int| 0 <= k < a.len() implies c.subrange(0, a.len() as int)[k] == a[k] by {
        assert(c.subrange(0, b.len() as int)[k] == b[k]);
        assert(b.subrange(0, a.len() as int)[k] == a[k]);
    }
    assert(c.subrange(0, a.len() as int) =~= a);
}

/// Updating an element at or past `n` leaves the first `n` elements alone.
proof fn lemma_update_preserves_prefix<T>(c: Seq<T>, i: int, x: T, n: int)
    requires
        0 <= n <= i,
        i < c.len(),
    ensures
        c.update(i, x).subrange(0, n) == c.subrange(0, n),
{
    assert forall|k: int| 0 <= k < n implies c.update(i, x).subrange(0, n)[k] == c.subrange(
        0,
        n,
    )[k] by {
        assert(c.update(i, x)[k] == c[k]);
    }
    assert(c.update(i, x).subrange(0, n) =~= c.subrange(0, n));
}

// ---------------------------------------------------------------------------
// Structural facts about lowering
// ---------------------------------------------------------------------------

/// Lowering one node preserves the backpatch stack, advances the label
/// counter by at most twice the node's size, and only appends to the
/// instruction list, the string table and the scope.
#[verifier::rlimit(100)]
pub proof fn lemma_lower_invariants(st: LSt, node: Node)
    ensures
        match lower_node(st, node) {
            Ok((st1, _)) => {
                &&& st1.prog.stack == st.prog.stack
                &&& st.prog.label_count <= st1.prog.label_count <= st.prog.label_count + 2
                    * node_size(node)
                &&& st.code.len() <= st1.code.len()
                &&& st1.code.subrange(0, st.code.len() as int) == st.code
                &&& st.prog.strings.len() <= st1.prog.strings.len()
                &&& st1.prog.strings.subrange(0, st.prog.strings.len() as int) == st.prog.strings
                &&& st.scope.len() <= st1.scope.len()
                &&& st1.scope.subrange(0, st.scope.len() as int) == st.scope
            },
            Err(_) => true,
        },
    decreases node,
{
    broadcast use vstd::seq_lib::group_seq_lib_default;

    match node {
        Node::FuncCall(_, name, args) => {
            lemma_lower_invariants_args(st, args.view());
        },
        Node::StrLit(_, strg) => {
            match find_str(st.prog.strings, strg.view()) {
                Some(_) => {},
                None => {
                    assert(st.prog.strings.push(strg.view()).subrange(
                        0,
                        st.prog.strings.len() as int,
                    ) =~= st.prog.strings);
                },
            }
        },
        Node::Block(_, nodes) => {
            lemma_lower_invariants_stmts(st, nodes.view());
        },
        Node::VarDecl(_, name, init) => {
            if find_str(st.scope, name.view()) is None {
                lemma_lower_invariants(st, *init);
                match lower_node(st, *init) {
                    Ok((st1, _)) => {
                        assert(st1.code.push(
                            InstrV::AssignVar(st1.scope.len(), lower_node(st, *init)->Ok_0.1),
                        ).subrange(0, st.code.len() as int) =~= st.code);
                        assert(st1.scope.push(name.view()).subrange(0, st.scope.len() as int)
                            =~= st.scope);
                    },
                    Err(_) => {},
                }
            }
        },
        Node::VarAccess(_, _) => {},
        Node::VarAssign(_, name, value) => {
            match find_str(st.scope, name.view()) {
                Some(slot) => {
                    lemma_lower_invariants(st, *value);
                    match lower_node(st, *value) {
                        Ok((st1, v)) => {
                            assert(st1.code.push(InstrV::AssignVar(slot, v)).subrange(
                                0,
                                st.code.len() as int,
                            ) =~= st.code);
                        },
                        Err(_) => {},
                    }
                },
                None => {},
            }
        },
        Node::Int(_, _) => {},
        Node::BinOp(_, _, a, b) => {
            lemma_lower_invariants(st, *a);
            match lower_node(st, *a) {
                Ok((st1, _)) => {
                    lemma_lower_invariants(st1, *b);
                    match lower_node(st1, *b) {
                        Ok((st2, _)) => {
                            assert(st2.code.subrange(0, st.code.len() as int) =~= st.code);
                            assert(st2.prog.strings.subrange(0, st.prog.strings.len() as int)
                                =~= st.prog.strings);
                            assert(st2.scope.subrange(0, st.scope.len() as int) =~= st.scope);
                        },
                        Err(_) => {},
                    }
                },
                Err(_) => {},
            }
        },
        Node::CmpOp(_, _, a, b) => {
            lemma_lower_invariants(st, *a);
            match lower_node(st, *a) {
                Ok((st1, _)) => {
                    lemma_lower_invariants(st1, *b);
                    match lower_node(st1, *b) {
                        Ok((st2, _)) => {
                            assert(st2.code.subrange(0, st.code.len() as int) =~= st.code);
                            assert(st2.prog.strings.subrange(0, st.prog.strings.len() as int)
                                =~= st.prog.strings);
                            assert(st2.scope.subrange(0, st.scope.len() as int) =~= st.scope);
                        },
                        Err(_) => {},
                    }
                },
                Err(_) => {},
            }
        },
        Node::If { loc: _, cond, then_branch, else_branch } => {
            lemma_lower_invariants(st, *cond);
            match lower_node(st, *cond) {
                Err(_) => {},
                Ok((st1, vc)) => {
                    let st2 = LSt {
                        prog: ProgramV { stack: st1.prog.stack.push(st1.code.len()), ..st1.prog },
                        code: st1.code.push(InstrV::JumpIfZero(vc, 0)),
                        ..st1
                    };
                    lemma_lower_invariants(st2, *then_branch);
                    match lower_node(st2, *then_branch) {
                        Err(_) => {},
                        Ok((st3, _)) => {
                            let i = st3.prog.stack.last();
                            assert(st3.prog.stack.drop_last() =~= st1.prog.stack);
                            let st4 = LSt {
                                prog: ProgramV { stack: st3.prog.stack.drop_last(), ..st3.prog },
                                ..st3
                            };
                            let st5 = if else_branch is Some {
                                LSt {
                                    prog: ProgramV {
                                        stack: st4.prog.stack.push(st4.code.len()),
                                        ..st4.prog
                                    },
                                    code: st4.code.push(InstrV::Jump(0)),
                                    ..st4
                                }
                            } else {
                                st4
                            };
                            let (st6, label) = add_label_spec(st5);
                            let st7 = LSt {
                                code: st6.code.update(
                                    i as int,
                                    patch_target(st6.code[i as int], label),
                                ),
                                ..st6
                            };
                            assert(i == st1.code.len());
                            assert(st2.code.subrange(0, st1.code.len() as int) =~= st1.code);
                            lemma_prefix_trans(st.code, st1.code, st2.code);
                            lemma_prefix_trans(st.code, st2.code, st3.code);
                            assert(st5.code.subrange(0, st3.code.len() as int) =~= st3.code);
                            lemma_prefix_trans(st.code, st3.code, st5.code);
                            assert(st6.code.subrange(0, st5.code.len() as int) =~= st5.code);
                            lemma_prefix_trans(st.code, st5.code, st6.code);
                            lemma_update_preserves_prefix(
                                st6.code,
                                i as int,
                                patch_target(st6.code[i as int], label),
                                st.code.len() as int,
                            );
                            assert(st7.code.subrange(0, st.code.len() as int) =~= st.code);
                            assert(st7.prog.strings.subrange(0, st.prog.strings.len() as int)
                                =~= st.prog.strings);
                            assert(st7.scope.subrange(0, st.scope.len() as int) =~= st.scope);
                            match else_branch {
                                None => {},
                                Some(els) => {
                                    lemma_lower_invariants(st7, *els);
                                    match lower_node(st7, *els) {
                                        Err(_) => {},
                                        Ok((st8, _)) => {
                                            let st9 = backpatch_spec(st8);
                                            assert(st8.prog.stack.drop_last()
                                                =~= st4.prog.stack);
                                            assert(st9.code.subrange(0, st.code.len() as int)
                                                =~= st.code);
                                            assert(st9.prog.strings.subrange(
                                                0,
                                                st.prog.strings.len() as int,
                                            ) =~= st.prog.strings);
                                            assert(st9.scope.subrange(0, st.scope.len() as int)
                                                =~= st.scope);
                                        },
                                    }
                                },
                            }
                        },
                    }
                },
            }
        },
        Node::Nop(_) => {},
        Node::While { loc: _, cond, body } => {
            let (st1, start_label) = add_label_spec(st);
            lemma_lower_invariants(st1, *cond);
            match lower_node(st1, *cond) {
                Err(_) => {},
                Ok((st2, vc)) => {
                    let st3 = LSt {
                        prog: ProgramV { stack: st2.prog.stack.push(st2.code.len()), ..st2.prog },
                        code: st2.code.push(InstrV::JumpIfZero(vc, 0)),
                        ..st2
                    };
                    lemma_lower_invariants(st3, *body);
                    match lower_node(st3, *body) {
                        Err(_) => {},
                        Ok((st4, _)) => {
                            let st5 = LSt { code: st4.code.push(InstrV::Jump(start_label)), ..st4 };
                            let st6 = backpatch_spec(st5);
                            assert(st4.prog.stack.drop_last() =~= st2.prog.stack);
                            let i = st5.prog.stack.last();
                            assert(i == st2.code.len());
                            assert(st1.code.subrange(0, st.code.len() as int) =~= st.code);
                            assert(st3.code.subrange(0, st2.code.len() as int) =~= st2.code);
                            lemma_prefix_trans(st.code, st1.code, st2.code);
                            lemma_prefix_trans(st.code, st2.code, st3.code);
                            lemma_prefix_trans(st.code, st3.code, st4.code);
                            assert(st5.code.subrange(0, st4.code.len() as int) =~= st4.code);
                            lemma_prefix_trans(st.code, st4.code, st5.code);
                            let st5l = LSt {
                                prog: ProgramV { stack: st5.prog.stack.drop_last(), ..st5.prog },
                                ..st5
                            };
                            let (st5m, lbl) = add_label_spec(st5l);
                            assert(st5m.code.subrange(0, st5.code.len() as int) =~= st5.code);
                            lemma_prefix_trans(st.code, st5.code, st5m.code);
                            lemma_update_preserves_prefix(
                                st5m.code,
                                i as int,
                                patch_target(st5m.code[i as int], lbl),
                                st.code.len() as int,
                            );
                            assert(st6.code.subrange(0, st.code.len() as int) =~= st.code);
                            assert(st6.prog.strings.subrange(0, st.prog.strings.len() as int)
                                =~= st.prog.strings);
                            assert(st6.scope.subrange(0, st.scope.len() as int) =~= st.scope);
                        },
                    }
                },
            }
        },
        Node::FuncDef { loc: _, name, args, body } => {
            let inner = LSt {
                prog: st.prog,
                scope: args.deep_view(),
                code: seq![InstrV::Prologue(args.view().len())],
            };
            lemma_lower_invariants(inner, *body);
            assert(st.code.subrange(0, st.code.len() as int) =~= st.code);
            assert(st.scope.subrange(0, st.scope.len() as int) =~= st.scope);
        },
        Node::Buf(_, _) => {},
        Node::Return(_, value) => {
            lemma_lower_invariants(st, *value);
            match lower_node(st, *value) {
                Ok((st1, v)) => {
                    assert(st1.code.push(InstrV::Return(v)).subrange(0, st.code.len() as int)
                        =~= st.code);
                },
                Err(_) => {},
            }
        },
        Node::PtrAccess(_, p) => {
            lemma_lower_invariants(st, *p);
        },
        Node::PtrAssign(_, p, v) => {
            lemma_lower_invariants(st, *p);
            match lower_node(st, *p) {
                Ok((st1, _)) => {
                    lemma_lower_invariants(st1, *v);
                    match lower_node(st1, *v) {
                        Ok((st2, vv)) => {
                            assert(st2.code.push(
                                InstrV::StoreThroughPointer(lower_node(st, *p)->Ok_0.1, vv),
                            ).subrange(0, st.code.len() as int) =~= st.code);
                            assert(st2.prog.strings.subrange(0, st.prog.strings.len() as int)
                                =~= st.prog.strings);
                            assert(st2.scope.subrange(0, st.scope.len() as int) =~= st.scope);
                        },
                        Err(_) => {},
                    }
                },
                Err(_) => {},
            }
        },
        Node::VarAddr(_, _) => {},
    }
}

/// [`lemma_lower_invariants`], for an argument list.
pub proof fn lemma_lower_invariants_args(st: LSt, args: Seq<Node>)
    ensures
        match lower_args(st, args) {
            Ok((st1, _)) => {
                &&& st1.prog.stack == st.prog.stack
                &&& st.prog.label_count <= st1.prog.label_count <= st.prog.label_count + 2
                    * nodes_size(args)
                &&& st.code.len() <= st1.code.len()
                &&& st1.code.subrange(0, st.code.len() as int) == st.code
                &&& st.prog.strings.len() <= st1.prog.strings.len()
                &&& st1.prog.strings.subrange(0, st.prog.strings.len() as int) == st.prog.strings
                &&& st.scope.len() <= st1.scope.len()
                &&& st1.scope.subrange(0, st.scope.len() as int) == st.scope
            },
            Err(_) => true,
        },
    decreases args,
{
    if args.len() != 0 {
        lemma_lower_invariants(st, args[0]);
        match lower_node(st, args[0]) {
            Err(_) => {},
            Ok((st1, _)) => {
                lemma_lower_invariants_args(st1, args.drop_first());
                match lower_args(st1, args.drop_first()) {
                    Err(_) => {},
                    Ok((st2, _)) => {
                        assert(st2.code.subrange(0, st.code.len() as int) =~= st.code);
                        assert(st2.prog.strings.subrange(0, st.prog.strings.len() as int)
                            =~= st.prog.strings);
                        assert(st2.scope.subrange(0, st.scope.len() as int) =~= st.scope);
                    },
                }
            },
        }
    }
}

/// [`lemma_lower_invariants`], for the statements of a block.
pub proof fn lemma_lower_invariants_stmts(st: LSt, nodes: Seq<Node>)
    ensures
        match lower_stmts(st, nodes) {
            Ok(st1) => {
                &&& st1.prog.stack == st.prog.stack
                &&& st.prog.label_count <= st1.prog.label_count <= st.prog.label_count + 2
                    * nodes_size(nodes)
                &&& st.code.len() <= st1.code.len()
                &&& st1.code.subrange(0, st.code.len() as int) == st.code
                &&& st.prog.strings.len() <= st1.prog.strings.len()
                &&& st1.prog.strings.subrange(0, st.prog.strings.len() as int) == st.prog.strings
                &&& st.scope.len() <= st1.scope.len()
                &&& st1.scope.subrange(0, st.scope.len() as int) == st.scope
            },
            Err(_) => true,
        },
    decreases nodes,
{
    if nodes.len() != 0 {
        lemma_lower_invariants(st, nodes[0]);
        match lower_node(st, nodes[0]) {
            Err(_) => {},
            Ok((st1, v)) => {
                let st2 = if v == ValueV::Void {
                    st1
                } else {
                    LSt { code: st1.code.push(InstrV::EvaluateForEffect(v)), ..st1 }
                };
                assert(st2.code.subrange(0, st.code.len() as int) =~= st.code);
                lemma_lower_invariants_stmts(st2, nodes.drop_first());
                match lower_stmts(st2, nodes.drop_first()) {
                    Err(_) => {},
                    Ok(st3) => {
                        assert(st3.code.subrange(0, st.code.len() as int) =~= st.code);
                        assert(st3.prog.strings.subrange(0, st.prog.strings.len() as int)
                            =~= st.prog.strings);
                        assert(st3.scope.subrange(0, st.scope.len() as int) =~= st.scope);
                    },
                }
            },
        }
    }
}


// ---------------------------------------------------------------------------
// Facts connecting executable values to their views
// ---------------------------------------------------------------------------

proof fn lemma_nats_of_push(v: Seq<usize>, x: usize)
    ensures
        nats_of(v.push(x)) == nats_of(v).push(x as nat),
{
    assert(nats_of(v.push(x)) =~= nats_of(v).push(x as nat));
}

proof fn lemma_nats_of_drop_last(v: Seq<usize>)
    requires
        v.len() > 0,
    ensures
        nats_of(v.subrange(0, v.len() - 1)) == nats_of(v).drop_last(),
{
    assert(nats_of(v.subrange(0, v.len() - 1)) =~= nats_of(v).drop_last());
}

proof fn lemma_deep_view_push<T: DeepView>(v1: Vec<T>, v2: Vec<T>, x: T)
    requires
        v2.view() == v1.view().push(x),
    ensures
        v2.deep_view() == v1.deep_view().push(x.deep_view()),
{
    assert(v2.deep_view() =~= v1.deep_view().push(x.deep_view()));
}

proof fn lemma_deep_view_update<T: DeepView>(v1: Vec<T>, v2: Vec<T>, i: int, x: T)
    requires
        0 <= i < v1.view().len(),
        v2.view() == v1.view().update(i, x),
    ensures
        v2.deep_view() == v1.deep_view().update(i, x.deep_view()),
{
    assert(v2.deep_view() =~= v1.deep_view().update(i, x.deep_view()));
}

/// What [`find_str`] returns is the first index holding `s`, if one does.
pub proof fn lemma_find_str_spec(t: Seq<Seq<char>>, s: Seq<char>)
    ensures
        match find_str(t, s) {
            Some(i) => i < t.len() && t[i as int] == s && (forall|j: int|
                0 <= j < i ==> t[j] != s),
            None => forall|j: int| 0 <= j < t.len() ==> t[j] != s,
        },
    decreases t,
{
    if t.len() != 0 && t[0] != s {
        lemma_find_str_spec(t.drop_first(), s);
        assert forall|j: int| 1 <= j < t.len() implies t[j] == t.drop_first()[j - 1] by {}
    }
}

/// What [`find_fn`] returns is the first entry with that name, if one exists.
pub proof fn lemma_find_fn_spec(fns: Seq<FnDefV>, name: Seq<char>)
    ensures
        match find_fn(fns, name) {
            Some(i) => i < fns.len() && fns[i as int].name == name && (forall|j: int|
                0 <= j < i ==> fns[j].name != name),
            None => forall|j: int| 0 <= j < fns.len() ==> fns[j].name != name,
        },
    decreases fns,
{
    if fns.len() != 0 && fns[0].name != name {
        lemma_find_fn_spec(fns.drop_first(), name);
        assert forall|j: int| 1 <= j < fns.len() implies fns[j] == fns.drop_first()[j - 1] by {}
    }
}

// ---------------------------------------------------------------------------
// Executable helpers
// ---------------------------------------------------------------------------

/// Linear search for a string by contents; the result agrees with
/// [`find_str`] on the views.
fn vec_find_str(v: &Vec<String>, s: &String) -> (r: Option<usize>)
    ensures
        match r {
            Some(i) => i < v.view().len() && find_str(v.deep_view(), s.view()) == Some(i as nat),
            None => find_str(v.deep_view(), s.view()) is None,
        },
{
    proof {
        lemma_find_str_spec(v.deep_view(), s.view());
    }
    let n = v.len();
    for i in 0..n
        invariant
            n == v.view().len(),
            forall|j: int| 0 <= j < i ==> v.deep_view()[j] != s.view(),
    {
        if *s == v[i] {
            proof {
                lemma_find_str_spec(v.deep_view(), s.view());
                assert(v.deep_view()[i as int] == v.view()[i as int].view());
                match find_str(v.deep_view(), s.view()) {
                    None => {
                        assert(false);
                    },
                    Some(k) => {
                        if (k as int) < i as int {
                            assert(v.deep_view()[k as int] != s.view());
                        }
                        if (k as int) > i as int {
                            assert(v.deep_view()[i as int] != s.view());
                        }
                    },
                }
            }
            return Some(i);
        }
    }
    None
}

impl Instruction {
    /// Point this jump at `label_id`. Lowering only ever patches jumps, so
    /// anything else is ruled out by the caller.
    fn backpatch(&mut self, label_id: usize)
        requires
            *old(self) is Jump || *old(self) is JumpIfZero,
        ensures
            final(self).view() == patch_target(old(self).view(), label_id as nat),
    {
        match self {
            Instruction::JumpIfZero(_, i) => {
                *i = label_id;
            },
            Instruction::Jump(i) => {
                *i = label_id;
            },
            _ => {},
        }
    }
}

impl Program {
    /// Register a lowered function: a redefinition overwrites the old entry
    /// in place, anything else is appended. Agrees with [`fns_upsert`].
    fn register_fn(&mut self, f: FnDef)
        ensures
            final(self).view() == (ProgramV {
                fns: fns_upsert(old(self).view().fns, f.view()),
                ..old(self).view()
            }),
    {
        proof {
            lemma_find_fn_spec(self.fns.deep_view(), f.view().name);
        }
        let n = self.fns.len();
        for i in 0..n
            invariant
                n == self.fns.view().len(),
                *self == *old(self),
                forall|j: int| 0 <= j < i ==> self.fns.deep_view()[j].name != f.view().name,
        {
            if self.fns[i].name == f.name {
                proof {
                    lemma_find_fn_spec(self.fns.deep_view(), f.view().name);
                    assert(self.fns.deep_view()[i as int] == self.fns.view()[i as int].view());
                    assert(self.fns.deep_view()[i as int].name == f.view().name);
                    match find_fn(self.fns.deep_view(), f.view().name) {
                        None => {
                            assert(false);
                        },
                        Some(k) => {
                            if (k as int) < i as int {
                                assert(self.fns.deep_view()[k as int].name != f.view().name);
                            }
                            if (k as int) > i as int {
                                assert(self.fns.deep_view()[i as int].name != f.view().name);
                            }
                        },
                    }
                }
                let ghost prior = self.fns;
                self.fns.set(i, f);
                proof {
                    lemma_deep_view_update(prior, self.fns, i as int, f);
                    assert(final(self).view() =~= (ProgramV {
                        fns: fns_upsert(old(self).view().fns, f.view()),
                        ..old(self).view()
                    }));
                }
                return;
            }
        }
        let ghost prior = self.fns;
        self.fns.push(f);
        proof {
            lemma_deep_view_push(prior, self.fns, f);
            assert(final(self).view() =~= (ProgramV {
                fns: fns_upsert(old(self).view().fns, f.view()),
                ..old(self).view()
            }));
        }
    }

    /// Materialize a fresh label here: emit a `Label` instruction and hand
    /// out its id. Agrees with [`add_label_spec`].
    fn add_label(&mut self, code: &mut Vec<Instruction>) -> (r: usize)
        requires
            old(self).label_count < usize::MAX,
        ensures
            r == old(self).label_count,
            final(self).view() == (ProgramV {
                label_count: old(self).view().label_count + 1,
                ..old(self).view()
            }),
            final(code).deep_view() == old(code).deep_view().push(
                InstrV::Label(old(self).label_count as nat),
            ),
    {
        let ghost prior = *code;
        code.push(Instruction::Label(self.label_count));
        self.label_count = self.label_count + 1;
        proof {
            lemma_deep_view_push(prior, *code, Instruction::Label(old(self).label_count));
            assert(final(self).view() =~= (ProgramV {
                label_count: old(self).view().label_count + 1,
                ..old(self).view()
            }));
        }
        self.label_count - 1
    }

    /// Intern a string literal: reuse the id of an exact match in the table,
    /// else append it. Agrees with [`intern_spec`].
    fn intern(&mut self, s: &String) -> (id: usize)
        ensures
            ({
                let (tbl, idn) = intern_spec(old(self).view().strings, s.view());
                &&& final(self).view() == (ProgramV { strings: tbl, ..old(self).view() })
                &&& id as nat == idn
            }),
    {
        match vec_find_str(&self.strings, s) {
            Some(i) => {
                proof {
                    assert(final(self).view() =~= (ProgramV {
                        strings: intern_spec(old(self).view().strings, s.view()).0,
                        ..old(self).view()
                    }));
                }
                i
            },
            None => {
                let id = self.strings.len();
                let ghost prior = self.strings;
                self.strings.push(s.clone());
                proof {
                    lemma_deep_view_push(prior, self.strings, *s);
                    assert(final(self).view() =~= (ProgramV {
                        strings: intern_spec(old(self).view().strings, s.view()).0,
                        ..old(self).view()
                    }));
                }
                id
            },
        }
    }

    /// Pop the most recent backpatch entry, materialize a label, and patch
    /// the recorded jump to it. Agrees with [`backpatch_spec`].
    fn backpatch(&mut self, code: &mut Vec<Instruction>)
        requires
            old(self).view().stack.len() > 0,
            old(self).view().stack.last() < old(code).view().len(),
            old(code).deep_view()[old(self).view().stack.last() as int] is Jump || old(
                code,
            ).deep_view()[old(self).view().stack.last() as int] is JumpIfZero,
            old(self).label_count < usize::MAX,
        ensures
            ({
                let i = old(self).view().stack.last();
                let mid = old(code).deep_view().push(
                    InstrV::Label(old(self).view().label_count),
                );
                &&& final(self).view() == (ProgramV {
                    stack: old(self).view().stack.drop_last(),
                    label_count: old(self).view().label_count + 1,
                    ..old(self).view()
                })
                &&& final(code).deep_view() == mid.update(
                    i as int,
                    patch_target(mid[i as int], old(self).view().label_count),
                )
            }),
    {
        let i = self.backpatch_stack[self.backpatch_stack.len() - 1];
        let _popped = self.backpatch_stack.pop();
        proof {
            lemma_nats_of_drop_last(old(self).backpatch_stack.view());
            assert(i as nat == old(self).view().stack.last());
        }
        let label = self.add_label(code);
        let ghost mid_code = *code;
        proof {
            assert(code.deep_view().len() == code.view().len());
            assert(old(code).deep_view().len() == old(code).view().len());
            assert(i < code.view().len());
            assert(code.deep_view()[i as int] == old(code).deep_view()[i as int]);
            assert(code.deep_view()[i as int] == instr_view(code.view()[i as int]));
            let inst = code.view()[i as int];
            if !(inst is Jump || inst is JumpIfZero) {
                assert(!(instr_view(inst) is Jump) && !(instr_view(inst) is JumpIfZero));
            }
        }
        code[i].backpatch(label);
        proof {
            lemma_deep_view_update(mid_code, *code, i as int, code.view()[i as int]);
            assert(mid_code.deep_view()[i as int] == old(code).deep_view()[i as int]);
            assert(final(self).view() =~= (ProgramV {
                stack: old(self).view().stack.drop_last(),
                label_count: old(self).view().label_count + 1,
                ..old(self).view()
            }));
        }
    }
}

/// A jump at the view level is a jump at the machine level.
proof fn lemma_instr_view_jump_inv(inst: Instruction)
    ensures
        instr_view(inst) is Jump ==> inst is Jump,
        instr_view(inst) is JumpIfZero ==> inst is JumpIfZero,
{
}

impl Program {
    /// Lower one node into the current scope and instruction list, returning
    /// the operand it evaluates to. This is exactly [`lower_node`]: on
    /// success the new state and the operand are the ones the spec computes,
    /// and on failure the error is the one the spec computes.
    /// Lower an `If`: condition, forward jump over the then-branch, and,
    /// with an else-branch, a jump over it too, each backpatched in turn.
    #[verifier::rlimit(100)]
    fn visit_if(
        &mut self,
        node: &Node,
        cond: &Node,
        then_branch: &Node,
        else_branch: &Option<Box<Node>>,
        scope: &mut Vec<String>,
        code: &mut Vec<Instruction>,
    ) -> (r: Result<Value, IRError>)
        requires
            (*node matches Node::If { loc: _, cond: c, then_branch: t, else_branch: e } && *c
                == *cond && *t == *then_branch && e == *else_branch),
            old(self).view().label_count + 2 * node_size(*node) <= usize::MAX,
        ensures
            match r {
                Ok(v) => lower_node(st_of(old(self), old(scope), old(code)), *node)
                    == Ok::<(LSt, ValueV), IRErrorV>((
                    st_of(final(self), final(scope), final(code)),
                    v.view(),
                )),
                Err(e) => lower_node(st_of(old(self), old(scope), old(code)), *node)
                    == Err::<(LSt, ValueV), IRErrorV>(e.view()),
            },
        decreases node_size(*node), 0nat,
    {
                let ghost st0 = st_of(old(self), old(scope), old(code));
                let vc = match self.visit(cond, scope, code) {
                    Ok(v) => v,
                    Err(e) => {
                        return Err(e);
                    },
                };
                proof {
                    lemma_lower_invariants(st0, *cond);
                }
                let ghost st1 = st_of(self, scope, code);
                let ghost stack1 = self.backpatch_stack;
                self.backpatch_stack.push(code.len());
                let ghost prior_code = *code;
                let ghost gvc = vc;
                code.push(Instruction::JumpIfZero(vc, 0));
                proof {
                    lemma_nats_of_push(stack1.view(), prior_code.view().len() as usize);
                    lemma_deep_view_push(
                        prior_code,
                        *code,
                        Instruction::JumpIfZero(gvc, 0),
                    );
                    assert(st_of(self, scope, code) =~= (LSt {
                        prog: ProgramV {
                            stack: st1.prog.stack.push(st1.code.len()),
                            ..st1.prog
                        },
                        code: st1.code.push(InstrV::JumpIfZero(value_view(gvc), 0)),
                        ..st1
                    }));
                }
                let ghost st2 = st_of(self, scope, code);
                match self.visit(then_branch, scope, code) {
                    Ok(_) => {},
                    Err(e) => {
                        return Err(e);
                    },
                }
                proof {
                    lemma_lower_invariants(st2, *then_branch);
                }
                let ghost st3 = st_of(self, scope, code);
                let i = self.backpatch_stack[self.backpatch_stack.len() - 1];
                let ghost stack3 = self.backpatch_stack;
                let _popped = self.backpatch_stack.pop();
                proof {
                    lemma_nats_of_drop_last(stack3.view());
                    assert(i as nat == st3.prog.stack.last());
                    assert(i as nat == st1.code.len());
                    assert(st_of(self, scope, code).prog.stack =~= st1.prog.stack);
                    assert(st_of(self, scope, code) =~= (LSt {
                        prog: ProgramV { stack: st3.prog.stack.drop_last(), ..st3.prog },
                        ..st3
                    }));
                }
                let ghost st4 = st_of(self, scope, code);
                if else_branch.is_some() {
                    let ghost stack4 = self.backpatch_stack;
                    self.backpatch_stack.push(code.len());
                    let ghost prior_code4 = *code;
                    code.push(Instruction::Jump(0));
                    proof {
                        lemma_nats_of_push(stack4.view(), prior_code4.view().len() as usize);
                        lemma_deep_view_push(prior_code4, *code, Instruction::Jump(0));
                        assert(st_of(self, scope, code) =~= (LSt {
                            prog: ProgramV {
                                stack: st4.prog.stack.push(st4.code.len()),
                                ..st4.prog
                            },
                            code: st4.code.push(InstrV::Jump(0)),
                            ..st4
                        }));
                    }
                }
                let ghost st5 = st_of(self, scope, code);
                let label = self.add_label(code);
                proof {
                    assert(st_of(self, scope, code) =~= add_label_spec(st5).0);
                    assert(label as nat == add_label_spec(st5).1);
                }
                let ghost st6 = st_of(self, scope, code);
                proof {
                    assert(st2.code[i as int] == InstrV::JumpIfZero(value_view(gvc), 0));
                    assert(st3.code.subrange(0, st2.code.len() as int) == st2.code);
                    assert(st3.code.subrange(0, st2.code.len() as int)[i as int]
                        == st3.code[i as int]);
                    assert(st6.code[i as int] == InstrV::JumpIfZero(value_view(gvc), 0));
                    assert(code.deep_view().len() == code.view().len());
                    assert(st6.code.len() > i as int);
                    assert(i < code.view().len());
                    assert(code.deep_view()[i as int] == instr_view(code.view()[i as int]));
                    lemma_instr_view_jump_inv(code.view()[i as int]);
                }
                let ghost mid_code = *code;
                code[i].backpatch(label);
                proof {
                    lemma_deep_view_update(mid_code, *code, i as int, code.view()[i as int]);
                    assert(st_of(self, scope, code) =~= (LSt {
                        code: st6.code.update(
                            i as int,
                            patch_target(st6.code[i as int], label as nat),
                        ),
                        ..st6
                    }));
                }
                let ghost st7 = st_of(self, scope, code);
                match else_branch {
                    None => {
                        proof {
                            assert(lower_node(st0, *node) == Ok::<(LSt, ValueV), IRErrorV>((
                                st7,
                                ValueV::Void,
                            )));
                        }
                        Ok(Value::Void)
                    },
                    Some(els) => {
                        match self.visit(els, scope, code) {
                            Ok(_) => {},
                            Err(e) => {
                                return Err(e);
                            },
                        }
                        proof {
                            lemma_lower_invariants(st7, *(*els));
                        }
                        let ghost st8 = st_of(self, scope, code);
                        proof {
                            assert(st8.prog.stack == st4.prog.stack.push(st4.code.len()));
                            assert(st8.prog.stack.last() == st4.code.len());
                            let j = st4.code.len() as int;
                            assert(st5.code[j] == InstrV::Jump(0));
                            assert(st6.code[j] == InstrV::Jump(0));
                            assert(i as int != j);
                            assert(st7.code[j] == InstrV::Jump(0));
                            assert(st8.code.subrange(0, st7.code.len() as int)[j]
                                == st8.code[j]);
                            assert(st8.code[j] == InstrV::Jump(0));
                            assert(code.deep_view().len() == code.view().len());
                            assert(j < code.view().len());
                            assert(code.deep_view()[j] == instr_view(code.view()[j]));
                            lemma_instr_view_jump_inv(code.view()[j]);
                        }
                        self.backpatch(code);
                        proof {
                            assert(st_of(self, scope, code) =~= backpatch_spec(st8));
                            assert(lower_node(st0, *node) == Ok::<(LSt, ValueV), IRErrorV>((
                                backpatch_spec(st8),
                                ValueV::Void,
                            )));
                        }
                        Ok(Value::Void)
                    },
                }
    }

    /// Lower a `While`: loop-top label, condition, forward exit jump,
    /// body, backward jump, then backpatch the exit.
    #[verifier::rlimit(100)]
    fn visit_while(
        &mut self,
        node: &Node,
        cond: &Node,
        body_n: &Node,
        scope: &mut Vec<String>,
        code: &mut Vec<Instruction>,
    ) -> (r: Result<Value, IRError>)
        requires
            (*node matches Node::While { loc: _, cond: c, body: b } && *c == *cond && *b
                == *body_n),
            old(self).view().label_count + 2 * node_size(*node) <= usize::MAX,
        ensures
            match r {
                Ok(v) => lower_node(st_of(old(self), old(scope), old(code)), *node)
                    == Ok::<(LSt, ValueV), IRErrorV>((
                    st_of(final(self), final(scope), final(code)),
                    v.view(),
                )),
                Err(e) => lower_node(st_of(old(self), old(scope), old(code)), *node)
                    == Err::<(LSt, ValueV), IRErrorV>(e.view()),
            },
        decreases node_size(*node), 0nat,
    {
                let ghost st0 = st_of(old(self), old(scope), old(code));
                let start_label = self.add_label(code);
                proof {
                    assert(st_of(self, scope, code) =~= add_label_spec(st0).0);
                }
                let ghost st1 = st_of(self, scope, code);
                let vc = match self.visit(cond, scope, code) {
                    Ok(v) => v,
                    Err(e) => {
                        return Err(e);
                    },
                };
                proof {
                    lemma_lower_invariants(st1, *cond);
                }
                let ghost st2 = st_of(self, scope, code);
                let ghost stack2 = self.backpatch_stack;
                self.backpatch_stack.push(code.len());
                let ghost prior_code = *code;
                let ghost gvc = vc;
                code.push(Instruction::JumpIfZero(vc, 0));
                proof {
                    lemma_nats_of_push(stack2.view(), prior_code.view().len() as usize);
                    lemma_deep_view_push(prior_code, *code, Instruction::JumpIfZero(gvc, 0));
                    assert(st_of(self, scope, code) =~= (LSt {
                        prog: ProgramV {
                            stack: st2.prog.stack.push(st2.code.len()),
                            ..st2.prog
                        },
                        code: st2.code.push(InstrV::JumpIfZero(value_view(gvc), 0)),
                        ..st2
                    }));
                }
                let ghost st3 = st_of(self, scope, code);
                match self.visit(body_n, scope, code) {
                    Ok(_) => {},
                    Err(e) => {
                        return Err(e);
                    },
                }
                proof {
                    lemma_lower_invariants(st3, *body_n);
                }
                let ghost st4 = st_of(self, scope, code);
                let ghost prior_code4 = *code;
                code.push(Instruction::Jump(start_label));
                proof {
                    lemma_deep_view_push(prior_code4, *code, Instruction::Jump(start_label));
                    assert(st_of(self, scope, code) =~= (LSt {
                        code: st4.code.push(InstrV::Jump(st0.prog.label_count)),
                        ..st4
                    }));
                }
                let ghost st5 = st_of(self, scope, code);
                proof {
                    assert(st5.prog.stack == st2.prog.stack.push(st2.code.len()));
                    assert(st5.prog.stack.last() == st2.code.len());
                    assert(st3.code[st2.code.len() as int] == InstrV::JumpIfZero(
                        value_view(gvc),
                        0,
                    ));
                    assert(st4.code.subrange(0, st3.code.len() as int) == st3.code);
                    assert(st4.code[st2.code.len() as int] == InstrV::JumpIfZero(
                        value_view(gvc),
                        0,
                    ));
                    assert(st5.code[st2.code.len() as int] == InstrV::JumpIfZero(
                        value_view(gvc),
                        0,
                    ));
                    assert(code.deep_view()[st2.code.len() as int] == instr_view(
                        code.view()[st2.code.len() as int],
                    ));
                    lemma_instr_view_jump_inv(code.view()[st2.code.len() as int]);
                }
                self.backpatch(code);
                proof {
                    assert(st_of(self, scope, code) =~= backpatch_spec(st5));
                    assert(lower_node(st0, *node) == Ok::<(LSt, ValueV), IRErrorV>((
                        backpatch_spec(st5),
                        ValueV::Void,
                    )));
                }
                Ok(Value::Void)
    }

    /// Lower a function definition: a fresh scope pre-populated with the
    /// parameters, a fresh instruction list with a prologue, the body, an
    /// implicit void return, then registration (last definition wins).
    #[verifier::loop_isolation(false)]
    #[verifier::rlimit(100)]
    fn visit_fndef(
        &mut self,
        node: &Node,
        name: &String,
        args: &Vec<String>,
        body_n: &Node,
        scope: &mut Vec<String>,
        code: &mut Vec<Instruction>,
    ) -> (r: Result<Value, IRError>)
        requires
            (*node matches Node::FuncDef { loc: _, name: n, args: a, body: b } && n == *name
                && a == *args && *b == *body_n),
            old(self).view().label_count + 2 * node_size(*node) <= usize::MAX,
        ensures
            match r {
                Ok(v) => lower_node(st_of(old(self), old(scope), old(code)), *node)
                    == Ok::<(LSt, ValueV), IRErrorV>((
                    st_of(final(self), final(scope), final(code)),
                    v.view(),
                )),
                Err(e) => lower_node(st_of(old(self), old(scope), old(code)), *node)
                    == Err::<(LSt, ValueV), IRErrorV>(e.view()),
            },
        decreases node_size(*node), 0nat,
    {
                let ghost st0 = st_of(old(self), old(scope), old(code));
                let mut body_code: Vec<Instruction> = Vec::new();
                let mut body_vars: Vec<String> = Vec::new();
                body_code.push(Instruction::Prologue(args.len()));
                proof {
                    assert(body_code.deep_view() =~= seq![InstrV::Prologue(
                        args.view().len() as nat,
                    )]);
                    assert(body_vars.deep_view() =~= args.deep_view().subrange(0, 0));
                }
                let n = args.len();
                for i in 0..n
                    invariant
                        body_vars.deep_view() == args.deep_view().subrange(0, i as int),
                        body_code.deep_view() == seq![InstrV::Prologue(args.view().len() as nat)],
                    decreases n - i,
                {
                    let ghost prior_vars = body_vars;
                    body_vars.push(args[i].clone());
                    proof {
                        lemma_deep_view_push(prior_vars, body_vars, args.view()[i as int]);
                        assert(body_vars.deep_view() =~= args.deep_view().subrange(
                            0,
                            i as int + 1,
                        ));
                    }
                }
                proof {
                    assert(args.deep_view().subrange(0, n as int) =~= args.deep_view());
                    assert((LSt {
                        prog: st0.prog,
                        scope: body_vars.deep_view(),
                        code: body_code.deep_view(),
                    }) =~= (LSt {
                        prog: st0.prog,
                        scope: args.deep_view(),
                        code: seq![InstrV::Prologue(args.view().len() as nat)],
                    }));
                }
                match self.visit(body_n, &mut body_vars, &mut body_code) {
                    Ok(_) => {},
                    Err(e) => {
                        return Err(e);
                    },
                }
                let ghost st1 = st_of(self, &body_vars, &body_code);
                let ghost prior_body = body_code;
                body_code.push(Instruction::Return(Value::Void));
                proof {
                    lemma_deep_view_push(
                        prior_body,
                        body_code,
                        Instruction::Return(Value::Void),
                    );
                }
                let ghost gvars = body_vars;
                let ghost gbody = body_code;
                let f = FnDef { name: name.clone(), scope: body_vars, body: body_code };
                proof {
                    assert(f.view() =~= (FnDefV {
                        name: name.view(),
                        scope: st1.scope,
                        body: st1.code.push(InstrV::Return(ValueV::Void)),
                    }));
                }
                self.register_fn(f);
                proof {
                    assert(st_of(self, scope, code) =~= (LSt {
                        prog: ProgramV {
                            fns: fns_upsert(
                                st1.prog.fns,
                                FnDefV {
                                    name: name.view(),
                                    scope: st1.scope,
                                    body: st1.code.push(InstrV::Return(ValueV::Void)),
                                },
                            ),
                            ..st1.prog
                        },
                        scope: st0.scope,
                        code: st0.code,
                    }));
                }
                Ok(Value::Void)
    }

    #[verifier::loop_isolation(false)]
    #[verifier::rlimit(100)]
    fn visit(&mut self, node: &Node, scope: &mut Vec<String>, code: &mut Vec<Instruction>) -> (r:
        Result<Value, IRError>)
        requires
            old(self).view().label_count + 2 * node_size(*node) <= usize::MAX,
        ensures
            match r {
                Ok(v) => lower_node(st_of(old(self), old(scope), old(code)), *node)
                    == Ok::<(LSt, ValueV), IRErrorV>((
                    st_of(final(self), final(scope), final(code)),
                    v.view(),
                )),
                Err(e) => lower_node(st_of(old(self), old(scope), old(code)), *node)
                    == Err::<(LSt, ValueV), IRErrorV>(e.view()),
            },
        decreases node_size(*node), 1nat,
    {
        match node {
            Node::FuncCall(_, name, args) => {
                let mut vals: Vec<Value> = Vec::new();
                proof {
                    assert(args.view().skip(0) =~= args.view());
                    assert(values_view(vals.view()) =~= Seq::<ValueV>::empty());
                    match lower_args(st_of(self, scope, code), args.view()) {
                        Ok((stf, vs)) => {
                            assert(values_view(vals.view()) + vs =~= vs);
                        },
                        Err(_) => {},
                    }
                }
                let n = args.len();
                for i in 0..n
                    invariant
                        nodes_size(args.view().skip(i as int)) <= nodes_size(args.view()),
                        self.view().label_count + 2 * nodes_size(args.view().skip(i as int))
                            <= usize::MAX,
                        match lower_args(st_of(self, scope, code), args.view().skip(i as int)) {
                            Ok((stf, vs)) => lower_args(
                                st_of(old(self), old(scope), old(code)),
                                args.view(),
                            ) == Ok::<(LSt, Seq<ValueV>), IRErrorV>((
                                stf,
                                values_view(vals.view()) + vs,
                            )),
                            Err(e) => lower_args(
                                st_of(old(self), old(scope), old(code)),
                                args.view(),
                            ) == Err::<(LSt, Seq<ValueV>), IRErrorV>(e),
                        },
                    decreases n - i,
                {
                    proof {
                        assert(args.view().skip(i as int)[0] == args.view()[i as int]);
                        assert(args.view().skip(i as int).drop_first() =~= args.view().skip(
                            i as int + 1,
                        ));
                    }
                    let ghost st_before = st_of(self, scope, code);
                    let arg_v = match self.visit(&args[i], scope, code) {
                        Ok(v) => v,
                        Err(e) => {
                            return Err(e);
                        },
                    };
                    proof {
                        lemma_lower_invariants(st_before, args.view()[i as int]);
                    }
                    let ghost prior_vals = vals;
                    let ghost garg = arg_v;
                    vals.push(arg_v);
                    proof {
                        assert(vals.view().drop_last() =~= prior_vals.view());
                        assert(vals.view().last() == garg);
                        assert(values_view(vals.view()) == values_view(prior_vals.view()).push(
                            value_view(garg),
                        ));
                        match lower_args(st_of(self, scope, code), args.view().skip(i as int + 1)) {
                            Ok((stf, vs)) => {
                                assert(values_view(prior_vals.view()) + (seq![value_view(garg)]
                                    + vs) =~= values_view(vals.view()) + vs);
                            },
                            Err(_) => {},
                        }
                    }
                }
                proof {
                    assert(args.view().skip(n as int) =~= Seq::<Node>::empty());
                    match lower_args(st_of(self, scope, code), args.view().skip(n as int)) {
                        Ok((stf, vs)) => {
                            assert(values_view(vals.view()) + vs =~= values_view(vals.view()));
                        },
                        Err(_) => {
                            assert(false);
                        },
                    }
                }
                Ok(Value::Call(name.clone(), vals))
            },
            Node::StrLit(_, strg) => {
                let id = self.intern(strg);
                proof {
                    assert(st_of(self, scope, code) =~= (LSt {
                        prog: ProgramV {
                            strings: intern_spec(old(self).view().strings, strg.view()).0,
                            ..old(self).view()
                        },
                        ..st_of(old(self), old(scope), old(code))
                    }));
                }
                Ok(Value::StringRef(id))
            },
            Node::Block(_, nodes) => {
                proof {
                    assert(nodes.view().skip(0) =~= nodes.view());
                }
                let n = nodes.len();
                for i in 0..n
                    invariant
                        nodes_size(nodes.view().skip(i as int)) <= nodes_size(nodes.view()),
                        self.view().label_count + 2 * nodes_size(nodes.view().skip(i as int))
                            <= usize::MAX,
                        match lower_stmts(st_of(self, scope, code), nodes.view().skip(i as int)) {
                            Ok(stf) => lower_stmts(
                                st_of(old(self), old(scope), old(code)),
                                nodes.view(),
                            ) == Ok::<LSt, IRErrorV>(stf),
                            Err(e) => lower_stmts(
                                st_of(old(self), old(scope), old(code)),
                                nodes.view(),
                            ) == Err::<LSt, IRErrorV>(e),
                        },
                    decreases n - i,
                {
                    proof {
                        assert(nodes.view().skip(i as int)[0] == nodes.view()[i as int]);
                        assert(nodes.view().skip(i as int).drop_first() =~= nodes.view().skip(
                            i as int + 1,
                        ));
                    }
                    let ghost st_before = st_of(self, scope, code);
                    let val = match self.visit(&nodes[i], scope, code) {
                        Ok(v) => v,
                        Err(e) => {
                            return Err(e);
                        },
                    };
                    proof {
                        lemma_lower_invariants(st_before, nodes.view()[i as int]);
                    }
                    match val {
                        Value::Void => {},
                        _ => {
                            let ghost prior_code = *code;
                            let ghost gval = val;
                            code.push(Instruction::EvaluateForEffect(val));
                            proof {
                                lemma_deep_view_push(
                                    prior_code,
                                    *code,
                                    Instruction::EvaluateForEffect(gval),
                                );
                                assert(st_of(self, scope, code) =~= (LSt {
                                    code: prior_code.deep_view().push(
                                        InstrV::EvaluateForEffect(value_view(gval)),
                                    ),
                                    ..st_of(self, scope, &prior_code)
                                }));
                            }
                        },
                    }
                }
                proof {
                    assert(nodes.view().skip(n as int) =~= Seq::<Node>::empty());
                }
                Ok(Value::Void)
            },
            Node::VarDecl(loc, name, init) => {
                if let Some(_) = vec_find_str(scope, name) {
                    return Err(
                        IRError {
                            loc: loc.clone(),
                            kind: IRErrorKind::DuplicateDeclaration,
                            name: name.clone(),
                        },
                    );
                }
                let value = match self.visit(init, scope, code) {
                    Ok(v) => v,
                    Err(e) => {
                        return Err(e);
                    },
                };
                let ghost prior_code = *code;
                let ghost prior_scope = *scope;
                let ghost gval = value;
                let slot = scope.len();
                code.push(Instruction::AssignVar(slot, value));
                let cloned_name = name.clone();
                let ghost gname = cloned_name;
                scope.push(cloned_name);
                proof {
                    lemma_deep_view_push(
                        prior_code,
                        *code,
                        Instruction::AssignVar(slot, gval),
                    );
                    lemma_deep_view_push(prior_scope, *scope, gname);
                    assert(st_of(self, scope, code) =~= (LSt {
                        scope: prior_scope.deep_view().push(name.view()),
                        code: prior_code.deep_view().push(
                            InstrV::AssignVar(prior_scope.deep_view().len(), value_view(gval)),
                        ),
                        ..st_of(self, &prior_scope, &prior_code)
                    }));
                }
                Ok(Value::Void)
            },
            Node::VarAccess(loc, name) => {
                match vec_find_str(scope, name) {
                    Some(idx) => Ok(Value::VarRef(idx)),
                    None => Err(
                        IRError {
                            loc: loc.clone(),
                            kind: IRErrorKind::UndeclaredVariable,
                            name: name.clone(),
                        },
                    ),
                }
            },
            Node::VarAssign(loc, name, value) => {
                match vec_find_str(scope, name) {
                    Some(idx) => {
                        let val = match self.visit(value, scope, code) {
                            Ok(v) => v,
                            Err(e) => {
                                return Err(e);
                            },
                        };
                        let ghost prior_code = *code;
                        let ghost gval = val;
                        code.push(Instruction::AssignVar(idx, val));
                        proof {
                            lemma_deep_view_push(
                                prior_code,
                                *code,
                                Instruction::AssignVar(idx, gval),
                            );
                            assert(st_of(self, scope, code) =~= (LSt {
                                code: prior_code.deep_view().push(
                                    InstrV::AssignVar(idx as nat, value_view(gval)),
                                ),
                                ..st_of(self, scope, &prior_code)
                            }));
                        }
                        Ok(Value::Void)
                    },
                    None => Err(
                        IRError {
                            loc: loc.clone(),
                            kind: IRErrorKind::UndeclaredVariable,
                            name: name.clone(),
                        },
                    ),
                }
            },
            Node::Int(_, n) => Ok(Value::IntConst(*n)),
            Node::BinOp(_, op, a, b) => {
                let ghost st0 = st_of(old(self), old(scope), old(code));
                let va = match self.visit(a, scope, code) {
                    Ok(v) => v,
                    Err(e) => {
                        return Err(e);
                    },
                };
                proof {
                    lemma_lower_invariants(st0, *(*a));
                }
                let vb = match self.visit(b, scope, code) {
                    Ok(v) => v,
                    Err(e) => {
                        return Err(e);
                    },
                };
                Ok(Value::BinaryOp(*op, Box::new(va), Box::new(vb)))
            },
            Node::CmpOp(_, op, a, b) => {
                let ghost st0 = st_of(old(self), old(scope), old(code));
                let va = match self.visit(a, scope, code) {
                    Ok(v) => v,
                    Err(e) => {
                        return Err(e);
                    },
                };
                proof {
                    lemma_lower_invariants(st0, *(*a));
                }
                let vb = match self.visit(b, scope, code) {
                    Ok(v) => v,
                    Err(e) => {
                        return Err(e);
                    },
                };
                Ok(Value::CompareOp(*op, Box::new(va), Box::new(vb)))
            },
            Node::If { loc: _, cond, then_branch, else_branch } => self.visit_if(
                node,
                cond,
                then_branch,
                else_branch,
                scope,
                code,
            ),
            Node::Nop(_) => Ok(Value::Void),
            Node::While { loc: _, cond, body } => self.visit_while(
                node,
                cond,
                body,
                scope,
                code,
            ),
            Node::FuncDef { loc: _, name, args, body } => self.visit_fndef(
                node,
                name,
                args,
                body,
                scope,
                code,
            ),
            Node::Buf(_, size) => {
                let ghost prior_bufs = self.bufs;
                self.bufs.push(*size);
                let id = self.bufs.len() - 1;
                proof {
                    lemma_nats_of_push(prior_bufs.view(), *size);
                    assert(st_of(self, scope, code) =~= (LSt {
                        prog: ProgramV {
                            bufs: old(self).view().bufs.push(*size as nat),
                            ..old(self).view()
                        },
                        ..st_of(old(self), old(scope), old(code))
                    }));
                }
                Ok(Value::BufferRef(id))
            },
            Node::Return(_, value) => {
                let val = match self.visit(value, scope, code) {
                    Ok(v) => v,
                    Err(e) => {
                        return Err(e);
                    },
                };
                let ghost prior_code = *code;
                let ghost gval = val;
                code.push(Instruction::Return(val));
                proof {
                    lemma_deep_view_push(prior_code, *code, Instruction::Return(gval));
                    assert(st_of(self, scope, code) =~= (LSt {
                        code: prior_code.deep_view().push(InstrV::Return(value_view(gval))),
                        ..st_of(self, scope, &prior_code)
                    }));
                }
                Ok(Value::Void)
            },
            Node::PtrAccess(_, p) => {
                let vp = match self.visit(p, scope, code) {
                    Ok(v) => v,
                    Err(e) => {
                        return Err(e);
                    },
                };
                Ok(Value::PointerLoad(Box::new(vp)))
            },
            Node::PtrAssign(_, p, v) => {
                let ghost st0 = st_of(old(self), old(scope), old(code));
                let vp = match self.visit(p, scope, code) {
                    Ok(v) => v,
                    Err(e) => {
                        return Err(e);
                    },
                };
                proof {
                    lemma_lower_invariants(st0, *(*p));
                }
                let vv = match self.visit(v, scope, code) {
                    Ok(v) => v,
                    Err(e) => {
                        return Err(e);
                    },
                };
                let ghost prior_code = *code;
                let ghost gp = vp;
                let ghost gv = vv;
                code.push(Instruction::StoreThroughPointer(vp, vv));
                proof {
                    lemma_deep_view_push(
                        prior_code,
                        *code,
                        Instruction::StoreThroughPointer(gp, gv),
                    );
                    assert(st_of(self, scope, code) =~= (LSt {
                        code: prior_code.deep_view().push(
                            InstrV::StoreThroughPointer(value_view(gp), value_view(gv)),
                        ),
                        ..st_of(self, scope, &prior_code)
                    }));
                }
                Ok(Value::Void)
            },
            Node::VarAddr(loc, name) => {
                match vec_find_str(scope, name) {
                    Some(idx) => Ok(Value::VarAddress(idx)),
                    None => Err(
                        IRError {
                            loc: loc.clone(),
                            kind: IRErrorKind::UndeclaredVariable,
                            name: name.clone(),
                        },
                    ),
                }
            },
        }
    }

    /// Build a whole program from the top-level node: the top-level block
    /// becomes the entry function `_start`, with a `Prologue(0)` before it
    /// and an `Exit(0)` after it. This is exactly [`from_ast_spec`].
    pub fn from_ast(node: &Node) -> (r: Result<Program, IRError>)
        requires
            2 * node_size(*node) <= usize::MAX,
        ensures
            match r {
                Ok(p) => from_ast_spec(*node) == Ok::<ProgramV, IRErrorV>(p.view()),
                Err(e) => from_ast_spec(*node) == Err::<ProgramV, IRErrorV>(e.view()),
            },
    {
        let mut code: Vec<Instruction> = Vec::new();
        let mut vars: Vec<String> = Vec::new();
        let mut prog = Program {
            strings: Vec::new(),
            bufs: Vec::new(),
            label_count: 0,
            fns: Vec::new(),
            backpatch_stack: Vec::new(),
        };
        code.push(Instruction::Prologue(0));
        proof {
            assert(st_of(&prog, &vars, &code) =~~= (LSt {
                prog: ProgramV {
                    strings: Seq::empty(),
                    bufs: Seq::empty(),
                    label_count: 0,
                    fns: Seq::empty(),
                    stack: Seq::empty(),
                },
                scope: Seq::empty(),
                code: seq![InstrV::Prologue(0)],
            }));
        }
        match prog.visit(node, &mut vars, &mut code) {
            Ok(_) => {},
            Err(e) => {
                return Err(e);
            },
        }
        let ghost st1 = st_of(&prog, &vars, &code);
        let ghost prior_code = code;
        code.push(Instruction::Exit(0));
        proof {
            lemma_deep_view_push(prior_code, code, Instruction::Exit(0));
        }
        let f = FnDef { name: "_start".to_owned(), scope: vars, body: code };
        proof {
            assert(f.view() =~= (FnDefV {
                name: "_start".view(),
                scope: st1.scope,
                body: st1.code.push(InstrV::Exit(0)),
            }));
        }
        prog.register_fn(f);
        proof {
            assert(prog.view() =~= (ProgramV {
                fns: fns_upsert(
                    st1.prog.fns,
                    FnDefV {
                        name: "_start".view(),
                        scope: st1.scope,
                        body: st1.code.push(InstrV::Exit(0)),
                    },
                ),
                ..st1.prog
            }));
        }
        Ok(prog)
    }
}


} // verus!
