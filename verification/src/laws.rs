//! The laws the lowering pass obeys, stated and proved over its
//! specification functions in [`crate::ir`].

use vstd::prelude::*;

use crate::ir::add_label_spec;
use crate::ir::backpatch_spec;
use crate::ir::find_str;
use crate::ir::from_ast_spec;
use crate::ir::intern_spec;
use crate::ir::lemma_find_fn_spec;
use crate::ir::lemma_find_str_spec;
use crate::ir::lemma_lower_invariants;
use crate::ir::lower_args;
use crate::ir::lower_node;
use crate::ir::lower_stmts;
use crate::ir::fns_upsert;
use crate::ir::find_fn;
use crate::ir::patch_target;
use crate::ir::ProgramV;
use crate::ir::FnDefV;
use crate::ir::IRErrorV;
use crate::ir::InstrV;
use crate::ir::LSt;
use crate::ir::ValueV;
use crate::parser::Node;

verus! {

// ---------------------------------------------------------------------------
// Backpatch balance
// ---------------------------------------------------------------------------

/// Backpatch balance: lowering any single node leaves the backpatch stack
/// exactly as deep as it was before — every index an `If` or `While` pushes
/// is popped before that node's lowering completes.
pub proof fn lemma_backpatch_balance(st: LSt, node: Node)
    ensures
        match lower_node(st, node) {
            Ok((st1, _)) => st1.prog.stack == st.prog.stack,
            Err(_) => true,
        },
{
    lemma_lower_invariants(st, node);
}

// ---------------------------------------------------------------------------
// String interning
// ---------------------------------------------------------------------------

/// Interning the same string twice yields the same id, and the second
/// interning leaves the table untouched.
pub proof fn lemma_intern_idempotent(tbl: Seq<Seq<char>>, s: Seq<char>)
    ensures
        ({
            let (t1, i1) = intern_spec(tbl, s);
            let (t2, i2) = intern_spec(t1, s);
            t2 == t1 && i2 == i1
        }),
{
    lemma_find_str_spec(tbl, s);
    match find_str(tbl, s) {
        Some(_) => {},
        None => {
            let t1 = tbl.push(s);
            lemma_find_str_spec(t1, s);
            match find_str(t1, s) {
                None => {
                    assert(t1[tbl.len() as int] == s);
                },
                Some(k) => {
                    if (k as int) < tbl.len() {
                        assert(t1[k as int] == tbl[k as int]);
                    }
                },
            }
        },
    }
}

/// Two distinct strings never collapse to one id: interning one and then the
/// other yields different ids.
pub proof fn lemma_intern_distinct(tbl: Seq<Seq<char>>, s1: Seq<char>, s2: Seq<char>)
    requires
        s1 != s2,
    ensures
        ({
            let (t1, i1) = intern_spec(tbl, s1);
            let (t2, i2) = intern_spec(t1, s2);
            i1 != i2
        }),
{
    lemma_find_str_spec(tbl, s1);
    let (t1, i1) = intern_spec(tbl, s1);
    assert(t1[i1 as int] == s1);
    lemma_find_str_spec(t1, s2);
    let (t2, i2) = intern_spec(t1, s2);
    match find_str(t1, s2) {
        Some(_) => {
            assert(t1[i2 as int] == s2);
        },
        None => {
            assert(i2 == t1.len());
        },
    }
}

/// An id handed out for a string stays good: any later table that extends
/// the one the id came from still interns that string to the same id. Since
/// lowering only ever appends to the string table, the id of a literal is
/// the same wherever in the program it occurs.
pub proof fn lemma_intern_stable(t1: Seq<Seq<char>>, t2: Seq<Seq<char>>, s: Seq<char>)
    requires
        t1.len() <= t2.len(),
        t2.subrange(0, t1.len() as int) == t1,
        find_str(t1, s) is Some,
    ensures
        intern_spec(t2, s) == (t2, find_str(t1, s)->Some_0),
{
    lemma_find_str_spec(t1, s);
    lemma_find_str_spec(t2, s);
    let i = find_str(t1, s)->Some_0;
    assert(t2.subrange(0, t1.len() as int)[i as int] == t1[i as int]);
    assert(t2[i as int] == s);
    assert forall|j: int| 0 <= j < i implies t2[j] != s by {
        assert(t2.subrange(0, t1.len() as int)[j] == t1[j]);
    }
    match find_str(t2, s) {
        None => {
            assert(false);
        },
        Some(k) => {
            if (k as int) < i {
                assert(t2[k as int] != s);
            }
            if (k as int) > i {
                assert(t2[i as int] != s);
            }
        },
    }
}

// ---------------------------------------------------------------------------
// Call lowering order
// ---------------------------------------------------------------------------

/// Call lowering order: for a call `f(a, b)`, the operand for `a` is fully
/// lowered first — every effect it has on the state (interned strings,
/// buffer ids, labels, emitted instructions) happens first — and `b`'s
/// lowering starts from exactly the state `a` left behind.
pub proof fn lemma_call_lowering_order(st: LSt, a: Node, b: Node)
    ensures
        lower_args(st, seq![a, b]) == (match lower_node(st, a) {
            Err(e) => Err::<(LSt, Seq<ValueV>), IRErrorV>(e),
            Ok((st_a, va)) => match lower_node(st_a, b) {
                Err(e) => Err::<(LSt, Seq<ValueV>), IRErrorV>(e),
                Ok((st_b, vb)) => Ok::<(LSt, Seq<ValueV>), IRErrorV>((st_b, seq![va, vb])),
            },
        }),
{
    let args = seq![a, b];
    assert(args[0] == a);
    assert(args.drop_first() =~= seq![b]);
    assert(seq![b][0] == b);
    assert(seq![b].drop_first() =~= Seq::<Node>::empty());
    match lower_node(st, a) {
        Err(e) => {
            assert(lower_args(st, args) == Err::<(LSt, Seq<ValueV>), IRErrorV>(e));
        },
        Ok((st_a, va)) => {
            match lower_node(st_a, b) {
                Err(e) => {
                    assert(lower_args(st_a, seq![b]) == Err::<(LSt, Seq<ValueV>), IRErrorV>(e));
                    assert(lower_args(st, args) == Err::<(LSt, Seq<ValueV>), IRErrorV>(e));
                },
                Ok((st_b, vb)) => {
                    assert(lower_args(st_b, Seq::<Node>::empty())
                        == Ok::<(LSt, Seq<ValueV>), IRErrorV>((st_b, Seq::<ValueV>::empty())));
                    assert(lower_args(st_a, seq![b]) == Ok::<(LSt, Seq<ValueV>), IRErrorV>((
                        st_b,
                        seq![vb] + Seq::<ValueV>::empty(),
                    )));
                    assert(lower_args(st, args) == Ok::<(LSt, Seq<ValueV>), IRErrorV>((
                        st_b,
                        seq![va] + (seq![vb] + Seq::<ValueV>::empty()),
                    )));
                    assert(seq![va] + (seq![vb] + Seq::<ValueV>::empty()) =~= seq![va, vb]);
                },
            }
        },
    }
}

// ---------------------------------------------------------------------------
// Jump resolution completeness
// ---------------------------------------------------------------------------

/// Is this instruction a jump?
pub open spec fn is_jump(i: InstrV) -> bool {
    i is Jump || i is JumpIfZero
}

/// The label a jump targets.
pub open spec fn jump_target(i: InstrV) -> nat {
    match i {
        InstrV::Jump(t) => t,
        InstrV::JumpIfZero(_, t) => t,
        _ => 0,
    }
}

/// Label `l` is materialized somewhere in this instruction list.
pub open spec fn label_in(code: Seq<InstrV>, l: nat) -> bool {
    exists|k: int| 0 <= k < code.len() && code[k] == InstrV::Label(l)
}

/// Every jump in this instruction list targets a label that exists in it.
pub open spec fn fn_resolved(code: Seq<InstrV>) -> bool {
    forall|j: int| 0 <= j < code.len() && is_jump(code[j]) ==> label_in(code, jump_target(code[j]))
}

/// Every registered function body is fully resolved.
pub open spec fn fns_resolved(fns: Seq<FnDefV>) -> bool {
    forall|f: int| 0 <= f < fns.len() ==> fn_resolved(#[trigger] fns[f].body)
}

/// The pending indices all point at jumps inside the instruction list.
pub open spec fn pending_ok(code: Seq<InstrV>, pending: Seq<nat>) -> bool {
    forall|k: int| 0 <= k < pending.len() ==> #[trigger] pending[k] < code.len() && is_jump(
        code[pending[k] as int],
    )
}

/// Every jump is resolved, except those whose index is still pending.
pub open spec fn resolved_except(code: Seq<InstrV>, pending: Seq<nat>) -> bool {
    forall|j: int|
        0 <= j < code.len() && is_jump(#[trigger] code[j]) && !pending.contains(j as nat)
            ==> label_in(code, jump_target(code[j]))
}

proof fn lemma_contains_push(p: Seq<nat>, x: nat, y: nat)
    ensures
        p.push(x).contains(y) <==> (p.contains(y) || y == x),
{
    if p.push(x).contains(y) {
        let k = choose|k: int| 0 <= k < p.push(x).len() && p.push(x)[k] == y;
        if k < p.len() {
            assert(p[k] == y);
        }
    }
    if p.contains(y) {
        let k = choose|k: int| 0 <= k < p.len() && p[k] == y;
        assert(p.push(x)[k] == y);
    }
    if y == x {
        assert(p.push(x)[p.len() as int] == y);
    }
}

proof fn lemma_label_in_push(code: Seq<InstrV>, x: InstrV, l: nat)
    requires
        label_in(code, l),
    ensures
        label_in(code.push(x), l),
{
    let k = choose|k: int| 0 <= k < code.len() && code[k] == InstrV::Label(l);
    assert(code.push(x)[k] == InstrV::Label(l));
}

proof fn lemma_label_in_prefix(c1: Seq<InstrV>, c2: Seq<InstrV>, l: nat)
    requires
        c1.len() <= c2.len(),
        c2.subrange(0, c1.len() as int) == c1,
        label_in(c1, l),
    ensures
        label_in(c2, l),
{
    let k = choose|k: int| 0 <= k < c1.len() && c1[k] == InstrV::Label(l);
    assert(c2.subrange(0, c1.len() as int)[k] == c1[k]);
    assert(c2[k] == InstrV::Label(l));
}

proof fn lemma_resolved_push_nonjump(code: Seq<InstrV>, pending: Seq<nat>, x: InstrV)
    requires
        !is_jump(x),
        pending_ok(code, pending),
        resolved_except(code, pending),
    ensures
        pending_ok(code.push(x), pending),
        resolved_except(code.push(x), pending),
{
    let code2 = code.push(x);
    assert forall|j: int|
        0 <= j < code2.len() && is_jump(#[trigger] code2[j]) && !pending.contains(
            j as nat,
        ) implies label_in(code2, jump_target(code2[j])) by {
        if j < code.len() {
            assert(code2[j] == code[j]);
            lemma_label_in_push(code, x, jump_target(code[j]));
        } else {
            assert(code2[j] == x);
        }
    }
    assert forall|k: int| 0 <= k < pending.len() implies #[trigger] pending[k] < code2.len()
        && is_jump(code2[pending[k] as int]) by {
        assert(code2[pending[k] as int] == code[pending[k] as int]);
    }
}

proof fn lemma_resolved_push_jump_pending(code: Seq<InstrV>, pending: Seq<nat>, x: InstrV)
    requires
        is_jump(x),
        pending_ok(code, pending),
        resolved_except(code, pending),
    ensures
        pending_ok(code.push(x), pending.push(code.len() as nat)),
        resolved_except(code.push(x), pending.push(code.len() as nat)),
{
    let code2 = code.push(x);
    let pend2 = pending.push(code.len() as nat);
    assert forall|j: int|
        0 <= j < code2.len() && is_jump(#[trigger] code2[j]) && !pend2.contains(
            j as nat,
        ) implies label_in(code2, jump_target(code2[j])) by {
        lemma_contains_push(pending, code.len() as nat, j as nat);
        if j < code.len() {
            assert(code2[j] == code[j]);
            lemma_label_in_push(code, x, jump_target(code[j]));
        } else {
            assert(pend2.contains(j as nat));
        }
    }
    assert forall|k: int| 0 <= k < pend2.len() implies #[trigger] pend2[k] < code2.len()
        && is_jump(code2[pend2[k] as int]) by {
        if k < pending.len() {
            assert(pend2[k] == pending[k]);
            assert(code2[pending[k] as int] == code[pending[k] as int]);
        } else {
            assert(pend2[k] == code.len() as nat);
            assert(code2[code.len() as int] == x);
        }
    }
}

proof fn lemma_resolved_push_jump_resolved(code: Seq<InstrV>, pending: Seq<nat>, x: InstrV)
    requires
        is_jump(x),
        label_in(code, jump_target(x)),
        pending_ok(code, pending),
        resolved_except(code, pending),
    ensures
        pending_ok(code.push(x), pending),
        resolved_except(code.push(x), pending),
{
    let code2 = code.push(x);
    assert forall|j: int|
        0 <= j < code2.len() && is_jump(#[trigger] code2[j]) && !pending.contains(
            j as nat,
        ) implies label_in(code2, jump_target(code2[j])) by {
        if j < code.len() {
            assert(code2[j] == code[j]);
            lemma_label_in_push(code, x, jump_target(code[j]));
        } else {
            assert(code2[j] == x);
            lemma_label_in_push(code, x, jump_target(x));
        }
    }
    assert forall|k: int| 0 <= k < pending.len() implies #[trigger] pending[k] < code2.len()
        && is_jump(code2[pending[k] as int]) by {
        assert(code2[pending[k] as int] == code[pending[k] as int]);
    }
}

proof fn lemma_except_same_set(code: Seq<InstrV>, p1: Seq<nat>, p2: Seq<nat>)
    requires
        forall|x: nat| p1.contains(x) <==> p2.contains(x),
        pending_ok(code, p1),
        resolved_except(code, p1),
    ensures
        pending_ok(code, p2),
        resolved_except(code, p2),
{
    assert forall|k: int| 0 <= k < p2.len() implies #[trigger] p2[k] < code.len() && is_jump(
        code[p2[k] as int],
    ) by {
        assert(p2.contains(p2[k]));
        assert(p1.contains(p2[k]));
        let k1 = choose|k1: int| 0 <= k1 < p1.len() && p1[k1] == p2[k];
        assert(p1[k1] < code.len() && is_jump(code[p1[k1] as int]));
    }
}

proof fn lemma_resolved_patch(code: Seq<InstrV>, pending: Seq<nat>, i: nat, l: nat)
    requires
        pending_ok(code, pending.push(i)),
        resolved_except(code, pending.push(i)),
        !pending.contains(i),
        i < code.len(),
        is_jump(code[i as int]),
    ensures
        ({
            let mid = code.push(InstrV::Label(l));
            let code2 = mid.update(i as int, patch_target(mid[i as int], l));
            pending_ok(code2, pending) && resolved_except(code2, pending)
        }),
{
    let mid = code.push(InstrV::Label(l));
    let code2 = mid.update(i as int, patch_target(mid[i as int], l));
    assert(mid[i as int] == code[i as int]);
    assert(code2[code.len() as int] == InstrV::Label(l));
    assert(label_in(code2, l));
    assert(is_jump(code2[i as int]) && jump_target(code2[i as int]) == l);
    assert forall|j: int|
        0 <= j < code2.len() && is_jump(#[trigger] code2[j]) && !pending.contains(
            j as nat,
        ) implies label_in(code2, jump_target(code2[j])) by {
        if j == i {
        } else if j < code.len() {
            assert(code2[j] == code[j]);
            lemma_contains_push(pending, i, j as nat);
            assert(!pending.push(i).contains(j as nat));
            assert(label_in(code, jump_target(code[j])));
            let k = choose|k: int|
                0 <= k < code.len() && code[k] == InstrV::Label(jump_target(code[j]));
            assert(k != i);
            assert(code2[k] == InstrV::Label(jump_target(code[j])));
        } else {
            assert(code2[j] == InstrV::Label(l));
        }
    }
    assert forall|k: int| 0 <= k < pending.len() implies #[trigger] pending[k] < code2.len()
        && is_jump(code2[pending[k] as int]) by {
        assert(pending.push(i)[k] == pending[k]);
        assert(pending[k] < code.len() && is_jump(code[pending[k] as int]));
        assert(pending.contains(pending[k]));
        assert(pending[k] != i);
        assert(code2[pending[k] as int] == code[pending[k] as int]);
    }
}


/// Lowering preserves jump resolution: every jump in the current list is
/// resolved unless its index is still on the backpatch stack (above `base`,
/// the portion belonging to the list), and every registered function body
/// stays fully resolved.
#[verifier::rlimit(100)]
pub proof fn lemma_lower_resolved(st: LSt, node: Node, base: int)
    requires
        0 <= base <= st.prog.stack.len(),
        pending_ok(st.code, st.prog.stack.skip(base)),
        resolved_except(st.code, st.prog.stack.skip(base)),
        fns_resolved(st.prog.fns),
    ensures
        match lower_node(st, node) {
            Ok((st1, _)) => {
                &&& pending_ok(st1.code, st1.prog.stack.skip(base))
                &&& resolved_except(st1.code, st1.prog.stack.skip(base))
                &&& fns_resolved(st1.prog.fns)
            },
            Err(_) => true,
        },
    decreases node,
{
    broadcast use vstd::seq_lib::group_seq_lib_default;

    let pend = st.prog.stack.skip(base);
    match node {
        Node::FuncCall(_, _, args) => {
            lemma_lower_resolved_args(st, args.view(), base);
        },
        Node::StrLit(_, _) => {},
        Node::Block(_, nodes) => {
            lemma_lower_resolved_stmts(st, nodes.view(), base);
        },
        Node::VarDecl(_, name, init) => {
            if find_str(st.scope, name.view()) is None {
                lemma_lower_resolved(st, *init, base);
                lemma_lower_invariants(st, *init);
                match lower_node(st, *init) {
                    Ok((st1, v)) => {
                        lemma_resolved_push_nonjump(
                            st1.code,
                            st1.prog.stack.skip(base),
                            InstrV::AssignVar(st1.scope.len(), v),
                        );
                    },
                    Err(_) => {},
                }
            }
        },
        Node::VarAccess(_, _) => {},
        Node::VarAssign(_, name, value) => {
            match find_str(st.scope, name.view()) {
                Some(slot) => {
                    lemma_lower_resolved(st, *value, base);
                    lemma_lower_invariants(st, *value);
                    match lower_node(st, *value) {
                        Ok((st1, v)) => {
                            lemma_resolved_push_nonjump(
                                st1.code,
                                st1.prog.stack.skip(base),
                                InstrV::AssignVar(slot, v),
                            );
                        },
                        Err(_) => {},
                    }
                },
                None => {},
            }
        },
        Node::Int(_, _) => {},
        Node::BinOp(_, _, a, b) => {
            lemma_lower_resolved(st, *a, base);
            lemma_lower_invariants(st, *a);
            match lower_node(st, *a) {
                Ok((st1, _)) => {
                    lemma_lower_resolved(st1, *b, base);
                },
                Err(_) => {},
            }
        },
        Node::CmpOp(_, _, a, b) => {
            lemma_lower_resolved(st, *a, base);
            lemma_lower_invariants(st, *a);
            match lower_node(st, *a) {
                Ok((st1, _)) => {
                    lemma_lower_resolved(st1, *b, base);
                },
                Err(_) => {},
            }
        },
        Node::If { loc: _, cond, then_branch, else_branch } => {
            lemma_lower_resolved(st, *cond, base);
            lemma_lower_invariants(st, *cond);
            match lower_node(st, *cond) {
                Err(_) => {},
                Ok((st1, vc)) => {
                    let i0 = st1.code.len();
                    let st2 = LSt {
                        prog: ProgramV { stack: st1.prog.stack.push(i0), ..st1.prog },
                        code: st1.code.push(InstrV::JumpIfZero(vc, 0)),
                        ..st1
                    };
                    assert(st2.prog.stack.skip(base) =~= st1.prog.stack.skip(base).push(i0));
                    lemma_resolved_push_jump_pending(
                        st1.code,
                        st1.prog.stack.skip(base),
                        InstrV::JumpIfZero(vc, 0),
                    );
                    lemma_lower_resolved(st2, *then_branch, base);
                    lemma_lower_invariants(st2, *then_branch);
                    match lower_node(st2, *then_branch) {
                        Err(_) => {},
                        Ok((st3, _)) => {
                            let st4 = LSt {
                                prog: ProgramV { stack: st3.prog.stack.drop_last(), ..st3.prog },
                                ..st3
                            };
                            assert(st3.prog.stack.skip(base) =~= pend.push(i0));
                            assert(st4.prog.stack.skip(base) =~= pend);
                            // the entry pending indices are all below `i0`
                            assert forall|x: nat| pend.contains(x) implies x < i0 by {
                                let k = choose|k: int| 0 <= k < pend.len() && pend[k] == x;
                                assert(pend[k] < st.code.len());
                            }
                            assert(!pend.contains(i0));
                            assert(is_jump(st3.code[i0 as int])) by {
                                assert(st3.code.subrange(0, st2.code.len() as int)[i0 as int]
                                    == st3.code[i0 as int]);
                                assert(st2.code[i0 as int] == InstrV::JumpIfZero(vc, 0));
                            }
                            if else_branch is None {
                                lemma_resolved_patch(
                                    st3.code,
                                    pend,
                                    i0,
                                    st3.prog.label_count,
                                );
                            } else {
                                let j0 = st4.code.len();
                                lemma_resolved_push_jump_pending(
                                    st4.code,
                                    pend.push(i0),
                                    InstrV::Jump(0),
                                );
                                let st5 = LSt {
                                    prog: ProgramV {
                                        stack: st4.prog.stack.push(j0),
                                        ..st4.prog
                                    },
                                    code: st4.code.push(InstrV::Jump(0)),
                                    ..st4
                                };
                                assert(st5.prog.stack.skip(base) =~= pend.push(j0));
                                assert forall|x: nat|
                                    pend.push(i0).push(j0).contains(x) <==> pend.push(j0).push(
                                        i0,
                                    ).contains(x) by {
                                    lemma_contains_push(pend.push(i0), j0, x);
                                    lemma_contains_push(pend, i0, x);
                                    lemma_contains_push(pend.push(j0), i0, x);
                                    lemma_contains_push(pend, j0, x);
                                }
                                lemma_except_same_set(
                                    st5.code,
                                    pend.push(i0).push(j0),
                                    pend.push(j0).push(i0),
                                );
                                lemma_contains_push(pend, j0, i0);
                                assert(i0 < st2.code.len() <= st4.code.len());
                                assert(!pend.push(j0).contains(i0));
                                lemma_resolved_patch(
                                    st5.code,
                                    pend.push(j0),
                                    i0,
                                    st5.prog.label_count,
                                );
                                let (st6, label) = add_label_spec(st5);
                                let st7 = LSt {
                                    code: st6.code.update(
                                        i0 as int,
                                        patch_target(st6.code[i0 as int], label),
                                    ),
                                    ..st6
                                };
                                assert(st7.prog.stack.skip(base) =~= pend.push(j0));
                                lemma_lower_resolved(st7, *else_branch->0, base);
                                lemma_lower_invariants(st7, *else_branch->0);
                                match lower_node(st7, *else_branch->0) {
                                    Err(_) => {},
                                    Ok((st8, _)) => {
                                        assert(st8.prog.stack.skip(base) =~= pend.push(j0));
                                        assert(st8.prog.stack.last() == j0) by {
                                            assert(st8.prog.stack == st7.prog.stack);
                                        }
                                        assert(is_jump(st8.code[j0 as int])) by {
                                            assert(st5.code[j0 as int] == InstrV::Jump(0));
                                            assert(st6.code[j0 as int] == InstrV::Jump(0));
                                            assert(i0 != j0);
                                            assert(st7.code[j0 as int] == InstrV::Jump(0));
                                            assert(st8.code.subrange(
                                                0,
                                                st7.code.len() as int,
                                            )[j0 as int] == st8.code[j0 as int]);
                                        }
                                        assert(!pend.contains(j0)) by {
                                            assert forall|x: nat| pend.contains(x) implies x
                                                < j0 by {
                                                let k = choose|k: int|
                                                    0 <= k < pend.len() && pend[k] == x;
                                                assert(pend[k] < st.code.len());
                                            }
                                        }
                                        lemma_resolved_patch(
                                            st8.code,
                                            pend,
                                            j0,
                                            st8.prog.label_count,
                                        );
                                        assert(backpatch_spec(st8).prog.stack.skip(base)
                                            =~= pend);
                                    },
                                }
                            }
                        },
                    }
                },
            }
        },
        Node::Nop(_) => {},
        Node::While { loc: _, cond, body } => {
            let (st1, start_label) = add_label_spec(st);
            lemma_resolved_push_nonjump(st.code, pend, InstrV::Label(start_label));
            assert(label_in(st1.code, start_label)) by {
                assert(st1.code[st.code.len() as int] == InstrV::Label(start_label));
            }
            lemma_lower_resolved(st1, *cond, base);
            lemma_lower_invariants(st1, *cond);
            match lower_node(st1, *cond) {
                Err(_) => {},
                Ok((st2, vc)) => {
                    let i0 = st2.code.len();
                    lemma_label_in_prefix(st1.code, st2.code, start_label);
                    lemma_resolved_push_jump_pending(
                        st2.code,
                        pend,
                        InstrV::JumpIfZero(vc, 0),
                    );
                    let st3 = LSt {
                        prog: ProgramV { stack: st2.prog.stack.push(i0), ..st2.prog },
                        code: st2.code.push(InstrV::JumpIfZero(vc, 0)),
                        ..st2
                    };
                    assert(st3.prog.stack.skip(base) =~= pend.push(i0));
                    lemma_label_in_push(st2.code, InstrV::JumpIfZero(vc, 0), start_label);
                    lemma_lower_resolved(st3, *body, base);
                    lemma_lower_invariants(st3, *body);
                    match lower_node(st3, *body) {
                        Err(_) => {},
                        Ok((st4, _)) => {
                            assert(st4.prog.stack.skip(base) =~= pend.push(i0));
                            lemma_label_in_prefix(st3.code, st4.code, start_label);
                            lemma_resolved_push_jump_resolved(
                                st4.code,
                                pend.push(i0),
                                InstrV::Jump(start_label),
                            );
                            let st5 = LSt {
                                code: st4.code.push(InstrV::Jump(start_label)),
                                ..st4
                            };
                            assert(st5.prog.stack.skip(base) =~= pend.push(i0));
                            assert(st5.prog.stack.last() == i0) by {
                                assert(st5.prog.stack == st2.prog.stack.push(i0));
                            }
                            assert(is_jump(st5.code[i0 as int])) by {
                                assert(st3.code[i0 as int] == InstrV::JumpIfZero(vc, 0));
                                assert(st4.code.subrange(0, st3.code.len() as int)[i0 as int]
                                    == st4.code[i0 as int]);
                                assert(st5.code[i0 as int] == st4.code[i0 as int]);
                            }
                            assert(!pend.contains(i0)) by {
                                assert forall|x: nat| pend.contains(x) implies x < i0 by {
                                    let k = choose|k: int| 0 <= k < pend.len() && pend[k] == x;
                                    assert(pend[k] < st.code.len());
                                }
                            }
                            lemma_resolved_patch(st5.code, pend, i0, st5.prog.label_count);
                            assert(backpatch_spec(st5).prog.stack.skip(base) =~= pend);
                        },
                    }
                },
            }
        },
        Node::FuncDef { loc: _, name, args, body } => {
            let inner = LSt {
                prog: st.prog,
                scope: args.deep_view(),
                code: seq![InstrV::Prologue(args.view().len())],
            };
            let base2 = st.prog.stack.len() as int;
            assert(inner.prog.stack.skip(base2) =~= Seq::<nat>::empty());
            assert(pending_ok(inner.code, inner.prog.stack.skip(base2)));
            assert(resolved_except(inner.code, inner.prog.stack.skip(base2))) by {
                assert(!is_jump(inner.code[0]));
            }
            lemma_lower_resolved(inner, *body, base2);
            lemma_lower_invariants(inner, *body);
            match lower_node(inner, *body) {
                Err(_) => {},
                Ok((st1, _)) => {
                    assert(st1.prog.stack.skip(base2) =~= Seq::<nat>::empty());
                    lemma_resolved_push_nonjump(
                        st1.code,
                        Seq::<nat>::empty(),
                        InstrV::Return(ValueV::Void),
                    );
                    let fbody = st1.code.push(InstrV::Return(ValueV::Void));
                    assert(fn_resolved(fbody)) by {
                        assert forall|j: int|
                            0 <= j < fbody.len() && is_jump(#[trigger] fbody[j]) implies label_in(
                            fbody,
                            jump_target(fbody[j]),
                        ) by {
                            assert(!Seq::<nat>::empty().contains(j as nat));
                        }
                    }
                    let f = FnDefV {
                        name: name.view(),
                        scope: st1.scope,
                        body: fbody,
                    };
                    lemma_fns_upsert_resolved(st1.prog.fns, f);
                    assert(st1.prog.stack.skip(base) =~= pend);
                },
            }
        },
        Node::Buf(_, _) => {},
        Node::Return(_, value) => {
            lemma_lower_resolved(st, *value, base);
            lemma_lower_invariants(st, *value);
            match lower_node(st, *value) {
                Ok((st1, v)) => {
                    lemma_resolved_push_nonjump(
                        st1.code,
                        st1.prog.stack.skip(base),
                        InstrV::Return(v),
                    );
                },
                Err(_) => {},
            }
        },
        Node::PtrAccess(_, p) => {
            lemma_lower_resolved(st, *p, base);
        },
        Node::PtrAssign(_, p, v) => {
            lemma_lower_resolved(st, *p, base);
            lemma_lower_invariants(st, *p);
            match lower_node(st, *p) {
                Ok((st1, vp)) => {
                    lemma_lower_resolved(st1, *v, base);
                    lemma_lower_invariants(st1, *v);
                    match lower_node(st1, *v) {
                        Ok((st2, vv)) => {
                            lemma_resolved_push_nonjump(
                                st2.code,
                                st2.prog.stack.skip(base),
                                InstrV::StoreThroughPointer(vp, vv),
                            );
                        },
                        Err(_) => {},
                    }
                },
                Err(_) => {},
            }
        },
        Node::VarAddr(_, _) => {},
    }
}

/// [`lemma_lower_resolved`], for an argument list.
pub proof fn lemma_lower_resolved_args(st: LSt, args: Seq<Node>, base: int)
    requires
        0 <= base <= st.prog.stack.len(),
        pending_ok(st.code, st.prog.stack.skip(base)),
        resolved_except(st.code, st.prog.stack.skip(base)),
        fns_resolved(st.prog.fns),
    ensures
        match lower_args(st, args) {
            Ok((st1, _)) => {
                &&& pending_ok(st1.code, st1.prog.stack.skip(base))
                &&& resolved_except(st1.code, st1.prog.stack.skip(base))
                &&& fns_resolved(st1.prog.fns)
            },
            Err(_) => true,
        },
    decreases args,
{
    if args.len() != 0 {
        lemma_lower_resolved(st, args[0], base);
        lemma_lower_invariants(st, args[0]);
        match lower_node(st, args[0]) {
            Err(_) => {},
            Ok((st1, _)) => {
                lemma_lower_resolved_args(st1, args.drop_first(), base);
            },
        }
    }
}

/// [`lemma_lower_resolved`], for the statements of a block.
pub proof fn lemma_lower_resolved_stmts(st: LSt, nodes: Seq<Node>, base: int)
    requires
        0 <= base <= st.prog.stack.len(),
        pending_ok(st.code, st.prog.stack.skip(base)),
        resolved_except(st.code, st.prog.stack.skip(base)),
        fns_resolved(st.prog.fns),
    ensures
        match lower_stmts(st, nodes) {
            Ok(st1) => {
                &&& pending_ok(st1.code, st1.prog.stack.skip(base))
                &&& resolved_except(st1.code, st1.prog.stack.skip(base))
                &&& fns_resolved(st1.prog.fns)
            },
            Err(_) => true,
        },
    decreases nodes,
{
    if nodes.len() != 0 {
        lemma_lower_resolved(st, nodes[0], base);
        lemma_lower_invariants(st, nodes[0]);
        match lower_node(st, nodes[0]) {
            Err(_) => {},
            Ok((st1, v)) => {
                let st2 = if v == ValueV::Void {
                    st1
                } else {
                    let c2 = st1.code.push(InstrV::EvaluateForEffect(v));
                    lemma_resolved_push_nonjump(
                        st1.code,
                        st1.prog.stack.skip(base),
                        InstrV::EvaluateForEffect(v),
                    );
                    LSt { code: c2, ..st1 }
                };
                lemma_lower_resolved_stmts(st2, nodes.drop_first(), base);
            },
        }
    }
}

proof fn lemma_fns_upsert_resolved(fns: Seq<FnDefV>, f: FnDefV)
    requires
        fns_resolved(fns),
        fn_resolved(f.body),
    ensures
        fns_resolved(fns_upsert(fns, f)),
{
    lemma_find_fn_spec(fns, f.name);
    let out = fns_upsert(fns, f);
    match find_fn(fns, f.name) {
        Some(i) => {
            assert forall|k: int| 0 <= k < out.len() implies fn_resolved(
                #[trigger] out[k].body,
            ) by {
                if k != i {
                    assert(out[k] == fns[k]);
                }
            }
        },
        None => {
            assert forall|k: int| 0 <= k < out.len() implies fn_resolved(
                #[trigger] out[k].body,
            ) by {
                if k < fns.len() {
                    assert(out[k] == fns[k]);
                }
            }
        },
    }
}

/// Jump resolution completeness: once lowering a whole program succeeds,
/// every `Jump` and `JumpIfZero` in every function body targets a label that
/// exists in that same body, and no backpatch entry is left over.
pub proof fn lemma_jump_resolution(node: Node)
    ensures
        match from_ast_spec(node) {
            Ok(p) => fns_resolved(p.fns) && p.stack == Seq::<nat>::empty(),
            Err(_) => true,
        },
{
    let st0 = LSt {
        prog: ProgramV {
            strings: Seq::empty(),
            bufs: Seq::empty(),
            label_count: 0,
            fns: Seq::empty(),
            stack: Seq::empty(),
        },
        scope: Seq::empty(),
        code: seq![InstrV::Prologue(0)],
    };
    assert(st0.prog.stack.skip(0) =~= Seq::<nat>::empty());
    assert(resolved_except(st0.code, st0.prog.stack.skip(0))) by {
        assert(!is_jump(st0.code[0]));
    }
    lemma_lower_resolved(st0, node, 0);
    lemma_lower_invariants(st0, node);
    match lower_node(st0, node) {
        Err(_) => {},
        Ok((st1, _)) => {
            assert(st1.prog.stack.skip(0) =~= Seq::<nat>::empty());
            lemma_resolved_push_nonjump(st1.code, Seq::<nat>::empty(), InstrV::Exit(0));
            let fbody = st1.code.push(InstrV::Exit(0));
            assert(fn_resolved(fbody)) by {
                assert forall|j: int|
                    0 <= j < fbody.len() && is_jump(#[trigger] fbody[j]) implies label_in(
                    fbody,
                    jump_target(fbody[j]),
                ) by {
                    assert(!Seq::<nat>::empty().contains(j as nat));
                }
            }
            lemma_fns_upsert_resolved(
                st1.prog.fns,
                FnDefV { name: "_start".view(), scope: st1.scope, body: fbody },
            );
            assert(st1.prog.stack =~= Seq::<nat>::empty());
        },
    }
}


// ---------------------------------------------------------------------------
// Slot density
// ---------------------------------------------------------------------------

/// No two names in a scope are equal.
pub open spec fn distinct_names(s: Seq<Seq<char>>) -> bool {
    forall|i: int, j: int| 0 <= i < j < s.len() ==> s[i] != s[j]
}

/// Every `AssignVar` in this instruction list stores to one of the `k`
/// slots of the scope it belongs to.
pub open spec fn slots_in_range(code: Seq<InstrV>, k: nat) -> bool {
    forall|j: int|
        0 <= j < code.len() ==> (#[trigger] code[j] matches InstrV::AssignVar(slot, _) ==> slot
            < k)
}

/// Every registered function stores only to its own slots.
pub open spec fn fns_slots_ok(fns: Seq<FnDefV>) -> bool {
    forall|f: int|
        0 <= f < fns.len() ==> slots_in_range(#[trigger] fns[f].body, fns[f].scope.len())
}

/// Every registered function's scope has pairwise-distinct names.
pub open spec fn fns_scopes_distinct(fns: Seq<FnDefV>) -> bool {
    forall|f: int| 0 <= f < fns.len() ==> distinct_names(#[trigger] fns[f].scope)
}

/// The node is well-placed as a statement: declarations and definitions
/// stand only in statement position, never inside an expression, and every
/// function definition has pairwise-distinct parameter names. The parser
/// only ever produces such trees.
pub open spec fn wf_stmt(node: Node) -> bool
    decreases node,
{
    match node {
        Node::VarDecl(_, _, init) => wf_expr(*init),
        Node::VarAssign(_, _, v) => wf_expr(*v),
        Node::Block(_, nodes) => wf_stmts(nodes.view()),
        Node::If { loc: _, cond, then_branch, else_branch } => wf_expr(*cond) && wf_stmt(
            *then_branch,
        ) && (match else_branch {
            Some(e) => wf_stmt(*e),
            None => true,
        }),
        Node::While { loc: _, cond, body } => wf_expr(*cond) && wf_stmt(*body),
        Node::FuncDef { loc: _, name: _, args, body } => distinct_names(args.deep_view())
            && wf_stmt(*body),
        Node::PtrAssign(_, p, v) => wf_expr(*p) && wf_expr(*v),
        Node::Return(_, v) => wf_expr(*v),
        _ => wf_expr(node),
    }
}

/// All of these nodes are well-placed statements.
pub open spec fn wf_stmts(nodes: Seq<Node>) -> bool
    decreases nodes,
{
    if nodes.len() == 0 {
        true
    } else {
        wf_stmt(nodes[0]) && wf_stmts(nodes.drop_first())
    }
}

/// The node is a pure expression: no declaration, block, definition or
/// statement form anywhere inside it.
pub open spec fn wf_expr(node: Node) -> bool
    decreases node,
{
    match node {
        Node::FuncCall(_, _, args) => wf_exprs(args.view()),
        Node::StrLit(_, _) => true,
        Node::VarAccess(_, _) => true,
        Node::Int(_, _) => true,
        Node::BinOp(_, _, a, b) => wf_expr(*a) && wf_expr(*b),
        Node::CmpOp(_, _, a, b) => wf_expr(*a) && wf_expr(*b),
        Node::Buf(_, _) => true,
        Node::PtrAccess(_, p) => wf_expr(*p),
        Node::VarAddr(_, _) => true,
        Node::Nop(_) => true,
        _ => false,
    }
}

/// All of these nodes are pure expressions.
pub open spec fn wf_exprs(nodes: Seq<Node>) -> bool
    decreases nodes,
{
    if nodes.len() == 0 {
        true
    } else {
        wf_expr(nodes[0]) && wf_exprs(nodes.drop_first())
    }
}

/// Lowering a pure expression touches neither the scope nor the function
/// table: it can only intern strings, allocate buffers, and build a value.
proof fn lemma_expr_keeps_scope(st: LSt, node: Node)
    requires
        wf_expr(node),
    ensures
        match lower_node(st, node) {
            Ok((st1, _)) => st1.scope == st.scope && st1.prog.fns == st.prog.fns && st1.code
                == st.code,
            Err(_) => true,
        },
    decreases node,
{
    match node {
        Node::FuncCall(_, _, args) => {
            lemma_exprs_keep_scope(st, args.view());
        },
        Node::BinOp(_, _, a, b) => {
            lemma_expr_keeps_scope(st, *a);
            match lower_node(st, *a) {
                Ok((st1, _)) => {
                    lemma_expr_keeps_scope(st1, *b);
                },
                Err(_) => {},
            }
        },
        Node::CmpOp(_, _, a, b) => {
            lemma_expr_keeps_scope(st, *a);
            match lower_node(st, *a) {
                Ok((st1, _)) => {
                    lemma_expr_keeps_scope(st1, *b);
                },
                Err(_) => {},
            }
        },
        Node::PtrAccess(_, p) => {
            lemma_expr_keeps_scope(st, *p);
        },
        _ => {},
    }
}

/// [`lemma_expr_keeps_scope`], for an argument list.
proof fn lemma_exprs_keep_scope(st: LSt, args: Seq<Node>)
    requires
        wf_exprs(args),
    ensures
        match lower_args(st, args) {
            Ok((st1, _)) => st1.scope == st.scope && st1.prog.fns == st.prog.fns && st1.code
                == st.code,
            Err(_) => true,
        },
    decreases args,
{
    if args.len() != 0 {
        lemma_expr_keeps_scope(st, args[0]);
        match lower_node(st, args[0]) {
            Ok((st1, _)) => {
                lemma_exprs_keep_scope(st1, args.drop_first());
            },
            Err(_) => {},
        }
    }
}

/// Lowering a well-placed statement keeps every scope's names pairwise
/// distinct: the current one, and those of all registered functions.
proof fn lemma_lower_distinct(st: LSt, node: Node)
    requires
        wf_stmt(node),
        distinct_names(st.scope),
        fns_scopes_distinct(st.prog.fns),
    ensures
        match lower_node(st, node) {
            Ok((st1, _)) => distinct_names(st1.scope) && fns_scopes_distinct(st1.prog.fns),
            Err(_) => true,
        },
    decreases node,
{
    match node {
        Node::VarDecl(_, name, init) => {
            if find_str(st.scope, name.view()) is None {
                lemma_find_str_spec(st.scope, name.view());
                lemma_expr_keeps_scope(st, *init);
                match lower_node(st, *init) {
                    Ok((st1, _)) => {
                        let sc2 = st1.scope.push(name.view());
                        assert forall|i: int, j: int| 0 <= i < j < sc2.len() implies sc2[i]
                            != sc2[j] by {
                            if j < st1.scope.len() {
                                assert(sc2[i] == st1.scope[i] && sc2[j] == st1.scope[j]);
                            } else {
                                assert(sc2[i] == st.scope[i] && sc2[j] == name.view());
                            }
                        }
                    },
                    Err(_) => {},
                }
            }
        },
        Node::VarAssign(_, _, v) => {
            lemma_expr_keeps_scope(st, *v);
        },
        Node::Block(_, nodes) => {
            lemma_lower_distinct_stmts(st, nodes.view());
        },
        Node::If { loc: _, cond, then_branch, else_branch } => {
            lemma_expr_keeps_scope(st, *cond);
            match lower_node(st, *cond) {
                Err(_) => {},
                Ok((st1, vc)) => {
                    let st2 = LSt {
                        prog: ProgramV { stack: st1.prog.stack.push(st1.code.len()), ..st1.prog },
                        code: st1.code.push(InstrV::JumpIfZero(vc, 0)),
                        ..st1
                    };
                    lemma_lower_distinct(st2, *then_branch);
                    match lower_node(st2, *then_branch) {
                        Err(_) => {},
                        Ok((st3, _)) => {
                            match else_branch {
                                None => {},
                                Some(els) => {
                                    let i = st3.prog.stack.last();
                                    let st4 = LSt {
                                        prog: ProgramV {
                                            stack: st3.prog.stack.drop_last(),
                                            ..st3.prog
                                        },
                                        ..st3
                                    };
                                    let st5 = LSt {
                                        prog: ProgramV {
                                            stack: st4.prog.stack.push(st4.code.len()),
                                            ..st4.prog
                                        },
                                        code: st4.code.push(InstrV::Jump(0)),
                                        ..st4
                                    };
                                    let (st6, label) = add_label_spec(st5);
                                    let st7 = LSt {
                                        code: st6.code.update(
                                            i as int,
                                            patch_target(st6.code[i as int], label),
                                        ),
                                        ..st6
                                    };
                                    lemma_lower_distinct(st7, *els);
                                },
                            }
                        },
                    }
                },
            }
        },
        Node::While { loc: _, cond, body } => {
            let (st1, _) = add_label_spec(st);
            lemma_expr_keeps_scope(st1, *cond);
            match lower_node(st1, *cond) {
                Err(_) => {},
                Ok((st2, vc)) => {
                    let st3 = LSt {
                        prog: ProgramV { stack: st2.prog.stack.push(st2.code.len()), ..st2.prog },
                        code: st2.code.push(InstrV::JumpIfZero(vc, 0)),
                        ..st2
                    };
                    lemma_lower_distinct(st3, *body);
                },
            }
        },
        Node::FuncDef { loc: _, name, args, body } => {
            let inner = LSt {
                prog: st.prog,
                scope: args.deep_view(),
                code: seq![InstrV::Prologue(args.view().len())],
            };
            lemma_lower_distinct(inner, *body);
            match lower_node(inner, *body) {
                Err(_) => {},
                Ok((st1, _)) => {
                    let f = FnDefV {
                        name: name.view(),
                        scope: st1.scope,
                        body: st1.code.push(InstrV::Return(ValueV::Void)),
                    };
                    lemma_fns_upsert_distinct(st1.prog.fns, f);
                },
            }
        },
        Node::PtrAssign(_, p, v) => {
            lemma_expr_keeps_scope(st, *p);
            match lower_node(st, *p) {
                Err(_) => {},
                Ok((st1, _)) => {
                    lemma_expr_keeps_scope(st1, *v);
                },
            }
        },
        Node::Return(_, v) => {
            lemma_expr_keeps_scope(st, *v);
        },
        _ => {
            lemma_expr_keeps_scope(st, node);
        },
    }
}

/// [`lemma_lower_distinct`], for the statements of a block.
proof fn lemma_lower_distinct_stmts(st: LSt, nodes: Seq<Node>)
    requires
        wf_stmts(nodes),
        distinct_names(st.scope),
        fns_scopes_distinct(st.prog.fns),
    ensures
        match lower_stmts(st, nodes) {
            Ok(st1) => distinct_names(st1.scope) && fns_scopes_distinct(st1.prog.fns),
            Err(_) => true,
        },
    decreases nodes,
{
    if nodes.len() != 0 {
        lemma_lower_distinct(st, nodes[0]);
        match lower_node(st, nodes[0]) {
            Err(_) => {},
            Ok((st1, v)) => {
                let st2 = if v == ValueV::Void {
                    st1
                } else {
                    LSt { code: st1.code.push(InstrV::EvaluateForEffect(v)), ..st1 }
                };
                lemma_lower_distinct_stmts(st2, nodes.drop_first());
            },
        }
    }
}

proof fn lemma_fns_upsert_distinct(fns: Seq<FnDefV>, f: FnDefV)
    requires
        fns_scopes_distinct(fns),
        distinct_names(f.scope),
    ensures
        fns_scopes_distinct(fns_upsert(fns, f)),
{
    lemma_find_fn_spec(fns, f.name);
    let out = fns_upsert(fns, f);
    match find_fn(fns, f.name) {
        Some(i) => {
            assert forall|k: int| 0 <= k < out.len() implies distinct_names(
                #[trigger] out[k].scope,
            ) by {
                if k != i {
                    assert(out[k] == fns[k]);
                }
            }
        },
        None => {
            assert forall|k: int| 0 <= k < out.len() implies distinct_names(
                #[trigger] out[k].scope,
            ) by {
                if k < fns.len() {
                    assert(out[k] == fns[k]);
                }
            }
        },
    }
}

proof fn lemma_slots_push(code: Seq<InstrV>, x: InstrV, k: nat)
    requires
        slots_in_range(code, k),
        x matches InstrV::AssignVar(slot, _) ==> slot < k,
    ensures
        slots_in_range(code.push(x), k),
{
    let code2 = code.push(x);
    assert forall|j: int|
        0 <= j < code2.len() implies (#[trigger] code2[j] matches InstrV::AssignVar(slot, _)
        ==> slot < k) by {
        if j < code.len() {
            assert(code2[j] == code[j]);
        } else {
            assert(code2[j] == x);
        }
    }
}

proof fn lemma_slots_widen(code: Seq<InstrV>, k1: nat, k2: nat)
    requires
        slots_in_range(code, k1),
        k1 <= k2,
    ensures
        slots_in_range(code, k2),
{
}

/// Lowering stores only to slots of the current scope: every `AssignVar`
/// the pass emits targets a slot below the (final) scope's length, in the
/// current list and in every registered function.
proof fn lemma_lower_slots(st: LSt, node: Node)
    requires
        slots_in_range(st.code, st.scope.len()),
        fns_slots_ok(st.prog.fns),
    ensures
        match lower_node(st, node) {
            Ok((st1, _)) => slots_in_range(st1.code, st1.scope.len()) && fns_slots_ok(
                st1.prog.fns,
            ),
            Err(_) => true,
        },
    decreases node,
{
    match node {
        Node::FuncCall(_, _, args) => {
            lemma_lower_slots_args(st, args.view());
        },
        Node::StrLit(_, _) => {},
        Node::Block(_, nodes) => {
            lemma_lower_slots_stmts(st, nodes.view());
        },
        Node::VarDecl(_, name, init) => {
            if find_str(st.scope, name.view()) is None {
                lemma_lower_slots(st, *init);
                match lower_node(st, *init) {
                    Ok((st1, v)) => {
                        lemma_slots_widen(st1.code, st1.scope.len(), st1.scope.len() + 1);
                        lemma_slots_push(
                            st1.code,
                            InstrV::AssignVar(st1.scope.len(), v),
                            st1.scope.len() + 1,
                        );
                    },
                    Err(_) => {},
                }
            }
        },
        Node::VarAccess(_, _) => {},
        Node::VarAssign(_, name, value) => {
            match find_str(st.scope, name.view()) {
                Some(slot) => {
                    lemma_find_str_spec(st.scope, name.view());
                    lemma_lower_slots(st, *value);
                    lemma_lower_invariants(st, *value);
                    match lower_node(st, *value) {
                        Ok((st1, v)) => {
                            lemma_slots_push(st1.code, InstrV::AssignVar(slot, v), st1.scope.len());
                        },
                        Err(_) => {},
                    }
                },
                None => {},
            }
        },
        Node::Int(_, _) => {},
        Node::BinOp(_, _, a, b) => {
            lemma_lower_slots(st, *a);
            match lower_node(st, *a) {
                Ok((st1, _)) => {
                    lemma_lower_slots(st1, *b);
                },
                Err(_) => {},
            }
        },
        Node::CmpOp(_, _, a, b) => {
            lemma_lower_slots(st, *a);
            match lower_node(st, *a) {
                Ok((st1, _)) => {
                    lemma_lower_slots(st1, *b);
                },
                Err(_) => {},
            }
        },
        Node::If { loc: _, cond, then_branch, else_branch } => {
            lemma_lower_slots(st, *cond);
            lemma_lower_invariants(st, *cond);
            match lower_node(st, *cond) {
                Err(_) => {},
                Ok((st1, vc)) => {
                    lemma_slots_push(st1.code, InstrV::JumpIfZero(vc, 0), st1.scope.len());
                    let st2 = LSt {
                        prog: ProgramV { stack: st1.prog.stack.push(st1.code.len()), ..st1.prog },
                        code: st1.code.push(InstrV::JumpIfZero(vc, 0)),
                        ..st1
                    };
                    lemma_lower_slots(st2, *then_branch);
                    lemma_lower_invariants(st2, *then_branch);
                    match lower_node(st2, *then_branch) {
                        Err(_) => {},
                        Ok((st3, _)) => {
                            let i = st3.prog.stack.last();
                            let st4 = LSt {
                                prog: ProgramV { stack: st3.prog.stack.drop_last(), ..st3.prog },
                                ..st3
                            };
                            let st5 = if else_branch is Some {
                                lemma_slots_push(st4.code, InstrV::Jump(0), st4.scope.len());
                                LSt {
                                    prog: ProgramV {
                                        stack: st4.prog.stack.push(st4.code.len()),
                                        ..st4.prog
                                    },
                                    code: st4.code.push(InstrV::Jump(0)),
                                    ..st4
                                }
                            } else {
                                st4
                            };
                            let (st6, label) = add_label_spec(st5);
                            lemma_slots_push(
                                st5.code,
                                InstrV::Label(st5.prog.label_count),
                                st5.scope.len(),
                            );
                            let patched = patch_target(st6.code[i as int], label);
                            let st7 = LSt {
                                code: st6.code.update(i as int, patched),
                                ..st6
                            };
                            lemma_slots_update_patch(st6.code, i as int, label, st6.scope.len());
                            match else_branch {
                                None => {},
                                Some(els) => {
                                    lemma_lower_slots(st7, *els);
                                    lemma_lower_invariants(st7, *els);
                                    match lower_node(st7, *els) {
                                        Err(_) => {},
                                        Ok((st8, _)) => {
                                            assert(st8.prog.stack.last() == st4.code.len());
                                            lemma_slots_backpatch(st8);
                                        },
                                    }
                                },
                            }
                        },
                    }
                },
            }
        },
        Node::Nop(_) => {},
        Node::While { loc: _, cond, body } => {
            let (st1, start_label) = add_label_spec(st);
            lemma_slots_push(st.code, InstrV::Label(st.prog.label_count), st.scope.len());
            lemma_lower_slots(st1, *cond);
            lemma_lower_invariants(st1, *cond);
            match lower_node(st1, *cond) {
                Err(_) => {},
                Ok((st2, vc)) => {
                    lemma_slots_push(st2.code, InstrV::JumpIfZero(vc, 0), st2.scope.len());
                    let st3 = LSt {
                        prog: ProgramV { stack: st2.prog.stack.push(st2.code.len()), ..st2.prog },
                        code: st2.code.push(InstrV::JumpIfZero(vc, 0)),
                        ..st2
                    };
                    lemma_lower_slots(st3, *body);
                    lemma_lower_invariants(st3, *body);
                    match lower_node(st3, *body) {
                        Err(_) => {},
                        Ok((st4, _)) => {
                            lemma_slots_push(
                                st4.code,
                                InstrV::Jump(start_label),
                                st4.scope.len(),
                            );
                            let st5 = LSt {
                                code: st4.code.push(InstrV::Jump(start_label)),
                                ..st4
                            };
                            lemma_slots_backpatch(st5);
                        },
                    }
                },
            }
        },
        Node::FuncDef { loc: _, name, args, body } => {
            let inner = LSt {
                prog: st.prog,
                scope: args.deep_view(),
                code: seq![InstrV::Prologue(args.view().len())],
            };
            assert(slots_in_range(inner.code, inner.scope.len())) by {
                assert(!(inner.code[0] matches InstrV::AssignVar(_, _)));
            }
            lemma_lower_slots(inner, *body);
            match lower_node(inner, *body) {
                Err(_) => {},
                Ok((st1, _)) => {
                    lemma_slots_push(st1.code, InstrV::Return(ValueV::Void), st1.scope.len());
                    let f = FnDefV {
                        name: name.view(),
                        scope: st1.scope,
                        body: st1.code.push(InstrV::Return(ValueV::Void)),
                    };
                    lemma_fns_upsert_slots(st1.prog.fns, f);
                },
            }
        },
        Node::Buf(_, _) => {},
        Node::Return(_, value) => {
            lemma_lower_slots(st, *value);
            match lower_node(st, *value) {
                Ok((st1, v)) => {
                    lemma_slots_push(st1.code, InstrV::Return(v), st1.scope.len());
                },
                Err(_) => {},
            }
        },
        Node::PtrAccess(_, p) => {
            lemma_lower_slots(st, *p);
        },
        Node::PtrAssign(_, p, v) => {
            lemma_lower_slots(st, *p);
            match lower_node(st, *p) {
                Ok((st1, vp)) => {
                    lemma_lower_slots(st1, *v);
                    match lower_node(st1, *v) {
                        Ok((st2, vv)) => {
                            lemma_slots_push(
                                st2.code,
                                InstrV::StoreThroughPointer(vp, vv),
                                st2.scope.len(),
                            );
                        },
                        Err(_) => {},
                    }
                },
                Err(_) => {},
            }
        },
        Node::VarAddr(_, _) => {},
    }
}

/// [`lemma_lower_slots`], for the backpatch step shared by `If` and `While`.
proof fn lemma_slots_update_patch(code: Seq<InstrV>, i: int, l: nat, k: nat)
    requires
        0 <= i < code.len(),
        slots_in_range(code, k),
    ensures
        slots_in_range(code.update(i, patch_target(code[i], l)), k),
{
    let out = code.update(i, patch_target(code[i], l));
    assert forall|j: int|
        0 <= j < out.len() implies (#[trigger] out[j] matches InstrV::AssignVar(slot, _) ==> slot
        < k) by {
        if j != i {
            assert(out[j] == code[j]);
        } else {
            assert(out[j] == patch_target(code[i], l));
        }
    }
}

proof fn lemma_slots_backpatch(st: LSt)
    requires
        st.prog.stack.len() > 0,
        st.prog.stack.last() < st.code.len(),
        slots_in_range(st.code, st.scope.len()),
    ensures
        slots_in_range(backpatch_spec(st).code, backpatch_spec(st).scope.len()),
{
    let i = st.prog.stack.last();
    lemma_slots_push(st.code, InstrV::Label(st.prog.label_count), st.scope.len());
    let mid = st.code.push(InstrV::Label(st.prog.label_count));
    lemma_slots_update_patch(mid, i as int, st.prog.label_count, st.scope.len());
}

/// [`lemma_lower_slots`], for an argument list.
proof fn lemma_lower_slots_args(st: LSt, args: Seq<Node>)
    requires
        slots_in_range(st.code, st.scope.len()),
        fns_slots_ok(st.prog.fns),
    ensures
        match lower_args(st, args) {
            Ok((st1, _)) => slots_in_range(st1.code, st1.scope.len()) && fns_slots_ok(
                st1.prog.fns,
            ),
            Err(_) => true,
        },
    decreases args,
{
    if args.len() != 0 {
        lemma_lower_slots(st, args[0]);
        match lower_node(st, args[0]) {
            Err(_) => {},
            Ok((st1, _)) => {
                lemma_lower_slots_args(st1, args.drop_first());
            },
        }
    }
}

/// [`lemma_lower_slots`], for the statements of a block.
proof fn lemma_lower_slots_stmts(st: LSt, nodes: Seq<Node>)
    requires
        slots_in_range(st.code, st.scope.len()),
        fns_slots_ok(st.prog.fns),
    ensures
        match lower_stmts(st, nodes) {
            Ok(st1) => slots_in_range(st1.code, st1.scope.len()) && fns_slots_ok(st1.prog.fns),
            Err(_) => true,
        },
    decreases nodes,
{
    if nodes.len() != 0 {
        lemma_lower_slots(st, nodes[0]);
        match lower_node(st, nodes[0]) {
            Err(_) => {},
            Ok((st1, v)) => {
                let st2 = if v == ValueV::Void {
                    st1
                } else {
                    lemma_slots_push(st1.code, InstrV::EvaluateForEffect(v), st1.scope.len());
                    LSt { code: st1.code.push(InstrV::EvaluateForEffect(v)), ..st1 }
                };
                lemma_lower_slots_stmts(st2, nodes.drop_first());
            },
        }
    }
}

proof fn lemma_fns_upsert_slots(fns: Seq<FnDefV>, f: FnDefV)
    requires
        fns_slots_ok(fns),
        slots_in_range(f.body, f.scope.len()),
    ensures
        fns_slots_ok(fns_upsert(fns, f)),
{
    lemma_find_fn_spec(fns, f.name);
    let out = fns_upsert(fns, f);
    match find_fn(fns, f.name) {
        Some(i) => {
            assert forall|k: int| 0 <= k < out.len() implies slots_in_range(
                #[trigger] out[k].body,
                out[k].scope.len(),
            ) by {
                if k != i {
                    assert(out[k] == fns[k]);
                }
            }
        },
        None => {
            assert forall|k: int| 0 <= k < out.len() implies slots_in_range(
                #[trigger] out[k].body,
                out[k].scope.len(),
            ) by {
                if k < fns.len() {
                    assert(out[k] == fns[k]);
                }
            }
        },
    }
}

/// Slot density: in the lowered program, every function's scope names are
/// pairwise distinct — the variable with slot `i` is exactly the `i`-th
/// name, so the assigned slots are exactly `0 .. k-1` for `k` names — and
/// every `AssignVar` stores within those `k` slots. Requires the tree to
/// place declarations in statement position with distinct parameter names,
/// which is every tree the parser produces.
pub proof fn lemma_slot_density(node: Node)
    requires
        wf_stmt(node),
    ensures
        match from_ast_spec(node) {
            Ok(p) => {
                &&& fns_scopes_distinct(p.fns)
                &&& fns_slots_ok(p.fns)
            },
            Err(_) => true,
        },
{
    let st0 = LSt {
        prog: ProgramV {
            strings: Seq::empty(),
            bufs: Seq::empty(),
            label_count: 0,
            fns: Seq::empty(),
            stack: Seq::empty(),
        },
        scope: Seq::empty(),
        code: seq![InstrV::Prologue(0)],
    };
    assert(slots_in_range(st0.code, st0.scope.len())) by {
        assert(!(st0.code[0] matches InstrV::AssignVar(_, _)));
    }
    lemma_lower_distinct(st0, node);
    lemma_lower_slots(st0, node);
    match lower_node(st0, node) {
        Err(_) => {},
        Ok((st1, _)) => {
            lemma_slots_push(st1.code, InstrV::Exit(0), st1.scope.len());
            let f = FnDefV {
                name: "_start".view(),
                scope: st1.scope,
                body: st1.code.push(InstrV::Exit(0)),
            };
            lemma_fns_upsert_distinct(st1.prog.fns, f);
            lemma_fns_upsert_slots(st1.prog.fns, f);
        },
    }
}


} // verus!
