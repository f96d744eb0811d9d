//! Tests of the lowering pass: scopes and slots, string interning, jump
//! resolution, error reporting, and evaluation-order effects.

use toycc::ir::{IRErrorKind, Instruction, Program, Value};
use toycc::loc::Loc;
use toycc::parser::Node;

fn l() -> Loc {
    Loc::new(&"test".to_string())
}

fn block(nodes: Vec<Node>) -> Node {
    Node::Block(l(), nodes)
}

fn decl(name: &str, init: Node) -> Node {
    Node::VarDecl(l(), name.to_string(), Box::new(init))
}

fn assign(name: &str, value: Node) -> Node {
    Node::VarAssign(l(), name.to_string(), Box::new(value))
}

fn num(n: usize) -> Node {
    Node::Int(l(), n)
}

fn strlit(s: &str) -> Node {
    Node::StrLit(l(), s.to_string())
}

fn find_fn<'a>(prog: &'a Program, name: &str) -> (&'a Vec<String>, &'a Vec<Instruction>) {
    for f in &prog.fns {
        if f.name == name {
            return (&f.scope, &f.body);
        }
    }
    panic!("function {} not registered", name);
}

#[test]
fn slots_are_dense_and_names_unique() {
    let ast = block(vec![
        decl("x", num(1)),
        decl("y", num(2)),
        Node::FuncDef {
            loc: l(),
            name: "f".to_string(),
            args: vec!["a".to_string(), "b".to_string()],
            body: Box::new(block(vec![decl("c", num(3))])),
        },
    ]);
    let prog = Program::from_ast(&ast).unwrap();
    let (start_scope, start_body) = find_fn(&prog, "_start");
    assert_eq!(start_scope, &vec!["x".to_string(), "y".to_string()]);
    let (f_scope, f_body) = find_fn(&prog, "f");
    assert_eq!(f_scope, &vec!["a".to_string(), "b".to_string(), "c".to_string()]);
    // every store goes to a slot below the scope's length, and the two
    // declarations in `_start` take slots 0 and 1 in order
    let mut seen = Vec::new();
    for inst in start_body {
        if let Instruction::AssignVar(slot, _) = inst {
            assert!(*slot < start_scope.len());
            seen.push(*slot);
        }
    }
    assert_eq!(seen, vec![0, 1]);
    for inst in f_body {
        if let Instruction::AssignVar(slot, _) = inst {
            assert!(*slot < f_scope.len());
        }
    }
}

#[test]
fn interning_reuses_ids_and_separates_distinct_literals() {
    let ast = block(vec![
        decl("a", strlit("hello")),
        decl("b", strlit("world")),
        decl("c", strlit("hello")),
    ]);
    let prog = Program::from_ast(&ast).unwrap();
    assert_eq!(prog.strings, vec!["hello".to_string(), "world".to_string()]);
    let (_, body) = find_fn(&prog, "_start");
    let mut ids = Vec::new();
    for inst in body {
        if let Instruction::AssignVar(_, Value::StringRef(id)) = inst {
            ids.push(*id);
        }
    }
    assert_eq!(ids, vec![0, 1, 0]);
}

#[test]
fn buffers_are_never_deduplicated() {
    let ast = block(vec![decl("a", Node::Buf(l(), 16)), decl("b", Node::Buf(l(), 16))]);
    let prog = Program::from_ast(&ast).unwrap();
    assert_eq!(prog.bufs, vec![16, 16]);
    let (_, body) = find_fn(&prog, "_start");
    let mut ids = Vec::new();
    for inst in body {
        if let Instruction::AssignVar(_, Value::BufferRef(id)) = inst {
            ids.push(*id);
        }
    }
    assert_eq!(ids, vec![0, 1]);
}

fn ite(cond: Node, then_branch: Node, else_branch: Option<Node>) -> Node {
    Node::If {
        loc: l(),
        cond: Box::new(cond),
        then_branch: Box::new(then_branch),
        else_branch: else_branch.map(Box::new),
    }
}

fn gt(a: Node, b: Node) -> Node {
    Node::CmpOp(l(), toycc::parser::CmpOp::Greater, Box::new(a), Box::new(b))
}

fn var(name: &str) -> Node {
    Node::VarAccess(l(), name.to_string())
}

fn while_loop(cond: Node, body: Node) -> Node {
    Node::While { loc: l(), cond: Box::new(cond), body: Box::new(body) }
}

#[test]
fn every_jump_targets_a_label_in_the_same_body() {
    let ast = block(vec![
        decl("x", num(5)),
        ite(
            gt(var("x"), num(3)),
            block(vec![assign("x", num(1))]),
            Some(block(vec![assign("x", num(0))])),
        ),
        while_loop(gt(var("x"), num(0)), block(vec![assign("x", num(0))])),
    ]);
    let prog = Program::from_ast(&ast).unwrap();
    assert_eq!(prog.backpatch_stack.len(), 0);
    for f in &prog.fns {
        for inst in &f.body {
            let target = match inst {
                Instruction::Jump(t) => *t,
                Instruction::JumpIfZero(_, t) => *t,
                _ => continue,
            };
            let found = f
                .body
                .iter()
                .any(|i| matches!(i, Instruction::Label(id) if *id == target));
            assert!(found, "jump to label{} has no label in the body", target);
        }
    }
}

// A small interpreter over the linear representation, used to check the
// end-to-end control-flow behavior of lowered programs.
struct Outcome {
    vars: Vec<usize>,
    back_jumps: usize,
}

fn eval(v: &Value, vars: &Vec<usize>) -> usize {
    match v {
        Value::Void => 0,
        Value::IntConst(n) => *n,
        Value::StringRef(_) => 0,
        Value::VarRef(slot) => vars[*slot],
        Value::VarAddress(_) => 0,
        Value::BufferRef(_) => 0,
        Value::BinaryOp(op, a, b) => {
            let a = eval(a, vars);
            let b = eval(b, vars);
            match op {
                toycc::parser::BinOp::Plus => a + b,
                toycc::parser::BinOp::Minus => a - b,
                toycc::parser::BinOp::Mult => a * b,
                toycc::parser::BinOp::Div => a / b,
            }
        }
        Value::CompareOp(op, a, b) => {
            let a = eval(a, vars);
            let b = eval(b, vars);
            let r = match op {
                toycc::parser::CmpOp::Less => a < b,
                toycc::parser::CmpOp::Equal => a == b,
                toycc::parser::CmpOp::Greater => a > b,
                toycc::parser::CmpOp::LtEq => a <= b,
                toycc::parser::CmpOp::GtEq => a >= b,
            };
            if r {
                1
            } else {
                0
            }
        }
        Value::PointerLoad(_) => 0,
        Value::Call(_, _) => 0,
    }
}

fn run(prog: &Program, name: &str) -> Outcome {
    let idx = prog
        .fns
        .iter()
        .position(|f| f.name == name)
        .expect("function not registered");
    let scope_len = prog.fns[idx].scope.len();
    let body = &prog.fns[idx].body;
    let mut vars = vec![0usize; scope_len];
    let mut pc = 0usize;
    let mut back_jumps = 0usize;
    let mut steps = 0usize;
    let label_pos = |target: usize| -> usize {
        body.iter()
            .position(|i| matches!(i, Instruction::Label(id) if *id == target))
            .expect("jump to a missing label")
    };
    while pc < body.len() {
        steps += 1;
        assert!(steps < 10_000, "interpreter ran away");
        match &body[pc] {
            Instruction::AssignVar(slot, v) => {
                let val = eval(v, &vars);
                vars[*slot] = val;
            }
            Instruction::Label(_) => {}
            Instruction::JumpIfZero(v, target) => {
                if eval(v, &vars) == 0 {
                    pc = label_pos(*target);
                    continue;
                }
            }
            Instruction::Jump(target) => {
                let dest = label_pos(*target);
                if dest < pc {
                    back_jumps += 1;
                }
                pc = dest;
                continue;
            }
            Instruction::Prologue(_) => {}
            Instruction::Return(_) => break,
            Instruction::Exit(_) => break,
            Instruction::StoreThroughPointer(_, _) => {}
            Instruction::EvaluateForEffect(v) => {
                let _ = eval(v, &vars);
            }
        }
        pc += 1;
    }
    Outcome { vars, back_jumps }
}

#[test]
fn if_with_true_condition_runs_the_then_branch() {
    let ast = block(vec![
        decl("x", num(5)),
        ite(
            gt(var("x"), num(3)),
            block(vec![assign("x", num(1))]),
            Some(block(vec![assign("x", num(0))])),
        ),
    ]);
    let prog = Program::from_ast(&ast).unwrap();
    let out = run(&prog, "_start");
    assert_eq!(out.vars[0], 1);
}

#[test]
fn if_with_false_condition_runs_the_else_branch() {
    let ast = block(vec![
        decl("x", num(5)),
        ite(
            gt(var("x"), num(10)),
            block(vec![assign("x", num(1))]),
            Some(block(vec![assign("x", num(0))])),
        ),
    ]);
    let prog = Program::from_ast(&ast).unwrap();
    let out = run(&prog, "_start");
    assert_eq!(out.vars[0], 0);
}

#[test]
fn while_loop_runs_exactly_three_times() {
    let ast = block(vec![
        decl("y", num(3)),
        while_loop(
            gt(var("y"), num(0)),
            block(vec![assign(
                "y",
                Node::BinOp(
                    l(),
                    toycc::parser::BinOp::Minus,
                    Box::new(var("y")),
                    Box::new(num(1)),
                ),
            )]),
        ),
    ]);
    let prog = Program::from_ast(&ast).unwrap();
    let out = run(&prog, "_start");
    assert_eq!(out.vars[0], 0);
    assert_eq!(out.back_jumps, 3);
}

#[test]
fn assignment_without_declaration_is_rejected() {
    let ast = block(vec![assign("x", num(1))]);
    let err = Program::from_ast(&ast).unwrap_err();
    assert_eq!(err.kind, IRErrorKind::UndeclaredVariable);
    assert_eq!(err.name, "x".to_string());
}

#[test]
fn access_and_address_of_undeclared_names_are_rejected() {
    let ast = block(vec![decl("y", var("x"))]);
    let err = Program::from_ast(&ast).unwrap_err();
    assert_eq!(err.kind, IRErrorKind::UndeclaredVariable);
    let ast2 = block(vec![decl("y", Node::VarAddr(l(), "x".to_string()))]);
    let err2 = Program::from_ast(&ast2).unwrap_err();
    assert_eq!(err2.kind, IRErrorKind::UndeclaredVariable);
}

#[test]
fn redeclaration_in_the_same_scope_is_rejected() {
    let ast = block(vec![decl("x", num(1)), decl("x", num(2))]);
    let err = Program::from_ast(&ast).unwrap_err();
    assert_eq!(err.kind, IRErrorKind::DuplicateDeclaration);
    assert_eq!(err.name, "x".to_string());
}

#[test]
fn call_arguments_are_lowered_left_to_right() {
    // the interning side effects of the two arguments happen in order, and
    // the first argument's effect is complete before the second one starts
    let ast = block(vec![Node::FuncCall(
        l(),
        "f".to_string(),
        vec![strlit("first"), strlit("second")],
    )]);
    let prog = Program::from_ast(&ast).unwrap();
    assert_eq!(prog.strings, vec!["first".to_string(), "second".to_string()]);
    let (_, body) = find_fn(&prog, "_start");
    let mut found = false;
    for inst in body {
        if let Instruction::EvaluateForEffect(Value::Call(name, args)) = inst {
            assert_eq!(name, &"f".to_string());
            assert!(matches!(args[0], Value::StringRef(0)));
            assert!(matches!(args[1], Value::StringRef(1)));
            found = true;
        }
    }
    assert!(found);
}

#[test]
fn redefining_a_function_overwrites_the_old_definition() {
    let f1 = Node::FuncDef {
        loc: l(),
        name: "f".to_string(),
        args: vec!["a".to_string()],
        body: Box::new(block(vec![])),
    };
    let f2 = Node::FuncDef {
        loc: l(),
        name: "f".to_string(),
        args: vec!["a".to_string(), "b".to_string()],
        body: Box::new(block(vec![])),
    };
    let prog = Program::from_ast(&block(vec![f1, f2])).unwrap();
    let defs: Vec<_> = prog.fns.iter().filter(|f| f.name == "f").collect();
    assert_eq!(defs.len(), 1);
    assert_eq!(defs[0].scope.len(), 2);
}

#[test]
fn entry_function_wraps_the_top_level_block() {
    let ast = block(vec![decl("x", num(7))]);
    let prog = Program::from_ast(&ast).unwrap();
    let (_, body) = find_fn(&prog, "_start");
    assert!(matches!(body[0], Instruction::Prologue(0)));
    assert!(matches!(body[body.len() - 1], Instruction::Exit(0)));
    assert!(matches!(
        body[1],
        Instruction::AssignVar(0, Value::IntConst(7))
    ));
}
