//! Tests of the lexer, the parser, and the code generator, including the
//! exact assembly text for a small program.

use toycc::codegen::{CodegenError, Compile, Register};
use toycc::ir::Program;
use toycc::lexer::{Lexer, TokenData};
use toycc::loc::Loc;
use toycc::parser::{parse, Node, ParseError};

fn lex_all(src: &str) -> Vec<TokenData> {
    let mut lx = Lexer::from_iter(&"test".to_string(), src.chars().collect());
    let mut out = Vec::new();
    while let Some(tok) = lx.next_token() {
        out.push(tok.expect("unexpected lexer error").data);
    }
    out
}

fn parse_src(src: &str) -> Result<Node, ParseError> {
    parse(Lexer::from_iter(&"test".to_string(), src.chars().collect()))
}

fn lower_src(src: &str) -> Program {
    Program::from_ast(&parse_src(src).expect("parse failed")).expect("lowering failed")
}

#[test]
fn lexes_declarations_and_operators() {
    let toks = lex_all("let x = 42;");
    assert!(matches!(toks[0], TokenData::Let));
    assert!(matches!(&toks[1], TokenData::Name(n) if n == "x"));
    assert!(matches!(toks[2], TokenData::Equals));
    assert!(matches!(toks[3], TokenData::Int(42)));
    assert!(matches!(toks[4], TokenData::Semicolon));
    let ops = lex_all("== = <= < >= > + - * /");
    assert!(matches!(ops[0], TokenData::EqEq));
    assert!(matches!(ops[1], TokenData::Equals));
    assert!(matches!(ops[2], TokenData::LtEq));
    assert!(matches!(ops[3], TokenData::Less));
    assert!(matches!(ops[4], TokenData::GtEq));
    assert!(matches!(ops[5], TokenData::Greater));
    assert!(matches!(ops[6], TokenData::Plus));
    assert!(matches!(ops[7], TokenData::Minus));
    assert!(matches!(ops[8], TokenData::Mult));
    assert!(matches!(ops[9], TokenData::Div));
}

#[test]
fn lexes_strings_comments_and_keywords() {
    let toks = lex_all("print(\"hi\"); // a comment\nwhile");
    assert!(matches!(&toks[0], TokenData::Name(n) if n == "print"));
    assert!(matches!(toks[1], TokenData::LParen));
    assert!(matches!(&toks[2], TokenData::StrLit(s) if s == "hi"));
    assert!(matches!(toks[3], TokenData::RParen));
    assert!(matches!(toks[4], TokenData::Semicolon));
    assert!(matches!(toks[5], TokenData::While));
    assert_eq!(toks.len(), 6);
}

#[test]
fn lexer_tracks_lines_and_columns() {
    let mut lx = Lexer::from_iter(&"file".to_string(), "a\n b".chars().collect());
    let t1 = lx.next_token().unwrap().unwrap();
    assert_eq!((t1.loc.line, t1.loc.col), (1, 1));
    let t2 = lx.next_token().unwrap().unwrap();
    assert_eq!((t2.loc.line, t2.loc.col), (2, 2));
    assert!(lx.next_token().is_none());
}

#[test]
fn lexer_rejects_stray_characters_and_huge_numbers() {
    let mut lx = Lexer::from_iter(&"f".to_string(), "#".chars().collect());
    let (loc, msg) = lx.next_token().unwrap().unwrap_err();
    assert_eq!(msg, "Invalid char: #");
    assert_eq!((loc.line, loc.col), (1, 1));
    let big = "999999999999999999999999999999;";
    let mut lx2 = Lexer::from_iter(&"f".to_string(), big.chars().collect());
    let (_, msg2) = lx2.next_token().unwrap().unwrap_err();
    assert_eq!(msg2, "Integer literal too large");
}

#[test]
fn loc_advances_per_character() {
    let mut loc = Loc::new(&"f".to_string());
    assert_eq!((loc.line, loc.col, loc.offset), (1, 1, 0));
    assert_eq!(loc.advance('a'), 'a');
    assert_eq!((loc.line, loc.col, loc.offset), (1, 2, 1));
    loc.advance('\n');
    assert_eq!((loc.line, loc.col, loc.offset), (2, 1, 2));
}

#[test]
fn parses_prefix_operators_and_statements() {
    let ast = parse_src("let x = + 1 2; x = * x x;").unwrap();
    let stmts = match ast {
        Node::Block(_, stmts) => stmts,
        _ => panic!("top level is not a block"),
    };
    assert_eq!(stmts.len(), 2);
    assert!(matches!(&stmts[0], Node::VarDecl(_, n, _) if n == "x"));
    assert!(matches!(&stmts[1], Node::VarAssign(_, n, _) if n == "x"));
}

#[test]
fn unless_desugars_to_if_with_empty_then_branch() {
    let ast = parse_src("unless == 1 2 { print(\"x\"); }").unwrap();
    let stmts = match ast {
        Node::Block(_, stmts) => stmts,
        _ => panic!("top level is not a block"),
    };
    match &stmts[0] {
        Node::If { then_branch, else_branch, .. } => {
            assert!(matches!(**then_branch, Node::Nop(_)));
            assert!(else_branch.is_some());
        }
        _ => panic!("unless did not become an if"),
    }
}

#[test]
fn parse_reports_missing_semicolon_and_empty_input() {
    assert!(matches!(parse_src("let x = 1"), Err(ParseError::Error(_, _))));
    assert!(matches!(parse_src(""), Err(ParseError::Error(_, _))));
    assert!(matches!(parse_src("let x = #;"), Err(ParseError::LexerError(_, _))));
}

#[test]
fn emits_the_exact_assembly_for_a_small_program() {
    let prog = lower_src("let x = 5;");
    let text = prog.compile_to_asm().unwrap();
    let expected = "format ELF64 \nsection '.text' executable\nextrn print\nextrn printn\nextrn print_num\nextrn read\npublic _start\n_start:\n    push rbp\n    mov rbp, rsp\n    sub rsp, 8\n    mov rdi, 5\n    mov [rbp-0], rdi\n    mov rax, 60\n    mov rdi, 0\n    syscall\nsection '.data' writable\nsection '.bss' writable\n";
    assert_eq!(text, expected);
}

#[test]
fn emits_length_prefixed_string_bytes_and_buffers() {
    let prog = lower_src("print(\"hi\"); let b = buf 12;");
    let text = prog.compile_to_asm().unwrap();
    assert!(text.contains("str0: db 2,104,105\n"));
    assert!(text.contains("buf0: rb 12\n"));
    assert!(text.contains("    call print\n"));
}

#[test]
fn comparison_lowers_to_a_conditional_move() {
    let prog = lower_src("let x = < 1 2;");
    let text = prog.compile_to_asm().unwrap();
    assert!(text.contains("    cmp rax, rbx\n    mov rax, 0\n    mov rbx, 1\n    cmovb rax, rbx\n"));
}

#[test]
fn divide_preserves_the_remainder_register() {
    let prog = lower_src("let x = / 6 2;");
    let text = prog.compile_to_asm().unwrap();
    assert!(text.contains("    push rdx\n    xor rdx, rdx\n    div rbx\n    pop rdx\n"));
}

#[test]
fn pointer_store_protects_the_address_on_the_stack() {
    let prog = lower_src("let b = buf 1; ! b = 65;");
    let text = prog.compile_to_asm().unwrap();
    assert!(text.contains("    push rax\n"));
    assert!(text.contains("    pop rax\n    mov [rax], bl\n"));
}

#[test]
fn byte_register_names_are_the_low_byte() {
    assert_eq!(Register::Rax.as_8bit(), "al");
    assert_eq!(Register::Rbp.as_8bit(), "bpl");
    assert_eq!(Register::Rsp.as_8bit(), "spl");
    assert_eq!(Register::Rsi.as_8bit(), "sil");
    assert_eq!(Register::R8.as_8bit(), "r8b");
    assert_eq!(Register::R15.as_8bit(), "r15b");
}

#[test]
fn pointer_load_reads_one_byte_and_masks() {
    let prog = lower_src("let b = buf 1; let v = ! b;");
    let text = prog.compile_to_asm().unwrap();
    assert!(text.contains(", [rdi]\n    and rdi, 255\n"));
}

#[test]
fn calls_with_more_than_six_arguments_are_rejected() {
    let prog = lower_src("f(1, 2, 3, 4, 5, 6, 7);");
    assert_eq!(prog.compile_to_asm().unwrap_err(), CodegenError::UnsupportedArity);
    let ok = lower_src("f(1, 2, 3, 4, 5, 6);");
    assert!(ok.compile_to_asm().is_ok());
}

#[test]
fn function_definitions_get_their_own_exported_labels() {
    let prog = lower_src("fun add(a, b) { return + a b; } let s = add(1, 2);");
    let text = prog.compile_to_asm().unwrap();
    assert!(text.contains("add:\n"));
    assert!(text.contains("_start:\n"));
    assert!(text.contains("    call add\n"));
    // both prologue argument moves, per the calling convention
    assert!(text.contains("    mov [rbp-0], rdi\n"));
    assert!(text.contains("    mov [rbp-8], rsi\n"));
    assert!(text.contains("    leave\n    ret\n"));
}

#[test]
fn control_flow_emits_matching_labels_and_jumps() {
    let prog = lower_src("let x = 1; while > x 0 { x = - x 1; }");
    let text = prog.compile_to_asm().unwrap();
    assert!(text.contains("label0:\n"));
    assert!(text.contains("label1:\n"));
    assert!(text.contains("    jmp label0\n"));
    assert!(text.contains("    test rax, rax\n    jz label1\n"));
}
