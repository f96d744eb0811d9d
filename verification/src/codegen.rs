//! The x86-64 code generator: one pass over each lowered function, emitting
//! textual assembly. The whole output text is pinned down by the spec
//! function [`emit_prog`]; the executable emitter is proved to produce
//! exactly that text whenever it succeeds, and to succeed exactly when the
//! program respects the two machine limits of this backend: at most six
//! call arguments, and stack-frame offsets that fit in a machine word.

use vstd::prelude::*;
use vstd::string::StrSliceExecFns;
use vstd::string::StringExecFns;

use vstd::utf8::encode_utf8;

use crate::ir::instr_view;
use crate::ir::value_view;
use crate::ir::values_view;
use crate::ir::FnDef;
use crate::ir::FnDefV;
use crate::ir::Instruction;
use crate::ir::InstrV;
use crate::ir::Program;
use crate::ir::ProgramV;
use crate::parser::{BinOp, CmpOp};
use crate::ir::Value;
use crate::ir::ValueV;

verus! {

broadcast use vstd::std_specs::vec::group_vec_axioms;

/// Why assembly could not be generated.
#[derive(Clone, Copy, Debug, PartialEq, Eq, Structural)]
pub enum CodegenError {
    /// A call or a function definition uses more positional arguments than
    /// the calling convention has registers for.
    UnsupportedArity,
    /// A variable slot lies too far down the frame for its byte offset to
    /// fit in a machine word.
    FrameTooLarge,
}

/// A general-purpose register of the target.
#[derive(Clone, Copy, Debug, PartialEq, Eq, Structural)]
pub enum Register {
    Rax,
    Rbx,
    Rcx,
    Rdx,
    Rbp,
    Rsp,
    Rsi,
    Rdi,
    R8,
    R9,
    R10,
    R11,
    R12,
    R13,
    R14,
    R15,
}

/// The name of a register in assembly text.
pub open spec fn reg_name(r: Register) -> Seq<char> {
    match r {
        Register::Rax => "rax".view(),
        Register::Rbx => "rbx".view(),
        Register::Rcx => "rcx".view(),
        Register::Rdx => "rdx".view(),
        Register::Rbp => "rbp".view(),
        Register::Rsp => "rsp".view(),
        Register::Rsi => "rsi".view(),
        Register::Rdi => "rdi".view(),
        Register::R8 => "r8".view(),
        Register::R9 => "r9".view(),
        Register::R10 => "r10".view(),
        Register::R11 => "r11".view(),
        Register::R12 => "r12".view(),
        Register::R13 => "r13".view(),
        Register::R14 => "r14".view(),
        Register::R15 => "r15".view(),
    }
}

/// The name of the register's lowest byte, used for the single-byte memory
/// reads and writes that are the only sub-word accesses this backend emits.
pub open spec fn reg_name_8bit(r: Register) -> Seq<char> {
    match r {
        Register::Rax => "al".view(),
        Register::Rbx => "bl".view(),
        Register::Rcx => "cl".view(),
        Register::Rdx => "dl".view(),
        Register::Rbp => "bpl".view(),
        Register::Rsp => "spl".view(),
        Register::Rsi => "sil".view(),
        Register::Rdi => "dil".view(),
        Register::R8 => "r8b".view(),
        Register::R9 => "r9b".view(),
        Register::R10 => "r10b".view(),
        Register::R11 => "r11b".view(),
        Register::R12 => "r12b".view(),
        Register::R13 => "r13b".view(),
        Register::R14 => "r14b".view(),
        Register::R15 => "r15b".view(),
    }
}

impl Register {
    /// The register's name in assembly text.
    fn name_str(&self) -> (r: &'static str)
        ensures
            r.view() == reg_name(*self),
    {
        match self {
            Register::Rax => "rax",
            Register::Rbx => "rbx",
            Register::Rcx => "rcx",
            Register::Rdx => "rdx",
            Register::Rbp => "rbp",
            Register::Rsp => "rsp",
            Register::Rsi => "rsi",
            Register::Rdi => "rdi",
            Register::R8 => "r8",
            Register::R9 => "r9",
            Register::R10 => "r10",
            Register::R11 => "r11",
            Register::R12 => "r12",
            Register::R13 => "r13",
            Register::R14 => "r14",
            Register::R15 => "r15",
        }
    }

    /// The name of the register's low part.
    pub fn as_8bit(&self) -> (r: &'static str)
        ensures
            r.view() == reg_name_8bit(*self),
    {
        match self {
            Register::Rax => "al",
            Register::Rbx => "bl",
            Register::Rcx => "cl",
            Register::Rdx => "dl",
            Register::Rbp => "bpl",
            Register::Rsp => "spl",
            Register::Rsi => "sil",
            Register::Rdi => "dil",
            Register::R8 => "r8b",
            Register::R9 => "r9b",
            Register::R10 => "r10b",
            Register::R11 => "r11b",
            Register::R12 => "r12b",
            Register::R13 => "r13b",
            Register::R14 => "r14b",
            Register::R15 => "r15b",
        }
    }
}

/// The register holding the `i`-th positional argument, per the calling
/// convention. Only the first six positions exist.
pub open spec fn cc_reg(i: int) -> Register {
    if i == 0 {
        Register::Rdi
    } else if i == 1 {
        Register::Rsi
    } else if i == 2 {
        Register::Rdx
    } else if i == 3 {
        Register::Rcx
    } else if i == 4 {
        Register::R8
    } else {
        Register::R9
    }
}

/// The number of argument registers the calling convention has.
pub const ARG_REGISTERS: usize = 6;

fn call_convention(i: usize) -> (r: Register)
    requires
        i < 6,
    ensures
        r == cc_reg(i as int),
{
    if i == 0 {
        Register::Rdi
    } else if i == 1 {
        Register::Rsi
    } else if i == 2 {
        Register::Rdx
    } else if i == 3 {
        Register::Rcx
    } else if i == 4 {
        Register::R8
    } else {
        Register::R9
    }
}

// ---------------------------------------------------------------------------
// Decimal rendering
// ---------------------------------------------------------------------------

/// The decimal digit character for `d` (only `0..9` occur).
pub open spec fn dec_digit(d: nat) -> char {
    if d == 0 {
        '0'
    } else if d == 1 {
        '1'
    } else if d == 2 {
        '2'
    } else if d == 3 {
        '3'
    } else if d == 4 {
        '4'
    } else if d == 5 {
        '5'
    } else if d == 6 {
        '6'
    } else if d == 7 {
        '7'
    } else if d == 8 {
        '8'
    } else {
        '9'
    }
}

/// The decimal rendering of `n`, most significant digit first, no leading
/// zeros (except for `0` itself).
pub open spec fn dec_seq(n: nat) -> Seq<char>
    decreases n,
{
    if n < 10 {
        seq![dec_digit(n)]
    } else {
        dec_seq(n / 10).push(dec_digit(n % 10))
    }
}

/// Append one decimal digit character.
fn push_digit(out: &mut String, d: usize)
    requires
        d < 10,
    ensures
        final(out).view() == old(out).view() + seq![dec_digit(d as nat)],
{
    proof {
        reveal_strlit("0");
        reveal_strlit("1");
        reveal_strlit("2");
        reveal_strlit("3");
        reveal_strlit("4");
        reveal_strlit("5");
        reveal_strlit("6");
        reveal_strlit("7");
        reveal_strlit("8");
        reveal_strlit("9");
    }
    if d == 0 {
        out.append("0");
    } else if d == 1 {
        out.append("1");
    } else if d == 2 {
        out.append("2");
    } else if d == 3 {
        out.append("3");
    } else if d == 4 {
        out.append("4");
    } else if d == 5 {
        out.append("5");
    } else if d == 6 {
        out.append("6");
    } else if d == 7 {
        out.append("7");
    } else if d == 8 {
        out.append("8");
    } else {
        out.append("9");
    }
    proof {
        assert(final(out).view() =~= old(out).view() + seq![dec_digit(d as nat)]);
    }
}

/// Append the decimal rendering of `n`.
fn push_dec(out: &mut String, n: usize)
    ensures
        final(out).view() == old(out).view() + dec_seq(n as nat),
    decreases n,
{
    if n >= 10 {
        push_dec(out, n / 10);
        push_digit(out, n % 10);
        proof {
            assert(final(out).view() =~= old(out).view() + dec_seq(n as nat));
        }
    } else {
        push_digit(out, n);
    }
}

// ---------------------------------------------------------------------------
// What the emitter prints, as text
// ---------------------------------------------------------------------------

/// The text that loads `v` into `reg`: operands evaluate left to right into
/// the two scratch registers `rax`/`rbx`, comparisons materialize a 0/1
/// result by conditional move, a divide saves and clears `rdx` around the
/// instruction, and a call moves each argument into its convention register.
pub open spec fn emit_value(v: ValueV, reg: Register) -> Seq<char>
    decreases v,
{
    match v {
        ValueV::Void => Seq::empty(),
        ValueV::IntConst(n) => "    mov ".view() + reg_name(reg) + ", ".view() + dec_seq(n)
            + "\n".view(),
        ValueV::StringRef(id) => "    mov ".view() + reg_name(reg) + ", str".view() + dec_seq(id)
            + "\n".view(),
        ValueV::VarRef(slot) => "    mov ".view() + reg_name(reg) + ", [rbp-".view() + dec_seq(
            8 * slot,
        ) + "]\n".view(),
        ValueV::VarAddress(slot) => "    lea ".view() + reg_name(reg) + ", [rbp-".view() + dec_seq(
            8 * slot,
        ) + "]\n".view(),
        ValueV::BufferRef(id) => "    mov ".view() + reg_name(reg) + ", buf".view() + dec_seq(id)
            + "\n".view(),
        ValueV::BinaryOp(op, a, b) => emit_value(*a, Register::Rax) + emit_value(
            *b,
            Register::Rbx,
        ) + binop_lines(op) + "    mov ".view() + reg_name(reg) + ", rax\n".view(),
        ValueV::CompareOp(op, a, b) => emit_value(*a, Register::Rax) + emit_value(
            *b,
            Register::Rbx,
        ) + "    cmp rax, rbx\n    mov rax, 0\n    mov rbx, 1\n".view() + cmp_line(op)
            + "    mov ".view() + reg_name(reg) + ", rax\n".view(),
        ValueV::PointerLoad(p) => emit_value(*p, reg) + "    mov ".view() + reg_name_8bit(reg)
            + ", [".view() + reg_name(reg) + "]\n".view() + "    and ".view() + reg_name(reg)
            + ", 255\n".view(),
        ValueV::Call(name, args) => emit_args(args, 0) + "    call ".view() + name + "\n".view()
            + "    mov ".view() + reg_name(reg) + ", rax\n".view(),
    }
}

/// The text that loads each argument into its convention register, left to
/// right, starting at position `i`.
pub open spec fn emit_args(args: Seq<ValueV>, i: int) -> Seq<char>
    decreases args, args.len() - i,
{
    if i < 0 || i >= args.len() {
        Seq::empty()
    } else {
        emit_value(args[i], cc_reg(i)) + emit_args(args, i + 1)
    }
}

/// The machine instruction for an arithmetic operator.
pub open spec fn binop_lines(op: BinOp) -> Seq<char> {
    match op {
        BinOp::Plus => "    add rax, rbx\n".view(),
        BinOp::Minus => "    sub rax, rbx\n".view(),
        BinOp::Mult => "    mul rbx\n".view(),
        BinOp::Div => "    push rdx\n    xor rdx, rdx\n    div rbx\n    pop rdx\n".view(),
    }
}

/// The conditional move that materializes a comparison's boolean.
pub open spec fn cmp_line(op: CmpOp) -> Seq<char> {
    match op {
        CmpOp::Less => "    cmovb rax, rbx\n".view(),
        CmpOp::Equal => "    cmove rax, rbx\n".view(),
        CmpOp::Greater => "    cmova rax, rbx\n".view(),
        CmpOp::LtEq => "    cmovbe rax, rbx\n".view(),
        CmpOp::GtEq => "    cmovae rax, rbx\n".view(),
    }
}

/// The prologue lines that copy the first `n` argument registers into the
/// function's first `n` slots.
pub open spec fn prologue_moves(n: nat, i: int) -> Seq<char>
    decreases n - i,
{
    if i < 0 || i >= n {
        Seq::empty()
    } else {
        "    mov [rbp-".view() + dec_seq((8 * i) as nat) + "], ".view() + reg_name(cc_reg(i))
            + "\n".view() + prologue_moves(n, i + 1)
    }
}

/// The text for one instruction, in a function with `num_vars` slots.
pub open spec fn emit_inst(inst: InstrV, num_vars: nat) -> Seq<char> {
    match inst {
        InstrV::Prologue(n) => "    push rbp\n    mov rbp, rsp\n".view() + "    sub rsp, ".view()
            + dec_seq(8 * num_vars) + "\n".view() + prologue_moves(n, 0),
        InstrV::Return(v) => emit_value(v, Register::Rax) + "    leave\n    ret\n".view(),
        InstrV::Exit(c) => "    mov rax, 60\n    mov rdi, ".view() + dec_seq(c as nat)
            + "\n    syscall\n".view(),
        InstrV::AssignVar(slot, v) => emit_value(v, Register::Rdi) + "    mov [rbp-".view()
            + dec_seq(8 * slot) + "], rdi\n".view(),
        InstrV::Label(id) => "label".view() + dec_seq(id) + ":\n".view(),
        InstrV::JumpIfZero(v, l) => emit_value(v, Register::Rax)
            + "    test rax, rax\n    jz label".view() + dec_seq(l) + "\n".view(),
        InstrV::Jump(l) => "    jmp label".view() + dec_seq(l) + "\n".view(),
        InstrV::StoreThroughPointer(p, v) => emit_value(p, Register::Rax) + "    push rax\n".view()
            + emit_value(v, Register::Rbx) + "    pop rax\n    mov [rax], bl\n".view(),
        InstrV::EvaluateForEffect(v) => emit_value(v, Register::Rax),
    }
}

/// The text for a function's instructions from position `i` on.
pub open spec fn emit_insts(body: Seq<InstrV>, num_vars: nat, i: int) -> Seq<char>
    decreases body.len() - i,
{
    if i < 0 || i >= body.len() {
        Seq::empty()
    } else {
        emit_inst(body[i], num_vars) + emit_insts(body, num_vars, i + 1)
    }
}

/// The text for one whole function: its exported label, then its body.
pub open spec fn emit_fun(f: FnDefV) -> Seq<char> {
    f.name + ":\n".view() + emit_insts(f.body, f.scope.len(), 0)
}

/// The text section's functions from position `i` on.
pub open spec fn emit_funs(fns: Seq<FnDefV>, i: int) -> Seq<char>
    decreases fns.len() - i,
{
    if i < 0 || i >= fns.len() {
        Seq::empty()
    } else {
        emit_fun(fns[i]) + emit_funs(fns, i + 1)
    }
}

/// One interned string as a length-prefixed byte list, and a comma-separated
/// rendering of its UTF-8 bytes from position `i` on.
pub open spec fn emit_bytes(bytes: Seq<u8>, i: int) -> Seq<char>
    decreases bytes.len() - i,
{
    if i < 0 || i >= bytes.len() {
        Seq::empty()
    } else {
        ",".view() + dec_seq(bytes[i] as nat) + emit_bytes(bytes, i + 1)
    }
}

/// The data section: each interned string as a length-prefixed byte list.
pub open spec fn emit_strings(strings: Seq<Seq<char>>, i: int) -> Seq<char>
    decreases strings.len() - i,
{
    if i < 0 || i >= strings.len() {
        Seq::empty()
    } else {
        "str".view() + dec_seq(i as nat) + ": db ".view() + dec_seq(
            encode_utf8(strings[i]).len(),
        ) + emit_bytes(encode_utf8(strings[i]), 0) + "\n".view() + emit_strings(strings, i + 1)
    }
}

/// The uninitialized-data section: one zero-filled region per buffer.
pub open spec fn emit_bufs(bufs: Seq<nat>, i: int) -> Seq<char>
    decreases bufs.len() - i,
{
    if i < 0 || i >= bufs.len() {
        Seq::empty()
    } else {
        "buf".view() + dec_seq(i as nat) + ": rb ".view() + dec_seq(bufs[i]) + "\n".view()
            + emit_bufs(bufs, i + 1)
    }
}

/// The fixed file header: format, text section, the runtime symbols this
/// compiler links against, and the exported entry point.
pub open spec fn emit_header() -> Seq<char> {
    "format ELF64 \nsection '.text' executable\nextrn print\nextrn printn\nextrn print_num\nextrn read\npublic _start\n".view()
}

/// The whole assembly file for a lowered program.
pub open spec fn emit_prog(p: ProgramV) -> Seq<char> {
    emit_header() + emit_funs(p.fns, 0) + "section '.data' writable\n".view() + emit_strings(
        p.strings,
        0,
    ) + "section '.bss' writable\n".view() + emit_bufs(p.bufs, 0)
}

// ---------------------------------------------------------------------------
// When emission succeeds
// ---------------------------------------------------------------------------

/// The backend can emit this operand: calls pass at most six arguments, and
/// every slot's byte offset fits in a machine word.
pub open spec fn val_ok(v: ValueV) -> bool
    decreases v,
{
    match v {
        ValueV::VarRef(slot) => 8 * slot <= usize::MAX,
        ValueV::VarAddress(slot) => 8 * slot <= usize::MAX,
        ValueV::BinaryOp(_, a, b) => val_ok(*a) && val_ok(*b),
        ValueV::CompareOp(_, a, b) => val_ok(*a) && val_ok(*b),
        ValueV::PointerLoad(p) => val_ok(*p),
        ValueV::Call(_, args) => args.len() <= 6 && vals_ok(args, 0),
        _ => true,
    }
}

/// [`val_ok`] for every argument from position `i` on.
pub open spec fn vals_ok(args: Seq<ValueV>, i: int) -> bool
    decreases args, args.len() - i,
{
    if i < 0 || i >= args.len() {
        true
    } else {
        val_ok(args[i]) && vals_ok(args, i + 1)
    }
}

/// The backend can emit this instruction in a function with `num_vars`
/// slots.
pub open spec fn inst_ok(inst: InstrV, num_vars: nat) -> bool {
    match inst {
        InstrV::Prologue(n) => n <= 6 && 8 * num_vars <= usize::MAX,
        InstrV::Return(v) => val_ok(v),
        InstrV::Exit(_) => true,
        InstrV::AssignVar(slot, v) => 8 * slot <= usize::MAX && val_ok(v),
        InstrV::Label(_) => true,
        InstrV::JumpIfZero(v, _) => val_ok(v),
        InstrV::Jump(_) => true,
        InstrV::StoreThroughPointer(p, v) => val_ok(p) && val_ok(v),
        InstrV::EvaluateForEffect(v) => val_ok(v),
    }
}

/// The backend can emit every instruction of this function.
pub open spec fn fn_ok(f: FnDefV) -> bool {
    forall|j: int| 0 <= j < f.body.len() ==> inst_ok(#[trigger] f.body[j], f.scope.len())
}

/// The backend can emit the whole program.
pub open spec fn prog_ok(p: ProgramV) -> bool {
    forall|f: int| 0 <= f < p.fns.len() ==> fn_ok(#[trigger] p.fns[f])
}


// ---------------------------------------------------------------------------
// The executable emitter
// ---------------------------------------------------------------------------

proof fn lemma_vals_ok_char(args: Seq<ValueV>, i: int)
    requires
        0 <= i <= args.len(),
    ensures
        vals_ok(args, i) <==> (forall|j: int| i <= j < args.len() ==> val_ok(#[trigger] args[j])),
    decreases args.len() - i,
{
    if i < args.len() {
        lemma_vals_ok_char(args, i + 1);
    }
}


proof fn lemma_chain6<T>(b: Seq<T>, p1: Seq<T>, p2: Seq<T>, p3: Seq<T>, p4: Seq<T>, p5: Seq<T>, p6: Seq<T>)
    ensures
        b + p1 + p2 + p3 + p4 + p5 + p6 == b + (p1 + p2 + p3 + p4 + p5 + p6),
{
    assert(b + p1 + p2 + p3 + p4 + p5 + p6 =~= b + (p1 + p2 + p3 + p4 + p5 + p6));
}

proof fn lemma_chain7<T>(b: Seq<T>, p1: Seq<T>, p2: Seq<T>, p3: Seq<T>, p4: Seq<T>, p5: Seq<T>, p6: Seq<T>, p7: Seq<T>)
    ensures
        b + p1 + p2 + p3 + p4 + p5 + p6 + p7 == b + (p1 + p2 + p3 + p4 + p5 + p6 + p7),
{
    assert(b + p1 + p2 + p3 + p4 + p5 + p6 + p7 =~= b + (p1 + p2 + p3 + p4 + p5 + p6 + p7));
}

proof fn lemma_chain9<T>(b: Seq<T>, p1: Seq<T>, p2: Seq<T>, p3: Seq<T>, p4: Seq<T>, p5: Seq<T>, p6: Seq<T>, p7: Seq<T>, p8: Seq<T>, p9: Seq<T>)
    ensures
        b + p1 + p2 + p3 + p4 + p5 + p6 + p7 + p8 + p9 == b + (p1 + p2 + p3 + p4 + p5 + p6 + p7
            + p8 + p9),
{
    assert(b + p1 + p2 + p3 + p4 + p5 + p6 + p7 + p8 + p9 =~= b + (p1 + p2 + p3 + p4 + p5 + p6
        + p7 + p8 + p9));
}

/// Emit the text that loads a leaf operand — a constant, a string or
/// buffer address, a slot load, or a slot address — into `reg`.
fn emit_plain_into(out: &mut String, v: &Value, reg: Register) -> (r: Result<(), CodegenError>)
    requires
        !(*v is BinaryOp || *v is CompareOp || *v is PointerLoad || *v is Call),
    ensures
        match r {
            Ok(_) => val_ok(value_view(*v)) && final(out).view() == old(out).view() + emit_value(
                value_view(*v),
                reg,
            ),
            Err(_) => !val_ok(value_view(*v)),
        },
{
    match v {
        Value::Void => Ok(()),
        Value::IntConst(n) => {
            out.append("    mov ");
            out.append(reg.name_str());
            out.append(", ");
            push_dec(out, *n);
            out.append("\n");
            proof {
                assert(final(out).view() =~= old(out).view() + emit_value(value_view(*v), reg));
            }
            Ok(())
        },
        Value::StringRef(id) => {
            out.append("    mov ");
            out.append(reg.name_str());
            out.append(", str");
            push_dec(out, *id);
            out.append("\n");
            proof {
                assert(final(out).view() =~= old(out).view() + emit_value(value_view(*v), reg));
            }
            Ok(())
        },
        Value::VarRef(slot) => {
            match slot.checked_mul(8) {
                Some(off) => {
                    out.append("    mov ");
                    out.append(reg.name_str());
                    out.append(", [rbp-");
                    push_dec(out, off);
                    out.append("]\n");
                    proof {
                        assert(final(out).view() =~= old(out).view() + emit_value(
                            value_view(*v),
                            reg,
                        ));
                    }
                    Ok(())
                },
                None => Err(CodegenError::FrameTooLarge),
            }
        },
        Value::VarAddress(slot) => {
            match slot.checked_mul(8) {
                Some(off) => {
                    out.append("    lea ");
                    out.append(reg.name_str());
                    out.append(", [rbp-");
                    push_dec(out, off);
                    out.append("]\n");
                    proof {
                        assert(final(out).view() =~= old(out).view() + emit_value(
                            value_view(*v),
                            reg,
                        ));
                    }
                    Ok(())
                },
                None => Err(CodegenError::FrameTooLarge),
            }
        },
        Value::BufferRef(id) => {
            out.append("    mov ");
            out.append(reg.name_str());
            out.append(", buf");
            push_dec(out, *id);
            out.append("\n");
            proof {
                assert(final(out).view() =~= old(out).view() + emit_value(value_view(*v), reg));
            }
            Ok(())
        },
        _ => Ok(()),
    }
}

/// Emit the text that loads `v` into `reg`. Fails exactly when some call in
/// `v` passes more than six arguments or some slot offset overflows.
#[verifier::loop_isolation(false)]
#[verifier::rlimit(100)]
fn emit_value_into(out: &mut String, v: &Value, reg: Register) -> (r: Result<(), CodegenError>)
    ensures
        match r {
            Ok(_) => val_ok(value_view(*v)) && final(out).view() == old(out).view() + emit_value(
                value_view(*v),
                reg,
            ),
            Err(_) => !val_ok(value_view(*v)),
        },
    decreases *v,
{
    match v {
        Value::Void
        | Value::IntConst(_)
        | Value::StringRef(_)
        | Value::VarRef(_)
        | Value::VarAddress(_)
        | Value::BufferRef(_) => emit_plain_into(out, v, reg),
        Value::BinaryOp(op, a, b) => {
            match emit_value_into(out, a, Register::Rax) {
                Ok(_) => {},
                Err(e) => {
                    return Err(e);
                },
            }
            match emit_value_into(out, b, Register::Rbx) {
                Ok(_) => {},
                Err(e) => {
                    return Err(e);
                },
            }
            append_binop_lines(out, *op);
            append_result_move(out, reg);
            proof {
                lemma_chain6(
                    old(out).view(),
                    emit_value(value_view(*(*a)), Register::Rax),
                    emit_value(value_view(*(*b)), Register::Rbx),
                    binop_lines(*op),
                    "    mov ".view(),
                    reg_name(reg),
                    ", rax\n".view(),
                );
                assert(final(out).view() == old(out).view() + emit_value(value_view(*v), reg));
            }
            Ok(())
        },
        Value::CompareOp(op, a, b) => {
            match emit_value_into(out, a, Register::Rax) {
                Ok(_) => {},
                Err(e) => {
                    return Err(e);
                },
            }
            match emit_value_into(out, b, Register::Rbx) {
                Ok(_) => {},
                Err(e) => {
                    return Err(e);
                },
            }
            out.append("    cmp rax, rbx\n    mov rax, 0\n    mov rbx, 1\n");
            append_cmp_line(out, *op);
            append_result_move(out, reg);
            proof {
                lemma_chain7(
                    old(out).view(),
                    emit_value(value_view(*(*a)), Register::Rax),
                    emit_value(value_view(*(*b)), Register::Rbx),
                    "    cmp rax, rbx\n    mov rax, 0\n    mov rbx, 1\n".view(),
                    cmp_line(*op),
                    "    mov ".view(),
                    reg_name(reg),
                    ", rax\n".view(),
                );
                assert(final(out).view() == old(out).view() + emit_value(value_view(*v), reg));
            }
            Ok(())
        },
        Value::PointerLoad(p) => {
            match emit_value_into(out, p, reg) {
                Ok(_) => {},
                Err(e) => {
                    return Err(e);
                },
            }
            out.append("    mov ");
            out.append(reg.as_8bit());
            out.append(", [");
            out.append(reg.name_str());
            out.append("]\n");
            out.append("    and ");
            out.append(reg.name_str());
            out.append(", 255\n");
            proof {
                lemma_chain9(
                    old(out).view(),
                    emit_value(value_view(*(*p)), reg),
                    "    mov ".view(),
                    reg_name_8bit(reg),
                    ", [".view(),
                    reg_name(reg),
                    "]\n".view(),
                    "    and ".view(),
                    reg_name(reg),
                    ", 255\n".view(),
                );
                assert(final(out).view() == old(out).view() + emit_value(value_view(*v), reg));
            }
            Ok(())
        },
        Value::Call(name, args) => {
            let ghost vv = values_view(args.view());
            proof {
                crate::ir::lemma_values_view(args.view());
            }
            if args.len() > ARG_REGISTERS {
                return Err(CodegenError::UnsupportedArity);
            }
            let ghost mid0 = out.view();
            let n = args.len();
            for i in 0..n
                invariant
                    forall|k: int| 0 <= k < i ==> val_ok(#[trigger] vv[k]),
                    out.view() + emit_args(vv, i as int) == mid0 + emit_args(vv, 0),
                decreases n - i,
            {
                let r = call_convention(i);
                match emit_value_into(out, &args[i], r) {
                    Ok(_) => {},
                    Err(e) => {
                        proof {
                            lemma_vals_ok_char(vv, 0);
                        }
                        return Err(e);
                    },
                }
                proof {
                    assert(out.view() + emit_args(vv, i as int + 1) =~= mid0 + emit_args(vv, 0));
                }
            }
            proof {
                lemma_vals_ok_char(vv, 0);
                assert(out.view() =~= mid0 + emit_args(vv, 0));
            }
            out.append("    call ");
            out.append(name.as_str());
            out.append("\n");
            append_result_move(out, reg);
            proof {
                lemma_chain7(
                    old(out).view(),
                    emit_args(vv, 0),
                    "    call ".view(),
                    name.view(),
                    "\n".view(),
                    "    mov ".view(),
                    reg_name(reg),
                    ", rax\n".view(),
                );
                assert(final(out).view() == old(out).view() + emit_value(value_view(*v), reg));
            }
            Ok(())
        },
    }
}

/// Emit the frame setup: save and set the frame pointer, reserve one slot
/// per variable, and copy the first `n` argument registers into slots.
fn emit_prologue_into(out: &mut String, n: usize, num_vars: usize) -> (r: Result<
    (),
    CodegenError,
>)
    ensures
        match r {
            Ok(_) => inst_ok(InstrV::Prologue(n as nat), num_vars as nat) && final(out).view()
                == old(out).view() + emit_inst(InstrV::Prologue(n as nat), num_vars as nat),
            Err(_) => !inst_ok(InstrV::Prologue(n as nat), num_vars as nat),
        },
{
            if n > ARG_REGISTERS {
                return Err(CodegenError::UnsupportedArity);
            }
            match num_vars.checked_mul(8) {
                None => Err(CodegenError::FrameTooLarge),
                Some(frame) => {
                    out.append("    push rbp\n    mov rbp, rsp\n");
                    out.append("    sub rsp, ");
                    push_dec(out, frame);
                    out.append("\n");
                    let ghost mid0 = out.view();
                    let count = n;
                    for i in 0..count
                        invariant
                            count <= 6,
                            out.view() + prologue_moves(count as nat, i as int) == mid0
                                + prologue_moves(count as nat, 0),
                        decreases count - i,
                    {
                        out.append("    mov [rbp-");
                        push_dec(out, 8 * i);
                        out.append("], ");
                        out.append(call_convention(i).name_str());
                        out.append("\n");
                        proof {
                            assert(out.view() + prologue_moves(count as nat, i as int + 1)
                                =~= mid0 + prologue_moves(count as nat, 0));
                        }
                    }
                    proof {
                        assert(out.view() =~= mid0 + prologue_moves(count as nat, 0));
                        assert(final(out).view() =~= old(out).view() + emit_inst(
                            InstrV::Prologue(n as nat),
                            num_vars as nat,
                        ));
                    }
                    Ok(())
                },
            }
}

/// Emit the text for one instruction of a function with `num_vars` slots.
#[verifier::loop_isolation(false)]
fn emit_inst_into(out: &mut String, inst: &Instruction, num_vars: usize) -> (r: Result<
    (),
    CodegenError,
>)
    ensures
        match r {
            Ok(_) => inst_ok(instr_view(*inst), num_vars as nat) && final(out).view() == old(
                out,
            ).view() + emit_inst(instr_view(*inst), num_vars as nat),
            Err(_) => !inst_ok(instr_view(*inst), num_vars as nat),
        },
{
    match inst {
        Instruction::Prologue(n) => emit_prologue_into(out, *n, num_vars),
        Instruction::Return(val) => {
            match emit_value_into(out, val, Register::Rax) {
                Ok(_) => {},
                Err(e) => {
                    return Err(e);
                },
            }
            out.append("    leave\n    ret\n");
            proof {
                assert(final(out).view() =~= old(out).view() + emit_inst(
                    instr_view(*inst),
                    num_vars as nat,
                ));
            }
            Ok(())
        },
        Instruction::Exit(code) => {
            out.append("    mov rax, 60\n    mov rdi, ");
            push_dec(out, *code as usize);
            out.append("\n    syscall\n");
            proof {
                assert(final(out).view() =~= old(out).view() + emit_inst(
                    instr_view(*inst),
                    num_vars as nat,
                ));
            }
            Ok(())
        },
        Instruction::AssignVar(slot, val) => {
            match emit_value_into(out, val, Register::Rdi) {
                Ok(_) => {},
                Err(e) => {
                    return Err(e);
                },
            }
            match slot.checked_mul(8) {
                None => Err(CodegenError::FrameTooLarge),
                Some(off) => {
                    out.append("    mov [rbp-");
                    push_dec(out, off);
                    out.append("], rdi\n");
                    proof {
                        assert(final(out).view() =~= old(out).view() + emit_inst(
                            instr_view(*inst),
                            num_vars as nat,
                        ));
                    }
                    Ok(())
                },
            }
        },
        Instruction::Label(id) => {
            out.append("label");
            push_dec(out, *id);
            out.append(":\n");
            proof {
                assert(final(out).view() =~= old(out).view() + emit_inst(
                    instr_view(*inst),
                    num_vars as nat,
                ));
            }
            Ok(())
        },
        Instruction::JumpIfZero(cond, label) => {
            match emit_value_into(out, cond, Register::Rax) {
                Ok(_) => {},
                Err(e) => {
                    return Err(e);
                },
            }
            out.append("    test rax, rax\n    jz label");
            push_dec(out, *label);
            out.append("\n");
            proof {
                assert(final(out).view() =~= old(out).view() + emit_inst(
                    instr_view(*inst),
                    num_vars as nat,
                ));
            }
            Ok(())
        },
        Instruction::Jump(label) => {
            out.append("    jmp label");
            push_dec(out, *label);
            out.append("\n");
            proof {
                assert(final(out).view() =~= old(out).view() + emit_inst(
                    instr_view(*inst),
                    num_vars as nat,
                ));
            }
            Ok(())
        },
        Instruction::StoreThroughPointer(ptr, val) => {
            match emit_value_into(out, ptr, Register::Rax) {
                Ok(_) => {},
                Err(e) => {
                    return Err(e);
                },
            }
            out.append("    push rax\n");
            match emit_value_into(out, val, Register::Rbx) {
                Ok(_) => {},
                Err(e) => {
                    return Err(e);
                },
            }
            out.append("    pop rax\n    mov [rax], bl\n");
            proof {
                assert(final(out).view() =~= old(out).view() + emit_inst(
                    instr_view(*inst),
                    num_vars as nat,
                ));
            }
            Ok(())
        },
        Instruction::EvaluateForEffect(val) => {
            match emit_value_into(out, val, Register::Rax) {
                Ok(_) => {},
                Err(e) => {
                    return Err(e);
                },
            }
            Ok(())
        },
    }
}

/// Emit one whole function: its exported label, then its instructions.
#[verifier::loop_isolation(false)]
fn emit_fun_into(out: &mut String, f: &FnDef) -> (r: Result<(), CodegenError>)
    ensures
        match r {
            Ok(_) => fn_ok(f.view()) && final(out).view() == old(out).view() + emit_fun(f.view()),
            Err(_) => !fn_ok(f.view()),
        },
{
    out.append(f.name.as_str());
    out.append(":\n");
    let num_vars = f.scope.len();
    let ghost fv = f.view();
    let ghost mid0 = out.view();
    let n = f.body.len();
    for i in 0..n
        invariant
            n == f.body.view().len(),
            num_vars == f.scope.view().len(),
            forall|k: int| 0 <= k < i ==> inst_ok(#[trigger] fv.body[k], fv.scope.len()),
            out.view() + emit_insts(fv.body, fv.scope.len(), i as int) == mid0 + emit_insts(
                fv.body,
                fv.scope.len(),
                0,
            ),
        decreases n - i,
    {
        proof {
            assert(fv.body[i as int] == instr_view(f.body.view()[i as int]));
        }
        match emit_inst_into(out, &f.body[i], num_vars) {
            Ok(_) => {},
            Err(e) => {
                return Err(e);
            },
        }
        proof {
            assert(out.view() + emit_insts(fv.body, fv.scope.len(), i as int + 1) =~= mid0
                + emit_insts(fv.body, fv.scope.len(), 0));
        }
    }
    proof {
        assert(out.view() =~= mid0 + emit_insts(fv.body, fv.scope.len(), 0));
        assert(final(out).view() =~= old(out).view() + emit_fun(fv));
    }
    Ok(())
}


/// Append the machine instruction for an arithmetic operator.
fn append_binop_lines(out: &mut String, op: BinOp)
    ensures
        final(out).view() == old(out).view() + binop_lines(op),
{
    match op {
        BinOp::Plus => out.append("    add rax, rbx\n"),
        BinOp::Minus => out.append("    sub rax, rbx\n"),
        BinOp::Mult => out.append("    mul rbx\n"),
        BinOp::Div => out.append("    push rdx\n    xor rdx, rdx\n    div rbx\n    pop rdx\n"),
    }
}

/// Append the conditional move for a comparison operator.
fn append_cmp_line(out: &mut String, op: CmpOp)
    ensures
        final(out).view() == old(out).view() + cmp_line(op),
{
    match op {
        CmpOp::Less => out.append("    cmovb rax, rbx\n"),
        CmpOp::Equal => out.append("    cmove rax, rbx\n"),
        CmpOp::Greater => out.append("    cmova rax, rbx\n"),
        CmpOp::LtEq => out.append("    cmovbe rax, rbx\n"),
        CmpOp::GtEq => out.append("    cmovae rax, rbx\n"),
    }
}

/// Append the move of the scratch result into the requested register.
fn append_result_move(out: &mut String, reg: Register)
    ensures
        final(out).view() == old(out).view() + "    mov ".view() + reg_name(reg) + ", rax\n".view(),
{
    out.append("    mov ");
    out.append(reg.name_str());
    out.append(", rax\n");
    proof {
        assert(final(out).view() =~= old(out).view() + "    mov ".view() + reg_name(reg)
            + ", rax\n".view());
    }
}

/// Emit every function of the text section in order.
fn emit_funs_into(out: &mut String, fns: &Vec<FnDef>) -> (r: Result<(), CodegenError>)
    ensures
        match r {
            Ok(_) => (forall|k: int| 0 <= k < fns.deep_view().len() ==> fn_ok(
                #[trigger] fns.deep_view()[k],
            )) && final(out).view() == old(out).view() + emit_funs(fns.deep_view(), 0),
            Err(_) => !(forall|k: int|
                0 <= k < fns.deep_view().len() ==> fn_ok(#[trigger] fns.deep_view()[k])),
        },
{
    let ghost fv = fns.deep_view();
    let ghost mid0 = out.view();
    let n = fns.len();
    for i in 0..n
        invariant
            n == fns.view().len(),
            fns.deep_view() == fv,
            fv.len() == n,
            forall|k: int| 0 <= k < i ==> fn_ok(#[trigger] fv[k]),
            out.view() + emit_funs(fv, i as int) == mid0 + emit_funs(fv, 0),
        decreases n - i,
    {
        proof {
            assert(fv[i as int] == fns.view()[i as int].view());
        }
        match emit_fun_into(out, &fns[i]) {
            Ok(_) => {},
            Err(e) => {
                return Err(e);
            },
        }
        proof {
            assert(out.view() + emit_funs(fv, i as int + 1) =~= mid0 + emit_funs(fv, 0));
        }
    }
    proof {
        assert(final(out).view() =~= mid0 + emit_funs(fv, 0));
    }
    Ok(())
}

/// Emit the data section's interned strings in order.
fn emit_strings_into(out: &mut String, strings: &Vec<String>)
    ensures
        final(out).view() == old(out).view() + emit_strings(strings.deep_view(), 0),
{
    let ghost sv = strings.deep_view();
    let ghost mid0 = out.view();
    let n = strings.len();
    for i in 0..n
        invariant
            n == strings.view().len(),
            strings.deep_view() == sv,
            sv.len() == n,
            out.view() + emit_strings(sv, i as int) == mid0 + emit_strings(sv, 0),
        decreases n - i,
    {
        proof {
            assert(sv[i as int] == strings.view()[i as int].view());
        }
        out.append("str");
        push_dec(out, i);
        out.append(": db ");
        let bytes = strings[i].as_str().as_bytes_vec();
        push_dec(out, bytes.len());
        let ghost bv = bytes.view();
        let ghost mid2 = out.view();
        let nb = bytes.len();
        for j in 0..nb
            invariant
                nb == bytes.view().len(),
                bytes.view() == bv,
                out.view() + emit_bytes(bv, j as int) == mid2 + emit_bytes(bv, 0),
            decreases nb - j,
        {
            out.append(",");
            push_dec(out, bytes[j] as usize);
            proof {
                assert(out.view() + emit_bytes(bv, j as int + 1) =~= mid2 + emit_bytes(bv, 0));
            }
        }
        out.append("\n");
        proof {
            assert(out.view() + emit_strings(sv, i as int + 1) =~= mid0 + emit_strings(sv, 0));
        }
    }
    proof {
        assert(final(out).view() =~= mid0 + emit_strings(sv, 0));
    }
}

/// Emit the uninitialized-data section's buffers in order.
fn emit_bufs_into(out: &mut String, bufs: &Vec<usize>)
    ensures
        final(out).view() == old(out).view() + emit_bufs(crate::ir::nats_of(bufs.view()), 0),
{
    let ghost bv = crate::ir::nats_of(bufs.view());
    let ghost mid0 = out.view();
    let n = bufs.len();
    for i in 0..n
        invariant
            n == bufs.view().len(),
            bv == crate::ir::nats_of(bufs.view()),
            bv.len() == n,
            out.view() + emit_bufs(bv, i as int) == mid0 + emit_bufs(bv, 0),
        decreases n - i,
    {
        out.append("buf");
        push_dec(out, i);
        out.append(": rb ");
        push_dec(out, bufs[i]);
        out.append("\n");
        proof {
            assert(bv[i as int] == bufs.view()[i as int] as nat);
            assert(out.view() + emit_bufs(bv, i as int + 1) =~= mid0 + emit_bufs(bv, 0));
        }
    }
    proof {
        assert(final(out).view() =~= mid0 + emit_bufs(bv, 0));
    }
}

/// Generating assembly text for a lowered program.
pub trait Compile {
    /// The exact text `compile_to_asm` emits when it succeeds.
    spec fn emit_spec(&self) -> Seq<char>;

    /// Whether the program respects the backend's two machine limits:
    /// at most six positional arguments anywhere, and every stack-frame
    /// byte offset fits in a machine word.
    spec fn emit_ok(&self) -> bool;

    /// Generate the complete assembly file for this program.
    fn compile_to_asm(&self) -> (r: Result<String, CodegenError>)
        ensures
            r is Ok <==> self.emit_ok(),
            r matches Ok(s) ==> s.view() == self.emit_spec(),
    ;
}

impl Compile for Program {
    open spec fn emit_spec(&self) -> Seq<char> {
        emit_prog(self.view())
    }

    open spec fn emit_ok(&self) -> bool {
        prog_ok(self.view())
    }

    /// One pass per function, then the data and uninitialized-data
    /// sections: exactly the text of [`emit_prog`].
    #[verifier::loop_isolation(false)]
    #[verifier::rlimit(100)]
    fn compile_to_asm(&self) -> (r: Result<String, CodegenError>) {
        let ghost pv = self.view();
        let mut out = String::new();
        out.append(
            "format ELF64 \nsection '.text' executable\nextrn print\nextrn printn\nextrn print_num\nextrn read\npublic _start\n",
        );
        match emit_funs_into(&mut out, &self.fns) {
            Ok(_) => {},
            Err(e) => {
                proof {
                    let k = choose|k: int|
                        0 <= k < self.fns.deep_view().len() && !fn_ok(
                            #[trigger] self.fns.deep_view()[k],
                        );
                    assert(!fn_ok(pv.fns[k]));
                }
                return Err(e);
            },
        }
        out.append("section '.data' writable\n");
        emit_strings_into(&mut out, &self.strings);
        out.append("section '.bss' writable\n");
        emit_bufs_into(&mut out, &self.bufs);
        proof {
            assert(out.view() =~= emit_prog(pv));
        }
        Ok(out)
    }
}

} // verus!
