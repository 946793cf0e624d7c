//! The code emitter: lowers a parsed program to textual x86-64 assembly in
//! Intel syntax, as a stack machine over the native runtime stack — every
//! expression pushes its one result, every binary consumer pops two
//! operands.
//!
//! The specification side is [`asm_of`], the per-node instruction text, and
//! [`compile_spec`], the whole pipeline from source text to listing.
//! [`generate`] is proved to return exactly that.

use crate::decimal::{dec_digits, dec_int};
use crate::errors::CompileError;
use crate::lexer::{lex, tokenize};
use crate::parser::{
    ast_view, labels_canonical, label_num_of, lbl_seq, lvalues_ok, opt_lvalues_ok, p_parse, parse,
    AstS, ArithOp, CmpOp, Node,
};
use vstd::prelude::*;
use vstd::string::StringExecFns;

verus! {

/// The pop-two-operands prefix of every binary consumer.
pub open spec fn pop_operands_text() -> Seq<char> {
    "        pop rdi\n        pop rax\n"@
}

/// The epilogue a `return` runs: restore the frame and leave.
pub open spec fn ret_epilogue_text() -> Seq<char> {
    "        mov rsp, rbp\n        pop rbp\n        ret\n"@
}

/// The `setcc` mnemonic for a comparison operator.
pub open spec fn setcc_text(op: CmpOp) -> Seq<char> {
    match op {
        CmpOp::Lt => "setl"@,
        CmpOp::Lte => "setle"@,
        CmpOp::Eq => "sete"@,
        CmpOp::Neq => "setne"@,
    }
}

/// The instruction mnemonic for a plain arithmetic operator.
pub open spec fn arith_text(op: ArithOp) -> Seq<char> {
    match op {
        ArithOp::Add => "add"@,
        ArithOp::Sub => "sub"@,
        ArithOp::Mul => "imul"@,
        _ => Seq::<char>::empty(),
    }
}

/// The text an optional subtree lowers to: nothing when absent.
pub open spec fn opt_asm_of(o: Option<Box<AstS>>) -> Seq<char>
    decreases o,
{
    match o {
        Some(b) => asm_of(*b),
        None => Seq::<char>::empty(),
    }
}

/// The text of an `if` node around the texts of its subtrees: test the
/// condition, jump past the `then` body to the label when it is zero, and
/// let the `then` body fall through into the `else` body.
pub open spec fn if_text(label: nat, cond: Seq<char>, then: Seq<char>, els: Seq<char>) -> Seq<
    char,
> {
    cond + "        pop rax\n        cmp rax, 0\n"@ + "        je "@ + lbl_seq(label) + "\n"@
        + then + lbl_seq(label) + ":\n"@ + els
}

/// The text of a `while` node around the texts of its subtrees.
pub open spec fn while_text(
    start_label: nat,
    end_label: nat,
    cond: Seq<char>,
    body: Seq<char>,
) -> Seq<char> {
    lbl_seq(start_label) + ":\n"@ + cond + "        pop rax\n        cmp rax, 0\n"@
        + "        je "@ + lbl_seq(end_label) + "\n"@ + body + "        jmp "@ + lbl_seq(
        start_label,
    ) + "\n"@ + lbl_seq(end_label) + ":\n"@
}

/// The trailing text of a `for` node: update, body, the back jump, and the
/// loop-end label.
pub open spec fn for_tail_text(
    start_label: nat,
    end_label: nat,
    update: Seq<char>,
    body: Seq<char>,
) -> Seq<char> {
    update + body + "        jmp "@ + lbl_seq(start_label) + "\n"@ + lbl_seq(end_label) + ":\n"@
}

/// The text of a `for` node around the texts of its subtrees; an absent
/// condition becomes a pushed constant one, and the update text stands
/// before the body.
pub open spec fn for_text(
    start_label: nat,
    end_label: nat,
    init: Seq<char>,
    cond: Seq<char>,
    update: Seq<char>,
    body: Seq<char>,
) -> Seq<char> {
    init + lbl_seq(start_label) + ":\n"@ + cond + "        pop rax\n        cmp rax, 0\n"@
        + "        je "@ + lbl_seq(end_label) + "\n"@ + for_tail_text(
        start_label,
        end_label,
        update,
        body,
    )
}

/// The text of a binary node around the texts of its operands: evaluate
/// both, pop them, and push the combined result.
pub open spec fn binop_text(lhs: Seq<char>, rhs: Seq<char>, combine: Seq<char>) -> Seq<char> {
    lhs + rhs + pop_operands_text() + combine
}

/// The text a subtree lowers to, per the stack-machine contracts: a literal
/// pushes itself, a local pushes its slot, binary nodes evaluate both sides
/// and combine the popped operands, `return` runs the epilogue, and the
/// control-flow nodes wire their condition to their labels.
///
/// On an assignment whose left-hand side is not a local variable the text
/// is unspecified (empty here); the emitter refuses such trees.
pub open spec fn asm_of(a: AstS) -> Seq<char>
    decreases a,
{
    match a {
        AstS::Num(v) => "        push "@ + dec_int(v) + "\n"@,
        AstS::LocalVar { offset } => "        push [rbp-"@ + dec_digits(offset) + "]\n"@,
        AstS::Ret { value } => asm_of(*value) + "        pop rax\n"@ + ret_epilogue_text(),
        AstS::If { label, cond, then, else_ } => if_text(
            label,
            asm_of(*cond),
            asm_of(*then),
            opt_asm_of(else_),
        ),
        AstS::While { start_label, end_label, cond, then } => while_text(
            start_label,
            end_label,
            asm_of(*cond),
            asm_of(*then),
        ),
        AstS::For { start_label, end_label, init, cond, update, then } => for_text(
            start_label,
            end_label,
            opt_asm_of(init),
            match cond {
                Some(b) => asm_of(*b),
                None => "        push 1\n"@,
            },
            opt_asm_of(update),
            asm_of(*then),
        ),
        AstS::ArithOp { value, lhs, rhs } => match value {
            ArithOp::Div => binop_text(
                asm_of(*lhs),
                asm_of(*rhs),
                "        cqo\n        idiv rdi\n        push rax\n"@,
            ),
            ArithOp::Assign => asm_of(*rhs) + (match *lhs {
                AstS::LocalVar { offset } => "        pop rax\n        mov [rbp-"@ + dec_digits(
                    offset,
                ) + "], rax\n        push rax\n"@,
                _ => Seq::<char>::empty(),
            }),
            _ => binop_text(
                asm_of(*lhs),
                asm_of(*rhs),
                "        "@ + arith_text(value) + " rax, rdi\n        push rax\n"@,
            ),
        },
        AstS::CmpOp { value, lhs, rhs } => binop_text(
            asm_of(*lhs),
            asm_of(*rhs),
            "        cmp rax, rdi\n        "@ + setcc_text(value)
                + " al\n        movzb rax, al\n        push rax\n"@,
        ),
    }
}

/// The text a statement sequence lowers to, in order.
pub open spec fn stmts_asm(ns: Seq<AstS>) -> Seq<char>
    decreases ns.len(),
{
    if ns.len() == 0 {
        Seq::<char>::empty()
    } else {
        stmts_asm(ns.drop_last()) + asm_of(ns.last())
    }
}

/// The fixed preamble: directives, the `main` entry, and a prologue that
/// reserves `stack_size` bytes for the locals.
pub open spec fn preamble_text(stack_size: nat) -> Seq<char> {
    ".intel_syntax noprefix\n.globl main\n\nmain:\n"@
        + "        push rbp\n        mov rbp, rsp\n        sub rsp, "@ + dec_digits(stack_size)
        + "\n"@
}

/// The whole listing of a program: preamble, then each statement in order.
pub open spec fn program_text(ns: Seq<AstS>, stack_size: nat) -> Seq<char> {
    preamble_text(stack_size) + stmts_asm(ns)
}

/// Whether every assignment in a statement sequence targets a local.
pub open spec fn stmts_lvalues_ok(ns: Seq<AstS>) -> bool {
    forall|k: int| 0 <= k < ns.len() ==> lvalues_ok(#[trigger] ns[k])
}

/// What compiling the whole source yields: the outcome of lexing, then
/// parsing, then the assignment-target check, then emission. The frame size
/// is eight bytes per distinct identifier.
pub open spec fn compile_spec(s: Seq<char>) -> Result<Seq<char>, CompileError> {
    match lex(s) {
        Result::Err(loc) => Result::Err(CompileError::InvalidToken { location: loc as usize }),
        Result::Ok(ts) => match p_parse(ts) {
            Result::Err(e) => Result::Err(e),
            Result::Ok((ns, c)) => {
                if stmts_lvalues_ok(ns) {
                    Result::Ok(program_text(ns, (8 * c.names.len()) as nat))
                } else {
                    Result::Err(CompileError::InvalidAssignTarget)
                }
            },
        },
    }
}

/// Whether every assignment in the optional subtree targets a local.
fn opt_node_lvalues_ok(o: &Option<Box<Node>>) -> (r: bool)
    ensures
        r == opt_lvalues_ok(crate::parser::opt_ast_view(*o)),
    decreases o,
{
    match o {
        Some(b) => node_lvalues_ok(b),
        None => true,
    }
}

/// Whether every assignment in the tree targets a local variable.
fn node_lvalues_ok(n: &Node) -> (r: bool)
    ensures
        r == lvalues_ok(n@),
    decreases n,
{
    match n {
        Node::Num(_) => true,
        Node::LocalVar { .. } => true,
        Node::Ret { value } => node_lvalues_ok(value),
        Node::If { cond, then, else_, .. } => node_lvalues_ok(cond) && node_lvalues_ok(then)
            && opt_node_lvalues_ok(else_),
        Node::While { cond, then, .. } => node_lvalues_ok(cond) && node_lvalues_ok(then),
        Node::For { init, cond, update, then, .. } => opt_node_lvalues_ok(init)
            && opt_node_lvalues_ok(cond) && opt_node_lvalues_ok(update) && node_lvalues_ok(then),
        Node::ArithOp { value, lhs, rhs } => {
            let lhs_is_local = match &**lhs {
                Node::LocalVar { .. } => true,
                _ => false,
            };
            (*value != ArithOp::Assign || lhs_is_local) && node_lvalues_ok(lhs) && node_lvalues_ok(
                rhs,
            )
        },
        Node::CmpOp { lhs, rhs, .. } => node_lvalues_ok(lhs) && node_lvalues_ok(rhs),
    }
}

/// Lowers one optional subtree, appending to `out`.
fn opt_to_asem(o: &Option<Box<Node>>, out: &mut String)
    requires
        opt_lvalues_ok(crate::parser::opt_ast_view(*o)),
        crate::parser::opt_labels_canonical(*o),
    ensures
        final(out)@ == old(out)@ + opt_asm_of(crate::parser::opt_ast_view(*o)),
    decreases o, 3int,
{
    match o {
        Some(b) => {
            proof {
                assert(crate::parser::opt_ast_view(*o) == Some(Box::new(ast_view(**b))));
                assert(lvalues_ok(ast_view(**b)));
                assert(labels_canonical(**b));
            }
            emit_node(&**b, out);
        },
        None => {
            proof {
                assert(out@ =~= old(out)@ + opt_asm_of(crate::parser::opt_ast_view(*o)));
            }
        },
    }
}

/// Lowers an `if` node, appending to `out`.
#[verifier::rlimit(100)]
#[verifier::spinoff_prover]
fn emit_if(ast: &Node, out: &mut String)
    requires
        ast matches Node::If { .. },
        lvalues_ok(ast@),
        labels_canonical(*ast),
    ensures
        final(out)@ == old(out)@ + asm_of(ast@),
    decreases ast, 1int,
{
    match ast {
        Node::If { label, cond, then, else_ } => {
            emit_node(cond, out);
            out.append("        pop rax\n        cmp rax, 0\n");
            out.append("        je ");
            out.append(label.as_str());
            out.append("\n");
            emit_node(then, out);
            out.append(label.as_str());
            out.append(":\n");
            opt_to_asem(else_, out);
            proof {
                assert(label@ == lbl_seq(label_num_of(label@)));
                assert(out@ =~= old(out)@ + asm_of(ast@));
            }
        },
        _ => {
            proof {
                assert(false);
            }
        },
    }
}

/// Lowers a `while` node, appending to `out`.
#[verifier::rlimit(100)]
#[verifier::spinoff_prover]
fn emit_while(ast: &Node, out: &mut String)
    requires
        ast matches Node::While { .. },
        lvalues_ok(ast@),
        labels_canonical(*ast),
    ensures
        final(out)@ == old(out)@ + asm_of(ast@),
    decreases ast, 1int,
{
    match ast {
        Node::While { start_label, end_label, cond, then } => {
            out.append(start_label.as_str());
            out.append(":\n");
            emit_node(cond, out);
            out.append("        pop rax\n        cmp rax, 0\n");
            out.append("        je ");
            out.append(end_label.as_str());
            out.append("\n");
            emit_node(then, out);
            out.append("        jmp ");
            out.append(start_label.as_str());
            out.append("\n");
            out.append(end_label.as_str());
            out.append(":\n");
            proof {
                assert(start_label@ == lbl_seq(label_num_of(start_label@)));
                assert(end_label@ == lbl_seq(label_num_of(end_label@)));
                assert(out@ =~= old(out)@ + asm_of(ast@));
            }
        },
        _ => {
            proof {
                assert(false);
            }
        },
    }
}

/// Lowers the trailing part of a `for` node, appending to `out`.
#[verifier::rlimit(100)]
#[verifier::spinoff_prover]
fn emit_for_tail<'n>(
    ast: &'n Node,
    start_label: &'n String,
    end_label: &'n String,
    update: &'n Option<Box<Node>>,
    body: &'n Node,
    out: &mut String,
)
    requires
        *ast matches Node::For { update: u, then: t, .. } && u == *update && *t == *body,
        crate::parser::label_text_wf(start_label@),
        crate::parser::label_text_wf(end_label@),
        opt_lvalues_ok(crate::parser::opt_ast_view(*update)),
        crate::parser::opt_labels_canonical(*update),
        lvalues_ok(body@),
        labels_canonical(*body),
    ensures
        final(out)@ == old(out)@ + for_tail_text(
            label_num_of(start_label@),
            label_num_of(end_label@),
            opt_asm_of(crate::parser::opt_ast_view(*update)),
            asm_of(body@),
        ),
    decreases ast, 0int,
{
    opt_to_asem(update, out);
    emit_node(body, out);
    out.append("        jmp ");
    out.append(start_label.as_str());
    out.append("\n");
    out.append(end_label.as_str());
    out.append(":\n");
    proof {
        assert(out@ =~= old(out)@ + for_tail_text(
            label_num_of(start_label@),
            label_num_of(end_label@),
            opt_asm_of(crate::parser::opt_ast_view(*update)),
            asm_of(body@),
        ));
    }
}

/// Lowers a `for` node, appending to `out`. The update text stands before
/// the body, as the lowering contract in the module description fixes it.
#[verifier::rlimit(100)]
#[verifier::spinoff_prover]
fn emit_for(ast: &Node, out: &mut String)
    requires
        ast matches Node::For { .. },
        lvalues_ok(ast@),
        labels_canonical(*ast),
    ensures
        final(out)@ == old(out)@ + asm_of(ast@),
    decreases ast, 1int,
{
    match ast {
        Node::For { start_label, end_label, init, cond, update, then } => {
            proof {
                assert(ast@ == (AstS::For {
                    start_label: label_num_of(start_label@),
                    end_label: label_num_of(end_label@),
                    init: crate::parser::opt_ast_view(*init),
                    cond: crate::parser::opt_ast_view(*cond),
                    update: crate::parser::opt_ast_view(*update),
                    then: Box::new(ast_view(**then)),
                }));
                assert(opt_lvalues_ok(crate::parser::opt_ast_view(*init)));
                assert(opt_lvalues_ok(crate::parser::opt_ast_view(*cond)));
                assert(opt_lvalues_ok(crate::parser::opt_ast_view(*update)));
                assert(crate::parser::opt_labels_canonical(*init));
                assert(crate::parser::opt_labels_canonical(*cond));
                assert(crate::parser::opt_labels_canonical(*update));
                assert(crate::parser::label_text_wf(start_label@));
                assert(crate::parser::label_text_wf(end_label@));
            }
            opt_to_asem(init, out);
            out.append(start_label.as_str());
            out.append(":\n");
            match cond {
                Some(b) => {
                    proof {
                        assert(crate::parser::opt_ast_view(*cond) == Some(
                            Box::new(ast_view(**b)),
                        ));
                        assert(lvalues_ok(ast_view(**b)));
                        assert(labels_canonical(**b));
                    }
                    emit_node(&**b, out);
                },
                None => {
                    out.append("        push 1\n");
                },
            }
            out.append("        pop rax\n        cmp rax, 0\n");
            out.append("        je ");
            out.append(end_label.as_str());
            out.append("\n");
            emit_for_tail(ast, start_label, end_label, update, then, out);
            proof {
                assert(start_label@ == lbl_seq(label_num_of(start_label@)));
                assert(end_label@ == lbl_seq(label_num_of(end_label@)));
                assert(out@ =~= old(out)@ + asm_of(ast@));
            }
        },
        _ => {
            proof {
                assert(false);
            }
        },
    }
}

/// Lowers one subtree, appending its instruction text to `out`.
#[verifier::rlimit(100)]
#[verifier::spinoff_prover]
fn emit_node(ast: &Node, out: &mut String)
    requires
        lvalues_ok(ast@),
        labels_canonical(*ast),
    ensures
        final(out)@ == old(out)@ + asm_of(ast@),
    decreases ast, 2int,
{
    match ast {
        Node::Num(v) => {
            out.append("        push ");
            let digits = crate::decimal::i64_to_string(*v);
            out.append(digits.as_str());
            out.append("\n");
            proof {
                assert(out@ =~= old(out)@ + asm_of(ast@));
            }
        },
        Node::LocalVar { offset } => {
            out.append("        push [rbp-");
            let digits = crate::decimal::usize_to_string(*offset);
            out.append(digits.as_str());
            out.append("]\n");
            proof {
                assert(out@ =~= old(out)@ + asm_of(ast@));
            }
        },
        Node::Ret { value } => {
            emit_node(value, out);
            out.append("        pop rax\n");
            out.append("        mov rsp, rbp\n        pop rbp\n        ret\n");
            proof {
                assert(out@ =~= old(out)@ + asm_of(ast@));
            }
        },
        Node::If { .. } => {
            emit_if(ast, out);
        },
        Node::While { .. } => {
            emit_while(ast, out);
        },
        Node::For { .. } => {
            emit_for(ast, out);
        },
        Node::ArithOp { value, lhs, rhs } => match value {
            ArithOp::Div => {
                emit_node(lhs, out);
                emit_node(rhs, out);
                out.append("        pop rdi\n        pop rax\n");
                out.append("        cqo\n        idiv rdi\n        push rax\n");
                proof {
                    assert(out@ =~= old(out)@ + asm_of(ast@));
                }
            },
            ArithOp::Assign => {
                emit_node(rhs, out);
                match &**lhs {
                    Node::LocalVar { offset } => {
                        out.append("        pop rax\n        mov [rbp-");
                        let digits = crate::decimal::usize_to_string(*offset);
                        out.append(digits.as_str());
                        out.append("], rax\n        push rax\n");
                        proof {
                            assert(out@ =~= old(out)@ + asm_of(ast@));
                        }
                    },
                    _ => {
                        proof {
                            assert(false);
                        }
                    },
                }
            },
            _ => {
                emit_node(lhs, out);
                emit_node(rhs, out);
                out.append("        pop rdi\n        pop rax\n");
                out.append("        ");
                match value {
                    ArithOp::Sub => out.append("sub"),
                    ArithOp::Mul => out.append("imul"),
                    _ => out.append("add"),
                }
                out.append(" rax, rdi\n        push rax\n");
                proof {
                    assert(out@ =~= old(out)@ + asm_of(ast@));
                }
            },
        },
        Node::CmpOp { value, lhs, rhs } => {
            emit_node(lhs, out);
            emit_node(rhs, out);
            out.append("        pop rdi\n        pop rax\n");
            out.append("        cmp rax, rdi\n        ");
            match value {
                CmpOp::Lt => out.append("setl"),
                CmpOp::Lte => out.append("setle"),
                CmpOp::Eq => out.append("sete"),
                CmpOp::Neq => out.append("setne"),
            }
            out.append(" al\n        movzb rax, al\n        push rax\n");
            proof {
                assert(out@ =~= old(out)@ + asm_of(ast@));
            }
        },
    }
}

/// The instruction text of one subtree.
pub fn to_asem(ast: &Node) -> (r: String)
    requires
        lvalues_ok(ast@),
        labels_canonical(*ast),
    ensures
        r@ == asm_of(ast@),
{
    let mut out = String::new();
    emit_node(ast, &mut out);
    proof {
        assert(out@ =~= asm_of(ast@));
    }
    out
}

/// The instruction text of a statement sequence, in order.
pub fn nodes_to_asem(nodes: &Vec<Node>) -> (r: String)
    requires
        stmts_lvalues_ok(nodes@.map_values(|n: Node| n@)),
        forall|k: int| 0 <= k < nodes@.len() ==> labels_canonical(#[trigger] nodes@[k]),
    ensures
        r@ == stmts_asm(nodes@.map_values(|n: Node| n@)),
{
    let ghost views = nodes@.map_values(|n: Node| n@);
    let mut out = String::new();
    let n = nodes.len();
    let mut i: usize = 0;
    proof {
        assert(out@ =~= stmts_asm(views.take(0)));
    }
    while i < n
        invariant
            n == nodes@.len(),
            views == nodes@.map_values(|nd: Node| nd@),
            stmts_lvalues_ok(views),
            forall|k: int| 0 <= k < nodes@.len() ==> labels_canonical(#[trigger] nodes@[k]),
            0 <= i <= n,
            out@ == stmts_asm(views.take(i as int)),
        decreases n - i,
    {
        proof {
            assert(views[i as int] == nodes@[i as int]@);
        }
        emit_node(&nodes[i], &mut out);
        proof {
            assert(views.take(i as int + 1).drop_last() =~= views.take(i as int));
            assert(views.take(i as int + 1).last() == views[i as int]);
        }
        i += 1;
    }
    proof {
        assert(views.take(n as int) =~= views);
    }
    out
}

/// Compiles one source program to its assembly listing, or reports the
/// first error: an offending character, a structural parse error, or an
/// assignment whose target is not a local variable.
#[verifier::rlimit(100)]
#[verifier::spinoff_prover]
#[verifier::loop_isolation(false)]
pub fn generate(c_code: &str) -> (r: Result<String, CompileError>)
    requires
        8 * c_code@.len() + 24 <= usize::MAX,
    ensures
        match compile_spec(c_code@) {
            Result::Ok(text) => r matches Result::Ok(out) && out@ == text,
            Result::Err(e) => r matches Result::Err(e2) && e2 == e,
        },
{
    let tokens = match tokenize(c_code) {
        Result::Ok(t) => t,
        Result::Err(e) => {
            return Result::Err(e);
        },
    };
    proof {
        crate::lexer::lemma_lex_from_props(c_code@, 0);
    }
    let ghost token_views = tokens@;
    let parsed = match parse(tokens) {
        Result::Ok(p) => p,
        Result::Err(e) => {
            return Result::Err(e);
        },
    };
    let ghost views = parsed.nodes@.map_values(|n: Node| n@);
    let n = parsed.nodes.len();
    let mut i: usize = 0;
    while i < n
        invariant
            n == parsed.nodes@.len(),
            views == parsed.nodes@.map_values(|nd: Node| nd@),
            0 <= i <= n,
            forall|k: int| 0 <= k < i ==> lvalues_ok(#[trigger] views[k]),
        decreases n - i,
    {
        proof {
            assert(views[i as int] == parsed.nodes@[i as int]@);
        }
        if !node_lvalues_ok(&parsed.nodes[i]) {
            return Result::Err(CompileError::InvalidAssignTarget);
        }
        i += 1;
    }
    let mut out = ".intel_syntax noprefix\n.globl main\n\nmain:\n".to_owned();
    out.append("        push rbp\n        mov rbp, rsp\n        sub rsp, ");
    let digits = crate::decimal::usize_to_string(parsed.stack_size);
    out.append(digits.as_str());
    out.append("\n");
    let body = nodes_to_asem(&parsed.nodes);
    out.append(body.as_str());
    proof {
        assert(stmts_lvalues_ok(views));
        let (ns, c) = p_parse(token_views)->Ok_0;
        assert(views == ns);
        assert(compile_spec(c_code@) == Result::<Seq<char>, CompileError>::Ok(
            program_text(ns, (8 * c.names.len()) as nat),
        ));
        assert(out@ =~= compile_spec(c_code@)->Ok_0);
    }
    Result::Ok(out)
}

/// The whole pipeline is a function of the source text alone: equal inputs
/// compile to byte-identical outcomes, in one run or across runs.
pub proof fn lemma_compile_deterministic(s1: Seq<char>, s2: Seq<char>)
    requires
        s1 == s2,
    ensures
        compile_spec(s1) == compile_spec(s2),
{
}

/// Whether `suffix` is the tail of `t`.
pub open spec fn ends_with(t: Seq<char>, suffix: Seq<char>) -> bool {
    suffix.len() <= t.len() && t.subrange(t.len() - suffix.len(), t.len() as int) == suffix
}

/// Whether `t` begins with `prefix`.
pub open spec fn starts_with(t: Seq<char>, prefix: Seq<char>) -> bool {
    prefix.len() <= t.len() && t.subrange(0, prefix.len() as int) == prefix
}

/// Whether `pat` stands in `t` at position `at`.
pub open spec fn occurs_at(t: Seq<char>, pat: Seq<char>, at: int) -> bool {
    0 <= at && at + pat.len() <= t.len() && t.subrange(at, at + pat.len()) == pat
}

/// Whether `pat` stands somewhere in `t`.
pub open spec fn contains_seq(t: Seq<char>, pat: Seq<char>) -> bool {
    exists|at: int| occurs_at(t, pat, at)
}

/// Every listing opens with the directives and the entry: the
/// `.globl main` directive and the `main:` label stand at its head.
pub proof fn lemma_listing_starts_with_entry(ns: Seq<AstS>, stack_size: nat)
    ensures
        starts_with(
            program_text(ns, stack_size),
            ".intel_syntax noprefix\n.globl main\n\nmain:\n"@,
        ),
{
    let t = program_text(ns, stack_size);
    let head = ".intel_syntax noprefix\n.globl main\n\nmain:\n"@;
    assert(t.subrange(0, head.len() as int) =~= head);
}

/// An `if` node's text defines the one label it references: the forward
/// jump to the end-of-then label lands on a definition the same node
/// emits.
pub proof fn lemma_if_defines_its_label(
    label: nat,
    cond: Seq<char>,
    then: Seq<char>,
    els: Seq<char>,
)
    ensures
        contains_seq(if_text(label, cond, then, els), "        je "@ + lbl_seq(label) + "\n"@),
        contains_seq(if_text(label, cond, then, els), lbl_seq(label) + ":\n"@),
{
    let t = if_text(label, cond, then, els);
    let jref = "        je "@ + lbl_seq(label) + "\n"@;
    let jat = cond.len() + "        pop rax\n        cmp rax, 0\n"@.len();
    assert(t.subrange(jat as int, (jat + jref.len()) as int) =~= jref);
    assert(occurs_at(t, jref, jat as int));
    let ddef = lbl_seq(label) + ":\n"@;
    let dat = jat + jref.len() + then.len();
    assert(t.subrange(dat as int, (dat + ddef.len()) as int) =~= ddef);
    assert(occurs_at(t, ddef, dat as int));
}

/// A `while` node's text defines the two labels it references: the loop
/// head that the back jump targets, and the loop end that the exit jump
/// targets.
pub proof fn lemma_while_defines_its_labels(
    start_label: nat,
    end_label: nat,
    cond: Seq<char>,
    body: Seq<char>,
)
    ensures
        contains_seq(
            while_text(start_label, end_label, cond, body),
            "        je "@ + lbl_seq(end_label) + "\n"@,
        ),
        contains_seq(
            while_text(start_label, end_label, cond, body),
            "        jmp "@ + lbl_seq(start_label) + "\n"@,
        ),
        contains_seq(while_text(start_label, end_label, cond, body), lbl_seq(start_label) + ":\n"@),
        contains_seq(while_text(start_label, end_label, cond, body), lbl_seq(end_label) + ":\n"@),
{
    let t = while_text(start_label, end_label, cond, body);
    let sdef = lbl_seq(start_label) + ":\n"@;
    assert(t.subrange(0, sdef.len() as int) =~= sdef);
    assert(occurs_at(t, sdef, 0));
    let jref = "        je "@ + lbl_seq(end_label) + "\n"@;
    let jat = sdef.len() + cond.len() + "        pop rax\n        cmp rax, 0\n"@.len();
    assert(t.subrange(jat as int, (jat + jref.len()) as int) =~= jref);
    assert(occurs_at(t, jref, jat as int));
    let bref = "        jmp "@ + lbl_seq(start_label) + "\n"@;
    let bat = jat + jref.len() + body.len();
    assert(t.subrange(bat as int, (bat + bref.len()) as int) =~= bref);
    assert(occurs_at(t, bref, bat as int));
    let edef = lbl_seq(end_label) + ":\n"@;
    let eat = bat + bref.len();
    assert(t.subrange(eat as int, (eat + edef.len()) as int) =~= edef);
    assert(occurs_at(t, edef, eat as int));
}

/// A `for` node's text defines the two labels it references, exactly as a
/// `while` node's does.
pub proof fn lemma_for_defines_its_labels(
    start_label: nat,
    end_label: nat,
    init: Seq<char>,
    cond: Seq<char>,
    update: Seq<char>,
    body: Seq<char>,
)
    ensures
        contains_seq(
            for_text(start_label, end_label, init, cond, update, body),
            "        je "@ + lbl_seq(end_label) + "\n"@,
        ),
        contains_seq(
            for_text(start_label, end_label, init, cond, update, body),
            "        jmp "@ + lbl_seq(start_label) + "\n"@,
        ),
        contains_seq(
            for_text(start_label, end_label, init, cond, update, body),
            lbl_seq(start_label) + ":\n"@,
        ),
        contains_seq(
            for_text(start_label, end_label, init, cond, update, body),
            lbl_seq(end_label) + ":\n"@,
        ),
{
    let t = for_text(start_label, end_label, init, cond, update, body);
    let sdef = lbl_seq(start_label) + ":\n"@;
    assert(t.subrange(init.len() as int, (init.len() + sdef.len()) as int) =~= sdef);
    assert(occurs_at(t, sdef, init.len() as int));
    let jref = "        je "@ + lbl_seq(end_label) + "\n"@;
    let jat = init.len() + sdef.len() + cond.len() + "        pop rax\n        cmp rax, 0\n"@.len();
    assert(t.subrange(jat as int, (jat + jref.len()) as int) =~= jref);
    assert(occurs_at(t, jref, jat as int));
    let bref = "        jmp "@ + lbl_seq(start_label) + "\n"@;
    let bat = jat + jref.len() + update.len() + body.len();
    assert(t.subrange(bat as int, (bat + bref.len()) as int) =~= bref);
    assert(occurs_at(t, bref, bat as int));
    let edef = lbl_seq(end_label) + ":\n"@;
    let eat = bat + bref.len();
    assert(t.subrange(eat as int, (eat + edef.len()) as int) =~= edef);
    assert(occurs_at(t, edef, eat as int));
}

/// Every `return` node's text ends with the epilogue
/// `mov rsp, rbp; pop rbp; ret`.
pub proof fn lemma_ret_ends_with_epilogue(v: AstS)
    ensures
        ends_with(asm_of(AstS::Ret { value: Box::new(v) }), ret_epilogue_text()),
{
    let t = asm_of(AstS::Ret { value: Box::new(v) });
    let prefix = asm_of(v) + "        pop rax\n"@;
    assert(t == prefix + ret_epilogue_text());
    assert(t.subrange(t.len() - ret_epilogue_text().len(), t.len() as int)
        =~= ret_epilogue_text());
}

/// Whether the letter of the `.globl` directive never occurs in `t`. The
/// emitted instructions, numbers and labels use no such letter, which pins
/// every `.globl` to the preamble.
pub open spec fn has_no_g(t: Seq<char>) -> bool {
    forall|k: int| 0 <= k < t.len() ==> t[k] != 'g'
}

/// Concatenation preserves [`has_no_g`].
proof fn lemma_no_g_concat(a: Seq<char>, b: Seq<char>)
    requires
        has_no_g(a),
        has_no_g(b),
    ensures
        has_no_g(a + b),
{
    assert forall|k: int| 0 <= k < (a + b).len() implies (a + b)[k] != 'g' by {
        if k < a.len() {
            assert((a + b)[k] == a[k]);
        } else {
            assert((a + b)[k] == b[k - a.len()]);
        }
    }
}

/// Decimal digits carry no letters.
proof fn lemma_no_g_digits(n: nat)
    ensures
        has_no_g(dec_digits(n)),
{
    crate::decimal::lemma_dec_digits_val(n);
    assert forall|k: int| 0 <= k < dec_digits(n).len() implies dec_digits(n)[k] != 'g' by {
        assert(crate::decimal::is_digit_char(dec_digits(n)[k]));
    }
}

/// A rendered integer carries no letters.
proof fn lemma_no_g_dec_int(v: int)
    ensures
        has_no_g(dec_int(v)),
{
    if v < 0 {
        lemma_no_g_digits((-v) as nat);
        assert(has_no_g(seq!['-']));
        lemma_no_g_concat(seq!['-'], dec_digits((-v) as nat));
    } else {
        lemma_no_g_digits(v as nat);
    }
}

/// A label carries no `g`.
proof fn lemma_no_g_lbl(k: nat)
    ensures
        has_no_g(lbl_seq(k)),
{
    reveal_strlit(".L");
    assert(has_no_g(".L"@));
    lemma_no_g_digits(k);
    lemma_no_g_concat(".L"@, dec_digits(k));
}

/// The text of an optional subtree carries no `g`.
proof fn lemma_no_g_opt(o: Option<Box<AstS>>)
    ensures
        has_no_g(opt_asm_of(o)),
    decreases o,
{
    match o {
        Some(b) => {
            lemma_no_g_asm(*b);
        },
        None => {},
    }
}

/// No subtree's text contains the letter `g`: the instruction set the
/// emitter uses, its numbers and its labels never spell one.
proof fn lemma_no_g_asm(a: AstS)
    ensures
        has_no_g(asm_of(a)),
    decreases a,
{
    reveal_strlit("        push ");
    reveal_strlit("        push [rbp-");
    reveal_strlit("]\n");
    reveal_strlit("\n");
    reveal_strlit(":\n");
    reveal_strlit("        pop rax\n");
    reveal_strlit("        pop rdi\n        pop rax\n");
    reveal_strlit("        mov rsp, rbp\n        pop rbp\n        ret\n");
    reveal_strlit("        pop rax\n        cmp rax, 0\n");
    reveal_strlit("        je ");
    reveal_strlit("        jmp ");
    reveal_strlit("        push 1\n");
    reveal_strlit("        cqo\n        idiv rdi\n        push rax\n");
    reveal_strlit("        pop rax\n        mov [rbp-");
    reveal_strlit("], rax\n        push rax\n");
    reveal_strlit("        ");
    reveal_strlit(" rax, rdi\n        push rax\n");
    reveal_strlit("add");
    reveal_strlit("sub");
    reveal_strlit("imul");
    reveal_strlit("        cmp rax, rdi\n        ");
    reveal_strlit("setl");
    reveal_strlit("setle");
    reveal_strlit("sete");
    reveal_strlit("setne");
    reveal_strlit(" al\n        movzb rax, al\n        push rax\n");
    match a {
        AstS::Num(v) => {
            lemma_no_g_dec_int(v);
            assert(has_no_g(asm_of(a))) by {
                lemma_no_g_concat("        push "@, dec_int(v));
                lemma_no_g_concat("        push "@ + dec_int(v), "\n"@);
            }
        },
        AstS::LocalVar { offset } => {
            lemma_no_g_digits(offset);
            lemma_no_g_concat("        push [rbp-"@, dec_digits(offset));
            lemma_no_g_concat("        push [rbp-"@ + dec_digits(offset), "]\n"@);
        },
        AstS::Ret { value } => {
            lemma_no_g_asm(*value);
            lemma_no_g_concat(asm_of(*value), "        pop rax\n"@);
            lemma_no_g_concat(asm_of(*value) + "        pop rax\n"@, ret_epilogue_text());
        },
        AstS::If { label, cond, then, else_ } => {
            lemma_no_g_asm(*cond);
            lemma_no_g_asm(*then);
            lemma_no_g_opt(else_);
            lemma_no_g_lbl(label);
            let p1 = asm_of(*cond) + "        pop rax\n        cmp rax, 0\n"@;
            lemma_no_g_concat(asm_of(*cond), "        pop rax\n        cmp rax, 0\n"@);
            lemma_no_g_concat(p1, "        je "@);
            lemma_no_g_concat(p1 + "        je "@, lbl_seq(label));
            let p2 = p1 + "        je "@ + lbl_seq(label);
            lemma_no_g_concat(p2, "\n"@);
            lemma_no_g_concat(p2 + "\n"@, asm_of(*then));
            let p3 = p2 + "\n"@ + asm_of(*then);
            lemma_no_g_concat(p3, lbl_seq(label));
            lemma_no_g_concat(p3 + lbl_seq(label), ":\n"@);
            lemma_no_g_concat(p3 + lbl_seq(label) + ":\n"@, opt_asm_of(else_));
        },
        AstS::While { start_label, end_label, cond, then } => {
            lemma_no_g_asm(*cond);
            lemma_no_g_asm(*then);
            lemma_no_g_lbl(start_label);
            lemma_no_g_lbl(end_label);
            lemma_no_g_concat(lbl_seq(start_label), ":\n"@);
            let p1 = lbl_seq(start_label) + ":\n"@;
            lemma_no_g_concat(p1, asm_of(*cond));
            lemma_no_g_concat(p1 + asm_of(*cond), "        pop rax\n        cmp rax, 0\n"@);
            let p2 = p1 + asm_of(*cond) + "        pop rax\n        cmp rax, 0\n"@;
            lemma_no_g_concat(p2, "        je "@);
            lemma_no_g_concat(p2 + "        je "@, lbl_seq(end_label));
            let p3 = p2 + "        je "@ + lbl_seq(end_label);
            lemma_no_g_concat(p3, "\n"@);
            lemma_no_g_concat(p3 + "\n"@, asm_of(*then));
            let p4 = p3 + "\n"@ + asm_of(*then);
            lemma_no_g_concat(p4, "        jmp "@);
            lemma_no_g_concat(p4 + "        jmp "@, lbl_seq(start_label));
            let p5 = p4 + "        jmp "@ + lbl_seq(start_label);
            lemma_no_g_concat(p5, "\n"@);
            lemma_no_g_concat(p5 + "\n"@, lbl_seq(end_label));
            lemma_no_g_concat(p5 + "\n"@ + lbl_seq(end_label), ":\n"@);
        },
        AstS::For { start_label, end_label, init, cond, update, then } => {
            lemma_no_g_opt(init);
            lemma_no_g_opt(update);
            lemma_no_g_asm(*then);
            lemma_no_g_lbl(start_label);
            lemma_no_g_lbl(end_label);
            let cond_t = match cond {
                Some(b) => asm_of(*b),
                None => "        push 1\n"@,
            };
            match cond {
                Some(b) => {
                    lemma_no_g_asm(*b);
                },
                None => {},
            }
            lemma_no_g_concat(opt_asm_of(init), lbl_seq(start_label));
            let p1 = opt_asm_of(init) + lbl_seq(start_label);
            lemma_no_g_concat(p1, ":\n"@);
            lemma_no_g_concat(p1 + ":\n"@, cond_t);
            let p2 = p1 + ":\n"@ + cond_t;
            lemma_no_g_concat(p2, "        pop rax\n        cmp rax, 0\n"@);
            let p3 = p2 + "        pop rax\n        cmp rax, 0\n"@;
            lemma_no_g_concat(p3, "        je "@);
            lemma_no_g_concat(p3 + "        je "@, lbl_seq(end_label));
            let p4 = p3 + "        je "@ + lbl_seq(end_label);
            lemma_no_g_concat(p4, "\n"@);
            lemma_no_g_concat(opt_asm_of(update), asm_of(*then));
            let t1 = opt_asm_of(update) + asm_of(*then);
            lemma_no_g_concat(t1, "        jmp "@);
            lemma_no_g_concat(t1 + "        jmp "@, lbl_seq(start_label));
            let t2 = t1 + "        jmp "@ + lbl_seq(start_label);
            lemma_no_g_concat(t2, "\n"@);
            lemma_no_g_concat(t2 + "\n"@, lbl_seq(end_label));
            lemma_no_g_concat(t2 + "\n"@ + lbl_seq(end_label), ":\n"@);
            assert(for_tail_text(start_label, end_label, opt_asm_of(update), asm_of(*then))
                == t2 + "\n"@ + lbl_seq(end_label) + ":\n"@);
            lemma_no_g_concat(
                p4 + "\n"@,
                for_tail_text(start_label, end_label, opt_asm_of(update), asm_of(*then)),
            );
        },
        AstS::ArithOp { value, lhs, rhs } => {
            match value {
                ArithOp::Div => {
                    lemma_no_g_asm(*lhs);
                    lemma_no_g_asm(*rhs);
                    lemma_no_g_concat(asm_of(*lhs), asm_of(*rhs));
                    lemma_no_g_concat(asm_of(*lhs) + asm_of(*rhs), pop_operands_text());
                    lemma_no_g_concat(
                        asm_of(*lhs) + asm_of(*rhs) + pop_operands_text(),
                        "        cqo\n        idiv rdi\n        push rax\n"@,
                    );
                },
                ArithOp::Assign => {
                    lemma_no_g_asm(*rhs);
                    match *lhs {
                        AstS::LocalVar { offset } => {
                            lemma_no_g_digits(offset);
                            lemma_no_g_concat("        pop rax\n        mov [rbp-"@, dec_digits(offset));
                            let p1 = "        pop rax\n        mov [rbp-"@ + dec_digits(offset);
                            lemma_no_g_concat(p1, "], rax\n        push rax\n"@);
                            lemma_no_g_concat(asm_of(*rhs), p1 + "], rax\n        push rax\n"@);
                        },
                        _ => {
                            lemma_no_g_concat(asm_of(*rhs), Seq::<char>::empty());
                        },
                    }
                },
                _ => {
                    lemma_no_g_asm(*lhs);
                    lemma_no_g_asm(*rhs);
                    assert(has_no_g(arith_text(value)));
                    lemma_no_g_concat("        "@, arith_text(value));
                    lemma_no_g_concat(
                        "        "@ + arith_text(value),
                        " rax, rdi\n        push rax\n"@,
                    );
                    lemma_no_g_concat(asm_of(*lhs), asm_of(*rhs));
                    lemma_no_g_concat(asm_of(*lhs) + asm_of(*rhs), pop_operands_text());
                    lemma_no_g_concat(
                        asm_of(*lhs) + asm_of(*rhs) + pop_operands_text(),
                        "        "@ + arith_text(value) + " rax, rdi\n        push rax\n"@,
                    );
                },
            }
        },
        AstS::CmpOp { value, lhs, rhs } => {
            lemma_no_g_asm(*lhs);
            lemma_no_g_asm(*rhs);
            assert(has_no_g(setcc_text(value)));
            lemma_no_g_concat("        cmp rax, rdi\n        "@, setcc_text(value));
            lemma_no_g_concat(
                "        cmp rax, rdi\n        "@ + setcc_text(value),
                " al\n        movzb rax, al\n        push rax\n"@,
            );
            lemma_no_g_concat(asm_of(*lhs), asm_of(*rhs));
            lemma_no_g_concat(asm_of(*lhs) + asm_of(*rhs), pop_operands_text());
            lemma_no_g_concat(
                asm_of(*lhs) + asm_of(*rhs) + pop_operands_text(),
                "        cmp rax, rdi\n        "@ + setcc_text(value)
                    + " al\n        movzb rax, al\n        push rax\n"@,
            );
        },
    }
}

/// No statement sequence's text contains the letter `g`.
proof fn lemma_no_g_stmts(ns: Seq<AstS>)
    ensures
        has_no_g(stmts_asm(ns)),
    decreases ns.len(),
{
    if ns.len() > 0 {
        lemma_no_g_stmts(ns.drop_last());
        lemma_no_g_asm(ns.last());
        lemma_no_g_concat(stmts_asm(ns.drop_last()), asm_of(ns.last()));
    }
}

/// The `.globl main` directive stands exactly once in every listing: at
/// its one place in the preamble, and nowhere else, since no emitted
/// instruction, number or label contains the letter it starts its name
/// with.
pub proof fn lemma_globl_main_exactly_once(ns: Seq<AstS>, stack_size: nat)
    ensures
        occurs_at(program_text(ns, stack_size), ".globl main"@, 23),
        forall|a: int|
            occurs_at(program_text(ns, stack_size), #[trigger] ".globl main"@, a) ==> a == 23,
{
    reveal_strlit(".intel_syntax noprefix\n.globl main\n\nmain:\n");
    reveal_strlit(".globl main");
    reveal_strlit("        push rbp\n        mov rbp, rsp\n        sub rsp, ");
    reveal_strlit("\n");
    let t = program_text(ns, stack_size);
    let head = ".intel_syntax noprefix\n.globl main\n\nmain:\n"@;
    let pat = ".globl main"@;
    assert(t.subrange(23, 23 + pat.len() as int) =~= pat);
    assert(occurs_at(t, pat, 23));
    let tail = "        push rbp\n        mov rbp, rsp\n        sub rsp, "@ + dec_digits(
        stack_size,
    ) + "\n"@ + stmts_asm(ns);
    assert(t =~= head + tail);
    assert(has_no_g(tail)) by {
        lemma_no_g_digits(stack_size);
        lemma_no_g_stmts(ns);
        lemma_no_g_concat(
            "        push rbp\n        mov rbp, rsp\n        sub rsp, "@,
            dec_digits(stack_size),
        );
        lemma_no_g_concat(
            "        push rbp\n        mov rbp, rsp\n        sub rsp, "@ + dec_digits(stack_size),
            "\n"@,
        );
        lemma_no_g_concat(
            "        push rbp\n        mov rbp, rsp\n        sub rsp, "@ + dec_digits(stack_size)
                + "\n"@,
            stmts_asm(ns),
        );
    }
    assert forall|a: int| occurs_at(t, pat, a) implies a == 23 by {
        assert(t[a + 1] == pat[1]);
        assert(pat[1] == 'g');
        if a + 1 >= head.len() {
            assert(t[a + 1] == tail[a + 1 - head.len()]);
        } else {
            assert(t[a + 1] == head[a + 1]);
            assert(head.len() == 42);
            if a + 1 != 24 {
                assert(head[a + 1] != 'g');
            }
        }
    }
}

/// Whether the letters `a` and `i` never stand adjacent in `t`. The
/// emitted instructions never spell that pair, which pins every `main` to
/// the preamble.
pub open spec fn has_no_ai(t: Seq<char>) -> bool {
    forall|k: int| 0 <= k < t.len() - 1 ==> !(#[trigger] t[k] == 'a' && t[k + 1] == 'i')
}

/// Concatenation preserves [`has_no_ai`] when the left part does not end
/// with an `a`.
proof fn lemma_no_ai_concat(a: Seq<char>, b: Seq<char>)
    requires
        has_no_ai(a),
        has_no_ai(b),
        a.len() > 0 ==> a.last() != 'a',
    ensures
        has_no_ai(a + b),
{
    assert forall|k: int| 0 <= k < (a + b).len() - 1 implies !(#[trigger] (a + b)[k] == 'a' && (a
        + b)[k + 1] == 'i') by {
        if k + 1 < a.len() {
            assert((a + b)[k] == a[k] && (a + b)[k + 1] == a[k + 1]);
        } else if k >= a.len() {
            assert((a + b)[k] == b[k - a.len()] && (a + b)[k + 1] == b[k + 1 - a.len()]);
        } else {
            assert((a + b)[k] == a[k] && k == a.len() - 1);
        }
    }
}

/// Digit strings hold no letters and end in a digit.
proof fn lemma_digits_shape(n: nat)
    ensures
        has_no_ai(dec_digits(n)),
        dec_digits(n).len() > 0,
        crate::decimal::is_digit_char(dec_digits(n).last()),
    decreases n,
{
    crate::decimal::lemma_dec_digits_val(n);
    assert forall|k: int| 0 <= k < dec_digits(n).len() - 1 implies !(#[trigger] dec_digits(n)[k]
        == 'a' && dec_digits(n)[k + 1] == 'i') by {
        assert(crate::decimal::is_digit_char(dec_digits(n)[k]));
    }
    assert(crate::decimal::is_digit_char(dec_digits(n)[dec_digits(n).len() - 1]));
}

/// Rendered integers hold no `ai` pair and end in a digit.
proof fn lemma_dec_int_shape(v: int)
    ensures
        has_no_ai(dec_int(v)),
        dec_int(v).len() > 0,
        dec_int(v).last() != 'a',
{
    if v < 0 {
        lemma_digits_shape((-v) as nat);
        lemma_no_ai_concat(seq!['-'], dec_digits((-v) as nat));
        assert(dec_int(v).last() == dec_digits((-v) as nat).last());
    } else {
        lemma_digits_shape(v as nat);
    }
}

/// Labels hold no `ai` pair and end in a digit.
proof fn lemma_lbl_shape(k: nat)
    ensures
        has_no_ai(lbl_seq(k)),
        lbl_seq(k).len() > 0,
        lbl_seq(k).last() != 'a',
{
    reveal_strlit(".L");
    lemma_digits_shape(k);
    lemma_no_ai_concat(".L"@, dec_digits(k));
    assert(lbl_seq(k).last() == dec_digits(k).last());
}

/// The text of an optional subtree holds no `ai` pair, and ends with a
/// line feed when it is not empty.
proof fn lemma_no_ai_opt(o: Option<Box<AstS>>)
    ensures
        has_no_ai(opt_asm_of(o)),
        opt_asm_of(o).len() > 0 ==> opt_asm_of(o).last() == '\n',
    decreases o,
{
    match o {
        Some(b) => {
            lemma_no_ai_asm(*b);
        },
        None => {},
    }
}

/// No subtree's text holds the letter pair `ai`, and every subtree's text
/// ends with a line feed: the instruction set the emitter uses, its
/// numbers and its labels never put an `i` after an `a`.
#[verifier::rlimit(100)]
#[verifier::spinoff_prover]
proof fn lemma_no_ai_asm(a: AstS)
    ensures
        has_no_ai(asm_of(a)),
        asm_of(a).len() > 0,
        asm_of(a).last() == '\n',
    decreases a,
{
    reveal_strlit("        push ");
    reveal_strlit("        push [rbp-");
    reveal_strlit("]\n");
    reveal_strlit("\n");
    reveal_strlit(":\n");
    reveal_strlit("        pop rax\n");
    reveal_strlit("        pop rdi\n        pop rax\n");
    reveal_strlit("        mov rsp, rbp\n        pop rbp\n        ret\n");
    reveal_strlit("        pop rax\n        cmp rax, 0\n");
    reveal_strlit("        je ");
    reveal_strlit("        jmp ");
    reveal_strlit("        push 1\n");
    reveal_strlit("        cqo\n        idiv rdi\n        push rax\n");
    reveal_strlit("        pop rax\n        mov [rbp-");
    reveal_strlit("], rax\n        push rax\n");
    reveal_strlit("        ");
    reveal_strlit(" rax, rdi\n        push rax\n");
    reveal_strlit("add");
    reveal_strlit("sub");
    reveal_strlit("imul");
    reveal_strlit("        cmp rax, rdi\n        ");
    reveal_strlit("setl");
    reveal_strlit("setle");
    reveal_strlit("sete");
    reveal_strlit("setne");
    reveal_strlit(" al\n        movzb rax, al\n        push rax\n");
    match a {
        AstS::Num(v) => {
            lemma_dec_int_shape(v);
            lemma_no_ai_concat("        push "@, dec_int(v));
            lemma_no_ai_concat("        push "@ + dec_int(v), "\n"@);
        },
        AstS::LocalVar { offset } => {
            lemma_digits_shape(offset);
            lemma_no_ai_concat("        push [rbp-"@, dec_digits(offset));
            lemma_no_ai_concat("        push [rbp-"@ + dec_digits(offset), "]\n"@);
        },
        AstS::Ret { value } => {
            lemma_no_ai_asm(*value);
            lemma_no_ai_concat(asm_of(*value), "        pop rax\n"@);
            lemma_no_ai_concat(asm_of(*value) + "        pop rax\n"@, ret_epilogue_text());
        },
        AstS::If { label, cond, then, else_ } => {
            lemma_no_ai_asm(*cond);
            lemma_no_ai_asm(*then);
            lemma_no_ai_opt(else_);
            lemma_lbl_shape(label);
            let p1 = asm_of(*cond) + "        pop rax\n        cmp rax, 0\n"@;
            lemma_no_ai_concat(asm_of(*cond), "        pop rax\n        cmp rax, 0\n"@);
            lemma_no_ai_concat(p1, "        je "@);
            lemma_no_ai_concat(p1 + "        je "@, lbl_seq(label));
            let p2 = p1 + "        je "@ + lbl_seq(label);
            lemma_no_ai_concat(p2, "\n"@);
            lemma_no_ai_concat(p2 + "\n"@, asm_of(*then));
            let p3 = p2 + "\n"@ + asm_of(*then);
            lemma_no_ai_concat(p3, lbl_seq(label));
            lemma_no_ai_concat(p3 + lbl_seq(label), ":\n"@);
            lemma_no_ai_concat(p3 + lbl_seq(label) + ":\n"@, opt_asm_of(else_));
            if opt_asm_of(else_).len() > 0 {
                assert(asm_of(a).last() == opt_asm_of(else_).last());
            } else {
                assert(asm_of(a) =~= p3 + lbl_seq(label) + ":\n"@);
            }
        },
        AstS::While { start_label, end_label, cond, then } => {
            lemma_no_ai_asm(*cond);
            lemma_no_ai_asm(*then);
            lemma_lbl_shape(start_label);
            lemma_lbl_shape(end_label);
            lemma_no_ai_concat(lbl_seq(start_label), ":\n"@);
            let p1 = lbl_seq(start_label) + ":\n"@;
            lemma_no_ai_concat(p1, asm_of(*cond));
            lemma_no_ai_concat(p1 + asm_of(*cond), "        pop rax\n        cmp rax, 0\n"@);
            let p2 = p1 + asm_of(*cond) + "        pop rax\n        cmp rax, 0\n"@;
            lemma_no_ai_concat(p2, "        je "@);
            lemma_no_ai_concat(p2 + "        je "@, lbl_seq(end_label));
            let p3 = p2 + "        je "@ + lbl_seq(end_label);
            lemma_no_ai_concat(p3, "\n"@);
            lemma_no_ai_concat(p3 + "\n"@, asm_of(*then));
            let p4 = p3 + "\n"@ + asm_of(*then);
            lemma_no_ai_concat(p4, "        jmp "@);
            lemma_no_ai_concat(p4 + "        jmp "@, lbl_seq(start_label));
            let p5 = p4 + "        jmp "@ + lbl_seq(start_label);
            lemma_no_ai_concat(p5, "\n"@);
            lemma_no_ai_concat(p5 + "\n"@, lbl_seq(end_label));
            lemma_no_ai_concat(p5 + "\n"@ + lbl_seq(end_label), ":\n"@);
        },
        AstS::For { start_label, end_label, init, cond, update, then } => {
            lemma_no_ai_opt(init);
            lemma_no_ai_opt(update);
            lemma_no_ai_asm(*then);
            lemma_lbl_shape(start_label);
            lemma_lbl_shape(end_label);
            let cond_t = match cond {
                Some(b) => asm_of(*b),
                None => "        push 1\n"@,
            };
            match cond {
                Some(b) => {
                    lemma_no_ai_asm(*b);
                },
                None => {},
            }
            lemma_no_ai_concat(opt_asm_of(init), lbl_seq(start_label));
            let p1 = opt_asm_of(init) + lbl_seq(start_label);
            lemma_no_ai_concat(p1, ":\n"@);
            lemma_no_ai_concat(p1 + ":\n"@, cond_t);
            let p2 = p1 + ":\n"@ + cond_t;
            lemma_no_ai_concat(p2, "        pop rax\n        cmp rax, 0\n"@);
            let p3 = p2 + "        pop rax\n        cmp rax, 0\n"@;
            lemma_no_ai_concat(p3, "        je "@);
            lemma_no_ai_concat(p3 + "        je "@, lbl_seq(end_label));
            let p4 = p3 + "        je "@ + lbl_seq(end_label);
            lemma_no_ai_concat(p4, "\n"@);
            lemma_no_ai_concat(opt_asm_of(update), asm_of(*then));
            let t1 = opt_asm_of(update) + asm_of(*then);
            lemma_no_ai_concat(t1, "        jmp "@);
            lemma_no_ai_concat(t1 + "        jmp "@, lbl_seq(start_label));
            let t2 = t1 + "        jmp "@ + lbl_seq(start_label);
            lemma_no_ai_concat(t2, "\n"@);
            lemma_no_ai_concat(t2 + "\n"@, lbl_seq(end_label));
            lemma_no_ai_concat(t2 + "\n"@ + lbl_seq(end_label), ":\n"@);
            assert(for_tail_text(start_label, end_label, opt_asm_of(update), asm_of(*then)) == t2
                + "\n"@ + lbl_seq(end_label) + ":\n"@);
            lemma_no_ai_concat(
                p4 + "\n"@,
                for_tail_text(start_label, end_label, opt_asm_of(update), asm_of(*then)),
            );
        },
        AstS::ArithOp { value, lhs, rhs } => {
            match value {
                ArithOp::Div => {
                    lemma_no_ai_asm(*lhs);
                    lemma_no_ai_asm(*rhs);
                    lemma_no_ai_concat(asm_of(*lhs), asm_of(*rhs));
                    lemma_no_ai_concat(asm_of(*lhs) + asm_of(*rhs), pop_operands_text());
                    lemma_no_ai_concat(
                        asm_of(*lhs) + asm_of(*rhs) + pop_operands_text(),
                        "        cqo\n        idiv rdi\n        push rax\n"@,
                    );
                },
                ArithOp::Assign => {
                    lemma_no_ai_asm(*rhs);
                    match *lhs {
                        AstS::LocalVar { offset } => {
                            lemma_digits_shape(offset);
                            lemma_no_ai_concat(
                                "        pop rax\n        mov [rbp-"@,
                                dec_digits(offset),
                            );
                            let p1 = "        pop rax\n        mov [rbp-"@ + dec_digits(offset);
                            lemma_no_ai_concat(p1, "], rax\n        push rax\n"@);
                            lemma_no_ai_concat(asm_of(*rhs), p1 + "], rax\n        push rax\n"@);
                        },
                        _ => {
                            lemma_no_ai_concat(asm_of(*rhs), Seq::<char>::empty());
                            assert(asm_of(a) =~= asm_of(*rhs));
                        },
                    }
                },
                _ => {
                    lemma_no_ai_asm(*lhs);
                    lemma_no_ai_asm(*rhs);
                    assert(has_no_ai(arith_text(value)) && arith_text(value).last() != 'a');
                    lemma_no_ai_concat("        "@, arith_text(value));
                    lemma_no_ai_concat(
                        "        "@ + arith_text(value),
                        " rax, rdi\n        push rax\n"@,
                    );
                    lemma_no_ai_concat(asm_of(*lhs), asm_of(*rhs));
                    lemma_no_ai_concat(asm_of(*lhs) + asm_of(*rhs), pop_operands_text());
                    lemma_no_ai_concat(
                        asm_of(*lhs) + asm_of(*rhs) + pop_operands_text(),
                        "        "@ + arith_text(value) + " rax, rdi\n        push rax\n"@,
                    );
                },
            }
        },
        AstS::CmpOp { value, lhs, rhs } => {
            lemma_no_ai_asm(*lhs);
            lemma_no_ai_asm(*rhs);
            assert(has_no_ai(setcc_text(value)) && setcc_text(value).last() != 'a');
            lemma_no_ai_concat("        cmp rax, rdi\n        "@, setcc_text(value));
            lemma_no_ai_concat(
                "        cmp rax, rdi\n        "@ + setcc_text(value),
                " al\n        movzb rax, al\n        push rax\n"@,
            );
            lemma_no_ai_concat(asm_of(*lhs), asm_of(*rhs));
            lemma_no_ai_concat(asm_of(*lhs) + asm_of(*rhs), pop_operands_text());
            lemma_no_ai_concat(
                asm_of(*lhs) + asm_of(*rhs) + pop_operands_text(),
                "        cmp rax, rdi\n        "@ + setcc_text(value)
                    + " al\n        movzb rax, al\n        push rax\n"@,
            );
        },
    }
}

/// No statement sequence's text holds the letter pair `ai`, and a
/// nonempty one ends with a line feed.
proof fn lemma_no_ai_stmts(ns: Seq<AstS>)
    ensures
        has_no_ai(stmts_asm(ns)),
        stmts_asm(ns).len() > 0 ==> stmts_asm(ns).last() == '\n',
    decreases ns.len(),
{
    if ns.len() > 0 {
        lemma_no_ai_stmts(ns.drop_last());
        lemma_no_ai_asm(ns.last());
        lemma_no_ai_concat(stmts_asm(ns.drop_last()), asm_of(ns.last()));
    }
}

/// The `main:` label stands exactly once in every listing: at its one
/// place in the preamble, and nowhere else, since no emitted instruction,
/// number or label puts an `i` after an `a`.
pub proof fn lemma_main_label_exactly_once(ns: Seq<AstS>, stack_size: nat)
    ensures
        occurs_at(program_text(ns, stack_size), "main:"@, 36),
        forall|a: int|
            occurs_at(program_text(ns, stack_size), #[trigger] "main:"@, a) ==> a == 36,
{
    reveal_strlit(".intel_syntax noprefix\n.globl main\n\nmain:\n");
    reveal_strlit("main:");
    reveal_strlit("        push rbp\n        mov rbp, rsp\n        sub rsp, ");
    reveal_strlit("\n");
    let t = program_text(ns, stack_size);
    let head = ".intel_syntax noprefix\n.globl main\n\nmain:\n"@;
    let pat = "main:"@;
    assert(t.subrange(36, 36 + pat.len() as int) =~= pat);
    assert(occurs_at(t, pat, 36));
    let tail = "        push rbp\n        mov rbp, rsp\n        sub rsp, "@ + dec_digits(
        stack_size,
    ) + "\n"@ + stmts_asm(ns);
    assert(t =~= head + tail);
    assert(has_no_ai(tail)) by {
        lemma_digits_shape(stack_size);
        lemma_no_ai_stmts(ns);
        lemma_no_ai_concat(
            "        push rbp\n        mov rbp, rsp\n        sub rsp, "@,
            dec_digits(stack_size),
        );
        lemma_no_ai_concat(
            "        push rbp\n        mov rbp, rsp\n        sub rsp, "@ + dec_digits(stack_size),
            "\n"@,
        );
        lemma_no_ai_concat(
            "        push rbp\n        mov rbp, rsp\n        sub rsp, "@ + dec_digits(stack_size)
                + "\n"@,
            stmts_asm(ns),
        );
    }
    assert forall|a: int| occurs_at(t, pat, a) implies a == 36 by {
        assert(t[a + 1] == pat[1] && t[a + 2] == pat[2]);
        assert(pat[1] == 'a' && pat[2] == 'i');
        assert(head.len() == 42);
        if a + 2 >= head.len() {
            if a + 1 >= head.len() {
                assert(t[a + 1] == tail[a + 1 - head.len()]);
                assert(t[a + 2] == tail[a + 2 - head.len()]);
            } else {
                assert(t[a + 1] == head[41]);
            }
        } else {
            assert(t[a + 1] == head[a + 1] && t[a + 2] == head[a + 2]);
            assert(a + 1 == 31 || a + 1 == 37);
            if a + 1 == 31 {
                assert(t[a + 4] == head[34]);
                assert(pat[4] == ':');
            }
        }
    }
}

} // verus!
