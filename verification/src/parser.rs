//! The parser: recursive descent over the token sequence, with a fixed
//! operator-precedence grammar, building a syntax tree, assigning stack
//! offsets to identifiers in first-appearance order and unique `.L<n>`
//! labels to control-flow constructs.
//!
//! The specification side is a family of recursive functions over the
//! abstract token sequence, one per grammar production, each returning the
//! parsed subtree, the number of tokens consumed, and the updated parsing
//! context. The executable parser is proved to return exactly that.

use crate::decimal::{dec_digits, digits_val};
use crate::errors::CompileError;
use crate::lexer::{SpecToken, SpecTokenKind, Symbol, Token, TokenKind, Tokens};
use vstd::prelude::*;
use vstd::string::StrSliceExecFns;
use vstd::string::StringExecFns;

verus! {

/// A node of the syntax tree: expressions and statements share one type.
#[derive(PartialEq, Debug)]
pub enum Node {
    Num(i64),
    LocalVar {
        /// Local variable address = RBP - offset.
        offset: usize,
    },
    Ret {
        value: Box<Node>,
    },
    If {
        label: String,
        cond: Box<Node>,
        then: Box<Node>,
        else_: Option<Box<Node>>,
    },
    While {
        start_label: String,
        end_label: String,
        cond: Box<Node>,
        then: Box<Node>,
    },
    For {
        start_label: String,
        end_label: String,
        init: Option<Box<Node>>,
        cond: Option<Box<Node>>,
        update: Option<Box<Node>>,
        then: Box<Node>,
    },
    ArithOp {
        value: ArithOp,
        lhs: Box<Node>,
        rhs: Box<Node>,
    },
    CmpOp {
        value: CmpOp,
        lhs: Box<Node>,
        rhs: Box<Node>,
    },
}

/// A comparison operator. `>` and `>=` are normalized away at parse time by
/// swapping operands, so only these four remain.
#[derive(PartialEq, Eq, Structural, Clone, Copy, Debug)]
pub enum CmpOp {
    Lt,
    Lte,
    Eq,
    Neq,
}

/// An arithmetic operator; assignment is one of them, and yields the
/// assigned value.
#[derive(PartialEq, Eq, Structural, Clone, Copy, Debug)]
pub enum ArithOp {
    Add,
    Sub,
    Mul,
    Div,
    Assign,
}

/// The mathematical content of a syntax tree: values as integers, offsets
/// and label numbers as naturals.
pub enum AstS {
    Num(int),
    LocalVar { offset: nat },
    Ret { value: Box<AstS> },
    If { label: nat, cond: Box<AstS>, then: Box<AstS>, else_: Option<Box<AstS>> },
    While { start_label: nat, end_label: nat, cond: Box<AstS>, then: Box<AstS> },
    For {
        start_label: nat,
        end_label: nat,
        init: Option<Box<AstS>>,
        cond: Option<Box<AstS>>,
        update: Option<Box<AstS>>,
        then: Box<AstS>,
    },
    ArithOp { value: ArithOp, lhs: Box<AstS>, rhs: Box<AstS> },
    CmpOp { value: CmpOp, lhs: Box<AstS>, rhs: Box<AstS> },
}

/// The text of label number `n`.
pub open spec fn lbl_seq(n: nat) -> Seq<char> {
    ".L"@ + dec_digits(n)
}

/// The label number a label string denotes: the value of its digits. On
/// canonically formed labels this inverts [`lbl_seq`].
pub open spec fn label_num_of(s: Seq<char>) -> nat {
    digits_val(s.skip(2))
}

/// Whether a label string is canonically formed, i.e. is `.L<n>` for the
/// number it denotes.
pub open spec fn label_text_wf(s: Seq<char>) -> bool {
    s == lbl_seq(label_num_of(s))
}

/// The view of an optional boxed subtree.
pub open spec fn opt_ast_view(o: Option<Box<Node>>) -> Option<Box<AstS>>
    decreases o,
{
    match o {
        Some(b) => Some(Box::new(ast_view(*b))),
        None => None,
    }
}

/// The mathematical content of a syntax tree node.
pub open spec fn ast_view(n: Node) -> AstS
    decreases n,
{
    match n {
        Node::Num(v) => AstS::Num(v as int),
        Node::LocalVar { offset } => AstS::LocalVar { offset: offset as nat },
        Node::Ret { value } => AstS::Ret { value: Box::new(ast_view(*value)) },
        Node::If { label, cond, then, else_ } => AstS::If {
            label: label_num_of(label@),
            cond: Box::new(ast_view(*cond)),
            then: Box::new(ast_view(*then)),
            else_: opt_ast_view(else_),
        },
        Node::While { start_label, end_label, cond, then } => AstS::While {
            start_label: label_num_of(start_label@),
            end_label: label_num_of(end_label@),
            cond: Box::new(ast_view(*cond)),
            then: Box::new(ast_view(*then)),
        },
        Node::For { start_label, end_label, init, cond, update, then } => AstS::For {
            start_label: label_num_of(start_label@),
            end_label: label_num_of(end_label@),
            init: opt_ast_view(init),
            cond: opt_ast_view(cond),
            update: opt_ast_view(update),
            then: Box::new(ast_view(*then)),
        },
        Node::ArithOp { value, lhs, rhs } => AstS::ArithOp {
            value,
            lhs: Box::new(ast_view(*lhs)),
            rhs: Box::new(ast_view(*rhs)),
        },
        Node::CmpOp { value, lhs, rhs } => AstS::CmpOp {
            value,
            lhs: Box::new(ast_view(*lhs)),
            rhs: Box::new(ast_view(*rhs)),
        },
    }
}

impl View for Node {
    type V = AstS;

    open spec fn view(&self) -> AstS {
        ast_view(*self)
    }
}

/// Whether every label string in the tree is canonically formed, so that
/// the tree's view loses nothing.
pub open spec fn labels_canonical(n: Node) -> bool
    decreases n,
{
    match n {
        Node::Num(_) => true,
        Node::LocalVar { .. } => true,
        Node::Ret { value } => labels_canonical(*value),
        Node::If { label, cond, then, else_ } => label_text_wf(label@) && labels_canonical(*cond)
            && labels_canonical(*then) && opt_labels_canonical(else_),
        Node::While { start_label, end_label, cond, then } => label_text_wf(start_label@)
            && label_text_wf(end_label@) && labels_canonical(*cond) && labels_canonical(*then),
        Node::For { start_label, end_label, init, cond, update, then } => label_text_wf(
            start_label@,
        ) && label_text_wf(end_label@) && opt_labels_canonical(init) && opt_labels_canonical(cond)
            && opt_labels_canonical(update) && labels_canonical(*then),
        Node::ArithOp { lhs, rhs, .. } => labels_canonical(*lhs) && labels_canonical(*rhs),
        Node::CmpOp { lhs, rhs, .. } => labels_canonical(*lhs) && labels_canonical(*rhs),
    }
}

/// The optional-subtree analogue of [`labels_canonical`].
pub open spec fn opt_labels_canonical(o: Option<Box<Node>>) -> bool
    decreases o,
{
    match o {
        Some(b) => labels_canonical(*b),
        None => true,
    }
}

/// Whether the left-hand side of every assignment in the tree is a local
/// variable. The parser does not enforce this; the emitter requires it.
pub open spec fn lvalues_ok(a: AstS) -> bool
    decreases a,
{
    match a {
        AstS::Num(_) => true,
        AstS::LocalVar { .. } => true,
        AstS::Ret { value } => lvalues_ok(*value),
        AstS::If { cond, then, else_, .. } => lvalues_ok(*cond) && lvalues_ok(*then)
            && opt_lvalues_ok(else_),
        AstS::While { cond, then, .. } => lvalues_ok(*cond) && lvalues_ok(*then),
        AstS::For { init, cond, update, then, .. } => opt_lvalues_ok(init) && opt_lvalues_ok(cond)
            && opt_lvalues_ok(update) && lvalues_ok(*then),
        AstS::ArithOp { value, lhs, rhs } => {
            &&& (value == ArithOp::Assign ==> *lhs matches AstS::LocalVar { .. })
            &&& lvalues_ok(*lhs)
            &&& lvalues_ok(*rhs)
        },
        AstS::CmpOp { lhs, rhs, .. } => lvalues_ok(*lhs) && lvalues_ok(*rhs),
    }
}

/// The optional-subtree analogue of [`lvalues_ok`].
pub open spec fn opt_lvalues_ok(o: Option<Box<AstS>>) -> bool
    decreases o,
{
    match o {
        Some(b) => lvalues_ok(*b),
        None => true,
    }
}

/// The label numbers the tree defines, in allocation order.
pub open spec fn def_seq(a: AstS) -> Seq<int>
    decreases a,
{
    match a {
        AstS::Num(_) => seq![],
        AstS::LocalVar { .. } => seq![],
        AstS::Ret { value } => def_seq(*value),
        AstS::If { label, cond, then, else_ } => def_seq(*cond) + def_seq(*then) + opt_def_seq(
            else_,
        ) + seq![label as int],
        AstS::While { start_label, end_label, cond, then } => def_seq(*cond) + def_seq(*then)
            + seq![start_label as int, end_label as int],
        AstS::For { start_label, end_label, init, cond, update, then } => opt_def_seq(init)
            + opt_def_seq(cond) + opt_def_seq(update) + def_seq(*then)
            + seq![start_label as int, end_label as int],
        AstS::ArithOp { lhs, rhs, .. } => def_seq(*lhs) + def_seq(*rhs),
        AstS::CmpOp { lhs, rhs, .. } => def_seq(*lhs) + def_seq(*rhs),
    }
}

/// The optional-subtree analogue of [`def_seq`].
pub open spec fn opt_def_seq(o: Option<Box<AstS>>) -> Seq<int>
    decreases o,
{
    match o {
        Some(b) => def_seq(*b),
        None => seq![],
    }
}

impl Node {
    /// An integer literal node.
    pub fn num(value: i64) -> (r: Self)
        ensures
            r@ == AstS::Num(value as int),
            labels_canonical(r),
            def_seq(r@) == Seq::<int>::empty(),
    {
        let r = Self::Num(value);
        proof {
            assert(def_seq(r@) =~= Seq::<int>::empty());
        }
        r
    }

    /// A local variable node addressing `[rbp-offset]`.
    pub fn local_var(offset: usize) -> (r: Self)
        ensures
            r@ == (AstS::LocalVar { offset: offset as nat }),
            labels_canonical(r),
            def_seq(r@) == Seq::<int>::empty(),
    {
        let r = Self::LocalVar { offset };
        proof {
            assert(def_seq(r@) =~= Seq::<int>::empty());
        }
        r
    }

    /// A return statement.
    pub fn ret(child: Node) -> (r: Self)
        ensures
            r@ == (AstS::Ret { value: Box::new(child@) }),
            labels_canonical(r) == labels_canonical(child),
            def_seq(r@) == def_seq(child@),
    {
        let r = Node::Ret { value: Box::new(child) };
        proof {
            reveal_with_fuel(labels_canonical, 2);
        }
        r
    }

    /// An `if` statement with its end-of-then label.
    pub fn if_(label: String, cond: Node, then: Node, else_: Option<Node>) -> (r: Self)
        ensures
            r@ == (AstS::If {
                label: label_num_of(label@),
                cond: Box::new(cond@),
                then: Box::new(then@),
                else_: match else_ {
                    Some(e) => Some(Box::new(e@)),
                    None => None,
                },
            }),
            labels_canonical(r) == (label_text_wf(label@) && labels_canonical(cond)
                && labels_canonical(then) && (match else_ {
                Some(e) => labels_canonical(e),
                None => true,
            })),
    {
        let r = Self::If {
            label,
            cond: Box::new(cond),
            then: Box::new(then),
            else_: match else_ {
                Some(e) => Some(Box::new(e)),
                None => None,
            },
        };
        proof {
            reveal_with_fuel(ast_view, 2);
            reveal_with_fuel(opt_ast_view, 2);
            reveal_with_fuel(labels_canonical, 2);
            reveal_with_fuel(opt_labels_canonical, 2);
            reveal_with_fuel(def_seq, 2);
            reveal_with_fuel(opt_def_seq, 2);
        }
        r
    }

    /// A `while` statement with its loop-head and loop-end labels.
    pub fn while_(start_label: String, end_label: String, cond: Node, then: Node) -> (r: Self)
        ensures
            r@ == (AstS::While {
                start_label: label_num_of(start_label@),
                end_label: label_num_of(end_label@),
                cond: Box::new(cond@),
                then: Box::new(then@),
            }),
            labels_canonical(r) == (label_text_wf(start_label@) && label_text_wf(end_label@)
                && labels_canonical(cond) && labels_canonical(then)),
            def_seq(r@) == def_seq(cond@) + def_seq(then@) + seq![
                label_num_of(start_label@) as int,
                label_num_of(end_label@) as int,
            ],
    {
        let r = Self::While {
            start_label,
            end_label,
            cond: Box::new(cond),
            then: Box::new(then),
        };
        proof {
            reveal_with_fuel(ast_view, 2);
            reveal_with_fuel(labels_canonical, 2);
            reveal_with_fuel(def_seq, 2);
        }
        r
    }

    /// A `for` statement with its loop-head and loop-end labels.
    pub fn for_(
        start_label: String,
        end_label: String,
        init: Option<Node>,
        cond: Option<Node>,
        update: Option<Node>,
        then: Node,
    ) -> (r: Self)
        ensures
            r@ == (AstS::For {
                start_label: label_num_of(start_label@),
                end_label: label_num_of(end_label@),
                init: match init {
                    Some(e) => Some(Box::new(e@)),
                    None => None,
                },
                cond: match cond {
                    Some(e) => Some(Box::new(e@)),
                    None => None,
                },
                update: match update {
                    Some(e) => Some(Box::new(e@)),
                    None => None,
                },
                then: Box::new(then@),
            }),
            labels_canonical(r) == (label_text_wf(start_label@) && label_text_wf(end_label@)
                && (match init {
                Some(e) => labels_canonical(e),
                None => true,
            }) && (match cond {
                Some(e) => labels_canonical(e),
                None => true,
            }) && (match update {
                Some(e) => labels_canonical(e),
                None => true,
            }) && labels_canonical(then)),
            def_seq(r@) == (match init {
                Some(e) => def_seq(e@),
                None => Seq::<int>::empty(),
            }) + (match cond {
                Some(e) => def_seq(e@),
                None => Seq::<int>::empty(),
            }) + (match update {
                Some(e) => def_seq(e@),
                None => Seq::<int>::empty(),
            }) + def_seq(then@) + seq![
                label_num_of(start_label@) as int,
                label_num_of(end_label@) as int,
            ],
    {
        let r = Self::For {
            start_label,
            end_label,
            init: match init {
                Some(e) => Some(Box::new(e)),
                None => None,
            },
            cond: match cond {
                Some(e) => Some(Box::new(e)),
                None => None,
            },
            update: match update {
                Some(e) => Some(Box::new(e)),
                None => None,
            },
            then: Box::new(then),
        };
        proof {
            reveal_with_fuel(ast_view, 2);
            reveal_with_fuel(opt_ast_view, 2);
            reveal_with_fuel(labels_canonical, 2);
            reveal_with_fuel(opt_labels_canonical, 2);
            reveal_with_fuel(def_seq, 2);
            reveal_with_fuel(opt_def_seq, 2);
        }
        r
    }

    /// An arithmetic or assignment node.
    pub fn arith_op(value: ArithOp, lhs: Node, rhs: Node) -> (r: Self)
        ensures
            r@ == (AstS::ArithOp { value, lhs: Box::new(lhs@), rhs: Box::new(rhs@) }),
            labels_canonical(r) == (labels_canonical(lhs) && labels_canonical(rhs)),
            def_seq(r@) == def_seq(lhs@) + def_seq(rhs@),
    {
        let r = Self::ArithOp { value, lhs: Box::new(lhs), rhs: Box::new(rhs) };
        proof {
            reveal_with_fuel(labels_canonical, 2);
        }
        r
    }

    /// A comparison node.
    pub fn cmp_op(value: CmpOp, lhs: Node, rhs: Node) -> (r: Self)
        ensures
            r@ == (AstS::CmpOp { value, lhs: Box::new(lhs@), rhs: Box::new(rhs@) }),
            labels_canonical(r) == (labels_canonical(lhs) && labels_canonical(rhs)),
            def_seq(r@) == def_seq(lhs@) + def_seq(rhs@),
    {
        let r = Self::CmpOp { value, lhs: Box::new(lhs), rhs: Box::new(rhs) };
        proof {
            reveal_with_fuel(labels_canonical, 2);
        }
        r
    }
}

/// The parsing context as the specification sees it: the identifiers met so
/// far in first-appearance order, and the next free label number.
pub struct SpecCtx {
    pub names: Seq<Seq<char>>,
    pub labels: nat,
}

/// The position of the first occurrence of `w` in `names`, if any.
pub open spec fn first_index(names: Seq<Seq<char>>, w: Seq<char>) -> Option<int>
    decreases names.len(),
{
    if names.len() == 0 {
        None
    } else if names[0] == w {
        Some(0)
    } else {
        match first_index(names.drop_first(), w) {
            Some(i) => Some(i + 1),
            None => None,
        }
    }
}

/// Resolves an identifier: a known name keeps its recorded offset, a new
/// name is appended and given the next slot, `8 * (position + 1)`.
pub open spec fn resolve_name(names: Seq<Seq<char>>, w: Seq<char>) -> (nat, Seq<Seq<char>>) {
    match first_index(names, w) {
        Some(i) => ((8 * (i + 1)) as nat, names),
        None => ((8 * (names.len() + 1)) as nat, names.push(w)),
    }
}

/// Whether the recorded names are pairwise distinct.
pub open spec fn names_distinct(names: Seq<Seq<char>>) -> bool {
    forall|k1: int, k2: int| 0 <= k1 < k2 < names.len() ==> names[k1] != names[k2]
}

/// The parsing context: the symbol table in first-appearance order (the
/// name at position `i` owns offset `8 * (i + 1)`), and the label counter.
pub struct ParserContext {
    locals: Vec<String>,
    current_label_number: usize,
}

impl View for ParserContext {
    type V = SpecCtx;

    closed spec fn view(&self) -> SpecCtx {
        SpecCtx {
            names: self.locals@.map_values(|s: String| s@),
            labels: self.current_label_number as nat,
        }
    }
}

impl ParserContext {
    fn new() -> (r: Self)
        ensures
            r@.names == Seq::<Seq<char>>::empty(),
            r@.labels == 0,
    {
        let r = Self { locals: Vec::new(), current_label_number: 0 };
        proof {
            assert(r@.names =~= Seq::<Seq<char>>::empty());
        }
        r
    }

    /// Allocates the next label, `.L<n>` with `n` from the counter.
    fn new_label(&mut self) -> (r: String)
        requires
            old(self)@.labels + 1 <= usize::MAX,
        ensures
            r@ == lbl_seq(old(self)@.labels),
            final(self)@.labels == old(self)@.labels + 1,
            final(self)@.names == old(self)@.names,
    {
        let label = label_string(self.current_label_number);
        self.current_label_number = self.current_label_number + 1;
        label
    }

    /// Looks an identifier up, appending it with a fresh slot if absent.
    fn resolve(&mut self, name: &str) -> (r: usize)
        requires
            8 * (old(self)@.names.len() + 1) <= usize::MAX,
        ensures
            ({
                let (off, names2) = resolve_name(old(self)@.names, name@);
                &&& r == off
                &&& final(self)@.names == names2
                &&& final(self)@.labels == old(self)@.labels
            }),
    {
        let ghost names = self@.names;
        let n = self.locals.len();
        proof {
            assert(names.len() == n);
        }
        let mut idx: usize = 0;
        while idx < n
            invariant
                n == self.locals.len(),
                names == self@.names,
                names.len() == n,
                self == old(self),
                8 * (n + 1) <= usize::MAX,
                0 <= idx <= n,
                forall|k: int| 0 <= k < idx ==> names[k] != name@,
            decreases n - idx,
        {
            if crate::lexer::str_content_eq(self.locals[idx].as_str(), name) {
                proof {
                    lemma_first_index_found(names, name@, idx as int);
                }
                return (idx + 1) * 8;
            }
            idx += 1;
        }
        proof {
            lemma_first_index_absent(names, name@);
        }
        let off = (self.locals.len() + 1) * 8;
        self.locals.push(name.to_owned());
        proof {
            assert(self@.names =~= names.push(name@));
        }
        off
    }
}

/// If `w` first occurs at position `idx`, the lookup finds it there.
proof fn lemma_first_index_found(names: Seq<Seq<char>>, w: Seq<char>, idx: int)
    requires
        0 <= idx < names.len(),
        names[idx] == w,
        forall|k: int| 0 <= k < idx ==> names[k] != w,
    ensures
        first_index(names, w) == Some(idx),
    decreases idx,
{
    if idx > 0 {
        lemma_first_index_found(names.drop_first(), w, idx - 1);
    }
}

/// If `w` occurs nowhere in `names`, the lookup finds nothing.
proof fn lemma_first_index_absent(names: Seq<Seq<char>>, w: Seq<char>)
    requires
        forall|k: int| 0 <= k < names.len() ==> names[k] != w,
    ensures
        first_index(names, w) is None,
    decreases names.len(),
{
    if names.len() > 0 {
        lemma_first_index_absent(names.drop_first(), w);
    }
}

/// A found index lies within the table and holds the name looked up.
pub proof fn lemma_first_index_in_range(names: Seq<Seq<char>>, w: Seq<char>)
    ensures
        match first_index(names, w) {
            Some(i) => 0 <= i < names.len() && names[i] == w,
            None => forall|k: int| 0 <= k < names.len() ==> names[k] != w,
        },
    decreases names.len(),
{
    if names.len() > 0 && names[0] != w {
        let rest = names.drop_first();
        lemma_first_index_in_range(rest, w);
        assert(forall|k: int| 0 <= k < rest.len() ==> rest[k] == names[k + 1]);
        match first_index(rest, w) {
            Some(i) => {
                assert(names[i + 1] == rest[i]);
            },
            None => {
                assert forall|k: int| 0 <= k < names.len() implies names[k] != w by {
                    if k >= 1 {
                        assert(names[k] == rest[k - 1]);
                    }
                }
            },
        }
    }
}

/// A name recorded in a prefix keeps its position when the table grows.
proof fn lemma_first_index_of_prefix(names1: Seq<Seq<char>>, names2: Seq<Seq<char>>, w: Seq<char>)
    requires
        names1.is_prefix_of(names2),
        first_index(names1, w) is Some,
    ensures
        first_index(names2, w) == first_index(names1, w),
    decreases names1.len(),
{
    assert(names2[0] == names1[0]);
    if names1[0] != w {
        let r1 = names1.drop_first();
        let r2 = names2.drop_first();
        assert(r1 =~= names2.subrange(1, names1.len() as int).subrange(
            0,
            r1.len() as int,
        )) by {
            assert(forall|k: int|
                0 <= k < r1.len() ==> r1[k] == names1[k + 1] && names1[k + 1] == names2[k + 1]);
        }
        assert(r1.is_prefix_of(r2)) by {
            assert(forall|k: int|
                0 <= k < r1.len() ==> r1[k] == names1[k + 1] && names1[k + 1] == names2[k + 1]
                    && r2[k] == names2[k + 1]);
            assert(r1 =~= r2.subrange(0, r1.len() as int));
        }
        lemma_first_index_of_prefix(r1, r2, w);
    }
}

/// Every identifier's offset is constant across all of its occurrences:
/// once a name is recorded, resolving it again — in the same table or in
/// any later, extended table — yields the offset it was first given, and
/// records nothing new.
pub proof fn lemma_offset_stable(names1: Seq<Seq<char>>, names2: Seq<Seq<char>>, w: Seq<char>)
    requires
        names1.is_prefix_of(names2),
        first_index(names1, w) is Some,
    ensures
        resolve_name(names2, w).0 == resolve_name(names1, w).0,
        resolve_name(names2, w).1 == names2,
{
    lemma_first_index_of_prefix(names1, names2, w);
}

/// The recorded offsets form an initial segment of `{8, 16, 24, ...}` in
/// first-appearance order: the name at position `idx` of the table owns
/// offset `8 * (idx + 1)`, and resolving it leaves the table unchanged.
pub proof fn lemma_offsets_initial_segment(names: Seq<Seq<char>>, idx: int)
    requires
        names_distinct(names),
        0 <= idx < names.len(),
    ensures
        resolve_name(names, names[idx]).0 == 8 * (idx + 1),
        resolve_name(names, names[idx]).1 == names,
{
    lemma_first_index_found(names, names[idx], idx);
}

/// An unknown identifier is not an error: a primary at an identifier token
/// always succeeds, resolving a recorded name to its recorded offset and
/// giving a first-seen name the fresh slot after the recorded ones.
pub proof fn lemma_ident_never_fails(ts: Seq<SpecToken>, i: int, c: SpecCtx, w: Seq<char>)
    requires
        0 <= i < ts.len(),
        ts[i].kind == SpecTokenKind::Ident(w),
    ensures
        p_primary(ts, i, c) == Result::<(AstS, nat, SpecCtx), CompileError>::Ok(
            (
                AstS::LocalVar { offset: resolve_name(c.names, w).0 },
                1nat,
                SpecCtx { names: resolve_name(c.names, w).1, labels: c.labels },
            ),
        ),
        first_index(c.names, w) is None ==> resolve_name(c.names, w).0 == 8 * (c.names.len() + 1),
{
}

/// Renders `.L<n>`.
fn label_string(n: usize) -> (r: String)
    ensures
        r@ == lbl_seq(n as nat),
{
    let mut r = ".L".to_owned();
    r.append(crate::decimal::usize_to_string(n).as_str());
    r
}

/// The abstract content of a token slice.
pub open spec fn toks_view<'a>(v: Seq<Token<'a>>) -> Seq<SpecToken> {
    v.map_values(|t: Token<'a>| t@)
}

/// The number of tokens not yet consumed; zero when the position has run
/// past the end. Parsing functions recurse on this measure.
pub open spec fn remaining(ts: Seq<SpecToken>, i: int) -> int {
    if i <= ts.len() {
        ts.len() - i
    } else {
        0
    }
}

/// The outcome of one specification-level parsing function: the subtree,
/// the number of tokens consumed, and the context afterwards.
pub type ParseStep = Result<(AstS, nat, SpecCtx), CompileError>;

/// Requires the symbol `sym` at position `i`.
pub open spec fn p_consume(ts: Seq<SpecToken>, i: int, sym: Symbol) -> Result<(), CompileError> {
    if i >= ts.len() {
        Result::Err(CompileError::UnexpectedEndExpecting { expected: sym })
    } else if ts[i].kind == SpecTokenKind::Sym(sym) {
        Result::Ok(())
    } else {
        Result::Err(
            CompileError::UnexpectedToken { expected: sym, location: ts[i].loc as usize },
        )
    }
}

/// `primary = num | ident | "(" expr ")"`.
pub open spec fn p_primary(ts: Seq<SpecToken>, i: int, c: SpecCtx) -> ParseStep
    decreases remaining(ts, i), 2int,
{
    if i >= ts.len() {
        Result::Err(CompileError::UnexpectedEnd)
    } else {
        match ts[i].kind {
            SpecTokenKind::Num(v) => Result::Ok((AstS::Num(v), 1, c)),
            SpecTokenKind::Ident(w) => {
                let (off, names2) = resolve_name(c.names, w);
                Result::Ok(
                    (AstS::LocalVar { offset: off }, 1, SpecCtx { names: names2, labels: c.labels }),
                )
            },
            SpecTokenKind::Sym(sym) => {
                if sym == Symbol::LParen {
                    match p_expr(ts, i + 1, c) {
                        Result::Ok((n, k, c2)) => match p_consume(ts, i + 1 + k, Symbol::RParen) {
                            Result::Ok(_) => Result::Ok((n, (k + 2) as nat, c2)),
                            Result::Err(e) => Result::Err(e),
                        },
                        Result::Err(e) => Result::Err(e),
                    }
                } else {
                    Result::Err(CompileError::InvalidToken { location: ts[i].loc as usize })
                }
            },
        }
    }
}

/// `unary = ("+" | "-")? primary`; `-x` parses as `0 - x`.
pub open spec fn p_unary(ts: Seq<SpecToken>, i: int, c: SpecCtx) -> ParseStep
    decreases remaining(ts, i), 4int,
{
    if i < ts.len() && ts[i].kind == SpecTokenKind::Sym(Symbol::Add) {
        match p_primary(ts, i + 1, c) {
            Result::Ok((n, k, c2)) => Result::Ok((n, (k + 1) as nat, c2)),
            Result::Err(e) => Result::Err(e),
        }
    } else if i < ts.len() && ts[i].kind == SpecTokenKind::Sym(Symbol::Sub) {
        match p_primary(ts, i + 1, c) {
            Result::Ok((n, k, c2)) => Result::Ok(
                (
                    AstS::ArithOp {
                        value: ArithOp::Sub,
                        lhs: Box::new(AstS::Num(0)),
                        rhs: Box::new(n),
                    },
                    (k + 1) as nat,
                    c2,
                ),
            ),
            Result::Err(e) => Result::Err(e),
        }
    } else {
        p_primary(ts, i, c)
    }
}

/// The left-associative fold of `unary (("*" | "/") unary)*`.
pub open spec fn p_mul_tail(acc: AstS, ts: Seq<SpecToken>, i: int, c: SpecCtx) -> ParseStep
    decreases remaining(ts, i), 5int,
{
    if i < ts.len() && (ts[i].kind == SpecTokenKind::Sym(Symbol::Mul) || ts[i].kind
        == SpecTokenKind::Sym(Symbol::Div)) {
        let op = if ts[i].kind == SpecTokenKind::Sym(Symbol::Mul) {
            ArithOp::Mul
        } else {
            ArithOp::Div
        };
        match p_unary(ts, i + 1, c) {
            Result::Ok((rhs, k, c2)) => {
                let node = AstS::ArithOp { value: op, lhs: Box::new(acc), rhs: Box::new(rhs) };
                match p_mul_tail(node, ts, i + 1 + k, c2) {
                    Result::Ok((n2, k2, c3)) => Result::Ok((n2, (1 + k + k2) as nat, c3)),
                    Result::Err(e) => Result::Err(e),
                }
            },
            Result::Err(e) => Result::Err(e),
        }
    } else {
        Result::Ok((acc, 0, c))
    }
}

/// `mul = unary (("*" | "/") unary)*`.
pub open spec fn p_mul(ts: Seq<SpecToken>, i: int, c: SpecCtx) -> ParseStep
    decreases remaining(ts, i), 6int,
{
    match p_unary(ts, i, c) {
        Result::Ok((n, k, c2)) => match p_mul_tail(n, ts, i + k, c2) {
            Result::Ok((n2, k2, c3)) => Result::Ok((n2, (k + k2) as nat, c3)),
            Result::Err(e) => Result::Err(e),
        },
        Result::Err(e) => Result::Err(e),
    }
}

/// The left-associative fold of `mul (("+" | "-") mul)*`.
pub open spec fn p_add_tail(acc: AstS, ts: Seq<SpecToken>, i: int, c: SpecCtx) -> ParseStep
    decreases remaining(ts, i), 7int,
{
    if i < ts.len() && (ts[i].kind == SpecTokenKind::Sym(Symbol::Add) || ts[i].kind
        == SpecTokenKind::Sym(Symbol::Sub)) {
        let op = if ts[i].kind == SpecTokenKind::Sym(Symbol::Add) {
            ArithOp::Add
        } else {
            ArithOp::Sub
        };
        match p_mul(ts, i + 1, c) {
            Result::Ok((rhs, k, c2)) => {
                let node = AstS::ArithOp { value: op, lhs: Box::new(acc), rhs: Box::new(rhs) };
                match p_add_tail(node, ts, i + 1 + k, c2) {
                    Result::Ok((n2, k2, c3)) => Result::Ok((n2, (1 + k + k2) as nat, c3)),
                    Result::Err(e) => Result::Err(e),
                }
            },
            Result::Err(e) => Result::Err(e),
        }
    } else {
        Result::Ok((acc, 0, c))
    }
}

/// `add = mul (("+" | "-") mul)*`.
pub open spec fn p_add(ts: Seq<SpecToken>, i: int, c: SpecCtx) -> ParseStep
    decreases remaining(ts, i), 8int,
{
    match p_mul(ts, i, c) {
        Result::Ok((n, k, c2)) => match p_add_tail(n, ts, i + k, c2) {
            Result::Ok((n2, k2, c3)) => Result::Ok((n2, (k + k2) as nat, c3)),
            Result::Err(e) => Result::Err(e),
        },
        Result::Err(e) => Result::Err(e),
    }
}

/// The fold of `add (("<" | "<=" | ">" | ">=") add)*`, rewriting `>` and
/// `>=` to `<` and `<=` with the operands swapped.
pub open spec fn p_rel_tail(acc: AstS, ts: Seq<SpecToken>, i: int, c: SpecCtx) -> ParseStep
    decreases remaining(ts, i), 9int,
{
    if i < ts.len() && (ts[i].kind == SpecTokenKind::Sym(Symbol::Lt) || ts[i].kind
        == SpecTokenKind::Sym(Symbol::Lte)) {
        let op = if ts[i].kind == SpecTokenKind::Sym(Symbol::Lt) {
            CmpOp::Lt
        } else {
            CmpOp::Lte
        };
        match p_add(ts, i + 1, c) {
            Result::Ok((rhs, k, c2)) => {
                let node = AstS::CmpOp { value: op, lhs: Box::new(acc), rhs: Box::new(rhs) };
                match p_rel_tail(node, ts, i + 1 + k, c2) {
                    Result::Ok((n2, k2, c3)) => Result::Ok((n2, (1 + k + k2) as nat, c3)),
                    Result::Err(e) => Result::Err(e),
                }
            },
            Result::Err(e) => Result::Err(e),
        }
    } else if i < ts.len() && (ts[i].kind == SpecTokenKind::Sym(Symbol::Gt) || ts[i].kind
        == SpecTokenKind::Sym(Symbol::Gte)) {
        let op = if ts[i].kind == SpecTokenKind::Sym(Symbol::Gt) {
            CmpOp::Lt
        } else {
            CmpOp::Lte
        };
        match p_add(ts, i + 1, c) {
            Result::Ok((rhs, k, c2)) => {
                let node = AstS::CmpOp { value: op, lhs: Box::new(rhs), rhs: Box::new(acc) };
                match p_rel_tail(node, ts, i + 1 + k, c2) {
                    Result::Ok((n2, k2, c3)) => Result::Ok((n2, (1 + k + k2) as nat, c3)),
                    Result::Err(e) => Result::Err(e),
                }
            },
            Result::Err(e) => Result::Err(e),
        }
    } else {
        Result::Ok((acc, 0, c))
    }
}

/// `relational = add (("<" | "<=" | ">" | ">=") add)*`.
pub open spec fn p_relational(ts: Seq<SpecToken>, i: int, c: SpecCtx) -> ParseStep
    decreases remaining(ts, i), 10int,
{
    match p_add(ts, i, c) {
        Result::Ok((n, k, c2)) => match p_rel_tail(n, ts, i + k, c2) {
            Result::Ok((n2, k2, c3)) => Result::Ok((n2, (k + k2) as nat, c3)),
            Result::Err(e) => Result::Err(e),
        },
        Result::Err(e) => Result::Err(e),
    }
}

/// The fold of `relational (("==" | "!=") relational)*`.
pub open spec fn p_eq_tail(acc: AstS, ts: Seq<SpecToken>, i: int, c: SpecCtx) -> ParseStep
    decreases remaining(ts, i), 11int,
{
    if i < ts.len() && (ts[i].kind == SpecTokenKind::Sym(Symbol::Eq) || ts[i].kind
        == SpecTokenKind::Sym(Symbol::Neq)) {
        let op = if ts[i].kind == SpecTokenKind::Sym(Symbol::Eq) {
            CmpOp::Eq
        } else {
            CmpOp::Neq
        };
        match p_relational(ts, i + 1, c) {
            Result::Ok((rhs, k, c2)) => {
                let node = AstS::CmpOp { value: op, lhs: Box::new(acc), rhs: Box::new(rhs) };
                match p_eq_tail(node, ts, i + 1 + k, c2) {
                    Result::Ok((n2, k2, c3)) => Result::Ok((n2, (1 + k + k2) as nat, c3)),
                    Result::Err(e) => Result::Err(e),
                }
            },
            Result::Err(e) => Result::Err(e),
        }
    } else {
        Result::Ok((acc, 0, c))
    }
}

/// `equality = relational (("==" | "!=") relational)*`.
pub open spec fn p_equality(ts: Seq<SpecToken>, i: int, c: SpecCtx) -> ParseStep
    decreases remaining(ts, i), 12int,
{
    match p_relational(ts, i, c) {
        Result::Ok((n, k, c2)) => match p_eq_tail(n, ts, i + k, c2) {
            Result::Ok((n2, k2, c3)) => Result::Ok((n2, (k + k2) as nat, c3)),
            Result::Err(e) => Result::Err(e),
        },
        Result::Err(e) => Result::Err(e),
    }
}

/// `assign = equality ("=" assign)?`: right-associative.
pub open spec fn p_assign(ts: Seq<SpecToken>, i: int, c: SpecCtx) -> ParseStep
    decreases remaining(ts, i), 14int,
{
    match p_equality(ts, i, c) {
        Result::Ok((lhs, k, c2)) => {
            if i + k < ts.len() && ts[i + k].kind == SpecTokenKind::Sym(Symbol::Assign) {
                match p_assign(ts, i + k + 1, c2) {
                    Result::Ok((rhs, k2, c3)) => Result::Ok(
                        (
                            AstS::ArithOp {
                                value: ArithOp::Assign,
                                lhs: Box::new(lhs),
                                rhs: Box::new(rhs),
                            },
                            (k + 1 + k2) as nat,
                            c3,
                        ),
                    ),
                    Result::Err(e) => Result::Err(e),
                }
            } else {
                Result::Ok((lhs, k, c2))
            }
        },
        Result::Err(e) => Result::Err(e),
    }
}

/// `expr = assign`.
pub open spec fn p_expr(ts: Seq<SpecToken>, i: int, c: SpecCtx) -> ParseStep
    decreases remaining(ts, i), 16int,
{
    p_assign(ts, i, c)
}

/// `return expr ;`, given the `return` at position `i`.
pub open spec fn p_stmt_ret(ts: Seq<SpecToken>, i: int, c: SpecCtx) -> ParseStep
    decreases remaining(ts, i), 19int,
{
    match p_expr(ts, i + 1, c) {
        Result::Ok((v, k, c2)) => match p_consume(ts, i + 1 + k, Symbol::SemiColon) {
            Result::Ok(_) => Result::Ok((AstS::Ret { value: Box::new(v) }, (k + 2) as nat, c2)),
            Result::Err(e) => Result::Err(e),
        },
        Result::Err(e) => Result::Err(e),
    }
}

/// An expression statement: `expr ;`.
pub open spec fn p_stmt_expr(ts: Seq<SpecToken>, i: int, c: SpecCtx) -> ParseStep
    decreases remaining(ts, i), 19int,
{
    match p_expr(ts, i, c) {
        Result::Ok((n, k, c2)) => match p_consume(ts, i + k, Symbol::SemiColon) {
            Result::Ok(_) => Result::Ok((n, (k + 1) as nat, c2)),
            Result::Err(e) => Result::Err(e),
        },
        Result::Err(e) => Result::Err(e),
    }
}

/// An optional expression closed by the symbol `term`: either `term` alone
/// (no expression) or an expression followed by `term`.
pub open spec fn p_opt_expr_then(ts: Seq<SpecToken>, i: int, c: SpecCtx, term: Symbol) -> Result<
    (Option<Box<AstS>>, nat, SpecCtx),
    CompileError,
>
    decreases remaining(ts, i), 17int,
{
    if i < ts.len() && ts[i].kind == SpecTokenKind::Sym(term) {
        Result::Ok((None, 1, c))
    } else {
        match p_expr(ts, i, c) {
            Result::Ok((n, k, c2)) => match p_consume(ts, i + k, term) {
                Result::Ok(_) => Result::Ok((Some(Box::new(n)), (k + 1) as nat, c2)),
                Result::Err(e) => Result::Err(e),
            },
            Result::Err(e) => Result::Err(e),
        }
    }
}

/// The head that `if` and `while` share: `( expr ) stmt` after the keyword
/// at position `i`. Consumption is counted from the keyword itself.
pub open spec fn p_paren_head(ts: Seq<SpecToken>, i: int, c: SpecCtx) -> Result<
    (AstS, AstS, nat, SpecCtx),
    CompileError,
>
    decreases remaining(ts, i), 18int,
{
    match p_consume(ts, i + 1, Symbol::LParen) {
        Result::Ok(_) => match p_expr(ts, i + 2, c) {
            Result::Ok((cond, k1, c1)) => match p_consume(ts, i + 2 + k1, Symbol::RParen) {
                Result::Ok(_) => match p_stmt(ts, i + 3 + k1, c1) {
                    Result::Ok((body, k2, c2)) => Result::Ok(
                        (cond, body, (3 + k1 + k2) as nat, c2),
                    ),
                    Result::Err(e) => Result::Err(e),
                },
                Result::Err(e) => Result::Err(e),
            },
            Result::Err(e) => Result::Err(e),
        },
        Result::Err(e) => Result::Err(e),
    }
}

/// The head of a `for`: `( expr? ; expr? ; expr? )` after the keyword at
/// position `i`. Consumption is counted from the keyword itself.
pub open spec fn p_for_head(ts: Seq<SpecToken>, i: int, c: SpecCtx) -> Result<
    ((Option<Box<AstS>>, Option<Box<AstS>>, Option<Box<AstS>>), nat, SpecCtx),
    CompileError,
>
    decreases remaining(ts, i), 18int,
{
    match p_consume(ts, i + 1, Symbol::LParen) {
        Result::Ok(_) => match p_opt_expr_then(ts, i + 2, c, Symbol::SemiColon) {
            Result::Ok((init, k1, c1)) => match p_opt_expr_then(
                ts,
                i + 2 + k1,
                c1,
                Symbol::SemiColon,
            ) {
                Result::Ok((cond, k2, c2)) => match p_opt_expr_then(
                    ts,
                    i + 2 + k1 + k2,
                    c2,
                    Symbol::RParen,
                ) {
                    Result::Ok((update, k3, c3)) => Result::Ok(
                        ((init, cond, update), (2 + k1 + k2 + k3) as nat, c3),
                    ),
                    Result::Err(e) => Result::Err(e),
                },
                Result::Err(e) => Result::Err(e),
            },
            Result::Err(e) => Result::Err(e),
        },
        Result::Err(e) => Result::Err(e),
    }
}

/// `if ( expr ) stmt (else stmt)?`, given the `if` at position `i`. The
/// label is allocated after the subtrees are parsed.
pub open spec fn p_stmt_if(ts: Seq<SpecToken>, i: int, c: SpecCtx) -> ParseStep
    decreases remaining(ts, i), 19int,
{
    match p_paren_head(ts, i, c) {
        Result::Ok((cond, then, k, c2)) => {
            if i + k < ts.len() && ts[i + k].kind == SpecTokenKind::Sym(Symbol::Else) {
                match p_stmt(ts, i + k + 1, c2) {
                    Result::Ok((els, k3, c3)) => Result::Ok(
                        (
                            AstS::If {
                                label: c3.labels,
                                cond: Box::new(cond),
                                then: Box::new(then),
                                else_: Some(Box::new(els)),
                            },
                            (k + 1 + k3) as nat,
                            SpecCtx { names: c3.names, labels: (c3.labels + 1) as nat },
                        ),
                    ),
                    Result::Err(e) => Result::Err(e),
                }
            } else {
                Result::Ok(
                    (
                        AstS::If {
                            label: c2.labels,
                            cond: Box::new(cond),
                            then: Box::new(then),
                            else_: None,
                        },
                        k,
                        SpecCtx { names: c2.names, labels: (c2.labels + 1) as nat },
                    ),
                )
            }
        },
        Result::Err(e) => Result::Err(e),
    }
}

/// `while ( expr ) stmt`, given the `while` at position `i`. The loop-head
/// and loop-end labels are allocated after the subtrees are parsed.
pub open spec fn p_stmt_while(ts: Seq<SpecToken>, i: int, c: SpecCtx) -> ParseStep
    decreases remaining(ts, i), 19int,
{
    match p_paren_head(ts, i, c) {
        Result::Ok((cond, body, k, c2)) => Result::Ok(
            (
                AstS::While {
                    start_label: c2.labels,
                    end_label: (c2.labels + 1) as nat,
                    cond: Box::new(cond),
                    then: Box::new(body),
                },
                k,
                SpecCtx { names: c2.names, labels: (c2.labels + 2) as nat },
            ),
        ),
        Result::Err(e) => Result::Err(e),
    }
}

/// `for ( expr? ; expr? ; expr? ) stmt`, given the `for` at position `i`.
/// The loop-head and loop-end labels are allocated after the subtrees are
/// parsed.
pub open spec fn p_stmt_for(ts: Seq<SpecToken>, i: int, c: SpecCtx) -> ParseStep
    decreases remaining(ts, i), 19int,
{
    match p_for_head(ts, i, c) {
        Result::Ok(((init, cond, update), k, c3)) => match p_stmt(ts, i + k, c3) {
            Result::Ok((body, k4, c4)) => Result::Ok(
                (
                    AstS::For {
                        start_label: c4.labels,
                        end_label: (c4.labels + 1) as nat,
                        init,
                        cond,
                        update,
                        then: Box::new(body),
                    },
                    (k + k4) as nat,
                    SpecCtx { names: c4.names, labels: (c4.labels + 2) as nat },
                ),
            ),
            Result::Err(e) => Result::Err(e),
        },
        Result::Err(e) => Result::Err(e),
    }
}

/// One statement: `return`, `if`/`else`, `while`, `for`, or an expression
/// statement, each closed as the grammar demands.
pub open spec fn p_stmt(ts: Seq<SpecToken>, i: int, c: SpecCtx) -> ParseStep
    decreases remaining(ts, i), 20int,
{
    if i < ts.len() && ts[i].kind == SpecTokenKind::Sym(Symbol::Ret) {
        p_stmt_ret(ts, i, c)
    } else if i < ts.len() && ts[i].kind == SpecTokenKind::Sym(Symbol::If) {
        p_stmt_if(ts, i, c)
    } else if i < ts.len() && ts[i].kind == SpecTokenKind::Sym(Symbol::While) {
        p_stmt_while(ts, i, c)
    } else if i < ts.len() && ts[i].kind == SpecTokenKind::Sym(Symbol::For) {
        p_stmt_for(ts, i, c)
    } else {
        p_stmt_expr(ts, i, c)
    }
}

/// `program = stmt*`, to the end of the input.
pub open spec fn p_program(ts: Seq<SpecToken>, i: int, c: SpecCtx) -> Result<
    (Seq<AstS>, SpecCtx),
    CompileError,
>
    decreases remaining(ts, i), 22int,
{
    if i >= ts.len() {
        Result::Ok((seq![], c))
    } else {
        match p_stmt(ts, i, c) {
            Result::Ok((n, k, c2)) => {
                if k == 0 {
                    Result::Err(CompileError::UnexpectedEnd)
                } else {
                    match p_program(ts, i + k, c2) {
                        Result::Ok((ns, c3)) => Result::Ok((seq![n] + ns, c3)),
                        Result::Err(e) => Result::Err(e),
                    }
                }
            },
            Result::Err(e) => Result::Err(e),
        }
    }
}

/// What parsing a whole token sequence yields: the statements in order and
/// the final context, from which the frame size follows.
pub open spec fn p_parse(ts: Seq<SpecToken>) -> Result<(Seq<AstS>, SpecCtx), CompileError> {
    p_program(ts, 0, SpecCtx { names: seq![], labels: 0 })
}


/// Room for the parser's bounded arithmetic: every stack offset and label
/// number it can still allocate fits in `usize`.
pub open spec fn parse_room(ts: Seq<SpecToken>, i: int, c: SpecCtx) -> bool {
    &&& 8 * (c.names.len() + (ts.len() - i) + 1) <= usize::MAX
    &&& c.labels + (ts.len() - i) + 2 <= usize::MAX
}

/// What one executable parsing step must satisfy, relative to the `Ok`
/// outcome `(n, k, c2)` of its specification counterpart: the same tree
/// (through the view), the same consumption, and the bookkeeping facts that
/// keep the recursion and the label discipline going.
pub open spec fn step_core(
    ts: Seq<SpecToken>,
    i: int,
    c0: SpecCtx,
    n: AstS,
    k: nat,
    c2: SpecCtx,
    node: Node,
    j: int,
) -> bool {
    &&& node@ == n
    &&& j == i + k
    &&& i + k <= ts.len()
    &&& c0.names.is_prefix_of(c2.names)
    &&& c2.names.len() <= c0.names.len() + k
    &&& c0.labels <= c2.labels <= c0.labels + k
    &&& (names_distinct(c0.names) ==> names_distinct(c2.names))
    &&& labels_canonical(node)
}

/// The contract of parsing functions that consume at least one token.
pub open spec fn step_ok(
    ts: Seq<SpecToken>,
    i: int,
    c0: SpecCtx,
    sr: ParseStep,
    r: Result<(Node, usize), CompileError>,
    c1: SpecCtx,
) -> bool {
    match sr {
        Result::Ok((n, k, c2)) => r matches Result::Ok(p) && ({
            &&& step_core(ts, i, c0, n, k, c2, p.0, p.1 as int)
            &&& c1 == c2
            &&& 1 <= k
        }),
        Result::Err(e) => r matches Result::Err(e2) && e2 == e,
    }
}

/// The contract of the fold tails, which may consume nothing.
pub open spec fn tail_step_ok(
    ts: Seq<SpecToken>,
    i: int,
    c0: SpecCtx,
    sr: ParseStep,
    r: Result<(Node, usize), CompileError>,
    c1: SpecCtx,
) -> bool {
    match sr {
        Result::Ok((n, k, c2)) => r matches Result::Ok(p) && ({
            &&& step_core(ts, i, c0, n, k, c2, p.0, p.1 as int)
            &&& c1 == c2
        }),
        Result::Err(e) => r matches Result::Err(e2) && e2 == e,
    }
}

/// The extra promise of every expression-level function: expressions hold
/// no control-flow constructs, so they define no labels and allocate none.
pub open spec fn expr_extra(sr: ParseStep, c0: SpecCtx) -> bool {
    sr matches Result::Ok(p) ==> p.2.labels == c0.labels && def_seq(p.0).len() == 0
}

/// Whether `k` denotes the symbol `sym`.
fn kind_is_symbol(k: &TokenKind, sym: Symbol) -> (r: bool)
    ensures
        r == (k@ == SpecTokenKind::Sym(sym)),
{
    match k {
        TokenKind::Symbol(s) => *s == sym,
        _ => false,
    }
}

/// A prefix of a prefix is a prefix.
proof fn lemma_prefix_trans(a: Seq<Seq<char>>, b: Seq<Seq<char>>, c: Seq<Seq<char>>)
    requires
        a.is_prefix_of(b),
        b.is_prefix_of(c),
    ensures
        a.is_prefix_of(c),
{
    assert(a =~= c.subrange(0, a.len() as int));
}

/// `.L<n>` denotes `n`: rendering a label number and reading it back is the
/// identity, so distinct numbers give distinct label strings.
pub proof fn lemma_lbl_roundtrip(k: nat)
    ensures
        label_num_of(lbl_seq(k)) == k,
        label_text_wf(lbl_seq(k)),
{
    reveal_strlit(".L");
    assert(lbl_seq(k).skip(2) =~= dec_digits(k));
    crate::decimal::lemma_dec_digits_val(k);
}

/// Distinct label numbers render to distinct label texts: a jump can only
/// reach the definition of the label it names.
pub proof fn lemma_labels_injective(k1: nat, k2: nat)
    requires
        k1 != k2,
    ensures
        lbl_seq(k1) != lbl_seq(k2),
{
    if lbl_seq(k1) == lbl_seq(k2) {
        reveal_strlit(".L");
        assert(lbl_seq(k1).skip(2) =~= dec_digits(k1));
        assert(lbl_seq(k2).skip(2) =~= dec_digits(k2));
        crate::decimal::lemma_dec_digits_injective(k1, k2);
    }
}

/// Requires the symbol `sym` at position `i` and steps past it.
fn parse_consume<'a>(toks: &Vec<Token<'a>>, i: usize, expected: Symbol) -> (r: Result<
    usize,
    CompileError,
>)
    requires
        i <= toks@.len(),
    ensures
        match p_consume(toks_view(toks@), i as int, expected) {
            Result::Ok(_) => r matches Result::Ok(j) && j == i + 1 && i < toks@.len(),
            Result::Err(e) => r matches Result::Err(e2) && e2 == e,
        },
{
    let ghost ts = toks_view(toks@);
    proof {
        assert(forall|k: int| 0 <= k < toks@.len() ==> ts[k] == #[trigger] toks@[k]@);
    }
    if i >= toks.len() {
        return Result::Err(CompileError::UnexpectedEndExpecting { expected });
    }
    if kind_is_symbol(&toks[i].value, expected) {
        Result::Ok(i + 1)
    } else {
        Result::Err(
            CompileError::UnexpectedToken { expected, location: toks[i].metadata.code_location },
        )
    }
}

/// `primary = num | ident | "(" expr ")"`.
#[verifier::rlimit(50)]
fn parse_primary<'a>(toks: &Vec<Token<'a>>, i: usize, ctx: &mut ParserContext) -> (r: Result<
    (Node, usize),
    CompileError,
>)
    requires
        i <= toks@.len(),
        parse_room(toks_view(toks@), i as int, old(ctx)@),
    ensures
        step_ok(
            toks_view(toks@),
            i as int,
            old(ctx)@,
            p_primary(toks_view(toks@), i as int, old(ctx)@),
            r,
            final(ctx)@,
        ),
        expr_extra(p_primary(toks_view(toks@), i as int, old(ctx)@), old(ctx)@),
    decreases toks@.len() - i, 2int,
{
    let ghost ts = toks_view(toks@);
    proof {
        assert(forall|k: int| 0 <= k < toks@.len() ==> ts[k] == #[trigger] toks@[k]@);
    }
    if i >= toks.len() {
        proof {
            assert(ts.len() == toks@.len());
            assert(p_primary(ts, i as int, old(ctx)@) == Result::<(AstS, nat, SpecCtx), CompileError>::Err(CompileError::UnexpectedEnd));
        }
        return Result::Err(CompileError::UnexpectedEnd);
    }
    match &toks[i].value {
        TokenKind::Num(v) => {
            let node = Node::num(*v);
            proof {
                assert(old(ctx)@.names.is_prefix_of(old(ctx)@.names));
                assert(ts[i as int].kind == SpecTokenKind::Num(*v as int));
                assert(p_primary(ts, i as int, old(ctx)@) == Result::<(AstS, nat, SpecCtx), CompileError>::Ok((AstS::Num(*v as int), 1nat, old(ctx)@)));
                assert(node@ == AstS::Num(*v as int));
                assert(final(ctx)@ == old(ctx)@);
                assert(labels_canonical(node));
            }
            Result::Ok((node, i + 1))
        },
        TokenKind::Ident(w) => {
            let ghost names0 = ctx@.names;
            let off = ctx.resolve(w.as_str());
            let node = Node::local_var(off);
            proof {
                lemma_first_index_in_range(names0, w@);
                match first_index(names0, w@) {
                    Some(_) => {
                        assert(names0.is_prefix_of(names0));
                    },
                    None => {
                        assert(names0.is_prefix_of(names0.push(w@)));
                        if names_distinct(names0) {
                            let names2 = names0.push(w@);
                            assert forall|k1: int, k2: int|
                                0 <= k1 < k2 < names2.len() implies names2[k1] != names2[k2] by {
                                if k2 == names0.len() {
                                    assert(names2[k1] == names0[k1]);
                                }
                            }
                        }
                    },
                }
            }
            let res = Result::Ok((node, i + 1));
            proof {
                assert(step_ok(ts, i as int, old(ctx)@, p_primary(ts, i as int, old(ctx)@), res, ctx@));
            }
            res
        },
        TokenKind::Symbol(sym) => {
            proof {
                assert(ts[i as int] == toks@[i as int]@);
            }
            if *sym == Symbol::LParen {
                match parse_expr(toks, i + 1, ctx) {
                    Result::Ok((n, j)) => {
                        proof {
                            assert(ts[i as int].kind == SpecTokenKind::Sym(Symbol::LParen));
                            assert(p_expr(ts, i as int + 1, old(ctx)@) is Ok);
                        }
                        match parse_consume(toks, j, Symbol::RParen) {
                        Result::Ok(j2) => {
                            let res = Result::Ok((n, j2));
                            proof {
                                let sr = p_primary(ts, i as int, old(ctx)@);
                                assert(sr is Ok);
                                let (sn, sk, sc) = sr->Ok_0;
                                assert(n@ == sn);
                                assert(j2 as int == i + sk);
                                assert(i + sk <= ts.len());
                                assert(old(ctx)@.names.is_prefix_of(sc.names));
                                assert(sc.names.len() <= old(ctx)@.names.len() + sk);
                                assert(old(ctx)@.labels <= sc.labels <= old(ctx)@.labels + sk);
                                assert(names_distinct(old(ctx)@.names) ==> names_distinct(sc.names));
                                assert(labels_canonical(n));
                                assert(ctx@ == sc);
                                assert(1 <= sk);
                                assert(step_ok(ts, i as int, old(ctx)@, p_primary(ts, i as int, old(ctx)@), res, ctx@));
                            }
                            res
                        },
                        Result::Err(e) => Result::Err(e),
                    }
                    },
                    Result::Err(e) => Result::Err(e),
                }
            } else {
                Result::Err(
                    CompileError::InvalidToken { location: toks[i].metadata.code_location },
                )
            }
        },
    }
}

/// `unary = ("+" | "-")? primary`.
#[verifier::rlimit(50)]
fn parse_unary<'a>(toks: &Vec<Token<'a>>, i: usize, ctx: &mut ParserContext) -> (r: Result<
    (Node, usize),
    CompileError,
>)
    requires
        i <= toks@.len(),
        parse_room(toks_view(toks@), i as int, old(ctx)@),
    ensures
        step_ok(
            toks_view(toks@),
            i as int,
            old(ctx)@,
            p_unary(toks_view(toks@), i as int, old(ctx)@),
            r,
            final(ctx)@,
        ),
        expr_extra(p_unary(toks_view(toks@), i as int, old(ctx)@), old(ctx)@),
    decreases toks@.len() - i, 4int,
{
    let ghost ts = toks_view(toks@);
    proof {
        assert(forall|k: int| 0 <= k < toks@.len() ==> ts[k] == #[trigger] toks@[k]@);
    }
    if i < toks.len() && kind_is_symbol(&toks[i].value, Symbol::Add) {
        match parse_primary(toks, i + 1, ctx) {
            Result::Ok((n, j)) => Result::Ok((n, j)),
            Result::Err(e) => Result::Err(e),
        }
    } else if i < toks.len() && kind_is_symbol(&toks[i].value, Symbol::Sub) {
        match parse_primary(toks, i + 1, ctx) {
            Result::Ok((n, j)) => {
                let node = Node::arith_op(ArithOp::Sub, Node::num(0), n);
                Result::Ok((node, j))
            },
            Result::Err(e) => Result::Err(e),
        }
    } else {
        parse_primary(toks, i, ctx)
    }
}

/// The left-associative fold of `unary (("*" | "/") unary)*`.
#[verifier::rlimit(50)]
fn parse_mul_tail<'a>(acc: Node, toks: &Vec<Token<'a>>, i: usize, ctx: &mut ParserContext) -> (r:
    Result<(Node, usize), CompileError>)
    requires
        i <= toks@.len(),
        parse_room(toks_view(toks@), i as int, old(ctx)@),
        labels_canonical(acc),
        def_seq(acc@).len() == 0,
    ensures
        tail_step_ok(
            toks_view(toks@),
            i as int,
            old(ctx)@,
            p_mul_tail(acc@, toks_view(toks@), i as int, old(ctx)@),
            r,
            final(ctx)@,
        ),
        expr_extra(p_mul_tail(acc@, toks_view(toks@), i as int, old(ctx)@), old(ctx)@),
    decreases toks@.len() - i, 5int,
{
    let ghost ts = toks_view(toks@);
    proof {
        assert(forall|k: int| 0 <= k < toks@.len() ==> ts[k] == #[trigger] toks@[k]@);
    }
    if i < toks.len() && (kind_is_symbol(&toks[i].value, Symbol::Mul) || kind_is_symbol(
        &toks[i].value,
        Symbol::Div,
    )) {
        let op = if kind_is_symbol(&toks[i].value, Symbol::Mul) {
            ArithOp::Mul
        } else {
            ArithOp::Div
        };
        match parse_unary(toks, i + 1, ctx) {
            Result::Ok((rhs, j)) => {
                let node = Node::arith_op(op, acc, rhs);
                parse_mul_tail(node, toks, j, ctx)
            },
            Result::Err(e) => Result::Err(e),
        }
    } else {
        Result::Ok((acc, i))
    }
}

/// `mul = unary (("*" | "/") unary)*`.
#[verifier::rlimit(50)]
fn parse_mul<'a>(toks: &Vec<Token<'a>>, i: usize, ctx: &mut ParserContext) -> (r: Result<
    (Node, usize),
    CompileError,
>)
    requires
        i <= toks@.len(),
        parse_room(toks_view(toks@), i as int, old(ctx)@),
    ensures
        step_ok(
            toks_view(toks@),
            i as int,
            old(ctx)@,
            p_mul(toks_view(toks@), i as int, old(ctx)@),
            r,
            final(ctx)@,
        ),
        expr_extra(p_mul(toks_view(toks@), i as int, old(ctx)@), old(ctx)@),
    decreases toks@.len() - i, 6int,
{
    match parse_unary(toks, i, ctx) {
        Result::Ok((n, j)) => parse_mul_tail(n, toks, j, ctx),
        Result::Err(e) => Result::Err(e),
    }
}

/// The left-associative fold of `mul (("+" | "-") mul)*`.
#[verifier::rlimit(50)]
fn parse_add_tail<'a>(acc: Node, toks: &Vec<Token<'a>>, i: usize, ctx: &mut ParserContext) -> (r:
    Result<(Node, usize), CompileError>)
    requires
        i <= toks@.len(),
        parse_room(toks_view(toks@), i as int, old(ctx)@),
        labels_canonical(acc),
        def_seq(acc@).len() == 0,
    ensures
        tail_step_ok(
            toks_view(toks@),
            i as int,
            old(ctx)@,
            p_add_tail(acc@, toks_view(toks@), i as int, old(ctx)@),
            r,
            final(ctx)@,
        ),
        expr_extra(p_add_tail(acc@, toks_view(toks@), i as int, old(ctx)@), old(ctx)@),
    decreases toks@.len() - i, 7int,
{
    let ghost ts = toks_view(toks@);
    proof {
        assert(forall|k: int| 0 <= k < toks@.len() ==> ts[k] == #[trigger] toks@[k]@);
    }
    if i < toks.len() && (kind_is_symbol(&toks[i].value, Symbol::Add) || kind_is_symbol(
        &toks[i].value,
        Symbol::Sub,
    )) {
        let op = if kind_is_symbol(&toks[i].value, Symbol::Add) {
            ArithOp::Add
        } else {
            ArithOp::Sub
        };
        match parse_mul(toks, i + 1, ctx) {
            Result::Ok((rhs, j)) => {
                let node = Node::arith_op(op, acc, rhs);
                parse_add_tail(node, toks, j, ctx)
            },
            Result::Err(e) => Result::Err(e),
        }
    } else {
        Result::Ok((acc, i))
    }
}

/// `add = mul (("+" | "-") mul)*`.
#[verifier::rlimit(50)]
fn parse_add<'a>(toks: &Vec<Token<'a>>, i: usize, ctx: &mut ParserContext) -> (r: Result<
    (Node, usize),
    CompileError,
>)
    requires
        i <= toks@.len(),
        parse_room(toks_view(toks@), i as int, old(ctx)@),
    ensures
        step_ok(
            toks_view(toks@),
            i as int,
            old(ctx)@,
            p_add(toks_view(toks@), i as int, old(ctx)@),
            r,
            final(ctx)@,
        ),
        expr_extra(p_add(toks_view(toks@), i as int, old(ctx)@), old(ctx)@),
    decreases toks@.len() - i, 8int,
{
    match parse_mul(toks, i, ctx) {
        Result::Ok((n, j)) => parse_add_tail(n, toks, j, ctx),
        Result::Err(e) => Result::Err(e),
    }
}

/// The fold of `add (("<" | "<=" | ">" | ">=") add)*`, rewriting `>` and
/// `>=` to `<` and `<=` with the operands swapped.
#[verifier::rlimit(50)]
fn parse_rel_tail<'a>(acc: Node, toks: &Vec<Token<'a>>, i: usize, ctx: &mut ParserContext) -> (r:
    Result<(Node, usize), CompileError>)
    requires
        i <= toks@.len(),
        parse_room(toks_view(toks@), i as int, old(ctx)@),
        labels_canonical(acc),
        def_seq(acc@).len() == 0,
    ensures
        tail_step_ok(
            toks_view(toks@),
            i as int,
            old(ctx)@,
            p_rel_tail(acc@, toks_view(toks@), i as int, old(ctx)@),
            r,
            final(ctx)@,
        ),
        expr_extra(p_rel_tail(acc@, toks_view(toks@), i as int, old(ctx)@), old(ctx)@),
    decreases toks@.len() - i, 9int,
{
    let ghost ts = toks_view(toks@);
    proof {
        assert(forall|k: int| 0 <= k < toks@.len() ==> ts[k] == #[trigger] toks@[k]@);
    }
    if i < toks.len() && (kind_is_symbol(&toks[i].value, Symbol::Lt) || kind_is_symbol(
        &toks[i].value,
        Symbol::Lte,
    )) {
        let op = if kind_is_symbol(&toks[i].value, Symbol::Lt) {
            CmpOp::Lt
        } else {
            CmpOp::Lte
        };
        match parse_add(toks, i + 1, ctx) {
            Result::Ok((rhs, j)) => {
                let node = Node::cmp_op(op, acc, rhs);
                parse_rel_tail(node, toks, j, ctx)
            },
            Result::Err(e) => Result::Err(e),
        }
    } else if i < toks.len() && (kind_is_symbol(&toks[i].value, Symbol::Gt) || kind_is_symbol(
        &toks[i].value,
        Symbol::Gte,
    )) {
        let op = if kind_is_symbol(&toks[i].value, Symbol::Gt) {
            CmpOp::Lt
        } else {
            CmpOp::Lte
        };
        match parse_add(toks, i + 1, ctx) {
            Result::Ok((rhs, j)) => {
                let node = Node::cmp_op(op, rhs, acc);
                parse_rel_tail(node, toks, j, ctx)
            },
            Result::Err(e) => Result::Err(e),
        }
    } else {
        Result::Ok((acc, i))
    }
}

/// `relational = add (("<" | "<=" | ">" | ">=") add)*`.
#[verifier::rlimit(50)]
fn parse_relational<'a>(toks: &Vec<Token<'a>>, i: usize, ctx: &mut ParserContext) -> (r: Result<
    (Node, usize),
    CompileError,
>)
    requires
        i <= toks@.len(),
        parse_room(toks_view(toks@), i as int, old(ctx)@),
    ensures
        step_ok(
            toks_view(toks@),
            i as int,
            old(ctx)@,
            p_relational(toks_view(toks@), i as int, old(ctx)@),
            r,
            final(ctx)@,
        ),
        expr_extra(p_relational(toks_view(toks@), i as int, old(ctx)@), old(ctx)@),
    decreases toks@.len() - i, 10int,
{
    let ghost ts = toks_view(toks@);
    match parse_add(toks, i, ctx) {
        Result::Ok((n, j)) => {
            proof {
                assert(p_add(ts, i as int, old(ctx)@) is Ok);
            }
            let r2 = parse_rel_tail(n, toks, j, ctx);
            proof {
                let sq = p_add(ts, i as int, old(ctx)@)->Ok_0;
                assert(p_relational(ts, i as int, old(ctx)@) == (match p_rel_tail(
                    sq.0,
                    ts,
                    i + sq.1,
                    sq.2,
                ) {
                    Result::Ok((n2, k2, c3)) => Result::<(AstS, nat, SpecCtx), CompileError>::Ok(
                        (n2, (sq.1 + k2) as nat, c3),
                    ),
                    Result::Err(e) => Result::Err(e),
                }));
            }
            r2
        },
        Result::Err(e) => Result::Err(e),
    }
}

/// The fold of `relational (("==" | "!=") relational)*`.
#[verifier::rlimit(100)]
#[verifier::spinoff_prover]
fn parse_eq_tail<'a>(acc: Node, toks: &Vec<Token<'a>>, i: usize, ctx: &mut ParserContext) -> (r:
    Result<(Node, usize), CompileError>)
    requires
        i <= toks@.len(),
        parse_room(toks_view(toks@), i as int, old(ctx)@),
        labels_canonical(acc),
        def_seq(acc@).len() == 0,
    ensures
        tail_step_ok(
            toks_view(toks@),
            i as int,
            old(ctx)@,
            p_eq_tail(acc@, toks_view(toks@), i as int, old(ctx)@),
            r,
            final(ctx)@,
        ),
        expr_extra(p_eq_tail(acc@, toks_view(toks@), i as int, old(ctx)@), old(ctx)@),
    decreases toks@.len() - i, 11int,
{
    let ghost ts = toks_view(toks@);
    proof {
        assert(forall|k: int| 0 <= k < toks@.len() ==> ts[k] == #[trigger] toks@[k]@);
    }
    if i < toks.len() && (kind_is_symbol(&toks[i].value, Symbol::Eq) || kind_is_symbol(
        &toks[i].value,
        Symbol::Neq,
    )) {
        let op = if kind_is_symbol(&toks[i].value, Symbol::Eq) {
            CmpOp::Eq
        } else {
            CmpOp::Neq
        };
        match parse_relational(toks, i + 1, ctx) {
            Result::Ok((rhs, j)) => {
                let node = Node::cmp_op(op, acc, rhs);
                parse_eq_tail(node, toks, j, ctx)
            },
            Result::Err(e) => Result::Err(e),
        }
    } else {
        Result::Ok((acc, i))
    }
}

/// `equality = relational (("==" | "!=") relational)*`.
#[verifier::rlimit(100)]
#[verifier::spinoff_prover]
fn parse_equality<'a>(toks: &Vec<Token<'a>>, i: usize, ctx: &mut ParserContext) -> (r: Result<
    (Node, usize),
    CompileError,
>)
    requires
        i <= toks@.len(),
        parse_room(toks_view(toks@), i as int, old(ctx)@),
    ensures
        step_ok(
            toks_view(toks@),
            i as int,
            old(ctx)@,
            p_equality(toks_view(toks@), i as int, old(ctx)@),
            r,
            final(ctx)@,
        ),
        expr_extra(p_equality(toks_view(toks@), i as int, old(ctx)@), old(ctx)@),
    decreases toks@.len() - i, 12int,
{
    let ghost ts = toks_view(toks@);
    match parse_relational(toks, i, ctx) {
        Result::Ok((n, j)) => {
            proof {
                assert(p_relational(ts, i as int, old(ctx)@) is Ok);
            }
            let r2 = parse_eq_tail(n, toks, j, ctx);
            proof {
                let sq = p_relational(ts, i as int, old(ctx)@)->Ok_0;
                assert(p_equality(ts, i as int, old(ctx)@) == (match p_eq_tail(
                    sq.0,
                    ts,
                    i + sq.1,
                    sq.2,
                ) {
                    Result::Ok((n2, k2, c3)) => Result::<(AstS, nat, SpecCtx), CompileError>::Ok(
                        (n2, (sq.1 + k2) as nat, c3),
                    ),
                    Result::Err(e) => Result::Err(e),
                }));
            }
            r2
        },
        Result::Err(e) => Result::Err(e),
    }
}

/// `assign = equality ("=" assign)?`: right-associative.
#[verifier::rlimit(50)]
fn parse_assign<'a>(toks: &Vec<Token<'a>>, i: usize, ctx: &mut ParserContext) -> (r: Result<
    (Node, usize),
    CompileError,
>)
    requires
        i <= toks@.len(),
        parse_room(toks_view(toks@), i as int, old(ctx)@),
    ensures
        step_ok(
            toks_view(toks@),
            i as int,
            old(ctx)@,
            p_assign(toks_view(toks@), i as int, old(ctx)@),
            r,
            final(ctx)@,
        ),
        expr_extra(p_assign(toks_view(toks@), i as int, old(ctx)@), old(ctx)@),
    decreases toks@.len() - i, 14int,
{
    let ghost ts = toks_view(toks@);
    proof {
        assert(forall|k: int| 0 <= k < toks@.len() ==> ts[k] == #[trigger] toks@[k]@);
    }
    match parse_equality(toks, i, ctx) {
        Result::Ok((lhs, j)) => {
            if j < toks.len() && kind_is_symbol(&toks[j].value, Symbol::Assign) {
                match parse_assign(toks, j + 1, ctx) {
                    Result::Ok((rhs, j2)) => {
                        let node = Node::arith_op(ArithOp::Assign, lhs, rhs);
                        Result::Ok((node, j2))
                    },
                    Result::Err(e) => Result::Err(e),
                }
            } else {
                Result::Ok((lhs, j))
            }
        },
        Result::Err(e) => Result::Err(e),
    }
}

/// `expr = assign`.
fn parse_expr<'a>(toks: &Vec<Token<'a>>, i: usize, ctx: &mut ParserContext) -> (r: Result<
    (Node, usize),
    CompileError,
>)
    requires
        i <= toks@.len(),
        parse_room(toks_view(toks@), i as int, old(ctx)@),
    ensures
        step_ok(
            toks_view(toks@),
            i as int,
            old(ctx)@,
            p_expr(toks_view(toks@), i as int, old(ctx)@),
            r,
            final(ctx)@,
        ),
        expr_extra(p_expr(toks_view(toks@), i as int, old(ctx)@), old(ctx)@),
    decreases toks@.len() - i, 16int,
{
    parse_assign(toks, i, ctx)
}

/// The result of parsing a whole program: the statements in order, and the
/// stack frame size their local variables need.
pub struct ParseResult {
    pub nodes: Vec<Node>,
    pub stack_size: usize,
}

/// Parses the statement form that begins with `return` at position `i`.
#[verifier::rlimit(100)]
#[verifier::spinoff_prover]
fn parse_stmt_ret<'a>(toks: &Vec<Token<'a>>, i: usize, ctx: &mut ParserContext) -> (r: Result<
    (Node, usize),
    CompileError,
>)
    requires
        i < toks@.len(),
        toks@.len() <= usize::MAX,
        parse_room(toks_view(toks@), i as int, old(ctx)@),
    ensures
        step_ok(
            toks_view(toks@),
            i as int,
            old(ctx)@,
            p_stmt_ret(toks_view(toks@), i as int, old(ctx)@),
            r,
            final(ctx)@,
        ),
    decreases toks@.len() - i, 19int,
{
    let ghost ts = toks_view(toks@);
    let ghost c0 = old(ctx)@;
    proof {
        if (i as int) < ts.len() {
            assert(ts[i as int] == toks@[i as int]@);
        }
    }
            let (value, j1) = match parse_expr(toks, i + 1, ctx) {
            Result::Ok(p) => p,
            Result::Err(e) => {
                return Result::Err(e);
            },
        };
        let j2 = match parse_consume(toks, j1, Symbol::SemiColon) {
            Result::Ok(j) => j,
            Result::Err(e) => {
                return Result::Err(e);
            },
        };
        let node = Node::ret(value);
        proof {
            assert(def_seq(node@) =~= def_seq(value@));
        }
        Result::Ok((node, j2))
}

/// Parses the statement form that begins with `an expression` at position `i`.
#[verifier::rlimit(100)]
#[verifier::spinoff_prover]
fn parse_stmt_expr<'a>(toks: &Vec<Token<'a>>, i: usize, ctx: &mut ParserContext) -> (r: Result<
    (Node, usize),
    CompileError,
>)
    requires
        i <= toks@.len(),
        parse_room(toks_view(toks@), i as int, old(ctx)@),
    ensures
        step_ok(
            toks_view(toks@),
            i as int,
            old(ctx)@,
            p_stmt_expr(toks_view(toks@), i as int, old(ctx)@),
            r,
            final(ctx)@,
        ),
    decreases toks@.len() - i, 19int,
{
    let ghost ts = toks_view(toks@);
    let ghost c0 = old(ctx)@;
    proof {
        if (i as int) < ts.len() {
            assert(ts[i as int] == toks@[i as int]@);
        }
    }
            let (n, j1) = match parse_expr(toks, i, ctx) {
            Result::Ok(p) => p,
            Result::Err(e) => {
                return Result::Err(e);
            },
        };
        let j2 = match parse_consume(toks, j1, Symbol::SemiColon) {
            Result::Ok(j) => j,
            Result::Err(e) => {
                return Result::Err(e);
            },
        };
        Result::Ok((n, j2))
}

/// Whether an optional executable subtree matches an optional specification
/// subtree: both absent, or present with the same content, canonical
/// labels, and no label definitions (expressions define none).
pub open spec fn opt_node_matches(n: Option<Node>, b: Option<Box<AstS>>) -> bool {
    match (n, b) {
        (Some(nd), Some(bx)) => nd@ == *bx && labels_canonical(nd) && def_seq(nd@).len() == 0,
        (None, None) => true,
        _ => false,
    }
}

/// Unfolds the if-statement specification once for a head with no `else`.
proof fn lemma_if_plain(
    ts: Seq<SpecToken>,
    i: int,
    c0: SpecCtx,
    cond: AstS,
    then: AstS,
    k: nat,
    c2: SpecCtx,
)
    requires
        p_paren_head(ts, i, c0) == Result::<(AstS, AstS, nat, SpecCtx), CompileError>::Ok(
            (cond, then, k, c2),
        ),
        !(i + k < ts.len() && ts[i + k].kind == SpecTokenKind::Sym(Symbol::Else)),
    ensures
        p_stmt_if(ts, i, c0) == Result::<(AstS, nat, SpecCtx), CompileError>::Ok(
            (
                AstS::If {
                    label: c2.labels,
                    cond: Box::new(cond),
                    then: Box::new(then),
                    else_: None,
                },
                k,
                SpecCtx { names: c2.names, labels: (c2.labels + 1) as nat },
            ),
        ),
{
}

/// Unfolds the if-statement specification once for a head followed by
/// `else`.
proof fn lemma_if_else(
    ts: Seq<SpecToken>,
    i: int,
    c0: SpecCtx,
    cond: AstS,
    then: AstS,
    k: nat,
    c2: SpecCtx,
    els: AstS,
    k3: nat,
    c3: SpecCtx,
)
    requires
        p_paren_head(ts, i, c0) == Result::<(AstS, AstS, nat, SpecCtx), CompileError>::Ok(
            (cond, then, k, c2),
        ),
        i + k < ts.len() && ts[i + k].kind == SpecTokenKind::Sym(Symbol::Else),
        p_stmt(ts, i + k + 1, c2) == Result::<(AstS, nat, SpecCtx), CompileError>::Ok(
            (els, k3, c3),
        ),
    ensures
        p_stmt_if(ts, i, c0) == Result::<(AstS, nat, SpecCtx), CompileError>::Ok(
            (
                AstS::If {
                    label: c3.labels,
                    cond: Box::new(cond),
                    then: Box::new(then),
                    else_: Some(Box::new(els)),
                },
                (k + 1 + k3) as nat,
                SpecCtx { names: c3.names, labels: (c3.labels + 1) as nat },
            ),
        ),
{
}

/// Unfolds the while-statement specification once.
proof fn lemma_while_ok(
    ts: Seq<SpecToken>,
    i: int,
    c0: SpecCtx,
    cond: AstS,
    body: AstS,
    k: nat,
    c2: SpecCtx,
)
    requires
        p_paren_head(ts, i, c0) == Result::<(AstS, AstS, nat, SpecCtx), CompileError>::Ok(
            (cond, body, k, c2),
        ),
    ensures
        p_stmt_while(ts, i, c0) == Result::<(AstS, nat, SpecCtx), CompileError>::Ok(
            (
                AstS::While {
                    start_label: c2.labels,
                    end_label: (c2.labels + 1) as nat,
                    cond: Box::new(cond),
                    then: Box::new(body),
                },
                k,
                SpecCtx { names: c2.names, labels: (c2.labels + 2) as nat },
            ),
        ),
{
}

/// Unfolds the for-statement specification once.
proof fn lemma_for_ok(
    ts: Seq<SpecToken>,
    i: int,
    c0: SpecCtx,
    init: Option<Box<AstS>>,
    cond: Option<Box<AstS>>,
    update: Option<Box<AstS>>,
    k: nat,
    c3: SpecCtx,
    body: AstS,
    k4: nat,
    c4: SpecCtx,
)
    requires
        p_for_head(ts, i, c0) == Result::<
            ((Option<Box<AstS>>, Option<Box<AstS>>, Option<Box<AstS>>), nat, SpecCtx),
            CompileError,
        >::Ok(((init, cond, update), k, c3)),
        p_stmt(ts, i + k, c3) == Result::<(AstS, nat, SpecCtx), CompileError>::Ok(
            (body, k4, c4),
        ),
    ensures
        p_stmt_for(ts, i, c0) == Result::<(AstS, nat, SpecCtx), CompileError>::Ok(
            (
                AstS::For {
                    start_label: c4.labels,
                    end_label: (c4.labels + 1) as nat,
                    init,
                    cond,
                    update,
                    then: Box::new(body),
                },
                (k + k4) as nat,
                SpecCtx { names: c4.names, labels: (c4.labels + 2) as nat },
            ),
        ),
{
}

/// Unfolds the shared head specification once for a successful parse.
proof fn lemma_head_ok(
    ts: Seq<SpecToken>,
    i: int,
    c0: SpecCtx,
    cond: AstS,
    k1: nat,
    c1: SpecCtx,
    body: AstS,
    k2: nat,
    c2: SpecCtx,
)
    requires
        p_consume(ts, i + 1, Symbol::LParen) is Ok,
        p_expr(ts, i + 2, c0) == Result::<(AstS, nat, SpecCtx), CompileError>::Ok(
            (cond, k1, c1),
        ),
        p_consume(ts, i + 2 + k1, Symbol::RParen) is Ok,
        p_stmt(ts, i + 3 + k1, c1) == Result::<(AstS, nat, SpecCtx), CompileError>::Ok(
            (body, k2, c2),
        ),
    ensures
        p_paren_head(ts, i, c0) == Result::<(AstS, AstS, nat, SpecCtx), CompileError>::Ok(
            (cond, body, (3 + k1 + k2) as nat, c2),
        ),
{
}

/// An optional expression closed by the symbol `term`.
#[verifier::rlimit(100)]
#[verifier::spinoff_prover]
fn parse_opt_expr_then<'a>(
    toks: &Vec<Token<'a>>,
    i: usize,
    ctx: &mut ParserContext,
    term: Symbol,
) -> (r: Result<(Option<Node>, usize), CompileError>)
    requires
        i <= toks@.len(),
        parse_room(toks_view(toks@), i as int, old(ctx)@),
    ensures
        match p_opt_expr_then(toks_view(toks@), i as int, old(ctx)@, term) {
            Result::Ok((on, k, c2)) => r matches Result::Ok(p) && ({
                &&& opt_node_matches(p.0, on)
                &&& p.1 == i + k
                &&& 1 <= k
                &&& i + k <= toks@.len()
                &&& final(ctx)@ == c2
                &&& old(ctx)@.names.is_prefix_of(c2.names)
                &&& c2.names.len() <= old(ctx)@.names.len() + k
                &&& (names_distinct(old(ctx)@.names) ==> names_distinct(c2.names))
                &&& c2.labels == old(ctx)@.labels
            }),
            Result::Err(e) => r matches Result::Err(e2) && e2 == e,
        },
    decreases toks@.len() - i, 17int,
{
    let ghost ts = toks_view(toks@);
    proof {
        if (i as int) < ts.len() {
            assert(ts[i as int] == toks@[i as int]@);
        }
    }
    if i < toks.len() && kind_is_symbol(&toks[i].value, term) {
        Result::Ok((None, i + 1))
    } else {
        match parse_expr(toks, i, ctx) {
            Result::Ok((n, j)) => match parse_consume(toks, j, term) {
                Result::Ok(j2) => Result::Ok((Some(n), j2)),
                Result::Err(e) => Result::Err(e),
            },
            Result::Err(e) => Result::Err(e),
        }
    }
}

/// Parses `( expr ) stmt` after the keyword at position `i`: the shared
/// head of `if` and `while`.
#[verifier::rlimit(100)]
#[verifier::spinoff_prover]
fn parse_paren_head<'a>(toks: &Vec<Token<'a>>, i: usize, ctx: &mut ParserContext) -> (r: Result<
    (Node, Node, usize),
    CompileError,
>)
    requires
        i < toks@.len(),
        toks@.len() <= usize::MAX,
        parse_room(toks_view(toks@), i as int, old(ctx)@),
    ensures
        match p_paren_head(toks_view(toks@), i as int, old(ctx)@) {
            Result::Ok((cond, body, k, c2)) => r matches Result::Ok(p) && ({
                &&& p.0@ == cond
                &&& p.1@ == body
                &&& p.2 == i + k
                &&& 3 <= k
                &&& i + k <= toks@.len()
                &&& final(ctx)@ == c2
                &&& old(ctx)@.names.is_prefix_of(c2.names)
                &&& c2.names.len() <= old(ctx)@.names.len() + k
                &&& old(ctx)@.labels <= c2.labels
                &&& c2.labels + 3 <= old(ctx)@.labels + k
                &&& (names_distinct(old(ctx)@.names) ==> names_distinct(c2.names))
                &&& labels_canonical(p.0)
                &&& labels_canonical(p.1)
                &&& def_seq(cond).len() == 0
            }),
            Result::Err(e) => r matches Result::Err(e2) && e2 == e,
        },
    decreases toks@.len() - i, 18int,
{
    let ghost ts = toks_view(toks@);
    let ghost c0 = old(ctx)@;
    let j1 = match parse_consume(toks, i + 1, Symbol::LParen) {
        Result::Ok(j) => j,
        Result::Err(e) => {
            return Result::Err(e);
        },
    };
    let (cond, j2) = match parse_expr(toks, j1, ctx) {
        Result::Ok(p) => p,
        Result::Err(e) => {
            return Result::Err(e);
        },
    };
    let j3 = match parse_consume(toks, j2, Symbol::RParen) {
        Result::Ok(j) => j,
        Result::Err(e) => {
            return Result::Err(e);
        },
    };
    let ghost c1 = ctx@;
    let (body, j4) = match parse_stmt(toks, j3, ctx) {
        Result::Ok(p) => p,
        Result::Err(e) => {
            return Result::Err(e);
        },
    };
    proof {
        lemma_prefix_trans(c0.names, c1.names, ctx@.names);
        let se = p_expr(ts, i as int + 2, c0)->Ok_0;
        let sb = p_stmt(ts, i as int + 3 + se.1, c1)->Ok_0;
        lemma_head_ok(ts, i as int, c0, se.0, se.1, c1, sb.0, sb.1, ctx@);
        assert(cond@ == se.0 && body@ == sb.0);
        assert(j4 as int == i + 3 + se.1 + sb.1);
    }
    Result::Ok((cond, body, j4))
}

/// Closes an `if` whose head ended at `j4` with no `else` branch there.
#[verifier::rlimit(100)]
#[verifier::spinoff_prover]
fn parse_if_plain<'a>(
    toks: &Vec<Token<'a>>,
    i: usize,
    j4: usize,
    cond: Node,
    then: Node,
    ctx: &mut ParserContext,
    Ghost(c0): Ghost<SpecCtx>,
) -> (r: Result<(Node, usize), CompileError>)
    requires
        i <= j4 <= toks@.len(),
        toks@.len() <= usize::MAX,
        parse_room(toks_view(toks@), j4 as int, old(ctx)@),
        p_paren_head(toks_view(toks@), i as int, c0) == Result::<
            (AstS, AstS, nat, SpecCtx),
            CompileError,
        >::Ok((cond@, then@, (j4 - i) as nat, old(ctx)@)),
        !((j4 as int) < toks_view(toks@).len() && toks_view(toks@)[j4 as int].kind
            == SpecTokenKind::Sym(Symbol::Else)),
        labels_canonical(cond),
        labels_canonical(then),
        c0.names.is_prefix_of(old(ctx)@.names),
        old(ctx)@.names.len() <= c0.names.len() + (j4 - i),
        c0.labels <= old(ctx)@.labels,
        old(ctx)@.labels + 3 <= c0.labels + (j4 - i),
        names_distinct(c0.names) ==> names_distinct(old(ctx)@.names),
    ensures
        step_ok(
            toks_view(toks@),
            i as int,
            c0,
            p_stmt_if(toks_view(toks@), i as int, c0),
            r,
            final(ctx)@,
        ),
{
    let ghost ts = toks_view(toks@);
    let ghost c2 = old(ctx)@;
    let label = ctx.new_label();
    let node = Node::if_(label, cond, then, None);
    proof {
        lemma_lbl_roundtrip(c2.labels);
        lemma_if_plain(ts, i as int, c0, cond@, then@, (j4 - i) as nat, c2);
        let sn = AstS::If {
            label: c2.labels,
            cond: Box::new(cond@),
            then: Box::new(then@),
            else_: None,
        };
        let sc = SpecCtx { names: c2.names, labels: (c2.labels + 1) as nat };
        assert(node@ == sn);
        assert(ctx@ == sc);
        assert(labels_canonical(node));
    }
    Result::Ok((node, j4))
}

/// Closes an `if` whose head ended at `j4` with an `else` branch standing
/// there.
#[verifier::rlimit(100)]
#[verifier::spinoff_prover]
fn parse_if_else<'a>(
    toks: &Vec<Token<'a>>,
    i: usize,
    j4: usize,
    cond: Node,
    then: Node,
    ctx: &mut ParserContext,
    Ghost(c0): Ghost<SpecCtx>,
) -> (r: Result<(Node, usize), CompileError>)
    requires
        i <= j4 < toks@.len(),
        toks@.len() <= usize::MAX,
        parse_room(toks_view(toks@), j4 as int, old(ctx)@),
        p_paren_head(toks_view(toks@), i as int, c0) == Result::<
            (AstS, AstS, nat, SpecCtx),
            CompileError,
        >::Ok((cond@, then@, (j4 - i) as nat, old(ctx)@)),
        toks_view(toks@)[j4 as int].kind == SpecTokenKind::Sym(Symbol::Else),
        labels_canonical(cond),
        labels_canonical(then),
        c0.names.is_prefix_of(old(ctx)@.names),
        old(ctx)@.names.len() <= c0.names.len() + (j4 - i),
        c0.labels <= old(ctx)@.labels,
        old(ctx)@.labels + 3 <= c0.labels + (j4 - i),
        names_distinct(c0.names) ==> names_distinct(old(ctx)@.names),
    ensures
        step_ok(
            toks_view(toks@),
            i as int,
            c0,
            p_stmt_if(toks_view(toks@), i as int, c0),
            r,
            final(ctx)@,
        ),
    decreases toks@.len() - j4, 18int,
{
    let ghost ts = toks_view(toks@);
    let ghost c2 = old(ctx)@;
    let (els, j5) = match parse_stmt(toks, j4 + 1, ctx) {
        Result::Ok(p) => p,
        Result::Err(e) => {
            return Result::Err(e);
        },
    };
    let ghost c3 = ctx@;
    let label = ctx.new_label();
    let node = Node::if_(label, cond, then, Some(els));
    proof {
        lemma_lbl_roundtrip(c3.labels);
        lemma_prefix_trans(c0.names, c2.names, c3.names);
        lemma_if_else(
            ts,
            i as int,
            c0,
            cond@,
            then@,
            (j4 - i) as nat,
            c2,
            els@,
            (j5 - (j4 + 1)) as nat,
            c3,
        );
        let sn = AstS::If {
            label: c3.labels,
            cond: Box::new(cond@),
            then: Box::new(then@),
            else_: Some(Box::new(els@)),
        };
        let sc = SpecCtx { names: c3.names, labels: (c3.labels + 1) as nat };
        assert(node@ == sn);
        assert(ctx@ == sc);
        assert(labels_canonical(node));
    }
    Result::Ok((node, j5))
}

/// Parses the statement form that begins with `if` at position `i`.
#[verifier::rlimit(100)]
#[verifier::spinoff_prover]
fn parse_stmt_if<'a>(toks: &Vec<Token<'a>>, i: usize, ctx: &mut ParserContext) -> (r: Result<
    (Node, usize),
    CompileError,
>)
    requires
        i < toks@.len(),
        toks@.len() <= usize::MAX,
        parse_room(toks_view(toks@), i as int, old(ctx)@),
    ensures
        step_ok(
            toks_view(toks@),
            i as int,
            old(ctx)@,
            p_stmt_if(toks_view(toks@), i as int, old(ctx)@),
            r,
            final(ctx)@,
        ),
    decreases toks@.len() - i, 19int,
{
    let ghost ts = toks_view(toks@);
    let ghost c0 = old(ctx)@;
    let (cond, then, j4) = match parse_paren_head(toks, i, ctx) {
        Result::Ok(p) => p,
        Result::Err(e) => {
            return Result::Err(e);
        },
    };
    proof {
        if (j4 as int) < ts.len() {
            assert(ts[j4 as int] == toks@[j4 as int]@);
        }
    }
    if j4 < toks.len() && kind_is_symbol(&toks[j4].value, Symbol::Else) {
        parse_if_else(toks, i, j4, cond, then, ctx, Ghost(c0))
    } else {
        parse_if_plain(toks, i, j4, cond, then, ctx, Ghost(c0))
    }
}

/// Parses the statement form that begins with `while` at position `i`.
#[verifier::rlimit(100)]
#[verifier::spinoff_prover]
fn parse_stmt_while<'a>(toks: &Vec<Token<'a>>, i: usize, ctx: &mut ParserContext) -> (r: Result<
    (Node, usize),
    CompileError,
>)
    requires
        i < toks@.len(),
        toks@.len() <= usize::MAX,
        parse_room(toks_view(toks@), i as int, old(ctx)@),
    ensures
        step_ok(
            toks_view(toks@),
            i as int,
            old(ctx)@,
            p_stmt_while(toks_view(toks@), i as int, old(ctx)@),
            r,
            final(ctx)@,
        ),
    decreases toks@.len() - i, 19int,
{
    let ghost ts = toks_view(toks@);
    let ghost c0 = old(ctx)@;
    let (cond, body, j4) = match parse_paren_head(toks, i, ctx) {
        Result::Ok(p) => p,
        Result::Err(e) => {
            return Result::Err(e);
        },
    };
    let ghost c2 = ctx@;
    let start_label = ctx.new_label();
    let end_label = ctx.new_label();
    let node = Node::while_(start_label, end_label, cond, body);
    proof {
        lemma_lbl_roundtrip(c2.labels);
        lemma_lbl_roundtrip((c2.labels + 1) as nat);
        lemma_while_ok(ts, i as int, c0, cond@, body@, (j4 - i) as nat, c2);
        let sn = AstS::While {
            start_label: c2.labels,
            end_label: (c2.labels + 1) as nat,
            cond: Box::new(cond@),
            then: Box::new(body@),
        };
        let sc = SpecCtx { names: c2.names, labels: (c2.labels + 2) as nat };
        assert(node@ == sn);
        assert(ctx@ == sc);
        assert(labels_canonical(node));
    }
    Result::Ok((node, j4))
}

/// Parses `( expr? ; expr? ; expr? )` after the `for` at position `i`.
#[verifier::rlimit(100)]
#[verifier::spinoff_prover]
fn parse_for_head<'a>(toks: &Vec<Token<'a>>, i: usize, ctx: &mut ParserContext) -> (r: Result<
    (Option<Node>, Option<Node>, Option<Node>, usize),
    CompileError,
>)
    requires
        i < toks@.len(),
        toks@.len() <= usize::MAX,
        parse_room(toks_view(toks@), i as int, old(ctx)@),
    ensures
        match p_for_head(toks_view(toks@), i as int, old(ctx)@) {
            Result::Ok(((init, cond, update), k, c3)) => r matches Result::Ok(p) && ({
                &&& opt_node_matches(p.0, init)
                &&& opt_node_matches(p.1, cond)
                &&& opt_node_matches(p.2, update)
                &&& p.3 == i + k
                &&& 2 <= k
                &&& i + k <= toks@.len()
                &&& final(ctx)@ == c3
                &&& old(ctx)@.names.is_prefix_of(c3.names)
                &&& c3.names.len() <= old(ctx)@.names.len() + k
                &&& c3.labels == old(ctx)@.labels
                &&& (names_distinct(old(ctx)@.names) ==> names_distinct(c3.names))
            }),
            Result::Err(e) => r matches Result::Err(e2) && e2 == e,
        },
    decreases toks@.len() - i, 18int,
{
    let ghost ts = toks_view(toks@);
    let ghost c0 = old(ctx)@;
    let j1 = match parse_consume(toks, i + 1, Symbol::LParen) {
        Result::Ok(j) => j,
        Result::Err(e) => {
            return Result::Err(e);
        },
    };
    let (init, j2) = match parse_opt_expr_then(toks, j1, ctx, Symbol::SemiColon) {
        Result::Ok(p) => p,
        Result::Err(e) => {
            return Result::Err(e);
        },
    };
    let ghost c1 = ctx@;
    let (cond, j3) = match parse_opt_expr_then(toks, j2, ctx, Symbol::SemiColon) {
        Result::Ok(p) => p,
        Result::Err(e) => {
            return Result::Err(e);
        },
    };
    let ghost cmid = ctx@;
    let (update, j4) = match parse_opt_expr_then(toks, j3, ctx, Symbol::RParen) {
        Result::Ok(p) => p,
        Result::Err(e) => {
            return Result::Err(e);
        },
    };
    proof {
        lemma_prefix_trans(c0.names, c1.names, cmid.names);
        lemma_prefix_trans(c0.names, cmid.names, ctx@.names);
    }
    Result::Ok((init, cond, update, j4))
}

/// Parses the statement form that begins with `for` at position `i`.
#[verifier::rlimit(100)]
#[verifier::spinoff_prover]
fn parse_stmt_for<'a>(toks: &Vec<Token<'a>>, i: usize, ctx: &mut ParserContext) -> (r: Result<
    (Node, usize),
    CompileError,
>)
    requires
        i < toks@.len(),
        toks@.len() <= usize::MAX,
        parse_room(toks_view(toks@), i as int, old(ctx)@),
    ensures
        step_ok(
            toks_view(toks@),
            i as int,
            old(ctx)@,
            p_stmt_for(toks_view(toks@), i as int, old(ctx)@),
            r,
            final(ctx)@,
        ),
    decreases toks@.len() - i, 19int,
{
    let ghost ts = toks_view(toks@);
    let ghost c0 = old(ctx)@;
    let (init, cond, update, j4) = match parse_for_head(toks, i, ctx) {
        Result::Ok(p) => p,
        Result::Err(e) => {
            return Result::Err(e);
        },
    };
    let ghost c3 = ctx@;
    let (body, j5) = match parse_stmt(toks, j4, ctx) {
        Result::Ok(p) => p,
        Result::Err(e) => {
            return Result::Err(e);
        },
    };
    let ghost c4 = ctx@;
    let start_label = ctx.new_label();
    let end_label = ctx.new_label();
    let node = Node::for_(start_label, end_label, init, cond, update, body);
    proof {
        lemma_lbl_roundtrip(c4.labels);
        lemma_lbl_roundtrip((c4.labels + 1) as nat);
        lemma_prefix_trans(c0.names, c3.names, c4.names);
        let hr = p_for_head(ts, i as int, c0)->Ok_0;
        lemma_for_ok(
            ts,
            i as int,
            c0,
            hr.0.0,
            hr.0.1,
            hr.0.2,
            (j4 - i) as nat,
            c3,
            body@,
            (j5 - j4) as nat,
            c4,
        );
        let sn = AstS::For {
            start_label: c4.labels,
            end_label: (c4.labels + 1) as nat,
            init: hr.0.0,
            cond: hr.0.1,
            update: hr.0.2,
            then: Box::new(body@),
        };
        let sc = SpecCtx { names: c4.names, labels: (c4.labels + 2) as nat };
        assert(node@ == sn);
        assert(ctx@ == sc);
        assert(labels_canonical(node));
    }
    Result::Ok((node, j5))
}

/// One statement.
#[verifier::rlimit(100)]
#[verifier::spinoff_prover]
fn parse_stmt<'a>(toks: &Vec<Token<'a>>, i: usize, ctx: &mut ParserContext) -> (r: Result<
    (Node, usize),
    CompileError,
>)
    requires
        i <= toks@.len(),
        parse_room(toks_view(toks@), i as int, old(ctx)@),
    ensures
        step_ok(
            toks_view(toks@),
            i as int,
            old(ctx)@,
            p_stmt(toks_view(toks@), i as int, old(ctx)@),
            r,
            final(ctx)@,
        ),
    decreases toks@.len() - i, 20int,
{
    let ghost ts = toks_view(toks@);
    proof {
        assert(forall|k: int| 0 <= k < toks@.len() ==> ts[k] == #[trigger] toks@[k]@);
    }
    if i < toks.len() && kind_is_symbol(&toks[i].value, Symbol::Ret) {
        parse_stmt_ret(toks, i, ctx)
    } else if i < toks.len() && kind_is_symbol(&toks[i].value, Symbol::If) {
        parse_stmt_if(toks, i, ctx)
    } else if i < toks.len() && kind_is_symbol(&toks[i].value, Symbol::While) {
        parse_stmt_while(toks, i, ctx)
    } else if i < toks.len() && kind_is_symbol(&toks[i].value, Symbol::For) {
        parse_stmt_for(toks, i, ctx)
    } else {
        parse_stmt_expr(toks, i, ctx)
    }
}

/// The invariant of the program loop: however parsing continues from
/// position `i` in context `c`, prepending the statements already parsed
/// gives the outcome of parsing from the start.
spec fn program_continues(
    ts: Seq<SpecToken>,
    i: int,
    c: SpecCtx,
    done: Seq<AstS>,
    start: SpecCtx,
) -> bool {
    match p_program(ts, i, c) {
        Result::Ok((ns, c2)) => p_program(ts, 0, start) == Result::<
            (Seq<AstS>, SpecCtx),
            CompileError,
        >::Ok((done + ns, c2)),
        Result::Err(e) => p_program(ts, 0, start) == Result::<
            (Seq<AstS>, SpecCtx),
            CompileError,
        >::Err(e),
    }
}

/// One step of the program loop.
proof fn lemma_program_step(
    ts: Seq<SpecToken>,
    i: int,
    c: SpecCtx,
    done: Seq<AstS>,
    start: SpecCtx,
    n: AstS,
    k: nat,
    c2: SpecCtx,
)
    requires
        program_continues(ts, i, c, done, start),
        0 <= i < ts.len(),
        p_stmt(ts, i, c) == Result::<(AstS, nat, SpecCtx), CompileError>::Ok((n, k, c2)),
        1 <= k,
    ensures
        program_continues(ts, i + k, c2, done.push(n), start),
{
    match p_program(ts, i + k, c2) {
        Result::Ok((ns, c3)) => {
            assert(p_program(ts, i, c) == Result::<(Seq<AstS>, SpecCtx), CompileError>::Ok(
                (seq![n] + ns, c3),
            ));
            assert(done + (seq![n] + ns) =~= done.push(n) + ns);
        },
        Result::Err(_) => {},
    }
}

/// `program = stmt*`: parses statements until the tokens run out.
#[verifier::rlimit(100)]
#[verifier::spinoff_prover]
#[verifier::loop_isolation(false)]
fn parse_program<'a>(toks: &Vec<Token<'a>>, ctx: &mut ParserContext) -> (r: Result<
    Vec<Node>,
    CompileError,
>)
    requires
        parse_room(toks_view(toks@), 0, old(ctx)@),
        old(ctx)@.names.len() == 0,
        old(ctx)@.labels == 0,
    ensures
        match p_program(toks_view(toks@), 0, old(ctx)@) {
            Result::Ok((ns, c2)) => {
                &&& r matches Result::Ok(v)
                &&& (r matches Result::Ok(v) ==> {
                    &&& v@.map_values(|n: Node| n@) == ns
                    &&& final(ctx)@ == c2
                    &&& forall|q: int| 0 <= q < v@.len() ==> labels_canonical(#[trigger] v@[q])
                    &&& names_distinct(c2.names)
                })
            },
            Result::Err(e) => r matches Result::Err(e2) && e2 == e,
        },
        r is Ok ==> parse_room(toks_view(toks@), toks@.len() as int, final(ctx)@),
{
    let ghost ts = toks_view(toks@);
    let ghost c0 = old(ctx)@;
    let n = toks.len();
    let mut nodes: Vec<Node> = Vec::new();
    let mut i: usize = 0;
    proof {
        assert(nodes@.map_values(|nd: Node| nd@) =~= Seq::<AstS>::empty());
        match p_program(ts, 0, c0) {
            Result::Ok((ns, _)) => {
                assert(Seq::<AstS>::empty() + ns =~= ns);
            },
            Result::Err(_) => {},
        }
    }
    while i < n
        invariant
            n == toks@.len(),
            ts == toks_view(toks@),
            0 <= i <= n,
            parse_room(ts, i as int, ctx@),
            program_continues(ts, i as int, ctx@, nodes@.map_values(|nd: Node| nd@), c0),
            forall|q: int| 0 <= q < nodes@.len() ==> labels_canonical(#[trigger] nodes@[q]),
            names_distinct(ctx@.names),
            c0.names.is_prefix_of(ctx@.names),
        decreases n - i,
    {
        let ghost done = nodes@.map_values(|nd: Node| nd@);
        let ghost cnow = ctx@;
        match parse_stmt(toks, i, ctx) {
            Result::Ok((node, j)) => {
                proof {
                    let sr = p_stmt(ts, i as int, cnow);
                    let (sn, sk, sc) = sr->Ok_0;
                    lemma_program_step(ts, i as int, cnow, done, c0, sn, sk, sc);
                    assert(nodes@.push(node).map_values(|nd: Node| nd@) =~= done.push(node@));
                    lemma_prefix_trans(c0.names, cnow.names, sc.names);
                }
                proof {
                    assert(parse_room(ts, j as int, ctx@));
                }
                nodes.push(node);
                i = j;
            },
            Result::Err(e) => {
                return Result::Err(e);
            },
        }
    }
    proof {
        assert(p_program(ts, n as int, ctx@) == Result::<(Seq<AstS>, SpecCtx), CompileError>::Ok(
            (Seq::<AstS>::empty(), ctx@),
        ));
        let done = nodes@.map_values(|nd: Node| nd@);
        assert(done + Seq::<AstS>::empty() =~= done);
    }
    Result::Ok(nodes)
}

/// Parses a token sequence into the program's statements and the stack
/// frame size its local variables need: eight bytes per distinct
/// identifier, in first-appearance order.
#[verifier::rlimit(100)]
#[verifier::spinoff_prover]
pub fn parse(tokens: Tokens<'_>) -> (r: Result<ParseResult, CompileError>)
    requires
        8 * tokens@.len() + 24 <= usize::MAX,
    ensures
        match p_parse(tokens@) {
            Result::Ok((ns, c)) => {
                &&& r matches Result::Ok(pr)
                &&& (r matches Result::Ok(pr) ==> {
                    &&& pr.nodes@.map_values(|n: Node| n@) == ns
                    &&& pr.stack_size == 8 * c.names.len()
                    &&& forall|q: int|
                        0 <= q < pr.nodes@.len() ==> labels_canonical(#[trigger] pr.nodes@[q])
                })
            },
            Result::Err(e) => r matches Result::Err(e2) && e2 == e,
        },
{
    let toks = tokens.into_vec();
    let mut ctx = ParserContext::new();
    proof {
        assert(toks_view(toks@) == tokens@);
        assert(ctx@ == (SpecCtx { names: Seq::<Seq<char>>::empty(), labels: 0nat }));
        assert(p_parse(tokens@) == p_program(toks_view(toks@), 0, ctx@));
    }
    match parse_program(&toks, &mut ctx) {
        Result::Ok(nodes) => {
            let stack_size = ctx.locals.len() * 8;
            proof {
                assert(ctx@.names.len() == ctx.locals@.len());
            }
            Result::Ok(ParseResult { nodes, stack_size })
        },
        Result::Err(e) => Result::Err(e),
    }
}

} // verus!
