use vstd::prelude::*;

use crate::convenience::blank_break;
use crate::engine::{sat32, text_extends, Engine};
use crate::token::{balanced, instrs_of, open_groups, BeginToken, Break, BreakToken, Instr, Token};

verus! {

/// Binary operators of the printed language, a closed vocabulary: an
/// operator outside it cannot be represented, so the "unrecognized operator"
/// defect of the terminator classification is unreachable by construction.
#[derive(Clone, Copy, Debug)]
pub enum BinOp {
    Add,
    Sub,
    Mul,
    Div,
    Rem,
    And,
    Or,
    BitXor,
    BitAnd,
    BitOr,
    Shl,
    Shr,
    Eq,
    Lt,
    Le,
    Ne,
    Ge,
    Gt,
    AddAssign,
    SubAssign,
    MulAssign,
    DivAssign,
    RemAssign,
    BitXorAssign,
    BitAndAssign,
    BitOrAssign,
    ShlAssign,
    ShrAssign,
}

/// The shape of an expression, as far as statement emission needs it: the
/// variant, the operator of a binary expression, the inner shape of a
/// parenthesis-less group, the final else arm of an `if` chain, and whether
/// a verbatim expression is empty.
#[derive(Debug)]
pub enum ExprKind {
    Array,
    Assign,
    Async,
    Await,
    Binary(BinOp),
    Block,
    Break,
    Call,
    Cast,
    Closure,
    Const,
    Continue,
    Field,
    ForLoop,
    Group(Box<ExprKind>),
    If(Option<Box<ExprKind>>),
    Index,
    Infer,
    Let,
    Lit,
    Loop,
    Macro,
    Match,
    MethodCall,
    Paren,
    Path,
    Range,
    Reference,
    Repeat,
    Return,
    Struct,
    Try,
    TryBlock,
    Tuple,
    Unary,
    Unsafe,
    Verbatim(bool),
    While,
    Yield,
}

/// An expression handed to the statement emitter: its shape for the
/// classification rules, its rendering as layout instructions (produced by
/// the tree-to-token translation, which is outside this engine), and whether
/// a developer comment trails it.
#[derive(Debug)]
pub struct Expr {
    pub kind: ExprKind,
    pub tokens: Vec<Token>,
    pub has_trailing_comment: bool,
}

/// The initializer of a binding statement, with its optional diverge
/// (else-branch) expression.
#[derive(Debug)]
pub struct LocalInit {
    pub expr: Expr,
    pub diverge: Option<Expr>,
}

/// A statement, as far as the emitter needs it. Pattern, attribute, comment,
/// item and macro renderings arrive as layout-instruction lists from the
/// out-of-scope translation layer. A macro rendering carries no statement
/// terminator: a macro statement is always terminated, and the emitter
/// appends the terminator itself.
#[derive(Debug)]
pub enum Stmt {
    Local { attrs: Vec<Token>, pat: Vec<Token>, init: Option<LocalInit>, comment: Vec<Token> },
    Item(Vec<Token>),
    Expr(Expr, bool),
    Macro { attrs: Vec<Token>, mac: Vec<Token> },
}

/// Whether a compound-assignment operator ends a bare expression statement
/// with a terminator.
pub open spec fn op_needs_terminator(op: BinOp) -> bool {
    match op {
        BinOp::AddAssign => true,
        BinOp::SubAssign => true,
        BinOp::MulAssign => true,
        BinOp::DivAssign => true,
        BinOp::RemAssign => true,
        BinOp::BitXorAssign => true,
        BinOp::BitAndAssign => true,
        BinOp::BitOrAssign => true,
        BinOp::ShlAssign => true,
        BinOp::ShrAssign => true,
        _ => false,
    }
}

/// The terminator-insertion rule for a bare expression statement: true for
/// assignments, jumps out of a block (break, continue, return, yield) and
/// compound assignments; false for plain operators and every other kind.
pub open spec fn needs_terminator(k: ExprKind) -> bool
    decreases k,
{
    match k {
        ExprKind::Assign => true,
        ExprKind::Break => true,
        ExprKind::Continue => true,
        ExprKind::Return => true,
        ExprKind::Yield => true,
        ExprKind::Binary(op) => op_needs_terminator(op),
        ExprKind::Group(inner) => needs_terminator(*inner),
        _ => false,
    }
}

/// The terminator-removal rule: a terminator after a `for` or `while` loop,
/// or after an `if` whose final else arm is itself block-terminated, is
/// syntactically redundant and omitted. An `if` whose final else arm is a
/// plain block is deliberately not in the enumeration, so its terminator is
/// kept: the enumerated cases are authoritative and the wildcard is only a
/// safety net, so nothing falls through to removal silently.
pub open spec fn terminator_redundant(k: ExprKind) -> bool
    decreases k,
{
    match k {
        ExprKind::ForLoop => true,
        ExprKind::While => true,
        ExprKind::Group(inner) => terminator_redundant(*inner),
        ExprKind::If(else_branch) => match else_branch {
            Some(e) => terminator_redundant(*e),
            None => true,
        },
        _ => false,
    }
}

/// Whether a bare expression statement is followed by a forced break: only
/// an empty verbatim pass-through produces none.
pub open spec fn breaks_after(k: ExprKind) -> bool {
    match k {
        ExprKind::Group(inner) => match *inner {
            ExprKind::Verbatim(is_empty) => !is_empty,
            _ => true,
        },
        _ => true,
    }
}

/// The trailing-comment exception: for calls, method calls and assignments
/// the terminator was already emitted with the expression so that the
/// comment can follow it. The emitter suppresses its own terminator when
/// this exception applies or when the terminator is redundant, each reason
/// on its own: either one makes a second terminator wrong.
pub open spec fn semi_moved_for_comment(e: Expr) -> bool {
    match e.kind {
        ExprKind::MethodCall => e.has_trailing_comment,
        ExprKind::Call => e.has_trailing_comment,
        ExprKind::Assign => e.has_trailing_comment,
        _ => false,
    }
}

fn add_semi_kind(k: &ExprKind) -> (r: bool)
    ensures
        r == needs_terminator(*k),
    decreases *k,
{
    match k {
        ExprKind::Assign => true,
        ExprKind::Break => true,
        ExprKind::Continue => true,
        ExprKind::Return => true,
        ExprKind::Yield => true,
        ExprKind::Binary(op) => match op {
            BinOp::AddAssign => true,
            BinOp::SubAssign => true,
            BinOp::MulAssign => true,
            BinOp::DivAssign => true,
            BinOp::RemAssign => true,
            BinOp::BitXorAssign => true,
            BinOp::BitAndAssign => true,
            BinOp::BitOrAssign => true,
            BinOp::ShlAssign => true,
            BinOp::ShrAssign => true,
            _ => false,
        },
        ExprKind::Group(inner) => add_semi_kind(inner),
        _ => false,
    }
}

/// The terminator-insertion classification of a bare expression statement.
pub fn add_semi(expr: &Expr) -> (r: bool)
    ensures
        r == needs_terminator(expr.kind),
{
    add_semi_kind(&expr.kind)
}

fn remove_semi_kind(k: &ExprKind) -> (r: bool)
    ensures
        r == terminator_redundant(*k),
    decreases *k,
{
    match k {
        ExprKind::ForLoop => true,
        ExprKind::While => true,
        ExprKind::Group(inner) => remove_semi_kind(inner),
        ExprKind::If(else_branch) => match else_branch {
            Some(e) => remove_semi_kind(e),
            None => true,
        },
        _ => false,
    }
}

fn remove_semi(expr: &Expr) -> (r: bool)
    ensures
        r == terminator_redundant(expr.kind),
{
    remove_semi_kind(&expr.kind)
}

/// Whether a bare expression statement is followed by a forced break.
pub fn break_after(expr: &Expr) -> (r: bool)
    ensures
        r == breaks_after(expr.kind),
{
    if let ExprKind::Group(inner) = &expr.kind {
        if let ExprKind::Verbatim(is_empty) = &**inner {
            return !*is_empty;
        }
    }
    true
}

impl Expr {
    pub open spec fn wf(&self) -> bool {
        balanced(instrs_of(self.tokens@))
    }
}

impl LocalInit {
    pub open spec fn wf(&self) -> bool {
        &&& self.expr.wf()
        &&& match self.diverge {
            Some(d) => d.wf(),
            None => true,
        }
    }
}

impl Stmt {
    pub open spec fn wf(&self) -> bool {
        match self {
            Stmt::Local { attrs, pat, init, comment } => {
                &&& balanced(instrs_of(attrs@))
                &&& balanced(instrs_of(pat@))
                &&& match init {
                    Some(ini) => ini.wf(),
                    None => true,
                }
                &&& balanced(instrs_of(comment@))
            },
            Stmt::Item(toks) => balanced(instrs_of(toks@)),
            Stmt::Expr(e, _) => e.wf(),
            Stmt::Macro { attrs, mac } => balanced(instrs_of(attrs@)) && balanced(
                instrs_of(mac@),
            ),
        }
    }
}

pub open spec fn sp() -> Instr {
    Instr::Break(blank_break(1))
}

pub open spec fn hard() -> Instr {
    Instr::Break(blank_break(0xffff))
}

pub open spec fn never() -> Instr {
    Instr::Break(BreakToken { never_break: true, ..blank_break(0) })
}

pub open spec fn ibox_instr(off: int) -> Instr {
    Instr::Begin(BeginToken { offset: off as i32, breaks: Break::Inconsistent })
}

pub open spec fn cbox_instr(off: int) -> Instr {
    Instr::Begin(BeginToken { offset: off as i32, breaks: Break::Consistent })
}

/// The statement terminator, the trailing comment and the forced line break
/// that close a binding statement.
pub open spec fn local_tail(s: Seq<Instr>, comment: Seq<Token>) -> Seq<Instr> {
    (s.push(Instr::Text(";"@)) + instrs_of(comment)).push(hard())
}

/// The exact instruction sequence a statement appends to a session whose
/// scanned input is `base`, with indentation unit `iu`.
pub open spec fn stmt_app(base: Seq<Instr>, st: Stmt, iu: int) -> Seq<Instr> {
    match st {
        Stmt::Local { attrs, pat, init, comment } => {
            let s1 = ((base + instrs_of(attrs@)).push(ibox_instr(0)).push(Instr::Text("let "@))
                + instrs_of(pat@));
            match init {
                Some(ini) => {
                    let s2 = (s1.push(Instr::Text(" = "@)).push(never()) + instrs_of(
                        ini.expr.tokens@,
                    ));
                    match ini.diverge {
                        Some(d) => {
                            let s3 = s2.push(sp()).push(Instr::Text("else "@)).push(
                                Instr::End,
                            ).push(never());
                            if d.kind is Block {
                                local_tail(
                                    (s3.push(cbox_instr(iu)) + instrs_of(d.tokens@)).push(
                                        Instr::End,
                                    ),
                                    comment@,
                                )
                            } else {
                                let t = (s3.push(Instr::Text("{"@)).push(sp()).push(
                                    ibox_instr(iu),
                                ) + instrs_of(d.tokens@)).push(Instr::End).push(sp());
                                let t2 = t.update(
                                    t.len() - 1,
                                    Instr::Break(
                                        BreakToken {
                                            offset: sat32(0 - iu) as i32,
                                            ..blank_break(1)
                                        },
                                    ),
                                );
                                local_tail(t2.push(Instr::Text("}"@)), comment@)
                            }
                        },
                        None => local_tail(s2.push(Instr::End), comment@),
                    }
                },
                None => local_tail(s1.push(Instr::End), comment@),
            }
        },
        Stmt::Item(toks) => base + instrs_of(toks@),
        Stmt::Expr(e, false) => {
            if breaks_after(e.kind) {
                let s1 = (base.push(ibox_instr(0)) + instrs_of(e.tokens@));
                let s2 = if needs_terminator(e.kind) {
                    s1.push(Instr::Text(";"@))
                } else {
                    s1
                };
                s2.push(Instr::End).push(hard())
            } else {
                base + instrs_of(e.tokens@)
            }
        },
        Stmt::Expr(e, true) => {
            if e.kind matches ExprKind::Verbatim(is_empty) && is_empty {
                base
            } else {
                let s1 = (base.push(ibox_instr(0)) + instrs_of(e.tokens@));
                let s2 = if !semi_moved_for_comment(e) && !terminator_redundant(e.kind) {
                    s1.push(Instr::Text(";"@))
                } else {
                    s1
                };
                s2.push(Instr::End).push(hard())
            }
        },
        Stmt::Macro { attrs, mac } => ((base + instrs_of(attrs@)) + instrs_of(mac@)).push(
            Instr::Text(";"@),
        ).push(hard()),
    }
}

impl Engine {
    /// Emit one statement: its attributes and rendered parts, the group
    /// structure around them, and the terminator and line break that the
    /// classification rules prescribe.
    pub fn stmt(&mut self, st: &Stmt)
        requires
            old(self).wf(),
            st.wf(),
            open_groups(old(self)@) >= 0,
        ensures
            final(self).wf(),
            final(self)@ == stmt_app(old(self)@, *st, old(self).indent_unit()),
            open_groups(final(self)@) == open_groups(old(self)@),
            final(self).indent_unit() == old(self).indent_unit(),
            final(self).margin() == old(self).margin(),
            text_extends(old(self).out_view(), final(self).out_view()),
            (st matches Stmt::Expr(e, true) && e.kind matches ExprKind::Verbatim(true))
                ==> *final(self) == *old(self),
    {
        proof {
            self.lemma_wf_indent_unit();
        }
        match st {
            Stmt::Local { attrs, pat, init, comment } => {
                self.play(attrs);
                self.ibox(0);
                self.word("let ");
                self.play(pat);
                if let Some(ini) = init {
                    self.word(" = ");
                    self.neverbreak();
                    self.play(&ini.expr.tokens);
                    if let Some(d) = &ini.diverge {
                        self.space();
                        self.word("else ");
                        self.end();
                        self.neverbreak();
                        let is_block = match &d.kind {
                            ExprKind::Block => true,
                            _ => false,
                        };
                        if is_block {
                            let iu = self.get_indent_unit();
                            self.cbox(iu);
                            self.play(&d.tokens);
                            self.end();
                        } else {
                            self.word("{");
                            self.space();
                            let iu = self.get_indent_unit();
                            self.ibox(iu);
                            self.play(&d.tokens);
                            self.end();
                            self.space();
                            let delta = 0i32 - self.get_indent_unit();
                            self.update_break_offset(delta);
                            self.word("}");
                        }
                    } else {
                        self.end();
                    }
                } else {
                    self.end();
                }
                self.word(";");
                self.play(comment);
                self.hardbreak();
            },
            Stmt::Item(toks) => {
                self.play(toks);
            },
            Stmt::Expr(expr, false) => {
                if break_after(expr) {
                    self.ibox(0);
                    self.play(&expr.tokens);
                    if add_semi(expr) {
                        self.word(";");
                    }
                    self.end();
                    self.hardbreak();
                } else {
                    self.play(&expr.tokens);
                }
            },
            Stmt::Expr(expr, true) => {
                let mut skip = false;
                if let ExprKind::Verbatim(is_empty) = &expr.kind {
                    if *is_empty {
                        skip = true;
                    }
                }
                if !skip {
                    self.ibox(0);
                    self.play(&expr.tokens);
                    let comment_holds_semi: bool = match &expr.kind {
                        ExprKind::MethodCall => expr.has_trailing_comment,
                        ExprKind::Call => expr.has_trailing_comment,
                        ExprKind::Assign => expr.has_trailing_comment,
                        _ => false,
                    };
                    if !comment_holds_semi && !remove_semi(expr) {
                        self.word(";");
                    }
                    self.end();
                    self.hardbreak();
                }
            },
            Stmt::Macro { attrs, mac } => {
                self.play(attrs);
                self.play(mac);
                self.word(";");
                self.hardbreak();
            },
        }
    }
}

} // verus!
