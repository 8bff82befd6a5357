use vstd::prelude::*;

verus! {

/// Sentinel size meaning "infinite width": a span of this size never fits on a
/// line, so a break carrying it is always taken and a group containing it is
/// always rendered broken.
pub const SIZE_INFINITY: i64 = 0xffff;

/// How the break points directly inside a group are decided once the group's
/// total width is known: all together, or each one on its own.
#[derive(Clone, Copy, PartialEq, Eq, Structural, Debug)]
pub enum Break {
    Consistent,
    Inconsistent,
}

/// Opens a group. `offset` is the extra indentation (in columns) that lines
/// broken inside this group receive; `breaks` is the group's break style.
#[derive(Clone, Copy, Debug)]
pub struct BeginToken {
    pub offset: i32,
    pub breaks: Break,
}

/// An optional line-break point.
///
/// When the break is not taken it appears as `blank_space` space characters.
/// When it is taken, `pre_break` (if any) is printed just before the newline,
/// and the next line starts at the enclosing indentation plus `offset`.
/// `if_nonempty` suppresses the break when its group produced no content
/// around it; `never_break` forbids rendering this break as a newline at all.
#[derive(Clone, Copy, Debug)]
pub struct BreakToken {
    pub offset: i32,
    pub blank_space: u32,
    pub pre_break: Option<char>,
    pub if_nonempty: bool,
    pub never_break: bool,
}

/// A layout instruction: the vocabulary that consumers feed to the engine.
#[derive(Debug)]
pub enum Token {
    Text(String),
    Begin(BeginToken),
    Break(BreakToken),
    End,
}

/// The mathematical form of one layout instruction, used by contracts.
pub enum Instr {
    Text(Seq<char>),
    Begin(BeginToken),
    Break(BreakToken),
    End,
}

impl View for Token {
    type V = Instr;

    open spec fn view(&self) -> Instr {
        match self {
            Token::Text(s) => Instr::Text(s@),
            Token::Begin(b) => Instr::Begin(*b),
            Token::Break(b) => Instr::Break(*b),
            Token::End => Instr::End,
        }
    }
}

/// The sequence of instructions denoted by a vector of tokens.
pub open spec fn instrs_of(s: Seq<Token>) -> Seq<Instr> {
    s.map_values(|t: Token| t@)
}

/// +1 for a group opening, -1 for a group closing, 0 otherwise.
pub open spec fn instr_open_delta(i: Instr) -> int {
    match i {
        Instr::Begin(_) => 1,
        Instr::End => -1,
        _ => 0,
    }
}

/// Number of groups still open after the instruction sequence `s`:
/// group openings minus group closings.
pub open spec fn open_groups(s: Seq<Instr>) -> int
    decreases s.len(),
{
    if s.len() == 0 {
        0
    } else {
        open_groups(s.drop_last()) + instr_open_delta(s.last())
    }
}

pub proof fn lemma_open_groups_push(s: Seq<Instr>, i: Instr)
    ensures
        open_groups(s.push(i)) == open_groups(s) + instr_open_delta(i),
{
    assert(s.push(i).drop_last() =~= s);
    assert(s.push(i).last() == i);
}

/// A sequence of instructions never closes a group it has not opened: in every
/// prefix the number of `End` instructions stays at or below the number of
/// `Begin` instructions.
pub open spec fn balanced_prefixes(s: Seq<Instr>) -> bool {
    forall|k: int| 0 <= k <= s.len() ==> open_groups(#[trigger] s.take(k)) >= 0
}

/// A self-contained instruction sequence: balanced prefixes, and every opened
/// group closed by the end.
pub open spec fn balanced(s: Seq<Instr>) -> bool {
    balanced_prefixes(s) && open_groups(s) == 0
}

/// The balance invariant: along an instruction sequence whose prefixes
/// never close more groups than were opened, the number of open groups
/// after any prefix is nonnegative — so such a consumer meets the engine's
/// group-end precondition at every step.
pub proof fn lemma_open_groups_prefix_nonneg(s: Seq<Instr>, k: int)
    requires
        balanced_prefixes(s),
        0 <= k <= s.len(),
    ensures
        open_groups(s.take(k)) >= 0,
{
}

} // verus!
