use vstd::prelude::*;
use vstd::string::*;

use crate::ring::RingBuffer;
use crate::token::{
    instr_open_delta, lemma_open_groups_push, open_groups, BeginToken, Break, BreakToken, Instr,
    Token, SIZE_INFINITY,
};

verus! {

/// Saturating value of `x` within the `i64` range.
pub open spec fn sat64(x: int) -> int {
    if x > i64::MAX {
        i64::MAX as int
    } else if x < i64::MIN {
        i64::MIN as int
    } else {
        x
    }
}

fn sat_add(a: i64, b: i64) -> (r: i64)
    ensures
        r as int == sat64(a + b),
{
    if b >= 0 {
        if a > i64::MAX - b {
            i64::MAX
        } else {
            a + b
        }
    } else {
        if a < i64::MIN - b {
            i64::MIN
        } else {
            a + b
        }
    }
}

fn sat_sub(a: i64, b: i64) -> (r: i64)
    ensures
        r as int == sat64(a - b),
{
    if b >= 0 {
        if a < i64::MIN + b {
            i64::MIN
        } else {
            a - b
        }
    } else {
        if a > i64::MAX + b {
            i64::MAX
        } else {
            a - b
        }
    }
}

fn max0(a: i64) -> (r: i64)
    ensures
        r as int == if a >= 0 { a as int } else { 0 },
{
    if a >= 0 {
        a
    } else {
        0
    }
}

/// Relies on String::push: appends exactly the one character to the string.
#[verifier::external_body]
fn push_char(s: &mut String, c: char)
    ensures
        final(s)@ == old(s)@.push(c),
{
    s.push(c)
}

/// A print-context: pushed when a group is committed to the output phase.
/// `Fits` means the whole group fits on the current line; `Broken` records
/// the indentation to restore when the group closes.
#[derive(Clone, Copy)]
pub enum PrintFrame {
    Fits(Break),
    Broken(i64, Break),
}

pub open spec fn frame_ok(f: PrintFrame) -> bool {
    match f {
        PrintFrame::Broken(ind, _) => ind >= 0,
        PrintFrame::Fits(_) => true,
    }
}

/// The committed text only grows: `pre` is an unchanged prefix of `post`.
/// Emission is never retroactively corrected, so every public operation
/// relates the sink's old and new contents by this predicate (or leaves the
/// sink exactly unchanged).
pub open spec fn text_extends(pre: Seq<char>, post: Seq<char>) -> bool {
    pre.len() <= post.len() && forall|i: int| 0 <= i < pre.len() ==> pre[i] == post[i]
}

/// The sequence of characters a break token writes when it is taken:
/// its pre-break character, if any, then a newline.
pub open spec fn taken_break_text(b: BreakToken) -> Seq<char> {
    match b.pre_break {
        Some(c) => seq![c, '\n'],
        None => seq!['\n'],
    }
}

/// Whether a break committed under print-context `top` is rendered as blank
/// space (true) or as a newline (false). A `never_break` break always fits;
/// in a group that fits as a whole every break fits; in a broken consistent
/// group no break fits; in a broken inconsistent group the break fits when
/// the content up to the next break point fits in the remaining space.
pub open spec fn break_fits(top: PrintFrame, b: BreakToken, size: int, space: int) -> bool {
    b.never_break || match top {
        PrintFrame::Fits(_) => true,
        PrintFrame::Broken(_, Break::Consistent) => false,
        PrintFrame::Broken(_, Break::Inconsistent) => size <= space,
    }
}

/// One committed break decision: the print-context it was decided under,
/// the break token, its resolved size and the remaining line space at the
/// moment of commitment, whether it fit (rendered as blank space), and the
/// characters it wrote to the sink.
pub struct BreakDecision {
    pub top: PrintFrame,
    pub token: BreakToken,
    pub size: int,
    pub space: int,
    pub fits: bool,
    pub emitted: Seq<char>,
}

/// A decision is valid when it follows the fitting rule, a fitting break
/// wrote nothing, and a taken break wrote its pre-break character (if any)
/// and a newline.
pub open spec fn decision_ok(d: BreakDecision) -> bool {
    &&& d.fits == break_fits(d.top, d.token, d.size, d.space)
    &&& d.emitted == if d.fits {
        Seq::<char>::empty()
    } else {
        taken_break_text(d.token)
    }
}

/// One write to the output sink: either a committed text (preceded by the
/// blank columns that were pending) or a committed break decision.
pub enum Emission {
    Text(int, Seq<char>),
    Break(BreakDecision),
}

/// The characters one emission wrote.
pub open spec fn emission_text(e: Emission) -> Seq<char> {
    match e {
        Emission::Text(pending, s) => Seq::new(
            if pending >= 0 {
                pending as nat
            } else {
                0
            },
            |i: int| ' ',
        ) + s,
        Emission::Break(d) => d.emitted,
    }
}

/// The whole text a sequence of emissions wrote, in order.
pub open spec fn emitted_text(es: Seq<Emission>) -> Seq<char>
    decreases es.len(),
{
    if es.len() == 0 {
        Seq::empty()
    } else {
        emitted_text(es.drop_last()) + emission_text(es.last())
    }
}

pub proof fn lemma_emitted_text_push(es: Seq<Emission>, e: Emission)
    ensures
        emitted_text(es.push(e)) == emitted_text(es) + emission_text(e),
{
    assert(es.push(e).drop_last() =~= es);
    assert(es.push(e).last() == e);
}

pub proof fn lemma_emitted_text_concat(a: Seq<Emission>, b: Seq<Emission>)
    ensures
        emitted_text(a + b) == emitted_text(a) + emitted_text(b),
    decreases b.len(),
{
    if b.len() == 0 {
        assert(a + b =~= a);
        assert(emitted_text(a) + emitted_text(b) =~= emitted_text(a));
    } else {
        assert((a + b).drop_last() =~= a + b.drop_last());
        assert((a + b).last() == b.last());
        lemma_emitted_text_concat(a, b.drop_last());
        assert(emitted_text(a) + emitted_text(b.drop_last()) + emission_text(b.last())
            =~= emitted_text(a) + (emitted_text(b.drop_last()) + emission_text(b.last())));
    }
}

/// The emission record only grows: `pre` is an unchanged prefix of `post`.
pub open spec fn log_extends(pre: Seq<Emission>, post: Seq<Emission>) -> bool {
    pre.len() <= post.len() && forall|i: int| 0 <= i < pre.len() ==> pre[i] == post[i]
}

/// Every break emission records a valid decision, and no pending blank
/// count is negative.
pub open spec fn emissions_ok(es: Seq<Emission>) -> bool {
    forall|i: int|
        0 <= i < es.len() ==> match #[trigger] es[i] {
            Emission::Break(d) => decision_ok(d),
            Emission::Text(pending, _) => pending >= 0,
        }
}

/// The document layout engine: consumes layout instructions, resolves the
/// width of each pending group in one pass through the ring buffer, and
/// streams the decided text to an in-memory sink.
///
/// Its view is the sequence of instructions scanned so far. Three further
/// spec-level observations accompany it: `out_view`, the text committed to
/// the sink, which operations only extend (`text_extends`), write to
/// exactly in immediate mode (`immediate`), and `finish` returns;
/// `emissions`, the record of every write the session has made, whose
/// flattening a well-formed session's sink holds exactly and whose break
/// decisions obey the fitting rule (`lemma_out_is_emitted`); and the margin
/// and indentation unit. The sink's contents are thus accounted for write
/// by write; a closed-form rendering function from the instruction history
/// alone is not part of the contracts.
pub struct Engine {
    margin: i64,
    pub(crate) indent_unit: i32,
    out: String,
    space: i64,
    buf: RingBuffer,
    scan_stack: Vec<usize>,
    print_stack: Vec<PrintFrame>,
    indent: i64,
    pending_indentation: i64,
    left_total: i64,
    right_total: i64,
    hist: Ghost<Seq<Instr>>,
    emit_log: Ghost<Seq<Emission>>,
}

pub(crate) open spec fn stack_has(stack: Seq<usize>, j: int) -> bool {
    exists|i: int| 0 <= i < stack.len() && stack[i] as int == j
}

/// The joint invariant of the scan stack and the ring buffer: references are
/// strictly increasing positions of the unresolved entries, an entry is
/// unresolved exactly when its size slot is negative, every pending size
/// stays within one running total of resolution, and pending begin/break
/// sizes grow more negative towards the back.
pub(crate) open spec fn scan_inv(
    stack: Seq<usize>,
    sizes: Seq<i64>,
    toks: Seq<Instr>,
    rt: int,
) -> bool {
    &&& toks.len() == sizes.len()
    &&& rt >= 1
    &&& forall|a: int, b: int| 0 <= a < b < stack.len() ==> stack[a] < stack[b]
    &&& forall|a: int| 0 <= a < stack.len() ==> (#[trigger] stack[a]) < toks.len()
    &&& forall|a: int|
        0 <= a < stack.len() ==> -rt <= sizes[(#[trigger] stack[a]) as int] <= -1
    &&& forall|j: int| 0 <= j < sizes.len() && sizes[j] < 0 ==> stack_has(stack, j)
    &&& forall|a: int, b: int|
        0 <= a < b < stack.len() && !(toks[stack[b] as int] is End)
            ==> sizes[stack[a] as int] >= sizes[stack[b] as int]
}

impl View for Engine {
    type V = Seq<Instr>;

    closed spec fn view(&self) -> Seq<Instr> {
        self.hist@
    }
}

impl Engine {
    /// The configured number of columns one nesting level indents by.
    pub closed spec fn indent_unit(&self) -> int {
        self.indent_unit as int
    }

    /// The configured maximum line width.
    pub closed spec fn margin(&self) -> int {
        self.margin as int
    }

    /// The text committed to the output sink so far. Entries still pending
    /// in the ring buffer are not part of it until their group's fate is
    /// decided; `finish` flushes them.
    pub closed spec fn out_view(&self) -> Seq<char> {
        self.out@
    }

    /// Every write this session has made to the sink, in order: committed
    /// texts with their pending blanks, and committed break decisions.
    pub closed spec fn emissions(&self) -> Seq<Emission> {
        self.emit_log@
    }

    /// In a well-formed session the sink holds exactly the concatenation of
    /// the recorded emissions, and every recorded break decision obeys the
    /// fitting rule: a fitting decision wrote nothing, a taken one wrote
    /// its pre-break character and a newline.
    pub proof fn lemma_out_is_emitted(&self)
        requires
            self.wf(),
        ensures
            self.out_view() == emitted_text(self.emissions()),
            emissions_ok(self.emissions()),
    {
    }

    /// Immediate mode: nothing is pending resolution and no blank columns
    /// are deferred, so text scanned now is written to the sink at once and
    /// verbatim. A fresh engine is immediate, and text keeps it so; opening
    /// a group or recording a break point leaves immediate mode until the
    /// pending window resolves.
    pub closed spec fn immediate(&self) -> bool {
        self.scan_stack@.len() == 0 && self.pending_indentation == 0
    }

    spec fn on_stack(&self, j: int) -> bool {
        stack_has(self.scan_stack@, j)
    }

    spec fn print_wf(&self) -> bool {
        &&& 1 <= self.margin < SIZE_INFINITY
        &&& self.indent_unit >= 0
        &&& self.space <= self.margin
        &&& self.indent >= 0
        &&& self.pending_indentation >= 0
        &&& forall|i: int|
            0 <= i < self.print_stack@.len() ==> frame_ok(#[trigger] self.print_stack@[i])
        &&& emissions_ok(self.emit_log@)
        &&& self.out@ == emitted_text(self.emit_log@)
    }

    spec fn scan_wf(&self) -> bool {
        scan_inv(self.scan_stack@, self.buf.sizes(), self.buf.toks(), self.right_total as int)
    }

    /// A group begin can sit at the bottom of the scan stack only at the
    /// very front of the buffer: everything before the innermost pending
    /// scope has already been flushed.
    spec fn begin_bottom_ok(&self) -> bool {
        self.scan_stack@.len() > 0 && self.buf.toks().len() > 0 && self.buf.toks()[
            self.scan_stack@[0] as int] is Begin ==> self.scan_stack@[0] == 0
    }

    /// Well-formedness between calls.
    pub closed spec fn wf(&self) -> bool {
        &&& self.print_wf()
        &&& self.scan_wf()
        &&& self.begin_bottom_ok()
        &&& (self.scan_stack@.len() == 0 ==> self.buf.toks().len() == 0)
        &&& (self.hist@.len() > 0 && self.hist@.last() is Break ==> {
            &&& self.buf.toks().len() > 0
            &&& self.buf.toks().last() == self.hist@.last()
        })
    }

    spec fn same_scan(pre: &Engine, post: &Engine) -> bool {
        &&& post.buf.toks() == pre.buf.toks()
        &&& post.buf.sizes() == pre.buf.sizes()
        &&& post.scan_stack@ == pre.scan_stack@
        &&& post.hist@ == pre.hist@
        &&& post.margin == pre.margin
        &&& post.indent_unit == pre.indent_unit
        &&& post.left_total == pre.left_total
        &&& post.right_total == pre.right_total
    }

    spec fn top_frame(&self) -> PrintFrame {
        if self.print_stack@.len() == 0 {
            PrintFrame::Broken(0, Break::Inconsistent)
        } else {
            self.print_stack@.last()
        }
    }

    /// Start a print session with the given maximum line width and
    /// indentation unit. Non-positive widths are a configuration error of the
    /// caller; widths at or above the infinite-size sentinel are meaningless.
    pub fn new(width: u32, indent_unit: i32) -> (e: Engine)
        requires
            1 <= width < 0xffff,
            indent_unit >= 0,
        ensures
            e.wf(),
            e@ == Seq::<Instr>::empty(),
            e.indent_unit() == indent_unit,
            e.margin() == width,
            e.out_view() == Seq::<char>::empty(),
            e.immediate(),
    {
        proof {
            assert(emitted_text(Seq::<Emission>::empty()) =~= Seq::<char>::empty());
        }
        Engine {
            margin: width as i64,
            indent_unit,
            out: String::new(),
            space: width as i64,
            buf: RingBuffer::new(),
            scan_stack: Vec::new(),
            print_stack: Vec::new(),
            indent: 0,
            pending_indentation: 0,
            left_total: 1,
            right_total: 1,
            hist: Ghost(Seq::empty()),
            emit_log: Ghost(Seq::empty()),
        }
    }

    fn get_top(&self) -> (f: PrintFrame)
        ensures
            f == self.top_frame(),
    {
        let n = self.print_stack.len();
        if n == 0 {
            PrintFrame::Broken(0, Break::Inconsistent)
        } else {
            self.print_stack[n - 1]
        }
    }

    fn print_string(&mut self, s: &str)
        requires
            old(self).print_wf(),
        ensures
            final(self).print_wf(),
            Self::same_scan(old(self), final(self)),
            final(self).print_stack@ == old(self).print_stack@,
            final(self).indent == old(self).indent,
            final(self).pending_indentation == 0,
            log_extends(old(self).emit_log@, final(self).emit_log@),
            final(self).out@ == old(self).out@ + Seq::new(
                old(self).pending_indentation as nat,
                |i: int| ' ',
            ) + s@,
    {
        let ghost pend = self.pending_indentation as nat;
        let ghost out0 = self.out@;
        let mut i: i64 = 0;
        while i < self.pending_indentation
            invariant
                0 <= i <= self.pending_indentation,
                self.pending_indentation == old(self).pending_indentation,
                self.out@ == out0 + Seq::new(i as nat, |k: int| ' '),
                self.emit_log@ == old(self).emit_log@,
                Self::same_scan(old(self), self),
                self.print_stack@ == old(self).print_stack@,
                self.space == old(self).space,
                self.indent == old(self).indent,
                self.margin == old(self).margin,
                self.indent_unit == old(self).indent_unit,
            decreases self.pending_indentation - i,
        {
            push_char(&mut self.out, ' ');
            i = i + 1;
            proof {
                assert(self.out@ =~= out0 + Seq::new(i as nat, |k: int| ' '));
            }
        }
        self.pending_indentation = 0;
        self.out.append(s);
        self.emit_log = Ghost(
            self.emit_log@.push(Emission::Text(old(self).pending_indentation as int, s@)),
        );
        proof {
            let em = Emission::Text(old(self).pending_indentation as int, s@);
            lemma_emitted_text_push(old(self).emit_log@, em);
            assert(emission_text(em) =~= Seq::new(
                old(self).pending_indentation as nat,
                |i: int| ' ',
            ) + s@);
            assert(self.out@ =~= emitted_text(self.emit_log@));
            assert forall|i: int| 0 <= i < self.emit_log@.len() implies match #[trigger] self.emit_log@[i] {
                Emission::Break(d) => decision_ok(d),
                Emission::Text(pending, _) => pending >= 0,
            } by {
                if i < old(self).emit_log@.len() {
                    assert(old(self).emit_log@[i] == self.emit_log@[i]);
                }
            }
        }
        let n = s.unicode_len();
        let len: i64 = if n > 0xffff {
            0xffff
        } else {
            n as i64
        };
        self.space = sat_sub(self.space, len);
    }

    fn print_begin(&mut self, token: BeginToken, size: i64)
        requires
            old(self).print_wf(),
        ensures
            final(self).print_wf(),
            Self::same_scan(old(self), final(self)),
            final(self).out@ == old(self).out@,
            final(self).emit_log@ == old(self).emit_log@,
            final(self).print_stack@ == old(self).print_stack@.push(
                if size > old(self).space {
                    PrintFrame::Broken(old(self).indent, token.breaks)
                } else {
                    PrintFrame::Fits(token.breaks)
                },
            ),
    {
        if size > self.space {
            self.print_stack.push(PrintFrame::Broken(self.indent, token.breaks));
            self.indent = max0(sat_add(self.indent, token.offset as i64));
        } else {
            self.print_stack.push(PrintFrame::Fits(token.breaks));
        }
    }

    fn print_end(&mut self)
        requires
            old(self).print_wf(),
        ensures
            final(self).print_wf(),
            Self::same_scan(old(self), final(self)),
            final(self).out@ == old(self).out@,
            final(self).emit_log@ == old(self).emit_log@,
    {
        match self.print_stack.pop() {
            Some(PrintFrame::Broken(ind, _)) => {
                proof {
                    assert(frame_ok(old(self).print_stack@.last()));
                }
                self.indent = ind;
            },
            Some(PrintFrame::Fits(_)) => {},
            None => {
                // A close with no matching open is a consumer-contract
                // violation, excluded by `scan_end`'s precondition; nothing
                // to restore here.
            },
        }
    }

    /// Commit one break point. If it fits it appears as blank spaces (held
    /// as pending indentation); if not, the pre-break character and a newline
    /// are written and the next line starts at the enclosing indentation plus
    /// the break's own offset.
    fn print_break(&mut self, token: BreakToken, size: i64)
        requires
            old(self).print_wf(),
        ensures
            final(self).print_wf(),
            Self::same_scan(old(self), final(self)),
            final(self).print_stack@ == old(self).print_stack@,
            log_extends(old(self).emit_log@, final(self).emit_log@),
            break_fits(old(self).top_frame(), token, size as int, old(self).space as int)
                ==> final(self).out@ == old(self).out@,
            !break_fits(old(self).top_frame(), token, size as int, old(self).space as int)
                ==> final(self).out@ == old(self).out@ + taken_break_text(token),
    {
        let fits = token.never_break || match self.get_top() {
            PrintFrame::Fits(_) => true,
            PrintFrame::Broken(_, Break::Consistent) => false,
            PrintFrame::Broken(_, Break::Inconsistent) => size <= self.space,
        };
        let ghost d = BreakDecision {
            top: self.top_frame(),
            token,
            size: size as int,
            space: self.space as int,
            fits,
            emitted: if fits {
                Seq::<char>::empty()
            } else {
                taken_break_text(token)
            },
        };
        proof {
            assert(decision_ok(d));
        }
        if fits {
            self.pending_indentation = sat_add(self.pending_indentation, token.blank_space as i64);
            self.space = sat_sub(self.space, token.blank_space as i64);
        } else {
            if let Some(c) = token.pre_break {
                push_char(&mut self.out, c);
            }
            push_char(&mut self.out, '\n');
            let target = max0(sat_add(self.indent, token.offset as i64));
            self.pending_indentation = target;
            self.space = sat_sub(self.margin, target);
        }
        self.emit_log = Ghost(self.emit_log@.push(Emission::Break(d)));
        proof {
            lemma_emitted_text_push(old(self).emit_log@, Emission::Break(d));
            if d.fits {
                assert(self.out@ =~= old(self).out@ + d.emitted);
            } else {
                match token.pre_break {
                    Some(c) => {
                        assert(self.out@ =~= old(self).out@ + d.emitted);
                    },
                    None => {
                        assert(self.out@ =~= old(self).out@ + d.emitted);
                    },
                }
            }
        }
    }

    fn advance_cond(&self) -> (b: bool)
        requires
            self.buf.wf(),
        ensures
            b == (self.buf.toks().len() > 0 && self.buf.sizes()[0] >= 0),
    {
        if self.buf.is_empty() {
            false
        } else {
            self.buf.size_at(0) >= 0
        }
    }

    /// Commit every fully resolved token at the front of the ring buffer to
    /// the output, in order.
    fn advance_left(&mut self)
        requires
            old(self).scan_wf(),
            old(self).print_wf(),
        ensures
            final(self).scan_wf(),
            final(self).print_wf(),
            final(self).begin_bottom_ok(),
            final(self).hist@ == old(self).hist@,
            final(self).margin == old(self).margin,
            final(self).indent_unit == old(self).indent_unit,
            final(self).right_total == old(self).right_total,
            text_extends(old(self).out@, final(self).out@),
            log_extends(old(self).emit_log@, final(self).emit_log@),
            final(self).buf.toks().len() == 0 || final(self).buf.sizes()[0] < 0,
            final(self).scan_stack@.len() == 0 ==> final(self).buf.toks().len() == 0,
            old(self).buf.toks().len() > 0 && old(self).buf.sizes()[0] >= 0
                ==> final(self).buf.toks().len() < old(self).buf.toks().len(),
    {
        while self.advance_cond()
            invariant
                self.scan_wf(),
                self.print_wf(),
                self.hist@ == old(self).hist@,
                self.margin == old(self).margin,
                self.indent_unit == old(self).indent_unit,
                self.right_total == old(self).right_total,
                text_extends(old(self).out@, self.out@),
                log_extends(old(self).emit_log@, self.emit_log@),
                self.buf.toks().len() < old(self).buf.toks().len() || (self.buf.toks()
                    == old(self).buf.toks() && self.buf.sizes() == old(self).buf.sizes()),
            decreases self.buf.toks().len(),
        {
            let ghost pre = *self;
            proof {
                assert forall|i: int| 0 <= i < pre.scan_stack@.len() implies pre.scan_stack@[i]
                    >= 1 by {
                    assert(pre.buf.sizes()[pre.scan_stack@[i] as int] <= -1);
                }
            }
            let (t, sz) = self.buf.pop_front();
            let ghost stack0 = self.scan_stack@;
            let ghost bufg = self.buf;
            let mut k: usize = 0;
            while k < self.scan_stack.len()
                invariant
                    k <= self.scan_stack@.len(),
                    self.scan_stack@.len() == stack0.len(),
                    forall|i: int| 0 <= i < stack0.len() ==> stack0[i] >= 1,
                    forall|i: int|
                        0 <= i < k ==> (#[trigger] self.scan_stack@[i]) as int == stack0[i] - 1,
                    forall|i: int| k <= i < stack0.len() ==> self.scan_stack@[i] == stack0[i],
                    self.buf == bufg,
                    self.hist@ == pre.hist@,
                    self.out@ == pre.out@,
                    self.emit_log@ == pre.emit_log@,
                    self.print_stack@ == pre.print_stack@,
                    self.margin == pre.margin,
                    self.indent_unit == pre.indent_unit,
                    self.space == pre.space,
                    self.indent == pre.indent,
                    self.pending_indentation == pre.pending_indentation,
                    self.left_total == pre.left_total,
                    self.right_total == pre.right_total,
                decreases stack0.len() - k,
            {
                proof {
                    assert(self.scan_stack@[k as int] == stack0[k as int]);
                    assert(stack0[k as int] >= 1);
                }
                let v = self.scan_stack[k];
                self.scan_stack[k] = v - 1;
                k += 1;
            }
            proof {
                let stack1 = self.scan_stack@;
                let sizes1 = self.buf.sizes();
                let toks1 = self.buf.toks();
                assert(sizes1 == pre.buf.sizes().skip(1));
                assert(toks1 == pre.buf.toks().skip(1));
                assert forall|j: int| 0 <= j < sizes1.len() && sizes1[j] < 0 implies stack_has(self.scan_stack@, j) by {
                    assert(sizes1[j] == pre.buf.sizes()[j + 1]);
                    assert(pre.on_stack(j + 1));
                    let i = choose|i: int|
                        0 <= i < pre.scan_stack@.len() && pre.scan_stack@[i] as int == j + 1;
                    assert(stack1[i] as int == j);
                }
                assert forall|a: int|
                    0 <= a < stack1.len() implies -(self.right_total as int) <= sizes1[(
                #[trigger] stack1[a]) as int] <= -1 by {
                    assert(-(pre.right_total as int) <= pre.buf.sizes()[pre.scan_stack@[a] as int]
                        <= -1);
                    assert(sizes1[stack1[a] as int] == pre.buf.sizes()[stack0[a] as int]);
                }
                assert forall|a: int, b: int|
                    0 <= a < b < stack1.len() && !(toks1[stack1[b] as int] is End) implies sizes1[
                    stack1[a] as int] >= sizes1[stack1[b] as int] by {
                    assert(toks1[stack1[b] as int] == pre.buf.toks()[stack0[b] as int]);
                    assert(sizes1[stack1[a] as int] == pre.buf.sizes()[stack0[a] as int]);
                    assert(sizes1[stack1[b] as int] == pre.buf.sizes()[stack0[b] as int]);
                    assert(pre.buf.sizes()[stack0[a] as int] >= pre.buf.sizes()[stack0[b] as int]);
                }
                assert forall|a: int, b: int| 0 <= a < b < stack1.len() implies stack1[a]
                    < stack1[b] by {
                    assert(stack1[a] as int == stack0[a] - 1);
                    assert(stack1[b] as int == stack0[b] - 1);
                    assert(stack0[a] < stack0[b]);
                }
                assert forall|a: int| 0 <= a < stack1.len() implies ((stack1[a]) as int)
                    < toks1.len() as int by {
                    assert(stack1[a] as int == stack0[a] - 1);
                    assert(stack0[a] < pre.buf.toks().len());
                }
                assert(self.scan_wf());
            }
            match t {
                Token::Text(s) => {
                    self.left_total = sat_add(self.left_total, sz);
                    self.print_string(s.as_str());
                },
                Token::Break(b) => {
                    self.left_total = sat_add(self.left_total, b.blank_space as i64);
                    self.print_break(b, sz);
                },
                Token::Begin(b) => {
                    self.print_begin(b, sz);
                },
                Token::End => {
                    self.print_end();
                },
            }
        }
        proof {
            if self.buf.toks().len() > 0 {
                assert(self.buf.sizes()[0] < 0);
                assert(self.on_stack(0));
                let i = choose|i: int|
                    0 <= i < self.scan_stack@.len() && self.scan_stack@[i] as int == 0;
                if i > 0 {
                    assert(self.scan_stack@[0] < self.scan_stack@[i]);
                }
                assert(self.scan_stack@[0] == 0);
            }
        }
    }

    fn stream_cond(&self) -> (b: bool)
        requires
            self.buf.wf(),
        ensures
            b == (sat64(self.right_total - self.left_total) > self.space && self.buf.toks().len()
                > 0),
    {
        let diff = sat_sub(self.right_total, self.left_total);
        diff > self.space && !self.buf.is_empty()
    }

    /// While the pending window no longer fits in the remaining line space,
    /// force the oldest unresolved entry to infinite size (it cannot fit
    /// anyway) and flush everything that becomes committable.
    fn check_stream(&mut self)
        requires
            old(self).scan_wf(),
            old(self).print_wf(),
            old(self).begin_bottom_ok(),
            old(self).scan_stack@.len() == 0 ==> old(self).buf.toks().len() == 0,
        ensures
            final(self).scan_wf(),
            final(self).print_wf(),
            final(self).begin_bottom_ok(),
            final(self).hist@ == old(self).hist@,
            final(self).margin == old(self).margin,
            final(self).indent_unit == old(self).indent_unit,
            final(self).right_total == old(self).right_total,
            text_extends(old(self).out@, final(self).out@),
            log_extends(old(self).emit_log@, final(self).emit_log@),
            final(self).scan_stack@.len() == 0 ==> final(self).buf.toks().len() == 0,
    {
        while self.stream_cond()
            invariant
                self.scan_wf(),
                self.print_wf(),
                self.begin_bottom_ok(),
                self.hist@ == old(self).hist@,
                self.margin == old(self).margin,
                self.indent_unit == old(self).indent_unit,
                self.right_total == old(self).right_total,
                text_extends(old(self).out@, self.out@),
                log_extends(old(self).emit_log@, self.emit_log@),
                self.scan_stack@.len() == 0 ==> self.buf.toks().len() == 0,
            decreases self.buf.toks().len(),
        {
            let ghost pre = *self;
            let front_ref = self.scan_stack[0];
            if front_ref == 0 {
                self.scan_stack.remove(0);
                self.buf.set_size(0, SIZE_INFINITY);
                proof {
                    let stack1 = self.scan_stack@;
                    let sizes1 = self.buf.sizes();
                    assert(stack1 == pre.scan_stack@.remove(0));
                    assert(sizes1 == pre.buf.sizes().update(0, SIZE_INFINITY));
                    assert forall|j: int|
                        0 <= j < sizes1.len() && sizes1[j] < 0 implies stack_has(self.scan_stack@, j) by {
                        assert(j != 0);
                        assert(pre.buf.sizes()[j] < 0);
                        assert(pre.on_stack(j));
                        let i = choose|i: int|
                            0 <= i < pre.scan_stack@.len() && pre.scan_stack@[i] as int == j;
                        if i == 0 {
                            assert(false);
                        }
                        assert(stack1[i - 1] as int == j);
                    }
                    assert forall|a: int|
                        0 <= a < stack1.len() implies -(self.right_total as int) <= sizes1[(
                    #[trigger] stack1[a]) as int] <= -1 by {
                        assert(stack1[a] == pre.scan_stack@[a + 1]);
                        assert(pre.scan_stack@[0] < pre.scan_stack@[a + 1]);
                        assert(-(pre.right_total as int) <= pre.buf.sizes()[pre.scan_stack@[a
                            + 1] as int] <= -1);
                    }
                    assert forall|a: int, b: int|
                        0 <= a < b < stack1.len() && !(self.buf.toks()[stack1[b] as int] is End)
                        implies sizes1[stack1[a] as int] >= sizes1[stack1[b] as int] by {
                        assert(stack1[a] == pre.scan_stack@[a + 1]);
                        assert(stack1[b] == pre.scan_stack@[b + 1]);
                        assert(pre.scan_stack@[0] < pre.scan_stack@[a + 1]);
                        assert(pre.scan_stack@[0] < pre.scan_stack@[b + 1]);
                        assert(pre.buf.sizes()[pre.scan_stack@[a + 1] as int] >= pre.buf.sizes()[
                            pre.scan_stack@[b + 1] as int]);
                    }
                    assert forall|a: int, b: int| 0 <= a < b < stack1.len() implies stack1[a]
                        < stack1[b] by {
                        assert(stack1[a] == pre.scan_stack@[a + 1]);
                        assert(stack1[b] == pre.scan_stack@[b + 1]);
                    }
                    assert forall|a: int| 0 <= a < stack1.len() implies ((stack1[a]) as int)
                        < self.buf.toks().len() as int by {
                        assert(stack1[a] == pre.scan_stack@[a + 1]);
                        assert(pre.scan_stack@[a + 1] < pre.buf.toks().len());
                    }
                    assert(self.scan_wf());
                }
            } else {
                proof {
                    if self.buf.sizes()[0] < 0 {
                        assert(self.on_stack(0));
                        let i = choose|i: int|
                            0 <= i < self.scan_stack@.len() && self.scan_stack@[i] as int == 0;
                        if i > 0 {
                            assert(self.scan_stack@[0] < self.scan_stack@[i]);
                        }
                        assert(false);
                    }
                }
            }
            self.advance_left();
        }
    }

    /// Resolve, from the most recent backwards, the sizes of pending entries
    /// whose extent is now known: every break and closed group down to the
    /// innermost still-open group begin.
    fn check_stack(&mut self)
        requires
            old(self).scan_wf(),
            old(self).begin_bottom_ok(),
        ensures
            final(self).scan_wf(),
            final(self).begin_bottom_ok(),
            final(self).out@ == old(self).out@,
            final(self).emit_log@ == old(self).emit_log@,
            final(self).print_stack@ == old(self).print_stack@,
            final(self).space == old(self).space,
            final(self).indent == old(self).indent,
            final(self).pending_indentation == old(self).pending_indentation,
            final(self).hist@ == old(self).hist@,
            final(self).margin == old(self).margin,
            final(self).indent_unit == old(self).indent_unit,
            final(self).right_total == old(self).right_total,
            final(self).left_total == old(self).left_total,
            final(self).buf.toks() == old(self).buf.toks(),
            final(self).scan_stack@.len() <= old(self).scan_stack@.len(),
            forall|q: int|
                0 <= q < final(self).scan_stack@.len() ==> final(self).scan_stack@[q] == old(
                    self,
                ).scan_stack@[q],
    {
        let ghost stack0 = self.scan_stack@;
        let n0: usize = self.scan_stack.len();
        let mut depth: u64 = 0;
        while self.scan_stack.len() > 0
            invariant
                self.scan_wf(),
                self.out@ == old(self).out@,
                self.emit_log@ == old(self).emit_log@,
                self.print_stack@ == old(self).print_stack@,
                self.space == old(self).space,
                self.indent == old(self).indent,
                self.pending_indentation == old(self).pending_indentation,
                self.hist@ == old(self).hist@,
                self.margin == old(self).margin,
                self.indent_unit == old(self).indent_unit,
                self.right_total == old(self).right_total,
                self.left_total == old(self).left_total,
                self.buf.toks() == old(self).buf.toks(),
                n0 as int == stack0.len(),
                stack0 == old(self).scan_stack@,
                self.scan_stack@.len() <= n0,
                forall|q: int|
                    0 <= q < self.scan_stack@.len() ==> self.scan_stack@[q] == stack0[q],
                depth as int <= n0 - self.scan_stack@.len(),
            ensures
                self.scan_wf(),
                self.out@ == old(self).out@,
                self.emit_log@ == old(self).emit_log@,
                self.print_stack@ == old(self).print_stack@,
                self.space == old(self).space,
                self.indent == old(self).indent,
                self.pending_indentation == old(self).pending_indentation,
                self.hist@ == old(self).hist@,
                self.margin == old(self).margin,
                self.indent_unit == old(self).indent_unit,
                self.right_total == old(self).right_total,
                self.left_total == old(self).left_total,
                self.buf.toks() == old(self).buf.toks(),
                self.scan_stack@.len() <= n0,
                forall|q: int|
                    0 <= q < self.scan_stack@.len() ==> self.scan_stack@[q] == stack0[q],
            decreases self.scan_stack@.len(),
        {
            let ghost pre = *self;
            let i = self.scan_stack.len() - 1;
            let idx = self.scan_stack[i];
            let code: u8 = match self.buf.token_at(idx) {
                Token::Begin(_) => 0,
                Token::End => 1,
                _ => 2,
            };
            if code == 0 && depth == 0 {
                break ;
            }
            self.scan_stack.pop();
            if code == 1 {
                self.buf.set_size(idx, 1);
            } else {
                let sz = self.buf.size_at(idx);
                proof {
                    assert(-(pre.right_total as int) <= pre.buf.sizes()[idx as int] <= -1);
                }
                self.buf.set_size(idx, sat_add(sz, self.right_total));
            }
            proof {
                let stack1 = self.scan_stack@;
                let sizes1 = self.buf.sizes();
                assert(stack1 == pre.scan_stack@.subrange(0, pre.scan_stack@.len() - 1));
                assert forall|q: int| 0 <= q < stack1.len() implies stack1[q] == stack0[q] by {
                    assert(stack1[q] == pre.scan_stack@[q]);
                }
                assert forall|j: int|
                    0 <= j < sizes1.len() && sizes1[j] < 0 implies stack_has(self.scan_stack@, j) by {
                    assert(j != idx as int);
                    assert(pre.buf.sizes()[j] < 0);
                    assert(pre.on_stack(j));
                    let w = choose|w: int|
                        0 <= w < pre.scan_stack@.len() && pre.scan_stack@[w] as int == j;
                    if w == pre.scan_stack@.len() - 1 {
                        assert(false);
                    }
                    assert(stack1[w] as int == j);
                }
                assert forall|a: int, b: int| 0 <= a < b < stack1.len() implies stack1[a]
                    < stack1[b] by {
                    assert(stack1[a] == pre.scan_stack@[a]);
                    assert(stack1[b] == pre.scan_stack@[b]);
                }
                assert forall|a: int| 0 <= a < stack1.len() implies -(self.right_total as int)
                    <= sizes1[(#[trigger] stack1[a]) as int] <= -1 by {
                    assert(stack1[a] == pre.scan_stack@[a]);
                    assert(pre.scan_stack@[a] < idx);
                    assert(-(pre.right_total as int) <= pre.buf.sizes()[pre.scan_stack@[a] as int]
                        <= -1);
                }
                assert forall|a: int, b: int|
                    0 <= a < b < stack1.len() && !(self.buf.toks()[stack1[b] as int] is End)
                    implies sizes1[stack1[a] as int] >= sizes1[stack1[b] as int] by {
                    assert(stack1[a] == pre.scan_stack@[a]);
                    assert(stack1[b] == pre.scan_stack@[b]);
                    assert(pre.scan_stack@[a] < idx);
                    assert(pre.scan_stack@[b] < idx);
                    assert(pre.buf.sizes()[pre.scan_stack@[a] as int] >= pre.buf.sizes()[
                        pre.scan_stack@[b] as int]);
                }
                assert(self.scan_wf());
            }
            if code == 1 {
                depth = depth + 1;
            } else if code == 0 {
                depth = depth - 1;
            } else {
                if depth == 0 {
                    break ;
                }
            }
        }
    }

    /// Open a group. The group's width is not yet known, so its begin token
    /// waits in the ring buffer with a bookkeeping size that, combined with
    /// the running total at the matching end, yields the group's exact width.
    pub fn scan_begin(&mut self, token: BeginToken)
        requires
            old(self).wf(),
        ensures
            final(self).wf(),
            final(self)@ == old(self)@.push(Instr::Begin(token)),
            open_groups(final(self)@) == open_groups(old(self)@) + 1,
            final(self).indent_unit() == old(self).indent_unit(),
            final(self).margin() == old(self).margin(),
            final(self).out_view() == old(self).out_view(),
            final(self).emissions() == old(self).emissions(),
    {
        proof {
            lemma_open_groups_push(self.hist@, Instr::Begin(token));
        }
        if self.scan_stack.len() == 0 {
            self.left_total = 1;
            self.right_total = 1;
            self.buf.clear();
        }
        let ghost pre = *self;
        let n = self.buf.len();
        let sz = 0i64 - self.right_total;
        self.buf.push(Token::Begin(token), sz);
        self.scan_stack.push(n);
        self.hist = Ghost(self.hist@.push(Instr::Begin(token)));
        proof {
            let stack1 = self.scan_stack@;
            let sizes1 = self.buf.sizes();
            assert forall|j: int| 0 <= j < sizes1.len() && sizes1[j] < 0 implies stack_has(self.scan_stack@, j) by {
                if j < n {
                    assert(pre.on_stack(j));
                    let w = choose|w: int|
                        0 <= w < pre.scan_stack@.len() && pre.scan_stack@[w] as int == j;
                    assert(stack1[w] as int == j);
                } else {
                    assert(stack1[stack1.len() - 1] as int == j);
                }
            }
            assert forall|a: int, b: int| 0 <= a < b < stack1.len() implies stack1[a]
                < stack1[b] by {
                if b == stack1.len() - 1 {
                    assert(pre.scan_stack@[a] < pre.buf.toks().len());
                }
            }
            assert forall|a: int, b: int|
                0 <= a < b < stack1.len() && !(self.buf.toks()[stack1[b] as int] is End)
                implies sizes1[stack1[a] as int] >= sizes1[stack1[b] as int] by {
                if b < stack1.len() - 1 {
                    assert(pre.buf.sizes()[pre.scan_stack@[a] as int] >= pre.buf.sizes()[
                        pre.scan_stack@[b] as int]);
                } else {
                    assert(-(pre.right_total as int) <= pre.buf.sizes()[pre.scan_stack@[a] as int]
                        <= -1);
                }
            }
            assert(final(self).scan_wf());
        }
    }

    /// Record a break point. Its size starts as minus the running total and
    /// is finalized once the content that decides it has been scanned.
    pub fn scan_break(&mut self, token: BreakToken)
        requires
            old(self).wf(),
        ensures
            final(self).wf(),
            final(self)@ == old(self)@.push(Instr::Break(token)),
            open_groups(final(self)@) == open_groups(old(self)@),
            final(self).indent_unit() == old(self).indent_unit(),
            final(self).margin() == old(self).margin(),
            final(self).out_view() == old(self).out_view(),
            final(self).emissions() == old(self).emissions(),
    {
        proof {
            lemma_open_groups_push(self.hist@, Instr::Break(token));
        }
        if self.scan_stack.len() == 0 {
            self.left_total = 1;
            self.right_total = 1;
            self.buf.clear();
        } else {
            self.check_stack();
        }
        let ghost pre = *self;
        let n = self.buf.len();
        let sz = 0i64 - self.right_total;
        self.buf.push(Token::Break(token), sz);
        self.scan_stack.push(n);
        self.right_total = sat_add(self.right_total, token.blank_space as i64);
        self.hist = Ghost(self.hist@.push(Instr::Break(token)));
        proof {
            assert(self.right_total >= pre.right_total);
            let stack1 = self.scan_stack@;
            let sizes1 = self.buf.sizes();
            assert forall|j: int| 0 <= j < sizes1.len() && sizes1[j] < 0 implies stack_has(self.scan_stack@, j) by {
                if j < n {
                    assert(pre.on_stack(j));
                    let w = choose|w: int|
                        0 <= w < pre.scan_stack@.len() && pre.scan_stack@[w] as int == j;
                    assert(stack1[w] as int == j);
                } else {
                    assert(stack1[stack1.len() - 1] as int == j);
                }
            }
            assert forall|a: int, b: int| 0 <= a < b < stack1.len() implies stack1[a]
                < stack1[b] by {
                if b == stack1.len() - 1 {
                    assert(pre.scan_stack@[a] < pre.buf.toks().len());
                }
            }
            assert forall|a: int| 0 <= a < stack1.len() implies -(self.right_total as int)
                <= sizes1[(#[trigger] stack1[a]) as int] <= -1 by {
                if a < stack1.len() - 1 {
                    assert(-(pre.right_total as int) <= pre.buf.sizes()[pre.scan_stack@[a] as int]
                        <= -1);
                }
            }
            assert forall|a: int, b: int|
                0 <= a < b < stack1.len() && !(self.buf.toks()[stack1[b] as int] is End)
                implies sizes1[stack1[a] as int] >= sizes1[stack1[b] as int] by {
                if b < stack1.len() - 1 {
                    assert(pre.buf.sizes()[pre.scan_stack@[a] as int] >= pre.buf.sizes()[
                        pre.scan_stack@[b] as int]);
                } else {
                    assert(-(pre.right_total as int) <= pre.buf.sizes()[pre.scan_stack@[a] as int]
                        <= -1);
                }
            }
            assert(final(self).scan_wf());
            assert(final(self).buf.toks().last() == Instr::Break(token));
        }
    }

    /// Emit literal text. With no group pending it is written straight to the
    /// output; otherwise it joins the ring buffer with its (always known)
    /// width as its size. For layout purposes the width of a text wider
    /// than the infinite-size sentinel is clamped to the sentinel: such a
    /// text fits no admissible line either way, so decisions are unchanged,
    /// and the printed characters are never clamped.
    pub fn scan_string(&mut self, s: &str)
        requires
            old(self).wf(),
        ensures
            final(self).wf(),
            final(self)@ == old(self)@.push(Instr::Text(s@)),
            open_groups(final(self)@) == open_groups(old(self)@),
            final(self).indent_unit() == old(self).indent_unit(),
            final(self).margin() == old(self).margin(),
            text_extends(old(self).out_view(), final(self).out_view()),
            old(self).immediate() ==> final(self).immediate() && final(self).out_view() == old(
                self,
            ).out_view() + s@,
            log_extends(old(self).emissions(), final(self).emissions()),
    {
        proof {
            lemma_open_groups_push(self.hist@, Instr::Text(s@));
        }
        if self.scan_stack.len() == 0 {
            let ghost pre = *self;
            self.print_string(s);
            self.hist = Ghost(self.hist@.push(Instr::Text(s@)));
            proof {
                if pre.pending_indentation == 0 {
                    assert(Seq::new(0nat, |i: int| ' ') =~= Seq::<char>::empty());
                    assert(self.out@ =~= pre.out@ + s@);
                }
            }
        } else {
            let ghost pre = *self;
            let ghost blen = pre.buf.toks().len() as int;
            let n = s.unicode_len();
            let sz: i64 = if n > 0xffff {
                0xffff
            } else {
                n as i64
            };
            self.buf.push(Token::Text(s.to_owned()), sz);
            self.right_total = sat_add(self.right_total, sz);
            self.hist = Ghost(self.hist@.push(Instr::Text(s@)));
            proof {
                assert(self.right_total >= pre.right_total);
                let stack1 = self.scan_stack@;
                let sizes1 = self.buf.sizes();
                assert forall|j: int| 0 <= j < sizes1.len() && sizes1[j] < 0 implies stack_has(self.scan_stack@, j) by {
                    assert(j < blen);
                    assert(pre.on_stack(j));
                    let w = choose|w: int|
                        0 <= w < pre.scan_stack@.len() && pre.scan_stack@[w] as int == j;
                    assert(stack1[w] as int == j);
                }
                assert(self.scan_wf());
            }
            self.check_stream();
        }
    }

    /// Close the innermost open group. Calling this with no group open is a
    /// consumer-contract violation, excluded here by precondition.
    #[verifier::rlimit(50)]
    pub fn scan_end(&mut self)
        requires
            old(self).wf(),
            open_groups(old(self)@) >= 1,
        ensures
            final(self).wf(),
            final(self)@ == old(self)@.push(Instr::End),
            open_groups(final(self)@) == open_groups(old(self)@) - 1,
            final(self).indent_unit() == old(self).indent_unit(),
            final(self).margin() == old(self).margin(),
            final(self).out_view() == old(self).out_view(),
            final(self).emissions() == old(self).emissions(),
    {
        proof {
            lemma_open_groups_push(self.hist@, Instr::End);
        }
        if self.scan_stack.len() == 0 {
            self.print_end();
            self.hist = Ghost(self.hist@.push(Instr::End));
        } else {
            let ghost pre = *self;
            let n = self.buf.len();
            let sl = self.scan_stack.len();
            let last_break: Option<BreakToken> = match self.buf.token_at(n - 1) {
                Token::Break(b) => Some(*b),
                _ => None,
            };
            let mut collapsed = false;
            if let Some(b) = last_break {
                let second_is_begin: bool = if n >= 2 {
                    match self.buf.token_at(n - 2) {
                        Token::Begin(_) => true,
                        _ => false,
                    }
                } else {
                    false
                };
                if second_is_begin && sl >= 2 && self.scan_stack[sl - 1] == n - 1
                    && self.scan_stack[sl - 2] == n - 2 {
                    // the group contains nothing but this break: drop the
                    // whole group and roll the running total back
                    proof {
                        assert(-(pre.right_total as int) <= pre.buf.sizes()[pre.scan_stack@[(sl
                            - 1) as int] as int] <= -1);
                    }
                    let (_bt, bsz) = self.buf.pop_back();
                    let _ = self.buf.pop_back();
                    self.scan_stack.pop();
                    self.scan_stack.pop();
                    self.right_total = 0i64 - bsz;
                    collapsed = true;
                    proof {
                        let stack1 = self.scan_stack@;
                        let sizes1 = self.buf.sizes();
                        assert(stack1 =~= pre.scan_stack@.subrange(0, sl - 2));
                        assert(sizes1 =~= pre.buf.sizes().subrange(0, n - 2));
                        assert forall|j: int|
                            0 <= j < sizes1.len() && sizes1[j] < 0 implies stack_has(self.scan_stack@, j) by {
                            assert(pre.buf.sizes()[j] < 0);
                            assert(pre.on_stack(j));
                            let w = choose|w: int|
                                0 <= w < pre.scan_stack@.len() && pre.scan_stack@[w] as int == j;
                            assert(pre.scan_stack@[w] as int <= n - 3);
                            assert(w < sl - 2);
                            assert(stack1[w] as int == j);
                        }
                        assert forall|a: int|
                            0 <= a < stack1.len() implies -(self.right_total as int) <= sizes1[(
                        #[trigger] stack1[a]) as int] <= -1 by {
                            assert(!(pre.buf.toks()[pre.scan_stack@[(sl - 1) as int] as int]
                                is End));
                            assert(pre.buf.sizes()[pre.scan_stack@[a] as int] >= pre.buf.sizes()[
                                pre.scan_stack@[(sl - 1) as int] as int]);
                        }
                        assert forall|a: int, b: int| 0 <= a < b < stack1.len() implies stack1[a]
                            < stack1[b] by {
                            assert(stack1[a] == pre.scan_stack@[a]);
                            assert(stack1[b] == pre.scan_stack@[b]);
                        }
                        assert forall|a: int| 0 <= a < stack1.len() implies ((stack1[a]) as int)
                            < self.buf.toks().len() as int by {
                            assert(stack1[a] == pre.scan_stack@[a]);
                            assert(pre.scan_stack@[a] < pre.scan_stack@[(sl - 2) as int]);
                        }
                        assert forall|a: int, b: int|
                            0 <= a < b < stack1.len() && !(self.buf.toks()[stack1[b] as int]
                                is End) implies sizes1[stack1[a] as int] >= sizes1[stack1[
                            b] as int] by {
                            assert(stack1[a] == pre.scan_stack@[a]);
                            assert(stack1[b] == pre.scan_stack@[b]);
                            assert(pre.scan_stack@[b] < pre.scan_stack@[(sl - 2) as int]);
                            assert(pre.buf.sizes()[pre.scan_stack@[a] as int] >= pre.buf.sizes()[
                                pre.scan_stack@[b] as int]);
                        }
                        assert(self.scan_wf());
                        if stack1.len() == 0 {
                            // the dropped begin was the bottom reference, so
                            // it sat at index zero: the buffer is now empty
                            assert(pre.scan_stack@[0] == n - 2);
                            assert(pre.buf.toks()[pre.scan_stack@[0] as int] is Begin);
                            assert(n == 2);
                        }
                    }
                } else if b.if_nonempty && self.scan_stack[sl - 1] == n - 1 {
                    // a trailing only-if-nonempty break right before the end
                    // of its group is dropped
                    proof {
                        assert(-(pre.right_total as int) <= pre.buf.sizes()[pre.scan_stack@[(sl
                            - 1) as int] as int] <= -1);
                    }
                    let (_bt, bsz) = self.buf.pop_back();
                    self.scan_stack.pop();
                    self.right_total = 0i64 - bsz;
                    proof {
                        let stack1 = self.scan_stack@;
                        let sizes1 = self.buf.sizes();
                        assert(stack1 =~= pre.scan_stack@.subrange(0, sl - 1));
                        assert(sizes1 =~= pre.buf.sizes().subrange(0, n - 1));
                        assert forall|j: int|
                            0 <= j < sizes1.len() && sizes1[j] < 0 implies stack_has(self.scan_stack@, j) by {
                            assert(pre.buf.sizes()[j] < 0);
                            assert(pre.on_stack(j));
                            let w = choose|w: int|
                                0 <= w < pre.scan_stack@.len() && pre.scan_stack@[w] as int == j;
                            assert(w < sl - 1);
                            assert(stack1[w] as int == j);
                        }
                        assert forall|a: int|
                            0 <= a < stack1.len() implies -(self.right_total as int) <= sizes1[(
                        #[trigger] stack1[a]) as int] <= -1 by {
                            assert(!(pre.buf.toks()[pre.scan_stack@[(sl - 1) as int] as int]
                                is End));
                            assert(pre.buf.sizes()[pre.scan_stack@[a] as int] >= pre.buf.sizes()[
                                pre.scan_stack@[(sl - 1) as int] as int]);
                        }
                        assert forall|a: int, b: int| 0 <= a < b < stack1.len() implies stack1[a]
                            < stack1[b] by {
                            assert(stack1[a] == pre.scan_stack@[a]);
                            assert(stack1[b] == pre.scan_stack@[b]);
                        }
                        assert forall|a: int| 0 <= a < stack1.len() implies ((stack1[a]) as int)
                            < self.buf.toks().len() as int by {
                            assert(stack1[a] == pre.scan_stack@[a]);
                            assert(pre.scan_stack@[a] < pre.scan_stack@[(sl - 1) as int]);
                        }
                        assert forall|a: int, b: int|
                            0 <= a < b < stack1.len() && !(self.buf.toks()[stack1[b] as int]
                                is End) implies sizes1[stack1[a] as int] >= sizes1[stack1[
                            b] as int] by {
                            assert(stack1[a] == pre.scan_stack@[a]);
                            assert(stack1[b] == pre.scan_stack@[b]);
                            assert(pre.scan_stack@[b] < pre.scan_stack@[(sl - 1) as int]);
                            assert(pre.buf.sizes()[pre.scan_stack@[a] as int] >= pre.buf.sizes()[
                                pre.scan_stack@[b] as int]);
                        }
                        assert(self.scan_wf());
                    }
                }
            }
            if !collapsed {
                let ghost mid = *self;
                let n2 = self.buf.len();
                self.buf.push(Token::End, -1i64);
                self.scan_stack.push(n2);
                proof {
                    let stack1 = self.scan_stack@;
                    let sizes1 = self.buf.sizes();
                    assert forall|j: int|
                        0 <= j < sizes1.len() && sizes1[j] < 0 implies stack_has(self.scan_stack@, j) by {
                        if j < n2 {
                            assert(mid.on_stack(j));
                            let w = choose|w: int|
                                0 <= w < mid.scan_stack@.len() && mid.scan_stack@[w] as int == j;
                            assert(stack1[w] as int == j);
                        } else {
                            assert(stack1[stack1.len() - 1] as int == j);
                        }
                    }
                    assert(self.scan_wf());
                }
            }
            self.hist = Ghost(self.hist@.push(Instr::End));
        }
    }

    /// Add `delta` to the indentation offset of the break scanned last. The
    /// most recent instruction must be a break; its fate is still pending,
    /// since a break is decided only after later input arrives.
    pub fn update_break_offset(&mut self, delta: i32)
        requires
            old(self).wf(),
            old(self)@.len() > 0,
            old(self)@.last() is Break,
        ensures
            final(self).wf(),
            final(self)@ == old(self)@.update(
                old(self)@.len() - 1,
                match old(self)@.last() {
                    Instr::Break(b) => Instr::Break(
                        BreakToken { offset: sat32(b.offset + delta) as i32, ..b },
                    ),
                    _ => Instr::End,
                },
            ),
            open_groups(final(self)@) == open_groups(old(self)@),
            final(self).indent_unit() == old(self).indent_unit(),
            final(self).margin() == old(self).margin(),
            final(self).out_view() == old(self).out_view(),
            final(self).emissions() == old(self).emissions(),
    {
        let n = self.buf.len();
        proof {
            assert(self.buf.toks().last() == self.hist@.last());
        }
        let nb: BreakToken = match self.buf.token_at(n - 1) {
            Token::Break(b) => BreakToken { offset: sat_add_i32(b.offset, delta), ..*b },
            _ => {
                proof {
                    assert(false);
                }
                BreakToken {
                    offset: 0,
                    blank_space: 0,
                    pre_break: None,
                    if_nonempty: false,
                    never_break: false,
                }
            },
        };
        self.buf.set_token(n - 1, Token::Break(nb));
        self.hist = Ghost(self.hist@.update(self.hist@.len() - 1, Instr::Break(nb)));
        proof {
            lemma_open_groups_update_break(old(self)@, final(self)@);
            assert(final(self).scan_wf());
        }
    }

    /// The configured indentation unit, as handed to `new`.
    pub fn get_indent_unit(&self) -> (r: i32)
        ensures
            r as int == self.indent_unit(),
    {
        self.indent_unit
    }

    /// The engine keeps its configured indentation unit within bounds.
    pub proof fn lemma_wf_indent_unit(&self)
        requires
            self.wf(),
        ensures
            0 <= self.indent_unit() <= i32::MAX,
    {
    }

    /// Feed a pre-translated instruction list to the engine, in order.
    ///
    /// Its precondition is exactly the balance discipline of the consumer
    /// contract: in every prefix of the list, group ends never outnumber
    /// group begins beyond the groups already open. Any such list is
    /// accepted: no balanced instruction sequence can violate the engine's
    /// contracts.
    pub fn play(&mut self, toks: &Vec<Token>)
        requires
            old(self).wf(),
            open_groups(old(self)@) >= 0,
            crate::token::balanced_prefixes(crate::token::instrs_of(toks@)),
        ensures
            final(self).wf(),
            final(self)@ == old(self)@ + crate::token::instrs_of(toks@),
            open_groups(final(self)@) == open_groups(old(self)@) + open_groups(
                crate::token::instrs_of(toks@),
            ),
            final(self).indent_unit() == old(self).indent_unit(),
            final(self).margin() == old(self).margin(),
            text_extends(old(self).out_view(), final(self).out_view()),
            log_extends(old(self).emissions(), final(self).emissions()),
    {
        let ghost ops = crate::token::instrs_of(toks@);
        let mut i: usize = 0;
        proof {
            assert(self@ =~= old(self)@ + ops.take(0));
            crate::token::lemma_open_groups_prefix_nonneg(ops, 0);
        }
        while i < toks.len()
            invariant
                i <= toks.len(),
                ops == crate::token::instrs_of(toks@),
                ops.len() == toks@.len(),
                crate::token::balanced_prefixes(ops),
                self.wf(),
                self@ == old(self)@ + ops.take(i as int),
                open_groups(self@) == open_groups(old(self)@) + open_groups(ops.take(i as int)),
                open_groups(old(self)@) >= 0,
                open_groups(ops.take(i as int)) >= 0,
                self.indent_unit() == old(self).indent_unit(),
                self.margin() == old(self).margin(),
                text_extends(old(self).out_view(), self.out_view()),
                log_extends(old(self).emissions(), self.emissions()),
            decreases toks@.len() - i,
        {
            proof {
                assert(ops.take(i + 1) =~= ops.take(i as int).push(ops[i as int]));
                lemma_open_groups_push(ops.take(i as int), ops[i as int]);
                assert(open_groups(ops.take(i + 1)) >= 0);
                assert(ops[i as int] == toks@[i as int]@);
            }
            match &toks[i] {
                Token::Text(s) => {
                    self.scan_string(s.as_str());
                },
                Token::Begin(b) => {
                    self.scan_begin(*b);
                },
                Token::Break(b) => {
                    self.scan_break(*b);
                },
                Token::End => {
                    proof {
                        assert(open_groups(ops.take(i + 1)) == open_groups(ops.take(i as int))
                            - 1);
                    }
                    self.scan_end();
                },
            }
            proof {
                assert(self@ =~= old(self)@ + ops.take(i + 1));
            }
            i += 1;
        }
        proof {
            assert(ops.take(toks@.len() as int) =~= ops);
        }
    }

    /// End the session: force resolution of everything still pending, flush
    /// it, and hand back the finished text. The consumer must have closed
    /// every group it opened. The result extends the text already
    /// committed, equals it when nothing was pending, and in full is the
    /// flattening of the session's recorded emissions plus the valid
    /// emissions of the final flush.
    pub fn finish(self) -> (out: String)
        requires
            self.wf(),
            open_groups(self@) == 0,
        ensures
            text_extends(self.out_view(), out@),
            self.immediate() ==> out@ == self.out_view(),
            exists|extra: Seq<Emission>|
                emissions_ok(self.emissions() + extra) && out@ == emitted_text(
                    #[trigger] (self.emissions() + extra),
                ),
    {
        let ghost pre = self;
        let mut e = self;
        if e.scan_stack.len() > 0 {
            e.check_stack();
            e.advance_left();
        }
        proof {
            let extra = e.emit_log@.skip(pre.emit_log@.len() as int);
            assert(pre.emit_log@ + extra =~= e.emit_log@);
            assert(emissions_ok(pre.emissions() + extra));
            assert(e.out@ == emitted_text(pre.emissions() + extra));
        }
        e.out
    }
}

/// Saturating value of `x` within the `i32` range.
pub open spec fn sat32(x: int) -> int {
    if x > i32::MAX {
        i32::MAX as int
    } else if x < i32::MIN {
        i32::MIN as int
    } else {
        x
    }
}

fn sat_add_i32(a: i32, b: i32) -> (r: i32)
    ensures
        r as int == sat32(a + b),
{
    if b >= 0 {
        if a > i32::MAX - b {
            i32::MAX
        } else {
            a + b
        }
    } else {
        if a < i32::MIN - b {
            i32::MIN
        } else {
            a + b
        }
    }
}

proof fn lemma_open_groups_update_break(s1: Seq<Instr>, s2: Seq<Instr>)
    requires
        s1.len() == s2.len(),
        s1.len() > 0,
        s1.last() is Break,
        s2.last() is Break,
        forall|i: int| 0 <= i < s1.len() - 1 ==> s1[i] == s2[i],
    ensures
        open_groups(s2) == open_groups(s1),
    decreases s1.len(),
{
    assert(s1.drop_last() =~= s2.drop_last());
}

} // verus!
