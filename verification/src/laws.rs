use vstd::prelude::*;

use crate::engine::{
    break_fits, decision_ok, emission_text, emissions_ok, emitted_text, Emission, Engine,
    PrintFrame,
};
use crate::token::{Break, BreakToken, SIZE_INFINITY};

verus! {

/// The break style a print-context carries.
pub open spec fn frame_style(f: PrintFrame) -> Break {
    match f {
        PrintFrame::Fits(b) => b,
        PrintFrame::Broken(_, b) => b,
    }
}

/// Consistent groups break all-or-nothing: two break points committed under
/// the same consistent print-context are either both rendered as blank space
/// or both as newlines, whatever their sizes. (All break points directly in
/// one group are committed under the one context pushed when the group was
/// committed, so if any one of them is taken because the content does not
/// fit, every one of them is.) Breaks marked never-break are exempt: they
/// are never taken at all.
pub proof fn lemma_consistent_all_or_nothing(
    top: PrintFrame,
    b1: BreakToken,
    b2: BreakToken,
    s1: int,
    s2: int,
    space: int,
)
    requires
        frame_style(top) == Break::Consistent,
        !b1.never_break,
        !b2.never_break,
    ensures
        break_fits(top, b1, s1, space) == break_fits(top, b2, s2, space),
{
}

/// A break configured never-break always fits, so it is never rendered as a
/// newline, in any print-context and whatever the remaining space: committing
/// a fitting break appends no character to the output.
pub proof fn lemma_never_break_not_taken(top: PrintFrame, b: BreakToken, size: int, space: int)
    requires
        b.never_break,
    ensures
        break_fits(top, b, size, space),
{
}

/// In a broken inconsistent group each break point is decided on its own:
/// a decision not marked never-break is rendered as blank space exactly
/// when its resolved size fits the space remaining on the line at its
/// commitment, so a non-uniform outcome across one group is permitted.
pub proof fn lemma_inconsistent_break_independent(
    top: PrintFrame,
    b: BreakToken,
    size: int,
    space: int,
)
    requires
        top is Broken,
        frame_style(top) == Break::Inconsistent,
        !b.never_break,
    ensures
        break_fits(top, b, size, space) == (size <= space),
{
}

/// A break whose resolved size carries the infinite sentinel never fits in a
/// broken context whose remaining space is below the sentinel: a hard break
/// is always taken, unless never-break overrides it.
pub proof fn lemma_hard_break_taken(top: PrintFrame, b: BreakToken, size: int, space: int)
    requires
        !b.never_break,
        top is Broken,
        size >= SIZE_INFINITY,
        space < SIZE_INFINITY,
    ensures
        !break_fits(top, b, size, space),
{
}

/// The never-break property over a whole session: among all writes a
/// well-formed engine has made to its sink, every break decision whose
/// token is marked never-break fit, and so wrote no characters — it was
/// never rendered as a newline, whatever else the session did.
pub proof fn lemma_session_never_break(e: &Engine)
    requires
        e.wf(),
    ensures
        forall|i: int|
            0 <= i < e.emissions().len() ==> match #[trigger] e.emissions()[i] {
                Emission::Break(d) => d.token.never_break ==> d.fits && d.emitted
                    == Seq::<char>::empty(),
                Emission::Text(_, _) => true,
            },
{
    e.lemma_out_is_emitted();
    assert forall|i: int| 0 <= i < e.emissions().len() implies match #[trigger] e.emissions()[i] {
        Emission::Break(d) => d.token.never_break ==> d.fits && d.emitted
            == Seq::<char>::empty(),
        Emission::Text(_, _) => true,
    } by {
        assert(emissions_ok(e.emissions()));
        match e.emissions()[i] {
            Emission::Break(d) => {
                assert(decision_ok(d));
            },
            Emission::Text(_, _) => {},
        }
    }
}

/// Consistent all-or-nothing over a whole session: two break decisions
/// committed under the same consistent print-context, neither token marked
/// never-break, agree — either both were rendered as blank space or both
/// wrote a newline. All break points directly in one group are committed
/// under the context pushed when the group was committed, so if any one of
/// them is taken, every one of them is.
pub proof fn lemma_session_consistent_uniform(e: &Engine, i: int, j: int, di: crate::engine::BreakDecision, dj: crate::engine::BreakDecision)
    requires
        e.wf(),
        0 <= i < e.emissions().len(),
        0 <= j < e.emissions().len(),
        e.emissions()[i] == Emission::Break(di),
        e.emissions()[j] == Emission::Break(dj),
        di.top == dj.top,
        frame_style(di.top) == Break::Consistent,
        !di.token.never_break,
        !dj.token.never_break,
    ensures
        di.fits == dj.fits,
{
    e.lemma_out_is_emitted();
    assert(emissions_ok(e.emissions()));
    assert(decision_ok(di));
    assert(decision_ok(dj));
}

/// A character of the text a sequence of emissions wrote lies inside one of
/// the emissions.
pub proof fn lemma_emitted_char_source(es: Seq<Emission>, k: int)
    requires
        0 <= k < emitted_text(es).len(),
    ensures
        exists|i: int|
            0 <= i < es.len() && emission_text(#[trigger] es[i]).contains(emitted_text(es)[k]),
    decreases es.len(),
{
    if es.len() > 0 {
        let head = emitted_text(es.drop_last());
        let tail = emission_text(es.last());
        if k < head.len() {
            lemma_emitted_char_source(es.drop_last(), k);
            let i = choose|i: int|
                0 <= i < es.drop_last().len() && emission_text(
                    #[trigger] es.drop_last()[i],
                ).contains(emitted_text(es.drop_last())[k]);
            assert(es[i] == es.drop_last()[i]);
            assert(emission_text(es[i]).contains(emitted_text(es)[k]));
        } else {
            assert(tail[k - head.len()] == emitted_text(es)[k]);
            assert(emission_text(es[es.len() - 1]).contains(emitted_text(es)[k]));
        }
    }
}

/// Every newline in a well-formed session's sink was written either by a
/// taken break decision or inside a scanned text that itself contained a
/// newline; in particular a never-break break point contributes none.
pub proof fn lemma_session_newline_source(e: &Engine, k: int)
    requires
        e.wf(),
        0 <= k < e.out_view().len(),
        e.out_view()[k] == '\n',
    ensures
        exists|i: int|
            0 <= i < e.emissions().len() && match #[trigger] e.emissions()[i] {
                Emission::Break(d) => !d.fits && !d.token.never_break,
                Emission::Text(_, s) => s.contains('\n'),
            },
{
    e.lemma_out_is_emitted();
    lemma_emitted_char_source(e.emissions(), k);
    let i = choose|i: int|
        0 <= i < e.emissions().len() && emission_text(#[trigger] e.emissions()[i]).contains(
            e.out_view()[k],
        );
    assert(emissions_ok(e.emissions()));
    match e.emissions()[i] {
        Emission::Break(d) => {
            assert(decision_ok(d));
            if d.fits {
                assert(d.emitted.len() == 0);
                assert(false);
            }
            assert(!d.token.never_break);
            assert(match e.emissions()[i] {
                Emission::Break(d2) => !d2.fits && !d2.token.never_break,
                Emission::Text(_, s2) => s2.contains('\n'),
            });
        },
        Emission::Text(pending, s) => {
            let txt = emission_text(e.emissions()[i]);
            let p = choose|p: int| 0 <= p < txt.len() && txt[p] == '\n';
            let blanks: int = if pending >= 0 {
                pending
            } else {
                0
            };
            if p < blanks {
                assert(txt[p] == ' ');
                assert(false);
            }
            assert(s[p - blanks] == '\n');
            assert(s.contains('\n'));
            assert(match e.emissions()[i] {
                Emission::Break(d2) => !d2.fits && !d2.token.never_break,
                Emission::Text(_, s2) => s2.contains('\n'),
            });
        },
    }
}

} // verus!
