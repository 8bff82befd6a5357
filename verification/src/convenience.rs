use vstd::prelude::*;

use crate::engine::{text_extends, Engine};
use crate::token::{open_groups, BeginToken, Break, BreakToken, Instr};

verus! {

/// A plain optional break: `n` blank columns when not taken.
pub open spec fn blank_break(n: u32) -> BreakToken {
    BreakToken { offset: 0, blank_space: n, pre_break: None, if_nonempty: false, never_break: false }
}

impl Engine {
    /// Open a group whose breaks are decided one by one ("horizontal" box),
    /// indenting its broken lines by `indent` extra columns.
    pub fn ibox(&mut self, indent: i32)
        requires
            old(self).wf(),
        ensures
            final(self).wf(),
            final(self)@ == old(self)@.push(
                Instr::Begin(BeginToken { offset: indent, breaks: Break::Inconsistent }),
            ),
            open_groups(final(self)@) == open_groups(old(self)@) + 1,
            final(self).indent_unit() == old(self).indent_unit(),
            final(self).margin() == old(self).margin(),
            final(self).out_view() == old(self).out_view(),
    {
        self.scan_begin(BeginToken { offset: indent, breaks: Break::Inconsistent });
    }

    /// Open a group whose breaks are decided all together ("vertical" box).
    pub fn cbox(&mut self, indent: i32)
        requires
            old(self).wf(),
        ensures
            final(self).wf(),
            final(self)@ == old(self)@.push(
                Instr::Begin(BeginToken { offset: indent, breaks: Break::Consistent }),
            ),
            open_groups(final(self)@) == open_groups(old(self)@) + 1,
            final(self).indent_unit() == old(self).indent_unit(),
            final(self).margin() == old(self).margin(),
            final(self).out_view() == old(self).out_view(),
    {
        self.scan_begin(BeginToken { offset: indent, breaks: Break::Consistent });
    }

    /// Close the innermost open group.
    pub fn end(&mut self)
        requires
            old(self).wf(),
            open_groups(old(self)@) >= 1,
        ensures
            final(self).wf(),
            final(self)@ == old(self)@.push(Instr::End),
            open_groups(final(self)@) == open_groups(old(self)@) - 1,
            final(self).indent_unit() == old(self).indent_unit(),
            final(self).margin() == old(self).margin(),
            final(self).out_view() == old(self).out_view(),
    {
        self.scan_end();
    }

    /// Emit literal text.
    pub fn word(&mut self, wrd: &str)
        requires
            old(self).wf(),
        ensures
            final(self).wf(),
            final(self)@ == old(self)@.push(Instr::Text(wrd@)),
            open_groups(final(self)@) == open_groups(old(self)@),
            final(self).indent_unit() == old(self).indent_unit(),
            final(self).margin() == old(self).margin(),
            text_extends(old(self).out_view(), final(self).out_view()),
            old(self).immediate() ==> final(self).immediate() && final(self).out_view() == old(
                self,
            ).out_view() + wrd@,
    {
        self.scan_string(wrd);
    }

    fn spaces(&mut self, n: u32)
        requires
            old(self).wf(),
        ensures
            final(self).wf(),
            final(self)@ == old(self)@.push(Instr::Break(blank_break(n))),
            open_groups(final(self)@) == open_groups(old(self)@),
            final(self).indent_unit() == old(self).indent_unit(),
            final(self).margin() == old(self).margin(),
            final(self).out_view() == old(self).out_view(),
    {
        self.scan_break(
            BreakToken {
                offset: 0,
                blank_space: n,
                pre_break: None,
                if_nonempty: false,
                never_break: false,
            },
        );
    }

    /// A zero-width optional break point.
    pub fn zerobreak(&mut self)
        requires
            old(self).wf(),
        ensures
            final(self).wf(),
            final(self)@ == old(self)@.push(Instr::Break(blank_break(0))),
            open_groups(final(self)@) == open_groups(old(self)@),
            final(self).indent_unit() == old(self).indent_unit(),
            final(self).margin() == old(self).margin(),
            final(self).out_view() == old(self).out_view(),
    {
        self.spaces(0);
    }

    /// A one-space optional break point.
    pub fn space(&mut self)
        requires
            old(self).wf(),
        ensures
            final(self).wf(),
            final(self)@ == old(self)@.push(Instr::Break(blank_break(1))),
            open_groups(final(self)@) == open_groups(old(self)@),
            final(self).indent_unit() == old(self).indent_unit(),
            final(self).margin() == old(self).margin(),
            final(self).out_view() == old(self).out_view(),
    {
        self.spaces(1);
    }

    /// A non-breaking space: literal text, never a break point.
    pub fn nbsp(&mut self)
        requires
            old(self).wf(),
        ensures
            final(self).wf(),
            final(self)@ == old(self)@.push(Instr::Text(" "@)),
            open_groups(final(self)@) == open_groups(old(self)@),
            final(self).indent_unit() == old(self).indent_unit(),
            final(self).margin() == old(self).margin(),
            text_extends(old(self).out_view(), final(self).out_view()),
            old(self).immediate() ==> final(self).immediate() && final(self).out_view() == old(
                self,
            ).out_view() + " "@,
    {
        self.word(" ");
    }

    /// A forced line break: its width is the infinite sentinel, which never
    /// fits, so it is always rendered as a newline.
    pub fn hardbreak(&mut self)
        requires
            old(self).wf(),
        ensures
            final(self).wf(),
            final(self)@ == old(self)@.push(Instr::Break(blank_break(0xffff))),
            open_groups(final(self)@) == open_groups(old(self)@),
            final(self).indent_unit() == old(self).indent_unit(),
            final(self).margin() == old(self).margin(),
            final(self).out_view() == old(self).out_view(),
    {
        self.spaces(0xffff);
    }

    /// A one-space break suppressed when its group produced no content.
    pub fn space_if_nonempty(&mut self)
        requires
            old(self).wf(),
        ensures
            final(self).wf(),
            final(self)@ == old(self)@.push(
                Instr::Break(BreakToken { if_nonempty: true, ..blank_break(1) }),
            ),
            open_groups(final(self)@) == open_groups(old(self)@),
            final(self).indent_unit() == old(self).indent_unit(),
            final(self).margin() == old(self).margin(),
            final(self).out_view() == old(self).out_view(),
    {
        self.scan_break(
            BreakToken {
                offset: 0,
                blank_space: 1,
                pre_break: None,
                if_nonempty: true,
                never_break: false,
            },
        );
    }

    /// A forced break suppressed when its group produced no content.
    pub fn hardbreak_if_nonempty(&mut self)
        requires
            old(self).wf(),
        ensures
            final(self).wf(),
            final(self)@ == old(self)@.push(
                Instr::Break(BreakToken { if_nonempty: true, ..blank_break(0xffff) }),
            ),
            open_groups(final(self)@) == open_groups(old(self)@),
            final(self).indent_unit() == old(self).indent_unit(),
            final(self).margin() == old(self).margin(),
            final(self).out_view() == old(self).out_view(),
    {
        self.scan_break(
            BreakToken {
                offset: 0,
                blank_space: 0xffff,
                pre_break: None,
                if_nonempty: true,
                never_break: false,
            },
        );
    }

    /// After the last element of a sequence: a zero-width break that becomes
    /// `,` before the newline when taken, and nothing otherwise. Before any
    /// other element: a literal comma and a one-space break.
    pub fn trailing_comma(&mut self, is_last: bool)
        requires
            old(self).wf(),
        ensures
            final(self).wf(),
            is_last ==> final(self)@ == old(self)@.push(
                Instr::Break(BreakToken { pre_break: Some(','), ..blank_break(0) }),
            ),
            !is_last ==> final(self)@ == old(self)@.push(Instr::Text(","@)).push(
                Instr::Break(blank_break(1)),
            ),
            open_groups(final(self)@) == open_groups(old(self)@),
            final(self).indent_unit() == old(self).indent_unit(),
            final(self).margin() == old(self).margin(),
            is_last ==> final(self).out_view() == old(self).out_view(),
            !is_last ==> text_extends(old(self).out_view(), final(self).out_view()),
    {
        if is_last {
            self.scan_break(
                BreakToken {
                    offset: 0,
                    blank_space: 0,
                    pre_break: Some(','),
                    if_nonempty: false,
                    never_break: false,
                },
            );
        } else {
            self.word(",");
            self.space();
        }
    }

    /// Like `trailing_comma`, but the last element's break keeps one blank
    /// space when not taken.
    pub fn trailing_comma_or_space(&mut self, is_last: bool)
        requires
            old(self).wf(),
        ensures
            final(self).wf(),
            is_last ==> final(self)@ == old(self)@.push(
                Instr::Break(BreakToken { pre_break: Some(','), ..blank_break(1) }),
            ),
            !is_last ==> final(self)@ == old(self)@.push(Instr::Text(","@)).push(
                Instr::Break(blank_break(1)),
            ),
            open_groups(final(self)@) == open_groups(old(self)@),
            final(self).indent_unit() == old(self).indent_unit(),
            final(self).margin() == old(self).margin(),
            is_last ==> final(self).out_view() == old(self).out_view(),
            !is_last ==> text_extends(old(self).out_view(), final(self).out_view()),
    {
        if is_last {
            self.scan_break(
                BreakToken {
                    offset: 0,
                    blank_space: 1,
                    pre_break: Some(','),
                    if_nonempty: false,
                    never_break: false,
                },
            );
        } else {
            self.word(",");
            self.space();
        }
    }

    /// A break point that may never be rendered as a newline, whatever the
    /// fit: it reserves a break column while forcing one-line layout.
    pub fn neverbreak(&mut self)
        requires
            old(self).wf(),
        ensures
            final(self).wf(),
            final(self)@ == old(self)@.push(
                Instr::Break(BreakToken { never_break: true, ..blank_break(0) }),
            ),
            open_groups(final(self)@) == open_groups(old(self)@),
            final(self).indent_unit() == old(self).indent_unit(),
            final(self).margin() == old(self).margin(),
            final(self).out_view() == old(self).out_view(),
    {
        self.scan_break(
            BreakToken {
                offset: 0,
                blank_space: 0,
                pre_break: None,
                if_nonempty: false,
                never_break: true,
            },
        );
    }
}

} // verus!
