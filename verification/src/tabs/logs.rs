//! The logs tab: the lines received from the engine and the scrolling position.
use vstd::prelude::*;
use crate::log_parser::LogLine;

verus! {

/// State of the logs tab. `auto_scroll` keeps the view stuck to the bottom as long as
/// the user has not scrolled up by hand; `offset` is the first line shown.
pub struct LogsState {
    logs: Vec<LogLine>,
    offset: usize,
    auto_scroll: bool,
    viewport_height: usize,
}

/// The offset that puts the last line at the bottom of a view of `height` lines.
pub open spec fn bottom_of(len: nat, height: nat) -> nat {
    if len > height {
        (len - height) as nat
    } else {
        0
    }
}

/// `b` is `a` with `line` appended, the view following the bottom when it did.
pub open spec fn pushed(a: LogsState, b: LogsState, line: LogLine) -> bool {
    &&& b.spec_lines() == a.spec_lines().push(line)
    &&& b.spec_auto_scroll() == a.spec_auto_scroll()
    &&& b.spec_viewport_height() == a.spec_viewport_height()
    &&& b.spec_offset() == (if a.spec_auto_scroll() {
        b.spec_bottom() as int
    } else {
        a.spec_offset() as int
    })
}

impl LogsState {
    pub closed spec fn spec_lines(&self) -> Seq<LogLine> {
        self.logs@
    }

    pub closed spec fn spec_offset(&self) -> usize {
        self.offset
    }

    pub closed spec fn spec_auto_scroll(&self) -> bool {
        self.auto_scroll
    }

    pub closed spec fn spec_viewport_height(&self) -> usize {
        self.viewport_height
    }

    /// The offset that shows the last line at the bottom.
    pub open spec fn spec_bottom(&self) -> nat {
        bottom_of(self.spec_lines().len(), self.spec_viewport_height() as nat)
    }

    /// The view is at least one line high, and follows the bottom while auto-scrolling.
    pub open spec fn wf(&self) -> bool {
        &&& self.spec_viewport_height() >= 1
        &&& self.spec_auto_scroll() ==> self.spec_offset() == self.spec_bottom()
    }

    /// No line yet, following the bottom, one line high until the first drawing.
    pub fn new() -> (r: LogsState)
        ensures
            r.wf(),
            r.spec_lines().len() == 0,
            r.spec_offset() == 0,
            r.spec_auto_scroll(),
            r.spec_viewport_height() == 1,
    {
        LogsState { logs: Vec::new(), offset: 0, auto_scroll: true, viewport_height: 1 }
    }

    /// The offset that puts the last line at the bottom of the view.
    pub fn bottom_offset(&self) -> (r: usize)
        ensures
            r == self.spec_bottom(),
    {
        if self.logs.len() > self.viewport_height {
            self.logs.len() - self.viewport_height
        } else {
            0
        }
    }

    /// Appends a line, and follows the bottom when auto-scrolling.
    pub fn push_line(&mut self, line: LogLine)
        requires
            old(self).wf(),
        ensures
            final(self).wf(),
            pushed(*old(self), *final(self), line),
    {
        self.logs.push(line);
        if self.auto_scroll {
            self.offset = self.bottom_offset();
        }
    }

    /// One line up; stops following the bottom.
    pub fn scroll_up(&mut self)
        requires
            old(self).wf(),
        ensures
            final(self).wf(),
            final(self).spec_lines() == old(self).spec_lines(),
            final(self).spec_viewport_height() == old(self).spec_viewport_height(),
            !final(self).spec_auto_scroll(),
            final(self).spec_offset() == (if old(self).spec_offset() > 0 {
                old(self).spec_offset() - 1
            } else {
                0
            }),
    {
        self.auto_scroll = false;
        if self.offset > 0 {
            self.offset = self.offset - 1;
        }
    }

    /// One line down, no further than the bottom; back at the bottom, follows it again.
    pub fn scroll_down(&mut self)
        requires
            old(self).wf(),
        ensures
            final(self).wf(),
            final(self).spec_lines() == old(self).spec_lines(),
            final(self).spec_viewport_height() == old(self).spec_viewport_height(),
            final(self).spec_offset() == (if old(self).spec_offset() + 1 < old(self).spec_bottom() {
                old(self).spec_offset() + 1
            } else {
                old(self).spec_bottom() as int
            }),
            final(self).spec_auto_scroll() == (old(self).spec_auto_scroll()
                || final(self).spec_offset() >= old(self).spec_bottom()),
    {
        let max = self.bottom_offset();
        let new = if self.offset < max {
            self.offset + 1
        } else {
            max
        };
        self.offset = new;
        if new >= max {
            self.auto_scroll = true;
        }
    }

    /// To the first line; stops following the bottom.
    pub fn go_to_top(&mut self)
        requires
            old(self).wf(),
        ensures
            final(self).wf(),
            final(self).spec_lines() == old(self).spec_lines(),
            final(self).spec_viewport_height() == old(self).spec_viewport_height(),
            !final(self).spec_auto_scroll(),
            final(self).spec_offset() == 0,
    {
        self.auto_scroll = false;
        self.offset = 0;
    }

    /// To the bottom, following it again.
    pub fn go_to_bottom(&mut self)
        requires
            old(self).wf(),
        ensures
            final(self).wf(),
            final(self).spec_lines() == old(self).spec_lines(),
            final(self).spec_viewport_height() == old(self).spec_viewport_height(),
            final(self).spec_auto_scroll(),
            final(self).spec_offset() == final(self).spec_bottom(),
    {
        self.auto_scroll = true;
        self.offset = self.bottom_offset();
    }

    /// Adapts the view to a drawing area `area_height` lines high (2 of them are the
    /// border), then sticks to the bottom again when auto-scrolling.
    pub fn set_area_height(&mut self, area_height: usize)
        requires
            old(self).wf(),
        ensures
            final(self).wf(),
            final(self).spec_lines() == old(self).spec_lines(),
            final(self).spec_auto_scroll() == old(self).spec_auto_scroll(),
            final(self).spec_viewport_height() == (if area_height > 3 {
                area_height - 2
            } else {
                1
            }),
            final(self).spec_offset() == (if old(self).spec_auto_scroll() {
                final(self).spec_bottom() as int
            } else {
                old(self).spec_offset() as int
            }),
    {
        self.viewport_height = if area_height > 3 {
            area_height - 2
        } else {
            1
        };
        if self.auto_scroll {
            self.offset = self.bottom_offset();
        }
    }

    /// The lines received.
    pub fn lines(&self) -> (r: &Vec<LogLine>)
        ensures
            r@ == self.spec_lines(),
    {
        &self.logs
    }

    /// The first line shown.
    pub fn offset(&self) -> (r: usize)
        ensures
            r == self.spec_offset(),
    {
        self.offset
    }

    /// Whether the view follows the bottom.
    pub fn auto_scroll(&self) -> (r: bool)
        ensures
            r == self.spec_auto_scroll(),
    {
        self.auto_scroll
    }
}

/// Scrolling up one line then down one line from a view that follows the bottom gives
/// the same view, following the bottom again.
pub proof fn law_scroll_up_down_at_bottom(a: LogsState, b: LogsState, c: LogsState)
    requires
        a.wf(),
        a.spec_auto_scroll(),
        b.spec_lines() == a.spec_lines(),
        b.spec_viewport_height() == a.spec_viewport_height(),
        !b.spec_auto_scroll(),
        b.spec_offset() == (if a.spec_offset() > 0 {
            a.spec_offset() - 1
        } else {
            0
        }),
        c.spec_lines() == b.spec_lines(),
        c.spec_viewport_height() == b.spec_viewport_height(),
        c.spec_offset() == (if b.spec_offset() + 1 < b.spec_bottom() {
            b.spec_offset() + 1
        } else {
            b.spec_bottom() as int
        }),
        c.spec_auto_scroll() == (b.spec_auto_scroll() || c.spec_offset() >= b.spec_bottom()),
    ensures
        c.spec_offset() == a.spec_offset(),
        c.spec_auto_scroll(),
{
}

} // verus!
