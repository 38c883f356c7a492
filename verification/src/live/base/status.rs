//! A sticky one-line status bar pinned to the bottom of the terminal.
//!
//! The watcher emits scrolling output through [`StatusLine::log`] (findings) and
//! [`StatusLine::note`] (diagnostics): the bar is erased, the message is printed above it, then
//! the bar is redrawn so it always sits on the last row. The bar shows how many sealed blocks were
//! processed and appends an animated spinner while an activity is in flight.
//!
//! Each method returns what is to be written; the caller writes it. Where the bar is disabled,
//! because there is no terminal, messages go out plainly and nothing else is written.
use crate::text::{decimal, decimal_text};
use vstd::prelude::*;
use vstd::string::StringExecFns;

verus! {

/// What the terminal is to be sent, and on which stream.
#[derive(Debug)]
pub enum Output {
    /// The bar's stream, where the text is written as it stands.
    Bar(String),
    /// A line on the findings' stream.
    Finding(String),
    /// A line on the diagnostics' stream.
    Diagnostic(String),
    /// Nothing.
    Quiet,
}

/// An [`Output`] by its contents.
pub enum OutputView {
    Bar(Seq<char>),
    Finding(Seq<char>),
    Diagnostic(Seq<char>),
    Quiet,
}

impl View for Output {
    type V = OutputView;

    open spec fn view(&self) -> OutputView {
        match self {
            Output::Bar(s) => OutputView::Bar(s@),
            Output::Finding(s) => OutputView::Finding(s@),
            Output::Diagnostic(s) => OutputView::Diagnostic(s@),
            Output::Quiet => OutputView::Quiet,
        }
    }
}

/// A status bar.
#[derive(Debug)]
pub struct StatusLine {
    pub blocks: u64,
    pub confirmed: u64,
    pub activity: Option<String>,
    pub frame: usize,
    /// The bar is on the screen.
    pub drawn: bool,
    /// There is a terminal to draw the bar on.
    pub enabled: bool,
}

/// To column 0, and erase the whole line.
pub open spec fn clear_text() -> Seq<char> {
    "\r\x1b[2K"@
}

/// The spinner's frames.
pub open spec fn frames() -> Seq<Seq<char>> {
    seq!["⠋"@, "⠙"@, "⠹"@, "⠸"@, "⠼"@, "⠴"@, "⠦"@, "⠧"@, "⠇"@, "⠏"@]
}

/// The count of confirmed arbs, where there are any.
pub open spec fn confirmed_text(n: u64) -> Seq<char> {
    if n > 0 {
        " | arbs "@ + decimal_text(n as int)
    } else {
        Seq::empty()
    }
}

/// The activity in flight behind the spinner, which is not dimmed, so that its motion is visible.
pub open spec fn activity_text(activity: Option<String>, frame: usize) -> Seq<char> {
    match activity {
        Some(what) => "\x1b[0m  "@ + frames()[frame as int % 10] + " "@ + what@ + "…\x1b[2m"@,
        None => Seq::empty(),
    }
}

/// The spinner's frame.
fn frame_text(frame: usize) -> (r: &'static str)
    ensures
        r@ == frames()[frame as int % 10],
{
    match frame % 10 {
        0 => "⠋",
        1 => "⠙",
        2 => "⠹",
        3 => "⠸",
        4 => "⠼",
        5 => "⠴",
        6 => "⠦",
        7 => "⠧",
        8 => "⠇",
        _ => "⠏",
    }
}

impl StatusLine {
    /// The bar: dim, so that it reads as chrome, not content.
    pub open spec fn bar(&self) -> Seq<char> {
        clear_text() + "\x1b[2mblocks "@ + decimal_text(self.blocks as int) + confirmed_text(
            self.confirmed,
        ) + activity_text(self.activity, self.frame) + "\x1b[0m"@
    }

    /// The bar is drawn anew, if it is enabled.
    pub open spec fn redrawn(before: StatusLine, after: StatusLine, out: OutputView) -> bool {
        &&& after.enabled == before.enabled
        &&& after.drawn == (before.drawn || before.enabled)
        &&& out == (if before.enabled {
            OutputView::Bar(after.bar())
        } else {
            OutputView::Quiet
        })
    }

    /// No blocks yet, and nothing drawn.
    pub fn new(enabled: bool) -> (r: StatusLine)
        ensures
            r.blocks == 0,
            r.confirmed == 0,
            r.activity is None,
            r.frame == 0,
            !r.drawn,
            r.enabled == enabled,
    {
        StatusLine { blocks: 0, confirmed: 0, activity: None, frame: 0, drawn: false, enabled }
    }

    /// Set the processed-block count and redraw the bar.
    pub fn set_blocks(&mut self, n: u64) -> (r: Output)
        ensures
            final(self).blocks == n,
            final(self).confirmed == old(self).confirmed,
            final(self).activity == old(self).activity,
            final(self).frame == old(self).frame,
            StatusLine::redrawn(*old(self), *final(self), r@),
    {
        self.blocks = n;
        self.redraw()
    }

    /// Set the confirmed-arb count and redraw the bar.
    pub fn set_confirmed(&mut self, n: u64) -> (r: Output)
        ensures
            final(self).blocks == old(self).blocks,
            final(self).confirmed == n,
            final(self).activity == old(self).activity,
            final(self).frame == old(self).frame,
            StatusLine::redrawn(*old(self), *final(self), r@),
    {
        self.confirmed = n;
        self.redraw()
    }

    /// Begin an activity (spinner shown). Pair with [`idle`](Self::idle).
    pub fn busy(&mut self, what: &str) -> (r: Output)
        ensures
            final(self).blocks == old(self).blocks,
            final(self).confirmed == old(self).confirmed,
            final(self).activity is Some,
            final(self).activity->0@ == what@,
            final(self).frame == old(self).frame,
            StatusLine::redrawn(*old(self), *final(self), r@),
    {
        self.activity = Some(what.to_owned());
        self.redraw()
    }

    /// End the current activity (spinner hidden).
    pub fn idle(&mut self) -> (r: Output)
        ensures
            final(self).blocks == old(self).blocks,
            final(self).confirmed == old(self).confirmed,
            final(self).activity is None,
            final(self).frame == old(self).frame,
            StatusLine::redrawn(*old(self), *final(self), r@),
    {
        self.activity = None;
        self.redraw()
    }

    /// Advance the spinner one frame. Nothing happens while idle or disabled.
    pub fn tick(&mut self) -> (r: Output)
        ensures
            final(self).blocks == old(self).blocks,
            final(self).confirmed == old(self).confirmed,
            final(self).activity == old(self).activity,
            if old(self).enabled && old(self).activity is Some {
                &&& final(self).frame == (old(self).frame + 1) % (usize::MAX + 1)
                &&& StatusLine::redrawn(*old(self), *final(self), r@)
            } else {
                *final(self) == *old(self) && r is Quiet
            },
    {
        if self.enabled && self.activity.is_some() {
            self.frame = self.frame.wrapping_add(1);
            self.redraw()
        } else {
            Output::Quiet
        }
    }

    /// Emit a findings line above the bar (on the findings' stream when disabled).
    pub fn log(&mut self, msg: &str) -> (r: Output)
        ensures
            final(self).same_but_drawn(*old(self)),
            r@ == (if old(self).enabled {
                OutputView::Bar(clear_text() + msg@ + "\n"@ + old(self).bar())
            } else {
                OutputView::Finding(msg@)
            }),
    {
        if !self.enabled {
            return Output::Finding(msg.to_owned());
        }
        self.emit(msg)
    }

    /// Emit a diagnostic line above the bar (on the diagnostics' stream when disabled).
    pub fn note(&mut self, msg: &str) -> (r: Output)
        ensures
            final(self).same_but_drawn(*old(self)),
            r@ == (if old(self).enabled {
                OutputView::Bar(clear_text() + msg@ + "\n"@ + old(self).bar())
            } else {
                OutputView::Diagnostic(msg@)
            }),
    {
        if !self.enabled {
            return Output::Diagnostic(msg.to_owned());
        }
        self.emit(msg)
    }

    /// Erase the bar (before the final summary).
    pub fn finish(&mut self) -> (r: Output)
        ensures
            final(self).blocks == old(self).blocks,
            final(self).confirmed == old(self).confirmed,
            final(self).activity == old(self).activity,
            final(self).frame == old(self).frame,
            final(self).enabled == old(self).enabled,
            final(self).drawn == (old(self).drawn && !old(self).enabled),
            r@ == (if old(self).enabled && old(self).drawn {
                OutputView::Bar(clear_text())
            } else {
                OutputView::Quiet
            }),
    {
        if self.enabled && self.drawn {
            self.drawn = false;
            Output::Bar("\r\x1b[2K".to_owned())
        } else {
            Output::Quiet
        }
    }

    /// Only whether the bar is drawn changes: it is afterwards, if it is enabled.
    pub open spec fn same_but_drawn(&self, before: StatusLine) -> bool {
        &&& self.blocks == before.blocks
        &&& self.confirmed == before.confirmed
        &&& self.activity == before.activity
        &&& self.frame == before.frame
        &&& self.enabled == before.enabled
        &&& self.drawn == (before.drawn || before.enabled)
    }

    /// Clear the bar, print the message on a line of its own, then redraw the bar. All on the
    /// bar's stream, so that cursor bookkeeping stays on one stream.
    fn emit(&mut self, msg: &str) -> (r: Output)
        requires
            old(self).enabled,
        ensures
            final(self).same_but_drawn(*old(self)),
            r@ == OutputView::Bar(clear_text() + msg@ + "\n"@ + old(self).bar()),
    {
        self.drawn = true;
        let bar = self.bar_text();
        Output::Bar("\r\x1b[2K".to_owned().concat(msg).concat("\n").concat(bar.as_str()))
    }

    fn redraw(&mut self) -> (r: Output)
        ensures
            final(self).blocks == old(self).blocks,
            final(self).confirmed == old(self).confirmed,
            final(self).activity == old(self).activity,
            final(self).frame == old(self).frame,
            StatusLine::redrawn(*old(self), *final(self), r@),
    {
        if !self.enabled {
            return Output::Quiet;
        }
        self.drawn = true;
        Output::Bar(self.bar_text())
    }

    /// The bar.
    fn bar_text(&self) -> (r: String)
        ensures
            r@ == self.bar(),
    {
        let count = decimal(self.blocks);
        let start = "\r\x1b[2K".to_owned().concat("\x1b[2mblocks ").concat(count.as_str());
        let confirmed = if self.confirmed > 0 {
            let n = decimal(self.confirmed);
            " | arbs ".to_owned().concat(n.as_str())
        } else {
            String::new()
        };
        let activity = match &self.activity {
            Some(what) => "\x1b[0m  ".to_owned().concat(frame_text(self.frame)).concat(
                " ",
            ).concat(what.as_str()).concat("…\x1b[2m"),
            None => String::new(),
        };
        start.concat(confirmed.as_str()).concat(activity.as_str()).concat("\x1b[0m")
    }
}

} // verus!
