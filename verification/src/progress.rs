//! The progress bar: what to draw, and when, as the tasks get done.
//!
//! The tracker holds no clock and prints nothing. Whoever drives it reads
//! the number of finished tasks and the seconds that have passed, asks for
//! the next step, prints what the step holds and waits before the next one.

use crate::output::{time_display, time_display_text};
use crate::text::{decimal, push_decimal, repeated};
use vstd::prelude::*;
use vstd::string::StringExecFns;

verus! {

/// The width of the bar, in cells.
pub const BAR_CELLS: usize = 30;

/// After this many steps without a drawing the bar is drawn again.
pub const TICK_OUT_FREQ: u8 = 8;

/// The time to wait between two steps, in milliseconds.
pub const SLEEP_MILLIS: u64 = 500;

/// The filled cells of the bar once `tasks_done` of `num_tasks` tasks are
/// done, for a bar that had `complete` filled cells: the bar never shrinks,
/// and it is made to reach the share of the tasks that are done.
pub open spec fn filled_cells(complete: int, tasks_done: int, num_tasks: int) -> int {
    if num_tasks == 0 {
        complete
    } else {
        let reached = (BAR_CELLS * tasks_done + num_tasks - 1) / num_tasks;
        if reached > complete {
            reached
        } else {
            complete
        }
    }
}

/// The seconds that the rest of the tasks will take if they go on as the
/// finished ones did: the time that has passed, times the tasks that are
/// left, by the finished tasks and a fifth, rounded down.
pub open spec fn eta_secs(elapsed: int, tasks_done: int, num_tasks: int) -> int {
    (5 * elapsed * (num_tasks - tasks_done)) / (5 * tasks_done + 1)
}

/// The bar between its brackets: the filled cells, then the empty ones.
pub open spec fn bar_text(complete: int) -> Seq<char> {
    seq!['['] + repeated(seq!['#'], complete as nat) + repeated(
        seq![' '],
        (BAR_CELLS - complete) as nat,
    ) + seq![']', ' ']
}

/// The count of the finished tasks: `done/all tasks done.`
pub open spec fn count_text(tasks_done: int, num_tasks: int) -> Seq<char> {
    decimal(tasks_done as nat) + seq!['/'] + decimal(num_tasks as nat) + " tasks done."@
}

/// The line that shows the bar while the work goes on. It begins with a
/// carriage return, and blanks at its end wipe out what a longer line left.
pub open spec fn status_text(complete: int, tasks_done: int, num_tasks: int, elapsed: int) -> Seq<
    char,
> {
    seq!['\r'] + bar_text(complete) + count_text(tasks_done, num_tasks) + " ETA "@
        + time_display_text(eta_secs(elapsed, tasks_done, num_tasks) as nat) + repeated(
        seq![' '],
        21,
    )
}

/// The line that shows the bar when all tasks are done. It ends the line.
pub open spec fn closing_text(complete: int, tasks_done: int, num_tasks: int) -> Seq<char> {
    seq!['\r'] + bar_text(complete) + count_text(tasks_done, num_tasks) + repeated(seq![' '], 28)
        + seq!['\n']
}

/// What the tracker keeps between two steps.
#[derive(Debug, Clone, Copy, PartialEq, Eq, Structural)]
pub struct ProgressTracker {
    /// The filled cells of the bar.
    pub complete: usize,
    /// The steps since the bar was drawn last.
    pub tick_modulo: u8,
    /// Whether the bar is to be drawn at the next step whatever happens.
    pub redraw: bool,
}

/// What to do after a step.
#[derive(Debug)]
pub struct ProgressStep {
    /// The line to print and flush now, where the bar is drawn at this step.
    pub status: Option<String>,
    /// The last line to print, where all tasks are done. With it the
    /// tracking ends; without it the next step follows after a wait.
    pub closing: Option<String>,
}

impl ProgressTracker {
    /// The bar is no wider than it can be, and a drawing is not overdue.
    pub open spec fn wf(&self) -> bool {
        self.complete <= BAR_CELLS && self.tick_modulo < TICK_OUT_FREQ
    }

    /// Whether the bar is drawn at a step that finds `tasks_done` of
    /// `num_tasks` tasks done: at the first step, whenever a cell is filled,
    /// and at the latest at the eighth step after a drawing.
    pub open spec fn draws(&self, tasks_done: int, num_tasks: int) -> bool {
        self.redraw || filled_cells(self.complete as int, tasks_done, num_tasks) > self.complete
            || self.tick_modulo + 1 == TICK_OUT_FREQ
    }

    /// The tracker after a step that finds `tasks_done` of `num_tasks` tasks
    /// done.
    pub open spec fn stepped(&self, tasks_done: int, num_tasks: int) -> ProgressTracker {
        ProgressTracker {
            complete: filled_cells(self.complete as int, tasks_done, num_tasks) as usize,
            tick_modulo: if self.draws(tasks_done, num_tasks) {
                0u8
            } else {
                (self.tick_modulo + 1) as u8
            },
            redraw: false,
        }
    }

    /// A tracker before its first step: an empty bar that is to be drawn.
    pub fn new() -> (tracker: ProgressTracker)
        ensures
            tracker == (ProgressTracker { complete: 0, tick_modulo: 0, redraw: true }),
            tracker.wf(),
    {
        ProgressTracker { complete: 0, tick_modulo: 0, redraw: true }
    }

    /// One step of the tracking, with the number of finished tasks and the
    /// whole seconds that have passed since the tracking began.
    ///
    /// The bar grows to the share of the finished tasks. It is drawn where
    /// `draws` says so, and the closing line is given as soon as all tasks
    /// are done.
    pub fn tick(&mut self, tasks_done: usize, num_tasks: usize, elapsed: u64) -> (step:
        ProgressStep)
        requires
            old(self).wf(),
            tasks_done <= num_tasks,
        ensures
            final(self).wf(),
            *final(self) == old(self).stepped(tasks_done as int, num_tasks as int),
            step.status is Some <==> old(self).draws(tasks_done as int, num_tasks as int),
            step.status matches Some(line) ==> line@ == status_text(
                final(self).complete as int,
                tasks_done as int,
                num_tasks as int,
                elapsed as int,
            ),
            step.closing is Some <==> tasks_done >= num_tasks,
            step.closing matches Some(line) ==> line@ == closing_text(
                final(self).complete as int,
                tasks_done as int,
                num_tasks as int,
            ),
    {
        let ghost target = filled_cells(old(self).complete as int, tasks_done as int, num_tasks as int);
        proof {
            lemma_filled_cells(old(self).complete as int, tasks_done as int, num_tasks as int);
        }
        let mut advanced = false;
        while bar_lags(self.complete, tasks_done, num_tasks)
            invariant
                old(self).complete <= self.complete <= target <= BAR_CELLS,
                advanced == (self.complete > old(self).complete),
                self.tick_modulo == old(self).tick_modulo,
                self.redraw == old(self).redraw,
                tasks_done <= num_tasks,
                target == filled_cells(
                    old(self).complete as int,
                    tasks_done as int,
                    num_tasks as int,
                ),
                num_tasks > 0 ==> BAR_CELLS * tasks_done <= target * num_tasks,
            decreases BAR_CELLS - self.complete,
        {
            proof {
                assert(self.complete < target) by (nonlinear_arith)
                    requires
                        self.complete <= target,
                        30 * tasks_done <= target * num_tasks,
                        30 * tasks_done > self.complete * num_tasks,
                ;
            }
            advanced = true;
            self.complete += 1;
        }
        proof {
            lemma_filled_cells_least(
                old(self).complete as int,
                tasks_done as int,
                num_tasks as int,
                self.complete as int,
            );
        }
        let draw = self.redraw || advanced || self.tick_modulo + 1 == TICK_OUT_FREQ;
        let status = if draw {
            self.tick_modulo = 0;
            Some(status_line(self.complete, tasks_done, num_tasks, elapsed))
        } else {
            self.tick_modulo += 1;
            None
        };
        self.redraw = false;
        let closing = if tasks_done >= num_tasks {
            Some(closing_line(self.complete, tasks_done, num_tasks))
        } else {
            None
        };
        ProgressStep { status, closing }
    }
}

/// Whether a bar of `complete` filled cells falls short of the share of the
/// finished tasks.
fn bar_lags(complete: usize, tasks_done: usize, num_tasks: usize) -> (lags: bool)
    requires
        complete <= BAR_CELLS,
    ensures
        lags == (30 * tasks_done > complete * num_tasks),
{
    proof {
        assert(tasks_done * 30 <= 0xffff_ffff_ffff_ffff * 30) by (nonlinear_arith)
            requires
                tasks_done <= 0xffff_ffff_ffff_ffff,
        ;
        assert(0 <= complete * num_tasks <= 30 * 0xffff_ffff_ffff_ffff) by (nonlinear_arith)
            requires
                0 <= complete <= 30,
                0 <= num_tasks <= 0xffff_ffff_ffff_ffff,
        ;
    }
    (tasks_done as u128) * 30 > (complete as u128) * (num_tasks as u128)
}

/// The filled cells never shrink, never pass the width of the bar while no
/// more tasks are done than there are, and are the fewest that reach the
/// share of the finished tasks.
pub proof fn lemma_filled_cells(complete: int, tasks_done: int, num_tasks: int)
    requires
        0 <= complete <= BAR_CELLS,
        0 <= tasks_done <= num_tasks,
    ensures
        complete <= filled_cells(complete, tasks_done, num_tasks) <= BAR_CELLS,
        num_tasks > 0 ==> BAR_CELLS * tasks_done <= filled_cells(complete, tasks_done, num_tasks)
            * num_tasks,
{
    if num_tasks > 0 {
        let reached = (BAR_CELLS * tasks_done + num_tasks - 1) / num_tasks;
        assert(0 <= reached <= 30 && 30 * tasks_done <= reached * num_tasks) by (nonlinear_arith)
            requires
                reached == (30 * tasks_done + num_tasks - 1) / num_tasks,
                0 <= tasks_done <= num_tasks,
                num_tasks > 0,
        ;
        let filled = filled_cells(complete, tasks_done, num_tasks);
        assert(reached * num_tasks <= filled * num_tasks) by (nonlinear_arith)
            requires
                reached <= filled,
                num_tasks > 0,
        ;
    }
}

/// A bar of `cells` cells that is no shorter than before and reaches the
/// share of the finished tasks is no shorter than the filled cells.
pub proof fn lemma_filled_cells_least(complete: int, tasks_done: int, num_tasks: int, cells: int)
    requires
        0 <= complete <= cells,
        0 <= tasks_done,
        0 <= num_tasks,
        BAR_CELLS * tasks_done <= cells * num_tasks,
    ensures
        filled_cells(complete, tasks_done, num_tasks) <= cells,
{
    if num_tasks > 0 {
        let reached = (BAR_CELLS * tasks_done + num_tasks - 1) / num_tasks;
        assert(reached <= cells) by (nonlinear_arith)
            requires
                reached == (30 * tasks_done + num_tasks - 1) / num_tasks,
                30 * tasks_done <= cells * num_tasks,
                num_tasks > 0,
                0 <= cells,
                0 <= tasks_done,
        ;
    }
}

/// Adds the bar between its brackets to the text.
fn push_bar(text: &mut String, complete: usize)
    requires
        complete <= BAR_CELLS,
    ensures
        final(text)@ == old(text)@ + bar_text(complete as int),
{
    text.push('[');
    let ghost before = text@;
    let mut i: usize = 0;
    while i < complete
        invariant
            0 <= i <= complete,
            text@ == before + repeated(seq!['#'], i as nat),
        decreases complete - i,
    {
        text.push('#');
        i += 1;
    }
    let ghost filled = text@;
    let mut i: usize = complete;
    while i < BAR_CELLS
        invariant
            complete <= i <= BAR_CELLS,
            text@ == filled + repeated(seq![' '], (i - complete) as nat),
        decreases BAR_CELLS - i,
    {
        text.push(' ');
        i += 1;
    }
    text.push(']');
    text.push(' ');
}

/// Adds blanks to the text.
fn push_blanks(text: &mut String, count: usize)
    ensures
        final(text)@ == old(text)@ + repeated(seq![' '], count as nat),
{
    let mut i: usize = 0;
    while i < count
        invariant
            0 <= i <= count,
            text@ == old(text)@ + repeated(seq![' '], i as nat),
        decreases count - i,
    {
        text.push(' ');
        i += 1;
    }
}

/// Adds the count of the finished tasks to the text.
fn push_count(text: &mut String, tasks_done: usize, num_tasks: usize)
    ensures
        final(text)@ == old(text)@ + count_text(tasks_done as int, num_tasks as int),
{
    push_decimal(text, tasks_done as u64);
    text.push('/');
    push_decimal(text, num_tasks as u64);
    text.append(" tasks done.");
}

/// The text for the time that the rest of the tasks will take.
fn eta_display(elapsed: u64, tasks_done: usize, num_tasks: usize) -> (text: String)
    requires
        tasks_done <= num_tasks,
    ensures
        text@ == time_display_text(
            eta_secs(elapsed as int, tasks_done as int, num_tasks as int) as nat,
        ),
{
    let left: u128 = (num_tasks - tasks_done) as u128;
    let per: u128 = 5 * (tasks_done as u128) + 1;
    proof {
        assert(elapsed * (num_tasks - tasks_done) <= 0xffff_ffff_ffff_ffff * 0xffff_ffff_ffff_ffff)
            by (nonlinear_arith)
            requires
                0 <= elapsed <= 0xffff_ffff_ffff_ffff,
                0 <= num_tasks - tasks_done <= 0xffff_ffff_ffff_ffff,
        ;
    }
    let work: u128 = (elapsed as u128) * left;
    if work > 0x1_0000_0000_0000_0000_0000_0000 {
        proof {
            let eta = eta_secs(elapsed as int, tasks_done as int, num_tasks as int);
            assert(5 * elapsed * (num_tasks - tasks_done) == 5 * work) by (nonlinear_arith)
                requires
                    work == elapsed * (num_tasks - tasks_done),
            ;
            assert(eta >= 60 * 60 * 24 * 365 * 5) by (nonlinear_arith)
                requires
                    eta == (5 * work) / (per as int),
                    work > 0x1_0000_0000_0000_0000_0000_0000,
                    0 < per <= 5 * 0xffff_ffff_ffff_ffff + 1,
            ;
        }
        return String::from_str("eternity");
    }
    let eta: u128 = 5 * work / per;
    proof {
        assert(5 * elapsed * (num_tasks - tasks_done) == 5 * work) by (nonlinear_arith)
            requires
                work == elapsed * (num_tasks - tasks_done),
        ;
    }
    if eta >= 60 * 60 * 24 * 365 * 5 {
        String::from_str("eternity")
    } else {
        time_display(eta as u64)
    }
}

/// The line that shows the bar while the work goes on.
fn status_line(complete: usize, tasks_done: usize, num_tasks: usize, elapsed: u64) -> (line:
    String)
    requires
        complete <= BAR_CELLS,
        tasks_done <= num_tasks,
    ensures
        line@ == status_text(
            complete as int,
            tasks_done as int,
            num_tasks as int,
            elapsed as int,
        ),
{
    let mut line = String::new();
    line.push('\r');
    push_bar(&mut line, complete);
    push_count(&mut line, tasks_done, num_tasks);
    line.append(" ETA ");
    let eta = eta_display(elapsed, tasks_done, num_tasks);
    line.append(eta.as_str());
    push_blanks(&mut line, 21);
    assert(line@ =~= status_text(
        complete as int,
        tasks_done as int,
        num_tasks as int,
        elapsed as int,
    ));
    line
}

/// The line that shows the bar when all tasks are done.
fn closing_line(complete: usize, tasks_done: usize, num_tasks: usize) -> (line: String)
    requires
        complete <= BAR_CELLS,
    ensures
        line@ == closing_text(complete as int, tasks_done as int, num_tasks as int),
{
    let mut line = String::new();
    line.push('\r');
    push_bar(&mut line, complete);
    push_count(&mut line, tasks_done, num_tasks);
    push_blanks(&mut line, 28);
    line.push('\n');
    line
}

} // verus!
