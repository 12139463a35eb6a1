//! Progress reporting: which stage a run is at, and the line that reports it.

use vstd::prelude::*;

use crate::chars::{decimal, push_decimal, push_str};

verus! {

/// The width of the progress bar in characters.
pub const BAR_WIDTH: usize = 20;

/// How far a run has come: the stages done out of how many there are. The clock is kept by
/// the caller, which hands in the seconds elapsed.
#[derive(Debug, Clone, Copy)]
pub struct Progress {
    enabled: bool,
    total: usize,
    current: usize,
}

/// What a progress counter holds.
pub struct ProgressView {
    pub enabled: bool,
    pub total: usize,
    pub current: usize,
}

impl View for Progress {
    type V = ProgressView;

    closed spec fn view(&self) -> ProgressView {
        ProgressView { enabled: self.enabled, total: self.total, current: self.current }
    }
}

/// `c` repeated `n` times.
pub open spec fn repeat_char(c: char, n: nat) -> Seq<char> {
    Seq::new(n, |i: int| c)
}

/// The share of stages done, in percent, at most 100.
pub open spec fn done_percent(current: usize, total: usize) -> nat {
    let scaled = if current * 100 > usize::MAX { usize::MAX as nat } else { (current * 100) as nat };
    let done = if total == 0 { 0 } else { scaled / (total as nat) };
    if done > 100 { 100 } else { done }
}

/// The progress line for stage `name` as stage `current` of `total`, `elapsed` seconds in.
pub open spec fn progress_line(current: usize, total: usize, name: Seq<char>, stats: Seq<char>, elapsed: u64) -> Seq<
    char,
> {
    let done = done_percent(current, total);
    let filled = done * 20 / 100;
    let speed = if current > 0 { elapsed as nat / current as nat } else { 0 };
    "["@ + repeat_char('#', filled) + repeat_char('-', (20 - filled) as nat) + "] "@ + decimal(done) + "% done | "@
        + decimal((100 - done) as nat) + "% left | stage: "@ + name + " ("@ + decimal(current as nat) + " of "@
        + decimal(total as nat) + ") | elapsed: "@ + decimal(elapsed as nat) + "s | avg "@ + decimal(speed)
        + "s/stage"@ + if stats.len() == 0 { Seq::empty() } else { " | "@ + stats }
}

fn push_repeat(s: &mut String, c: char, n: usize)
    ensures
        final(s)@ == old(s)@ + repeat_char(c, n as nat),
{
    let mut i: usize = 0;
    while i < n
        invariant
            i <= n,
            s@ == old(s)@ + repeat_char(c, i as nat),
        decreases n - i,
    {
        s.push(c);
        i = i + 1;
        assert(s@ =~= old(s)@ + repeat_char(c, i as nat));
    }
}

impl Progress {
    /// A counter at stage 0 of 1.
    pub fn new(enabled: bool) -> (r: Self)
        ensures
            r@.enabled == enabled,
            r@.total == 1,
            r@.current == 0,
    {
        Progress { enabled, total: 1, current: 0 }
    }

    /// Sets the number of stages, at least 1; a disabled counter does not change.
    pub fn set_total(&mut self, total: usize)
        ensures
            final(self)@.enabled == old(self)@.enabled,
            final(self)@.current == old(self)@.current,
            final(self)@.total == if old(self)@.enabled {
                if total > 1 { total } else { 1 }
            } else {
                old(self)@.total
            },
    {
        if self.enabled {
            self.total = if total > 1 { total } else { 1 };
        }
    }

    /// Moves to the next stage and gives the line that reports it; a disabled counter does
    /// nothing and gives nothing.
    pub fn stage_stats(&mut self, name: &str, stats: &str, elapsed: u64) -> (r: Option<String>)
        ensures
            final(self)@.enabled == old(self)@.enabled,
            final(self)@.total == old(self)@.total,
            !old(self)@.enabled ==> final(self)@.current == old(self)@.current && r is None,
            old(self)@.enabled ==> {
                &&& final(self)@.current == if old(self)@.current == usize::MAX {
                    usize::MAX
                } else {
                    (old(self)@.current + 1) as usize
                }
                &&& r matches Some(line) && line@ == progress_line(
                    final(self)@.current,
                    final(self)@.total,
                    name@,
                    stats@,
                    elapsed,
                )
            },
    {
        if !self.enabled {
            return None;
        }
        self.current = self.current.saturating_add(1);
        let scaled: usize = if self.current > usize::MAX / 100 { usize::MAX } else { self.current * 100 };
        let quotient: usize = if self.total == 0 { 0 } else { scaled / self.total };
        let done: usize = if quotient > 100 { 100 } else { quotient };
        let filled: usize = done * BAR_WIDTH / 100;
        let speed: u64 = if self.current > 0 { elapsed / (self.current as u64) } else { 0 };
        let mut s = String::new();
        push_str(&mut s, "[");
        push_repeat(&mut s, '#', filled);
        push_repeat(&mut s, '-', BAR_WIDTH - filled);
        push_str(&mut s, "] ");
        push_decimal(&mut s, done as u64);
        push_str(&mut s, "% done | ");
        push_decimal(&mut s, (100 - done) as u64);
        push_str(&mut s, "% left | stage: ");
        push_str(&mut s, name);
        push_str(&mut s, " (");
        push_decimal(&mut s, self.current as u64);
        push_str(&mut s, " of ");
        push_decimal(&mut s, self.total as u64);
        push_str(&mut s, ") | elapsed: ");
        push_decimal(&mut s, elapsed);
        push_str(&mut s, "s | avg ");
        push_decimal(&mut s, speed);
        push_str(&mut s, "s/stage");
        if !stats.is_empty() {
            push_str(&mut s, " | ");
            push_str(&mut s, stats);
        }
        Some(s)
    }

    /// Moves to the next stage, with no statistics.
    pub fn stage(&mut self, name: &str, elapsed: u64) -> (r: Option<String>)
        ensures
            final(self)@.enabled == old(self)@.enabled,
            final(self)@.total == old(self)@.total,
            !old(self)@.enabled ==> final(self)@.current == old(self)@.current && r is None,
            old(self)@.enabled ==> {
                &&& final(self)@.current == if old(self)@.current == usize::MAX {
                    usize::MAX
                } else {
                    (old(self)@.current + 1) as usize
                }
                &&& r matches Some(line) && line@ == progress_line(
                    final(self)@.current,
                    final(self)@.total,
                    name@,
                    Seq::empty(),
                    elapsed,
                )
            },
    {
        proof {
            reveal_strlit("");
        }
        self.stage_stats(name, "", elapsed)
    }
}

} // verus!
