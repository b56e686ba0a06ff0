//! Wall-clock timing helpers for ad hoc benchmarking: a resettable timer
//! that reports elapsed time as a labelled line on standard output, and a
//! helper that times a repeated call.

use std::io::Write;
use std::time::Instant;
use vstd::prelude::*;

verus! {

#[verifier::external_type_specification]
#[verifier::external_body]
pub struct ExInstant(Instant);

/// Relies on `std::time::Instant::now`: a reading of the monotonic clock.
/// Nothing is promised of it; no two readings need agree.
#[verifier::external_body]
fn now() -> Instant {
    Instant::now()
}

/// Relies on `std::time::Instant::elapsed`: renders the wall-clock time
/// passed since `start`, followed by the note, as one report line. The text
/// depends on the clock, so nothing is promised of it.
#[verifier::external_body]
fn render_report(start: &Instant, note: &str) -> String {
    format!("{:>12?}  >  {}", start.elapsed(), note)
}

/// Relies on `std::io::stdout`: writes the line, and a line break, to
/// standard output, ignoring any write error.
#[verifier::external_body]
fn emit(line: &str) {
    let _ = writeln!(std::io::stdout(), "{}", line);
}

/// A wall-clock stopwatch counting from the instant it was made or last
/// reset.
#[derive(Clone, Copy)]
pub struct Timer {
    pub start: Instant,
}

impl Timer {
    /// Starts a timer at the current instant.
    pub fn new() -> Timer {
        Timer { start: now() }
    }

    /// Restarts the timer at the current instant.
    pub fn reset(&mut self) {
        self.start = now();
    }

    /// Prints the elapsed time and `note` as one line on standard output.
    pub fn report(&self, note: &str) {
        let line = render_report(&self.start, note);
        emit(line.as_str());
    }
}

impl Default for Timer {
    fn default() -> Timer {
        Timer::new()
    }
}

/// Calls `function` on each index below `iterations`, then prints the time
/// the calls took under the given label.
#[verifier::loop_isolation(false)]
pub fn bench<F: Fn(usize)>(function: F, label: &str, iterations: usize)
    requires
        forall|i: usize| i < iterations ==> call_requires(function, (i,)),
{
    let t = Timer::new();
    let mut i: usize = 0;
    while i < iterations
        invariant
            0 <= i <= iterations,
        decreases iterations - i,
    {
        function(i);
        i += 1;
    }
    t.report(label);
}

} // verus!
