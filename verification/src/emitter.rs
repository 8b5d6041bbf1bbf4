//! The emitter loop's decision core.  The loop itself (print, sleep
//! one second, repeat) performs I/O and runs outside the library; this
//! module fixes what is printed in each state and that the header goes
//! out exactly once, first.

use vstd::prelude::*;
use crate::json::startup_line;
use crate::json::startup_line_text;
use crate::json::tick_line;
use crate::json::tick_line_text;
use crate::model::I3BarBlock;
use crate::model::I3BarHeader;

verus! {

/// The emitter's two states: before the header has gone out, and the
/// unbounded per-tick sampling loop.
pub enum EmitterState {
    Startup,
    Sampling,
}

/// One step of the emitter: the line to print now and the state to
/// continue in.  From `Startup` it frames the startup line; from
/// `Sampling`, one tick line.  Every successor state is `Sampling`,
/// so the startup line goes out exactly once, before any tick line.
pub fn emit_step(st: EmitterState, h: &I3BarHeader, blocks: &Vec<I3BarBlock>) -> (r: (
    String,
    EmitterState,
))
    ensures
        r.1 is Sampling,
        st is Startup ==> r.0@ == startup_line_text(*h),
        st is Sampling ==> r.0@ == tick_line_text(blocks@),
{
    match st {
        EmitterState::Startup => (startup_line(h), EmitterState::Sampling),
        EmitterState::Sampling => (tick_line(blocks), EmitterState::Sampling),
    }
}

/// Everything a run of the emitter prints, started at `Startup` and
/// fed the per-tick payloads `ticks`: the one startup line, then one
/// tick line per payload.
pub open spec fn run_output(h: I3BarHeader, ticks: Seq<Seq<I3BarBlock>>) -> Seq<Seq<char>> {
    seq![startup_line_text(h)] + ticks.map(|i: int, bs: Seq<I3BarBlock>| tick_line_text(bs))
}

/// The header is serialized exactly once per run, before any per-tick
/// array: line 0 is the startup line, every later line is the tick
/// line of its payload, and no later line is a startup line (a tick
/// line opens with `[`, a header line with `{`).
pub proof fn lemma_header_once(h: I3BarHeader, ticks: Seq<Seq<I3BarBlock>>)
    ensures
        run_output(h, ticks).len() == 1 + ticks.len(),
        run_output(h, ticks)[0] == startup_line_text(h),
        forall|i: int|
            1 <= i < run_output(h, ticks).len() ==> run_output(h, ticks)[i] == tick_line_text(
                ticks[i - 1],
            ),
        forall|i: int, h2: I3BarHeader|
            1 <= i < run_output(h, ticks).len() ==> run_output(h, ticks)[i]
                != startup_line_text(h2),
{
    assert forall|i: int, h2: I3BarHeader|
        1 <= i < run_output(h, ticks).len() implies run_output(h, ticks)[i] != startup_line_text(
        h2,
    ) by {
        reveal_strlit("{\"version\":");
        let line = run_output(h, ticks)[i];
        assert(line == tick_line_text(ticks[i - 1]));
        assert(line[0] == '[');
        assert(startup_line_text(h2)[0] == ("{\"version\":"@)[0]);
    }
}

} // verus!
