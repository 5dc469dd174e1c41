//! The demo bodies the crate ships: a greeting task, a song that is learned
//! and then sung, and a dance. Each body is a task that emits one marker when
//! it runs; the combinators compose them exactly as the demo drives them, and
//! the contracts pin down the order in which the markers reach the log.

use vstd::prelude::*;

use crate::compose::{is_interleaving, join, sequence};
use crate::task::Task;

verus! {

/// Marker the greeting task's body emits when it runs.
pub const MARK_HELLO_WORLD: u64 = 1;

/// Marker the learning task's body emits when it runs.
pub const MARK_LEARN_SONG: u64 = 2;

/// Marker the singing task's body emits when it runs.
pub const MARK_SING_SONG: u64 = 3;

/// Marker the dancing task's body emits when it runs.
pub const MARK_DANCE: u64 = 4;

/// An empty marker value, produced by the learning task and consumed by the
/// singing task purely to demonstrate feeding one task's result into the
/// construction of the next.
#[derive(Clone, Copy, PartialEq, Eq, Structural, Debug)]
pub struct Song {}

/// The greeting body as a task: inert until driven, and once driven it emits
/// its one marker and completes on that first step.
pub fn hello_world() -> (t: Task<()>)
    ensures
        t.wf(),
        t.is_created(),
        t.events() == seq![MARK_HELLO_WORLD],
        t.result() == (),
{
    let mut events: Vec<u64> = Vec::new();
    events.push(MARK_HELLO_WORLD);
    proof {
        assert(events@ =~= seq![MARK_HELLO_WORLD]);
    }
    Task::create(events, ())
}

/// Learning the song: a one-step body that yields the learned song as its
/// result.
pub fn learn_song() -> (t: Task<Song>)
    ensures
        t.wf(),
        t.is_created(),
        t.events() == seq![MARK_LEARN_SONG],
        t.result() == (Song {  }),
{
    let mut events: Vec<u64> = Vec::new();
    events.push(MARK_LEARN_SONG);
    proof {
        assert(events@ =~= seq![MARK_LEARN_SONG]);
    }
    Task::create(events, Song {  })
}

/// Singing a song that was learned before: the song is consumed when the
/// task is built, and the one-step body emits its marker when driven.
pub fn sing_song(song: Song) -> (t: Task<()>)
    ensures
        t.wf(),
        t.is_created(),
        t.events() == seq![MARK_SING_SONG],
        t.result() == (),
{
    let _ = song;
    let mut events: Vec<u64> = Vec::new();
    events.push(MARK_SING_SONG);
    proof {
        assert(events@ =~= seq![MARK_SING_SONG]);
    }
    Task::create(events, ())
}

/// Dancing: an independent one-step body with nothing to pass on.
pub fn dance() -> (t: Task<()>)
    ensures
        t.wf(),
        t.is_created(),
        t.events() == seq![MARK_DANCE],
        t.result() == (),
{
    let mut events: Vec<u64> = Vec::new();
    events.push(MARK_DANCE);
    proof {
        assert(events@ =~= seq![MARK_DANCE]);
    }
    Task::create(events, ())
}

/// The sequential half of the demo: learn the song, then sing exactly the
/// song that was learned. The singing body is constructed from the learning
/// body's result and starts strictly after it: the log grows by the learning
/// marker and then the singing marker, in that order.
pub fn learn_and_sing(log: &mut Vec<u64>)
    ensures
        final(log)@ == old(log)@ + seq![MARK_LEARN_SONG, MARK_SING_SONG],
{
    let first = learn_song();
    let ghost first_events = first.events();
    let ghost first_result = first.result();
    let r = sequence(log, first, sing_song);
    proof {
        let second = choose|second: Task<()>|
            (#[trigger] call_ensures(sing_song, (first_result,), second) && r == second.result()
                && log@ == old(log)@ + first_events + second.events());
        assert(old(log)@ + seq![MARK_LEARN_SONG] + seq![MARK_SING_SONG] =~= old(log)@ + seq![
            MARK_LEARN_SONG,
            MARK_SING_SONG,
        ]);
    }
}

/// The concurrent half of the demo: the two-step learn-then-sing body as one
/// unit of work, advanced together with the dance body until both complete.
/// The log grows by some merge of the two bodies' markers: all three markers
/// arrive, and the learning marker stays before the singing marker.
pub fn async_main(log: &mut Vec<u64>)
    ensures
        final(log)@.len() == old(log)@.len() + 3,
        final(log)@.take(old(log)@.len() as int) == old(log)@,
        is_interleaving(
            final(log)@.skip(old(log)@.len() as int),
            seq![MARK_LEARN_SONG, MARK_SING_SONG],
            seq![MARK_DANCE],
        ),
{
    let mut steps: Vec<u64> = Vec::new();
    steps.push(MARK_LEARN_SONG);
    steps.push(MARK_SING_SONG);
    proof {
        assert(steps@ =~= seq![MARK_LEARN_SONG, MARK_SING_SONG]);
    }
    let f1: Task<()> = Task::create(steps, ());
    let f2 = dance();
    join(log, f1, f2);
}

} // verus!
