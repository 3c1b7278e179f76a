//! Keys, intervals and the end of a run.

use crate::metrics::Metrics;
use vstd::prelude::*;

verus! {

/// The shortest interval between samples, in milliseconds.
pub const MIN_INTERVAL: u32 = 100;

/// The longest interval that the dashboard starts with, in milliseconds.
pub const MAX_INTERVAL: u32 = 10_000;

/// A key that was pressed.
#[derive(Clone, Copy, Debug, PartialEq, Eq, Structural)]
pub enum Key {
    /// A character; `control` says that the control key, and no other modifier, was held.
    Char { c: char, control: bool },
    /// Any other key.
    Other,
}

/// What the dashboard reacts to.
#[derive(Clone, Copy, Debug)]
pub enum Event {
    Update(Metrics),
    ChangeColor,
    ChangeView,
    IncInterval,
    DecInterval,
    Tick,
    Quit,
}

/// What a key asks for.
pub open spec fn key_event(key: Key) -> Option<Event> {
    match key {
        Key::Other => None,
        Key::Char { c, control } => if c == 'q' || (c == 'c' && control) {
            Some(Event::Quit)
        } else if c == 'c' {
            Some(Event::ChangeColor)
        } else if c == 'v' {
            Some(Event::ChangeView)
        } else if c == '+' || c == '=' {
            Some(Event::IncInterval)
        } else if c == '-' {
            Some(Event::DecInterval)
        } else {
            None
        },
    }
}

/// What a key asks for. `=` stands for `+` where shift was not held.
pub fn handle_key_event(key: Key) -> (r: Option<Event>)
    ensures
        r == key_event(key),
{
    match key {
        Key::Other => None,
        Key::Char { c, control } => {
            if c == 'q' {
                return Some(Event::Quit);
            }
            if c == 'c' && control {
                return Some(Event::Quit);
            }
            if c == 'c' {
                return Some(Event::ChangeColor);
            }
            if c == 'v' {
                return Some(Event::ChangeView);
            }
            if c == '+' {
                return Some(Event::IncInterval);
            }
            if c == '=' {
                return Some(Event::IncInterval);
            }
            if c == '-' {
                return Some(Event::DecInterval);
            }
            None
        },
    }
}

/// A tick that comes every `tick` milliseconds is due after `elapsed` of them.
pub open spec fn is_due(elapsed: nat, tick: nat) -> bool {
    elapsed >= tick
}

/// A tick is due from its last millisecond on, and not before.
pub proof fn law_tick(elapsed: nat, tick: nat)
    ensures
        is_due(tick, tick),
        is_due(elapsed, tick) ==> is_due(elapsed + 1, tick),
        tick > 0 ==> !is_due((tick - 1) as nat, tick),
        is_due(elapsed, tick) <==> is_due(elapsed + 1, tick + 1),
{
}

/// Whether a tick is due: `elapsed` milliseconds have passed since the last one, and one is due
/// every `tick` milliseconds.
pub fn tick_due(elapsed: u128, tick: u64) -> (r: bool)
    ensures
        r == is_due(elapsed as nat, tick as nat),
        r == (elapsed >= tick),
{
    elapsed >= tick as u128
}

/// How long a sample takes after `taken` others.
pub open spec fn sample_time(taken: nat, interval: u32) -> u32 {
    if taken == 0 {
        MIN_INTERVAL
    } else {
        interval
    }
}

/// The first sample takes a tenth of a second, whatever the interval is, and every other one just
/// the interval.
pub proof fn law_sample_time(taken: nat, interval: u32)
    ensures
        sample_time(0, interval) == 100,
        sample_time(taken + 1, interval) == interval,
{
}

/// How long the next sample takes, in milliseconds, when `taken` samples have been taken: the
/// first one comes as soon as it can.
pub fn next_sample_time(taken: u64, interval: u32) -> (r: u32)
    ensures
        r == sample_time(taken as nat, interval),
        r == if taken == 0 {
            MIN_INTERVAL
        } else {
            interval
        },
{
    if taken == 0 {
        MIN_INTERVAL
    } else {
        interval
    }
}

/// The interval that the dashboard starts with: the one asked for, or else the one from last time,
/// within bounds.
pub open spec fn first_interval(asked: Option<u32>, last_time: u32) -> u32 {
    let wanted = match asked {
        Some(i) => i,
        None => last_time,
    };
    if wanted < MIN_INTERVAL {
        MIN_INTERVAL
    } else if wanted > MAX_INTERVAL {
        MAX_INTERVAL
    } else {
        wanted
    }
}

/// The interval that the dashboard starts with.
pub fn starting_interval(asked: Option<u32>, last_time: u32) -> (r: u32)
    ensures
        r == first_interval(asked, last_time),
        MIN_INTERVAL <= r <= MAX_INTERVAL,
{
    let wanted: u32 = match asked {
        Some(i) => i,
        None => last_time,
    };
    if wanted < MIN_INTERVAL {
        MIN_INTERVAL
    } else if wanted > MAX_INTERVAL {
        MAX_INTERVAL
    } else {
        wanted
    }
}

/// The interval that was asked for on the command line; a default is not asked for.
pub fn asked_interval(on_command_line: bool, interval: u32) -> (r: Option<u32>)
    ensures
        r == if on_command_line {
            Some(interval)
        } else {
            None
        },
{
    if on_command_line {
        Some(interval)
    } else {
        None
    }
}

/// The interval between samples that are piped or served, for one that was asked for.
pub open spec fn streamed(interval: u32) -> u32 {
    if interval < MIN_INTERVAL {
        MIN_INTERVAL
    } else {
        interval
    }
}

/// The interval of a stream is the one asked for from a tenth of a second on, however long, and a
/// tenth of a second below.
pub proof fn law_streamed(a: u32, b: u32)
    ensures
        streamed(a) >= 100,
        a >= 100 ==> streamed(a) == a,
        a <= 100 ==> streamed(a) == 100,
        a <= b ==> streamed(a) <= streamed(b),
        streamed(streamed(a)) == streamed(a),
{
}

/// The interval between samples that are piped or served, in milliseconds.
pub fn stream_interval(interval: u32) -> (r: u32)
    ensures
        r == streamed(interval),
        r == if interval < MIN_INTERVAL {
            MIN_INTERVAL
        } else {
            interval
        },
{
    if interval < MIN_INTERVAL {
        MIN_INTERVAL
    } else {
        interval
    }
}

/// A run of `samples` samples is over after `taken` of them; one of zero samples never is.
pub open spec fn is_over(samples: nat, taken: nat) -> bool {
    samples > 0 && taken >= samples
}

/// A run of some samples takes just as many: it is not over before the last one, and is over from
/// then on. A run of zero samples goes on and on.
pub proof fn law_run_is_complete(samples: nat, taken: nat)
    ensures
        !is_over(0, taken),
        samples > 0 ==> is_over(samples, samples) && !is_over(samples, (samples - 1) as nat),
        is_over(samples, taken) ==> is_over(samples, taken + 1),
        is_over(samples + 1, taken + 1) && samples > 0 ==> is_over(samples, taken),
{
}

/// Whether a run is over after `taken` samples; one of zero samples never is.
pub fn is_done(samples: u32, taken: u64) -> (r: bool)
    ensures
        r == is_over(samples as nat, taken as nat),
        r == (samples > 0 && taken >= samples),
{
    samples > 0 && taken >= samples as u64
}

/// What the keys do: `q` quits whatever is held with it, control and `c` quit too, `c` alone turns
/// the color, `v` the view, `+` and `=` do the same, `-` the opposite, and no other key does
/// anything. No key brings a sample or a tick.
pub proof fn law_keys(c: char, control: bool)
    ensures
        key_event(Key::Other) is None,
        key_event(Key::Char { c: 'q', control }) is Some,
        key_event(Key::Char { c: 'q', control })->0 is Quit,
        key_event(Key::Char { c: 'c', control: true }) == key_event(Key::Char { c: 'q', control }),
        key_event(Key::Char { c: 'c', control: false }) is Some,
        key_event(Key::Char { c: 'c', control: false })->0 is ChangeColor,
        c != 'c' ==> key_event(Key::Char { c, control: true }) == key_event(
            Key::Char { c, control: false },
        ),
        key_event(Key::Char { c: 'v', control }) is Some,
        key_event(Key::Char { c: 'v', control })->0 is ChangeView,
        key_event(Key::Char { c: '+', control }) is Some,
        key_event(Key::Char { c: '+', control })->0 is IncInterval,
        key_event(Key::Char { c: '=', control }) == key_event(Key::Char { c: '+', control }),
        key_event(Key::Char { c: '-', control }) is Some,
        key_event(Key::Char { c: '-', control })->0 is DecInterval,
        key_event(Key::Char { c, control }) is Some ==> seq![
            'q',
            'c',
            'v',
            '+',
            '=',
            '-',
        ].contains(c),
{
    let known = seq!['q', 'c', 'v', '+', '=', '-'];
    assert(known[0] == 'q' && known[1] == 'c' && known[2] == 'v' && known[3] == '+' && known[4]
        == '=' && known[5] == '-');
}

/// The interval to start with: what was asked for comes before what was used last time, either is
/// taken as it is where it lies within the bounds, and the nearer bound is taken where it does not.
pub proof fn law_first_interval(asked: u32, other: u32, last_time: u32)
    ensures
        first_interval(Some(asked), other) == first_interval(Some(asked), last_time),
        first_interval(None, asked) == first_interval(Some(asked), other),
        100 <= first_interval(Some(asked), other) <= 10_000,
        100 <= asked <= 10_000 ==> first_interval(Some(asked), last_time) == asked,
        asked <= other ==> first_interval(Some(asked), last_time) <= first_interval(
            Some(other),
            last_time,
        ),
        asked <= 100 ==> first_interval(Some(asked), last_time) == 100,
        asked >= 10_000 ==> first_interval(Some(asked), last_time) == 10_000,
{
}

} // verus!
