//! The decisions of the animated display: which segment to draw on each tick,
//! and what each key does. The window, the event queue and the frame delay
//! itself belong to the caller, which runs the loop.
use crate::path::{segments, Line, Lines, Op, Path};
use vstd::prelude::*;

verus! {

/// A key that the display reacts to.
#[derive(Clone, Copy, Debug, PartialEq, Eq, Structural)]
pub enum Key {
    Space,
    S,
    R,
    LeftBracket,
    RightBracket,
    Escape,
    Other,
}

/// An input event of the display window.
#[derive(Clone, Copy, Debug, PartialEq, Eq, Structural)]
pub enum Event {
    /// The window was closed.
    Quit,
    /// A key was pressed.
    KeyDown(Key),
}

/// What the caller does after an event.
#[derive(Clone, Copy, Debug, PartialEq, Eq, Structural)]
pub enum Command {
    /// Go on.
    Continue,
    /// Clear the window to the background colour and go on.
    Clear,
    /// Leave the loop.
    Exit,
}

/// The state of an animated replay of a path log.
pub struct Player<'a> {
    lines: Lines<'a>,
    path: &'a Path,
    paused: bool,
    step: bool,
    delay: u64,
    interactive: bool,
}

/// What a replay's state is: whether it is paused, whether a single step was
/// asked for, the pause between ticks in milliseconds, how many segments have
/// been drawn since the start or the last reset, and whether keys other than
/// Escape are honoured.
pub struct PlayerState {
    pub paused: bool,
    pub stepping: bool,
    pub delay: u64,
    pub done: nat,
    pub interactive: bool,
}

impl<'a> View for Player<'a> {
    type V = PlayerState;

    closed spec fn view(&self) -> PlayerState {
        PlayerState {
            paused: self.paused,
            stepping: self.step,
            delay: self.delay,
            done: self.lines.done(),
            interactive: self.interactive,
        }
    }
}

impl<'a> Player<'a> {
    /// The log being replayed.
    pub closed spec fn ops(&self) -> Seq<Op> {
        self.path@
    }

    /// The replay in progress is one of the log being displayed.
    pub closed spec fn wf(&self) -> bool {
        self.lines.ops() == self.path@
    }

    /// A replay of `path` from its start, running, with a pause of `delay`
    /// milliseconds between ticks.
    pub fn new(path: &'a Path, interactive: bool, delay: u64) -> (r: Player<'a>)
        ensures
            r.wf(),
            r.ops() == path@,
            r@ == (PlayerState {
                paused: false,
                stepping: false,
                delay,
                done: 0,
                interactive,
            }),
    {
        Player { lines: path.lines(), path, paused: false, step: false, delay, interactive }
    }

    /// Whether the replay is paused.
    pub fn is_paused(&self) -> (r: bool)
        ensures
            r == self@.paused,
    {
        self.paused
    }

    /// The pause between ticks, in milliseconds.
    pub fn delay_ms(&self) -> (r: u64)
        ensures
            r == self@.delay,
    {
        self.delay
    }

    /// One tick: when running, or when a single step was asked for, the next
    /// segment to draw. Once all are drawn the replay pauses.
    pub fn tick(&mut self) -> (r: Option<Line>)
        requires
            old(self).wf(),
        ensures
            final(self).wf(),
            final(self).ops() == old(self).ops(),
            old(self)@.paused && !old(self)@.stepping ==> r is None && final(self)@ == old(self)@,
            !(old(self)@.paused && !old(self)@.stepping) && old(self)@.done < segments(
                old(self).ops(),
            ).len() ==> {
                &&& r == Some(segments(old(self).ops())[old(self)@.done as int])
                &&& final(self)@ == (PlayerState {
                    stepping: false,
                    done: old(self)@.done + 1,
                    ..old(self)@
                })
            },
            !(old(self)@.paused && !old(self)@.stepping) && old(self)@.done >= segments(
                old(self).ops(),
            ).len() ==> {
                &&& r is None
                &&& final(self)@ == (PlayerState { stepping: false, paused: true, ..old(self)@ })
            },
    {
        if !self.paused || self.step {
            self.step = false;
            let r = self.lines.next();
            if r.is_none() {
                self.paused = true;
            }
            r
        } else {
            None
        }
    }

    /// Reacts to one event. Closing the window or Escape ends the display.
    /// When interactive: Space pauses or resumes, S asks for a single step,
    /// R restarts the replay from the beginning on a cleared window, `[`
    /// lengthens the pause between ticks by a millisecond and `]` shortens it
    /// by one, down to zero. Other keys, and every key but Escape when not
    /// interactive, change nothing.
    pub fn handle(&mut self, event: Event) -> (r: Command)
        requires
            old(self).wf(),
        ensures
            final(self).wf(),
            final(self).ops() == old(self).ops(),
            r == handle_command(old(self)@, event),
            final(self)@ == handle_state(old(self)@, event),
    {
        match event {
            Event::Quit => Command::Exit,
            Event::KeyDown(Key::Escape) => Command::Exit,
            Event::KeyDown(k) => {
                if !self.interactive {
                    return Command::Continue;
                }
                match k {
                    Key::Space => {
                        self.paused = !self.paused;
                        Command::Continue
                    },
                    Key::R => {
                        self.paused = false;
                        self.lines = self.path.lines();
                        Command::Clear
                    },
                    Key::S => {
                        self.step = true;
                        Command::Continue
                    },
                    Key::LeftBracket => {
                        if self.delay < u64::MAX {
                            self.delay = self.delay + 1;
                        }
                        Command::Continue
                    },
                    Key::RightBracket => {
                        if self.delay > 0 {
                            self.delay = self.delay - 1;
                        }
                        Command::Continue
                    },
                    _ => Command::Continue,
                }
            },
        }
    }
}

/// What the caller does after `event`.
pub open spec fn handle_command(s: PlayerState, event: Event) -> Command {
    match event {
        Event::Quit => Command::Exit,
        Event::KeyDown(Key::Escape) => Command::Exit,
        Event::KeyDown(Key::R) => if s.interactive {
            Command::Clear
        } else {
            Command::Continue
        },
        Event::KeyDown(_) => Command::Continue,
    }
}

/// The state of a replay after `event`.
pub open spec fn handle_state(s: PlayerState, event: Event) -> PlayerState {
    match event {
        Event::KeyDown(k) => if !s.interactive {
            s
        } else {
            match k {
                Key::Space => PlayerState { paused: !s.paused, ..s },
                Key::S => PlayerState { stepping: true, ..s },
                Key::R => PlayerState { paused: false, done: 0, ..s },
                Key::LeftBracket => PlayerState {
                    delay: if s.delay < u64::MAX {
                        (s.delay + 1) as u64
                    } else {
                        s.delay
                    },
                    ..s
                },
                Key::RightBracket => PlayerState {
                    delay: if s.delay > 0 {
                        (s.delay - 1) as u64
                    } else {
                        0
                    },
                    ..s
                },
                _ => s,
            }
        },
        Event::Quit => s,
    }
}

} // verus!
