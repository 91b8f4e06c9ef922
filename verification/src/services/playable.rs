//! Playback of a step log: where the cursor stands, whether it moves, and
//! how far each tick moves it.
//!
//! The time that an animation takes is kept close to the time that the user
//! asked for, however many steps the log holds: a tick that comes no more
//! often than the display can redraw moves the cursor by as many steps as
//! are due.

use crate::text::decimal;
use vstd::prelude::*;

verus! {

/// Milliseconds in a second.
pub const MS_IN_SECS: u64 = 1000;

/// The shortest period at which the display redraws, in hundredths of a
/// millisecond: 33.33 ms.
pub const MAX_REFRESH_RATE: u64 = 3333;

/// The time that one step is given, as a fraction: `millis / steps`
/// milliseconds. It is idle, which means that nothing is being animated,
/// where either number is zero.
#[derive(Clone, Copy, Debug, PartialEq, Eq, Structural)]
pub struct StepTime {
    /// The planned duration of the animation, in milliseconds.
    pub millis: u64,
    /// The number of steps that share the duration.
    pub steps: u32,
}

impl StepTime {
    /// Nothing is being animated.
    pub open spec fn is_idle(self) -> bool {
        self.millis == 0 || self.steps == 0
    }

    /// The time of nothing being animated.
    pub open spec fn idle() -> StepTime {
        StepTime { millis: 0, steps: 0 }
    }

    /// `time_overall` seconds for `steps` steps. A time that is not positive
    /// gives an idle time.
    pub open spec fn planned(time_overall: i32, steps: u32) -> StepTime {
        StepTime {
            millis: if time_overall > 0 {
                (time_overall * 1000) as u64
            } else {
                0
            },
            steps,
        }
    }

    /// The number of steps by which a tick moves the cursor: the refresh
    /// period divided by the time of one step, rounded up. Zero where idle.
    pub open spec fn stride(self) -> nat {
        if self.is_idle() {
            0
        } else {
            ((3333 * self.steps + 100 * self.millis - 1) / (100 * self.millis)) as nat
        }
    }

    /// The period between two ticks in milliseconds: the time of one step,
    /// rounded down, but no less than the refresh period and no more than a
    /// `u32` holds. Zero where idle.
    pub open spec fn interval(self) -> nat {
        if self.is_idle() {
            0
        } else if self.millis / (self.steps as u64) < 33 {
            33
        } else if self.millis / (self.steps as u64) > u32::MAX {
            u32::MAX as nat
        } else {
            (self.millis / (self.steps as u64)) as nat
        }
    }

    /// The time of nothing being animated.
    pub fn new_idle() -> (time: StepTime)
        ensures
            time == StepTime::idle(),
    {
        StepTime { millis: 0, steps: 0 }
    }

    /// `time_overall` seconds for `steps` steps.
    pub fn new_planned(time_overall: i32, steps: u32) -> (time: StepTime)
        ensures
            time == StepTime::planned(time_overall, steps),
    {
        let millis: u64 = if time_overall > 0 {
            (time_overall as u64) * MS_IN_SECS
        } else {
            0
        };
        StepTime { millis, steps }
    }

    /// Whether nothing is being animated.
    pub fn idles(&self) -> (idle: bool)
        ensures
            idle == self.is_idle(),
    {
        self.millis == 0 || self.steps == 0
    }

    /// The number of steps by which a tick moves the cursor.
    pub fn step_increment(&self) -> (increment: u64)
        ensures
            increment == self.stride(),
            !self.is_idle() ==> increment >= 1,
            increment <= 3333 * self.steps,
    {
        if self.idles() {
            return 0;
        }
        assert(MAX_REFRESH_RATE == 3333);
        let due: u128 = (MAX_REFRESH_RATE as u128) * (self.steps as u128);
        let unit: u128 = 100 * (self.millis as u128);
        let increment: u128 = (due + unit - 1) / unit;
        assert(increment <= due) by (nonlinear_arith)
            requires
                increment == (due + unit - 1) / (unit as int),
                unit >= 100,
                due >= 0,
        ;
        assert(increment >= 1) by (nonlinear_arith)
            requires
                increment == (due + unit - 1) / (unit as int),
                unit >= 100,
                due >= 1,
        ;
        increment as u64
    }

    /// The period between two ticks in milliseconds.
    pub fn tick_interval(&self) -> (millis: u32)
        ensures
            millis == self.interval(),
    {
        if self.idles() {
            return 0;
        }
        let per_step: u64 = self.millis / (self.steps as u64);
        if per_step < MAX_REFRESH_RATE / 100 {
            (MAX_REFRESH_RATE / 100) as u32
        } else if per_step > u32::MAX as u64 {
            u32::MAX
        } else {
            per_step as u32
        }
    }
}

/// Where a run stands in its log: the number of steps that are applied,
/// whether the animation runs, and the time that a step is given.
#[derive(Clone, Copy, Debug, PartialEq, Eq, Structural)]
pub struct Cursor {
    /// The number of steps that are applied.
    pub active_step: u32,
    /// Whether the animation runs.
    pub is_playing: bool,
    /// The time that a step is given; idle where the animation does not run.
    pub steps_time: StepTime,
}

impl Cursor {
    /// The cursor of a run that has not been played: at the start, at rest.
    pub open spec fn start() -> Cursor {
        Cursor { active_step: 0, is_playing: false, steps_time: StepTime::idle() }
    }

    /// The cursor moved to `step`, or to the end of a log of `total` steps
    /// where `step` lies behind it.
    pub open spec fn sought(self, step: u32, total: u32) -> Cursor {
        Cursor {
            active_step: if step > total {
                total
            } else {
                step
            },
            ..self
        }
    }

    /// The cursor at rest where it stands, with no time planned.
    pub open spec fn stopped(self) -> Cursor {
        Cursor { is_playing: false, steps_time: StepTime::idle(), ..self }
    }

    /// The cursor after a request to play a log of `total` steps in
    /// `time_overall` seconds. Where there is nothing to animate, the cursor
    /// stays as it is. A cursor at the end of the log starts again from the
    /// first step, with the time shared by all the steps, whether it was
    /// playing or not. Inside the log, a cursor that plays already stays as
    /// it is, and any other goes on from where it stands, with the time
    /// shared by the steps that remain.
    pub open spec fn played(self, time_overall: i32, total: u32) -> Cursor {
        if total == 0 || time_overall <= 0 {
            self
        } else if self.active_step >= total {
            Cursor {
                active_step: 0,
                is_playing: true,
                steps_time: StepTime::planned(time_overall, total),
            }
        } else if self.is_playing {
            self
        } else {
            Cursor {
                active_step: self.active_step,
                is_playing: true,
                steps_time: StepTime::planned(
                    time_overall,
                    (total - self.active_step) as u32,
                ),
            }
        }
    }

    /// The cursor after a tick on a log of `total` steps. At the end of the
    /// log the cursor stays at the end, at rest and with no time planned,
    /// and a tick that reaches the end leaves it so. Inside the log, a
    /// cursor that does not play stays as it is.
    pub open spec fn ticked(self, total: u32) -> Cursor {
        if self.active_step >= total {
            Cursor { active_step: total, is_playing: false, steps_time: StepTime::idle() }
        } else if !self.is_playing || self.steps_time.is_idle() {
            self
        } else if self.active_step + self.steps_time.stride() >= total {
            Cursor { active_step: total, is_playing: false, steps_time: StepTime::idle() }
        } else {
            Cursor {
                active_step: (self.active_step + self.steps_time.stride()) as u32,
                ..self
            }
        }
    }

    /// The period at which the cursor wants its ticks, in milliseconds: zero
    /// where it does not play.
    pub open spec fn tick_time(self) -> nat {
        if self.is_playing {
            self.steps_time.interval()
        } else {
            0
        }
    }

    /// The cursor of a run that has not been played.
    pub fn new() -> (cursor: Cursor)
        ensures
            cursor == Cursor::start(),
    {
        Cursor { active_step: 0, is_playing: false, steps_time: StepTime::new_idle() }
    }

    /// Moves the cursor to `step`, or to the end of the log.
    pub fn seek(&mut self, step: u32, total: u32)
        ensures
            *final(self) == old(self).sought(step, total),
    {
        self.active_step = if step > total {
            total
        } else {
            step
        };
    }

    /// Brings the cursor to rest where it stands.
    pub fn stop(&mut self)
        ensures
            *final(self) == old(self).stopped(),
    {
        self.is_playing = false;
        self.steps_time = StepTime::new_idle();
    }

    /// Starts or resumes the animation.
    pub fn play(&mut self, time_overall: i32, total: u32)
        ensures
            *final(self) == old(self).played(time_overall, total),
    {
        if total == 0 || time_overall <= 0 {
            return ;
        }
        if self.active_step >= total {
            // at the end, start again from the first step
            self.active_step = 0;
        } else if self.is_playing {
            return ;
        }
        self.is_playing = true;
        self.steps_time = StepTime::new_planned(time_overall, total - self.active_step);
    }

    /// Moves the cursor as one tick of the timer does.
    pub fn tick(&mut self, total: u32)
        ensures
            *final(self) == old(self).ticked(total),
    {
        if self.active_step >= total {
            self.steps_time = StepTime::new_idle();
            self.is_playing = false;
            self.active_step = total;
            return ;
        }
        if !self.is_playing || self.steps_time.idles() {
            return ;
        }
        let step_increment = self.steps_time.step_increment();
        let new_step_index: u64 = self.active_step as u64 + step_increment;
        if new_step_index >= total as u64 {
            self.steps_time = StepTime::new_idle();
            self.is_playing = false;
            self.active_step = total;
        } else {
            self.active_step = new_step_index as u32;
        }
    }

    /// The period at which the cursor wants its ticks, in milliseconds.
    pub fn interval(&self) -> (millis: u32)
        ensures
            millis == self.tick_time(),
    {
        if self.steps_time.idles() || !self.is_playing {
            return 0;
        }
        self.steps_time.tick_interval()
    }
}

/// A cursor that has reached the end of its log comes to rest at the next
/// tick, which leaves it at the end, and further ticks change nothing.
pub proof fn lemma_tick_at_end_is_idempotent(cursor: Cursor, total: u32)
    requires
        cursor.active_step >= total,
    ensures
        !cursor.ticked(total).is_playing,
        cursor.ticked(total).active_step == total,
        cursor.ticked(total).ticked(total) == cursor.ticked(total),
{
}

/// A tick of a cursor that does not play moves nothing: the cursor keeps
/// its step, or comes back to the end of the log where it stood behind it.
pub proof fn lemma_tick_at_rest_moves_nothing(cursor: Cursor, total: u32)
    requires
        !cursor.is_playing,
        cursor.active_step <= total,
    ensures
        cursor.ticked(total).active_step == cursor.active_step,
        !cursor.ticked(total).is_playing,
{
}

/// A cursor that stands inside the log stays inside it, whatever is done
/// with it, and a cursor that a tick brought to rest is left as it is by
/// every further tick.
pub proof fn lemma_cursor_stays_inside(cursor: Cursor, step: u32, time_overall: i32, total: u32)
    requires
        cursor.active_step <= total,
    ensures
        cursor.sought(step, total).active_step <= total,
        cursor.stopped().active_step <= total,
        cursor.played(time_overall, total).active_step <= total,
        cursor.ticked(total).active_step <= total,
        !cursor.ticked(total).is_playing && cursor.ticked(total).steps_time.is_idle()
            ==> cursor.ticked(total).ticked(total) == cursor.ticked(total),
{
}

/// A cursor plays only with a time for its steps, and rests only without
/// one, once it was played, ticked or stopped.
pub proof fn lemma_time_goes_with_playing(cursor: Cursor, time_overall: i32, total: u32)
    requires
        cursor.is_playing <==> !cursor.steps_time.is_idle(),
    ensures
        cursor.stopped().steps_time.is_idle() && !cursor.stopped().is_playing,
        cursor.played(time_overall, total).is_playing <==> !cursor.played(
            time_overall,
            total,
        ).steps_time.is_idle(),
        cursor.ticked(total).is_playing <==> !cursor.ticked(total).steps_time.is_idle(),
{
}

/// A request to play, made of a cursor that plays already inside the log,
/// changes nothing, and two requests one after the other do what one does.
pub proof fn lemma_play_is_idempotent(cursor: Cursor, time_overall: i32, total: u32)
    ensures
        cursor.is_playing && cursor.active_step < total ==> cursor.played(time_overall, total)
            == cursor,
        cursor.played(time_overall, total).played(time_overall, total) == cursor.played(
            time_overall,
            total,
        ),
{
}

/// A request to play at the end of a log that holds a step, with a time to
/// play it in, starts again from the first step, with the time shared by
/// all the steps, whether the cursor was playing or not.
pub proof fn lemma_play_at_the_end_starts_again(cursor: Cursor, time_overall: i32, total: u32)
    requires
        total > 0,
        time_overall > 0,
        cursor.active_step >= total,
    ensures
        cursor.played(time_overall, total) == (Cursor {
            active_step: 0,
            is_playing: true,
            steps_time: StepTime::planned(time_overall, total),
        }),
{
}

/// A run that can be played: a log of steps of type `StepType`, replayed
/// over an initial state into outputs of type `Output`, with a cursor that a
/// timer moves, as a configuration of type `Config` asks for it.
pub trait Playable<Config, StepType, Output> {
    /// The cursor of the playback.
    spec fn cursor(&self) -> Cursor;

    /// The number of steps that the playback can reach.
    spec fn total(&self) -> u32;

    /// The time that the configuration gives the animation, in seconds.
    spec fn seconds(config: &Config) -> i32;

    /// The run is that of `other`: the same initial state and the same log.
    spec fn same_run(&self, other: &Self) -> bool;

    /// The output is the state after the first `step` steps of the log, or
    /// after all of them where the log holds fewer.
    spec fn is_output_at(&self, step: nat, output: &Output) -> bool;

    /// The state that is shown is the state after the first `step` steps.
    spec fn shows(&self, step: nat) -> bool;

    /// The log holds a step at the place of the cursor.
    spec fn has_active_item(&self) -> bool;

    /// The step at the place of the cursor.
    spec fn active_item(&self) -> StepType;

    /// Brings the run to rest at the end of its log.
    fn reset(&mut self, config: &Config)
        ensures
            final(self).same_run(old(self)),
            final(self).cursor().active_step == old(self).total(),
            !final(self).cursor().is_playing,
            final(self).shows(final(self).cursor().active_step as nat),
    ;

    /// Starts or resumes the animation, as [`Cursor::played`] says it, and
    /// shows the state at the step from which it goes on.
    fn play(&mut self, config: &Config)
        ensures
            final(self).same_run(old(self)),
            final(self).cursor() == old(self).cursor().played(
                Self::seconds(config),
                old(self).total(),
            ),
            final(self).shows(final(self).cursor().active_step as nat),
    ;

    /// Brings the animation to rest at the step at which it stands.
    fn stop(&mut self)
        ensures
            final(self).same_run(old(self)),
            final(self).cursor() == old(self).cursor().stopped(),
    ;

    /// Moves the playback as one tick of the timer does, as
    /// [`Cursor::ticked`] says it. Where the cursor has moved, the state is
    /// shown at the step that it has come to; where it has not, what is
    /// shown is left as it is.
    fn tick(&mut self)
        ensures
            final(self).same_run(old(self)),
            final(self).cursor() == old(self).cursor().ticked(old(self).total()),
            final(self).cursor().active_step != old(self).cursor().active_step
                ==> final(self).shows(final(self).cursor().active_step as nat),
            old(self).shows(old(self).cursor().active_step as nat) ==> final(self).shows(
                final(self).cursor().active_step as nat,
            ),
    ;

    /// Moves the playback to `step`, or to the end of the log where `step`
    /// lies behind it, and shows the state at that step.
    fn set_step(&mut self, step: u32)
        ensures
            final(self).same_run(old(self)),
            final(self).cursor() == old(self).cursor().sought(step, old(self).total()),
            final(self).shows(final(self).cursor().active_step as nat),
    ;

    /// The number of steps that are applied, in decimal notation.
    fn get_active_step_string(&self) -> (text: String)
        ensures
            text@ == decimal(self.cursor().active_step as int),
    ;

    /// The period at which the playback wants its ticks, in milliseconds:
    /// zero where it does not play.
    fn tick_time(&self) -> (millis: u32)
        ensures
            millis == self.cursor().tick_time(),
    ;

    /// The state after the first `step` steps of the log, or after all of
    /// them where the log holds fewer.
    fn get_output_by_step(&mut self, step: u32) -> (output: Output)
        ensures
            old(self).is_output_at(step as nat, &output),
            final(self).same_run(old(self)),
            final(self).cursor() == old(self).cursor(),
    ;

    /// The number of steps that the playback can reach, in decimal
    /// notation.
    fn get_steps_len_string(&self) -> (text: String)
        ensures
            text@ == decimal(self.total() as int),
    ;

    /// The step at the place of the cursor, where the log must hold one.
    fn get_active_step_item(&self) -> (item: StepType)
        requires
            self.has_active_item(),
        ensures
            item == self.active_item(),
    ;

    /// Plans the time for the steps that remain.
    fn calculate_time(&mut self, config: &Config)
        ensures
            final(self).same_run(old(self)),
            final(self).cursor() == (Cursor {
                steps_time: StepTime::planned(
                    Self::seconds(config),
                    if old(self).cursor().active_step <= old(self).total() {
                        (old(self).total() - old(self).cursor().active_step) as u32
                    } else {
                        0
                    },
                ),
                ..old(self).cursor()
            }),
    ;
}

} // verus!
