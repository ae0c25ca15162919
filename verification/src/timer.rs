//! Timers of the simulation. All times are whole milliseconds.

use vstd::prelude::*;

verus! {

/// A repeating countdown: it fires each time `duration` milliseconds have passed and
/// carries what is left over into its next round.
#[derive(Clone, Copy, Debug)]
pub struct Cooldown {
    duration: u32,
    elapsed: u32,
}

/// Advances a repeating `bevy::time::Timer` of `duration_ms` milliseconds, of which
/// `elapsed_ms` have passed, by `delta_ms`. Returns the time then passed in the running
/// round and whether the timer finished a round during this tick (`Timer::just_finished`).
/// A repeating timer wraps around: the time passed is taken modulo the duration, and a
/// round was finished exactly when the total reached the duration. A timer without
/// length finishes on every tick and never gathers time.
#[verifier::external_body]
fn tick_repeating_timer(duration_ms: u32, elapsed_ms: u32, delta_ms: u32) -> (after: (u32, bool))
    requires
        elapsed_ms < duration_ms || (duration_ms == 0 && elapsed_ms == 0),
    ensures
        duration_ms > 0 ==> after.0 == (elapsed_ms + delta_ms) % (duration_ms as int),
        duration_ms == 0 ==> after.0 == 0,
        after.1 == (elapsed_ms + delta_ms >= duration_ms),
{
    let mut timer = bevy::time::Timer::new(
        std::time::Duration::from_millis(duration_ms as u64),
        bevy::time::TimerMode::Repeating,
    );
    timer.set_elapsed(std::time::Duration::from_millis(elapsed_ms as u64));
    timer.tick(std::time::Duration::from_millis(delta_ms as u64));
    (timer.elapsed().as_millis() as u32, timer.just_finished())
}

impl Cooldown {
    /// A cooldown is well formed when it stands inside its running round.
    pub closed spec fn wf(self) -> bool {
        self.elapsed < self.duration || (self.duration == 0 && self.elapsed == 0)
    }

    /// The length of one round, in milliseconds.
    pub closed spec fn duration_spec(self) -> nat {
        self.duration as nat
    }

    /// The time passed in the running round, in milliseconds.
    pub closed spec fn elapsed_spec(self) -> nat {
        self.elapsed as nat
    }

    /// The cooldown that [`Cooldown::repeating`] builds.
    pub closed spec fn fresh(duration: u32) -> Cooldown {
        Cooldown { duration, elapsed: 0 }
    }

    /// What [`Cooldown::fresh`] holds.
    pub proof fn lemma_fresh(duration: u32)
        ensures
            Cooldown::fresh(duration).wf(),
            Cooldown::fresh(duration).elapsed_spec() == 0,
            Cooldown::fresh(duration).duration_spec() == duration,
    {
    }

    /// A cooldown of `duration` milliseconds at the start of its first round.
    pub fn repeating(duration: u32) -> (c: Cooldown)
        ensures
            c == Cooldown::fresh(duration),
            c.wf(),
            c.elapsed_spec() == 0,
            c.duration_spec() == duration,
    {
        Cooldown { duration, elapsed: 0 }
    }

    /// The length of one round, in milliseconds.
    pub fn duration(&self) -> (d: u32)
        ensures
            d == self.duration_spec(),
    {
        self.duration
    }

    /// The time passed in the running round, in milliseconds.
    pub fn elapsed(&self) -> (e: u32)
        ensures
            e == self.elapsed_spec(),
    {
        self.elapsed
    }

    /// The cooldown after `delta` more milliseconds.
    pub closed spec fn after(self, delta: nat) -> Cooldown {
        Cooldown {
            duration: self.duration,
            elapsed: if self.duration == 0 {
                0
            } else {
                ((self.elapsed + delta) % (self.duration as int)) as u32
            },
        }
    }

    /// Whether `delta` more milliseconds complete a round.
    pub open spec fn fires(self, delta: nat) -> bool {
        self.elapsed_spec() + delta >= self.duration_spec()
    }

    /// What [`Cooldown::after`] leaves: the same length, the time passed wrapped around.
    pub proof fn lemma_after(self, delta: nat)
        requires
            self.wf(),
        ensures
            self.after(delta).wf(),
            self.after(delta).duration_spec() == self.duration_spec(),
            self.duration_spec() > 0 ==> self.after(delta).elapsed_spec() == (self.elapsed_spec()
                + delta) % self.duration_spec(),
            self.duration_spec() == 0 ==> self.after(delta).elapsed_spec() == 0,
    {
    }

    /// Advances the cooldown by `delta` milliseconds and tells whether it fired.
    pub fn tick(&mut self, delta: u32) -> (fired: bool)
        requires
            old(self).wf(),
        ensures
            *final(self) == old(self).after(delta as nat),
            final(self).wf(),
            fired == old(self).fires(delta as nat),
    {
        let after = tick_repeating_timer(self.duration, self.elapsed, delta);
        self.elapsed = after.0;
        after.1
    }
}

/// A bar that fills as time passes and is full once `total` milliseconds are reached.
#[derive(Clone, Copy, Debug, PartialEq, Eq, Structural)]
pub struct ProgressBar {
    /// The time gathered so far, never more than `total`.
    pub current: u32,
    /// The time at which the bar is full.
    pub total: u32,
}

impl ProgressBar {
    /// An empty bar that is full after `total` milliseconds.
    pub fn new(total: u32) -> (bar: ProgressBar)
        ensures
            bar == (ProgressBar { current: 0, total }),
    {
        ProgressBar { current: 0, total }
    }

    /// The bar after `delta` more milliseconds: it fills up to `total` and no further.
    pub open spec fn added(self, delta: u32) -> ProgressBar {
        ProgressBar {
            current: if self.current + delta >= self.total {
                if self.current >= self.total {
                    self.current
                } else {
                    self.total
                }
            } else {
                (self.current + delta) as u32
            },
            total: self.total,
        }
    }

    /// Whether the bar is full.
    pub open spec fn finished_spec(self) -> bool {
        self.current >= self.total
    }

    /// Adds `delta` milliseconds to the bar.
    pub fn add(&mut self, delta: u32)
        ensures
            *final(self) == old(self).added(delta),
    {
        if self.current < self.total {
            if delta >= self.total - self.current {
                self.current = self.total;
            } else {
                self.current = self.current + delta;
            }
        }
    }

    /// Whether the bar is full.
    pub fn finished(&self) -> (full: bool)
        ensures
            full == self.finished_spec(),
    {
        self.current >= self.total
    }

    /// Empties the bar.
    pub fn reset(&mut self)
        ensures
            *final(self) == (ProgressBar { current: 0, total: old(self).total }),
    {
        self.current = 0;
    }
}

/// The progress bars that are running, each under a lasting identity.
pub struct ProgressBars {
    slots: Vec<Option<ProgressBar>>,
}

impl View for ProgressBars {
    type V = Seq<Option<ProgressBar>>;

    closed spec fn view(&self) -> Seq<Option<ProgressBar>> {
        self.slots@
    }
}

/// Whether `entity` names a bar that is running.
pub open spec fn running(bars: Seq<Option<ProgressBar>>, entity: usize) -> bool {
    entity < bars.len() && bars[entity as int] is Some
}

/// The bars without the bar under `entity`.
pub open spec fn without_bar(bars: Seq<Option<ProgressBar>>, entity: usize) -> Seq<
    Option<ProgressBar>,
> {
    if entity < bars.len() {
        bars.update(entity as int, None)
    } else {
        bars
    }
}

impl ProgressBars {
    /// No bars.
    pub fn new() -> (bars: ProgressBars)
        ensures
            bars@ == Seq::<Option<ProgressBar>>::empty(),
    {
        ProgressBars { slots: Vec::new() }
    }

    /// How many identities have been given out so far.
    pub fn len(&self) -> (n: usize)
        ensures
            n == self@.len(),
    {
        self.slots.len()
    }

    /// Starts an empty bar that is full after `total` milliseconds; returns its identity.
    pub fn spawn(&mut self, total: u32) -> (entity: usize)
        ensures
            entity == old(self)@.len(),
            final(self)@ == old(self)@.push(Some(ProgressBar { current: 0, total })),
    {
        let entity = self.slots.len();
        self.slots.push(Some(ProgressBar::new(total)));
        entity
    }

    /// The bar under `entity`, if it is running.
    pub fn get(&self, entity: usize) -> (bar: Option<ProgressBar>)
        ensures
            bar == (if running(self@, entity) {
                self@[entity as int]
            } else {
                None
            }),
    {
        if entity < self.slots.len() {
            self.slots[entity]
        } else {
            None
        }
    }

    /// Puts `bar` in the place of the running bar under `entity`. Where no bar is running
    /// under `entity`, nothing changes.
    pub fn set(&mut self, entity: usize, bar: ProgressBar)
        ensures
            final(self)@ == (if running(old(self)@, entity) {
                old(self)@.update(entity as int, Some(bar))
            } else {
                old(self)@
            }),
    {
        if entity < self.slots.len() && self.slots[entity].is_some() {
            self.slots[entity] = Some(bar);
        }
    }

    /// Ends the bar under `entity`. Ending a bar that is not running changes nothing.
    pub fn despawn(&mut self, entity: usize)
        ensures
            final(self)@ == without_bar(old(self)@, entity),
    {
        if entity < self.slots.len() {
            self.slots[entity] = None;
        }
    }
}

impl Default for ProgressBars {
    fn default() -> (bars: ProgressBars)
        ensures
            bars@ == Seq::<Option<ProgressBar>>::empty(),
    {
        ProgressBars::new()
    }
}

} // verus!
