use vstd::prelude::*;

verus! {

/// Number of updates it takes the animation phase to climb from 0 to its peak.
pub const RAINBOW_TRANSITION: u32 = 150;

/// One step of the signed elapsed-time counter: advance by one and, when the
/// distance from zero reaches `duration`, flip to the negative side.
pub open spec fn rainbow_step(elapsed: int, duration: int) -> int {
    let t = elapsed + 1;
    let dist = if t < 0 { -t } else { t };
    if dist >= duration { -t } else { t }
}

/// Distance of the counter from zero: the phase at which the colour is sampled.
pub open spec fn rainbow_phase(elapsed: int) -> int {
    if elapsed < 0 { -elapsed } else { elapsed }
}

/// The counter after `k` updates counted from a fresh or reset animation.
pub open spec fn rainbow_steps(k: nat) -> int
    decreases k,
{
    if k == 0 { 0 } else { rainbow_step(rainbow_steps((k - 1) as nat), RAINBOW_TRANSITION as int) }
}

/// Triangle wave of period `2 * RAINBOW_TRANSITION` and peak `RAINBOW_TRANSITION`.
pub open spec fn triangle_wave(k: nat) -> int {
    let period = 2 * RAINBOW_TRANSITION as int;
    let m = (k as int) % period;
    if m <= RAINBOW_TRANSITION as int { m } else { period - m }
}

/// A colour pulse: an elapsed-time counter that walks up to the transition
/// duration and back down again, and the colour last sampled for it.
pub struct RainbowAnimation {
    current_color: [u8; 3],
    time_elapsed: i32,
    transition_duration: u32,
}

impl RainbowAnimation {
    #[verifier::type_invariant]
    spec fn inv(self) -> bool {
        &&& self.transition_duration == RAINBOW_TRANSITION
        &&& -(RAINBOW_TRANSITION as int) <= self.time_elapsed < RAINBOW_TRANSITION as int
    }

    /// The signed elapsed-time counter.
    pub closed spec fn elapsed(self) -> int {
        self.time_elapsed as int
    }

    /// The colour last sampled.
    pub closed spec fn color(self) -> [u8; 3] {
        self.current_color
    }

    /// The transition duration, in updates.
    pub closed spec fn duration(self) -> int {
        self.transition_duration as int
    }

    /// A black animation at the start of its cycle.
    pub fn new() -> (r: Self)
        ensures
            r.elapsed() == 0,
            r.color() == [0u8, 0u8, 0u8],
            r.duration() == RAINBOW_TRANSITION,
    {
        RainbowAnimation {
            current_color: [0, 0, 0],
            time_elapsed: 0,
            transition_duration: RAINBOW_TRANSITION,
        }
    }

    /// Advances the counter by one step and stores the colour that `sample`
    /// gives for the new phase (the distance of the advanced counter from zero).
    /// `delta_time` does not influence the animation.
    pub fn update<F: Fn(u32) -> [u8; 3]>(&mut self, delta_time: u32, sample: F)
        requires
            forall|p: u32| p <= RAINBOW_TRANSITION ==> #[trigger] sample.requires((p,)),
        ensures
            final(self).elapsed() == rainbow_step(old(self).elapsed(), old(self).duration()),
            final(self).duration() == old(self).duration(),
            final(self).duration() == RAINBOW_TRANSITION,
            sample.ensures(
                (rainbow_phase(old(self).elapsed() + 1) as u32,),
                final(self).color(),
            ),
    {
        proof {
            use_type_invariant(&*self);
        }
        let t: i32 = self.time_elapsed + 1;
        let phase: u32 = if t < 0 { (-t) as u32 } else { t as u32 };
        let color = sample(phase);
        if phase >= self.transition_duration {
            self.time_elapsed = -t;
        } else {
            self.time_elapsed = t;
        }
        self.current_color = color;
    }

    /// The colour last sampled.
    pub fn get_current_color(&self) -> (c: [u8; 3])
        ensures
            c == self.color(),
    {
        self.current_color
    }

    /// An animation is its counter, colour and duration: two that agree in
    /// these behave alike from then on (so a reset animation is a fresh one).
    pub proof fn lemma_state(a: Self, b: Self)
        requires
            a.elapsed() == b.elapsed(),
            a.color() == b.color(),
            a.duration() == b.duration(),
        ensures
            a == b,
    {
    }

    /// Back to the start of the cycle, black.
    pub fn reset(&mut self)
        ensures
            final(self).elapsed() == 0,
            final(self).color() == [0u8, 0u8, 0u8],
            final(self).duration() == old(self).duration(),
            final(self).duration() == RAINBOW_TRANSITION,
    {
        proof {
            use_type_invariant(&*self);
        }
        self.time_elapsed = 0;
        self.current_color = [0, 0, 0];
    }
}

/// After `k` updates from a fresh or reset animation the counter is
/// `k mod 300` mapped onto `[-150, 150)`, so the sampled phase follows a
/// triangle wave: up from 0 to 150 and back down, with period 300 updates.
pub proof fn lemma_rainbow_period(k: nat)
    ensures
        rainbow_steps(k) == (if (k as int) % 300 < 150 { (k as int) % 300 } else { (k as int) % 300 - 300 }),
        -150 <= rainbow_steps(k) < 150,
        k > 0 ==> rainbow_phase(rainbow_steps((k - 1) as nat) + 1) == triangle_wave(k),
    decreases k,
{
    if k > 0 {
        lemma_rainbow_period((k - 1) as nat);
    }
}

} // verus!
