//! The pace of a simulation relative to real time.

use vstd::prelude::*;

verus! {

/// Snapshots that observers get in a second of real time, at most, however
/// fast simulated time advances.
pub const MAX_UPDATES_PER_SECOND: u64 = 4;

/// A second of real time in nanoseconds.
pub const NANOS_PER_SECOND: u64 = 1_000_000_000;

/// A multiplier of at least one.
#[derive(Clone, Copy, Debug, PartialEq, Eq)]
pub struct Multiplier {
    value: u8,
}

impl View for Multiplier {
    type V = u8;

    closed spec fn view(&self) -> u8 {
        self.value
    }
}

impl Multiplier {
    #[verifier::type_invariant]
    spec fn positive(self) -> bool {
        self.value >= 1
    }

    /// The multiplier of the given value, unless the value is zero.
    pub fn new(value: u8) -> (made: Option<Multiplier>)
        ensures
            value == 0 <==> made is None,
            made matches Some(multiplier) ==> multiplier@ == value,
    {
        if value == 0 {
            None
        } else {
            Some(Multiplier { value })
        }
    }

    /// The value of the multiplier.
    pub fn get(&self) -> (value: u8)
        ensures
            value == self@,
            value >= 1,
    {
        proof {
            use_type_invariant(self);
        }
        self.value
    }
}

/// Allows running in fast-forward or slow-motion instead of real-time
#[derive(Clone, Copy, Debug, PartialEq, Eq)]
pub enum Speed {
    RealTime,
    /// Speed up by the multiplier (`2` gives double speed)
    FastForward(Multiplier),
    /// Slow down by the multiplier (`2` gives half speed)
    SlowMotion(Multiplier),
}

impl Default for Speed {
    fn default() -> (speed: Self)
        ensures
            speed == Speed::RealTime,
    {
        Speed::RealTime
    }
}

impl Speed {
    /// The real time that a stretch of `nanos` nanoseconds of simulated time
    /// takes: as many at real time, divided by the multiplier in fast-forward
    /// and multiplied by it in slow motion.
    pub open spec fn adjusted(self, nanos: nat) -> nat {
        match self {
            Speed::RealTime => nanos,
            Speed::FastForward(multiplier) => nanos / (multiplier@ as nat),
            Speed::SlowMotion(multiplier) => nanos * (multiplier@ as nat),
        }
    }

    /// The simulated time that passes in a stretch of `elapsed` units of real
    /// time, in the same units: as many at real time, multiplied by the
    /// multiplier in fast-forward and divided by it in slow motion.
    pub open spec fn simulated(self, elapsed: nat) -> nat {
        match self {
            Speed::RealTime => elapsed,
            Speed::FastForward(multiplier) => elapsed * (multiplier@ as nat),
            Speed::SlowMotion(multiplier) => elapsed / (multiplier@ as nat),
        }
    }

    /// The number of simulated seconds from one snapshot to the next.
    pub open spec fn update_interval(self) -> nat {
        match self {
            Speed::FastForward(multiplier) => if multiplier@ as nat / (MAX_UPDATES_PER_SECOND
                as nat) >= 1 {
                multiplier@ as nat / (MAX_UPDATES_PER_SECOND as nat)
            } else {
                1
            },
            _ => 1,
        }
    }

    /// Whether a snapshot is due at the simulated time `time`.
    pub open spec fn snapshot_due(self, time: nat) -> bool {
        time % self.update_interval() == 0
    }

    /// Whether the multiplier of the speed, if it has one, is at least one, as
    /// it is for every speed that a program holds.
    pub open spec fn valid(self) -> bool {
        match self {
            Speed::RealTime => true,
            Speed::FastForward(multiplier) => multiplier@ >= 1,
            Speed::SlowMotion(multiplier) => multiplier@ >= 1,
        }
    }

    /// The number that stands for the speed on the wire: zero for real time,
    /// the multiplier for fast-forward, the negated multiplier for slow motion.
    pub open spec fn wire_value(self) -> int {
        match self {
            Speed::RealTime => 0,
            Speed::FastForward(multiplier) => multiplier@ as int,
            Speed::SlowMotion(multiplier) => -(multiplier@ as int),
        }
    }

    /// Fast-forward by `rate`, unless `rate` is zero.
    pub fn fast_forward(rate: u8) -> (speed: Option<Speed>)
        ensures
            rate == 0 <==> speed is None,
            speed matches Some(s) ==> (s matches Speed::FastForward(multiplier) && multiplier@
                == rate),
    {
        match Multiplier::new(rate) {
            Some(multiplier) => Some(Speed::FastForward(multiplier)),
            None => None,
        }
    }

    /// Slow motion by `rate`, unless `rate` is zero.
    pub fn slow_motion(rate: u8) -> (speed: Option<Speed>)
        ensures
            rate == 0 <==> speed is None,
            speed matches Some(s) ==> (s matches Speed::SlowMotion(multiplier) && multiplier@
                == rate),
    {
        match Multiplier::new(rate) {
            Some(multiplier) => Some(Speed::SlowMotion(multiplier)),
            None => None,
        }
    }

    /// The real time in nanoseconds that `nanos` nanoseconds of simulated
    /// time take at this speed.
    pub fn adjust_duration(&self, nanos: u64) -> (adjusted: u64)
        requires
            self.adjusted(nanos as nat) <= u64::MAX,
        ensures
            adjusted == self.adjusted(nanos as nat),
    {
        match self {
            Speed::RealTime => nanos,
            Speed::FastForward(multiplier) => nanos / multiplier.get() as u64,
            Speed::SlowMotion(multiplier) => {
                let factor = multiplier.get() as u64;
                assert(nanos * factor == (nanos as nat) * (factor as nat)) by (nonlinear_arith);
                nanos * factor
            },
        }
    }

    /// The simulated time that passes in `elapsed` units of real time at this
    /// speed, in the same units. An observer who knows the speed of a
    /// snapshot reckons by it how far simulated time has come since.
    pub fn simulated_time(&self, elapsed: u64) -> (simulated: u64)
        requires
            self.simulated(elapsed as nat) <= u64::MAX,
        ensures
            simulated == self.simulated(elapsed as nat),
    {
        match self {
            Speed::RealTime => elapsed,
            Speed::FastForward(multiplier) => {
                let factor = multiplier.get() as u64;
                assert(elapsed * factor == (elapsed as nat) * (factor as nat)) by (nonlinear_arith);
                elapsed * factor
            },
            Speed::SlowMotion(multiplier) => elapsed / multiplier.get() as u64,
        }
    }

    /// The real time in nanoseconds that one second of simulated time takes
    /// at this speed.
    pub fn adjust_second(&self) -> (nanos: u64)
        ensures
            nanos == self.adjusted(NANOS_PER_SECOND as nat),
    {
        match self {
            Speed::RealTime => {},
            Speed::FastForward(multiplier) => {
                let factor = multiplier.get();
                assert(1_000_000_000nat / (factor as nat) <= 1_000_000_000) by (nonlinear_arith)
                    requires
                        factor >= 1,
                ;
            },
            Speed::SlowMotion(multiplier) => {
                let factor = multiplier.get();
                assert(1_000_000_000nat * (factor as nat) <= 1_000_000_000 * 255)
                    by (nonlinear_arith)
                    requires
                        factor <= 255,
                ;
            },
        }
        self.adjust_duration(NANOS_PER_SECOND)
    }

    /// The number of simulated seconds from one snapshot to the next.
    pub fn snapshot_interval(&self) -> (seconds: u64)
        ensures
            seconds == self.update_interval(),
            seconds >= 1,
    {
        match self {
            Speed::FastForward(multiplier) => {
                let interval = multiplier.get() as u64 / MAX_UPDATES_PER_SECOND;
                if interval >= 1 {
                    interval
                } else {
                    1
                }
            },
            _ => 1,
        }
    }

    /// The number that stands for the speed on the wire.
    pub fn to_i32(&self) -> (number: i32)
        ensures
            self.valid(),
            number == self.wire_value(),
            -255 <= number <= 255,
    {
        match self {
            Speed::RealTime => 0,
            Speed::FastForward(multiplier) => multiplier.get() as i32,
            Speed::SlowMotion(multiplier) => -(multiplier.get() as i32),
        }
    }

    /// The speed that a number on the wire stands for: real time for zero,
    /// fast-forward by the number for a positive number, slow motion by the
    /// negated number for a negative one. It is the speed whose number on the
    /// wire is `n`, so a speed that was turned into its number comes back as
    /// it was. A number beyond 255 either way stands for no speed.
    pub fn from_i32(n: i32) -> (speed: Speed)
        requires
            -255 <= n <= 255,
        ensures
            speed.valid(),
            speed.wire_value() == n,
            n == 0 ==> speed == Speed::RealTime,
            n > 0 ==> (speed matches Speed::FastForward(multiplier) && multiplier@ == n),
            n < 0 ==> (speed matches Speed::SlowMotion(multiplier) && multiplier@ == -n),
            forall|sent: Speed| sent.valid() && #[trigger] sent.wire_value() == n ==> speed == sent,
    {
        let speed = if n == 0 {
            Speed::RealTime
        } else if n > 0 {
            match Multiplier::new(n as u8) {
                Some(multiplier) => Speed::FastForward(multiplier),
                None => Speed::RealTime,
            }
        } else {
            match Multiplier::new((-n) as u8) {
                Some(multiplier) => Speed::SlowMotion(multiplier),
                None => Speed::RealTime,
            }
        };
        proof {
            assert forall|sent: Speed|
                sent.valid() && #[trigger] sent.wire_value() == n implies speed == sent by {
                lemma_wire_value_tells_speeds_apart(speed, sent);
            }
        }
        speed
    }
}

/// Two speeds that stand on the wire as the same number are the same speed:
/// a speed that is turned into its number and read back comes back as it
/// was.
pub proof fn lemma_wire_value_tells_speeds_apart(a: Speed, b: Speed)
    requires
        a.valid(),
        b.valid(),
        a.wire_value() == b.wire_value(),
    ensures
        a == b,
{
    match (a, b) {
        (Speed::FastForward(m), Speed::FastForward(k)) => {
            assert(m.value == k.value);
        },
        (Speed::SlowMotion(m), Speed::SlowMotion(k)) => {
            assert(m.value == k.value);
        },
        _ => {},
    }
}

/// The simulated time that passes in the real time that a stretch of
/// simulated time takes is that stretch, but for what the division by the
/// multiplier rounds off, which is less than the multiplier.
pub proof fn lemma_simulated_adjusted(speed: Speed, nanos: nat)
    requires
        speed.valid(),
    ensures
        speed.simulated(speed.adjusted(nanos)) <= nanos,
        speed matches Speed::FastForward(multiplier) ==> nanos < speed.simulated(
            speed.adjusted(nanos),
        ) + multiplier@,
        !(speed is FastForward) ==> speed.simulated(speed.adjusted(nanos)) == nanos,
{
    match speed {
        Speed::RealTime => {},
        Speed::FastForward(multiplier) => {
            let factor = multiplier@ as nat;
            assert(nanos == factor * (nanos / factor) + nanos % factor && nanos % factor < factor)
                by (nonlinear_arith)
                requires
                    factor >= 1,
            ;
            assert((nanos / factor) * factor == factor * (nanos / factor)) by (nonlinear_arith);
        },
        Speed::SlowMotion(multiplier) => {
            let factor = multiplier@ as nat;
            assert((nanos * factor) / factor == nanos) by (nonlinear_arith)
                requires
                    factor >= 1,
            ;
        },
    }
}

/// Two snapshots are at least one update interval apart.
pub proof fn lemma_snapshots_spaced(speed: Speed, earlier: nat, later: nat)
    requires
        earlier < later,
        speed.snapshot_due(earlier),
        speed.snapshot_due(later),
    ensures
        later - earlier >= speed.update_interval(),
{
    let interval = speed.update_interval();
    assert(interval >= 1);
    assert(later - earlier >= interval) by (nonlinear_arith)
        requires
            interval >= 1,
            earlier < later,
            earlier % interval == 0,
            later % interval == 0,
    {
        assert(earlier == interval * (earlier / interval) + earlier % interval);
        assert(later == interval * (later / interval) + later % interval);
        assert(earlier / interval < later / interval);
        assert(interval * (later / interval) - interval * (earlier / interval) == interval * (later
            / interval - earlier / interval));
    }
}

} // verus!
