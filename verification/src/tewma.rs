//! Thresholded exponentially weighted moving average of the board's
//! readings: each reading moves a channel's average halfway towards it, and
//! a command goes out only when the average has left the last reported value
//! by more than [`THRESHOLD`], which keeps the link quiet.

use vstd::prelude::*;

use crate::protocol::{Cmd, N_ADCS};

verus! {

/// Least change of an average, exclusive, that is reported.
pub const THRESHOLD: u16 = 10;

/// Averages and last reported values of every channel.
pub struct Tewmas {
    ewma: [u16; N_ADCS],
    tewma: [u16; N_ADCS],
}

/// The state of [`Tewmas`]: for each channel its running average and the
/// value last reported for it.
pub struct TewmasView {
    pub ewma: Seq<u16>,
    pub tewma: Seq<u16>,
}

/// How far apart `a` and `b` are.
pub open spec fn distance(a: int, b: int) -> int {
    if a >= b {
        a - b
    } else {
        b - a
    }
}

/// The average of a previous average and a new reading, rounded down.
pub open spec fn halfway(avg: u16, reading: u16) -> u16 {
    ((reading + avg) / 2) as u16
}

impl TewmasView {
    /// Both sequences hold one value per channel.
    pub open spec fn well_formed(self) -> bool {
        self.ewma.len() == N_ADCS && self.tewma.len() == N_ADCS
    }

    /// The state and the command (if any) after reading `val` on channel
    /// `idx`.
    pub open spec fn step(self, idx: int, val: u16) -> (TewmasView, Option<Cmd>) {
        let e = halfway(self.ewma[idx], val);
        let ewma = self.ewma.update(idx, e);
        if distance(self.tewma[idx] as int, e as int) > THRESHOLD {
            (
                TewmasView { ewma, tewma: self.tewma.update(idx, e) },
                Some(Cmd { select: idx as u8, volume: e }),
            )
        } else {
            (TewmasView { ewma, tewma: self.tewma }, None)
        }
    }
}

/// The state before any reading.
pub open spec fn initial_view() -> TewmasView {
    TewmasView {
        ewma: Seq::new(N_ADCS as nat, |i: int| 0u16),
        tewma: Seq::new(N_ADCS as nat, |i: int| 0u16),
    }
}

/// Before any reading, every channel has one average and one reported
/// value, all zero.
pub proof fn law_initial_state_is_zero()
    ensures
        initial_view().well_formed(),
        forall|i: int| 0 <= i < 5 ==> initial_view().ewma[i] == 0 && initial_view().tewma[i] == 0,
{
}

impl View for Tewmas {
    type V = TewmasView;

    closed spec fn view(&self) -> TewmasView {
        TewmasView { ewma: self.ewma@, tewma: self.tewma@ }
    }
}

impl Tewmas {
    /// Every state has one average and one reported value per channel.
    pub proof fn lemma_well_formed(&self)
        ensures
            self@.well_formed(),
    {
    }

    /// Takes the reading `val` of channel `idx`; returns the command to send
    /// when the channel's average moved more than [`THRESHOLD`] away from the
    /// value last reported for it.
    pub fn update(&mut self, idx: u8, val: u16) -> (r: Option<Cmd>)
        requires
            idx < N_ADCS,
            val + old(self)@.ewma[idx as int] <= u16::MAX,
        ensures
            (final(self)@, r) == old(self)@.step(idx as int, val),
    {
        let i = idx as usize;
        let sum: u16 = val + self.ewma[i];
        let e: u16 = sum >> 1;
        assert(e == sum / 2) by (bit_vector)
            requires
                e == sum >> 1,
        ;
        self.ewma[i] = e;
        let t: u16 = self.tewma[i];
        let diff: u16 = if t > e {
            t - e
        } else {
            e - t
        };
        if diff > THRESHOLD {
            self.tewma[i] = e;
            Some(Cmd::new(idx, e))
        } else {
            None
        }
    }

    /// The running average of channel `idx`.
    pub fn ewma(&self, idx: u8) -> (r: u16)
        requires
            idx < N_ADCS,
        ensures
            r == self@.ewma[idx as int],
    {
        self.ewma[idx as usize]
    }
}

impl Default for Tewmas {
    /// All averages and reported values start at zero.
    fn default() -> (t: Self)
        ensures
            t@ == initial_view(),
    {
        let t = Tewmas { ewma: [0; N_ADCS], tewma: [0; N_ADCS] };
        assert(t@.ewma =~= initial_view().ewma);
        assert(t@.tewma =~= initial_view().tewma);
        t
    }
}

/// A reading changes only its own channel, and the state keeps one value
/// per channel.
pub proof fn law_step_touches_one_channel(v: TewmasView, idx: int, val: u16, other: int)
    requires
        v.well_formed(),
        0 <= idx < N_ADCS,
        0 <= other < N_ADCS,
        other != idx,
    ensures
        v.step(idx, val).0.well_formed(),
        v.step(idx, val).0.ewma[other] == v.ewma[other],
        v.step(idx, val).0.tewma[other] == v.tewma[other],
{
}

/// After a reading, the value reported for its channel is within
/// [`THRESHOLD`] of the channel's average.
pub proof fn law_reported_within_threshold(v: TewmasView, idx: int, val: u16)
    requires
        v.well_formed(),
        0 <= idx < N_ADCS,
    ensures
        distance(v.step(idx, val).0.tewma[idx] as int, v.step(idx, val).0.ewma[idx] as int)
            <= THRESHOLD,
{
}

/// A reading sets the channel's average to the mean of the old average and
/// the reading, rounded down, and a command goes out exactly when that new
/// average is more than [`THRESHOLD`] away from the value reported before;
/// the command then carries the channel and the new average.
pub proof fn law_command_only_beyond_threshold(v: TewmasView, idx: int, val: u16)
    requires
        v.well_formed(),
        0 <= idx < N_ADCS,
        val + v.ewma[idx] <= u16::MAX,
    ensures
        THRESHOLD == 10,
        v.step(idx, val).0.ewma[idx] as int == (val + v.ewma[idx]) / 2,
        v.step(idx, val).1 is Some <==> (v.tewma[idx] - (val + v.ewma[idx]) / 2 > 10 || (val
            + v.ewma[idx]) / 2 - v.tewma[idx] > 10),
        v.step(idx, val).1 is Some ==> distance(
            v.tewma[idx] as int,
            v.step(idx, val).0.ewma[idx] as int,
        ) > THRESHOLD,
        v.step(idx, val).1 is None ==> v.step(idx, val).0.tewma == v.tewma,
        v.step(idx, val).1 matches Some(c) ==> c == (Cmd {
            select: idx as u8,
            volume: ((val + v.ewma[idx]) / 2) as u16,
        }),
{
}

/// A command goes out exactly when the reported value of the channel
/// changes, and it carries the channel and its new reported value.
pub proof fn law_command_iff_report_changes(v: TewmasView, idx: int, val: u16)
    requires
        v.well_formed(),
        0 <= idx < N_ADCS,
    ensures
        v.step(idx, val).1 is Some <==> v.step(idx, val).0.tewma != v.tewma,
        v.step(idx, val).1 matches Some(c) ==> c.select == idx && c.volume == v.step(
            idx,
            val,
        ).0.tewma[idx],
{
    let (w, r) = v.step(idx, val);
    if r is None {
        assert(w.tewma == v.tewma);
    } else {
        assert(w.tewma[idx] != v.tewma[idx]);
    }
}

/// The new average lies between the old average and the reading.
pub proof fn law_average_between(v: TewmasView, idx: int, val: u16)
    requires
        v.well_formed(),
        0 <= idx < N_ADCS,
    ensures
        v.ewma[idx] <= val ==> v.ewma[idx] <= v.step(idx, val).0.ewma[idx] <= val,
        val <= v.ewma[idx] ==> val <= v.step(idx, val).0.ewma[idx] <= v.ewma[idx],
{
}

/// Each reading at least halves (rounding up) the distance between the
/// channel's average and that reading.
pub proof fn law_average_approaches_reading(v: TewmasView, idx: int, val: u16)
    requires
        v.well_formed(),
        0 <= idx < N_ADCS,
    ensures
        distance(v.step(idx, val).0.ewma[idx] as int, val as int) <= (distance(
            v.ewma[idx] as int,
            val as int,
        ) + 1) / 2,
{
}

/// Readings and averages that stay at most `bound`, with `bound` at most
/// half of `u16::MAX`, never overflow the sum of a reading and an average,
/// and keep every average and reported value at most `bound`.
pub proof fn law_bounded_readings_stay_bounded(v: TewmasView, idx: int, val: u16, bound: u16)
    requires
        v.well_formed(),
        0 <= idx < N_ADCS,
        bound <= u16::MAX / 2,
        val <= bound,
        forall|i: int| 0 <= i < N_ADCS ==> v.ewma[i] <= bound && v.tewma[i] <= bound,
    ensures
        val + v.ewma[idx] <= u16::MAX,
        forall|i: int|
            0 <= i < N_ADCS ==> v.step(idx, val).0.ewma[i] <= bound && v.step(idx, val).0.tewma[i]
                <= bound,
{
}

} // verus!
