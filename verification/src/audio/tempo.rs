//! Exact conversions between MIDI ticks, time and output samples along a tempo map.
//!
//! Time is measured exactly as "tempo time": microseconds multiplied by the song's
//! ticks-per-quarter (`ppq`), so one tick at `m` microseconds per quarter lasts `m`
//! units and `tempo time / (1_000_000 * ppq)` is the time in seconds.
use vstd::prelude::*;
use crate::audio::midi_struct::TempoChange;

verus! {

/// The tempo before any change: 120 quarter notes per minute.
pub const DEFAULT_MICROS_PER_QUARTER: u32 = 500_000;

/// `a - b`, or 0 when `b > a`.
pub open spec fn sat_sub(a: u64, b: u64) -> nat {
    if a >= b {
        (a - b) as nat
    } else {
        0
    }
}

/// The tempo that holds from tick 0: the first change's, or the default.
pub open spec fn initial_tempo(changes: Seq<TempoChange>) -> u32 {
    if changes.len() > 0 {
        changes[0].micros_per_quarter
    } else {
        DEFAULT_MICROS_PER_QUARTER
    }
}

/// The walk along the tempo map after taking changes `1..i` into account:
/// the tick of the last change taken, the tempo in force and the tempo time elapsed
/// up to that tick. Each segment lasts from the previous change's tick to the next
/// one's (no time when they are out of order).
pub open spec fn tempo_walk(changes: Seq<TempoChange>, i: int) -> (u64, u32, nat)
    decreases i,
{
    if i <= 1 {
        (0, initial_tempo(changes), 0)
    } else {
        let prev = tempo_walk(changes, i - 1);
        let c = changes[i - 1];
        (c.tick, c.micros_per_quarter, prev.2 + sat_sub(c.tick, prev.0) * (prev.1 as nat))
    }
}

/// The first index from `k` on whose change does not lie before `tick`
/// (or the map's length).
pub open spec fn tempo_stop(changes: Seq<TempoChange>, tick: u64, k: int) -> int
    decreases changes.len() - k,
{
    if k >= changes.len() || changes[k].tick >= tick {
        k
    } else {
        tempo_stop(changes, tick, k + 1)
    }
}

/// Tempo time elapsed from tick 0 to `tick`: the changes after the first that lie
/// before `tick` are taken in order, then the rest up to `tick` runs at the tempo in force.
pub open spec fn tempo_time(changes: Seq<TempoChange>, tick: u64) -> nat {
    let w = tempo_walk(changes, tempo_stop(changes, tick, 1));
    w.2 + sat_sub(tick, w.0) * (w.1 as nat)
}

/// `x`, or `u128::MAX` when `x` is larger.
pub open spec fn cap_u128(x: nat) -> u128 {
    if x > u128::MAX {
        u128::MAX
    } else {
        x as u128
    }
}

proof fn lemma_tempo_stop_skip(changes: Seq<TempoChange>, tick: u64, k: int, i: int)
    requires
        1 <= k <= i <= changes.len(),
        forall|j: int| k <= j < i ==> #[trigger] changes[j].tick < tick,
    ensures
        tempo_stop(changes, tick, k) == tempo_stop(changes, tick, i),
    decreases i - k,
{
    if k < i {
        lemma_tempo_stop_skip(changes, tick, k + 1, i);
    }
}

proof fn lemma_segment_bound(seg: nat, tempo: u32)
    requires
        seg <= u64::MAX,
    ensures
        seg * tempo <= u64::MAX * u32::MAX,
{
    assert(seg * tempo <= u64::MAX * u32::MAX) by (nonlinear_arith)
        requires
            seg <= u64::MAX,
            tempo <= u32::MAX,
    ;
}

/// Tempo time (microseconds times ppq) elapsed at `tick`, capped at `u128::MAX`.
///
/// `seconds = time / (1_000_000 * ppq)`.
pub fn tempo_time_for_tick(tempo_changes: &[TempoChange], tick: u64) -> (time: u128)
    ensures
        time == cap_u128(tempo_time(tempo_changes@, tick)),
{
    let ghost changes = tempo_changes@;
    let mut last_tick: u64 = 0;
    let mut current_tempo: u32 = if tempo_changes.len() > 0 {
        tempo_changes[0].micros_per_quarter
    } else {
        DEFAULT_MICROS_PER_QUARTER
    };
    let mut time: u128 = 0;
    let mut i: usize = 1;
    while i < tempo_changes.len() && tempo_changes[i].tick < tick
        invariant
            changes == tempo_changes@,
            1 <= i,
            i <= changes.len() || changes.len() == 0,
            (last_tick, current_tempo) == (tempo_walk(changes, i as int).0, tempo_walk(
                changes,
                i as int,
            ).1),
            time == cap_u128(tempo_walk(changes, i as int).2),
            changes.len() > 0 ==> tempo_stop(changes, tick, 1) == tempo_stop(changes, tick, i as int),
            changes.len() == 0 ==> i == 1,
        decreases tempo_changes.len() - i,
    {
        let change = tempo_changes[i];
        let passed: u64 = if change.tick >= last_tick {
            change.tick - last_tick
        } else {
            0
        };
        proof {
            lemma_segment_bound(passed as nat, current_tempo);
            lemma_tempo_stop_skip(changes, tick, i as int, i as int + 1);
        }
        let segment: u128 = (passed as u128) * (current_tempo as u128);
        time = time.saturating_add(segment);
        last_tick = change.tick;
        current_tempo = change.micros_per_quarter;
        i = i + 1;
    }
    proof {
        if changes.len() > 0 {
            assert(tempo_stop(changes, tick, i as int) == i);
        } else {
            assert(tempo_stop(changes, tick, 1) == 1);
        }
    }
    let passed: u64 = if tick >= last_tick {
        tick - last_tick
    } else {
        0
    };
    proof {
        lemma_segment_bound(passed as nat, current_tempo);
        assert(passed as nat == sat_sub(tick, last_tick));
        assert(tempo_time(changes, tick) == tempo_walk(changes, i as int).2 + (passed as nat) * (
        current_tempo as nat));
    }
    time.saturating_add((passed as u128) * (current_tempo as u128))
}

/// Tempo-time units in one second: `1_000_000 * ppq`.
pub open spec fn units_per_second(ppq: u16) -> nat {
    (1_000_000 * ppq) as nat
}

/// The sample at which tempo time `time` falls at `sample_rate` samples per second:
/// `time * sample_rate / (1_000_000 * ppq)` rounded to the nearest integer, halves up;
/// 0 when `ppq` is 0.
pub open spec fn sample_for_time(time: nat, ppq: u16, sample_rate: u32) -> nat {
    if ppq == 0 {
        0
    } else {
        (2 * time * (sample_rate as nat) + units_per_second(ppq)) / (2 * units_per_second(ppq))
    }
}

/// `x`, or `usize::MAX` when `x` is larger.
pub open spec fn cap_usize(x: nat) -> usize {
    if x > usize::MAX {
        usize::MAX
    } else {
        x as usize
    }
}

/// The output sample at which `tick` falls (capped at `usize::MAX`).
pub open spec fn spec_sample_index_for_tick(
    ppq: u16,
    changes: Seq<TempoChange>,
    tick: u64,
    sample_rate: u32,
) -> usize {
    cap_usize(sample_for_time(tempo_time(changes, tick), ppq, sample_rate))
}

proof fn lemma_round_split(t: int, q: int, r: int, d: int, sr: int)
    requires
        t >= 0,
        q >= 0,
        r >= 0,
        sr >= 0,
        d > 0,
        t == q * d + r,
        r < d,
    ensures
        (2 * t * sr + d) / (2 * d) == q * sr + (2 * r * sr + d) / (2 * d),
        (2 * r * sr + d) / (2 * d) <= sr,
{
    let a = 2 * r * sr + d;
    let m = 2 * d;
    let q2 = a / m;
    let r2 = a % m;
    vstd::arithmetic::div_mod::lemma_fundamental_div_mod(a, m);
    vstd::arithmetic::div_mod::lemma_mod_bound(a, m);
    assert(2 * t * sr + d == m * (q * sr + q2) + r2) by (nonlinear_arith)
        requires
            t == q * d + r,
            a == 2 * r * sr + d,
            m == 2 * d,
            a == m * q2 + r2,
    ;
    vstd::arithmetic::div_mod::lemma_fundamental_div_mod_converse(
        2 * t * sr + d,
        m,
        q * sr + q2,
        r2,
    );
    assert(a <= m * (sr + 1) - 1) by (nonlinear_arith)
        requires
            a == 2 * r * sr + d,
            m == 2 * d,
            0 <= r < d,
            sr >= 0,
    ;
    assert(m * (sr + 1) - 1 == (sr) * m + (m - 1)) by (nonlinear_arith)
        requires
            m > 0,
    ;
    vstd::arithmetic::div_mod::lemma_div_is_ordered(a, m * (sr + 1) - 1, m);
    vstd::arithmetic::div_mod::lemma_fundamental_div_mod_converse(m * (sr + 1) - 1, m, sr, m - 1);
}

proof fn lemma_round_at_least_quotient(t: int, q: int, d: int, sr: int)
    requires
        t >= 0,
        q >= 0,
        d > 0,
        sr > 0,
        q * d <= t,
    ensures
        (2 * t * sr + d) / (2 * d) >= q,
{
    assert(q * (2 * d) <= 2 * t * sr + d) by (nonlinear_arith)
        requires
            q * d <= t,
            sr >= 1,
            t >= 0,
            q >= 0,
            d > 0,
    ;
    vstd::arithmetic::div_mod::lemma_div_is_ordered(q * (2 * d), 2 * t * sr + d, 2 * d);
    vstd::arithmetic::div_mod::lemma_div_multiples_vanish(q, 2 * d);
    assert(q * (2 * d) == (2 * d) * q) by (nonlinear_arith);
}

/// The output sample at which `tick` falls, at `sample_rate` samples per second.
pub fn sample_index_for_tick(
    ppq: u16,
    tempo_changes: &[TempoChange],
    tick: u64,
    sample_rate: u32,
) -> (sample: usize)
    ensures
        sample == spec_sample_index_for_tick(ppq, tempo_changes@, tick, sample_rate),
{
    if ppq == 0 {
        return 0;
    }
    let t = tempo_time_for_tick(tempo_changes, tick);
    let ghost exact = tempo_time(tempo_changes@, tick);
    let d: u128 = 1_000_000u128 * (ppq as u128);
    let q = t / d;
    let r = t % d;
    proof {
        vstd::arithmetic::div_mod::lemma_fundamental_div_mod(t as int, d as int);
        vstd::arithmetic::div_mod::lemma_mod_bound(t as int, d as int);
        assert(units_per_second(ppq) == d);
        assert(t <= exact);
        assert(q * d <= t) by (nonlinear_arith)
            requires
                t == d * q + r,
                r >= 0,
        ;
    }
    if q > usize::MAX as u128 {
        if sample_rate == 0 {
            proof {
                assert(2 * exact * 0 + d == d);
                vstd::arithmetic::div_mod::lemma_div_is_ordered(d as int, 2 * d - 1, 2 * d);
                vstd::arithmetic::div_mod::lemma_fundamental_div_mod_converse(
                    2 * d - 1,
                    2 * d,
                    0,
                    2 * d - 1,
                );
            }
            return 0;
        }
        proof {
            lemma_round_at_least_quotient(exact as int, q as int, d as int, sample_rate as int);
        }
        return usize::MAX;
    }
    proof {
        if exact > u128::MAX {
            assert(t == u128::MAX);
            assert(q > usize::MAX) by (nonlinear_arith)
                requires
                    t == q * d + r,
                    r < d,
                    d <= 1_000_000 * 65535,
                    t == u128::MAX,
            ;
        }
        assert(t == exact);
        lemma_round_split(t as int, q as int, r as int, d as int, sample_rate as int);
        assert(q * sample_rate <= usize::MAX * u32::MAX) by (nonlinear_arith)
            requires
                q <= usize::MAX,
                sample_rate <= u32::MAX,
        ;
        assert(2 * r * sample_rate + d < 2 * d * (u32::MAX + 1)) by (nonlinear_arith)
            requires
                r < d,
                sample_rate <= u32::MAX,
        ;
    }
    let whole: u128 = q * (sample_rate as u128);
    let rounding: u128 = (2 * r * (sample_rate as u128) + d) / (2 * d);
    let total: u128 = whole + rounding;
    if total > usize::MAX as u128 {
        usize::MAX
    } else {
        total as usize
    }
}

/// Walk of the tempo map from change `i` on, with `remaining` time still to place
/// (in units of `1 / (1_000_000 * ppq * sample_rate)` seconds; a tick at tempo `m` lasts
/// `m * sample_rate` of them): the tick reached, rounded down. `None` stands for a tick
/// beyond every finite tick (time left over at tempo 0).
pub open spec fn tick_walk(
    changes: Seq<TempoChange>,
    sample_rate: nat,
    i: int,
    last_tick: u64,
    tempo: u32,
    remaining: nat,
) -> Option<nat>
    decreases changes.len() - i,
{
    let rate: nat = (tempo as nat) * sample_rate;
    if i >= changes.len() {
        if rate == 0 {
            if remaining == 0 {
                Some(last_tick as nat)
            } else {
                None
            }
        } else {
            Some(last_tick as nat + remaining / rate)
        }
    } else {
        let c = changes[i];
        let segment: nat = sat_sub(c.tick, last_tick) * rate;
        if remaining < segment {
            Some(last_tick as nat + remaining / rate)
        } else {
            tick_walk(
                changes,
                sample_rate,
                i + 1,
                c.tick,
                c.micros_per_quarter,
                (remaining - segment) as nat,
            )
        }
    }
}

/// The tick reached at output sample `sample_index` (capped at `u64::MAX`); 0 when
/// `ppq`, the sample rate or the sample index is 0.
pub open spec fn spec_tick_for_sample(
    ppq: u16,
    changes: Seq<TempoChange>,
    sample_index: usize,
    sample_rate: u32,
) -> u64 {
    if ppq == 0 || sample_rate == 0 || sample_index == 0 {
        0
    } else {
        match tick_walk(
            changes,
            sample_rate as nat,
            1,
            0,
            initial_tempo(changes),
            (sample_index as nat) * units_per_second(ppq),
        ) {
            Some(t) => if t > u64::MAX {
                u64::MAX
            } else {
                t as u64
            },
            None => u64::MAX,
        }
    }
}

proof fn lemma_segment_fits(passed: nat, tempo: u32, sample_rate: u32)
    requires
        passed <= u64::MAX,
    ensures
        passed * tempo * sample_rate <= u128::MAX,
        passed * tempo <= u64::MAX * u32::MAX,
{
    assert(passed * tempo * sample_rate <= u128::MAX) by (nonlinear_arith)
        requires
            passed <= u64::MAX,
            tempo <= u32::MAX,
            sample_rate <= u32::MAX,
    ;
    lemma_segment_bound(passed, tempo);
}

/// `last + remaining / rate` for a positive rate, capped at `u64::MAX`.
fn ticks_after(last: u64, remaining: u128, rate: u128) -> (t: u64)
    requires
        rate > 0,
    ensures
        t as nat == if last + remaining / rate > u64::MAX {
            u64::MAX as nat
        } else {
            (last + remaining / rate) as nat
        },
{
    let q = remaining / rate;
    if q > (u64::MAX - last) as u128 {
        u64::MAX
    } else {
        last + (q as u64)
    }
}

/// The tick reached at output sample `sample_index` at `sample_rate` samples per second.
pub fn tick_for_sample(
    ppq: u16,
    tempo_changes: &[TempoChange],
    sample_index: usize,
    sample_rate: u32,
) -> (tick: u64)
    ensures
        tick == spec_tick_for_sample(ppq, tempo_changes@, sample_index, sample_rate),
{
    if ppq == 0 || sample_rate == 0 || sample_index == 0 {
        return 0;
    }
    let ghost changes = tempo_changes@;
    let ghost sr = sample_rate as nat;
    let mut last_tick: u64 = 0;
    let mut current_tempo: u32 = if tempo_changes.len() > 0 {
        tempo_changes[0].micros_per_quarter
    } else {
        DEFAULT_MICROS_PER_QUARTER
    };
    assert(sample_index * units_per_second(ppq) <= u64::MAX * 65_535_000_000) by (nonlinear_arith)
        requires
            sample_index <= u64::MAX,
            units_per_second(ppq) <= 65_535_000_000,
    ;
    let mut remaining: u128 = (sample_index as u128) * (1_000_000u128 * (ppq as u128));
    let ghost start = remaining as nat;
    let mut i: usize = 1;
    while i < tempo_changes.len()
        invariant
            changes == tempo_changes@,
            sr == sample_rate as nat,
            ppq != 0 && sample_rate != 0 && sample_index != 0,
            1 <= i,
            remaining <= start,
            start <= u64::MAX * 65_535_000_000,
            start == sample_index * units_per_second(ppq),
            tick_walk(changes, sr, 1, 0, initial_tempo(changes), start) == tick_walk(
                changes,
                sr,
                i as int,
                last_tick,
                current_tempo,
                remaining as nat,
            ),
        decreases tempo_changes.len() - i,
    {
        let change = tempo_changes[i];
        let passed: u64 = if change.tick >= last_tick {
            change.tick - last_tick
        } else {
            0
        };
        proof {
            lemma_segment_fits(passed as nat, current_tempo, sample_rate);
        }
        let segment: u128 = (passed as u128) * (current_tempo as u128) * (sample_rate as u128);
        if remaining < segment {
            proof {
                assert((current_tempo as nat) * (sample_rate as nat) <= u64::MAX) by (nonlinear_arith)
                    requires
                        current_tempo <= u32::MAX,
                        sample_rate <= u32::MAX,
                ;
            }
            let rate: u128 = (current_tempo as u128) * (sample_rate as u128);
            proof {
                assert(segment as nat == sat_sub(change.tick, last_tick) * ((current_tempo as nat)
                    * sr)) by (nonlinear_arith)
                    requires
                        segment == passed * current_tempo * sample_rate,
                        passed as nat == sat_sub(change.tick, last_tick),
                        sr == sample_rate,
                ;
                assert(rate > 0) by (nonlinear_arith)
                    requires
                        segment == passed * (current_tempo * sample_rate),
                        rate == current_tempo * sample_rate,
                        remaining < segment,
                ;
                assert(tick_walk(changes, sr, i as int, last_tick, current_tempo, remaining as nat)
                    == Some(last_tick as nat + (remaining as nat) / (rate as nat)));
                assert(start == (sample_index as nat) * units_per_second(ppq));
                assert(tick_walk(changes, sr, 1, 0, initial_tempo(changes), start) == Some(
                    last_tick as nat + (remaining as nat) / (rate as nat),
                ));
            }
            let t = ticks_after(last_tick, remaining, rate);
            proof {
                let x = last_tick as nat + (remaining as nat) / (rate as nat);
                assert(t as nat == if x > u64::MAX {
                    u64::MAX as nat
                } else {
                    x
                });
                assert(spec_tick_for_sample(ppq, changes, sample_index, sample_rate) == if x
                    > u64::MAX {
                    u64::MAX
                } else {
                    x as u64
                });
            }
            return t;
        }
        proof {
            assert(segment as nat == sat_sub(change.tick, last_tick) * ((current_tempo as nat)
                * sr)) by (nonlinear_arith)
                requires
                    segment == passed * current_tempo * sample_rate,
                    passed as nat == sat_sub(change.tick, last_tick),
                    sr == sample_rate,
            ;
        }
        remaining = remaining - segment;
        last_tick = change.tick;
        current_tempo = change.micros_per_quarter;
        i = i + 1;
    }
    proof {
        assert((current_tempo as nat) * (sample_rate as nat) <= u64::MAX) by (nonlinear_arith)
            requires
                current_tempo <= u32::MAX,
                sample_rate <= u32::MAX,
        ;
    }
    let rate: u128 = (current_tempo as u128) * (sample_rate as u128);
    if rate == 0 {
        if remaining == 0 {
            last_tick
        } else {
            u64::MAX
        }
    } else {
        ticks_after(last_tick, remaining, rate)
    }
}

proof fn lemma_tempo_stop_bounds(changes: Seq<TempoChange>, tick: u64, k: int)
    requires
        1 <= k,
    ensures
        k <= tempo_stop(changes, tick, k),
        k <= changes.len() ==> tempo_stop(changes, tick, k) <= changes.len(),
        tempo_stop(changes, tick, k) < changes.len() ==> changes[tempo_stop(changes, tick, k)].tick
            >= tick,
    decreases changes.len() - k,
{
    if !(k >= changes.len() || changes[k].tick >= tick) {
        lemma_tempo_stop_bounds(changes, tick, k + 1);
    }
}

proof fn lemma_tempo_stop_monotone(changes: Seq<TempoChange>, a: u64, b: u64, k: int)
    requires
        1 <= k,
        a <= b,
    ensures
        tempo_stop(changes, a, k) <= tempo_stop(changes, b, k),
    decreases changes.len() - k,
{
    lemma_tempo_stop_bounds(changes, b, k);
    if !(k >= changes.len() || changes[k].tick >= a) {
        lemma_tempo_stop_monotone(changes, a, b, k + 1);
    }
}

proof fn lemma_tempo_walk_grows(changes: Seq<TempoChange>, i: int, j: int)
    requires
        1 <= i <= j,
    ensures
        tempo_walk(changes, i).2 <= tempo_walk(changes, j).2,
    decreases j - i,
{
    if i < j {
        lemma_tempo_walk_grows(changes, i, j - 1);
    }
}

/// Law: along any tempo map, a later tick never lies earlier in time.
pub proof fn lemma_tempo_time_monotone(changes: Seq<TempoChange>, a: u64, b: u64)
    requires
        a <= b,
    ensures
        tempo_time(changes, a) <= tempo_time(changes, b),
{
    let ka = tempo_stop(changes, a, 1);
    let kb = tempo_stop(changes, b, 1);
    lemma_tempo_stop_monotone(changes, a, b, 1);
    lemma_tempo_stop_bounds(changes, a, 1);
    lemma_tempo_stop_bounds(changes, b, 1);
    let wa = tempo_walk(changes, ka);
    if ka == kb {
        assert(sat_sub(a, wa.0) * (wa.1 as nat) <= sat_sub(b, wa.0) * (wa.1 as nat)) by (nonlinear_arith)
            requires
                sat_sub(a, wa.0) <= sat_sub(b, wa.0),
        ;
    } else {
        let c = changes[ka];
        assert(c.tick >= a);
        assert(sat_sub(a, wa.0) * (wa.1 as nat) <= sat_sub(c.tick, wa.0) * (wa.1 as nat)) by (nonlinear_arith)
            requires
                sat_sub(a, wa.0) <= sat_sub(c.tick, wa.0),
        ;
        assert(tempo_walk(changes, ka + 1).2 == wa.2 + sat_sub(c.tick, wa.0) * (wa.1 as nat));
        lemma_tempo_walk_grows(changes, ka + 1, kb);
    }
}

/// Law: along any tempo map, a later tick never falls on an earlier output sample.
pub proof fn lemma_sample_index_monotone(
    ppq: u16,
    changes: Seq<TempoChange>,
    a: u64,
    b: u64,
    sample_rate: u32,
)
    requires
        a <= b,
    ensures
        spec_sample_index_for_tick(ppq, changes, a, sample_rate) <= spec_sample_index_for_tick(
            ppq,
            changes,
            b,
            sample_rate,
        ),
{
    lemma_tempo_time_monotone(changes, a, b);
    if ppq != 0 {
        let ta = tempo_time(changes, a);
        let tb = tempo_time(changes, b);
        let d = units_per_second(ppq);
        assert(2 * ta * (sample_rate as nat) + d <= 2 * tb * (sample_rate as nat) + d) by (nonlinear_arith)
            requires
                ta <= tb,
        ;
        vstd::arithmetic::div_mod::lemma_div_is_ordered(
            (2 * ta * (sample_rate as nat) + d) as int,
            (2 * tb * (sample_rate as nat) + d) as int,
            2 * d as int,
        );
    }
}

/// Law: at the song's start (tick 0) no time has passed, so tick 0 plays at sample 0.
pub proof fn lemma_tick_zero_is_sample_zero(ppq: u16, changes: Seq<TempoChange>, sample_rate: u32)
    ensures
        tempo_time(changes, 0) == 0,
        spec_sample_index_for_tick(ppq, changes, 0, sample_rate) == 0,
{
    assert(tempo_stop(changes, 0, 1) == 1);
    let w = tempo_walk(changes, 1);
    assert(w.0 == 0 && w.2 == 0);
    assert(sat_sub(0, w.0) == 0);
    assert(tempo_time(changes, 0) == 0);
    if ppq != 0 {
        let d: int = units_per_second(ppq) as int;
        let sr: int = sample_rate as int;
        assert(2 * 0 * sr == 0) by (nonlinear_arith);
        vstd::arithmetic::div_mod::lemma_fundamental_div_mod_converse(d, 2 * d, 0, d);
        assert(sample_for_time(0, ppq, sample_rate) == 0);
    }
}


/// The changes after the first come in order of tick (the first change only sets the
/// tempo that holds from tick 0, whatever its own tick).
pub open spec fn ticks_in_order(changes: Seq<TempoChange>) -> bool {
    forall|i: int, j: int|
        1 <= i <= j < changes.len() ==> #[trigger] changes[i].tick <= #[trigger] changes[j].tick
}

/// Every tempo of the map is positive: each tick takes some time.
pub open spec fn tempos_positive(changes: Seq<TempoChange>) -> bool {
    forall|i: int| 0 <= i < changes.len() ==> #[trigger] changes[i].micros_per_quarter > 0
}

/// Tempo time at `tick` measured from the change walked to at index `i`: the time
/// elapsed up to that change plus the ticks since it at its tempo.
spec fn time_from_walk(changes: Seq<TempoChange>, i: int, tick: u64) -> nat {
    let w = tempo_walk(changes, i);
    w.2 + sat_sub(tick, w.0) * (w.1 as nat)
}

proof fn lemma_tempo_stop_passed(changes: Seq<TempoChange>, tick: u64, k: int)
    requires
        1 <= k,
    ensures
        forall|j: int| k <= j < tempo_stop(changes, tick, k) ==> #[trigger] changes[j].tick < tick,
    decreases changes.len() - k,
{
    if !(k >= changes.len() || changes[k].tick >= tick) {
        lemma_tempo_stop_passed(changes, tick, k + 1);
    }
}

proof fn lemma_tempo_stop_at_most(changes: Seq<TempoChange>, tick: u64, k: int, i: int)
    requires
        1 <= k <= i,
        i < changes.len() ==> changes[i].tick >= tick,
    ensures
        tempo_stop(changes, tick, k) <= i,
    decreases changes.len() - k,
{
    if !(k >= changes.len() || changes[k].tick >= tick) {
        lemma_tempo_stop_at_most(changes, tick, k + 1, i);
    }
}

/// Changes that all lie at `tick` take no time up to `tick`.
proof fn lemma_time_from_walk_same_tick(changes: Seq<TempoChange>, k: int, i: int, tick: u64)
    requires
        1 <= k <= i <= changes.len(),
        tempo_walk(changes, k).0 <= tick,
        forall|j: int| k <= j < i ==> #[trigger] changes[j].tick == tick,
    ensures
        time_from_walk(changes, i, tick) == time_from_walk(changes, k, tick),
    decreases i - k,
{
    if k < i {
        let w = tempo_walk(changes, k);
        let w2 = tempo_walk(changes, k + 1);
        assert(changes[k].tick == tick);
        assert(w2 == (tick, changes[k].micros_per_quarter, w.2 + sat_sub(tick, w.0) * (w.1 as nat)));
        assert(sat_sub(tick, w2.0) == 0);
        assert(sat_sub(tick, w2.0) * (w2.1 as nat) == 0);
        lemma_time_from_walk_same_tick(changes, k + 1, i, tick);
    }
}

/// On a map in order, the time at a tick between the change walked to at `i` and the
/// next change is measured from change `i`.
proof fn lemma_time_in_segment(changes: Seq<TempoChange>, i: int, tick: u64)
    requires
        ticks_in_order(changes),
        1 <= i,
        i <= changes.len() || i == 1,
        tempo_walk(changes, i).0 <= tick,
        i < changes.len() ==> changes[i].tick >= tick,
    ensures
        tempo_time(changes, tick) == time_from_walk(changes, i, tick),
{
    let k = tempo_stop(changes, tick, 1);
    lemma_tempo_stop_bounds(changes, tick, 1);
    lemma_tempo_stop_at_most(changes, tick, 1, i);
    if k < i {
        assert forall|j: int| k <= j < i implies #[trigger] changes[j].tick == tick by {
            assert(changes[k].tick <= changes[j].tick);
            assert(changes[j].tick <= changes[i - 1].tick);
        }
        if k > 1 {
            assert(changes[k - 1].tick <= changes[i - 1].tick);
        }
        lemma_time_from_walk_same_tick(changes, k, i, tick);
    }
}

/// The tempo in force after the change walked to at `i`.
proof fn lemma_walk_tempo_positive(changes: Seq<TempoChange>, i: int)
    requires
        tempos_positive(changes),
        1 <= i,
        i <= changes.len() || i == 1,
    ensures
        tempo_walk(changes, i).1 > 0,
{
    if i > 1 {
        assert(changes[i - 1].micros_per_quarter > 0);
    } else if changes.len() > 0 {
        assert(changes[0].micros_per_quarter > 0);
    }
}

/// With positive tempos, each tick lasts: the time strictly grows from tick to tick.
proof fn lemma_tempo_time_step(changes: Seq<TempoChange>, tick: u64)
    requires
        ticks_in_order(changes),
        tempos_positive(changes),
        tick < u64::MAX,
    ensures
        tempo_time(changes, tick) < tempo_time(changes, (tick + 1) as u64),
        tempo_time(changes, (tick + 1) as u64) == tempo_time(changes, tick) + tempo_walk(
            changes,
            tempo_stop(changes, (tick + 1) as u64, 1),
        ).1,
{
    let next = (tick + 1) as u64;
    let i = tempo_stop(changes, next, 1);
    lemma_tempo_stop_bounds(changes, next, 1);
    lemma_tempo_stop_passed(changes, next, 1);
    if i > 1 {
        assert(changes[i - 1].tick < next);
    }
    lemma_time_in_segment(changes, i, tick);
    lemma_time_in_segment(changes, i, next);
    lemma_walk_tempo_positive(changes, i);
    let w = tempo_walk(changes, i);
    assert(sat_sub(next, w.0) == sat_sub(tick, w.0) + 1);
    assert(sat_sub(next, w.0) * (w.1 as nat) == sat_sub(tick, w.0) * (w.1 as nat) + (w.1 as nat)) by (nonlinear_arith)
        requires
            sat_sub(next, w.0) == sat_sub(tick, w.0) + 1,
    ;
}

/// The tick reached inside a segment at positive `rate`: `q` whole ticks after the
/// segment's start, where `q * rate <= remaining < (q + 1) * rate`.
proof fn lemma_segment_bounds(
    changes: Seq<TempoChange>,
    i: int,
    sr: nat,
    x: nat,
    remaining: nat,
    tick: u64,
)
    requires
        ticks_in_order(changes),
        1 <= i,
        i <= changes.len() || i == 1,
        sr > 0,
        tick < u64::MAX,
        tempo_walk(changes, i).1 > 0,
        tempo_walk(changes, i).0 <= tick,
        i < changes.len() ==> changes[i].tick >= tick + 1,
        x == tempo_walk(changes, i).2 * sr + remaining,
        tick == tempo_walk(changes, i).0 + remaining / ((tempo_walk(changes, i).1 as nat) * sr),
    ensures
        tempo_time(changes, tick) * sr <= x,
        x < tempo_time(changes, (tick + 1) as u64) * sr,
{
    let w = tempo_walk(changes, i);
    let tempo = w.1 as nat;
    let rate = tempo * sr;
    let next = (tick + 1) as u64;
    assert(rate > 0) by (nonlinear_arith)
        requires
            tempo > 0,
            sr > 0,
            rate == tempo * sr,
    ;
    let q = remaining / rate;
    vstd::arithmetic::div_mod::lemma_fundamental_div_mod(remaining as int, rate as int);
    vstd::arithmetic::div_mod::lemma_mod_bound(remaining as int, rate as int);
    lemma_time_in_segment(changes, i, tick);
    lemma_time_in_segment(changes, i, next);
    assert(sat_sub(tick, w.0) == q);
    assert(sat_sub(next, w.0) == q + 1);
    assert(tempo_time(changes, tick) * sr == w.2 * sr + q * rate) by (nonlinear_arith)
        requires
            tempo_time(changes, tick) == w.2 + q * tempo,
            rate == tempo * sr,
    ;
    assert(tempo_time(changes, next) * sr == w.2 * sr + (q + 1) * rate) by (nonlinear_arith)
        requires
            tempo_time(changes, next) == w.2 + (q + 1) * tempo,
            rate == tempo * sr,
    ;
    assert(q * rate <= remaining < (q + 1) * rate) by (nonlinear_arith)
        requires
            remaining == rate * q + remaining % rate,
            0 <= remaining % rate < rate,
    ;
}

/// From the change walked to at `i`, with the time of `x` not yet reached, the tick
/// walk ends on the last tick whose time does not lie after `x`.
proof fn lemma_tick_walk_inverts_time(changes: Seq<TempoChange>, sr: nat, i: int, x: nat)
    requires
        ticks_in_order(changes),
        tempos_positive(changes),
        sr > 0,
        1 <= i,
        i <= changes.len() || i == 1,
        tempo_walk(changes, i).2 * sr <= x,
    ensures
        ({
            let w = tempo_walk(changes, i);
            match tick_walk(changes, sr, i, w.0, w.1, (x - w.2 * sr) as nat) {
                Some(t) => {
                    &&& t < u64::MAX ==> {
                        &&& tempo_time(changes, t as u64) * sr <= x
                        &&& x < tempo_time(changes, (t + 1) as u64) * sr
                    }
                    &&& t >= u64::MAX ==> tempo_time(changes, u64::MAX) * sr <= x
                },
                None => false,
            }
        }),
    decreases changes.len() - i,
{
    let w = tempo_walk(changes, i);
    let remaining = (x - w.2 * sr) as nat;
    lemma_walk_tempo_positive(changes, i);
    let tempo = w.1 as nat;
    let rate = tempo * sr;
    assert(rate > 0) by (nonlinear_arith)
        requires
            tempo > 0,
            sr > 0,
            rate == tempo * sr,
    ;
    let q = remaining / rate;
    if i >= changes.len() {
        let t = w.0 as nat + q;
        if t < u64::MAX {
            lemma_segment_bounds(changes, i, sr, x, remaining, t as u64);
        } else {
            let u = u64::MAX;
            lemma_time_in_segment(changes, i, u);
            let k = sat_sub(u, w.0);
            assert(k <= q);
            vstd::arithmetic::div_mod::lemma_fundamental_div_mod(remaining as int, rate as int);
            vstd::arithmetic::div_mod::lemma_mod_bound(remaining as int, rate as int);
            assert(tempo_time(changes, u) * sr <= x) by (nonlinear_arith)
                requires
                    tempo_time(changes, u) == w.2 + k * tempo,
                    k <= q,
                    rate == tempo * sr,
                    remaining == rate * q + remaining % rate,
                    0 <= remaining % rate,
                    x == w.2 * sr + remaining,
                    sr > 0,
            ;
        }
    } else {
        let c = changes[i];
        if i > 1 {
            assert(changes[i - 1].tick <= changes[i].tick);
        }
        assert(sat_sub(c.tick, w.0) == c.tick - w.0);
        let segment: nat = sat_sub(c.tick, w.0) * rate;
        if remaining < segment {
            vstd::arithmetic::div_mod::lemma_fundamental_div_mod(remaining as int, rate as int);
            vstd::arithmetic::div_mod::lemma_mod_bound(remaining as int, rate as int);
            assert(q < c.tick - w.0) by (nonlinear_arith)
                requires
                    remaining == rate * q + remaining % rate,
                    0 <= remaining % rate,
                    remaining < (c.tick - w.0) * rate,
                    rate > 0,
            ;
            let t = w.0 as nat + q;
            lemma_segment_bounds(changes, i, sr, x, remaining, t as u64);
        } else {
            let w2 = tempo_walk(changes, i + 1);
            assert(w2.0 == c.tick && w2.1 == c.micros_per_quarter);
            assert(w2.2 == w.2 + sat_sub(c.tick, w.0) * tempo);
            assert(w2.2 * sr == w.2 * sr + segment) by (nonlinear_arith)
                requires
                    w2.2 == w.2 + sat_sub(c.tick, w.0) * tempo,
                    segment == sat_sub(c.tick, w.0) * rate,
                    rate == tempo * sr,
            ;
            lemma_tick_walk_inverts_time(changes, sr, i + 1, x);
        }
    }
}

/// Law: on a tempo map in order of tick with positive tempos, the tick reached at an
/// output sample is the one sounding then: its time does not lie after the sample's
/// and the next tick's does; and converting that tick back gives no later sample.
/// (When the tick is capped at `u64::MAX` there is no next tick to compare with.)
pub proof fn lemma_tick_for_sample_inverts_time(
    ppq: u16,
    changes: Seq<TempoChange>,
    sample_index: usize,
    sample_rate: u32,
)
    requires
        ppq > 0,
        sample_rate > 0,
        ticks_in_order(changes),
        tempos_positive(changes),
    ensures
        ({
            let t = spec_tick_for_sample(ppq, changes, sample_index, sample_rate);
            let x = (sample_index as nat) * units_per_second(ppq);
            &&& tempo_time(changes, t) * (sample_rate as nat) <= x
            &&& t < u64::MAX ==> x < tempo_time(changes, (t + 1) as u64) * (sample_rate as nat)
            &&& spec_sample_index_for_tick(ppq, changes, t, sample_rate) <= sample_index
        }),
{
    let t = spec_tick_for_sample(ppq, changes, sample_index, sample_rate);
    let sr = sample_rate as nat;
    let d = units_per_second(ppq);
    let x = (sample_index as nat) * d;
    if sample_index == 0 {
        lemma_tick_zero_is_sample_zero(ppq, changes, sample_rate);
        lemma_tempo_time_step(changes, 0);
        assert(x == 0);
        assert(tempo_time(changes, 1) * sr >= sr) by (nonlinear_arith)
            requires
                tempo_time(changes, 1) >= 1,
        ;
    } else {
        assert(tempo_walk(changes, 1) == (0u64, initial_tempo(changes), 0nat));
        assert(0nat * sr == 0);
        lemma_tick_walk_inverts_time(changes, sr, 1, x);
        let r = tick_walk(changes, sr, 1, 0, initial_tempo(changes), x);
        assert(r == tick_walk(changes, sr, 1, 0, initial_tempo(changes), (x - 0nat * sr) as nat));
        assert(r is Some);
        if r->0 < u64::MAX {
            assert(t as nat == r->0);
        } else {
            assert(t == u64::MAX);
        }
    }
    let time = tempo_time(changes, t);
    assert(2 * time * sr + d <= (2 * d) * sample_index + d) by (nonlinear_arith)
        requires
            time * sr <= x,
            x == sample_index * d,
    ;
    vstd::arithmetic::div_mod::lemma_div_is_ordered(
        (2 * time * sr + d) as int,
        ((2 * d) * sample_index + d) as int,
        (2 * d) as int,
    );
    vstd::arithmetic::div_mod::lemma_fundamental_div_mod_converse(
        ((2 * d) * sample_index + d) as int,
        (2 * d) as int,
        sample_index as int,
        d as int,
    );
}


/// At `sample_rate`, every tempo of the map (and the tempo before any change) makes a
/// tick last at least one output sample.
pub open spec fn ticks_last_a_sample(ppq: u16, changes: Seq<TempoChange>, sample_rate: u32) -> bool {
    &&& (initial_tempo(changes) as nat) * (sample_rate as nat) >= units_per_second(ppq)
    &&& forall|i: int|
        0 <= i < changes.len() ==> (#[trigger] changes[i].micros_per_quarter as nat) * (
        sample_rate as nat) >= units_per_second(ppq)
}

proof fn lemma_walk_tempo_lasts(ppq: u16, changes: Seq<TempoChange>, sample_rate: u32, i: int)
    requires
        ticks_last_a_sample(ppq, changes, sample_rate),
        1 <= i,
        i <= changes.len() || i == 1,
    ensures
        (tempo_walk(changes, i).1 as nat) * (sample_rate as nat) >= units_per_second(ppq),
{
    if i > 1 {
        assert(changes[i - 1].micros_per_quarter * (sample_rate as nat) >= units_per_second(ppq));
    }
}

/// One tick later lies at least one sample's worth of tempo time later.
proof fn lemma_tick_lasts_a_sample(ppq: u16, changes: Seq<TempoChange>, sample_rate: u32, tick: u64)
    requires
        ppq > 0,
        ticks_in_order(changes),
        ticks_last_a_sample(ppq, changes, sample_rate),
        tick < u64::MAX,
    ensures
        tempo_time(changes, tick) * (sample_rate as nat) + units_per_second(ppq) <= tempo_time(
            changes,
            (tick + 1) as u64,
        ) * (sample_rate as nat),
{
    let sr = sample_rate as nat;
    let d = units_per_second(ppq);
    assert forall|j: int| 0 <= j < changes.len() implies #[trigger] changes[j].micros_per_quarter
        > 0 by {
        assert(changes[j].micros_per_quarter * sr >= d);
        if changes[j].micros_per_quarter == 0 {
            assert(0 * sr == 0);
        }
    }
    let next = (tick + 1) as u64;
    let i = tempo_stop(changes, next, 1);
    lemma_tempo_stop_bounds(changes, next, 1);
    lemma_tempo_time_step(changes, tick);
    lemma_walk_tempo_lasts(ppq, changes, sample_rate, i);
    let m = tempo_walk(changes, i).1 as nat;
    let a = tempo_time(changes, tick);
    let b = tempo_time(changes, next);
    assert(b * sr == a * sr + m * sr) by (nonlinear_arith)
        requires
            b == a + m,
    ;
}

/// Law: where each tick lasts at least one output sample, converting a tick to its
/// sample and back gives the tick again, or the one before it (the sample is rounded
/// to the nearest). Ticks whose sample lies beyond `usize::MAX - 1`, which the
/// conversion caps, are left out.
pub proof fn lemma_tick_sample_round_trip(
    ppq: u16,
    changes: Seq<TempoChange>,
    tick: u64,
    sample_rate: u32,
)
    requires
        ppq > 0,
        sample_rate > 0,
        ticks_in_order(changes),
        ticks_last_a_sample(ppq, changes, sample_rate),
        spec_sample_index_for_tick(ppq, changes, tick, sample_rate) < usize::MAX,
    ensures
        ({
            let back = spec_tick_for_sample(
                ppq,
                changes,
                spec_sample_index_for_tick(ppq, changes, tick, sample_rate),
                sample_rate,
            );
            &&& back <= tick
            &&& tick <= back + 1
        }),
{
    let sr = sample_rate as nat;
    let d = units_per_second(ppq);
    assert(tempos_positive(changes)) by {
        assert forall|j: int| 0 <= j < changes.len() implies #[trigger] changes[j].micros_per_quarter
            > 0 by {
            assert(changes[j].micros_per_quarter * sr >= d);
            if changes[j].micros_per_quarter == 0 {
                assert(0 * sr == 0);
            }
        }
    }
    let s = spec_sample_index_for_tick(ppq, changes, tick, sample_rate);
    let b = spec_tick_for_sample(ppq, changes, s, sample_rate);
    lemma_tick_for_sample_inverts_time(ppq, changes, s, sample_rate);
    let x = (s as nat) * d;
    let t = tempo_time(changes, tick);
    let ts = t * sr;
    // The sample is the time rounded to the nearest: 2 s d <= 2 t sr + d < 2 (s + 1) d.
    let num = 2 * t * sr + d;
    assert(s as nat == num / (2 * d));
    vstd::arithmetic::div_mod::lemma_fundamental_div_mod(num as int, (2 * d) as int);
    vstd::arithmetic::div_mod::lemma_mod_bound(num as int, (2 * d) as int);
    assert(2 * x <= 2 * ts + d && 2 * ts + d < 2 * x + 2 * d) by (nonlinear_arith)
        requires
            num == (2 * d) * (s as nat) + num % (2 * d),
            0 <= num % (2 * d) < 2 * d,
            num == 2 * t * sr + d,
            x == (s as nat) * d,
            ts == t * sr,
    ;
    if b > tick {
        lemma_tick_lasts_a_sample(ppq, changes, sample_rate, tick);
        lemma_tempo_time_monotone(changes, (tick + 1) as u64, b);
        let u = tempo_time(changes, (tick + 1) as u64);
        let v = tempo_time(changes, b);
        assert(u * sr <= v * sr) by (nonlinear_arith)
            requires
                u <= v,
        ;
    }
    if tick > b + 1 {
        let p = (tick - 1) as u64;
        lemma_tick_lasts_a_sample(ppq, changes, sample_rate, p);
        lemma_tempo_time_monotone(changes, (b + 1) as u64, p);
        let u = tempo_time(changes, (b + 1) as u64);
        let v = tempo_time(changes, p);
        assert(u * sr <= v * sr) by (nonlinear_arith)
            requires
                u <= v,
        ;
    }
}

} // verus!
