//! The tone pipeline: turn frequency codes and durations into playable
//! sample sequences - sustained tones, silences, chords, glides, and
//! fade-in/fade-out bookends.

use vstd::prelude::*;

use crate::repeater::{Repeater, total_plays};
use crate::signal::{LimitRepeat, Signal};
use crate::smoother::{smooth_model, Smoother};
use crate::tables::{
    get_pitch, is_common_multiple, multi_sin_spec, multi_sin_table, nonzero_pitches, seq_repeat,
    sin_table, sin_table_spec, transition_spec, transition_table, PITCH_SCALE,
};

verus! {

/// Samples per millisecond of requested duration: a duration of `ms`
/// milliseconds is sized as `LOOP_ADJUST * ms` samples.  The tie to wall
/// time is very approximate; durations are really sample counts.
pub const LOOP_ADJUST: usize = 45;

/// The crossfade increment the bookends use, about 0.001 of full scale.
pub const SMOOTH_STEP: i32 = 2_147_484;

/// The samples of `ms` milliseconds of silence.
pub open spec fn silence_model(ms: int) -> Seq<i32> {
    Seq::new((ms * LOOP_ADJUST) as nat, |i: int| 0i32)
}

/// The samples of a sustained tone at frequency code `chz` held for
/// roughly `ms` milliseconds: whole periods of the code's sine table,
/// as many as fit the requested duration (at least one).  Code 0 is a
/// single silent sample held for the duration.
pub open spec fn wave_model(chz: int, ms: int) -> Seq<i32> {
    if chz == 0 {
        seq_repeat(seq![0i32], total_plays((ms * LOOP_ADJUST) as nat))
    } else {
        let pitch = PITCH_SCALE as int / chz;
        seq_repeat(sin_table_spec(pitch), total_plays(((ms * LOOP_ADJUST) / pitch) as nat))
    }
}

proof fn lemma_div_at_least_one(a: int, b: int)
    requires
        0 < b <= a,
    ensures
        a / b >= 1,
        a / b <= a,
{
    assert(b / b == 1) by (nonlinear_arith)
        requires
            b > 0,
    ;
    vstd::arithmetic::div_mod::lemma_div_is_ordered(b, a, b);
    vstd::arithmetic::div_mod::lemma_div_nonincreasing(a, b);
}

/// A sustained tone: the sine table of the code's pitch period, looped
/// until roughly `milli_secs` milliseconds of samples are reached
/// (rounded down to whole periods, but never below one).
pub fn make_wave(chz: usize, milli_secs: usize) -> (r: Repeater)
    requires
        milli_secs * LOOP_ADJUST <= usize::MAX,
        chz <= PITCH_SCALE,
    ensures
        r.wf(),
        r.model() == wave_model(chz as int, milli_secs as int),
        chz > 0 ==> r.base_model() == sin_table_spec(PITCH_SCALE as int / chz as int),
        chz == 0 ==> r.base_model() == seq![0i32],
{
    if chz == 0 {
        let mut t: Vec<i32> = Vec::new();
        t.push(0);
        proof {
            assert(t@ =~= seq![0i32]);
        }
        Repeater::new(t, milli_secs * LOOP_ADJUST)
    } else {
        let pitch = get_pitch(chz);
        proof {
            lemma_div_at_least_one(PITCH_SCALE as int, chz as int);
        }
        let loops = (milli_secs * LOOP_ADJUST) / pitch;
        Repeater::new(sin_table(pitch), loops)
    }
}

/// Duration law: a sustained tone at code `chz` for `ms` milliseconds
/// has one base period per play, so its total length is a whole number
/// of periods and lands within one period of the requested
/// `ms * LOOP_ADJUST` samples.
pub proof fn lemma_tone_duration(chz: int, ms: int)
    requires
        0 < chz <= PITCH_SCALE,
        0 <= ms,
    ensures
        ({
            let pitch = PITCH_SCALE as int / chz;
            let t = ms * LOOP_ADJUST;
            &&& sin_table_spec(pitch).len() == pitch
            &&& wave_model(chz, ms).len() == pitch * total_plays((t / pitch) as nat)
            &&& t - pitch < wave_model(chz, ms).len() <= t + pitch
        }),
{
    let pitch = PITCH_SCALE as int / chz;
    let t = ms * LOOP_ADJUST;
    lemma_div_at_least_one(PITCH_SCALE as int, chz);
    let q = t / pitch;
    let plays = total_plays(q as nat);
    assert(sin_table_spec(pitch).len() == pitch);
    assert(wave_model(chz, ms) == seq_repeat(sin_table_spec(pitch), plays));
    crate::tables::lemma_seq_repeat_len(sin_table_spec(pitch), plays);
    assert(wave_model(chz, ms).len() == plays * pitch);
    vstd::arithmetic::div_mod::lemma_fundamental_div_mod(t, pitch);
    vstd::arithmetic::div_mod::lemma_mod_bound(t, pitch);
    vstd::arithmetic::div_mod::lemma_div_pos_is_pos(t, pitch);
    if q == 0 {
        assert(q as nat == 0);
        assert(plays == 1);
        assert(plays * pitch == pitch) by (nonlinear_arith)
            requires
                plays == 1,
        ;
        assert(wave_model(chz, ms).len() == pitch);
        assert(t == pitch * q + t % pitch);
        assert(pitch * q == 0) by (nonlinear_arith)
            requires
                q == 0,
        ;
        assert(t < pitch);
        assert(t - pitch < wave_model(chz, ms).len() <= t + pitch);
    } else {
        assert(plays == q);
        assert(wave_model(chz, ms).len() == q * pitch) by (nonlinear_arith)
            requires
                wave_model(chz, ms).len() == plays * pitch,
                plays == q,
        ;
        assert(t == pitch * q + t % pitch);
        assert(q * pitch == pitch * q) by (nonlinear_arith);
        assert(t - pitch < wave_model(chz, ms).len() <= t + pitch);
    }
}

/// Roughly `milli_secs` milliseconds of silence.
pub fn make_silence(milli_secs: usize) -> (r: LimitRepeat)
    requires
        milli_secs * LOOP_ADJUST <= usize::MAX,
    ensures
        r.model() == silence_model(milli_secs as int),
        r.value == 0,
        r.left == milli_secs * LOOP_ADJUST,
{
    let tics = milli_secs * LOOP_ADJUST;
    let r = LimitRepeat { value: 0, left: tics };
    proof {
        assert(r.model() =~= silence_model(milli_secs as int));
    }
    r
}

/// One voice of a multi-tone sequence: the tone for `chz` unless its
/// doubly-inverted pitch runs too fast to render, in which case silence
/// of the same duration.
pub open spec fn tone_or_silence(chz: int, ms: int) -> Seq<i32> {
    let p = PITCH_SCALE as int / chz;
    if p < 10 {
        silence_model(ms)
    } else {
        wave_model(p, ms)
    }
}

/// The concatenation of the voices for each code of `chzs` in order.
pub open spec fn multi_tone_model(chzs: Seq<usize>, ms: int) -> Seq<i32>
    decreases chzs.len(),
{
    if chzs.len() == 0 {
        Seq::empty()
    } else {
        multi_tone_model(chzs.drop_last(), ms) + tone_or_silence(chzs.last() as int, ms)
    }
}

/// One tone (or silence) per frequency code, played one after another;
/// an empty list of codes is a stretch of silence.
pub fn multi_wave(chzs: &[usize], milli_secs: usize) -> (r: Signal)
    requires
        milli_secs * LOOP_ADJUST <= usize::MAX,
        forall|j: int| 0 <= j < chzs@.len() ==> #[trigger] chzs@[j] > 0,
    ensures
        r.wf(),
        chzs@.len() == 0 ==> r.model() == silence_model(milli_secs as int),
        chzs@.len() > 0 ==> r.model() == multi_tone_model(chzs@, milli_secs as int),
{
    let mut wv: Signal = Signal::Limit(make_silence(milli_secs));
    let mut i: usize = 0;
    while i < chzs.len()
        invariant
            0 <= i <= chzs@.len(),
            milli_secs * LOOP_ADJUST <= usize::MAX,
            forall|j: int| 0 <= j < chzs@.len() ==> #[trigger] chzs@[j] > 0,
            wv.wf(),
            i == 0 ==> wv.model() == silence_model(milli_secs as int),
            i > 0 ==> wv.model() == multi_tone_model(chzs@.subrange(0, i as int), milli_secs as int),
        decreases chzs@.len() - i,
    {
        let p = get_pitch(chzs[i]);
        proof {
            vstd::arithmetic::div_mod::lemma_div_nonincreasing(
                PITCH_SCALE as int,
                chzs@[i as int] as int,
            );
        }
        let wv2: Signal = if p < 10 {
            Signal::Limit(make_silence(milli_secs))
        } else {
            make_wave(p, milli_secs).into_signal()
        };
        proof {
            assert(wv2.model() == tone_or_silence(chzs@[i as int] as int, milli_secs as int));
            assert(chzs@.subrange(0, i as int + 1).drop_last() =~= chzs@.subrange(0, i as int));
            assert(chzs@.subrange(0, i as int + 1).last() == chzs@[i as int]);
        }
        if i == 0 {
            wv = wv2;
            proof {
                assert(chzs@.subrange(0, 0) =~= Seq::<usize>::empty());
                assert(multi_tone_model(Seq::<usize>::empty(), milli_secs as int)
                    == Seq::<i32>::empty());
                assert(multi_tone_model(chzs@.subrange(0, 1), milli_secs as int)
                    == multi_tone_model(chzs@.subrange(0, 0), milli_secs as int)
                    + tone_or_silence(chzs@[0] as int, milli_secs as int));
                assert(Seq::<i32>::empty() + tone_or_silence(chzs@[0] as int, milli_secs as int)
                    =~= tone_or_silence(chzs@[0] as int, milli_secs as int));
            }
        } else {
            wv = Signal::chain(wv, wv2);
        }
        i = i + 1;
    }
    proof {
        if chzs@.len() > 0 {
            assert(chzs@.subrange(0, chzs@.len() as int) =~= chzs@);
        }
    }
    wv
}

/// Bookend a sequence with fade-in and fade-out: silence crossfaded into
/// the sequence, and the result crossfaded into silence again, so an
/// arbitrary signal starts and ends without a click.
pub fn bookend(wv: Signal, milli_secs: usize) -> (r: Signal)
    requires
        wv.wf(),
        milli_secs * LOOP_ADJUST <= usize::MAX,
    ensures
        r.wf(),
        r.model() == smooth_model(
            smooth_model(silence_model(milli_secs as int), wv.model(), SMOOTH_STEP),
            silence_model(milli_secs as int),
            SMOOTH_STEP,
        ),
{
    let bookends = make_silence(milli_secs);
    let tail = LimitRepeat { value: bookends.value, left: bookends.left };
    proof {
        assert(tail.model() =~= silence_model(milli_secs as int));
    }
    let inner = Smoother::new(Signal::Limit(bookends), wv, SMOOTH_STEP);
    let outer = Smoother::new(inner.into_signal(), Signal::Limit(tail), SMOOTH_STEP);
    outer.into_signal()
}

/// The pitch periods of each frequency code of `chzs`.
pub open spec fn pitch_codes(chzs: Seq<usize>) -> Seq<usize> {
    Seq::new(chzs.len(), |j: int| (PITCH_SCALE as int / chzs[j] as int) as usize)
}

/// An exactly-periodic chord over the codes of `chzs`, looped until
/// roughly `milli_secs` milliseconds of samples are reached; an empty
/// list degrades to the silent tone.
pub fn make_chord(chzs: &[usize], milli_secs: usize) -> (r: Repeater)
    requires
        milli_secs * LOOP_ADJUST <= usize::MAX,
        forall|j: int| 0 <= j < chzs@.len() ==> #[trigger] chzs@[j] > 0,
        chzs@.len() > 0 ==> exists|m: int|
            0 < m <= usize::MAX && is_common_multiple(nonzero_pitches(pitch_codes(chzs@)), m),
    ensures
        r.wf(),
        chzs@.len() == 0 ==> r.model() == wave_model(0, milli_secs as int),
        chzs@.len() > 0 ==> {
            let table = multi_sin_spec(pitch_codes(chzs@));
            &&& r.base_model() == table
            &&& r.model() == seq_repeat(
                table,
                total_plays(((milli_secs * LOOP_ADJUST) as int / table.len() as int) as nat),
            )
        },
{
    if chzs.len() == 0 {
        return make_wave(0, milli_secs);
    }
    let mut pitches: Vec<usize> = Vec::new();
    let mut i: usize = 0;
    while i < chzs.len()
        invariant
            0 <= i <= chzs@.len(),
            forall|j: int| 0 <= j < chzs@.len() ==> #[trigger] chzs@[j] > 0,
            pitches@ =~= pitch_codes(chzs@).subrange(0, i as int),
        decreases chzs@.len() - i,
    {
        proof {
            assert(pitches@.push((PITCH_SCALE as int / chzs@[i as int] as int) as usize)
                =~= pitch_codes(chzs@).subrange(0, i as int + 1));
        }
        pitches.push(get_pitch(chzs[i]));
        i = i + 1;
    }
    proof {
        assert(pitches@ =~= pitch_codes(chzs@));
    }
    let v = multi_sin_table(pitches.as_slice());
    let loops = (milli_secs * LOOP_ADJUST) / v.len();
    Repeater::new(v, loops)
}

/// A glide between two frequency codes: every whole pitch period from the
/// first code's to the second's, each held for the number of repeats that
/// spreads the requested duration across the glide.
pub fn make_wave_transition(start_chz: usize, end_chz: usize, millis: usize) -> (r: Signal)
    requires
        start_chz > 0,
        end_chz > 0,
        PITCH_SCALE as int / start_chz as int != PITCH_SCALE as int / end_chz as int,
        2 * millis * LOOP_ADJUST <= usize::MAX,
    ensures
        r.wf(),
        ({
            let sp = PITCH_SCALE as int / start_chz as int;
            let ep = PITCH_SCALE as int / end_chz as int;
            let diff = if sp > ep {
                sp - ep
            } else {
                ep - sp
            };
            r.model() == transition_spec(
                sp,
                ep,
                (((2 * millis * LOOP_ADJUST) as int / (diff * (sp + ep))) as nat),
            )
        }),
{
    let start = get_pitch(start_chz);
    let end = get_pitch(end_chz);
    proof {
        vstd::arithmetic::div_mod::lemma_div_nonincreasing(PITCH_SCALE as int, start_chz as int);
        vstd::arithmetic::div_mod::lemma_div_nonincreasing(PITCH_SCALE as int, end_chz as int);
        vstd::arithmetic::div_mod::lemma_div_pos_is_pos(PITCH_SCALE as int, start_chz as int);
        vstd::arithmetic::div_mod::lemma_div_pos_is_pos(PITCH_SCALE as int, end_chz as int);
    }
    let diff = if start > end {
        start - end
    } else {
        end - start
    };
    proof {
        assert(start <= PITCH_SCALE && end <= PITCH_SCALE);
        assert(diff >= 1);
        assert(start + end >= 1);
        assert((diff as int) * ((start + end) as int) >= 1) by (nonlinear_arith)
            requires
                diff as int >= 1,
                (start + end) as int >= 1,
        ;
        assert((diff as int) * ((start + end) as int) <= 4_500_000 * 9_000_000)
            by (nonlinear_arith)
            requires
                0 <= diff as int <= 4_500_000,
                0 <= (start + end) as int <= 9_000_000,
        ;
    }
    // the duration spread across diff steps of (start+end)/2 samples each
    let denom: u64 = (diff as u64) * ((start + end) as u64);
    let num: u64 = (2 * millis * LOOP_ADJUST) as u64;
    let loops_per_64: u64 = num / denom;
    proof {
        assert(loops_per_64 <= num) by {
            vstd::arithmetic::div_mod::lemma_div_nonincreasing(num as int, denom as int);
        }
    }
    let loops_per: usize = loops_per_64 as usize;
    Signal::table(transition_table(start, end, loops_per))
}

} // verus!
