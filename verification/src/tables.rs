//! Tone-table builders: sine tables, multi-tone (chord) tables via
//! least-common-multiple periods, and discrete pitch-glide tables.

use vstd::prelude::*;

verus! {

/// Scaling constant relating an abstract frequency code to a pitch period:
/// `period = PITCH_SCALE / frequency_code`.
pub const PITCH_SCALE: usize = 4_500_000;

/// Pitch period (samples per cycle) for a frequency code.
///
/// A frequency code of zero is invalid input and must be filtered by
/// callers before calling this function.
pub fn get_pitch(chz: usize) -> (r: usize)
    requires
        chz > 0,
    ensures
        r == PITCH_SCALE as int / chz as int,
{
    PITCH_SCALE / chz
}

/// The sine of `phase`, where a full turn is 2^32 phase units, in
/// fixed-point units of 2^-31 of full scale.  The exact values are those
/// computed by the tone generator's sine routine (`idsp::cossin`); they
/// depend on the phase alone.
pub uninterp spec fn sin_wave(phase: u32) -> i32;

/// Relies on `idsp::cossin`: the cosine and sine of an angle given as a
/// 32-bit binary phase (a full turn is 2^32), returned in units of 2^-31
/// of full scale.  The result is a pure function of the phase.  Its
/// documentation bounds the error against the exact sine by 9e-6 of full
/// scale, so at phase 0 (where the exact sine is 0) the result is within
/// 2^15 of zero.
#[verifier::external_body]
fn sin_sample(phase: u32) -> (r: i32)
    ensures
        r == sin_wave(phase),
        phase == 0 ==> -32768 <= r <= 32768,
{
    idsp::cossin(phase as i32).1
}

/// The binary phase of sample `i` of a cycle `p` samples long: the
/// fractional part of `i / p`, in units where a full turn is 2^32.
pub open spec fn phase_of(i: int, p: int) -> u32
    recommends
        p > 0,
{
    (((i * 0x1_0000_0000) / p) % 0x1_0000_0000) as u32
}

fn phase_for(i: usize, p: usize) -> (r: u32)
    requires
        p > 0,
    ensures
        r == phase_of(i as int, p as int),
{
    let q: u128 = ((i as u128) * 0x1_0000_0000) / (p as u128);
    (q % 0x1_0000_0000) as u32
}

/// One period of a sine wave `p` samples long; a degenerate period of 0
/// yields a single silent sample.
pub open spec fn sin_table_spec(p: int) -> Seq<i32> {
    if p <= 0 {
        seq![0i32]
    } else {
        Seq::new(p as nat, |i: int| sin_wave(phase_of(i, p)))
    }
}

/// `k` copies of `s`, concatenated.
pub open spec fn seq_repeat(s: Seq<i32>, k: nat) -> Seq<i32>
    decreases k,
{
    if k == 0 {
        Seq::empty()
    } else {
        s + seq_repeat(s, (k - 1) as nat)
    }
}

pub proof fn lemma_seq_repeat_snoc(s: Seq<i32>, k: nat)
    ensures
        seq_repeat(s, k + 1) == seq_repeat(s, k) + s,
    decreases k,
{
    assert(seq_repeat(s, k + 1) == s + seq_repeat(s, k));
    if k == 0 {
        assert(seq_repeat(s, 0) =~= Seq::<i32>::empty());
        assert(s + Seq::<i32>::empty() =~= Seq::<i32>::empty() + s);
    } else {
        lemma_seq_repeat_snoc(s, (k - 1) as nat);
        assert(seq_repeat(s, k) == s + seq_repeat(s, (k - 1) as nat));
        assert(s + (seq_repeat(s, (k - 1) as nat) + s) =~= (s + seq_repeat(s, (k - 1) as nat))
            + s);
    }
}

pub proof fn lemma_seq_repeat_len(s: Seq<i32>, k: nat)
    ensures
        seq_repeat(s, k).len() == k * s.len(),
    decreases k,
{
    if k > 0 {
        lemma_seq_repeat_len(s, (k - 1) as nat);
        assert(seq_repeat(s, k) == s + seq_repeat(s, (k - 1) as nat));
        assert(k * s.len() == (k - 1) * s.len() + s.len()) by (nonlinear_arith);
    } else {
        assert(seq_repeat(s, 0) =~= Seq::<i32>::empty());
    }
}

proof fn lemma_repeat_silence(k: nat)
    ensures
        seq_repeat(seq![0i32], k) =~= Seq::new(k, |i: int| 0i32),
    decreases k,
{
    if k > 0 {
        lemma_repeat_silence((k - 1) as nat);
    }
}

/// Append one sine period of length `pitch` to `v`.
fn push_cycle(v: &mut Vec<i32>, pitch: usize)
    requires
        pitch > 0,
    ensures
        final(v)@ == old(v)@ + sin_table_spec(pitch as int),
        -32768 <= sin_wave(0u32) <= 32768,
{
    let ghost base = v@;
    let mut i: usize = 0;
    proof {
        assert(v@ =~= base + Seq::new(0, |k: int| sin_wave(phase_of(k, pitch as int))));
    }
    while i < pitch
        invariant
            0 <= i <= pitch,
            0 < pitch,
            v@ == base + Seq::new(i as nat, |k: int| sin_wave(phase_of(k, pitch as int))),
            i > 0 ==> -32768 <= sin_wave(0u32) <= 32768,
        decreases pitch - i,
    {
        let s = sin_sample(phase_for(i, pitch));
        proof {
            if i == 0 {
                assert(phase_of(0, pitch as int) == 0);
            }
            assert(v@.push(s) =~= base + Seq::new(
                (i + 1) as nat,
                |k: int| sin_wave(phase_of(k, pitch as int)),
            ));
        }
        v.push(s);
        i = i + 1;
    }
    proof {
        assert(v@ =~= base + sin_table_spec(pitch as int));
    }
}

/// One period of a sine wave at pitch period `pitch`: sample `i` is the
/// sine of `i/pitch` of a turn.  A pitch of 0 yields a single silent
/// sample instead of dividing by zero.  The first sample is the sine at
/// phase 0, which is zero up to the generator's documented error.
pub fn sin_table(pitch: usize) -> (r: Vec<i32>)
    ensures
        r@ == sin_table_spec(pitch as int),
        pitch > 0 ==> r@.len() == pitch,
        pitch == 0 ==> r@.len() == 1 && r@[0] == 0,
        -32768 <= r@[0] <= 32768,
{
    let mut v: Vec<i32> = Vec::new();
    if pitch == 0 {
        v.push(0);
        proof {
            assert(v@ =~= sin_table_spec(0));
        }
        return v;
    }
    push_cycle(&mut v, pitch);
    proof {
        assert(Seq::<i32>::empty() + sin_table_spec(pitch as int) =~= sin_table_spec(
            pitch as int,
        ));
        assert(v@[0] == sin_wave(phase_of(0, pitch as int)));
        assert(phase_of(0, pitch as int) == 0);
    }
    v
}

/// How many whole pitch steps a glide from `a` to `b` spans.
pub open spec fn glide_diff(a: int, b: int) -> int {
    if a >= b {
        a - b
    } else {
        b - a
    }
}

/// The pitch period at step `d` of a glide from `start` toward `end`.
pub open spec fn glide_pitch(start: int, end: int, d: int) -> int {
    if start <= end {
        start + d
    } else {
        start - d
    }
}

/// The tail of a glide table, from step `d` on: for each remaining step,
/// `k` repeats of that step's sine cycle (a step at pitch 0 contributes
/// `k` silent samples, one per repeat of the degenerate table).
pub open spec fn transition_spec_from(start: int, end: int, k: nat, d: int) -> Seq<i32>
    decreases glide_diff(start, end) + 1 - d,
{
    if d < 0 || d > glide_diff(start, end) {
        Seq::empty()
    } else {
        seq_repeat(sin_table_spec(glide_pitch(start, end, d)), k) + transition_spec_from(
            start,
            end,
            k,
            d + 1,
        )
    }
}

/// A discrete glide between two pitches: for each integer pitch period
/// stepping from `start` to `end` inclusive, `k` repeats of that period's
/// sine cycle, concatenated in order.
pub open spec fn transition_spec(start: int, end: int, k: nat) -> Seq<i32> {
    transition_spec_from(start, end, k, 0)
}

/// The head of a glide table: the steps before step `d`.
spec fn transition_prefix(start: int, end: int, k: nat, d: int) -> Seq<i32>
    decreases d,
{
    if d <= 0 {
        Seq::empty()
    } else {
        transition_prefix(start, end, k, d - 1) + seq_repeat(
            sin_table_spec(glide_pitch(start, end, d - 1)),
            k,
        )
    }
}

proof fn lemma_transition_split(start: int, end: int, k: nat, d: int)
    requires
        0 <= d <= glide_diff(start, end) + 1,
    ensures
        transition_spec(start, end, k) == transition_prefix(start, end, k, d)
            + transition_spec_from(start, end, k, d),
    decreases d,
{
    if d == 0 {
        assert(Seq::<i32>::empty() + transition_spec_from(start, end, k, 0)
            =~= transition_spec_from(start, end, k, 0));
    } else {
        lemma_transition_split(start, end, k, d - 1);
        let block = seq_repeat(sin_table_spec(glide_pitch(start, end, d - 1)), k);
        assert(transition_spec_from(start, end, k, d - 1) == block + transition_spec_from(
            start,
            end,
            k,
            d,
        ));
        assert(transition_prefix(start, end, k, d - 1) + (block + transition_spec_from(
            start,
            end,
            k,
            d,
        )) =~= (transition_prefix(start, end, k, d - 1) + block) + transition_spec_from(
            start,
            end,
            k,
            d,
        ));
    }
}

/// Zero-length glide: a glide from a pitch to itself is exactly `k`
/// repeats of that pitch's sine table.
pub proof fn lemma_transition_zero_glide(p: int, k: nat)
    ensures
        transition_spec(p, p, k) == seq_repeat(sin_table_spec(p), k),
{
    assert(glide_diff(p, p) == 0);
    assert(transition_spec_from(p, p, k, 1) =~= Seq::<i32>::empty());
    assert(transition_spec(p, p, k) == seq_repeat(sin_table_spec(p), k) + transition_spec_from(
        p,
        p,
        k,
        1,
    ));
    assert(seq_repeat(sin_table_spec(p), k) + Seq::<i32>::empty() =~= seq_repeat(
        sin_table_spec(p),
        k,
    ));
}

/// Append `k` silent samples to `v`.
fn push_zeros(v: &mut Vec<i32>, k: usize)
    ensures
        final(v)@ == old(v)@ + seq_repeat(seq![0i32], k as nat),
{
    let ghost base = v@;
    let mut i: usize = 0;
    while i < k
        invariant
            0 <= i <= k,
            v@ == base + Seq::new(i as nat, |x: int| 0i32),
        decreases k - i,
    {
        proof {
            assert(v@.push(0i32) =~= base + Seq::new((i + 1) as nat, |x: int| 0i32));
        }
        v.push(0);
        i = i + 1;
    }
    proof {
        lemma_repeat_silence(k as nat);
        assert(v@ =~= base + seq_repeat(seq![0i32], k as nat));
    }
}

/// Append `k` repeats of the sine cycle at pitch period `pitch` to `v`;
/// a pitch of 0 contributes `k` silent samples.
fn push_block(v: &mut Vec<i32>, pitch: usize, k: usize)
    ensures
        final(v)@ == old(v)@ + seq_repeat(sin_table_spec(pitch as int), k as nat),
{
    if pitch == 0 {
        push_zeros(v, k);
        return ;
    }
    let ghost base = v@;
    let mut l: usize = 0;
    proof {
        assert(v@ =~= base + seq_repeat(sin_table_spec(pitch as int), 0));
    }
    while l < k
        invariant
            0 <= l <= k,
            0 < pitch,
            v@ == base + seq_repeat(sin_table_spec(pitch as int), l as nat),
        decreases k - l,
    {
        push_cycle(v, pitch);
        proof {
            lemma_seq_repeat_snoc(sin_table_spec(pitch as int), l as nat);
            assert((base + seq_repeat(sin_table_spec(pitch as int), l as nat))
                + sin_table_spec(pitch as int) =~= base + (seq_repeat(
                sin_table_spec(pitch as int),
                l as nat,
            ) + sin_table_spec(pitch as int)));
        }
        l = l + 1;
    }
}

/// A discrete glide between two pitch periods: for each integer pitch
/// stepping from `start` to `end` inclusive (direction given by their
/// order), `loops_per` repeats of that pitch's sine cycle, concatenated.
/// A stepped pitch of exactly 0 contributes silent samples instead of a
/// zero-length cycle.
pub fn transition_table(start: usize, end: usize, loops_per: usize) -> (r: Vec<i32>)
    requires
        glide_diff(start as int, end as int) < usize::MAX,
    ensures
        r@ == transition_spec(start as int, end as int, loops_per as nat),
{
    let diff = if start > end {
        start - end
    } else {
        end - start
    };
    let mut v: Vec<i32> = Vec::new();
    let mut d: usize = 0;
    proof {
        lemma_transition_split(start as int, end as int, loops_per as nat, 0);
        assert(v@ =~= transition_prefix(start as int, end as int, loops_per as nat, 0));
    }
    while d <= diff
        invariant
            0 <= d <= diff + 1,
            diff == glide_diff(start as int, end as int) < usize::MAX,
            v@ == transition_prefix(start as int, end as int, loops_per as nat, d as int),
        decreases diff + 1 - d,
    {
        let pitch = if start <= end {
            start + d
        } else {
            start - d
        };
        push_block(&mut v, pitch, loops_per);
        d = d + 1;
    }
    proof {
        lemma_transition_split(
            start as int,
            end as int,
            loops_per as nat,
            diff as int + 1,
        );
        assert(transition_spec_from(start as int, end as int, loops_per as nat, diff as int + 1)
            =~= Seq::<i32>::empty());
        assert(transition_prefix(start as int, end as int, loops_per as nat, diff as int + 1)
            + Seq::<i32>::empty() =~= transition_prefix(
            start as int,
            end as int,
            loops_per as nat,
            diff as int + 1,
        ));
    }
    v
}

/// The pitch periods of `s` with the zero entries discarded.
pub open spec fn nonzero_pitches(s: Seq<usize>) -> Seq<usize>
    decreases s.len(),
{
    if s.len() == 0 {
        Seq::empty()
    } else if s.last() == 0 {
        nonzero_pitches(s.drop_last())
    } else {
        nonzero_pitches(s.drop_last()).push(s.last())
    }
}

/// Signed division truncating toward zero, as the `/` of the machine
/// integers behaves.
pub open spec fn div_toward_zero(x: int, d: int) -> int
    recommends
        d != 0,
{
    if x == 0 {
        0
    } else if x > 0 && d > 0 {
        x / d
    } else if x < 0 && d < 0 {
        (x * -1) / (d * -1)
    } else if x < 0 {
        ((x * -1) / d) * -1
    } else {
        (x / (d * -1)) * -1
    }
}

proof fn lemma_div_tz_bounds(x: int, d: int)
    requires
        d >= 1,
        -0x8000_0000int <= x <= 0x7fff_ffffint,
    ensures
        -(0x8000_0000int / d) <= div_toward_zero(x, d) <= 0x7fff_ffffint / d,
{
    if x > 0 {
        vstd::arithmetic::div_mod::lemma_div_is_ordered(x, 0x7fff_ffffint, d);
        vstd::arithmetic::div_mod::lemma_div_pos_is_pos(x, d);
        vstd::arithmetic::div_mod::lemma_div_pos_is_pos(0x8000_0000int, d);
    } else if x < 0 {
        vstd::arithmetic::div_mod::lemma_div_is_ordered(x * -1, 0x8000_0000int, d);
        vstd::arithmetic::div_mod::lemma_div_pos_is_pos(x * -1, d);
        vstd::arithmetic::div_mod::lemma_div_pos_is_pos(0x7fff_ffffint, d);
    } else {
        vstd::arithmetic::div_mod::lemma_div_pos_is_pos(0x8000_0000int, d);
        vstd::arithmetic::div_mod::lemma_div_pos_is_pos(0x7fff_ffffint, d);
    }
}

/// The first `j` of the `n`-way-scaled sine terms of sample `i` of a
/// chord over the pitch periods `ps`.
pub open spec fn chord_partial(ps: Seq<usize>, i: int, j: int, n: int) -> int
    decreases j,
{
    if j <= 0 {
        0
    } else {
        chord_partial(ps, i, j - 1, n) + div_toward_zero(
            sin_wave(phase_of(i, ps[j - 1] as int)) as int,
            n,
        )
    }
}

/// Sample `i` of the chord over the pitch periods `ps`: the average of
/// the component sines, each term truncated toward zero.
pub open spec fn chord_sample(ps: Seq<usize>, i: int) -> int {
    chord_partial(ps, i, ps.len() as int, ps.len() as int)
}

proof fn lemma_chord_partial_bounds(ps: Seq<usize>, i: int, j: int, n: int)
    requires
        1 <= n,
        0 <= j <= n,
    ensures
        -(j * (0x8000_0000int / n)) <= chord_partial(ps, i, j, n) <= j * (0x7fff_ffffint / n),
    decreases j,
{
    if j > 0 {
        lemma_chord_partial_bounds(ps, i, j - 1, n);
        lemma_div_tz_bounds(sin_wave(phase_of(i, ps[j - 1] as int)) as int, n);
        assert(j * (0x8000_0000int / n) == (j - 1) * (0x8000_0000int / n) + 0x8000_0000int / n)
            by (nonlinear_arith);
        assert(j * (0x7fff_ffffint / n) == (j - 1) * (0x7fff_ffffint / n) + 0x7fff_ffffint / n)
            by (nonlinear_arith);
    }
}

/// A chord sample always fits in an `i32`.
proof fn lemma_chord_sample_fits(ps: Seq<usize>, i: int)
    requires
        ps.len() >= 1,
    ensures
        -0x8000_0000int <= chord_sample(ps, i) <= 0x7fff_ffffint,
{
    let n = ps.len() as int;
    lemma_chord_partial_bounds(ps, i, n, n);
    vstd::arithmetic::div_mod::lemma_fundamental_div_mod(0x8000_0000int, n);
    vstd::arithmetic::div_mod::lemma_mod_bound(0x8000_0000int, n);
    vstd::arithmetic::div_mod::lemma_fundamental_div_mod(0x7fff_ffffint, n);
    vstd::arithmetic::div_mod::lemma_mod_bound(0x7fff_ffffint, n);
    assert(n * (0x8000_0000int / n) <= 0x8000_0000int);
    assert(n * (0x7fff_ffffint / n) <= 0x7fff_ffffint);
}

/// One exactly-periodic cycle of a superposition ("chord") of sine waves:
/// zero periods are discarded; the cycle is as long as the least common
/// multiple of the surviving periods, so every component's cycle divides
/// it evenly; sample `i` averages the component sines.  An empty or
/// all-zero input yields a single silent sample.
pub open spec fn multi_sin_spec(pitches: Seq<usize>) -> Seq<i32> {
    let ps = nonzero_pitches(pitches);
    if ps.len() == 0 {
        seq![0i32]
    } else {
        Seq::new(spec_lcm(ps) as nat, |i: int| chord_sample(ps, i) as i32)
    }
}

/// `m` is a multiple of every element of `s`.
pub open spec fn is_common_multiple(s: Seq<usize>, m: int) -> bool {
    forall|j: int| 0 <= j < s.len() ==> m % ((#[trigger] s[j]) as int) == 0
}

/// `m` is the least common multiple of `s` (0 for an empty `s`).
pub open spec fn is_least_common_multiple(s: Seq<usize>, m: int) -> bool {
    if s.len() == 0 {
        m == 0
    } else {
        &&& 0 < m
        &&& is_common_multiple(s, m)
        &&& forall|k: int| 0 < k < m ==> !is_common_multiple(s, k)
    }
}

/// The least common multiple of `s`, as a mathematical value.
pub open spec fn spec_lcm(s: Seq<usize>) -> int {
    choose|m: int| is_least_common_multiple(s, m)
}

/// The least common multiple is unique, so `spec_lcm` is well defined
/// wherever a least common multiple exists.
pub proof fn lemma_lcm_unique(s: Seq<usize>, a: int, b: int)
    requires
        is_least_common_multiple(s, a),
        is_least_common_multiple(s, b),
    ensures
        a == b,
{
    if s.len() > 0 {
        if a < b {
            assert(!is_common_multiple(s, a));
        } else if b < a {
            assert(!is_common_multiple(s, b));
        }
    }
}

/// The smallest element of a nonempty sequence.
spec fn min_of(s: Seq<usize>) -> usize
    recommends
        s.len() > 0,
    decreases s.len(),
{
    if s.len() <= 1 {
        s[0]
    } else {
        let m = min_of(s.drop_first());
        if s[0] <= m {
            s[0]
        } else {
            m
        }
    }
}

proof fn lemma_min_le_all(s: Seq<usize>)
    requires
        s.len() > 0,
    ensures
        forall|j: int| 0 <= j < s.len() ==> min_of(s) <= #[trigger] s[j],
    decreases s.len(),
{
    if s.len() > 1 {
        lemma_min_le_all(s.drop_first());
        assert(forall|j: int| 1 <= j < s.len() ==> s.drop_first()[j - 1] == #[trigger] s[j]);
    }
}

proof fn lemma_min_is_elem(s: Seq<usize>)
    requires
        s.len() > 0,
    ensures
        exists|j: int| 0 <= j < s.len() && s[j] == min_of(s),
    decreases s.len(),
{
    if s.len() > 1 {
        lemma_min_is_elem(s.drop_first());
        if s[0] > min_of(s.drop_first()) {
            let j = choose|j: int|
                0 <= j < s.drop_first().len() && s.drop_first()[j] == min_of(s.drop_first());
            assert(s.drop_first()[j] == s[j + 1]);
            assert(min_of(s) == min_of(s.drop_first()));
            assert(s[j + 1] == min_of(s));
        } else {
            assert(s[0] == min_of(s));
        }
    } else {
        assert(s[0] == min_of(s));
    }
}

proof fn lemma_min_push(s: Seq<usize>, x: usize)
    requires
        s.len() > 0,
    ensures
        min_of(s.push(x)) == if x < min_of(s) {
            x
        } else {
            min_of(s)
        },
    decreases s.len(),
{
    if s.len() == 1 {
        assert(s.push(x)[0] == s[0]);
        assert(s.push(x).drop_first() =~= seq![x]);
        assert(min_of(seq![x]) == x);
        assert(min_of(s) == s[0]);
    } else {
        lemma_min_push(s.drop_first(), x);
        assert(s.push(x).drop_first() =~= s.drop_first().push(x));
        assert(s.push(x)[0] == s[0]);
        assert(min_of(s.push(x)) == if s[0] <= min_of(s.drop_first().push(x)) {
            s[0]
        } else {
            min_of(s.drop_first().push(x))
        });
    }
}

/// Between one multiple of `d` and a larger one there is room for a whole `d`.
proof fn lemma_next_multiple(a: int, b: int, d: int)
    requires
        d > 0,
        a % d == 0,
        b % d == 0,
        a < b,
    ensures
        a + d <= b,
{
    vstd::arithmetic::div_mod::lemma_fundamental_div_mod(a, d);
    vstd::arithmetic::div_mod::lemma_fundamental_div_mod(b, d);
    let qa = a / d;
    let qb = b / d;
    assert(qa < qb) by (nonlinear_arith)
        requires
            d > 0,
            d * qa < d * qb,
    ;
    assert(d * qa + d <= d * qb) by (nonlinear_arith)
        requires
            d > 0,
            qa + 1 <= qb,
    ;
}

fn find_min(v: &Vec<usize>) -> (m: usize)
    requires
        v@.len() > 0,
    ensures
        m == min_of(v@),
{
    let mut m: usize = v[0];
    let mut i: usize = 1;
    while i < v.len()
        invariant
            1 <= i <= v@.len(),
            m == min_of(v@.subrange(0, i as int)),
        decreases v@.len() - i,
    {
        proof {
            assert(v@.subrange(0, i as int + 1) =~= v@.subrange(0, i as int).push(v@[i as int]));
            lemma_min_push(v@.subrange(0, i as int), v@[i as int]);
        }
        if v[i] < m {
            m = v[i];
        }
        i = i + 1;
    }
    proof {
        assert(v@.subrange(0, v@.len() as int) =~= v@);
    }
    m
}

fn all_equal(v: &Vec<usize>, m: usize) -> (r: bool)
    ensures
        r == (forall|j: int| 0 <= j < v@.len() ==> #[trigger] v@[j] == m),
{
    let mut i: usize = 0;
    while i < v.len()
        invariant
            0 <= i <= v@.len(),
            forall|j: int| 0 <= j < i ==> #[trigger] v@[j] == m,
        decreases v@.len() - i,
    {
        if v[i] != m {
            return false;
        }
        i = i + 1;
    }
    true
}

proof fn lemma_nonzero_pitches_pos(s: Seq<usize>)
    ensures
        forall|j: int| 0 <= j < nonzero_pitches(s).len() ==> (#[trigger] nonzero_pitches(s)[j])
            > 0,
    decreases s.len(),
{
    if s.len() > 0 {
        lemma_nonzero_pitches_pos(s.drop_last());
        let inner = nonzero_pitches(s.drop_last());
        if s.last() == 0 {
            assert(nonzero_pitches(s) == inner);
        } else {
            assert(nonzero_pitches(s) == inner.push(s.last()));
            assert forall|j: int| 0 <= j < nonzero_pitches(s).len() implies (
            #[trigger] nonzero_pitches(s)[j]) > 0 by {
                if j < inner.len() {
                    assert(inner.push(s.last())[j] == inner[j]);
                    assert(inner[j] > 0);
                } else {
                    assert(j == inner.len());
                    assert(inner.push(s.last())[j] == s.last());
                }
            }
        }
    }
}

/// The superposition table for a list of pitch periods: zero periods are
/// discarded; if none remain a single silent sample comes back; otherwise
/// the table is one cycle of the chord, of length the least common
/// multiple of the surviving periods.
///
/// Some common multiple of the surviving periods must fit in `usize`,
/// or the table could not be addressed.
pub fn multi_sin_table(pitches: &[usize]) -> (r: Vec<i32>)
    requires
        exists|m: int|
            0 < m <= usize::MAX && is_common_multiple(nonzero_pitches(pitches@), m),
    ensures
        r@ == multi_sin_spec(pitches@),
        r@.len() >= 1,
{
    let mut ps: Vec<usize> = Vec::new();
    let mut i: usize = 0;
    while i < pitches.len()
        invariant
            0 <= i <= pitches@.len(),
            ps@ == nonzero_pitches(pitches@.subrange(0, i as int)),
        decreases pitches@.len() - i,
    {
        proof {
            assert(pitches@.subrange(0, i as int + 1).drop_last() =~= pitches@.subrange(
                0,
                i as int,
            ));
            assert(pitches@.subrange(0, i as int + 1).last() == pitches@[i as int]);
        }
        if pitches[i] != 0 {
            ps.push(pitches[i]);
        }
        i = i + 1;
    }
    proof {
        assert(pitches@.subrange(0, pitches@.len() as int) =~= pitches@);
        lemma_nonzero_pitches_pos(pitches@);
    }

    if ps.len() == 0 {
        let mut v: Vec<i32> = Vec::new();
        v.push(0);
        proof {
            assert(v@ =~= multi_sin_spec(pitches@));
        }
        return v;
    }

    let n = ps.len();
    let l = lcm(ps.as_slice());
    assert(l as int == spec_lcm(ps@) && l > 0);

    let mut v: Vec<i32> = Vec::new();
    let mut idx: usize = 0;
    while idx < l
        invariant
            0 <= idx <= l,
            v@.len() == idx,
            n == ps@.len() > 0,
            forall|j: int| 0 <= j < ps@.len() ==> (#[trigger] ps@[j]) > 0,
            forall|k: int| 0 <= k < idx ==> #[trigger] v@[k] == chord_sample(ps@, k) as i32,
        decreases l - idx,
    {
        let n64: u64 = n as u64;
        let mut sum: i64 = 0;
        let mut j: usize = 0;
        while j < n
            invariant
                0 <= j <= n,
                n == ps@.len() > 0,
                n64 == n as u64,
                forall|jj: int| 0 <= jj < ps@.len() ==> (#[trigger] ps@[jj]) > 0,
                sum == chord_partial(ps@, idx as int, j as int, n as int),
                -0x1_0000_0000 <= sum <= 0x1_0000_0000,
            decreases n - j,
        {
            let s = sin_sample(phase_for(idx, ps[j]));
            let term: i64 = if s >= 0 {
                ((s as u64) / n64) as i64
            } else {
                -((((-(s as i64)) as u64) / n64) as i64)
            };
            proof {
                assert(term == div_toward_zero(s as int, n as int));
                lemma_div_tz_bounds(s as int, n as int);
                lemma_chord_partial_bounds(ps@, idx as int, j as int, n as int);
                lemma_chord_partial_bounds(ps@, idx as int, j as int + 1, n as int);
                vstd::arithmetic::div_mod::lemma_fundamental_div_mod(0x8000_0000int, n as int);
                vstd::arithmetic::div_mod::lemma_mod_bound(0x8000_0000int, n as int);
                vstd::arithmetic::div_mod::lemma_fundamental_div_mod(0x7fff_ffffint, n as int);
                vstd::arithmetic::div_mod::lemma_mod_bound(0x7fff_ffffint, n as int);
                assert((j as int + 1) * (0x8000_0000int / (n as int)) <= (n as int) * (
                0x8000_0000int / (n as int))) by (nonlinear_arith)
                    requires
                        0 <= j as int + 1 <= n as int,
                        0x8000_0000int / (n as int) >= 0,
                ;
                assert((j as int + 1) * (0x7fff_ffffint / (n as int)) <= (n as int) * (
                0x7fff_ffffint / (n as int))) by (nonlinear_arith)
                    requires
                        0 <= j as int + 1 <= n as int,
                        0x7fff_ffffint / (n as int) >= 0,
                ;
            }
            sum = sum + term;
            j = j + 1;
        }
        proof {
            lemma_chord_sample_fits(ps@, idx as int);
        }
        v.push(sum as i32);
        idx = idx + 1;
    }
    proof {
        assert(v@ =~= multi_sin_spec(pitches@));
    }
    v
}

/// Least common multiple by repeated catch-up addition: one running total
/// per value, each starting at the value itself; the smallest totals are
/// repeatedly advanced by their own value until all totals agree.
///
/// An empty input yields 0.  All values must be positive, and some common
/// multiple must fit in `usize` for the totals to stay in range.
pub fn lcm(nums: &[usize]) -> (r: usize)
    requires
        forall|j: int| 0 <= j < nums@.len() ==> #[trigger] nums@[j] > 0,
        exists|m: int| 0 < m <= usize::MAX && is_common_multiple(nums@, m),
    ensures
        is_least_common_multiple(nums@, r as int),
        r as int == spec_lcm(nums@),
{
    if nums.len() == 0 {
        proof {
            assert(is_least_common_multiple(nums@, 0));
            lemma_lcm_unique(nums@, spec_lcm(nums@), 0);
        }
        return 0;
    }
    let ghost bound: int = choose|m: int| 0 < m <= usize::MAX && is_common_multiple(nums@, m);

    let mut progress: Vec<usize> = Vec::new();
    let mut i: usize = 0;
    while i < nums.len()
        invariant
            0 <= i <= nums@.len(),
            progress@ =~= nums@.subrange(0, i as int),
        decreases nums@.len() - i,
    {
        progress.push(nums[i]);
        i = i + 1;
    }
    proof {
        assert(progress@ =~= nums@);
        assert forall|j: int, m: int|
            0 <= j < progress@.len() && 0 < m && is_common_multiple(nums@, m) implies (
        #[trigger] progress@[j]) <= #[trigger] (m + 0) by {
            assert(m % (nums@[j] as int) == 0);
            lemma_next_multiple(0, m, nums@[j] as int);
        }
    }

    loop
        invariant
            progress@.len() == nums@.len(),
            nums@.len() > 0,
            forall|j: int| 0 <= j < nums@.len() ==> #[trigger] nums@[j] > 0,
            0 < bound <= usize::MAX,
            is_common_multiple(nums@, bound),
            forall|j: int|
                0 <= j < progress@.len() ==> ((#[trigger] progress@[j]) as int) % (
                nums@[j] as int) == 0,
            forall|j: int| 0 <= j < progress@.len() ==> nums@[j] <= #[trigger] progress@[j],
            forall|j: int, m: int|
                0 <= j < progress@.len() && 0 < m && is_common_multiple(nums@, m) ==> (
                #[trigger] progress@[j]) <= #[trigger] (m + 0),
        decreases bound - min_of(progress@),
    {
        let min = find_min(&progress);
        proof {
            lemma_min_le_all(progress@);
            lemma_min_is_elem(progress@);
        }
        if all_equal(&progress, min) {
            proof {
                assert(progress@[0] == min);
                assert(min > 0);
                assert forall|j: int| 0 <= j < nums@.len() implies (min as int) % ((
                #[trigger] nums@[j]) as int) == 0 by {
                    assert(progress@[j] == min);
                    assert((progress@[j] as int) % (nums@[j] as int) == 0);
                }
                assert(is_common_multiple(nums@, min as int));
                assert forall|k: int| 0 < k < min implies !is_common_multiple(nums@, k) by {
                    if is_common_multiple(nums@, k) {
                        assert(progress@[0] <= k + 0);
                    }
                }
                assert(is_least_common_multiple(nums@, min as int));
                lemma_lcm_unique(nums@, spec_lcm(nums@), min as int);
            }
            return min;
        }
        let ghost jw: int = choose|j: int| 0 <= j < progress@.len() && progress@[j] != min;
        proof {
            // not all totals are equal, so the smallest is below the bound
            assert(progress@[jw] <= bound + 0);
            if min as int == bound {
                assert(min <= progress@[jw]);
            }
            assert((min as int) < bound);
        }
        let mut k: usize = 0;
        while k < progress.len()
            invariant
                0 <= k <= progress@.len(),
                progress@.len() == nums@.len(),
                forall|j: int| 0 <= j < nums@.len() ==> #[trigger] nums@[j] > 0,
                0 < bound <= usize::MAX,
                is_common_multiple(nums@, bound),
                (min as int) < bound,
                forall|j: int|
                    0 <= j < progress@.len() ==> ((#[trigger] progress@[j]) as int) % (
                    nums@[j] as int) == 0,
                forall|j: int| 0 <= j < progress@.len() ==> nums@[j] <= #[trigger] progress@[j],
                forall|j: int, m: int|
                    0 <= j < progress@.len() && 0 < m && is_common_multiple(nums@, m) ==> (
                    #[trigger] progress@[j]) <= #[trigger] (m + 0),
                forall|j: int| 0 <= j < progress@.len() ==> min <= #[trigger] progress@[j],
                forall|j: int| 0 <= j < k ==> min < #[trigger] progress@[j],
                0 <= jw < progress@.len(),
                progress@[jw] != min,
            decreases progress@.len() - k,
        {
            if progress[k] == min {
                proof {
                    assert(bound % (nums@[k as int] as int) == 0);
                    lemma_next_multiple(min as int, bound, nums@[k as int] as int);
                    assert forall|m: int|
                        0 < m && is_common_multiple(nums@, m) implies (min + nums@[k as int]) <= m by {
                        assert(progress@[k as int] <= m + 0);
                        assert(m % (nums@[k as int] as int) == 0);
                        if (min as int) < m {
                            lemma_next_multiple(min as int, m, nums@[k as int] as int);
                        } else {
                            // every total is at most m, so all totals would equal min;
                            // but the totals are not all equal
                            assert(progress@[jw] <= m + 0);
                        }
                    }
                    let nk = nums@[k as int] as int;
                    vstd::arithmetic::div_mod::lemma_fundamental_div_mod(min as int, nk);
                    vstd::arithmetic::div_mod::lemma_mod_multiples_basic(
                        (min as int) / nk + 1,
                        nk,
                    );
                    assert((min as int + nk) == ((min as int) / nk + 1) * nk) by (nonlinear_arith)
                        requires
                            nk > 0,
                            min as int == nk * ((min as int) / nk),
                    ;
                }
                let updated = min + nums[k];
                progress.set(k, updated);
            }
            k = k + 1;
        }
        proof {
            lemma_min_is_elem(progress@);
        }
    }
}

} // verus!
