//! Interleaved and per-channel samples.

use vstd::prelude::*;

verus! {

/// Appends copies of all of `more`.
pub fn push_all<T: Copy>(out: &mut Vec<T>, more: &[T])
    ensures
        final(out)@ == old(out)@ + more@,
{
    let mut i: usize = 0;
    assert(out@ =~= old(out)@ + more@.take(0));
    while i < more.len()
        invariant
            i <= more@.len(),
            out@ == old(out)@ + more@.take(i as int),
        decreases more@.len() - i,
    {
        out.push(more[i]);
        assert(out@ =~= old(out)@ + more@.take(i + 1));
        i += 1;
    }
    assert(more@.take(i as int) =~= more@);
}

/// The samples of channel `c` in the frames from `from` up to `to`.
pub open spec fn channel_of<T>(samples: Seq<T>, channels: int, c: int, from: int, to: int) -> Seq<T> {
    Seq::new((to - from) as nat, |i: int| samples[(from + i) * channels + c])
}

/// The samples of all channels, a row each.
pub open spec fn rows_of<T>(samples: Seq<T>, channels: int, from: int, to: int) -> Seq<Seq<T>> {
    Seq::new(channels as nat, |c: int| channel_of(samples, channels, c, from, to))
}

/// The contents of some vectors.
pub open spec fn views<T>(rows: Seq<Vec<T>>) -> Seq<Seq<T>> {
    Seq::new(rows.len(), |k: int| rows[k]@)
}

/// The first `n` frames of some rows, interleaved.
pub open spec fn interleaved<T>(rows: Seq<Seq<T>>, n: int) -> Seq<T> {
    Seq::new((n * rows.len()) as nat, |i: int| rows[i % (rows.len() as int)][i / (rows.len() as int)])
}

/// Splits the frames from `from` up to `to` into one row per channel.
pub fn deinterleave<T: Copy>(samples: &[T], channels: usize, from: usize, to: usize) -> (rows: Vec<
    Vec<T>,
>)
    requires
        from <= to,
        to * channels <= samples@.len(),
    ensures
        views(rows@) == rows_of(samples@, channels as int, from as int, to as int),
{
    assert(samples.len() <= usize::MAX);
    let mut rows: Vec<Vec<T>> = Vec::with_capacity(channels);
    let mut c: usize = 0;
    while c < channels
        invariant
            c <= channels,
            from <= to,
            to * channels <= samples@.len() <= usize::MAX,
            rows@.len() == c,
            forall|k: int|
                0 <= k < c ==> (#[trigger] rows@[k])@ == channel_of(
                    samples@,
                    channels as int,
                    k,
                    from as int,
                    to as int,
                ),
        decreases channels - c,
    {
        let mut row: Vec<T> = Vec::with_capacity(to - from);
        let mut f: usize = from;
        while f < to
            invariant
                c < channels,
                from <= f <= to,
                to * channels <= samples@.len() <= usize::MAX,
                row@ == channel_of(samples@, channels as int, c as int, from as int, f as int),
            decreases to - f,
        {
            assert(f * channels + channels <= to * channels) by (nonlinear_arith)
                requires
                    f < to,
            ;
            row.push(samples[f * channels + c]);
            f += 1;
            assert(row@ =~= channel_of(samples@, channels as int, c as int, from as int, f as int));
        }
        rows.push(row);
        c += 1;
    }
    assert(views(rows@) =~= rows_of(samples@, channels as int, from as int, to as int));
    rows
}

/// Appends the first `n` frames of some rows, interleaved.
pub fn interleave_into<T: Copy>(out: &mut Vec<T>, rows: &Vec<Vec<T>>, n: usize)
    requires
        rows@.len() > 0,
        forall|c: int| 0 <= c < rows@.len() ==> (#[trigger] rows@[c])@.len() >= n,
    ensures
        final(out)@ == old(out)@ + interleaved(views(rows@), n as int),
{
    let channels: usize = rows.len();
    let ghost all = views(rows@);
    let mut f: usize = 0;
    proof {
        assert(0 * channels == 0);
        assert(out@ =~= old(out)@ + interleaved(all, 0));
    }
    while f < n
        invariant
            f <= n,
            channels == rows@.len(),
            channels > 0,
            all == views(rows@),
            forall|c: int| 0 <= c < rows@.len() ==> (#[trigger] rows@[c])@.len() >= n,
            out@ == old(out)@ + interleaved(all, f as int),
        decreases n - f,
    {
        let mut c: usize = 0;
        let ghost before = out@;
        let ghost frame = Seq::new(channels as nat, |k: int| all[k][f as int]);
        assert(frame.take(0) =~= Seq::<T>::empty());
        while c < channels
            invariant
                c <= channels,
                f < n,
                channels == rows@.len(),
                all == views(rows@),
                frame == Seq::new(channels as nat, |k: int| all[k][f as int]),
                forall|k: int| 0 <= k < rows@.len() ==> (#[trigger] rows@[k])@.len() >= n,
                out@ == before + frame.take(c as int),
            decreases channels - c,
        {
            out.push(rows[c][f]);
            assert(out@ =~= before + frame.take(c + 1));
            c += 1;
        }
        proof {
            assert(frame.take(c as int) =~= frame);
            lemma_interleaved_step(all, f as int);
            assert(out@ =~= old(out)@ + interleaved(all, f + 1));
        }
        f += 1;
    }
}

proof fn lemma_interleaved_step<T>(rows: Seq<Seq<T>>, n: int)
    requires
        rows.len() > 0,
        n >= 0,
    ensures
        interleaved(rows, n + 1) == interleaved(rows, n) + Seq::new(
            rows.len(),
            |c: int| rows[c][n],
        ),
{
    let ch = rows.len() as int;
    assert((n + 1) * ch == n * ch + ch) by (nonlinear_arith);
    assert(n * ch >= 0) by (nonlinear_arith)
        requires
            n >= 0,
            ch > 0,
    ;
    let whole = interleaved(rows, n + 1);
    let parts = interleaved(rows, n) + Seq::new(rows.len(), |c: int| rows[c][n]);
    assert forall|i: int| 0 <= i < whole.len() implies whole[i] == parts[i] by {
        if i >= n * ch {
            vstd::arithmetic::div_mod::lemma_fundamental_div_mod_converse(i, ch, n, i - n * ch);
        }
    }
    assert(whole =~= parts);
}

/// Interleaving what was deinterleaved gives the samples back.
pub proof fn law_interleave_undoes_deinterleave<T>(samples: Seq<T>, channels: int, from: int, to: int)
    requires
        channels > 0,
        0 <= from <= to,
        to * channels <= samples.len(),
    ensures
        interleaved(rows_of(samples, channels, from, to), to - from) == samples.subrange(
            from * channels,
            to * channels,
        ),
{
    let rows = rows_of(samples, channels, from, to);
    let out = interleaved(rows, to - from);
    assert((to - from) * channels == to * channels - from * channels) by (nonlinear_arith);
    assert(0 <= from * channels <= to * channels) by (nonlinear_arith)
        requires
            0 <= from <= to,
            channels > 0,
    ;
    let want = samples.subrange(from * channels, to * channels);
    assert forall|i: int| 0 <= i < out.len() implies out[i] == want[i] by {
        let f = i / channels;
        let c = i % channels;
        vstd::arithmetic::div_mod::lemma_fundamental_div_mod(i, channels);
        vstd::arithmetic::div_mod::lemma_mod_bound(i, channels);
        vstd::arithmetic::div_mod::lemma_div_pos_is_pos(i, channels);
        assert(f < to - from) by (nonlinear_arith)
            requires
                i < (to - from) * channels,
                i == channels * f + c,
                0 <= c,
                channels > 0,
        ;
        assert((from + f) * channels + c == from * channels + i) by (nonlinear_arith)
            requires
                i == channels * f + c,
        ;
    }
    assert(out =~= want);
}

/// Number of frames to ask a stretcher for: all it has, nothing where it has none or is done.
pub fn drain_request(available: i32) -> (frames: Option<usize>)
    ensures
        available <= 0 ==> frames is None,
        available > 0 ==> frames == Some(available as usize),
{
    if available <= 0 {
        None
    } else {
        Some(available as usize)
    }
}

/// A row holds the samples of its channel, frame by frame.
pub proof fn law_rows_hold_their_channel<T>(
    samples: Seq<T>,
    channels: int,
    from: int,
    to: int,
    c: int,
    f: int,
)
    requires
        0 <= c < channels,
        from <= f < to,
    ensures
        rows_of(samples, channels, from, to).len() == channels,
        rows_of(samples, channels, from, to)[c].len() == to - from,
        rows_of(samples, channels, from, to)[c][f - from] == samples[f * channels + c],
{
    assert(from + (f - from) == f);
}

/// Interleaving puts the samples of a frame side by side, channel by channel.
pub proof fn law_interleaving_puts_frames_side_by_side<T>(
    rows: Seq<Seq<T>>,
    n: int,
    c: int,
    f: int,
)
    requires
        0 <= c < rows.len(),
        0 <= f < n,
    ensures
        interleaved(rows, n).len() == n * rows.len(),
        0 <= f * rows.len() + c < n * rows.len(),
        interleaved(rows, n)[f * rows.len() + c] == rows[c][f],
{
    let ch = rows.len() as int;
    let i = f * ch + c;
    assert(0 <= i < n * ch) by (nonlinear_arith)
        requires
            i == f * ch + c,
            0 <= c < ch,
            0 <= f < n,
    ;
    vstd::arithmetic::div_mod::lemma_fundamental_div_mod_converse(i, ch, f, c);
}

} // verus!
