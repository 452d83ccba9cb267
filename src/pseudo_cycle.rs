//! Transforms that work pseudo-cycle by pseudo-cycle.
use vstd::prelude::*;

use crate::cycles::{
    PseudoCycle,
    channel_of, cycle_bounds, frame_index, is_partition, lemma_frame_of,
    lemma_mirror_at, lemma_mirror_in, lemma_of_frame, mirror_in, pseudo_cycles, bounds_of,
};
use crate::types::{AudioBuffer, Sign};

verus! {

/// Where the sample that lands at position `k` comes from when every
/// pseudo-cycle of every channel is reversed in place. Positions of a trailing
/// partial frame stay.
pub open spec fn reversed_source(signs: Seq<Sign>, chs: nat, k: int) -> int {
    let frames = signs.len() / chs;
    if chs > 0 && 0 <= k < chs * frames {
        let ch = k % (chs as int);
        let i = k / (chs as int);
        ch + chs * mirror_in(cycle_bounds(channel_of(signs, chs, ch as nat)), i)
    } else {
        k
    }
}

/// `x` with each pseudo-cycle of each channel reversed; `signs` classifies `x`.
pub open spec fn reverse_cycles<A>(x: Seq<A>, signs: Seq<Sign>, chs: nat) -> Seq<A> {
    Seq::new(x.len(), |k: int| x[reversed_source(signs, chs, k)])
}

/// Reversing the pseudo-cycles twice gives the samples back, whenever the
/// reversed signal splits into the same pseudo-cycles as the original did.
/// (The signs travel with their samples, so those of the reversed signal are
/// the signs reversed in the same way.)
pub proof fn lemma_reverse_twice<A>(x: Seq<A>, signs: Seq<Sign>, chs: nat)
    requires
        chs > 0,
        signs.len() == x.len(),
        forall|ch: nat|
            ch < chs ==> cycle_bounds(
                channel_of(reverse_cycles(signs, signs, chs), chs, ch),
            ) == #[trigger] cycle_bounds(channel_of(signs, chs, ch)),
    ensures
        reverse_cycles(reverse_cycles(x, signs, chs), reverse_cycles(signs, signs, chs), chs) == x,
{
    let sy = reverse_cycles(signs, signs, chs);
    let y = reverse_cycles(x, signs, chs);
    let frames = (signs.len() / chs) as int;
    assert forall|k: int| 0 <= k < x.len() implies #[trigger] reverse_cycles(y, sy, chs)[k] == x[k] by {
        if 0 <= k < chs * frames {
            lemma_frame_of(chs as int, k, frames);
            let ch = k % (chs as int);
            let i = k / (chs as int);
            let s = channel_of(signs, chs, ch as nat);
            let bs = cycle_bounds(s);
            assert(cycle_bounds(channel_of(sy, chs, ch as nat)) == bs);
            crate::cycles::lemma_cycles_partition(s);
            lemma_mirror_in(bs, i);
            let m = mirror_in(bs, i);
            lemma_of_frame(chs as int, ch, m);
            crate::cycles::lemma_frame_index(chs as int, ch, m, signs.len() as int);
            assert(reversed_source(sy, chs, k) == ch + chs * m);
            assert(reversed_source(signs, chs, ch + chs * m) == ch + chs * i);
        }
    }
    assert(reverse_cycles(y, sy, chs) =~= x);
}

/// In a pseudo-cycle of `len` samples overlaid with its copy at sub-rate `d`,
/// the offset whose sample lands on offset `o`, if any. The copy is
/// `len / d` samples long (the rest of the cycle is dropped), takes every
/// `d`-th sample of the cycle, and is laid down `d` times end to end: offset
/// `j + c * (len / d)` gets the sample at `d * j`.
pub open spec fn fractal_source(len: int, d: int, o: int) -> Option<int> {
    let flen = len / d;
    if d > 0 && flen > 0 && 0 <= o && o / flen < d {
        Some(d * (o % flen))
    } else {
        None
    }
}

/// The offsets that add into offset `o` for the sub-rates `1..=depth`, in order.
pub open spec fn fractal_sources_of(len: int, depth: int, o: int) -> Seq<int>
    decreases depth,
{
    if depth <= 0 {
        seq![]
    } else {
        fractal_sources_of(len, depth - 1, o) + match fractal_source(len, depth, o) {
            Some(src) => seq![src],
            None => seq![],
        }
    }
}

/// Laid down `d` times, the copy at sub-rate `d` fills offsets `o` with
/// `o < d * (len / d)`, and takes its samples from inside the cycle.
pub proof fn lemma_fractal_source(len: int, d: int, o: int)
    requires
        0 < d,
        0 <= o < len,
    ensures
        fractal_source(len, d, o) is Some <==> o < d * (len / d),
        fractal_source(len, d, o) matches Some(src) ==> 0 <= src < len && src % d == 0,
{
    let flen = len / d;
    vstd::arithmetic::div_mod::lemma_fundamental_div_mod(len, d);
    vstd::arithmetic::div_mod::lemma_mod_bound(len, d);
    vstd::arithmetic::div_mod::lemma_div_pos_is_pos(len, d);
    if flen > 0 {
        vstd::arithmetic::div_mod::lemma_fundamental_div_mod(o, flen);
        vstd::arithmetic::div_mod::lemma_mod_bound(o, flen);
        vstd::arithmetic::div_mod::lemma_div_pos_is_pos(o, flen);
        assert(o / flen < d <==> o < d * flen) by (nonlinear_arith)
            requires
                flen > 0,
                o == flen * (o / flen) + o % flen,
                0 <= o % flen < flen,
                o / flen >= 0,
        ;
        assert(d * (o % flen) < len) by (nonlinear_arith)
            requires
                0 <= o % flen < flen,
                len == d * flen + len % d,
                0 <= len % d,
                d > 0,
        ;
        assert(0 <= d * (o % flen)) by (nonlinear_arith)
            requires
                0 <= o % flen,
                d > 0,
        ;
        vstd::arithmetic::div_mod::lemma_mod_multiples_basic(o % flen, d);
        assert((o % flen) * d == d * (o % flen)) by (nonlinear_arith);
    } else {
        assert(d * flen == 0) by (nonlinear_arith)
            requires
                flen == 0,
        ;
    }
}

/// At depth one a cycle is overlaid with itself alone: each offset takes its
/// own sample, so the transform leaves the signal as it is.
pub proof fn lemma_fractal_depth_one(len: int, o: int)
    requires
        0 <= o < len,
    ensures
        fractal_sources_of(len, 1, o) == seq![o],
{
    assert(len / 1 == len);
    vstd::arithmetic::div_mod::lemma_small_mod(o as nat, len as nat);
    vstd::arithmetic::div_mod::lemma_basic_div(o, len);
    assert(fractal_source(len, 1, o) == Some(o));
    assert(fractal_sources_of(len, 0, o) == Seq::<int>::empty());
    assert(fractal_sources_of(len, 1, o) =~= seq![o]);
}

/// For each offset of a pseudo-cycle of `len` samples, the offsets whose
/// samples add into it when the cycle is overlaid with its copies at sub-rates
/// `1..=depth`, in that order. Each of them is to be weighted `1 / depth`.
pub fn fractal_sources(len: usize, depth: u32) -> (r: Vec<Vec<usize>>)
    ensures
        r@.len() == len,
        forall|o: int|
            0 <= o < len ==> (#[trigger] r@[o])@.map_values(|v: usize| v as int)
                == fractal_sources_of(len as int, depth as int, o),
{
    let mut r: Vec<Vec<usize>> = Vec::new();
    let mut o: usize = 0;
    while o < len
        invariant
            o <= len,
            r@.len() == o,
            forall|k: int|
                0 <= k < o ==> (#[trigger] r@[k])@.map_values(|v: usize| v as int)
                    == fractal_sources_of(len as int, depth as int, k),
        decreases len - o,
    {
        let mut srcs: Vec<usize> = Vec::new();
        let mut d: u64 = 1;
        while d <= depth as u64
            invariant
                o < len,
                1 <= d,
                d <= depth + 1,
                srcs@.map_values(|v: usize| v as int) == fractal_sources_of(
                    len as int,
                    (d - 1) as int,
                    o as int,
                ),
            decreases depth + 1 - d,
        {
            let dd = d as usize;
            let flen = len / dd;
            let ghost prev = srcs@;
            proof {
                lemma_fractal_source(len as int, dd as int, o as int);
            }
            if flen > 0 && o / flen < dd {
                srcs.push(dd * (o % flen));
            }
            assert(srcs@.map_values(|v: usize| v as int) =~= fractal_sources_of(
                len as int,
                d as int,
                o as int,
            ));
            d = d + 1;
        }
        r.push(srcs);
        o = o + 1;
    }
    r
}

/// The frame of `cycle` whose magnitude key is largest (the first such frame).
/// `keys[k]` orders the magnitude of sample `k`: for floats that are not NaN,
/// the bit pattern of the absolute value orders them as their values do.
pub fn cycle_peak(keys: &Vec<u32>, channels: usize, cycle: PseudoCycle) -> (r: usize)
    requires
        cycle.channel < channels,
        cycle.start < cycle.end <= keys@.len() / (channels as nat),
    ensures
        cycle.start <= r < cycle.end,
        ({
            let s = channel_of(keys@, channels as nat, cycle.channel as nat);
            &&& forall|i: int| cycle.start <= i < cycle.end ==> #[trigger] s[i] <= s[r as int]
            &&& forall|i: int| cycle.start <= i < r ==> #[trigger] s[i] < s[r as int]
        }),
{
    let ghost s = channel_of(keys@, channels as nat, cycle.channel as nat);
    let ch = cycle.channel;
    let mut best = cycle.start;
    let mut best_key = keys[frame_index(channels, ch, best, keys.len())];
    let mut i = cycle.start + 1;
    while i < cycle.end
        invariant
            ch == cycle.channel,
            ch < channels,
            cycle.start <= best < i <= cycle.end,
            cycle.end <= keys@.len() / (channels as nat),
            s == channel_of(keys@, channels as nat, cycle.channel as nat),
            best_key == s[best as int],
            forall|k: int| cycle.start <= k < i ==> #[trigger] s[k] <= best_key,
            forall|k: int| cycle.start <= k < best ==> #[trigger] s[k] < best_key,
        decreases cycle.end - i,
    {
        let key = keys[frame_index(channels, ch, i, keys.len())];
        if key > best_key {
            best = i;
            best_key = key;
        }
        i = i + 1;
    }
    best
}

/// Position `k` has been handled once channels below `ch`, and frames below
/// `lim` of channel `ch`, are.
spec fn handled(k: int, chs: int, frames: int, ch: int, lim: int) -> bool {
    &&& 0 <= k < chs * frames
    &&& (k % chs < ch || (k % chs == ch && k / chs < lim))
}

/// Reverses the order of the samples inside each pseudo-cycle of each channel,
/// keeping the order of the cycles, the length and the metadata. `signs[k]`
/// classifies `audio.data[k]`.
pub fn reverse_pseudo_cycles<S: Copy>(audio: AudioBuffer<S>, signs: &Vec<Sign>) -> (r: AudioBuffer<S>)
    requires
        audio.metadata.channels > 0,
        signs@.len() == audio.data@.len(),
    ensures
        r.metadata == audio.metadata,
        r.data@ == reverse_cycles(audio.data@, signs@, audio.metadata.channels as nat),
{
    let metadata = audio.metadata;
    let chs = metadata.channels as usize;
    let mut data = audio.data;
    let ghost orig = data@;
    let ghost frames = (signs@.len() / (chs as nat)) as int;
    let ghost rs = |k: int| reversed_source(signs@, chs as nat, k);
    let mut ch: usize = 0;
    while ch < chs
        invariant
            0 < chs,
            ch <= chs,
            data@.len() == orig.len() == signs@.len(),
            frames == signs@.len() / (chs as nat),
            rs == (|k: int| reversed_source(signs@, chs as nat, k)),
            forall|k: int|
                0 <= k < orig.len() ==> #[trigger] data@[k] == if handled(
                    k,
                    chs as int,
                    frames,
                    ch as int,
                    0,
                ) {
                    orig[rs(k)]
                } else {
                    orig[k]
                },
        decreases chs - ch,
    {
        let cycles = pseudo_cycles(signs, chs, ch);
        let ghost s = channel_of(signs@, chs as nat, ch as nat);
        let ghost bs = bounds_of(cycles@);
        let mut c: usize = 0;
        while c < cycles.len()
            invariant
                0 < chs,
                ch < chs,
                data@.len() == orig.len() == signs@.len(),
                frames == signs@.len() / (chs as nat),
                rs == (|k: int| reversed_source(signs@, chs as nat, k)),
                s == channel_of(signs@, chs as nat, ch as nat),
                bs == bounds_of(cycles@),
                bs == cycle_bounds(s),
                is_partition(bs, frames),
                c <= cycles@.len(),
                forall|k: int|
                    0 <= k < orig.len() ==> #[trigger] data@[k] == if handled(
                        k,
                        chs as int,
                        frames,
                        ch as int,
                        if c == 0 { 0 } else { bs[c - 1].1 },
                    ) {
                        orig[rs(k)]
                    } else {
                        orig[k]
                    },
            decreases cycles@.len() - c,
        {
            let cycle = cycles[c];
            assert(bs[c as int] == (cycle.start as int, cycle.end as int));
            assert(c > 0 ==> bs[c - 1].1 == bs[c as int].0);
            proof {
                crate::cycles::lemma_contiguous_last(bs, c as int);
            }
            let len = cycle.end - cycle.start;
            let mut buffer: Vec<S> = Vec::new();
            let mut j: usize = 0;
            while j < len
                invariant
                    0 < chs,
                    ch < chs,
                    data@.len() == orig.len() == signs@.len(),
                    frames == signs@.len() / (chs as nat),
                    cycle.start < cycle.end <= frames,
                    len == cycle.end - cycle.start,
                    j <= len,
                    buffer@.len() == j,
                    forall|k: int|
                        0 <= k < orig.len() ==> #[trigger] data@[k] == if handled(
                            k,
                            chs as int,
                            frames,
                            ch as int,
                            cycle.start as int,
                        ) {
                            orig[rs(k)]
                        } else {
                            orig[k]
                        },
                    forall|t: int| 0 <= t < j ==> #[trigger] buffer@[t] == orig[ch + chs * (cycle.start + t)],
                decreases len - j,
            {
                let idx = frame_index(chs, ch, cycle.start + j, signs.len());
                proof {
                    lemma_of_frame(chs as int, ch as int, (cycle.start + j) as int);
                }
                buffer.push(data[idx]);
                j = j + 1;
            }
            let mut j: usize = 0;
            while j < len
                invariant
                    0 < chs,
                    ch < chs,
                    data@.len() == orig.len() == signs@.len(),
                    frames == signs@.len() / (chs as nat),
                    rs == (|k: int| reversed_source(signs@, chs as nat, k)),
                    s == channel_of(signs@, chs as nat, ch as nat),
                    bs == cycle_bounds(s),
                    is_partition(bs, frames),
                    c < bs.len(),
                    bs[c as int] == (cycle.start as int, cycle.end as int),
                    cycle.start < cycle.end <= frames,
                    len == cycle.end - cycle.start,
                    j <= len,
                    buffer@.len() == len,
                    forall|k: int|
                        0 <= k < orig.len() ==> #[trigger] data@[k] == if handled(
                            k,
                            chs as int,
                            frames,
                            ch as int,
                            cycle.start + j,
                        ) {
                            orig[rs(k)]
                        } else {
                            orig[k]
                        },
                    forall|t: int| 0 <= t < len ==> #[trigger] buffer@[t] == orig[ch + chs * (cycle.start + t)],
                decreases len - j,
            {
                let idx = frame_index(chs, ch, cycle.start + j, signs.len());
                let ghost i = (cycle.start + j) as int;
                proof {
                    lemma_of_frame(chs as int, ch as int, i);
                    lemma_mirror_at(bs, c as int, i);
                    assert(rs(idx as int) == ch + chs * (cycle.start + (len - 1 - j)));
                }
                data.set(idx, buffer[len - 1 - j]);
                proof {
                    assert forall|k: int| 0 <= k < orig.len() implies #[trigger] data@[k] == if handled(
                        k,
                        chs as int,
                        frames,
                        ch as int,
                        cycle.start + j + 1,
                    ) {
                        orig[rs(k)]
                    } else {
                        orig[k]
                    } by {
                        if 0 <= k < chs * frames {
                            lemma_frame_of(chs as int, k, frames);
                        }
                    }
                }
                j = j + 1;
            }
            c = c + 1;
        }
        proof {
            assert forall|k: int| 0 <= k < orig.len() implies handled(
                k,
                chs as int,
                frames,
                ch as int,
                if c == 0 { 0 } else { bs[c - 1].1 },
            ) == #[trigger] handled(k, chs as int, frames, ch + 1, 0) by {
                if 0 <= k < chs * frames {
                    lemma_frame_of(chs as int, k, frames);
                }
            }
        }
        ch = ch + 1;
    }
    proof {
        assert forall|k: int| 0 <= k < orig.len() implies #[trigger] data@[k] == reverse_cycles(
            orig,
            signs@,
            chs as nat,
        )[k] by {
            if 0 <= k < chs * frames {
                lemma_frame_of(chs as int, k, frames);
                let ch = k % (chs as int);
                let bs = cycle_bounds(channel_of(signs@, chs as nat, ch as nat));
                crate::cycles::lemma_cycles_partition(channel_of(signs@, chs as nat, ch as nat));
                lemma_mirror_in(bs, k / (chs as int));
                crate::cycles::lemma_frame_index(chs as int, ch, mirror_in(bs, k / (chs as int)), signs@.len() as int);
            }
        }
        assert(data@ =~= reverse_cycles(orig, signs@, chs as nat));
    }
    AudioBuffer { metadata, data }
}

} // verus!
