//! Pseudo-cycle segmentation: a channel is cut into runs of non-negative
//! samples each followed by a run of non-positive samples.
use vstd::prelude::*;

use crate::types::Sign;

verus! {

/// One pseudo-cycle of a channel: frame indices `start..end` of that channel.
#[derive(Clone, Copy, Debug, PartialEq, Eq, Structural)]
pub struct PseudoCycle {
    pub channel: usize,
    pub start: usize,
    pub end: usize,
}

/// The samples of channel `ch` out of an interleaved sequence with `chs` channels.
pub open spec fn channel_of<A>(s: Seq<A>, chs: nat, ch: nat) -> Seq<A>
    recommends
        chs > 0,
        ch < chs,
{
    Seq::new(s.len() / chs, |i: int| s[ch + chs * i])
}

/// End of the non-negative run that starts at `i`.
pub open spec fn non_negative_run_end(s: Seq<Sign>, i: int) -> int
    decreases s.len() - i,
{
    if 0 <= i < s.len() && s[i].spec_non_negative() {
        non_negative_run_end(s, i + 1)
    } else {
        i
    }
}

/// End of the non-positive run that starts at `i`.
pub open spec fn non_positive_run_end(s: Seq<Sign>, i: int) -> int
    decreases s.len() - i,
{
    if 0 <= i < s.len() && s[i].spec_non_positive() {
        non_positive_run_end(s, i + 1)
    } else {
        i
    }
}

/// End (exclusive) of the pseudo-cycle that starts at `start`: a non-negative
/// run, then a non-positive run. A zero goes to whichever run is under way.
pub open spec fn cycle_end(s: Seq<Sign>, start: int) -> int {
    non_positive_run_end(s, non_negative_run_end(s, start))
}

/// The bounds of the pseudo-cycles of `s` from `start` on, in order.
pub open spec fn cycles_from(s: Seq<Sign>, start: int) -> Seq<(int, int)>
    decreases s.len() - start,
{
    if 0 <= start < s.len() && start < cycle_end(s, start) <= s.len() {
        seq![(start, cycle_end(s, start))] + cycles_from(s, cycle_end(s, start))
    } else {
        seq![]
    }
}

/// The bounds of all the pseudo-cycles of one channel's signs.
pub open spec fn cycle_bounds(s: Seq<Sign>) -> Seq<(int, int)> {
    cycles_from(s, 0)
}

/// The bounds of a list of pseudo-cycles.
pub open spec fn bounds_of(cs: Seq<PseudoCycle>) -> Seq<(int, int)> {
    cs.map_values(|c: PseudoCycle| (c.start as int, c.end as int))
}

/// `bs` cuts `0..n` into consecutive non-empty pieces.
pub open spec fn is_partition(bs: Seq<(int, int)>, n: int) -> bool {
    &&& (bs.len() == 0 <==> n == 0)
    &&& bs.len() > 0 ==> bs[0].0 == 0 && bs[bs.len() - 1].1 == n
    &&& forall|k: int| 0 <= k < bs.len() ==> #[trigger] bs[k].0 < bs[k].1
    &&& forall|k: int| 0 <= k < bs.len() - 1 ==> #[trigger] bs[k].1 == bs[k + 1].0
}

pub proof fn lemma_non_negative_run_end(s: Seq<Sign>, i: int)
    requires
        0 <= i <= s.len(),
    ensures
        i <= non_negative_run_end(s, i) <= s.len(),
        forall|k: int| i <= k < non_negative_run_end(s, i) ==> #[trigger] s[k].spec_non_negative(),
    decreases s.len() - i,
{
    if i < s.len() && s[i].spec_non_negative() {
        lemma_non_negative_run_end(s, i + 1);
    }
}

pub proof fn lemma_non_positive_run_end(s: Seq<Sign>, i: int)
    requires
        0 <= i <= s.len(),
    ensures
        i <= non_positive_run_end(s, i) <= s.len(),
        forall|k: int| i <= k < non_positive_run_end(s, i) ==> #[trigger] s[k].spec_non_positive(),
    decreases s.len() - i,
{
    if i < s.len() && s[i].spec_non_positive() {
        lemma_non_positive_run_end(s, i + 1);
    }
}

/// A cycle that starts inside the sequence is not empty and ends inside it.
pub proof fn lemma_cycle_end(s: Seq<Sign>, start: int)
    requires
        0 <= start < s.len(),
    ensures
        start < cycle_end(s, start) <= s.len(),
{
    lemma_non_negative_run_end(s, start);
    lemma_non_positive_run_end(s, non_negative_run_end(s, start));
    if s[start].spec_non_negative() {
        lemma_non_negative_run_end(s, start + 1);
    } else {
        lemma_non_positive_run_end(s, start + 1);
    }
}

/// The cycles from `start` on cut `start..s.len()` into consecutive non-empty pieces.
pub proof fn lemma_cycles_from_partition(s: Seq<Sign>, start: int)
    requires
        0 <= start <= s.len(),
    ensures
        ({
            let bs = cycles_from(s, start);
            &&& (bs.len() == 0 <==> start == s.len())
            &&& bs.len() > 0 ==> bs[0].0 == start && bs[bs.len() - 1].1 == s.len()
            &&& forall|k: int| 0 <= k < bs.len() ==> #[trigger] bs[k].0 < bs[k].1
            &&& forall|k: int| 0 <= k < bs.len() - 1 ==> #[trigger] bs[k].1 == bs[k + 1].0
        }),
    decreases s.len() - start,
{
    if start < s.len() {
        lemma_cycle_end(s, start);
        let e = cycle_end(s, start);
        lemma_cycles_from_partition(s, e);
        let rest = cycles_from(s, e);
        let bs = cycles_from(s, start);
        assert(bs == seq![(start, e)] + rest);
        assert forall|k: int| 0 <= k < bs.len() implies #[trigger] bs[k].0 < bs[k].1 by {
            if k > 0 {
                assert(bs[k] == rest[k - 1]);
            }
        }
        assert forall|k: int| 0 <= k < bs.len() - 1 implies #[trigger] bs[k].1 == bs[k + 1].0 by {
            if k > 0 {
                assert(bs[k] == rest[k - 1]);
                assert(bs[k + 1] == rest[k]);
            }
        }
    }
}

/// The pseudo-cycles of a channel exactly partition its samples, with no gap
/// and no overlap.
pub proof fn lemma_cycles_partition(s: Seq<Sign>)
    ensures
        is_partition(cycle_bounds(s), s.len() as int),
{
    lemma_cycles_from_partition(s, 0);
}

/// A channel of zeros is a single pseudo-cycle spanning all of it.
pub proof fn lemma_silence_is_one_cycle(s: Seq<Sign>)
    requires
        s.len() > 0,
        forall|k: int| 0 <= k < s.len() ==> s[k] == Sign::Zero,
    ensures
        cycle_bounds(s) == seq![(0int, s.len() as int)],
{
    assert forall|i: int| 0 <= i <= s.len() implies non_negative_run_end(s, i) == s.len() by {
        lemma_run_to_end(s, i);
    }
    assert(non_positive_run_end(s, s.len() as int) == s.len());
    assert(cycles_from(s, s.len() as int) == Seq::<(int, int)>::empty());
    assert(cycle_bounds(s) =~= seq![(0int, s.len() as int)]);
}

proof fn lemma_run_to_end(s: Seq<Sign>, i: int)
    requires
        0 <= i <= s.len(),
        forall|k: int| 0 <= k < s.len() ==> s[k] == Sign::Zero,
    ensures
        non_negative_run_end(s, i) == s.len(),
    decreases s.len() - i,
{
    if i < s.len() {
        lemma_run_to_end(s, i + 1);
    }
}

pub proof fn lemma_frame_index(chs: int, ch: int, i: int, n: int)
    requires
        0 <= ch < chs,
        0 <= i < n / chs,
        n >= 0,
    ensures
        0 <= ch + chs * i < n,
        ch + chs * i < chs * (n / chs),
{
    assert(0 <= chs * i) by (nonlinear_arith)
        requires
            chs > 0,
            i >= 0,
    ;
    assert(chs * i + chs <= chs * (n / chs)) by (nonlinear_arith)
        requires
            chs > 0,
            i + 1 <= n / chs,
    ;
    assert(chs * (n / chs) <= n) by (nonlinear_arith)
        requires
            chs > 0,
            n >= 0,
    ;
}

/// Position in the interleaved sequence of frame `i` of channel `ch`.
pub fn frame_index(chs: usize, ch: usize, i: usize, len: usize) -> (r: usize)
    requires
        ch < chs,
        i < len / chs,
    ensures
        r == ch + chs * i,
        r < len,
        r < chs * (len / chs),
{
    proof {
        lemma_frame_index(chs as int, ch as int, i as int, len as int);
    }
    ch + chs * i
}

/// Frame `i` mirrored inside the piece of `bs` that holds it; a frame that no
/// piece holds stays where it is.
pub open spec fn mirror_in(bs: Seq<(int, int)>, i: int) -> int
    decreases bs.len(),
{
    if bs.len() == 0 {
        i
    } else if bs[0].0 <= i < bs[0].1 {
        bs[0].0 + bs[0].1 - 1 - i
    } else {
        mirror_in(bs.drop_first(), i)
    }
}

/// Consecutive non-empty pieces, each starting where the one before it ends.
pub open spec fn contiguous(bs: Seq<(int, int)>) -> bool {
    &&& forall|k: int| 0 <= k < bs.len() ==> #[trigger] bs[k].0 < bs[k].1
    &&& forall|k: int| 0 <= k < bs.len() - 1 ==> #[trigger] bs[k].1 == bs[k + 1].0
}

pub proof fn lemma_contiguous_last(bs: Seq<(int, int)>, k: int)
    requires
        contiguous(bs),
        0 <= k < bs.len(),
    ensures
        bs[k].1 <= bs[bs.len() - 1].1,
    decreases bs.len() - k,
{
    if k < bs.len() - 1 {
        lemma_contiguous_last(bs, k + 1);
        assert(bs[k].1 == bs[k + 1].0);
        assert(bs[k + 1].0 < bs[k + 1].1);
    }
}

/// Mirroring inside contiguous pieces stays within them and undoes itself.
pub proof fn lemma_mirror_in(bs: Seq<(int, int)>, i: int)
    requires
        contiguous(bs),
        bs.len() > 0,
        bs[0].0 <= i < bs[bs.len() - 1].1,
    ensures
        bs[0].0 <= mirror_in(bs, i) < bs[bs.len() - 1].1,
        mirror_in(bs, mirror_in(bs, i)) == i,
    decreases bs.len(),
{
    lemma_contiguous_last(bs, 0);
    if !(i < bs[0].1) {
        let rest = bs.drop_first();
        assert(bs[0].0 < bs[0].1);
        assert(rest.len() > 0);
        assert(rest[0] == bs[1]);
        assert(bs[0].1 == bs[1].0);
        assert(rest[rest.len() - 1] == bs[bs.len() - 1]);
        assert forall|k: int| 0 <= k < rest.len() - 1 implies #[trigger] rest[k].1 == rest[k + 1].0 by {
            assert(rest[k] == bs[k + 1]);
            assert(rest[k + 1] == bs[k + 2]);
        }
        assert forall|k: int| 0 <= k < rest.len() implies #[trigger] rest[k].0 < rest[k].1 by {
            assert(rest[k] == bs[k + 1]);
        }
        lemma_mirror_in(rest, i);
        assert(bs[0].0 < bs[0].1 <= rest[0].0);
    }
}

/// The cycles from a start on are the cycle there followed by the cycles from its end.
pub proof fn lemma_cycles_from_unfold(s: Seq<Sign>, start: int)
    requires
        0 <= start < s.len(),
    ensures
        cycles_from(s, start) == seq![(start, cycle_end(s, start))] + cycles_from(
            s,
            cycle_end(s, start),
        ),
        cycles_from(s, start).drop_first() == cycles_from(s, cycle_end(s, start)),
{
    lemma_cycle_end(s, start);
    assert((seq![(start, cycle_end(s, start))] + cycles_from(s, cycle_end(s, start))).drop_first()
        =~= cycles_from(s, cycle_end(s, start)));
}

/// The pseudo-cycles of channel `channel` of an interleaved sign sequence, in order.
pub fn pseudo_cycles(signs: &Vec<Sign>, channels: usize, channel: usize) -> (r: Vec<PseudoCycle>)
    requires
        channel < channels,
    ensures
        bounds_of(r@) == cycle_bounds(channel_of(signs@, channels as nat, channel as nat)),
        is_partition(bounds_of(r@), (signs@.len() / (channels as nat)) as int),
        forall|k: int| 0 <= k < r@.len() ==> (#[trigger] r@[k]).channel == channel,
{
    let ghost s = channel_of(signs@, channels as nat, channel as nat);
    let mut cursor = CycleCursor::new(signs, channels, channel);
    let mut r: Vec<PseudoCycle> = Vec::new();
    loop
        invariant
            cursor.wf(signs@.len()),
            cursor.channels == channels,
            cursor.channel == channel,
            s == channel_of(signs@, channels as nat, channel as nat),
            s.len() == cursor.frames,
            bounds_of(r@) + cycles_from(s, cursor.pos as int) == cycle_bounds(s),
            forall|k: int| 0 <= k < r@.len() ==> (#[trigger] r@[k]).channel == channel,
        ensures
            cursor.pos >= cursor.frames,
            bounds_of(r@) + cycles_from(s, cursor.pos as int) == cycle_bounds(s),
            forall|k: int| 0 <= k < r@.len() ==> (#[trigger] r@[k]).channel == channel,
        decreases cursor.frames - cursor.pos,
    {
        let ghost before = cursor;
        let next = cursor.next(signs);
        match next {
            Some(c) => {
                proof {
                    lemma_cycles_from_unfold(s, before.pos as int);
                    lemma_cycle_end(s, before.pos as int);
                }
                let ghost prev = r@;
                r.push(c);
                proof {
                    assert(bounds_of(r@) =~= bounds_of(prev) + seq![(c.start as int, c.end as int)]);
                    assert(bounds_of(r@) + cycles_from(s, cursor.pos as int) =~= bounds_of(prev)
                        + cycles_from(s, before.pos as int));
                }
            },
            None => {
                break;
            },
        }
    }
    proof {
        assert(cycles_from(s, cursor.pos as int) =~= Seq::<(int, int)>::empty());
        assert(bounds_of(r@) =~= cycle_bounds(s));
        lemma_cycles_partition(s);
    }
    r
}

/// Inside piece `c` of contiguous pieces, mirroring reflects about that piece's middle.
pub proof fn lemma_mirror_at(bs: Seq<(int, int)>, c: int, i: int)
    requires
        contiguous(bs),
        0 <= c < bs.len(),
        bs[c].0 <= i < bs[c].1,
    ensures
        mirror_in(bs, i) == bs[c].0 + bs[c].1 - 1 - i,
    decreases c,
{
    if c > 0 {
        let rest = bs.drop_first();
        assert forall|k: int| 0 <= k < rest.len() - 1 implies #[trigger] rest[k].1 == rest[k + 1].0 by {
            assert(rest[k] == bs[k + 1]);
            assert(rest[k + 1] == bs[k + 2]);
        }
        assert forall|k: int| 0 <= k < rest.len() implies #[trigger] rest[k].0 < rest[k].1 by {
            assert(rest[k] == bs[k + 1]);
        }
        lemma_mirror_at(rest, c - 1, i);
        assert(rest[c - 1] == bs[c]);
        assert(bs[0].1 <= bs[c].0) by {
            lemma_contiguous_first(bs, c);
        }
    }
}

proof fn lemma_contiguous_first(bs: Seq<(int, int)>, k: int)
    requires
        contiguous(bs),
        0 < k < bs.len(),
    ensures
        bs[0].1 <= bs[k].0,
    decreases k,
{
    if k > 1 {
        lemma_contiguous_first(bs, k - 1);
    }
    assert(bs[k - 1].1 == bs[k].0);
    assert(bs[k - 1].0 < bs[k - 1].1);
}

/// Frame and channel of position `k` of an interleaved sequence of `frames` frames.
pub proof fn lemma_frame_of(chs: int, k: int, frames: int)
    requires
        chs > 0,
        0 <= k < chs * frames,
    ensures
        0 <= k % chs < chs,
        0 <= k / chs < frames,
        k == k % chs + chs * (k / chs),
{
    vstd::arithmetic::div_mod::lemma_fundamental_div_mod(k, chs);
    vstd::arithmetic::div_mod::lemma_mod_pos_bound(k, chs);
    vstd::arithmetic::div_mod::lemma_div_pos_is_pos(k, chs);
    assert(k / chs < frames) by (nonlinear_arith)
        requires
            chs > 0,
            k < chs * frames,
            k == k % chs + chs * (k / chs),
            0 <= k % chs < chs,
    ;
}

/// Channel and frame of the position of frame `i` of channel `ch`.
pub proof fn lemma_of_frame(chs: int, ch: int, i: int)
    requires
        0 <= ch < chs,
        0 <= i,
    ensures
        (ch + chs * i) % chs == ch,
        (ch + chs * i) / chs == i,
{
    assert(chs * i == i * chs) by (nonlinear_arith);
    vstd::arithmetic::div_mod::lemma_fundamental_div_mod_converse(ch + chs * i, chs, i, ch);
}

/// A restartable, forward-only producer of the pseudo-cycles of one channel of
/// an interleaved sign sequence.
pub struct CycleCursor {
    pub channels: usize,
    pub channel: usize,
    pub frames: usize,
    pub pos: usize,
}

impl CycleCursor {
    /// The cursor is over a channel of a sign sequence of `len` entries.
    pub open spec fn wf(&self, len: nat) -> bool {
        &&& self.channels > 0
        &&& self.channel < self.channels
        &&& self.frames == len / (self.channels as nat)
        &&& self.pos <= self.frames
    }

    /// A cursor at the first frame of channel `channel`.
    pub fn new(signs: &Vec<Sign>, channels: usize, channel: usize) -> (r: CycleCursor)
        requires
            channel < channels,
        ensures
            r.wf(signs@.len()),
            r.channels == channels,
            r.channel == channel,
            r.pos == 0,
    {
        CycleCursor { channels, channel, frames: signs.len() / channels, pos: 0 }
    }

    /// Back to the first frame of the channel.
    pub fn restart(&mut self)
        ensures
            *final(self) == (CycleCursor { pos: 0, ..*old(self) }),
    {
        self.pos = 0;
    }

    /// The next pseudo-cycle of the channel, or `None` once it is exhausted.
    pub fn next(&mut self, signs: &Vec<Sign>) -> (r: Option<PseudoCycle>)
        requires
            old(self).wf(signs@.len()),
        ensures
            final(self).wf(signs@.len()),
            final(self).channels == old(self).channels,
            final(self).channel == old(self).channel,
            ({
                let s = channel_of(signs@, old(self).channels as nat, old(self).channel as nat);
                if old(self).pos < old(self).frames {
                    &&& r == Some(
                        PseudoCycle {
                            channel: old(self).channel,
                            start: old(self).pos,
                            end: cycle_end(s, old(self).pos as int) as usize,
                        },
                    )
                    &&& final(self).pos == cycle_end(s, old(self).pos as int)
                } else {
                    r.is_none() && final(self).pos == old(self).pos
                }
            }),
    {
        let ghost s = channel_of(signs@, self.channels as nat, self.channel as nat);
        if self.pos >= self.frames {
            return None;
        }
        let start = self.pos;
        let mut end = start;
        proof {
            lemma_non_negative_run_end(s, start as int);
        }
        while end < self.frames && signs[frame_index(self.channels, self.channel, end, signs.len())].is_non_negative()
            invariant
                self.wf(signs@.len()),
                self.pos == start,
                s == channel_of(signs@, self.channels as nat, self.channel as nat),
                start <= end <= self.frames,
                non_negative_run_end(s, end as int) == non_negative_run_end(s, start as int),
            decreases self.frames - end,
        {
            proof {
                lemma_frame_index(self.channels as int, self.channel as int, end as int, signs@.len() as int);
            }
            end = end + 1;
        }
        proof {
            if end < self.frames {
                lemma_frame_index(self.channels as int, self.channel as int, end as int, signs@.len() as int);
            }
            lemma_non_positive_run_end(s, end as int);
        }
        let mid = end;
        while end < self.frames && signs[frame_index(self.channels, self.channel, end, signs.len())].is_non_positive()
            invariant
                self.wf(signs@.len()),
                self.pos == start,
                s == channel_of(signs@, self.channels as nat, self.channel as nat),
                mid <= end <= self.frames,
                non_negative_run_end(s, start as int) == mid,
                non_positive_run_end(s, end as int) == non_positive_run_end(s, mid as int),
            decreases self.frames - end,
        {
            proof {
                lemma_frame_index(self.channels as int, self.channel as int, end as int, signs@.len() as int);
            }
            end = end + 1;
        }
        proof {
            if end < self.frames {
                lemma_frame_index(self.channels as int, self.channel as int, end as int, signs@.len() as int);
            }
        }
        self.pos = end;
        Some(PseudoCycle { channel: self.channel, start, end })
    }
}

} // verus!
