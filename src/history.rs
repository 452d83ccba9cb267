//! Bounded histories of samples: the circular history of the pitch shifter
//! and the delay line of the phase rotator.
use vstd::prelude::*;

verus! {

pub open spec fn pow2(k: nat) -> nat
    decreases k,
{
    if k == 0 {
        1
    } else {
        2 * pow2((k - 1) as nat)
    }
}

/// The exponent of the largest power of two that is at most `n` (0 for `n < 2`).
pub open spec fn floor_log2(n: nat) -> nat
    decreases n,
{
    if n < 2 {
        0
    } else {
        1 + floor_log2(n / 2)
    }
}

pub open spec fn min_nat(a: nat, b: nat) -> nat {
    if a <= b {
        a
    } else {
        b
    }
}

/// Capacity of the history of each channel for a buffer of `len` samples: the
/// smaller of `2^log_size` and the largest power of two that is at most `len`,
/// shared out among the channels.
pub open spec fn capacity_of(len: nat, log_size: nat, channels: nat) -> nat
    recommends
        channels > 0,
{
    pow2(min_nat(log_size, floor_log2(len))) / channels
}

proof fn lemma_floor_log2_below(n: nat)
    requires
        n >= 1,
    ensures
        floor_log2(n) < n,
        n >= 2 ==> floor_log2(n) >= 1,
    decreases n,
{
    if n >= 2 {
        lemma_floor_log2_below(n / 2);
    }
}

proof fn lemma_pow2_grows(a: nat, b: nat)
    requires
        a <= b,
    ensures
        1 <= pow2(a) <= pow2(b),
    decreases b,
{
    if b > 0 {
        if a < b {
            lemma_pow2_grows(a, (b - 1) as nat);
        } else {
            lemma_pow2_grows(0, (b - 1) as nat);
        }
    }
}

/// The capacity of each channel's history, or `None` where the buffer is
/// empty, there is no channel, or the capacity would be zero.
pub fn history_capacity(len: usize, log_size: u8, channels: usize) -> (r: Option<usize>)
    ensures
        r == if len > 0 && channels > 0 && capacity_of(len as nat, log_size as nat, channels as nat)
            > 0 {
            Some(capacity_of(len as nat, log_size as nat, channels as nat) as usize)
        } else {
            None::<usize>
        },
{
    if len == 0 || channels == 0 {
        return None;
    }
    let mut m: usize = len;
    let mut top: usize = 1;
    let mut e: usize = 0;
    while m >= 2
        invariant
            1 <= m <= len,
            e + floor_log2(m as nat) == floor_log2(len as nat),
            top == pow2(e as nat),
            top * m <= len,
        decreases m,
    {
        assert(top * 2 <= top * m) by (nonlinear_arith)
            requires
                m >= 2,
                top >= 0,
        ;
        assert((top * 2) * (m / 2) <= top * m) by (nonlinear_arith)
            requires
                m >= 2,
                top >= 0,
                (m / 2) * 2 <= m,
        ;
        proof {
            lemma_floor_log2_below(m as nat);
            lemma_floor_log2_below(len as nat);
        }
        m = m / 2;
        top = top * 2;
        e = e + 1;
    }
    let ghost full = floor_log2(len as nat);
    proof {
        lemma_pow2_grows(0, e as nat);
    }
    let mut p: usize = 1;
    let mut k: usize = 0;
    while k < log_size as usize && k < e
        invariant
            e == full,
            top == pow2(e as nat),
            k <= e,
            k <= log_size,
            p == pow2(k as nat),
            p <= top,
        decreases e - k,
    {
        proof {
            lemma_pow2_grows((k + 1) as nat, e as nat);
        }
        p = p * 2;
        k = k + 1;
    }
    assert(k == min_nat(log_size as nat, full));
    let c = p / channels;
    if c == 0 {
        None
    } else {
        Some(c)
    }
}

/// A fixed-capacity history whose positions wrap through the bit mask
/// `capacity - 1`, with a writer that moves one slot per sample.
pub struct CircularHistory<S> {
    pub storage: Vec<S>,
    pub mask: usize,
    pub write: usize,
}

impl<S: Copy> CircularHistory<S> {
    pub open spec fn wf(&self) -> bool {
        self.storage@.len() == self.mask + 1
    }

    /// A history of `capacity` slots, all holding `fill`, with the writer at 0.
    pub fn new(fill: S, capacity: usize) -> (r: CircularHistory<S>)
        requires
            capacity > 0,
        ensures
            r.wf(),
            r.storage@ == Seq::new(capacity as nat, |i: int| fill),
            r.mask == capacity - 1,
            r.write == 0,
    {
        let mut storage: Vec<S> = Vec::new();
        let mut i: usize = 0;
        while i < capacity
            invariant
                i <= capacity,
                storage@ == Seq::new(i as nat, |j: int| fill),
            decreases capacity - i,
        {
            storage.push(fill);
            i = i + 1;
            assert(storage@ =~= Seq::new(i as nat, |j: int| fill));
        }
        CircularHistory { storage, mask: capacity - 1, write: 0 }
    }

    pub fn capacity(&self) -> (r: usize)
        requires
            self.wf(),
        ensures
            r == self.mask + 1,
    {
        self.storage.len()
    }

    /// Overwrites slot `i`.
    pub fn set(&mut self, i: usize, v: S)
        requires
            old(self).wf(),
            i <= old(self).mask,
        ensures
            final(self).wf(),
            final(self).storage@ == old(self).storage@.update(i as int, v),
            final(self).mask == old(self).mask,
            final(self).write == old(self).write,
    {
        self.storage.set(i, v);
    }

    /// Writes `v` at the writer's slot, taken through the mask, and moves the
    /// writer on by one.
    pub fn push(&mut self, v: S)
        requires
            old(self).wf(),
            old(self).write < usize::MAX,
        ensures
            final(self).wf(),
            final(self).storage@ == old(self).storage@.update(
                (old(self).write & old(self).mask) as int,
                v,
            ),
            final(self).mask == old(self).mask,
            final(self).write == old(self).write + 1,
    {
        let w = self.write;
        let m = self.mask;
        assert(w & m <= m) by (bit_vector);
        self.storage.set(w & m, v);
        self.write = w + 1;
    }

    /// The sample in slot `i`.
    pub fn at(&self, i: usize) -> (r: S)
        requires
            self.wf(),
            i <= self.mask,
        ensures
            r == self.storage@[i as int],
    {
        self.storage[i]
    }

    /// The sample in the slot that `i` wraps to through the mask.
    pub fn wrapped(&self, i: usize) -> (r: S)
        requires
            self.wf(),
        ensures
            r == self.storage@[(i & self.mask) as int],
    {
        let m = self.mask;
        assert(i & m <= m) by (bit_vector);
        self.storage[i & m]
    }
}

/// A delay line of fixed length whose position steps forward and comes back
/// to the start after the last cell.
pub struct DelayLine<S> {
    pub cells: Vec<S>,
    pub pos: usize,
}

impl<S: Copy> DelayLine<S> {
    pub open spec fn wf(&self) -> bool {
        self.pos < self.cells@.len()
    }

    /// A delay line of `len` cells, all holding `fill`, at its first cell.
    pub fn new(fill: S, len: usize) -> (r: DelayLine<S>)
        requires
            len > 0,
        ensures
            r.wf(),
            r.cells@ == Seq::new(len as nat, |i: int| fill),
            r.pos == 0,
    {
        let mut cells: Vec<S> = Vec::new();
        let mut i: usize = 0;
        while i < len
            invariant
                i <= len,
                cells@ == Seq::new(i as nat, |j: int| fill),
            decreases len - i,
        {
            cells.push(fill);
            i = i + 1;
            assert(cells@ =~= Seq::new(i as nat, |j: int| fill));
        }
        DelayLine { cells, pos: 0 }
    }

    /// The cell at the current position.
    pub fn current(&self) -> (r: S)
        requires
            self.wf(),
        ensures
            r == self.cells@[self.pos as int],
    {
        self.cells[self.pos]
    }

    /// Stores `v` in the current cell and steps to the next one, wrapping
    /// after the last.
    pub fn store_and_advance(&mut self, v: S)
        requires
            old(self).wf(),
        ensures
            final(self).wf(),
            final(self).cells@ == old(self).cells@.update(old(self).pos as int, v),
            final(self).pos == (old(self).pos + 1) % (old(self).cells@.len() as int),
    {
        let p = self.pos;
        let len = self.cells.len();
        self.cells.set(p, v);
        if p >= len - 1 {
            self.pos = 0;
            proof {
                vstd::arithmetic::div_mod::lemma_mod_self_0(len as int);
            }
        } else {
            self.pos = p + 1;
            proof {
                vstd::arithmetic::div_mod::lemma_small_mod((p + 1) as nat, len as nat);
            }
        }
    }
}

} // verus!
