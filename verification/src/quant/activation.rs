//! A quantized activation vector, so the dot product can be integer.
//!
//! Weights arrive as small integers and get widened just to be multiplied by an
//! activation. That throws away most of the arithmetic width the hardware has.
//! So the activation is quantized once per matvec, and every row then dots
//! against it in integers.
//!
//! **This is an approximation**, unlike everything else in `quant`: rounding an
//! activation to a step discards information. What is done with the rounded
//! values is exact again.

use vstd::prelude::*;

verus! {

/// Elements per activation block. Matches the 32-element blocks of `Q8_0` and
/// `Q4_0`, and divides the 256-element K-quant super-blocks exactly, so one
/// format serves all of them.
pub const BLOCK: usize = 32;

/// An activation vector quantized to int8, block by block.
///
/// Reusable: `fill` overwrites in place so a decode step does not allocate.
#[derive(Clone, Debug)]
pub struct Quantized {
    /// One int8 per element.
    pub quants: Vec<i8>,
    /// One scale per block, as the bits of an `f32`. A value is about its quant
    /// times its scale.
    pub scales: Vec<u32>,
    /// Sum of the quants in each block.
    ///
    /// K-quants subtract a per-sub-block minimum from every weight, and that
    /// term factors out of the dot product into the minimum times the sum.
    /// Keeping the sums here means the inner loop never has to compute them.
    pub sums: Vec<i32>,
}

/// The sum of `n` quants from `from` on.
pub open spec fn sum_of(quants: Seq<i8>, from: int, n: nat) -> int
    decreases n,
{
    if n == 0 {
        0
    } else {
        sum_of(quants, from, (n - 1) as nat) + quants[from + n - 1]
    }
}

/// A rounded value, kept inside what an int8 holds on both sides.
pub open spec fn clamped(value: i32) -> int {
    if value < -127 {
        -127
    } else if value > 127 {
        127
    } else {
        value as int
    }
}

proof fn lemma_sum_same(a: Seq<i8>, b: Seq<i8>, from: int, n: nat)
    requires
        forall|i: int| from <= i < from + n ==> #[trigger] a[i] == b[i],
    ensures
        sum_of(a, from, n) == sum_of(b, from, n),
    decreases n,
{
    if n > 0 {
        lemma_sum_same(a, b, from, (n - 1) as nat);
        assert(a[from + n - 1] == b[from + n - 1]);
    }
}

impl Quantized {
    /// Whole blocks, each with its scale and its sum, and quants inside the
    /// symmetric int8 range.
    pub open spec fn wf(&self) -> bool {
        &&& self.quants@.len() == 32 * self.scales@.len()
        &&& self.sums@.len() == self.scales@.len()
        &&& forall|b: int| 0 <= b < self.sums@.len() ==> #[trigger] self.sums@[b] == sum_of(self.quants@, 32 * b, 32)
        &&& forall|i: int| 0 <= i < self.quants@.len() ==> -127 <= #[trigger] self.quants@[i] <= 127
    }

    /// Room for `len` elements, rounded up to whole blocks, all zero.
    pub fn with_capacity(len: usize) -> (q: Self)
        requires
            len + 31 <= usize::MAX,
        ensures
            q.wf(),
            q.scales@.len() == (len + 31) / 32,
            forall|i: int| 0 <= i < q.quants@.len() ==> #[trigger] q.quants@[i] == 0,
            forall|b: int| 0 <= b < q.scales@.len() ==> #[trigger] q.scales@[b] == 0,
    {
        let blocks: usize = (len + 31) / 32;
        let q = Quantized { quants: vec![0; blocks * BLOCK], scales: vec![0; blocks], sums: vec![0; blocks] };
        proof {
            assert forall|b: int| 0 <= b < q.sums@.len() implies #[trigger] q.sums@[b] == sum_of(q.quants@, 32 * b, 32) by {
                lemma_sum_zero(q.quants@, 32 * b, 32);
            }
        }
        q
    }

    /// How many elements there is room for.
    pub fn len(&self) -> (n: usize)
        ensures
            n == self.quants@.len(),
    {
        self.quants.len()
    }

    /// Whether there is no room.
    pub fn is_empty(&self) -> (empty: bool)
        ensures
            empty == (self.quants@.len() == 0),
    {
        self.quants.len() == 0
    }

    /// Takes in a vector that was divided by its steps and rounded, block by
    /// block, growing the buffers if needed. Blocks behind it are left alone.
    ///
    /// Values are clamped: a maximum that rounds up can otherwise give 128,
    /// which is not an int8.
    pub fn fill(&mut self, rounded: &[i32], steps: &[u32])
        requires
            old(self).wf(),
            rounded@.len() == 32 * steps@.len(),
        ensures
            final(self).wf(),
            final(self).scales@.len() == (if steps@.len() > old(self).scales@.len() {
                steps@.len()
            } else {
                old(self).scales@.len()
            }),
            forall|i: int| 0 <= i < rounded@.len() ==> #[trigger] final(self).quants@[i] == clamped(rounded@[i]),
            forall|b: int| 0 <= b < steps@.len() ==> #[trigger] final(self).scales@[b] == steps@[b],
            forall|i: int|
                rounded@.len() <= i < old(self).quants@.len() ==> #[trigger] final(self).quants@[i] == old(
                    self,
                ).quants@[i],
            forall|b: int|
                steps@.len() <= b < old(self).scales@.len() ==> #[trigger] final(self).scales@[b] == old(
                    self,
                ).scales@[b],
    {
        let blocks: usize = steps.len();
        let total: usize = rounded.len();
        let ghost before = *self;
        if self.quants.len() < total {
            self.quants.resize(total, 0);
            self.scales.resize(blocks, 0);
            self.sums.resize(blocks, 0);
        }
        let ghost size = self.scales@.len();
        proof {
            assert forall|i: int| 0 <= i < self.quants@.len() implies -127 <= #[trigger] self.quants@[i] <= 127 by {
                if i < before.quants@.len() {
                    assert(self.quants@[i] == before.quants@[i]);
                }
            }
            assert forall|b: int| blocks <= b < size implies #[trigger] self.sums@[b] == sum_of(self.quants@, 32 * b, 32) by {
                assert(before.sums@[b] == sum_of(before.quants@, 32 * b, 32));
                lemma_sum_same(before.quants@, self.quants@, 32 * b, 32);
            }
        }
        let mut b: usize = 0;
        while b < blocks
            invariant
                b <= blocks == steps@.len(),
                total == rounded@.len() == 32 * blocks,
                blocks <= size,
                size == self.scales@.len() == self.sums@.len(),
                self.quants@.len() == 32 * size,
                before.quants@.len() <= 32 * size,
                before.scales@.len() <= size,
                forall|i: int| 0 <= i < 32 * b ==> #[trigger] self.quants@[i] == clamped(rounded@[i]),
                forall|i: int| 0 <= i < self.quants@.len() ==> -127 <= #[trigger] self.quants@[i] <= 127,
                forall|c: int| 0 <= c < b ==> #[trigger] self.scales@[c] == steps@[c],
                forall|c: int|
                    (0 <= c < b || blocks <= c < size) ==> #[trigger] self.sums@[c] == sum_of(self.quants@, 32 * c, 32),
                forall|i: int|
                    total <= i < before.quants@.len() ==> #[trigger] self.quants@[i] == before.quants@[i],
                forall|c: int|
                    blocks <= c < before.scales@.len() ==> #[trigger] self.scales@[c] == before.scales@[c],
            decreases blocks - b,
        {
            let ghost whole = self.quants@;
            let ghost scales = self.scales@;
            let ghost sums = self.sums@;
            let mut sum: i32 = 0;
            let mut j: usize = 0;
            while j < BLOCK
                invariant
                    j <= 32,
                    b < blocks,
                    total == rounded@.len() == 32 * blocks,
                    blocks <= size,
                    self.scales@ == scales,
                    self.sums@ == sums,
                    before.quants@.len() <= 32 * size,
                    self.quants@.len() == 32 * size,
                    whole.len() == self.quants@.len(),
                    sum == sum_of(self.quants@, 32 * b, j as nat),
                    -127 * j <= sum <= 127 * j,
                    forall|i: int| 0 <= i < 32 * b + j ==> #[trigger] self.quants@[i] == clamped(rounded@[i]),
                    forall|i: int| 0 <= i < self.quants@.len() ==> -127 <= #[trigger] self.quants@[i] <= 127,
                    forall|i: int|
                        (0 <= i < 32 * b || 32 * b + 32 <= i < whole.len()) ==> #[trigger] self.quants@[i] == whole[i],
                    forall|i: int|
                        total <= i < before.quants@.len() ==> #[trigger] self.quants@[i] == before.quants@[i],
                decreases 32 - j,
            {
                let at: usize = b * BLOCK + j;
                let value: i32 = rounded[at];
                let quant: i8 = if value < -127 {
                    -127
                } else if value > 127 {
                    127
                } else {
                    value as i8
                };
                let ghost earlier = self.quants@;
                self.quants[at] = quant;
                proof {
                    lemma_sum_same(earlier, self.quants@, 32 * b, j as nat);
                }
                sum += quant as i32;
                j += 1;
            }
            self.scales[b] = steps[b];
            self.sums[b] = sum;
            proof {
                assert forall|c: int| (0 <= c < b + 1 || blocks <= c < size) implies #[trigger] self.sums@[c] == sum_of(
                    self.quants@,
                    32 * c,
                    32,
                ) by {
                    if c != b {
                        lemma_sum_same(whole, self.quants@, 32 * c, 32);
                    }
                }
            }
            b += 1;
        }
    }

    /// Quants, scale and sum of one block.
    pub fn block(&self, index: usize) -> (block: (&[i8], u32, i32))
        requires
            self.wf(),
            index < self.scales@.len(),
        ensures
            block.0@ == self.quants@.subrange(32 * index, 32 * index + 32),
            block.1 == self.scales@[index as int],
            block.2 == self.sums@[index as int],
    {
        let n: usize = self.quants.len();
        assert(32 * index + 32 <= n);
        (
            vstd::slice::slice_subrange(self.quants.as_slice(), index * BLOCK, index * BLOCK + BLOCK),
            self.scales[index],
            self.sums[index],
        )
    }
}

proof fn lemma_sum_zero(quants: Seq<i8>, from: int, n: nat)
    requires
        0 <= from,
        from + n <= quants.len(),
        forall|i: int| 0 <= i < quants.len() ==> #[trigger] quants[i] == 0,
    ensures
        sum_of(quants, from, n) == 0,
    decreases n,
{
    if n > 0 {
        lemma_sum_zero(quants, from, (n - 1) as nat);
    }
}

} // verus!
