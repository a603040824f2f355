//! Static division of the output image among worker threads, and the
//! per-pixel random streams that make a render independent of that division.
use vstd::prelude::*;

verus! {

/// Rows per block: `ceil(height / num_threads)`.
pub open spec fn block_rows(height: nat, num_threads: nat) -> nat
    recommends
        num_threads >= 1,
{
    ((height + num_threads - 1) as nat / num_threads) as nat
}

/// First row of block `k`.
pub open spec fn block_start(height: nat, num_threads: nat, k: nat) -> nat {
    let s = k * block_rows(height, num_threads);
    if s < height {
        s
    } else {
        height
    }
}

/// One past the last row of block `k`; the last block runs to the bottom row.
pub open spec fn block_end(height: nat, num_threads: nat, k: nat) -> nat {
    if k + 1 >= num_threads {
        height
    } else {
        block_start(height, num_threads, k + 1)
    }
}

proof fn lemma_start_monotone(height: nat, num_threads: nat, j: nat, k: nat)
    requires
        j <= k,
    ensures
        block_start(height, num_threads, j) <= block_start(height, num_threads, k),
{
    let c = block_rows(height, num_threads);
    assert(j * c <= k * c) by (nonlinear_arith)
        requires
            j <= k,
    ;
}

/// The row ranges `[start, end)` of the `num_threads` workers, top to bottom.
pub fn partition_rows(height: usize, num_threads: usize) -> (r: Vec<(usize, usize)>)
    requires
        num_threads >= 1,
    ensures
        r@.len() == num_threads,
        forall|k: int|
            0 <= k < num_threads ==> #[trigger] r@[k] == (
            block_start(height as nat, num_threads as nat, k as nat) as usize,
            block_end(height as nat, num_threads as nat, k as nat) as usize,
        ),
{
    let q: usize = height / num_threads;
    proof {
        assert(height % num_threads != 0 ==> q < height) by (nonlinear_arith)
            requires
                num_threads >= 1,
                q == height / num_threads,
        ;
    }
    let rows: usize = if height % num_threads == 0 {
        q
    } else {
        q + 1
    };
    proof {
        assert(rows == block_rows(height as nat, num_threads as nat)) by (nonlinear_arith)
            requires
                num_threads >= 1,
                rows == height / num_threads + if height % num_threads == 0 {
                    0int
                } else {
                    1int
                },
        ;
    }
    let mut out: Vec<(usize, usize)> = Vec::new();
    let mut start: usize = 0;
    let mut k: usize = 0;
    while k < num_threads
        invariant
            k <= num_threads,
            num_threads >= 1,
            rows == block_rows(height as nat, num_threads as nat),
            out@.len() == k,
            start == block_start(height as nat, num_threads as nat, k as nat),
            forall|j: int|
                0 <= j < k ==> #[trigger] out@[j] == (
                block_start(height as nat, num_threads as nat, j as nat) as usize,
                block_end(height as nat, num_threads as nat, j as nat) as usize,
            ),
        decreases num_threads - k,
    {
        let next: usize = if height - start > rows {
            start + rows
        } else {
            height
        };
        proof {
            let c = rows as nat;
            assert((k + 1) * c == k * c + c) by (nonlinear_arith);
        }
        let end: usize = if k + 1 == num_threads {
            height
        } else {
            next
        };
        out.push((start, end));
        start = next;
        k = k + 1;
    }
    out
}

/// Whether row `y` belongs to worker `k`.
pub open spec fn in_block(height: nat, num_threads: nat, k: nat, y: nat) -> bool {
    k < num_threads && block_start(height, num_threads, k) <= y < block_end(height, num_threads, k)
}

/// The worker blocks tile the rows: every row lies in exactly one block, so every
/// pixel of a row-major image is written by exactly one worker.
pub proof fn lemma_partition_complete(height: nat, num_threads: nat, y: nat)
    requires
        num_threads >= 1,
        y < height,
    ensures
        exists|k: nat| #[trigger] in_block(height, num_threads, k, y),
        forall|j: nat, k: nat|
            #[trigger] in_block(height, num_threads, j, y) && #[trigger] in_block(
                height,
                num_threads,
                k,
                y,
            ) ==> j == k,
{
    let c = block_rows(height, num_threads);
    assert(c >= 1) by (nonlinear_arith)
        requires
            c == ((height + num_threads - 1) as nat / num_threads) as nat,
            height >= 1,
            num_threads >= 1,
    ;
    let k = if y / c < num_threads {
        y / c
    } else {
        (num_threads - 1) as nat
    };
    assert(k * c <= y) by (nonlinear_arith)
        requires
            c >= 1,
            k <= y / c,
    ;
    if k + 1 < num_threads {
        assert(y < (k + 1) * c) by (nonlinear_arith)
            requires
                c >= 1,
                k == y / c,
        ;
    }
    assert(in_block(height, num_threads, k, y));
    assert forall|j: nat, i: nat|
        #[trigger] in_block(height, num_threads, j, y) && #[trigger] in_block(
            height,
            num_threads,
            i,
            y,
        ) implies j == i by {
        if j < i {
            lemma_start_monotone(height, num_threads, j + 1, i);
        } else if i < j {
            lemma_start_monotone(height, num_threads, i + 1, j);
        }
    }
}

/// The seed of the random stream for pixel `(x, y)`: the base seed with the pixel's
/// coordinates folded in, so that no stream depends on which worker draws it.
pub open spec fn pixel_seed_spec(base_seed: u64, x: u32, y: u32) -> u64 {
    base_seed ^ ((y as u64) * 0x1_0000_0000 + x as u64) as u64
}

pub fn pixel_seed(base_seed: u64, x: u32, y: u32) -> (r: u64)
    ensures
        r == pixel_seed_spec(base_seed, x, y),
{
    base_seed ^ ((y as u64) * 0x1_0000_0000 + x as u64)
}

pub const GOLDEN_GAMMA: u64 = 0x9E37_79B9_7F4A_7C15;

pub const MIX_A: u64 = 0xBF58_476D_1CE4_E5B9;

pub const MIX_B: u64 = 0x94D0_49BB_1331_11EB;

/// The SplitMix64 output for the (already advanced) state `z`.
pub open spec fn mix64(z: u64) -> u64 {
    let a = (z ^ (z >> 30u64)).wrapping_mul(MIX_A);
    let b = (a ^ (a >> 27u64)).wrapping_mul(MIX_B);
    b ^ (b >> 31u64)
}

/// A SplitMix64 stream of pseudo-random numbers.
#[derive(Clone, Copy, Debug, PartialEq, Eq, Structural)]
pub struct SampleRng {
    pub state: u64,
}

impl SampleRng {
    pub fn new(seed: u64) -> (r: SampleRng)
        ensures
            r.state == seed,
    {
        SampleRng { state: seed }
    }

    /// Advances the stream and returns its next number.
    pub fn next_u64(&mut self) -> (r: u64)
        ensures
            final(self).state == old(self).state.wrapping_add(GOLDEN_GAMMA),
            r == mix64(final(self).state),
    {
        self.state = self.state.wrapping_add(GOLDEN_GAMMA);
        let z = self.state;
        let a = (z ^ (z >> 30u64)).wrapping_mul(MIX_A);
        let b = (a ^ (a >> 27u64)).wrapping_mul(MIX_B);
        b ^ (b >> 31u64)
    }
}

} // verus!
