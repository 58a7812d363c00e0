use vstd::prelude::*;

use crate::{Error, ErrorKind};

verus! {

/// Two to the power `n`.
pub open spec fn two_pow(n: nat) -> nat
    decreases n,
{
    if n == 0 {
        1
    } else {
        2 * two_pow((n - 1) as nat)
    }
}

/// Powers of two grow with the exponent.
pub proof fn lemma_two_pow_monotone(a: nat, b: nat)
    requires
        a <= b,
    ensures
        1 <= two_pow(a) <= two_pow(b),
    decreases b,
{
    if b > a {
        lemma_two_pow_monotone(a, (b - 1) as nat);
    } else if a > 0 {
        lemma_two_pow_monotone(0, (a - 1) as nat);
    }
}

/// Two to the power `n`, or `None` where that does not fit in a `usize`.
pub fn checked_pow2(n: usize) -> (r: Option<usize>)
    ensures
        r matches Some(p) ==> p == two_pow(n as nat),
        r is None ==> two_pow(n as nat) > usize::MAX,
{
    let mut p: usize = 1;
    let mut i: usize = 0;
    while i < n
        invariant
            i <= n,
            p == two_pow(i as nat),
        decreases n - i,
    {
        if p > usize::MAX / 2 {
            proof {
                lemma_two_pow_monotone((i + 1) as nat, n as nat);
            }
            return None;
        }
        p = p * 2;
        i = i + 1;
    }
    Some(p)
}

} // verus!

verus! {

/// How a series is analysed: `blocks` coarse coefficients and `scales` dyadic
/// levels, which use the first `blocks * 2^scales` samples.
///
/// The coefficients of the transformed prefix fall into `scales + 1`
/// contiguous ranges: the coarse block `[0, blocks)`, then one detail block
/// per scale, coarsest first, the one of scale `k` being
/// `[blocks * 2^k, blocks * 2^(k+1))`.
#[derive(Clone, Copy, Debug, PartialEq, Eq)]
pub struct Layout {
    blocks: usize,
    scales: usize,
}

impl View for Layout {
    /// The block count and the scale count.
    type V = (nat, nat);

    closed spec fn view(&self) -> (nat, nat) {
        (self.blocks as nat, self.scales as nat)
    }
}

/// The number of samples that `blocks` blocks over `scales` scales use.
pub open spec fn used_len(blocks: nat, scales: nat) -> nat {
    blocks * two_pow(scales)
}

/// The start of the detail block of scale `k`.
pub open spec fn detail_start(blocks: nat, k: nat) -> nat {
    blocks * two_pow(k)
}

/// `scales` is the largest scale count for which `blocks` blocks fit in
/// `len` samples.
pub open spec fn fits_exactly(len: nat, blocks: nat, scales: nat) -> bool {
    used_len(blocks, scales) <= len < used_len(blocks, scales + 1)
}

impl Layout {
    /// The layout is usable: at least two blocks, at least one scale, and
    /// its length fits in a `usize`.
    pub open spec fn wf(&self) -> bool {
        &&& self@.0 >= 2
        &&& self@.1 >= 1
        &&& used_len(self@.0, self@.1) <= usize::MAX
    }

    /// A layout with the given block and scale counts for a series of `len`
    /// samples.
    pub fn new(len: usize, blocks: usize, scales: usize) -> (r: Result<Layout, Error>)
        ensures
            r is Ok <==> blocks >= 2 && scales >= 1 && used_len(blocks as nat, scales as nat) <= len,
            r matches Ok(l) ==> l.wf() && l@ == (blocks as nat, scales as nat),
            r matches Err(e) ==> e == (if blocks < 2 || scales == 0 {
                Error(ErrorKind::InvalidConfiguration)
            } else {
                Error(ErrorKind::InsufficientData)
            }),
    {
        if blocks < 2 || scales == 0 {
            return Err(Error(ErrorKind::InvalidConfiguration));
        }
        match checked_pow2(scales) {
            None => {
                proof {
                    lemma_used_len_grows(blocks as nat, scales as nat);
                }
                Err(Error(ErrorKind::InsufficientData))
            },
            Some(p) => {
                if p > len / blocks {
                    proof {
                        assert(blocks * p > len) by (nonlinear_arith)
                            requires
                                p > len / blocks,
                                blocks >= 2,
                        ;
                    }
                    Err(Error(ErrorKind::InsufficientData))
                } else {
                    proof {
                        assert(blocks * p <= len) by (nonlinear_arith)
                            requires
                                p <= len / blocks,
                                blocks >= 2,
                        ;
                    }
                    Ok(Layout { blocks, scales })
                }
            },
        }
    }

    /// A layout with `blocks` blocks over as many scales as a series of
    /// `len` samples allows: the largest count `s` with `blocks * 2^s <= len`.
    pub fn with_blocks(len: usize, blocks: usize) -> (r: Result<Layout, Error>)
        ensures
            r is Ok <==> blocks >= 2 && 2 * blocks <= len,
            r matches Ok(l) ==> l.wf() && l@.0 == blocks && fits_exactly(len as nat, l@.0, l@.1),
            r matches Err(e) ==> e == (if blocks < 2 {
                Error(ErrorKind::InvalidConfiguration)
            } else {
                Error(ErrorKind::InsufficientData)
            }),
    {
        if blocks < 2 {
            return Err(Error(ErrorKind::InvalidConfiguration));
        }
        if blocks > len / 2 {
            return Err(Error(ErrorKind::InsufficientData));
        }
        let mut size: usize = blocks;
        let mut scales: usize = 0;
        assert(used_len(blocks as nat, 0) == blocks) by {
            assert(two_pow(0) == 1);
        }
        while size <= len / 2
            invariant
                blocks >= 2,
                blocks <= size,
                scales < size,
                2 * blocks <= len,
                size <= len,
                size == used_len(blocks as nat, scales as nat),
                scales == 0 ==> size <= len / 2,
            decreases len - size,
        {
            proof {
                lemma_used_len_step(blocks as nat, scales as nat);
            }
            size = size * 2;
            scales = scales + 1;
        }
        proof {
            lemma_used_len_step(blocks as nat, scales as nat);
        }
        Ok(Layout { blocks, scales })
    }

    /// A layout over `scales` scales with as many blocks as a series of `len`
    /// samples allows: `len / 2^scales`.
    pub fn with_scales(len: usize, scales: usize) -> (r: Result<Layout, Error>)
        ensures
            r is Ok <==> scales >= 1 && 2 * two_pow(scales as nat) <= len,
            r matches Ok(l) ==> l.wf() && l@ == (len as nat / two_pow(scales as nat), scales as nat),
            r matches Err(e) ==> e == (if scales == 0 {
                Error(ErrorKind::InvalidConfiguration)
            } else {
                Error(ErrorKind::InsufficientData)
            }),
    {
        if scales == 0 {
            return Err(Error(ErrorKind::InvalidConfiguration));
        }
        match checked_pow2(scales) {
            None => Err(Error(ErrorKind::InsufficientData)),
            Some(p) => {
                proof {
                    lemma_two_pow_monotone(0, scales as nat);
                }
                let blocks = len / p;
                proof {
                    assert(blocks >= 2 <==> 2 * p <= len) by (nonlinear_arith)
                        requires
                            blocks == len / p,
                            p >= 1,
                    ;
                    assert(blocks * p <= len) by (nonlinear_arith)
                        requires
                            blocks == len / p,
                            p >= 1,
                    ;
                }
                if blocks < 2 {
                    Err(Error(ErrorKind::InsufficientData))
                } else {
                    Ok(Layout { blocks, scales })
                }
            },
        }
    }

    /// The number of coarse coefficients.
    pub fn blocks(&self) -> (r: usize)
        ensures
            r == self@.0,
    {
        self.blocks
    }

    /// The number of dyadic scales.
    pub fn scales(&self) -> (r: usize)
        ensures
            r == self@.1,
    {
        self.scales
    }

    /// The number of leading samples that the analysis uses.
    pub fn len(&self) -> (r: usize)
        requires
            self.wf(),
        ensures
            r == used_len(self@.0, self@.1),
    {
        proof {
            lemma_used_len_grows(self@.0, self@.1);
        }
        let p = checked_pow2(self.scales).unwrap();
        self.blocks * p
    }

    /// The number of values in a sample path drawn over these scales.
    pub fn path_len(&self) -> (r: usize)
        requires
            self.wf(),
        ensures
            r == two_pow(self@.1),
    {
        proof {
            lemma_used_len_grows(self@.0, self@.1);
        }
        checked_pow2(self.scales).unwrap()
    }

    /// The range of the coarse scaling coefficients: `[0, blocks)`.
    pub fn coarse(&self) -> (r: (usize, usize))
        ensures
            r.0 == 0,
            r.1 == self@.0,
    {
        (0, self.blocks)
    }

    /// The range of the detail coefficients of scale `k`, coarsest first:
    /// `[blocks * 2^k, blocks * 2^(k+1))`.
    pub fn detail(&self, k: usize) -> (r: (usize, usize))
        requires
            self.wf(),
            k < self@.1,
        ensures
            r.0 == detail_start(self@.0, k as nat),
            r.1 == detail_start(self@.0, k as nat + 1),
    {
        proof {
            lemma_detail_start_bounded(self@.0, k as nat + 1, self@.1);
            lemma_used_len_step(self@.0, k as nat);
            lemma_used_len_grows(self@.0, k as nat);
        }
        let p = checked_pow2(k).unwrap();
        (self.blocks * p, self.blocks * p * 2)
    }

    /// All the ranges of the coefficients in order: the coarse block, then the
    /// detail block of each scale, coarsest first.
    pub fn ranges(&self) -> (r: Vec<(usize, usize)>)
        requires
            self.wf(),
        ensures
            r@.len() == self@.1 + 1,
            r@[0] == (0usize, self@.0 as usize),
            forall|k: int|
                0 <= k < self@.1 ==> (#[trigger] r@[k + 1]).0 == detail_start(self@.0, k as nat)
                    && r@[k + 1].1 == detail_start(self@.0, k as nat + 1),
    {
        let mut r: Vec<(usize, usize)> = Vec::new();
        r.push(self.coarse());
        let mut k: usize = 0;
        while k < self.scales
            invariant
                self.wf(),
                k <= self@.1,
                r@.len() == k + 1,
                r@[0] == (0usize, self@.0 as usize),
                forall|m: int|
                    0 <= m < k ==> (#[trigger] r@[m + 1]).0 == detail_start(self@.0, m as nat)
                        && r@[m + 1].1 == detail_start(self@.0, m as nat + 1),
            decreases self@.1 - k,
        {
            r.push(self.detail(k));
            k = k + 1;
        }
        r
    }
}

/// One more scale doubles the samples used.
proof fn lemma_used_len_step(blocks: nat, scales: nat)
    ensures
        used_len(blocks, scales + 1) == 2 * used_len(blocks, scales),
{
    let p = two_pow(scales);
    assert(two_pow(scales + 1) == 2 * p);
    assert(blocks * (2 * p) == 2 * (blocks * p)) by (nonlinear_arith);
}

/// A detail block of a usable layout ends within the samples it uses.
proof fn lemma_detail_start_bounded(blocks: nat, k: nat, scales: nat)
    requires
        k <= scales,
    ensures
        detail_start(blocks, k) <= used_len(blocks, scales),
        two_pow(k) <= two_pow(scales),
{
    lemma_two_pow_monotone(k, scales);
    let a = two_pow(k);
    let b = two_pow(scales);
    assert(blocks * a <= blocks * b) by (nonlinear_arith)
        requires
            a <= b,
    ;
}

/// The coefficient ranges of a layout tile the samples it uses: the coarse
/// block `[0, blocks)` is followed without gap by the detail block of scale
/// 0, each detail block by that of the next scale, the one of scale `k`
/// holds `blocks * 2^k` coefficients, and the last one ends at
/// `blocks * 2^scales`.
pub proof fn lemma_ranges_partition(blocks: nat, scales: nat)
    ensures
        detail_start(blocks, 0) == blocks,
        detail_start(blocks, scales) == used_len(blocks, scales),
        forall|k: nat| #[trigger] detail_start(blocks, k + 1) - detail_start(blocks, k) == blocks * two_pow(k),
{
    assert(two_pow(0) == 1);
    assert forall|k: nat| #[trigger] detail_start(blocks, k + 1) - detail_start(blocks, k) == blocks * two_pow(k) by {
        lemma_used_len_step(blocks, k);
    }
}

/// A layout never uses fewer samples than it has blocks, nor than two to the
/// power of its scales.
proof fn lemma_used_len_grows(blocks: nat, scales: nat)
    requires
        blocks >= 1,
    ensures
        used_len(blocks, scales) >= blocks,
        used_len(blocks, scales) >= two_pow(scales),
{
    lemma_two_pow_monotone(0, scales);
    let p = two_pow(scales);
    assert(blocks * p >= blocks && blocks * p >= p) by (nonlinear_arith)
        requires
            blocks >= 1,
            p >= 1,
    ;
}

} // verus!
