//! Categorical sampling from softmax weights by a walk of their cumulative
//! sums.
use vstd::prelude::*;

use super::attention::pick_max;
use crate::index::{lemma_mul_le, lemma_row};
use crate::num::{ExactNum, Num, Store};
use crate::sums::{lemma_range_congr, lemma_range_split, range_sum};

verus! {

/// Threads of the sampling threadgroup.
pub const SAMPLE_THREADS: u32 = 256;

/// Logit `i` over the temperature.
pub open spec fn logit<F: Num, T: Store<F>>(inp: Seq<T>, inv_t: F, i: int) -> F {
    inp[i].widen_s().mul_s(inv_t)
}

/// Largest of `acc` and logits `pos`, `pos + 256`, .. below `n`.
pub open spec fn lane_peak<F: Num, T: Store<F>>(
    inp: Seq<T>,
    inv_t: F,
    n: int,
    pos: int,
    acc: F,
) -> F
    decreases
            (if pos < n {
                n - pos
            } else {
                0
            }),
{
    if pos >= n {
        acc
    } else {
        lane_peak::<F, T>(
            inp,
            inv_t,
            n,
            pos + 256,
            pick_max(logit::<F, T>(inp, inv_t, pos), acc),
        )
    }
}

/// One halving stage of the maximum reduction.
pub open spec fn max_stage<F: Num>(v: Seq<F>, stride: nat) -> Seq<F> {
    Seq::new(
        v.len(),
        |l: int|
            if l < stride {
                pick_max(v[l + stride], v[l])
            } else {
                v[l]
            },
    )
}

/// The reduction from stage `stride` on.
pub open spec fn tree_max<F: Num>(v: Seq<F>, stride: nat) -> Seq<F>
    decreases stride,
{
    if stride == 0 {
        v
    } else {
        tree_max(max_stage(v, stride), stride / 2)
    }
}

/// Largest logit as each lane of the threadgroup found it.
pub open spec fn lane_peaks<F: Num, T: Store<F>>(inp: Seq<T>, inv_t: F, n: int) -> Seq<F> {
    Seq::new(256, |l: int| lane_peak::<F, T>(inp, inv_t, n, l, F::neg_inf_s()))
}

/// Largest logit.
pub open spec fn peak<F: Num, T: Store<F>>(inp: Seq<T>, inv_t: F, n: int) -> F {
    tree_max(lane_peaks::<F, T>(inp, inv_t, n), 128)[0]
}

/// Unnormalised softmax weight `i`.
pub open spec fn weight<F: Num, T: Store<F>>(inp: Seq<T>, inv_t: F, max: F, i: int) -> F {
    logit::<F, T>(inp, inv_t, i).sub_s(max).exp_s()
}

/// Positions that a lane owns.
pub open spec fn chunk(n: int) -> int {
    (n + 255) / 256
}

/// First position of lane `l`.
pub open spec fn chunk_lo(n: int, l: int) -> int {
    l * chunk(n)
}

/// End of the positions of lane `l`.
pub open spec fn chunk_hi(n: int, l: int) -> int {
    if chunk_lo(n, l) + chunk(n) > n {
        n
    } else {
        chunk_lo(n, l) + chunk(n)
    }
}

/// `acc` plus weights `i .. hi`.
pub open spec fn chunk_sum<F: Num, T: Store<F>>(
    inp: Seq<T>,
    inv_t: F,
    max: F,
    i: int,
    hi: int,
    acc: F,
) -> F
    decreases hi - i,
{
    if i >= hi {
        acc
    } else {
        chunk_sum::<F, T>(
            inp,
            inv_t,
            max,
            i + 1,
            hi,
            acc.add_s(weight::<F, T>(inp, inv_t, max, i)),
        )
    }
}

/// One stage of the inclusive scan: every lane adds the value `stride` lanes
/// before it.
pub open spec fn scan_stage<F: Num>(v: Seq<F>, stride: int) -> Seq<F> {
    Seq::new(
        v.len(),
        |l: int|
            v[l].add_s(
                if l >= stride {
                    v[l - stride]
                } else {
                    F::zero_s()
                },
            ),
    )
}

/// The scan from stage `stride` on.
pub open spec fn scan<F: Num>(v: Seq<F>, stride: int) -> Seq<F>
    decreases
            (if stride < 256 {
                256 - stride
            } else {
                0
            }),
{
    if stride >= 256 || stride <= 0 {
        v
    } else {
        scan(scan_stage(v, stride), stride * 2)
    }
}

/// Sums of the lanes' own weights.
pub open spec fn chunk_sums<F: Num, T: Store<F>>(
    inp: Seq<T>,
    inv_t: F,
    max: F,
    n: int,
) -> Seq<F> {
    Seq::new(
        256,
        |l: int|
            chunk_sum::<F, T>(inp, inv_t, max, chunk_lo(n, l), chunk_hi(n, l), F::zero_s()),
    )
}

/// Cumulative weight at the end of each lane's chunk.
pub open spec fn cumulative<F: Num, T: Store<F>>(
    inp: Seq<T>,
    inv_t: F,
    max: F,
    n: int,
) -> Seq<F> {
    scan(chunk_sums::<F, T>(inp, inv_t, max, n), 1)
}

/// Cumulative weight in front of lane `l`.
pub open spec fn before<F: Num>(cdf: Seq<F>, l: int) -> F {
    if l == 0 {
        F::zero_s()
    } else {
        cdf[l - 1]
    }
}

/// The target lies in lane `l`: above everything before the lane, at or below
/// the lane's end. Nothing lies before the first lane.
pub open spec fn is_hit<F: Num>(cdf: Seq<F>, target: F, n: int, l: int) -> bool {
    &&& l == 0 || target.gt_s(before(cdf, l))
    &&& cdf[l].ge_s(target)
    &&& chunk_lo(n, l) < n
}

/// First position from `i` on whose cumulative weight reaches the target; the
/// last position if none does.
pub open spec fn walk_chunk<F: Num, T: Store<F>>(
    inp: Seq<T>,
    inv_t: F,
    max: F,
    target: F,
    i: int,
    hi: int,
    cum: F,
) -> int
    decreases hi - i,
{
    if i >= hi {
        hi - 1
    } else {
        let next = cum.add_s(weight::<F, T>(inp, inv_t, max, i));
        if next.ge_s(target) {
            i
        } else {
            walk_chunk::<F, T>(inp, inv_t, max, target, i + 1, hi, next)
        }
    }
}

/// The first lane from `l` on that the target lies in.
pub open spec fn hit_lane<F: Num>(cdf: Seq<F>, target: F, n: int, l: int) -> Option<int>
    decreases 256 - l,
{
    if l >= 256 {
        None
    } else if is_hit(cdf, target, n, l) {
        Some(l)
    } else {
        hit_lane(cdf, target, n, l + 1)
    }
}

/// The sampled position for a temperature and a uniform draw; none if the
/// draw's target lies in no lane.
pub open spec fn sampled<F: Num, T: Store<F>>(
    inp: Seq<T>,
    n: int,
    temperature: F,
    uniform: F,
) -> Option<int> {
    let inv_t = F::one_s().div_s(temperature);
    let max = peak::<F, T>(inp, inv_t, n);
    let cdf = cumulative::<F, T>(inp, inv_t, max, n);
    let target = uniform.mul_s(cdf[255]);
    match hit_lane(cdf, target, n, 0) {
        None => None,
        Some(l) => Some(
            walk_chunk::<F, T>(
                inp,
                inv_t,
                max,
                target,
                chunk_lo(n, l),
                chunk_hi(n, l),
                before(cdf, l),
            ),
        ),
    }
}

/// Computes [`peak`].
fn get_peak<F: Num, T: Store<F>>(inp: &[T], inv_t: F, n: u32) -> (r: F)
    requires
        n <= inp@.len(),
    ensures
        r == peak::<F, T>(inp@, inv_t, n as int),
{
    let ghost full = lane_peaks::<F, T>(inp@, inv_t, n as int);
    let mut tg: Vec<F> = Vec::new();
    let mut lid: u32 = 0;
    while lid < SAMPLE_THREADS
        invariant
            lid <= 256,
            n <= inp@.len(),
            full == lane_peaks::<F, T>(inp@, inv_t, n as int),
            tg@ == full.take(lid as int),
        decreases 256 - lid,
    {
        let mut local_max = F::neg_inf();
        let mut pos: u64 = lid as u64;
        while pos < n as u64
            invariant
                lid < 256,
                n <= inp@.len(),
                pos <= n + 256,
                lane_peak::<F, T>(inp@, inv_t, n as int, pos as int, local_max) == lane_peak::<
                    F,
                    T,
                >(inp@, inv_t, n as int, lid as int, F::neg_inf_s()),
            decreases n + 256 - pos,
        {
            let v = inp[pos as usize].widen().mul(inv_t);
            if v.gt(local_max) {
                local_max = v;
            }
            pos += 256;
        }
        tg.push(local_max);
        assert(tg@ =~= full.take(lid + 1));
        lid += 1;
    }
    assert(tg@ =~= full);
    let mut stride: usize = 128;
    while stride > 0
        invariant
            stride <= 128,
            tg@.len() == 256,
            tree_max(tg@, stride as nat) == tree_max(full, 128),
        decreases stride,
    {
        let ghost old_tg = tg@;
        let mut l: usize = 0;
        while l < stride
            invariant
                l <= stride <= 128,
                tg@.len() == 256,
                old_tg.len() == 256,
                forall|j: int|
                    0 <= j < 256 ==> #[trigger] tg@[j] == (if j < l {
                        max_stage(old_tg, stride as nat)[j]
                    } else {
                        old_tg[j]
                    }),
            decreases stride - l,
        {
            let ov = tg[l + stride];
            let tv = tg[l];
            let top = if ov.gt(tv) {
                ov
            } else {
                tv
            };
            tg.set(l, top);
            l += 1;
        }
        assert(tg@ =~= max_stage(old_tg, stride as nat));
        stride = stride / 2;
    }
    tg[0]
}

/// Computes [`cumulative`].
fn get_cumulative<F: Num, T: Store<F>>(inp: &[T], inv_t: F, max: F, n: u32) -> (r: Vec<F>)
    requires
        n <= inp@.len(),
        n <= 0xffff_ff00,
    ensures
        r@.len() == 256,
        r@ == cumulative::<F, T>(inp@, inv_t, max, n as int),
{
    let ghost full = chunk_sums::<F, T>(inp@, inv_t, max, n as int);
    let width: u32 = (n + 255) / 256;
    let mut tg: Vec<F> = Vec::new();
    let mut lid: u32 = 0;
    while lid < SAMPLE_THREADS
        invariant
            lid <= 256,
            n <= inp@.len(),
            n <= 0xffff_ff00,
            width == chunk(n as int),
            full == chunk_sums::<F, T>(inp@, inv_t, max, n as int),
            tg@ == full.take(lid as int),
        decreases 256 - lid,
    {
        let (lo, hi) = get_chunk(n, lid);
        let mut local_partial = F::zero();
        let mut j: u32 = lo;
        while j < hi
            invariant
                hi <= n <= inp@.len(),
                chunk_sum::<F, T>(inp@, inv_t, max, j as int, hi as int, local_partial)
                    == chunk_sum::<F, T>(inp@, inv_t, max, lo as int, hi as int, F::zero_s()),
            decreases hi - j,
        {
            let v = inp[j as usize].widen().mul(inv_t);
            local_partial = local_partial.add(v.sub(max).exp());
            j += 1;
        }
        tg.push(local_partial);
        assert(tg@ =~= full.take(lid + 1));
        lid += 1;
    }
    assert(tg@ =~= full);
    let mut stride: usize = 1;
    while stride < 256
        invariant
            0 < stride < 512,
            tg@.len() == 256,
            scan(tg@, stride as int) == scan(full, 1),
        decreases 512 - stride,
    {
        let ghost stage = scan_stage(tg@, stride as int);
        let mut next: Vec<F> = Vec::new();
        let mut l: usize = 0;
        while l < 256
            invariant
                l <= 256,
                0 < stride < 256,
                tg@.len() == 256,
                stage == scan_stage(tg@, stride as int),
                next@ == stage.take(l as int),
            decreases 256 - l,
        {
            let neighbor = if l >= stride {
                tg[l - stride]
            } else {
                F::zero()
            };
            next.push(tg[l].add(neighbor));
            assert(next@ =~= stage.take(l + 1));
            l += 1;
        }
        assert(next@ =~= stage);
        tg = next;
        stride = stride * 2;
    }
    tg
}

/// Bounds of the chunk of lane `lid`.
fn get_chunk(n: u32, lid: u32) -> (r: (u32, u32))
    requires
        n <= 0xffff_ff00,
        lid < 256,
    ensures
        r.0 == chunk_lo(n as int, lid as int),
        r.1 == chunk_hi(n as int, lid as int),
        r.1 <= n,
{
    let width: u32 = (n + 255) / 256;
    proof {
        lemma_row(lid as int, 256, width as int);
    }
    let lo: u32 = lid * width;
    let hi: u32 = if lo + width > n {
        n
    } else {
        lo + width
    };
    (lo, hi)
}

/// Samples a position from the softmax of the logits over the temperature.
/// `out[0]` is kept where the target lies in no lane.
pub fn softmax_categorical_sample<F: Num, T: Store<F>>(
    inp: &[T],
    out: &mut Vec<u32>,
    temperature_in: &[F],
    uniform_in: &[F],
    n: u32,
)
    requires
        n <= inp@.len(),
        n <= 0xffff_ff00,
        1 <= temperature_in@.len(),
        1 <= uniform_in@.len(),
        1 <= old(out)@.len(),
    ensures
        final(out)@ == (match sampled::<F, T>(
            inp@,
            n as int,
            temperature_in@[0],
            uniform_in@[0],
        ) {
            None => old(out)@,
            Some(i) => old(out)@.update(0, i as u32),
        }),
{
    let inv_t = F::one().div(temperature_in[0]);
    let max = get_peak::<F, T>(inp, inv_t, n);
    let cdf = get_cumulative::<F, T>(inp, inv_t, max, n);
    let target = uniform_in[0].mul(cdf[255]);
    let mut lid: u32 = 0;
    while lid < SAMPLE_THREADS
        invariant
            lid <= 256,
            n <= inp@.len(),
            n <= 0xffff_ff00,
            cdf@.len() == 256,
            *out == *old(out),
            1 <= out@.len(),
            max == peak::<F, T>(inp@, inv_t, n as int),
            inv_t == F::one_s().div_s(temperature_in@[0]),
            cdf@ == cumulative::<F, T>(inp@, inv_t, max, n as int),
            target == uniform_in@[0].mul_s(cdf@[255]),
            hit_lane(cdf@, target, n as int, lid as int) == hit_lane(cdf@, target, n as int, 0),
        decreases 256 - lid,
    {
        let (lo, hi) = get_chunk(n, lid);
        let prev_cum = if lid == 0 {
            F::zero()
        } else {
            cdf[(lid - 1) as usize]
        };
        let hit: bool = (lid == 0 || target.gt(prev_cum)) && cdf[lid as usize].ge(target) && lo < n;
        if hit {
            let mut cum = prev_cum;
            let mut found: u32 = hi - 1;
            let mut done: bool = false;
            let mut i: u32 = lo;
            while i < hi && !done
                invariant
                    lo <= i <= hi <= n <= inp@.len(),
                    done ==> found == walk_chunk::<F, T>(
                        inp@,
                        inv_t,
                        max,
                        target,
                        lo as int,
                        hi as int,
                        prev_cum,
                    ),
                    !done ==> found == hi - 1 && walk_chunk::<F, T>(
                        inp@,
                        inv_t,
                        max,
                        target,
                        i as int,
                        hi as int,
                        cum,
                    ) == walk_chunk::<F, T>(
                        inp@,
                        inv_t,
                        max,
                        target,
                        lo as int,
                        hi as int,
                        prev_cum,
                    ),
                decreases hi - i,
            {
                let v = inp[i as usize].widen().mul(inv_t);
                cum = cum.add(v.sub(max).exp());
                if cum.ge(target) {
                    found = i;
                    done = true;
                }
                i += 1;
            }
            out.set(0, found);
            return ;
        }
        lid += 1;
    }
}

/// The result of the maximum reduction is one of the values, and none is
/// larger.
proof fn lemma_tree_max<F: ExactNum>(v: Seq<F>, stride: nat)
    requires
        v.len() == 256,
        stride == 128 || stride == 64 || stride == 32 || stride == 16 || stride == 8 || stride == 4
            || stride == 2 || stride == 1 || stride == 0,
    ensures
        forall|l: int|
            0 <= l < (if stride == 0 {
                1
            } else {
                2 * stride
            }) ==> !(#[trigger] v[l]).gt_s(tree_max(v, stride)[0]),
        exists|l: int| 0 <= l < 256 && #[trigger] v[l] == tree_max(v, stride)[0],
    decreases stride,
{
    let top = tree_max(v, stride)[0];
    if stride == 0 {
        F::order_irreflexive(v[0]);
        assert(v[0] == top);
    } else {
        let w = max_stage(v, stride);
        lemma_tree_max(w, stride / 2);
        assert(top == tree_max(w, stride / 2)[0]);
        let k = choose|l: int| 0 <= l < 256 && #[trigger] w[l] == top;
        if k < stride && v[k + stride].gt_s(v[k]) {
            assert(v[k + stride] == top);
        } else {
            assert(v[k] == top);
        }
        assert forall|l: int| 0 <= l < 2 * stride implies !(#[trigger] v[l]).gt_s(top) by {
            let j = if l < stride {
                l
            } else {
                l - stride
            };
            let (a, b) = (v[j + stride], v[j]);
            assert(w[j] == pick_max(a, b));
            assert(!w[j].gt_s(top)) by {
                assert(j < stride);
            }
            lemma_not_above(a, b, top);
        }
    }
}

/// What is below the larger of two is below both.
proof fn lemma_not_above<F: ExactNum>(a: F, b: F, top: F)
    requires
        !pick_max(a, b).gt_s(top),
    ensures
        !a.gt_s(top),
        !b.gt_s(top),
{
    if a.gt_s(b) {
        if b.gt_s(top) {
            F::order_transitive(a, b, top);
        }
    } else {
        F::order_total(a, b);
        if a.gt_s(top) && b.gt_s(a) {
            F::order_transitive(b, a, top);
        }
    }
}

proof fn lemma_lane_peak<F: ExactNum, T: Store<F>>(
    inp: Seq<T>,
    inv_t: F,
    n: int,
    pos: int,
    acc: F,
    k: int,
)
    requires
        0 <= pos,
        0 <= k,
    ensures
        !acc.gt_s(lane_peak::<F, T>(inp, inv_t, n, pos, acc)),
        pos + k * 256 < n ==> !logit::<F, T>(inp, inv_t, pos + k * 256).gt_s(
            lane_peak::<F, T>(inp, inv_t, n, pos, acc),
        ),
        lane_peak::<F, T>(inp, inv_t, n, pos, acc) == acc || exists|i: int|
            pos <= i < n && #[trigger] logit::<F, T>(inp, inv_t, i) == lane_peak::<F, T>(
                inp,
                inv_t,
                n,
                pos,
                acc,
            ),
    decreases
            (if pos < n {
                n - pos
            } else {
                0
            }),
{
    if pos >= n {
        F::order_irreflexive(acc);
    } else {
        let v = logit::<F, T>(inp, inv_t, pos);
        let next = pick_max(v, acc);
        let top = lane_peak::<F, T>(inp, inv_t, n, pos, acc);
        let kk = if k > 0 {
            k - 1
        } else {
            0
        };
        lemma_lane_peak::<F, T>(inp, inv_t, n, pos + 256, next, kk);
        lemma_not_above(v, acc, top);
        if k > 0 {
            assert(pos + 256 + kk * 256 == pos + k * 256);
        }
        if top != acc && top == next {
            assert(logit::<F, T>(inp, inv_t, pos) == top);
        }
    }
}

/// The reduction finds the largest logit: none is above it, and it is a logit
/// unless every logit is as low as a number gets.
pub proof fn law_peak_is_maximum<F: ExactNum, T: Store<F>>(inp: Seq<T>, inv_t: F, n: int)
    requires
        0 <= n,
    ensures
        forall|i: int|
            0 <= i < n ==> !(#[trigger] logit::<F, T>(inp, inv_t, i)).gt_s(
                peak::<F, T>(inp, inv_t, n),
            ),
        peak::<F, T>(inp, inv_t, n) == F::neg_inf_s() || exists|i: int|
            0 <= i < n && #[trigger] logit::<F, T>(inp, inv_t, i) == peak::<F, T>(inp, inv_t, n),
{
    let v = lane_peaks::<F, T>(inp, inv_t, n);
    let top = peak::<F, T>(inp, inv_t, n);
    lemma_tree_max(v, 128);
    assert forall|i: int| 0 <= i < n implies !(#[trigger] logit::<F, T>(inp, inv_t, i)).gt_s(
        top,
    ) by {
        let l = i % 256;
        lemma_lane_peak::<F, T>(inp, inv_t, n, l, F::neg_inf_s(), i / 256);
        assert(l + (i / 256) * 256 == i);
        let lv = v[l];
        assert(!lv.gt_s(top));
        let x = logit::<F, T>(inp, inv_t, i);
        if x.gt_s(top) {
            F::order_total(lv, x);
            if lv != x {
                F::order_transitive(lv, x, top);
            }
        }
    }
    let k = choose|l: int| 0 <= l < 256 && #[trigger] v[l] == top;
    lemma_lane_peak::<F, T>(inp, inv_t, n, k, F::neg_inf_s(), 0);
}

proof fn lemma_scan<F: ExactNum>(v: Seq<F>, part: spec_fn(int) -> F, stride: int)
    requires
        v.len() == 256,
        stride == 1 || stride == 2 || stride == 4 || stride == 8 || stride == 16 || stride == 32
            || stride == 64 || stride == 128 || stride == 256,
        forall|l: int|
            0 <= l < 256 ==> #[trigger] v[l] == range_sum(
                part,
                if l + 1 - stride > 0 {
                    l + 1 - stride
                } else {
                    0
                },
                l + 1,
            ),
    ensures
        scan(v, stride).len() == 256,
        forall|l: int|
            0 <= l < 256 ==> #[trigger] scan(v, stride)[l] == range_sum(part, 0, l + 1),
    decreases 256 - stride,
{
    if stride < 256 {
        let w = scan_stage(v, stride);
        let wide = stride * 2;
        assert forall|l: int| 0 <= l < 256 implies #[trigger] w[l] == range_sum(
            part,
            if l + 1 - wide > 0 {
                l + 1 - wide
            } else {
                0
            },
            l + 1,
        ) by {
            let first = if l + 1 - wide > 0 {
                l + 1 - wide
            } else {
                0
            };
            if l >= stride {
                let m = l + 1 - stride;
                assert(v[l] == range_sum(part, m, l + 1));
                assert(v[l - stride] == range_sum(part, first, m));
                lemma_range_split(part, first, m, l + 1);
                F::add_comm(v[l], v[l - stride]);
            } else {
                F::add_zero(v[l]);
            }
        }
        lemma_scan(w, part, wide);
    }
}

/// The log-step scan computes inclusive prefix sums.
pub proof fn law_scan_is_prefix_sum<F: ExactNum>(v: Seq<F>, l: int)
    requires
        v.len() == 256,
        0 <= l < 256,
    ensures
        scan(v, 1)[l] == range_sum(|j: int| v[j], 0, l + 1),
{
    let part = |j: int| v[j];
    assert forall|j: int| 0 <= j < 256 implies #[trigger] v[j] == range_sum(
        part,
        if j + 1 - 1 > 0 {
            j + 1 - 1
        } else {
            0
        },
        j + 1,
    ) by {
        reveal_with_fuel(range_sum, 2);
        crate::sums::lemma_zero_add(part(j));
    }
    lemma_scan(v, part, 1);
}

proof fn lemma_chunk_sum<F: ExactNum, T: Store<F>>(
    inp: Seq<T>,
    inv_t: F,
    max: F,
    i: int,
    hi: int,
    acc: F,
    w: spec_fn(int) -> F,
)
    requires
        forall|j: int| #[trigger] w(j) == weight::<F, T>(inp, inv_t, max, j),
    ensures
        chunk_sum::<F, T>(inp, inv_t, max, i, hi, acc) == acc.add_s(range_sum(w, i, hi)),
    decreases hi - i,
{
    if i >= hi {
        F::add_zero(acc);
    } else {
        lemma_chunk_sum::<F, T>(inp, inv_t, max, i + 1, hi, acc.add_s(w(i)), w);
        lemma_range_split(w, i, i + 1, hi);
        reveal_with_fuel(range_sum, 2);
        crate::sums::lemma_zero_add(w(i));
        F::add_assoc(acc, w(i), range_sum(w, i + 1, hi));
    }
}

/// Where the chunks of the lanes end.
pub open spec fn lane_end(n: int, l: int) -> int {
    if (l + 1) * chunk(n) > n {
        n
    } else {
        (l + 1) * chunk(n)
    }
}

proof fn lemma_ends<F: ExactNum>(n: int, sums: spec_fn(int) -> F, w: spec_fn(int) -> F, l: int)
    requires
        0 <= n,
        0 <= l,
        forall|j: int|
            0 <= j <= l ==> #[trigger] sums(j) == range_sum(w, chunk_lo(n, j), chunk_hi(n, j)),
    ensures
        range_sum(sums, 0, l + 1) == range_sum(w, 0, lane_end(n, l)),
    decreases l,
{
    reveal_with_fuel(range_sum, 2);
    let c = chunk(n);
    assert((l + 1) * c == l * c + c) by (nonlinear_arith);
    lemma_mul_le(0, l, 0, c);
    assert(sums(l) == range_sum(w, chunk_lo(n, l), chunk_hi(n, l)));
    if l == 0 {
        crate::sums::lemma_zero_add(sums(0));
        assert(0 * c == 0);
    } else {
        lemma_ends(n, sums, w, l - 1);
        if l * c > n {
            F::add_zero(range_sum(w, 0, n));
        } else {
            lemma_range_split(w, 0, l * c, lane_end(n, l));
        }
    }
}

/// The cumulative weight that a lane holds is the sum of all weights up to the
/// end of its chunk.
pub proof fn law_cumulative_is_prefix_sum<F: ExactNum, T: Store<F>>(
    inp: Seq<T>,
    inv_t: F,
    max: F,
    n: int,
    l: int,
)
    requires
        0 <= n,
        0 <= l < 256,
    ensures
        cumulative::<F, T>(inp, inv_t, max, n)[l] == range_sum(
            |i: int| weight::<F, T>(inp, inv_t, max, i),
            0,
            lane_end(n, l),
        ),
{
    let w = |i: int| weight::<F, T>(inp, inv_t, max, i);
    let v = chunk_sums::<F, T>(inp, inv_t, max, n);
    let sums = |j: int| v[j];
    assert forall|j: int| 0 <= j <= l implies #[trigger] sums(j) == range_sum(
        w,
        chunk_lo(n, j),
        chunk_hi(n, j),
    ) by {
        lemma_chunk_sum::<F, T>(
            inp,
            inv_t,
            max,
            chunk_lo(n, j),
            chunk_hi(n, j),
            F::zero_s(),
            w,
        );
        crate::sums::lemma_zero_add(range_sum(w, chunk_lo(n, j), chunk_hi(n, j)));
    }
    law_scan_is_prefix_sum(v, l);
    lemma_ends(n, sums, w, l);
}

/// Cumulative weight up to and with position `i`.
pub open spec fn cdf_at<F: Num, T: Store<F>>(inp: Seq<T>, inv_t: F, max: F, i: int) -> F {
    range_sum(|j: int| weight::<F, T>(inp, inv_t, max, j), 0, i + 1)
}

proof fn lemma_walk<F: ExactNum, T: Store<F>>(
    inp: Seq<T>,
    inv_t: F,
    max: F,
    target: F,
    i: int,
    hi: int,
)
    requires
        0 <= i < hi,
        cdf_at::<F, T>(inp, inv_t, max, hi - 1).ge_s(target),
    ensures
        ({
            let cum = range_sum(|j: int| weight::<F, T>(inp, inv_t, max, j), 0, i);
            let r = walk_chunk::<F, T>(inp, inv_t, max, target, i, hi, cum);
            &&& i <= r < hi
            &&& cdf_at::<F, T>(inp, inv_t, max, r).ge_s(target)
            &&& forall|j: int|
                i <= j < r ==> !(#[trigger] cdf_at::<F, T>(inp, inv_t, max, j)).ge_s(target)
        }),
    decreases hi - i,
{
    let w = |j: int| weight::<F, T>(inp, inv_t, max, j);
    let cum = range_sum(w, 0, i);
    let next = cum.add_s(weight::<F, T>(inp, inv_t, max, i));
    assert(next == range_sum(w, 0, i + 1));
    assert(next == cdf_at::<F, T>(inp, inv_t, max, i));
    if !next.ge_s(target) {
        assert(i + 1 < hi);
        lemma_walk::<F, T>(inp, inv_t, max, target, i + 1, hi);
    }
}

proof fn lemma_hit_lane<F: Num>(cdf: Seq<F>, target: F, n: int, l: int, hit: int)
    requires
        0 <= l <= hit < 256,
        is_hit(cdf, target, n, hit),
        forall|j: int| l <= j < hit ==> !#[trigger] is_hit(cdf, target, n, j),
    ensures
        hit_lane(cdf, target, n, l) == Some(hit),
    decreases hit - l,
{
    if l < hit {
        assert(!is_hit(cdf, target, n, l));
        lemma_hit_lane(cdf, target, n, l + 1, hit);
    }
}

/// The least lane whose end reaches the target.
proof fn lemma_least_lane<F: Num>(cdf: Seq<F>, target: F, l: int) -> (r: int)
    requires
        0 <= l < 256,
        cdf[l].ge_s(target),
    ensures
        0 <= r <= l,
        cdf[r].ge_s(target),
        forall|j: int| 0 <= j < r ==> !(#[trigger] cdf[j]).ge_s(target),
    decreases l,
{
    if exists|j: int| 0 <= j < l && (#[trigger] cdf[j]).ge_s(target) {
        let j = choose|j: int| 0 <= j < l && (#[trigger] cdf[j]).ge_s(target);
        lemma_least_lane(cdf, target, j)
    } else {
        l
    }
}

/// The sample is the smallest position whose cumulative softmax weight is at
/// least the draw's share of the total, wherever cumulative weights do not
/// decrease and the draw asks for no more than the total.
pub proof fn law_sample_is_smallest<F: ExactNum, T: Store<F>>(
    inp: Seq<T>,
    n: int,
    temperature: F,
    uniform: F,
)
    requires
        0 < n,
        ({
            let inv_t = F::one_s().div_s(temperature);
            let max = peak::<F, T>(inp, inv_t, n);
            &&& forall|i: int, j: int|
                0 <= i <= j < n ==> !(#[trigger] cdf_at::<F, T>(inp, inv_t, max, i)).gt_s(
                    #[trigger] cdf_at::<F, T>(inp, inv_t, max, j),
                )
            &&& cdf_at::<F, T>(inp, inv_t, max, n - 1).ge_s(
                uniform.mul_s(cdf_at::<F, T>(inp, inv_t, max, n - 1)),
            )
        }),
    ensures
        ({
            let inv_t = F::one_s().div_s(temperature);
            let max = peak::<F, T>(inp, inv_t, n);
            let target = uniform.mul_s(cdf_at::<F, T>(inp, inv_t, max, n - 1));
            &&& sampled::<F, T>(inp, n, temperature, uniform) matches Some(r)
            &&& 0 <= r < n
            &&& cdf_at::<F, T>(inp, inv_t, max, r).ge_s(target)
            &&& forall|j: int|
                0 <= j < r ==> !(#[trigger] cdf_at::<F, T>(inp, inv_t, max, j)).ge_s(target)
        }),
{
    let inv_t = F::one_s().div_s(temperature);
    let max = peak::<F, T>(inp, inv_t, n);
    let cdf = cumulative::<F, T>(inp, inv_t, max, n);
    let w = |j: int| weight::<F, T>(inp, inv_t, max, j);
    let c = chunk(n);
    let total = cdf_at::<F, T>(inp, inv_t, max, n - 1);
    let target = uniform.mul_s(total);
    assert forall|l: int| 0 <= l < 256 implies #[trigger] cdf[l] == range_sum(
        w,
        0,
        lane_end(n, l),
    ) by {
        law_cumulative_is_prefix_sum::<F, T>(inp, inv_t, max, n, l);
    }
    assert(256 * c >= n);
    assert(cdf[255] == total);
    let hit = lemma_least_lane(cdf, target, 255);
    lemma_mul_le(0, hit, 0, c);
    assert((hit + 1) * c == hit * c + c) by (nonlinear_arith);
    if hit > 0 {
        assert(!cdf[hit - 1].ge_s(target));
        F::ge_is_gt_or_same(cdf[hit - 1], target);
        F::order_total(cdf[hit - 1], target);
        assert(target.gt_s(before(cdf, hit)));
        if hit * c >= n {
            assert(lane_end(n, hit - 1) == n);
            assert(cdf[hit - 1] == total);
            assert(false);
        }
    } else {
        assert(0 * c == 0);
    }
    assert(is_hit(cdf, target, n, hit));
    assert forall|j: int| 0 <= j < hit implies !#[trigger] is_hit(cdf, target, n, j) by {
        assert(!cdf[j].ge_s(target));
    }
    lemma_hit_lane(cdf, target, n, 0, hit);
    let (lo, hi) = (chunk_lo(n, hit), chunk_hi(n, hit));
    assert(hi == lane_end(n, hit));
    assert(lo < hi);
    assert(cdf[hit] == cdf_at::<F, T>(inp, inv_t, max, hi - 1));
    assert(before(cdf, hit) == range_sum(w, 0, lo)) by {
        if hit > 0 {
            assert(lane_end(n, hit - 1) == lo);
        }
    }
    lemma_walk::<F, T>(inp, inv_t, max, target, lo, hi);
    let r = walk_chunk::<F, T>(inp, inv_t, max, target, lo, hi, before(cdf, hit));
    assert forall|j: int| 0 <= j < r implies !(#[trigger] cdf_at::<F, T>(inp, inv_t, max, j)).ge_s(
        target,
    ) by {
        if j < lo {
            let last = cdf_at::<F, T>(inp, inv_t, max, lo - 1);
            let here = cdf_at::<F, T>(inp, inv_t, max, j);
            assert(last == before(cdf, hit));
            assert(!here.gt_s(last));
            F::order_total(here, last);
            F::ge_is_gt_or_same(here, target);
            if here.ge_s(target) {
                if here == target {
                    assert(target.gt_s(last));
                } else {
                    F::order_transitive(here, target, last);
                }
            }
        }
    }
}

/// The sample of a draw, in the arithmetic of the logits themselves: with every
/// logit multiplied by one over the temperature, and `m` the largest product,
/// it is the least position at which the exponentials of the products less `m`,
/// added up from the first, reach the draw's share of all of them.
pub proof fn law_sample_of_logits<F: ExactNum, T: Store<F>>(
    inp: Seq<T>,
    n: int,
    temperature: F,
    uniform: F,
    m: F,
    prefix: spec_fn(int) -> F,
)
    requires
        0 < n,
        forall|i: int|
            0 <= i < n ==> !(#[trigger] inp[i]).widen_s().mul_s(F::one_s().div_s(temperature)).gt_s(
                m,
            ),
        exists|i: int|
            0 <= i < n && (#[trigger] inp[i]).widen_s().mul_s(F::one_s().div_s(temperature)) == m,
        forall|i: int|
            #[trigger] prefix(i) == range_sum(
                |j: int|
                    inp[j].widen_s().mul_s(F::one_s().div_s(temperature)).sub_s(m).exp_s(),
                0,
                i + 1,
            ),
        forall|i: int, j: int|
            0 <= i <= j < n ==> !(#[trigger] prefix(i)).gt_s(#[trigger] prefix(j)),
        prefix(n - 1).ge_s(uniform.mul_s(prefix(n - 1))),
    ensures
        ({
            &&& sampled::<F, T>(inp, n, temperature, uniform) matches Some(r)
            &&& 0 <= r < n
            &&& prefix(r).ge_s(uniform.mul_s(prefix(n - 1)))
            &&& forall|j: int|
                0 <= j < r ==> !(#[trigger] prefix(j)).ge_s(uniform.mul_s(prefix(n - 1)))
        }),
{
    let inv_t = F::one_s().div_s(temperature);
    let max = peak::<F, T>(inp, inv_t, n);
    lemma_peak_is::<F, T>(inp, n, temperature, m);
    assert(m == max);
    assert forall|i: int| #[trigger] prefix(i) == cdf_at::<F, T>(inp, inv_t, max, i) by {
        lemma_range_congr(
            |j: int| inp[j].widen_s().mul_s(F::one_s().div_s(temperature)).sub_s(m).exp_s(),
            |j: int| weight::<F, T>(inp, inv_t, max, j),
            0,
            i + 1,
        );
    }
    assert forall|i: int, j: int| 0 <= i <= j < n implies !(#[trigger] cdf_at::<F, T>(
        inp,
        inv_t,
        max,
        i,
    )).gt_s(#[trigger] cdf_at::<F, T>(inp, inv_t, max, j)) by {
        assert(!prefix(i).gt_s(prefix(j)));
    }
    assert(prefix(n - 1) == cdf_at::<F, T>(inp, inv_t, max, n - 1));
    law_sample_is_smallest::<F, T>(inp, n, temperature, uniform);
    let r = sampled::<F, T>(inp, n, temperature, uniform)->0;
    assert(prefix(r) == cdf_at::<F, T>(inp, inv_t, max, r));
    assert forall|j: int| 0 <= j < r implies !(#[trigger] prefix(j)).ge_s(
        uniform.mul_s(prefix(n - 1)),
    ) by {
        assert(!cdf_at::<F, T>(inp, inv_t, max, j).ge_s(uniform.mul_s(prefix(n - 1))));
    }
}

/// A draw that no position reaches, because it asks for more than the total, or
/// because there are no positions, samples nothing.
pub proof fn law_unreached_draw_samples_nothing<F: ExactNum, T: Store<F>>(
    inp: Seq<T>,
    n: int,
    temperature: F,
    uniform: F,
    m: F,
    prefix: spec_fn(int) -> F,
)
    requires
        0 <= n,
        forall|i: int|
            0 <= i < n ==> !(#[trigger] inp[i]).widen_s().mul_s(F::one_s().div_s(temperature)).gt_s(
                m,
            ),
        n == 0 || exists|i: int|
            0 <= i < n && (#[trigger] inp[i]).widen_s().mul_s(F::one_s().div_s(temperature)) == m,
        forall|i: int|
            #[trigger] prefix(i) == range_sum(
                |j: int|
                    inp[j].widen_s().mul_s(F::one_s().div_s(temperature)).sub_s(m).exp_s(),
                0,
                i + 1,
            ),
        forall|i: int|
            0 <= i < n ==> !(#[trigger] prefix(i)).ge_s(uniform.mul_s(prefix(n - 1))),
    ensures
        sampled::<F, T>(inp, n, temperature, uniform) is None,
{
    let inv_t = F::one_s().div_s(temperature);
    let max = peak::<F, T>(inp, inv_t, n);
    let cdf = cumulative::<F, T>(inp, inv_t, max, n);
    let w = |j: int| weight::<F, T>(inp, inv_t, max, j);
    let target = uniform.mul_s(cdf[255]);
    let c = chunk(n);
    assert forall|l: int| 0 <= l < 256 implies #[trigger] cdf[l] == range_sum(
        w,
        0,
        lane_end(n, l),
    ) by {
        law_cumulative_is_prefix_sum::<F, T>(inp, inv_t, max, n, l);
    }
    assert(256 * c >= n);
    if n > 0 {
        lemma_peak_is::<F, T>(inp, n, temperature, m);
        assert forall|i: int| #[trigger] prefix(i) == range_sum(w, 0, i + 1) by {
            lemma_range_congr(
                |j: int| inp[j].widen_s().mul_s(F::one_s().div_s(temperature)).sub_s(m).exp_s(),
                w,
                0,
                i + 1,
            );
        }
        assert(cdf[255] == prefix(n - 1));
    }
    assert forall|l: int| 0 <= l < 256 implies !#[trigger] is_hit(cdf, target, n, l) by {
        assert((l + 1) * c == l * c + c) by (nonlinear_arith);
        lemma_mul_le(0, l, 0, c);
        if n > 0 {
            let end = lane_end(n, l);
            assert(1 <= end <= n);
            assert(cdf[l] == prefix(end - 1));
        }
    }
    lemma_no_hit(cdf, target, n, 0);
}

proof fn lemma_no_hit<F: Num>(cdf: Seq<F>, target: F, n: int, l: int)
    requires
        0 <= l,
        forall|j: int| 0 <= j < 256 ==> !#[trigger] is_hit(cdf, target, n, j),
    ensures
        hit_lane(cdf, target, n, l) is None,
    decreases 256 - l,
{
    if l < 256 {
        assert(!is_hit(cdf, target, n, l));
        lemma_no_hit(cdf, target, n, l + 1);
    }
}

/// The largest logit over the temperature is what the reduction finds.
proof fn lemma_peak_is<F: ExactNum, T: Store<F>>(inp: Seq<T>, n: int, temperature: F, m: F)
    requires
        0 < n,
        forall|i: int|
            0 <= i < n ==> !(#[trigger] inp[i]).widen_s().mul_s(F::one_s().div_s(temperature)).gt_s(
                m,
            ),
        exists|i: int|
            0 <= i < n && (#[trigger] inp[i]).widen_s().mul_s(F::one_s().div_s(temperature)) == m,
    ensures
        peak::<F, T>(inp, F::one_s().div_s(temperature), n) == m,
{
    let inv_t = F::one_s().div_s(temperature);
    let max = peak::<F, T>(inp, inv_t, n);
    law_peak_is_maximum::<F, T>(inp, inv_t, n);
    let i0 = choose|i: int|
        0 <= i < n && (#[trigger] inp[i]).widen_s().mul_s(F::one_s().div_s(temperature)) == m;
    assert(!logit::<F, T>(inp, inv_t, i0).gt_s(max));
    assert(logit::<F, T>(inp, inv_t, i0) == m);
    F::order_total(m, max);
    if max == F::neg_inf_s() {
        F::neg_inf_lowest(m);
    } else {
        let i1 = choose|i: int| 0 <= i < n && #[trigger] logit::<F, T>(inp, inv_t, i) == max;
        assert(!inp[i1].widen_s().mul_s(inv_t).gt_s(m));
    }
}

} // verus!
