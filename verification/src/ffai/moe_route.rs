//! Mixture-of-experts routing: top-k expert choice, and the row permutation
//! that groups tokens by expert and folds them back.
use vstd::prelude::*;

use super::attention::{pick_max, LANES};
use crate::index::{lemma_mul_le, lemma_row, lemma_row_col};
use crate::num::{ExactNum, Num, Store};
use crate::sums::{
    lemma_range_congr, lemma_range_split, lemma_range_zero, lemma_zero_add, lemma_zero_mul,
    range_sum,
};

verus! {

/// Copies the rows that `sort_token_idx` names: row `p` of `permuted` becomes
/// row `sort_token_idx[p]` of `tokens`.
pub fn mt_moe_permute<T: Copy>(
    tokens: &[T],
    sort_token_idx: &[u32],
    permuted: &mut Vec<T>,
    hidden: u32,
    n_rows: u32,
)
    requires
        n_rows <= sort_token_idx@.len(),
        forall|p: int|
            0 <= p < n_rows ==> (#[trigger] sort_token_idx@[p] + 1) * hidden <= tokens@.len(),
        n_rows * hidden <= old(permuted)@.len(),
    ensures
        final(permuted)@.len() == old(permuted)@.len(),
        forall|i: int|
            0 <= i < old(permuted)@.len() ==> #[trigger] final(permuted)@[i] == (if i < n_rows
                * hidden {
                tokens@[sort_token_idx@[i / hidden as int] * hidden + i % hidden as int]
            } else {
                old(permuted)@[i]
            }),
{
    let ghost before = permuted@;
    let t_len: usize = tokens.len();
    let p_len: usize = permuted.len();
    let mut p: u32 = 0;
    while p < n_rows
        invariant
            p <= n_rows,
            n_rows <= sort_token_idx@.len(),
            forall|p: int|
                0 <= p < n_rows ==> (#[trigger] sort_token_idx@[p] + 1) * hidden <= tokens@.len(),
            tokens@.len() == t_len,
            n_rows * hidden <= before.len() == p_len,
            permuted@.len() == before.len(),
            forall|i: int|
                0 <= i < before.len() ==> #[trigger] permuted@[i] == (if i < p * hidden {
                    tokens@[sort_token_idx@[i / hidden as int] * hidden + i % hidden as int]
                } else {
                    before[i]
                }),
        decreases n_rows - p,
    {
        let token: u32 = sort_token_idx[p as usize];
        proof {
            lemma_row(p as int, n_rows as int, hidden as int);
            lemma_row(token as int, token + 1, hidden as int);
        }
        let mut h: u32 = 0;
        while h < hidden
            invariant
                h <= hidden,
                p < n_rows,
                n_rows <= sort_token_idx@.len(),
                token == sort_token_idx@[p as int],
                token * hidden + hidden <= tokens@.len() == t_len,
                p * hidden + hidden <= before.len() == p_len,
                permuted@.len() == before.len(),
                forall|i: int|
                    0 <= i < before.len() ==> #[trigger] permuted@[i] == (if i < p * hidden + h {
                        tokens@[sort_token_idx@[i / hidden as int] * hidden + i % hidden as int]
                    } else {
                        before[i]
                    }),
            decreases hidden - h,
        {
            proof {
                lemma_row_col(p as int, h as int, hidden as int);
                lemma_mul_le(0, token as int, 0, hidden as int);
            }
            let v = tokens[token as usize * hidden as usize + h as usize];
            permuted.set(p as usize * hidden as usize + h as usize, v);
            h += 1;
        }
        p += 1;
    }
}

/// The first `n` expert outputs of a token, weighted and added from zero.
pub open spec fn weighted_rows<F: Num, T: Store<F>>(
    expert_outputs: Seq<T>,
    inv_perm: Seq<u32>,
    weights: Seq<T>,
    hidden: int,
    first: int,
    h: int,
    n: nat,
) -> F
    decreases n,
{
    if n == 0 {
        F::zero_s()
    } else {
        let at = first + (n - 1);
        weighted_rows::<F, T>(expert_outputs, inv_perm, weights, hidden, first, h, (n - 1) as nat)
            .add_s(weights[at].widen_s().mul_s(expert_outputs[inv_perm[at] * hidden + h].widen_s()))
    }
}

/// Folds the `k` expert outputs of each token back into one row, weighted by
/// the routing weights.
pub fn mt_moe_unpermute<F: Num, T: Store<F>>(
    expert_outputs: &[T],
    inv_perm: &[u32],
    top_k_weights: &[T],
    out: &mut Vec<T>,
    hidden: u32,
    k: u32,
    n_tokens: u32,
)
    requires
        n_tokens * k <= inv_perm@.len(),
        n_tokens * k <= top_k_weights@.len(),
        forall|p: int|
            0 <= p < n_tokens * k ==> (#[trigger] inv_perm@[p] + 1) * hidden
                <= expert_outputs@.len(),
        n_tokens * hidden <= old(out)@.len(),
    ensures
        final(out)@.len() == old(out)@.len(),
        forall|i: int|
            0 <= i < old(out)@.len() ==> #[trigger] final(out)@[i] == (if i < n_tokens * hidden {
                T::narrow_s(
                    weighted_rows::<F, T>(
                        expert_outputs@,
                        inv_perm@,
                        top_k_weights@,
                        hidden as int,
                        (i / hidden as int) * k,
                        i % hidden as int,
                        k as nat,
                    ),
                )
            } else {
                old(out)@[i]
            }),
{
    let ghost before = out@;
    let e_len: usize = expert_outputs.len();
    let w_len: usize = top_k_weights.len();
    let out_len: usize = out.len();
    let mut token: u32 = 0;
    while token < n_tokens
        invariant
            token <= n_tokens,
            n_tokens * k <= inv_perm@.len(),
            n_tokens * k <= top_k_weights@.len() == w_len,
            forall|p: int|
                0 <= p < n_tokens * k ==> (#[trigger] inv_perm@[p] + 1) * hidden
                    <= expert_outputs@.len(),
            expert_outputs@.len() == e_len,
            n_tokens * hidden <= before.len() == out_len,
            out@.len() == before.len(),
            forall|i: int|
                0 <= i < before.len() ==> #[trigger] out@[i] == (if i < token * hidden {
                    T::narrow_s(
                        weighted_rows::<F, T>(
                            expert_outputs@,
                            inv_perm@,
                            top_k_weights@,
                            hidden as int,
                            (i / hidden as int) * k,
                            i % hidden as int,
                            k as nat,
                        ),
                    )
                } else {
                    before[i]
                }),
        decreases n_tokens - token,
    {
        proof {
            lemma_row(token as int, n_tokens as int, hidden as int);
            lemma_row(token as int, n_tokens as int, k as int);
        }
        let first: usize = token as usize * k as usize;
        let mut h: u32 = 0;
        while h < hidden
            invariant
                h <= hidden,
                token < n_tokens,
                first == token * k,
                first + k <= n_tokens * k <= inv_perm@.len(),
                first + k <= top_k_weights@.len() == w_len,
                forall|p: int|
                    0 <= p < n_tokens * k ==> (#[trigger] inv_perm@[p] + 1) * hidden
                        <= expert_outputs@.len(),
                expert_outputs@.len() == e_len,
                token * hidden + hidden <= before.len() == out_len,
                out@.len() == before.len(),
                forall|i: int|
                    0 <= i < before.len() ==> #[trigger] out@[i] == (if i < token * hidden + h {
                        T::narrow_s(
                            weighted_rows::<F, T>(
                                expert_outputs@,
                                inv_perm@,
                                top_k_weights@,
                                hidden as int,
                                (i / hidden as int) * k,
                                i % hidden as int,
                                k as nat,
                            ),
                        )
                    } else {
                        before[i]
                    }),
            decreases hidden - h,
        {
            let mut acc = F::zero();
            let mut j: u32 = 0;
            while j < k
                invariant
                    j <= k,
                    h < hidden,
                    first + k <= n_tokens * k <= inv_perm@.len(),
                    first + k <= top_k_weights@.len() == w_len,
                    forall|p: int|
                        0 <= p < n_tokens * k ==> (#[trigger] inv_perm@[p] + 1) * hidden
                            <= expert_outputs@.len(),
                    expert_outputs@.len() == e_len,
                    acc == weighted_rows::<F, T>(
                        expert_outputs@,
                        inv_perm@,
                        top_k_weights@,
                        hidden as int,
                        first as int,
                        h as int,
                        j as nat,
                    ),
                decreases k - j,
            {
                let at: usize = first + j as usize;
                let pos: u32 = inv_perm[at];
                proof {
                    assert((inv_perm@[at as int] + 1) * hidden <= expert_outputs@.len());
                    lemma_row(pos as int, pos + 1, hidden as int);
                }
                let v = expert_outputs[pos as usize * hidden as usize + h as usize].widen();
                let w = top_k_weights[at].widen();
                acc = acc.add(w.mul(v));
                j += 1;
            }
            proof {
                lemma_row_col(token as int, h as int, hidden as int);
            }
            out.set(token as usize * hidden as usize + h as usize, T::narrow(acc));
            h += 1;
        }
        token += 1;
    }
}

proof fn lemma_same_rows<F: ExactNum, T: Store<F>>(
    expert_outputs: Seq<T>,
    inv_perm: Seq<u32>,
    weights: Seq<T>,
    hidden: int,
    first: int,
    h: int,
    n: nat,
    v: F,
    w: spec_fn(int) -> F,
)
    requires
        forall|j: int|
            0 <= j < n ==> expert_outputs[#[trigger] inv_perm[first + j] * hidden + h].widen_s()
                == v,
        forall|j: int| #[trigger] w(j) == weights[first + j].widen_s(),
    ensures
        weighted_rows::<F, T>(expert_outputs, inv_perm, weights, hidden, first, h, n) == range_sum(
            w,
            0,
            n as int,
        ).mul_s(v),
    decreases n,
{
    if n == 0 {
        lemma_zero_mul(v);
    } else {
        lemma_same_rows::<F, T>(
            expert_outputs,
            inv_perm,
            weights,
            hidden,
            first,
            h,
            (n - 1) as nat,
            v,
            w,
        );
        assert(expert_outputs[inv_perm[first + (n - 1)] * hidden + h].widen_s() == v);
        assert(w(n - 1) == weights[first + (n - 1)].widen_s());
        F::distrib(range_sum(w, 0, n - 1), w(n - 1), v);
    }
}

/// Unpermuting the permuted rows, each token in `k` places with weights that
/// add up to one, gives the tokens back.
pub proof fn law_unpermute_inverts_permute<F: ExactNum, T: Store<F>>(
    tokens: Seq<T>,
    sort_token_idx: Seq<u32>,
    permuted: Seq<T>,
    inv_perm: Seq<u32>,
    weights: Seq<T>,
    hidden: int,
    k: nat,
    token: int,
    h: int,
)
    requires
        0 <= h < hidden,
        forall|j: int|
            0 <= j < k ==> sort_token_idx[#[trigger] inv_perm[token * k + j] as int] == token,
        forall|j: int|
            0 <= j < k ==> (#[trigger] inv_perm[token * k + j] + 1) * hidden <= permuted.len(),
        range_sum(|j: int| weights[token * k + j].widen_s(), 0, k as int) == F::one_s(),
        forall|i: int|
            0 <= i < permuted.len() ==> #[trigger] permuted[i] == tokens[sort_token_idx[i / hidden]
                * hidden + i % hidden],
    ensures
        weighted_rows::<F, T>(permuted, inv_perm, weights, hidden, token * k, h, k) == tokens[token
            * hidden + h].widen_s(),
{
    let v = tokens[token * hidden + h].widen_s();
    let w = |j: int| weights[token * k + j].widen_s();
    assert forall|j: int| 0 <= j < k implies permuted[#[trigger] inv_perm[token * k + j] * hidden
        + h].widen_s() == v by {
        let p = inv_perm[token * k + j] as int;
        lemma_row(p, p + 1, hidden);
        lemma_row_col(p, h, hidden);
        assert(permuted[p * hidden + h] == tokens[sort_token_idx[p] * hidden + h]);
    }
    lemma_same_rows::<F, T>(permuted, inv_perm, weights, hidden, token * k, h, k, v, w);
    F::mul_comm(F::one_s(), v);
    F::mul_one(v);
}

// ── top-k routing ─────────────────────────────────────────────────────────
/// Logits of one row.
pub open spec fn row_logits<F: Num, T: Store<F>>(logits: Seq<T>, row: int, n: nat) -> Seq<F> {
    Seq::new(n, |j: int| logits[row * n + j].widen_s())
}

/// Largest of `best` and the logits `j`, `j + 32`, ..
pub open spec fn strided_max<F: Num>(logits: Seq<F>, j: int, best: F) -> F
    decreases
            (if j < logits.len() {
                logits.len() - j
            } else {
                0
            }),
{
    if j >= logits.len() {
        best
    } else {
        strided_max(logits, j + 32, pick_max(logits[j], best))
    }
}

/// `sum` plus the exponentials of the logits `j`, `j + 32`, .. relative to
/// `max`.
pub open spec fn strided_exp<F: Num>(logits: Seq<F>, j: int, max: F, sum: F) -> F
    decreases
            (if j < logits.len() {
                logits.len() - j
            } else {
                0
            }),
{
    if j >= logits.len() {
        sum
    } else {
        strided_exp(logits, j + 32, max, sum.add_s(logits[j].sub_s(max).exp_s()))
    }
}

/// Largest logit of a row.
pub open spec fn row_max<F: Num>(logits: Seq<F>) -> F {
    F::lane_max_s(Seq::new(32, |l: int| strided_max(logits, l, F::neg_inf_s())))
}

/// Softmax denominator of a row.
pub open spec fn row_sum<F: Num>(logits: Seq<F>) -> F {
    F::lane_sum_s(
        Seq::new(32, |l: int| strided_exp(logits, l, row_max(logits), F::zero_s())),
    )
}

/// A chosen expert and its logit.
pub struct Pick<F> {
    pub idx: u32,
    pub val: F,
}

pub open spec fn is_chosen<F>(picks: Seq<Pick<F>>, j: int) -> bool {
    exists|p: int| 0 <= p < picks.len() && (#[trigger] picks[p]).idx == j
}

/// A lane's best among experts `j`, `j + 32`, .. that are not chosen yet.
pub open spec fn lane_best<F: Num>(
    logits: Seq<F>,
    picks: Seq<Pick<F>>,
    j: int,
    best: Pick<F>,
) -> Pick<F>
    decreases
            (if j < logits.len() {
                logits.len() - j
            } else {
                0
            }),
{
    if j >= logits.len() {
        best
    } else {
        let candidate = if is_chosen(picks, j) {
            F::neg_inf_s()
        } else {
            logits[j]
        };
        let next = if candidate.gt_s(best.val) {
            Pick { idx: j as u32, val: candidate }
        } else {
            best
        };
        lane_best(logits, picks, j + 32, next)
    }
}

pub open spec fn lane_bests<F: Num>(logits: Seq<F>, picks: Seq<Pick<F>>) -> Seq<Pick<F>> {
    Seq::new(
        32,
        |l: int| lane_best(logits, picks, l, Pick { idx: 0, val: F::neg_inf_s() }),
    )
}

/// The least index of the first `n` lanes whose value is `val`.
pub open spec fn least_index<F: Num>(bests: Seq<Pick<F>>, val: F, n: nat) -> u32
    decreases n,
{
    if n == 0 {
        0xffff_ffff
    } else {
        let before = least_index(bests, val, (n - 1) as nat);
        let mine = if bests[n - 1].val.eq_s(val) {
            bests[n - 1].idx
        } else {
            0xffff_ffff
        };
        if mine < before {
            mine
        } else {
            before
        }
    }
}

/// The next expert after those chosen: the largest logit, and among equal ones
/// the least index.
pub open spec fn next_pick<F: Num>(logits: Seq<F>, picks: Seq<Pick<F>>) -> Pick<F> {
    let bests = lane_bests(logits, picks);
    let val = F::lane_max_s(Seq::new(32, |l: int| bests[l].val));
    Pick { idx: least_index(bests, val, 32), val }
}

/// The first `k` picks.
pub open spec fn top_picks<F: Num>(logits: Seq<F>, k: nat) -> Seq<Pick<F>>
    decreases k,
{
    if k == 0 {
        Seq::empty()
    } else {
        let before = top_picks(logits, (k - 1) as nat);
        before.push(next_pick(logits, before))
    }
}

/// Exponentials of the picks on lanes, zero past them.
pub open spec fn pick_exps<F: Num>(logits: Seq<F>, k: nat) -> Seq<F> {
    let picks = top_picks(logits, k);
    Seq::new(
        32,
        |l: int| if l < k {
            picks[l].val.sub_s(row_max(logits)).exp_s()
        } else {
            F::zero_s()
        },
    )
}

/// Routing weight of pick `l`: its share of the chosen experts, or of all.
pub open spec fn pick_weight<F: Num>(logits: Seq<F>, k: nat, normalise: bool, l: int) -> F {
    let divisor = if normalise {
        F::lane_sum_s(pick_exps(logits, k))
    } else {
        row_sum(logits)
    };
    pick_exps(logits, k)[l].div_s(divisor)
}

/// Loads the logits of a row.
fn load_logits<F: Num, T: Store<F>>(logits: &[T], row: usize, n: u32, n_rows: u32) -> (r: Vec<F>)
    requires
        row < n_rows,
        n_rows * n <= logits@.len(),
    ensures
        r@ == row_logits::<F, T>(logits@, row as int, n as nat),
{
    let len: usize = logits.len();
    let ghost full = row_logits::<F, T>(logits@, row as int, n as nat);
    proof {
        lemma_row(row as int, n_rows as int, n as int);
    }
    let base: usize = row * n as usize;
    let mut out: Vec<F> = Vec::new();
    let mut j: u32 = 0;
    while j < n
        invariant
            j <= n,
            base == row * n,
            base + n <= logits@.len() == len,
            full == row_logits::<F, T>(logits@, row as int, n as nat),
            out@ == full.take(j as int),
        decreases n - j,
    {
        out.push(logits[base + j as usize].widen());
        assert(out@ =~= full.take(j + 1));
        j += 1;
    }
    assert(out@ =~= full);
    out
}

fn compute_row_max<F: Num>(logits: &Vec<F>) -> (r: F)
    requires
        logits@.len() <= 0xffff_ffff,
    ensures
        r == row_max(logits@),
{
    let n: u64 = logits.len() as u64;
    let ghost full = Seq::new(32, |l: int| strided_max(logits@, l, F::neg_inf_s()));
    let mut lanes: Vec<F> = Vec::new();
    let mut l: u64 = 0;
    while l < 32
        invariant
            l <= 32,
            n == logits@.len() <= 0xffff_ffff,
            full == Seq::new(32, |l: int| strided_max(logits@, l, F::neg_inf_s())),
            lanes@ == full.take(l as int),
        decreases 32 - l,
    {
        let mut best = F::neg_inf();
        let mut j: u64 = l;
        while j < n
            invariant
                j <= n + 32,
                n == logits@.len() <= 0xffff_ffff,
                strided_max(logits@, j as int, best) == strided_max(
                    logits@,
                    l as int,
                    F::neg_inf_s(),
                ),
            decreases n + 32 - j,
        {
            let v = logits[j as usize];
            if v.gt(best) {
                best = v;
            }
            j += 32;
        }
        lanes.push(best);
        assert(lanes@ =~= full.take(l + 1));
        l += 1;
    }
    assert(lanes@ =~= full);
    F::lane_max(&lanes)
}

fn compute_row_sum<F: Num>(logits: &Vec<F>, max: F) -> (r: F)
    requires
        logits@.len() <= 0xffff_ffff,
        max == row_max(logits@),
    ensures
        r == row_sum(logits@),
{
    let n: u64 = logits.len() as u64;
    let ghost full = Seq::new(32, |l: int| strided_exp(logits@, l, max, F::zero_s()));
    let mut lanes: Vec<F> = Vec::new();
    let mut l: u64 = 0;
    while l < 32
        invariant
            l <= 32,
            n == logits@.len() <= 0xffff_ffff,
            full == Seq::new(32, |l: int| strided_exp(logits@, l, max, F::zero_s())),
            lanes@ == full.take(l as int),
        decreases 32 - l,
    {
        let mut sum = F::zero();
        let mut j: u64 = l;
        while j < n
            invariant
                j <= n + 32,
                n == logits@.len() <= 0xffff_ffff,
                strided_exp(logits@, j as int, max, sum) == strided_exp(
                    logits@,
                    l as int,
                    max,
                    F::zero_s(),
                ),
            decreases n + 32 - j,
        {
            sum = sum.add(logits[j as usize].sub(max).exp());
            j += 32;
        }
        lanes.push(sum);
        assert(lanes@ =~= full.take(l + 1));
        l += 1;
    }
    assert(lanes@ =~= full);
    assert(full =~= Seq::new(
        32,
        |l: int| strided_exp(logits@, l, row_max(logits@), F::zero_s()),
    ));
    F::lane_sum(&lanes)
}

/// Whether expert `j` was chosen.
fn already_chosen<F: Num>(picks: &Vec<Pick<F>>, j: u32) -> (r: bool)
    ensures
        r == is_chosen(picks@, j as int),
{
    let mut p: usize = 0;
    while p < picks.len()
        invariant
            p <= picks@.len(),
            forall|c: int| 0 <= c < p ==> (#[trigger] picks@[c]).idx != j,
        decreases picks@.len() - p,
    {
        if picks[p].idx == j {
            return true;
        }
        p += 1;
    }
    false
}

/// Finds the next expert.
fn find_pick<F: Num>(logits: &Vec<F>, picks: &Vec<Pick<F>>) -> (r: Pick<F>)
    requires
        logits@.len() <= 0xffff_ffff,
    ensures
        r == next_pick(logits@, picks@),
{
    let n: u64 = logits.len() as u64;
    let ghost full = lane_bests(logits@, picks@);
    let mut vals: Vec<F> = Vec::new();
    let mut idxs: Vec<u32> = Vec::new();
    let mut l: u64 = 0;
    while l < 32
        invariant
            l <= 32,
            n == logits@.len() <= 0xffff_ffff,
            full == lane_bests(logits@, picks@),
            vals@.len() == l,
            idxs@.len() == l,
            forall|c: int|
                0 <= c < l ==> #[trigger] vals@[c] == full[c].val && idxs@[c] == full[c].idx,
        decreases 32 - l,
    {
        let mut best_val = F::neg_inf();
        let mut best_idx: u32 = 0;
        let mut j: u64 = l;
        while j < n
            invariant
                l < 32,
                j <= n + 32,
                n == logits@.len() <= 0xffff_ffff,
                full == lane_bests(logits@, picks@),
                lane_best(
                    logits@,
                    picks@,
                    j as int,
                    (Pick { idx: best_idx, val: best_val }),
                ) == full[l as int],
            decreases n + 32 - j,
        {
            let candidate = if already_chosen(picks, j as u32) {
                F::neg_inf()
            } else {
                logits[j as usize]
            };
            if candidate.gt(best_val) {
                best_val = candidate;
                best_idx = j as u32;
            }
            j += 32;
        }
        vals.push(best_val);
        idxs.push(best_idx);
        l += 1;
    }
    assert(vals@ =~= Seq::new(32, |l: int| full[l].val));
    let val = F::lane_max(&vals);
    let mut idx: u32 = 0xffff_ffff;
    let mut m: usize = 0;
    while m < LANES
        invariant
            m <= 32,
            vals@.len() == 32,
            idxs@.len() == 32,
            forall|c: int|
                0 <= c < 32 ==> #[trigger] vals@[c] == full[c].val && idxs@[c] == full[c].idx,
            idx == least_index(full, val, m as nat),
        decreases 32 - m,
    {
        let mine: u32 = if vals[m].eq(val) {
            idxs[m]
        } else {
            0xffff_ffff
        };
        if mine < idx {
            idx = mine;
        }
        m += 1;
    }
    Pick { idx, val }
}

/// Chooses `k` experts for every row of router logits, by largest logit, and
/// weighs them by softmax: over the chosen ones if `norm_topk_prob` is one,
/// else over all experts.
pub fn mt_moe_router_topk<F: Num, T: Store<F>>(
    router_logits: &[T],
    indices_out: &mut Vec<u32>,
    weights_out: &mut Vec<T>,
    n_experts: u32,
    k: u32,
    norm_topk_prob: u32,
    n_rows: u32,
)
    requires
        k <= 32,
        n_rows * n_experts <= router_logits@.len(),
        n_rows * k <= old(indices_out)@.len(),
        n_rows * k <= old(weights_out)@.len(),
    ensures
        final(indices_out)@.len() == old(indices_out)@.len(),
        final(weights_out)@.len() == old(weights_out)@.len(),
        forall|i: int|
            0 <= i < old(indices_out)@.len() ==> #[trigger] final(indices_out)@[i] == (if i < n_rows
                * k {
                top_picks(
                    row_logits::<F, T>(router_logits@, i / k as int, n_experts as nat),
                    k as nat,
                )[i % k as int].idx
            } else {
                old(indices_out)@[i]
            }),
        forall|i: int|
            0 <= i < old(weights_out)@.len() ==> #[trigger] final(weights_out)@[i] == (if i < n_rows
                * k {
                T::narrow_s(
                    pick_weight(
                        row_logits::<F, T>(router_logits@, i / k as int, n_experts as nat),
                        k as nat,
                        norm_topk_prob == 1,
                        i % k as int,
                    ),
                )
            } else {
                old(weights_out)@[i]
            }),
{
    let ghost idx0 = indices_out@;
    let ghost w0 = weights_out@;
    let i_len: usize = indices_out.len();
    let w_len: usize = weights_out.len();
    let mut row: u32 = 0;
    while row < n_rows
        invariant
            row <= n_rows,
            k <= 32,
            n_rows * n_experts <= router_logits@.len(),
            n_rows * k <= idx0.len() == i_len,
            n_rows * k <= w0.len() == w_len,
            indices_out@.len() == idx0.len(),
            weights_out@.len() == w0.len(),
            forall|i: int|
                0 <= i < idx0.len() ==> #[trigger] indices_out@[i] == (if i < row * k {
                    top_picks(
                        row_logits::<F, T>(router_logits@, i / k as int, n_experts as nat),
                        k as nat,
                    )[i % k as int].idx
                } else {
                    idx0[i]
                }),
            forall|i: int|
                0 <= i < w0.len() ==> #[trigger] weights_out@[i] == (if i < row * k {
                    T::narrow_s(
                        pick_weight(
                            row_logits::<F, T>(router_logits@, i / k as int, n_experts as nat),
                            k as nat,
                            norm_topk_prob == 1,
                            i % k as int,
                        ),
                    )
                } else {
                    w0[i]
                }),
        decreases n_rows - row,
    {
        proof {
            lemma_row(row as int, n_rows as int, k as int);
        }
        let logits = load_logits::<F, T>(router_logits, row as usize, n_experts, n_rows);
        let max = compute_row_max(&logits);
        let sum = compute_row_sum(&logits, max);
        let mut picks: Vec<Pick<F>> = Vec::new();
        let mut it: u32 = 0;
        assert(picks@ =~= top_picks(logits@, 0));
        while it < k
            invariant
                it <= k,
                logits@.len() <= 0xffff_ffff,
                picks@.len() == it,
                picks@ == top_picks(logits@, it as nat),
            decreases k - it,
        {
            let next = find_pick(&logits, &picks);
            picks.push(next);
            it += 1;
        }
        let mut exps: Vec<F> = Vec::new();
        let mut l: u32 = 0;
        while l < 32
            invariant
                l <= 32,
                k <= 32,
                max == row_max(logits@),
                picks@.len() == k,
                picks@ == top_picks(logits@, k as nat),
                exps@ == pick_exps(logits@, k as nat).take(l as int),
            decreases 32 - l,
        {
            if l < k {
                exps.push(picks[l as usize].val.sub(max).exp());
            } else {
                exps.push(F::zero());
            }
            assert(exps@ =~= pick_exps(logits@, k as nat).take(l + 1));
            l += 1;
        }
        assert(exps@ =~= pick_exps(logits@, k as nat));
        let divisor = if norm_topk_prob == 1 {
            F::lane_sum(&exps)
        } else {
            sum
        };
        let mut j: u32 = 0;
        while j < k
            invariant
                j <= k <= 32,
                row < n_rows,
                row * k + k <= idx0.len() == i_len,
                row * k + k <= w0.len() == w_len,
                logits@ == row_logits::<F, T>(router_logits@, row as int, n_experts as nat),
                picks@.len() == k,
                picks@ == top_picks(logits@, k as nat),
                exps@ == pick_exps(logits@, k as nat),
                divisor == (if norm_topk_prob == 1 {
                    F::lane_sum_s(exps@)
                } else {
                    row_sum(logits@)
                }),
                indices_out@.len() == idx0.len(),
                weights_out@.len() == w0.len(),
                forall|i: int|
                    0 <= i < idx0.len() ==> #[trigger] indices_out@[i] == (if i < row * k + j {
                        top_picks(
                            row_logits::<F, T>(router_logits@, i / k as int, n_experts as nat),
                            k as nat,
                        )[i % k as int].idx
                    } else {
                        idx0[i]
                    }),
                forall|i: int|
                    0 <= i < w0.len() ==> #[trigger] weights_out@[i] == (if i < row * k + j {
                        T::narrow_s(
                            pick_weight(
                                row_logits::<F, T>(router_logits@, i / k as int, n_experts as nat),
                                k as nat,
                                norm_topk_prob == 1,
                                i % k as int,
                            ),
                        )
                    } else {
                        w0[i]
                    }),
            decreases k - j,
        {
            proof {
                lemma_row_col(row as int, j as int, k as int);
            }
            let at: usize = row as usize * k as usize + j as usize;
            indices_out.set(at, picks[j as usize].idx);
            weights_out.set(at, T::narrow(exps[j as usize].div(divisor)));
            j += 1;
        }
        row += 1;
    }
}

/// Element `h` of a token is the sum, over its `k` slots, of the slot's weight
/// times element `h` of the row that the slot names.
pub proof fn law_unpermute_is_weighted_sum<F: Num, T: Store<F>>(
    expert_outputs: Seq<T>,
    inv_perm: Seq<u32>,
    weights: Seq<T>,
    hidden: int,
    k: nat,
    token: int,
    h: int,
)
    ensures
        weighted_rows::<F, T>(expert_outputs, inv_perm, weights, hidden, token * k, h, k)
            == range_sum(
            |j: int|
                weights[token * k + j].widen_s().mul_s(
                    expert_outputs[inv_perm[token * k + j] * hidden + h].widen_s(),
                ),
            0,
            k as int,
        ),
{
    lemma_rows_add_up::<F, T>(
        expert_outputs,
        inv_perm,
        weights,
        hidden,
        token * k,
        h,
        k,
        |j: int|
            weights[token * k + j].widen_s().mul_s(
                expert_outputs[inv_perm[token * k + j] * hidden + h].widen_s(),
            ),
    );
}

proof fn lemma_rows_add_up<F: Num, T: Store<F>>(
    expert_outputs: Seq<T>,
    inv_perm: Seq<u32>,
    weights: Seq<T>,
    hidden: int,
    first: int,
    h: int,
    n: nat,
    term: spec_fn(int) -> F,
)
    requires
        forall|j: int|
            #[trigger] term(j) == weights[first + j].widen_s().mul_s(
                expert_outputs[inv_perm[first + j] * hidden + h].widen_s(),
            ),
    ensures
        weighted_rows::<F, T>(expert_outputs, inv_perm, weights, hidden, first, h, n) == range_sum(
            term,
            0,
            n as int,
        ),
    decreases n,
{
    if n > 0 {
        lemma_rows_add_up::<F, T>(
            expert_outputs,
            inv_perm,
            weights,
            hidden,
            first,
            h,
            (n - 1) as nat,
            term,
        );
        assert(term(n - 1) == weights[first + (n - 1)].widen_s().mul_s(
            expert_outputs[inv_perm[first + (n - 1)] * hidden + h].widen_s(),
        ));
    }
}

/// A token whose whole weight is on slot `j` becomes the row that the slot
/// names, whatever the other slots name.
pub proof fn law_unpermute_selects_row<F: ExactNum, T: Store<F>>(
    expert_outputs: Seq<T>,
    inv_perm: Seq<u32>,
    weights: Seq<T>,
    hidden: int,
    k: nat,
    token: int,
    h: int,
    j: int,
)
    requires
        0 <= j < k,
        weights[token * k + j].widen_s() == F::one_s(),
        forall|o: int|
            0 <= o < k && o != j ==> (#[trigger] weights[token * k + o]).widen_s() == F::zero_s(),
    ensures
        weighted_rows::<F, T>(expert_outputs, inv_perm, weights, hidden, token * k, h, k)
            == expert_outputs[inv_perm[token * k + j] * hidden + h].widen_s(),
{
    let term = |o: int|
        weights[token * k + o].widen_s().mul_s(
            expert_outputs[inv_perm[token * k + o] * hidden + h].widen_s(),
        );
    law_unpermute_is_weighted_sum::<F, T>(
        expert_outputs,
        inv_perm,
        weights,
        hidden,
        k,
        token,
        h,
    );
    let v = expert_outputs[inv_perm[token * k + j] * hidden + h].widen_s();
    assert forall|o: int| 0 <= o < k && o != j implies #[trigger] term(o) == F::zero_s() by {
        assert(weights[token * k + o].widen_s() == F::zero_s());
        lemma_zero_mul(expert_outputs[inv_perm[token * k + o] * hidden + h].widen_s());
    }
    F::mul_comm(F::one_s(), v);
    F::mul_one(v);
    lemma_range_split(term, 0, j, k as int);
    lemma_range_split(term, j, j + 1, k as int);
    lemma_range_zero(term, 0, j);
    lemma_range_zero(term, j + 1, k as int);
    reveal_with_fuel(range_sum, 2);
    lemma_zero_add(v);
    F::add_zero(v);
    lemma_range_congr(
        term,
        |o: int|
            weights[token * k + o].widen_s().mul_s(
                expert_outputs[inv_perm[token * k + o] * hidden + h].widen_s(),
            ),
        0,
        k as int,
    );
}

} // verus!
