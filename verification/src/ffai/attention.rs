//! Online-softmax attention of one threadgroup: simdgroups walk the key/value
//! cache in strides, and their partial results are merged.
use vstd::prelude::*;

use crate::index::lemma_row;
use crate::num::{Num, Store};

verus! {

/// Lanes of a simdgroup.
pub const LANES: usize = 32;

/// Running state of one simdgroup: the largest score so far, and the sum and
/// the value accumulator scaled to it.
#[verifier::ext_equal]
pub struct Online<F> {
    pub max: F,
    pub sum: F,
    pub acc: Seq<F>,
}

/// Shape of a walk over the cache.
#[derive(Clone, Copy)]
pub struct Walk {
    /// Width of a query, key or value row.
    pub head_dim: usize,
    /// Elements that each lane owns.
    pub per_lane: usize,
    /// Simdgroups that share the walk.
    pub n_simd: usize,
    /// Positions in the cache.
    pub n_kv: usize,
    /// End of the leading range that is always attended.
    pub sink_end: usize,
    /// Start of the range that is attended to its end.
    pub window_start: usize,
}

/// A learned logit that takes part in the softmax without a value.
pub enum Sink<F> {
    /// No such logit.
    Absent,
    /// Joined on the first lane while the simdgroups merge, if `present`.
    Joined { present: bool, logit: F },
    /// Appended after the simdgroups have merged.
    Appended { logit: F },
}

/// What is added to the scores, position by position.
pub enum Bias<F> {
    Absent,
    /// Added to every score.
    Added(Seq<F>),
    /// Added to every score, and a position at negative infinity is blocked: it
    /// is not visited.
    Masked(Seq<F>),
}

impl<F: Num> Bias<F> {
    /// Covers `n` positions.
    pub open spec fn covers(self, n: int) -> bool {
        match self {
            Bias::Absent => true,
            Bias::Added(b) => n <= b.len(),
            Bias::Masked(b) => n <= b.len(),
        }
    }

    /// Whether position `t` is blocked.
    pub open spec fn blocks(self, t: int) -> bool {
        match self {
            Bias::Masked(b) => b[t].eq_s(F::neg_inf_s()),
            _ => false,
        }
    }

    /// The score of position `t` with its bias.
    pub open spec fn apply(self, raw: F, t: int) -> F {
        match self {
            Bias::Absent => raw,
            Bias::Added(b) => raw.add_s(b[t]),
            Bias::Masked(b) => raw.add_s(b[t]),
        }
    }
}

/// A [`Bias`] in memory.
pub enum BiasRef<'a, F> {
    Absent,
    Added(&'a Vec<F>),
    Masked(&'a Vec<F>),
}

impl<'a, F> Copy for BiasRef<'a, F> {

}

impl<'a, F> Clone for BiasRef<'a, F> {
    fn clone(&self) -> (r: Self)
        ensures
            r == *self,
    {
        *self
    }
}

impl<'a, F: Num> BiasRef<'a, F> {
    pub open spec fn view(self) -> Bias<F> {
        match self {
            BiasRef::Absent => Bias::Absent,
            BiasRef::Added(b) => Bias::Added(b@),
            BiasRef::Masked(b) => Bias::Masked(b@),
        }
    }

    /// Whether position `t` is blocked.
    pub fn get_blocks(&self, t: usize) -> (r: bool)
        requires
            self@.covers(t + 1),
        ensures
            r == self@.blocks(t as int),
    {
        match self {
            BiasRef::Masked(b) => b[t].eq(F::neg_inf()),
            _ => false,
        }
    }

    /// The score of position `t` with its bias.
    pub fn get_applied(&self, raw: F, t: usize) -> (r: F)
        requires
            self@.covers(t + 1),
        ensures
            r == self@.apply(raw, t as int),
    {
        match self {
            BiasRef::Absent => raw,
            BiasRef::Added(b) => raw.add(b[t]),
            BiasRef::Masked(b) => raw.add(b[t]),
        }
    }
}

/// Scores of the positions of a cache, and the positions that are not visited.
#[verifier::ext_equal]
pub struct Scores<F> {
    pub at: Seq<F>,
    pub blocked: Set<int>,
}

impl Walk {
    /// The walk stays inside a cache slab of `n_kv` rows.
    pub open spec fn wf(self) -> bool {
        &&& 0 < self.n_simd
        &&& 0 < self.per_lane
        &&& 0 < self.head_dim <= 32 * self.per_lane
        &&& self.sink_end <= self.n_kv
        &&& self.n_kv + self.n_simd <= usize::MAX
        &&& self.window_start + self.n_simd <= usize::MAX
        &&& 32 * self.per_lane <= usize::MAX
    }
}

/// Element `i` of a row, or zero past its end.
pub open spec fn masked<F: Num>(row: Seq<F>, i: int) -> F {
    if 0 <= i < row.len() {
        row[i]
    } else {
        F::zero_s()
    }
}

/// The first `n` products of a lane, added from the left.
pub open spec fn lane_products<F: Num>(q: Seq<F>, k: Seq<F>, first: int, n: nat) -> F
    decreases n,
{
    if n <= 1 {
        masked(q, first).mul_s(masked(k, first))
    } else {
        lane_products(q, k, first, (n - 1) as nat).add_s(
            masked(q, first + n - 1).mul_s(masked(k, first + n - 1)),
        )
    }
}

/// Query times key, each lane adding `per_lane` products.
pub open spec fn raw_score<F: Num>(q: Seq<F>, k: Seq<F>, per_lane: nat) -> F {
    F::lane_sum_s(Seq::new(32, |l: int| lane_products(q, k, l * per_lane, per_lane)))
}

/// Row `t` of a cache slab that starts at `base`.
pub open spec fn cache_row<F: Num, T: Store<F>>(c: Seq<T>, base: int, t: int, d: nat) -> Seq<F> {
    Seq::new(d, |i: int| c[base + t * d + i].widen_s())
}

/// The larger of two values by the strict comparison of the kernels.
pub open spec fn pick_max<F: Num>(candidate: F, current: F) -> F {
    if candidate.gt_s(current) {
        candidate
    } else {
        current
    }
}

/// One position of the online softmax.
pub open spec fn step<F: Num>(st: Online<F>, score: F, value: Seq<F>) -> Online<F> {
    let max = pick_max(score, st.max);
    let factor = st.max.sub_s(max).exp_s();
    let weight = score.sub_s(max).exp_s();
    Online {
        max,
        sum: st.sum.mul_s(factor).add_s(weight),
        acc: Seq::new(
            st.acc.len(),
            |i: int| st.acc[i].mul_s(factor).add_s(weight.mul_s(value[i])),
        ),
    }
}

/// The state after positions `t`, `t + stride`, .. below `stop`; blocked ones
/// are passed over.
pub open spec fn walk<F: Num>(
    scores: Scores<F>,
    values: Seq<Seq<F>>,
    st: Online<F>,
    t: int,
    stop: int,
    stride: int,
) -> Online<F>
    decreases
            (if t < stop {
                stop - t
            } else {
                0
            }),
{
    if t >= stop || stride <= 0 {
        st
    } else {
        let next = if scores.blocked.contains(t) {
            st
        } else {
            step(st, scores.at[t], values[t])
        };
        walk(scores, values, next, t + stride, stop, stride)
    }
}

/// The state before the first position.
pub open spec fn fresh<F: Num>(d: nat) -> Online<F> {
    Online { max: F::neg_inf_s(), sum: F::zero_s(), acc: Seq::new(d, |i: int| F::zero_s()) }
}

/// What simdgroup `sg` has when its walk ends.
pub open spec fn simdgroup_state<F: Num>(
    w: Walk,
    scores: Scores<F>,
    values: Seq<Seq<F>>,
    sg: int,
) -> Online<F> {
    walk(
        scores,
        values,
        walk(
            scores,
            values,
            fresh(w.head_dim as nat),
            sg,
            w.sink_end as int,
            w.n_simd as int,
        ),
        sg + w.window_start,
        w.n_kv as int,
        w.n_simd as int,
    )
}

/// Largest scores as the merging lanes see them: lanes without a simdgroup
/// hold negative infinity.
pub open spec fn lane_maxima<F: Num>(states: Seq<Online<F>>) -> Seq<F> {
    Seq::new(32, |l: int| if l < states.len() { states[l].max } else { F::neg_inf_s() })
}

/// Sums of the merging lanes, rescaled to the common maximum.
pub open spec fn lane_sums<F: Num>(states: Seq<Online<F>>, g_max: F) -> Seq<F> {
    Seq::new(
        32,
        |l: int| if l < states.len() {
            states[l].sum.mul_s(states[l].max.sub_s(g_max).exp_s())
        } else {
            F::zero_s()
        },
    )
}

/// Common maximum and denominator of all simdgroups.
pub open spec fn merged_plain<F: Num>(states: Seq<Online<F>>) -> (F, F) {
    let g_max = F::lane_max_s(lane_maxima(states));
    (g_max, F::lane_sum_s(lane_sums(states, g_max)))
}

/// Common maximum and denominator of all simdgroups and the sink.
pub open spec fn merged<F: Num>(states: Seq<Online<F>>, sink: Sink<F>) -> (F, F) {
    match sink {
        Sink::Absent => merged_plain(states),
        Sink::Joined { present, logit } => {
            let raw = lane_maxima(states);
            let sink_max = if present {
                logit
            } else {
                F::neg_inf_s()
            };
            let g_max = F::lane_max_s(
                Seq::new(32, |l: int| if l == 0 { pick_max(raw[0], sink_max) } else { raw[l] }),
            );
            let sink_sum = if present {
                logit.sub_s(g_max).exp_s()
            } else {
                F::zero_s()
            };
            let sums = lane_sums(states, g_max);
            (
                g_max,
                F::lane_sum_s(
                    Seq::new(
                        32,
                        |l: int| sums[l].add_s(if l == 0 { sink_sum } else { F::zero_s() }),
                    ),
                ),
            )
        },
        Sink::Appended { logit } => {
            let (max0, sum0) = merged_plain(states);
            let g_max = pick_max(logit, max0);
            (
                g_max,
                sum0.mul_s(max0.sub_s(g_max).exp_s()).add_s(logit.sub_s(g_max).exp_s()),
            )
        },
    }
}

/// Factor that turns the accumulator of a simdgroup into its share of the
/// output; zero where nothing was attended.
pub open spec fn rescale<F: Num>(max: F, g: (F, F)) -> F {
    if g.1.gt_s(F::zero_s()) {
        max.sub_s(g.0).exp_s().div_s(g.1)
    } else {
        F::zero_s()
    }
}

/// Output element `i`, added up over the first `n` simdgroups.
pub open spec fn combine<F: Num>(states: Seq<Online<F>>, g: (F, F), i: int, n: nat) -> F
    decreases n,
{
    if n == 0 {
        F::zero_s()
    } else {
        combine(states, g, i, (n - 1) as nat).add_s(
            states[n - 1].acc[i].mul_s(rescale(states[n - 1].max, g)),
        )
    }
}

/// Scores of every position against one scaled query.
pub open spec fn all_scores<F: Num, T: Store<F>>(
    w: Walk,
    q: Seq<F>,
    k: Seq<T>,
    base: int,
    bias: Bias<F>,
) -> Scores<F> {
    Scores {
        at: Seq::new(
            w.n_kv as nat,
            |t: int|
                bias.apply(
                    raw_score(q, cache_row(k, base, t, w.head_dim as nat), w.per_lane as nat),
                    t,
                ),
        ),
        blocked: Set::new(|t: int| bias.blocks(t)),
    }
}

/// Value rows of every position.
pub open spec fn all_values<F: Num, T: Store<F>>(w: Walk, v: Seq<T>, base: int) -> Seq<Seq<F>> {
    Seq::new(w.n_kv as nat, |t: int| cache_row(v, base, t, w.head_dim as nat))
}

/// States of all simdgroups.
pub open spec fn all_states<F: Num>(
    w: Walk,
    scores: Scores<F>,
    values: Seq<Seq<F>>,
) -> Seq<Online<F>> {
    Seq::new(w.n_simd as nat, |sg: int| simdgroup_state(w, scores, values, sg))
}

/// The output row for given scores and values.
pub open spec fn attend_scores<F: Num>(
    w: Walk,
    scores: Scores<F>,
    values: Seq<Seq<F>>,
    sink: Sink<F>,
) -> Seq<F> {
    let states = all_states(w, scores, values);
    Seq::new(
        w.head_dim as nat,
        |i: int| combine(states, merged(states, sink), i, w.n_simd as nat),
    )
}

/// The output row of one scaled query against a cache slab.
pub open spec fn attend<F: Num, T: Store<F>>(
    w: Walk,
    q: Seq<F>,
    k: Seq<T>,
    v: Seq<T>,
    base: int,
    bias: Bias<F>,
    sink: Sink<F>,
) -> Seq<F> {
    attend_scores(w, all_scores(w, q, k, base, bias), all_values(w, v, base), sink)
}

/// A query row, scaled element by element.
pub open spec fn scaled_row<F: Num, T: Store<F>>(
    q: Seq<T>,
    off: int,
    d: nat,
    scale: F,
) -> Seq<F> {
    Seq::new(d, |i: int| q[off + i].widen_s().mul_s(scale))
}

/// Executable counterpart of [`Online`].
pub struct SgState<F> {
    pub max: F,
    pub sum: F,
    pub acc: Vec<F>,
}

impl<F> SgState<F> {
    pub open spec fn online(self) -> Online<F> {
        Online { max: self.max, sum: self.sum, acc: self.acc@ }
    }
}

/// Loads and scales a query row.
pub fn load_scaled<F: Num, T: Store<F>>(q: &[T], off: usize, d: usize, scale: F) -> (r: Vec<F>)
    requires
        off + d <= q@.len(),
    ensures
        r@ == scaled_row::<F, T>(q@, off as int, d as nat, scale),
{
    let q_len: usize = q.len();
    let mut row: Vec<F> = Vec::new();
    let mut i: usize = 0;
    while i < d
        invariant
            i <= d,
            off + d <= q@.len() == q_len,
            row@ == scaled_row::<F, T>(q@, off as int, d as nat, scale).take(i as int),
        decreases d - i,
    {
        row.push(q[off + i].widen().mul(scale));
        i += 1;
    }
    assert(scaled_row::<F, T>(q@, off as int, d as nat, scale).take(d as int) =~= scaled_row::<
        F,
        T,
    >(q@, off as int, d as nat, scale));
    row
}

/// Loads one row of a cache slab.
fn load_row<F: Num, T: Store<F>>(c: &[T], base: usize, t: usize, n: usize, d: usize) -> (r: Vec<F>)
    requires
        t < n,
        base + n * d <= c@.len(),
    ensures
        r@ == cache_row::<F, T>(c@, base as int, t as int, d as nat),
{
    let mut row: Vec<F> = Vec::new();
    let c_len: usize = c.len();
    proof {
        lemma_row(t as int, n as int, d as int);
    }
    let start: usize = base + t * d;
    let mut i: usize = 0;
    while i < d
        invariant
            i <= d,
            start == base + t * d,
            start + d <= c@.len() == c_len,
            row@ == cache_row::<F, T>(c@, base as int, t as int, d as nat).take(i as int),
        decreases d - i,
    {
        row.push(c[start + i].widen());
        i += 1;
    }
    assert(row@ =~= cache_row::<F, T>(c@, base as int, t as int, d as nat));
    row
}

fn get_masked<F: Num>(row: &Vec<F>, i: usize) -> (r: F)
    ensures
        r == masked(row@, i as int),
{
    if i < row.len() {
        row[i]
    } else {
        F::zero()
    }
}

/// Score of one key row.
fn score_row<F: Num>(q: &Vec<F>, k: &Vec<F>, per_lane: usize) -> (r: F)
    requires
        0 < per_lane,
        32 * per_lane <= usize::MAX,
    ensures
        r == raw_score(q@, k@, per_lane as nat),
{
    let mut lanes: Vec<F> = Vec::new();
    let ghost full = Seq::new(32, |l: int| lane_products(q@, k@, l * per_lane, per_lane as nat));
    let mut l: usize = 0;
    while l < LANES
        invariant
            l <= 32,
            0 < per_lane,
            32 * per_lane <= usize::MAX,
            full == Seq::new(32, |l: int| lane_products(q@, k@, l * per_lane, per_lane as nat)),
            lanes@ == full.take(l as int),
        decreases 32 - l,
    {
        proof {
            lemma_row(l as int, 32, per_lane as int);
        }
        let first: usize = l * per_lane;
        let mut part = get_masked(q, first).mul(get_masked(k, first));
        let mut j: usize = 1;
        while j < per_lane
            invariant
                1 <= j <= per_lane,
                first + per_lane <= usize::MAX,
                part == lane_products(q@, k@, first as int, j as nat),
            decreases per_lane - j,
        {
            part = part.add(get_masked(q, first + j).mul(get_masked(k, first + j)));
            j += 1;
        }
        lanes.push(part);
        assert(full[l as int] == part);
        l += 1;
    }
    assert(full.take(32) =~= full);
    F::lane_sum(&lanes)
}

/// Folds one position into a state.
fn fold_position<F: Num>(st: &mut SgState<F>, score: F, value: &Vec<F>)
    requires
        old(st).acc@.len() == value@.len(),
    ensures
        final(st).online() == step(old(st).online(), score, value@),
{
    let max = if score.gt(st.max) {
        score
    } else {
        st.max
    };
    let factor = st.max.sub(max).exp();
    let weight = score.sub(max).exp();
    st.sum = st.sum.mul(factor).add(weight);
    st.max = max;
    let ghost before = st.acc@;
    let mut acc: Vec<F> = Vec::new();
    let mut i: usize = 0;
    while i < st.acc.len()
        invariant
            i <= st.acc@.len(),
            st.acc@ == before,
            before.len() == value@.len(),
            acc@.len() == i,
            forall|j: int|
                0 <= j < i ==> #[trigger] acc@[j] == before[j].mul_s(factor).add_s(
                    weight.mul_s(value@[j]),
                ),
        decreases before.len() - i,
    {
        acc.push(st.acc[i].mul(factor).add(weight.mul(value[i])));
        i += 1;
    }
    st.acc = acc;
    assert(st.online() =~= step(old(st).online(), score, value@));
}

pub open spec fn score_of<F: Num, T: Store<F>>(
    w: Walk,
    qs: Seq<Vec<F>>,
    k: Seq<T>,
    base: int,
    bias: Bias<F>,
    b: int,
) -> Scores<F> {
    all_scores(w, qs[b]@, k, base, bias)
}

/// Walks positions `start`, `start + n_simd`, .. below `stop` once, folding
/// each into the state of every query stream.
pub(crate) fn walk_streams<F: Num, T: Store<F>>(
    w: Walk,
    qs: &Vec<Vec<F>>,
    k: &[T],
    v: &[T],
    base: usize,
    bias: BiasRef<F>,
    start: usize,
    stop: usize,
    states: &mut Vec<SgState<F>>,
)
    requires
        w.wf(),
        stop <= w.n_kv,
        base + w.n_kv * w.head_dim <= k@.len(),
        base + w.n_kv * w.head_dim <= v@.len(),
        bias@.covers(w.n_kv as int),
        old(states)@.len() == qs@.len(),
        forall|b: int|
            0 <= b < qs@.len() ==> (#[trigger] old(states)@[b]).acc@.len() == w.head_dim,
    ensures
        final(states)@.len() == qs@.len(),
        forall|b: int|
            0 <= b < qs@.len() ==> (#[trigger] final(states)@[b]).acc@.len() == w.head_dim
                && final(states)@[b].online() == walk(
                score_of(w, qs@, k@, base as int, bias@, b),
                all_values(w, v@, base as int),
                old(states)@[b].online(),
                start as int,
                stop as int,
                w.n_simd as int,
            ),
{
    let ghost values = all_values::<F, T>(w, v@, base as int);
    let ghost s0 = states@;
    let mut t: usize = start;
    while t < stop
        invariant
            w.wf(),
            stop <= w.n_kv,
            base + w.n_kv * w.head_dim <= k@.len(),
            base + w.n_kv * w.head_dim <= v@.len(),
            bias@.covers(w.n_kv as int),
            values == all_values::<F, T>(w, v@, base as int),
            states@.len() == qs@.len(),
            s0.len() == qs@.len(),
            forall|b: int|
                0 <= b < qs@.len() ==> (#[trigger] states@[b]).acc@.len() == w.head_dim && walk(
                    score_of(w, qs@, k@, base as int, bias@, b),
                    values,
                    states@[b].online(),
                    t as int,
                    stop as int,
                    w.n_simd as int,
                ) == walk(
                    score_of(w, qs@, k@, base as int, bias@, b),
                    values,
                    s0[b].online(),
                    start as int,
                    stop as int,
                    w.n_simd as int,
                ),
        decreases
                (if t < stop {
                    stop - t
                } else {
                    0
                }),
    {
        if bias.get_blocks(t) {
            t += w.n_simd;
            continue;
        }
        let key = load_row::<F, T>(k, base, t, w.n_kv, w.head_dim);
        let value = load_row::<F, T>(v, base, t, w.n_kv, w.head_dim);
        let ghost before = states@;
        let mut b: usize = 0;
        while b < qs.len()
            invariant
                w.wf(),
                b <= qs@.len(),
                t < stop <= w.n_kv,
                bias@.covers(w.n_kv as int),
                states@.len() == qs@.len(),
                before.len() == qs@.len(),
                key@ == cache_row::<F, T>(k@, base as int, t as int, w.head_dim as nat),
                value@ == cache_row::<F, T>(v@, base as int, t as int, w.head_dim as nat),
                forall|c: int|
                    0 <= c < qs@.len() ==> (#[trigger] states@[c]).acc@.len() == w.head_dim,
                forall|c: int| b <= c < qs@.len() ==> #[trigger] states@[c] == before[c],
                forall|c: int|
                    0 <= c < b ==> (#[trigger] states@[c]).online() == step(
                        before[c].online(),
                        score_of(w, qs@, k@, base as int, bias@, c).at[t as int],
                        value@,
                    ),
            decreases qs@.len() - b,
        {
            let raw = score_row(&qs[b], &key, w.per_lane);
            let score = bias.get_applied(raw, t);
            assert(score == score_of(w, qs@, k@, base as int, bias@, b as int).at[t as int]);
            let mut st = take_state(states, b);
            fold_position(&mut st, score, &value);
            states.set(b, st);
            b += 1;
        }
        assert(values[t as int] =~= value@);
        t += w.n_simd;
    }
}

/// Moves a state out of a vector, leaving an empty accumulator behind.
fn take_state<F: Num>(states: &mut Vec<SgState<F>>, b: usize) -> (st: SgState<F>)
    requires
        b < old(states)@.len(),
    ensures
        st == old(states)@[b as int],
        final(states)@.len() == old(states)@.len(),
        forall|c: int|
            0 <= c < old(states)@.len() && c != b ==> #[trigger] final(states)@[c] == old(states)@[c],
{
    let mut st = SgState { max: F::zero(), sum: F::zero(), acc: Vec::new() };
    let slot = &mut states[b];
    std::mem::swap(slot, &mut st);
    st
}

/// The states of stream `b`, one per simdgroup.
pub open spec fn stream_states<F>(all: Seq<Vec<SgState<F>>>, b: int) -> Seq<Online<F>> {
    Seq::new(all.len(), |sg: int| all[sg]@[b].online())
}

pub open spec fn grid_wf<F>(all: Seq<Vec<SgState<F>>>, n_streams: int, d: int) -> bool {
    &&& all.len() <= 32
    &&& forall|sg: int| 0 <= sg < all.len() ==> (#[trigger] all[sg])@.len() == n_streams
    &&& forall|sg: int, b: int|
        0 <= sg < all.len() && 0 <= b < n_streams ==> (#[trigger] all[sg]@[b]).acc@.len() == d
}

/// Gathers the per-simdgroup maxima onto lanes.
fn gather_maxima<F: Num>(all: &Vec<Vec<SgState<F>>>, b: usize, n_streams: usize) -> (r: Vec<F>)
    requires
        b < n_streams,
        all@.len() <= 32,
        forall|sg: int| 0 <= sg < all@.len() ==> (#[trigger] all@[sg])@.len() == n_streams,
    ensures
        r@ == lane_maxima(stream_states(all@, b as int)),
{
    let mut lanes: Vec<F> = Vec::new();
    let mut l: usize = 0;
    while l < LANES
        invariant
            l <= 32,
            b < n_streams,
            forall|sg: int| 0 <= sg < all@.len() ==> (#[trigger] all@[sg])@.len() == n_streams,
            lanes@ == lane_maxima(stream_states(all@, b as int)).take(l as int),
        decreases 32 - l,
    {
        if l < all.len() {
            lanes.push(all[l][b].max);
        } else {
            lanes.push(F::neg_inf());
        }
        assert(lanes@ =~= lane_maxima(stream_states(all@, b as int)).take(l + 1));
        l += 1;
    }
    assert(lanes@ =~= lane_maxima(stream_states(all@, b as int)));
    lanes
}

/// Gathers the rescaled per-simdgroup sums onto lanes.
fn gather_sums<F: Num>(
    all: &Vec<Vec<SgState<F>>>,
    b: usize,
    n_streams: usize,
    g_max: F,
) -> (r: Vec<F>)
    requires
        b < n_streams,
        all@.len() <= 32,
        forall|sg: int| 0 <= sg < all@.len() ==> (#[trigger] all@[sg])@.len() == n_streams,
    ensures
        r@ == lane_sums(stream_states(all@, b as int), g_max),
{
    let mut lanes: Vec<F> = Vec::new();
    let mut l: usize = 0;
    while l < LANES
        invariant
            l <= 32,
            b < n_streams,
            forall|sg: int| 0 <= sg < all@.len() ==> (#[trigger] all@[sg])@.len() == n_streams,
            lanes@ == lane_sums(stream_states(all@, b as int), g_max).take(l as int),
        decreases 32 - l,
    {
        if l < all.len() {
            lanes.push(all[l][b].sum.mul(all[l][b].max.sub(g_max).exp()));
        } else {
            lanes.push(F::zero());
        }
        assert(lanes@ =~= lane_sums(stream_states(all@, b as int), g_max).take(l + 1));
        l += 1;
    }
    assert(lanes@ =~= lane_sums(stream_states(all@, b as int), g_max));
    lanes
}

/// Merges the simdgroups of one stream without a sink.
fn merge_plain<F: Num>(all: &Vec<Vec<SgState<F>>>, b: usize, n_streams: usize) -> (r: (F, F))
    requires
        b < n_streams,
        all@.len() <= 32,
        forall|sg: int| 0 <= sg < all@.len() ==> (#[trigger] all@[sg])@.len() == n_streams,
    ensures
        r == merged_plain(stream_states(all@, b as int)),
{
    let maxima = gather_maxima(all, b, n_streams);
    let g_max = F::lane_max(&maxima);
    let sums = gather_sums(all, b, n_streams, g_max);
    (g_max, F::lane_sum(&sums))
}

/// Merges the simdgroups of one stream.
fn merge<F: Num>(
    all: &Vec<Vec<SgState<F>>>,
    b: usize,
    n_streams: usize,
    sink: &Sink<F>,
) -> (r: (F, F))
    requires
        b < n_streams,
        all@.len() <= 32,
        forall|sg: int| 0 <= sg < all@.len() ==> (#[trigger] all@[sg])@.len() == n_streams,
    ensures
        r == merged(stream_states(all@, b as int), *sink),
{
    match sink {
        Sink::Absent => merge_plain(all, b, n_streams),
        Sink::Joined { present, logit } => {
            let mut maxima = gather_maxima(all, b, n_streams);
            let ghost raw = maxima@;
            let sink_max = if *present {
                *logit
            } else {
                F::neg_inf()
            };
            if !maxima[0].gt(sink_max) {
                maxima.set(0, sink_max);
            }
            assert(maxima@ =~= Seq::new(
                32,
                |l: int| if l == 0 { pick_max(raw[0], sink_max) } else { raw[l] },
            ));
            let g_max = F::lane_max(&maxima);
            let sink_sum = if *present {
                logit.sub(g_max).exp()
            } else {
                F::zero()
            };
            let sums = gather_sums(all, b, n_streams, g_max);
            let mut joined: Vec<F> = Vec::new();
            let mut l: usize = 0;
            while l < LANES
                invariant
                    l <= 32,
                    sums@.len() == 32,
                    joined@.len() == l,
                    forall|j: int|
                        0 <= j < l ==> #[trigger] joined@[j] == sums@[j].add_s(
                            if j == 0 {
                                sink_sum
                            } else {
                                F::zero_s()
                            },
                        ),
                decreases 32 - l,
            {
                if l == 0 {
                    joined.push(sums[l].add(sink_sum));
                } else {
                    joined.push(sums[l].add(F::zero()));
                }
                l += 1;
            }
            assert(joined@ =~= Seq::new(
                32,
                |l: int| sums@[l].add_s(if l == 0 { sink_sum } else { F::zero_s() }),
            ));
            (g_max, F::lane_sum(&joined))
        },
        Sink::Appended { logit } => {
            let (max0, sum0) = merge_plain(all, b, n_streams);
            let g_max = if logit.gt(max0) {
                *logit
            } else {
                max0
            };
            (g_max, sum0.mul(max0.sub(g_max).exp()).add(logit.sub(g_max).exp()))
        },
    }
}

/// Adds the rescaled accumulators of one stream up into its output row.
fn combine_row<F: Num>(
    all: &Vec<Vec<SgState<F>>>,
    b: usize,
    n_streams: usize,
    d: usize,
    g: (F, F),
) -> (r: Vec<F>)
    requires
        b < n_streams,
        grid_wf(all@, n_streams as int, d as int),
    ensures
        r@ == Seq::new(
            d as nat,
            |i: int| combine(stream_states(all@, b as int), g, i, all@.len()),
        ),
{
    let ghost states = stream_states(all@, b as int);
    let mut row: Vec<F> = Vec::new();
    let mut i: usize = 0;
    while i < d
        invariant
            i <= d,
            b < n_streams,
            grid_wf(all@, n_streams as int, d as int),
            states == stream_states(all@, b as int),
            row@.len() == i,
            forall|j: int| 0 <= j < i ==> #[trigger] row@[j] == combine(states, g, j, all@.len()),
        decreases d - i,
    {
        let mut sum = F::zero();
        let mut sg: usize = 0;
        while sg < all.len()
            invariant
                sg <= all@.len(),
                i < d,
                b < n_streams,
                grid_wf(all@, n_streams as int, d as int),
                states == stream_states(all@, b as int),
                sum == combine(states, g, i as int, sg as nat),
            decreases all@.len() - sg,
        {
            assert(all@[sg as int]@[b as int].acc@.len() == d);
            let st = &all[sg][b];
            let share = if g.1.gt(F::zero()) {
                st.max.sub(g.0).exp().div(g.1)
            } else {
                F::zero()
            };
            assert(states[sg as int] == st.online());
            sum = sum.add(st.acc[i].mul(share));
            sg += 1;
        }
        row.push(sum);
        i += 1;
    }
    assert(row@ =~= Seq::new(d as nat, |i: int| combine(states, g, i, all@.len())));
    row
}

/// Fresh states, one per stream.
pub(crate) fn fresh_states<F: Num>(n: usize, d: usize) -> (r: Vec<SgState<F>>)
    ensures
        r@.len() == n,
        forall|b: int|
            0 <= b < n ==> (#[trigger] r@[b]).online() == fresh::<F>(d as nat) && r@[b].acc@.len()
                == d,
{
    let mut out: Vec<SgState<F>> = Vec::new();
    let mut b: usize = 0;
    while b < n
        invariant
            b <= n,
            out@.len() == b,
            forall|c: int|
                0 <= c < b ==> (#[trigger] out@[c]).online() == fresh::<F>(d as nat)
                    && out@[c].acc@.len() == d,
        decreases n - b,
    {
        let mut acc: Vec<F> = Vec::new();
        let mut i: usize = 0;
        while i < d
            invariant
                i <= d,
                acc@.len() == i,
                forall|j: int| 0 <= j < i ==> #[trigger] acc@[j] == F::zero_s(),
            decreases d - i,
        {
            acc.push(F::zero());
            i += 1;
        }
        let st = SgState { max: F::neg_inf(), sum: F::zero(), acc };
        assert(st.online() =~= fresh::<F>(d as nat));
        out.push(st);
        b += 1;
    }
    out
}

/// Runs a threadgroup over one cache slab for several query streams at once:
/// each simdgroup walks the cache a single time, and the simdgroups are then
/// merged stream by stream.
pub fn attend_streams<F: Num, T: Store<F>>(
    w: Walk,
    qs: &Vec<Vec<F>>,
    k: &[T],
    v: &[T],
    base: usize,
    bias: BiasRef<F>,
    sink: &Sink<F>,
) -> (rows: Vec<Vec<F>>)
    requires
        w.wf(),
        w.n_simd <= 32,
        base + w.n_kv * w.head_dim <= k@.len(),
        base + w.n_kv * w.head_dim <= v@.len(),
        bias@.covers(w.n_kv as int),
    ensures
        rows@.len() == qs@.len(),
        forall|b: int|
            0 <= b < qs@.len() ==> (#[trigger] rows@[b])@ == attend(
                w,
                qs@[b]@,
                k@,
                v@,
                base as int,
                bias@,
                *sink,
            ),
{
    let ghost values = all_values::<F, T>(w, v@, base as int);
    let mut all: Vec<Vec<SgState<F>>> = Vec::new();
    let mut sg: usize = 0;
    while sg < w.n_simd
        invariant
            sg <= w.n_simd <= 32,
            w.wf(),
            base + w.n_kv * w.head_dim <= k@.len(),
            base + w.n_kv * w.head_dim <= v@.len(),
            bias@.covers(w.n_kv as int),
            values == all_values::<F, T>(w, v@, base as int),
            all@.len() == sg,
            grid_wf(all@, qs@.len() as int, w.head_dim as int),
            forall|g: int, b: int|
                0 <= g < sg && 0 <= b < qs@.len() ==> (#[trigger] all@[g]@[b]).online()
                    == simdgroup_state(
                    w,
                    score_of(w, qs@, k@, base as int, bias@, b),
                    values,
                    g,
                ),
        decreases w.n_simd - sg,
    {
        let mut states = fresh_states::<F>(qs.len(), w.head_dim);
        walk_streams(w, qs, k, v, base, bias, sg, w.sink_end, &mut states);
        walk_streams(w, qs, k, v, base, bias, sg + w.window_start, w.n_kv, &mut states);
        all.push(states);
        sg += 1;
    }
    let mut rows: Vec<Vec<F>> = Vec::new();
    let mut b: usize = 0;
    while b < qs.len()
        invariant
            b <= qs@.len(),
            w.wf(),
            w.n_simd <= 32,
            values == all_values::<F, T>(w, v@, base as int),
            all@.len() == w.n_simd,
            grid_wf(all@, qs@.len() as int, w.head_dim as int),
            forall|g: int, b: int|
                0 <= g < w.n_simd && 0 <= b < qs@.len() ==> (#[trigger] all@[g]@[b]).online()
                    == simdgroup_state(
                    w,
                    score_of(w, qs@, k@, base as int, bias@, b),
                    values,
                    g,
                ),
            rows@.len() == b,
            forall|c: int|
                0 <= c < b ==> (#[trigger] rows@[c])@ == attend(
                    w,
                    qs@[c]@,
                    k@,
                    v@,
                    base as int,
                    bias@,
                    *sink,
                ),
        decreases qs@.len() - b,
    {
        let g = merge(&all, b, qs.len(), sink);
        let row = combine_row(&all, b, qs.len(), w.head_dim, g);
        assert(stream_states(all@, b as int) =~= all_states(
            w,
            score_of(w, qs@, k@, base as int, bias@, b as int),
            values,
        ));
        assert(row@ =~= attend(w, qs@[b as int]@, k@, v@, base as int, bias@, *sink));
        rows.push(row);
        b += 1;
    }
    rows
}

/// Stores a row of accumulators at `off`.
pub fn store_row<F: Num, T: Store<F>>(out: &mut Vec<T>, off: usize, row: &Vec<F>)
    requires
        off + row@.len() <= old(out)@.len(),
    ensures
        final(out)@.len() == old(out)@.len(),
        forall|i: int|
            0 <= i < old(out)@.len() ==> #[trigger] final(out)@[i] == (if off <= i < off
                + row@.len() {
                T::narrow_s(row@[i - off])
            } else {
                old(out)@[i]
            }),
{
    let ghost before = out@;
    let out_len: usize = out.len();
    let mut i: usize = 0;
    while i < row.len()
        invariant
            i <= row@.len(),
            out@.len() == before.len() == out_len,
            off + row@.len() <= before.len(),
            forall|j: int|
                0 <= j < before.len() ==> #[trigger] out@[j] == (if off <= j < off + i {
                    T::narrow_s(row@[j - off])
                } else {
                    before[j]
                }),
        decreases row@.len() - i,
    {
        out.set(off + i, T::narrow(row[i]));
        i += 1;
    }
}

} // verus!
