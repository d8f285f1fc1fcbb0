//! Exact arithmetic to run the kernels over: the integers modulo 65537.
use vstd::arithmetic::div_mod::{
    lemma_add_mod_noop, lemma_mul_mod_noop, lemma_small_mod, lemma_mod_multiples_vanish,
};
use vstd::prelude::*;

use crate::num::{total, ExactNum, ExactStore, Num, Store};

verus! {

/// The modulus, the largest known Fermat prime.
pub const MODULUS: u32 = 65537;

/// An integer modulo [`MODULUS`]: a small residue, or the one residue that
/// sixteen bits do not hold. Every residue has one representation.
#[derive(Clone, Copy, Debug, PartialEq, Eq, Structural)]
pub enum Fermat {
    Small(u16),
    Top,
}

impl Fermat {
    /// The residue, between zero and the modulus.
    pub open spec fn val(self) -> int {
        match self {
            Fermat::Small(v) => v as int,
            Fermat::Top => 65536,
        }
    }

    /// The residue class of an integer.
    pub open spec fn of(n: int) -> Fermat {
        if n % 65537 == 65536 {
            Fermat::Top
        } else {
            Fermat::Small((n % 65537) as u16)
        }
    }

    /// Place in the order of the residues, in which the top one comes first.
    pub open spec fn rank(self) -> int {
        match self {
            Fermat::Small(v) => v + 1,
            Fermat::Top => 0,
        }
    }

    pub open spec fn plus(self, other: Fermat) -> Fermat {
        Fermat::of(self.val() + other.val())
    }

    pub open spec fn times(self, other: Fermat) -> Fermat {
        Fermat::of(self.val() * other.val())
    }

    /// Reads the residue.
    pub fn get(self) -> (r: u32)
        ensures
            r == self.val(),
            r < MODULUS,
    {
        match self {
            Fermat::Small(v) => v as u32,
            Fermat::Top => 65536,
        }
    }

    /// Reads the place in the order.
    pub fn get_rank(self) -> (r: u32)
        ensures
            r == self.rank(),
    {
        match self {
            Fermat::Small(v) => v as u32 + 1,
            Fermat::Top => 0,
        }
    }

    /// The residue class of a machine integer.
    pub fn new(n: u64) -> (r: Fermat)
        ensures
            r == Fermat::of(n as int),
    {
        let m: u64 = n % 65537;
        if m == 65536 {
            Fermat::Top
        } else {
            Fermat::Small(m as u16)
        }
    }
}

/// Sum of the residues, from the left.
pub open spec fn sum_of(values: Seq<Fermat>) -> Fermat
    decreases values.len(),
{
    if values.len() == 0 {
        Fermat::of(0)
    } else {
        sum_of(values.drop_last()).plus(values.last())
    }
}

/// Running product used for the inverse: `acc` times the next `n` squarings
/// of `sq`.
pub open spec fn power_product(acc: Fermat, sq: Fermat, n: nat) -> Fermat
    decreases n,
{
    if n == 0 {
        acc
    } else {
        power_product(acc.times(sq), sq.times(sq), (n - 1) as nat)
    }
}

/// The power 65535 of an element, which is its inverse where it has one.
pub open spec fn inverse(b: Fermat) -> Fermat {
    power_product(Fermat::of(1), b, 16)
}

pub open spec fn max_of(values: Seq<Fermat>) -> Fermat
    decreases values.len(),
{
    if values.len() == 0 {
        Fermat::Top
    } else {
        let m = max_of(values.drop_last());
        if values.last().rank() > m.rank() {
            values.last()
        } else {
            m
        }
    }
}

pub proof fn lemma_of_val(a: Fermat)
    ensures
        Fermat::of(a.val()) == a,
        0 <= a.val() < 65537,
{
}

pub proof fn lemma_val_of(n: int)
    ensures
        Fermat::of(n).val() == n % 65537,
{
}

impl Num for Fermat {
    open spec fn zero_s() -> Self {
        Fermat::of(0)
    }

    open spec fn one_s() -> Self {
        Fermat::of(1)
    }

    open spec fn neg_inf_s() -> Self {
        Fermat::Top
    }

    open spec fn two_pi_s() -> Self {
        Fermat::of(6)
    }

    open spec fn of_u32_s(n: u32) -> Self {
        Fermat::of(n as int)
    }

    open spec fn recip_u32_s(n: u32) -> Self {
        if n == 16 {
            Fermat::of(61441)
        } else if n == 256 {
            Fermat::of(65281)
        } else if n == 4096 {
            Fermat::of(65521)
        } else {
            inverse(Fermat::of(n as int))
        }
    }

    open spec fn add_s(self, other: Self) -> Self {
        self.plus(other)
    }

    open spec fn sub_s(self, other: Self) -> Self {
        Fermat::of(self.val() - other.val())
    }

    open spec fn mul_s(self, other: Self) -> Self {
        self.times(other)
    }

    open spec fn div_s(self, other: Self) -> Self {
        self.times(inverse(other))
    }

    open spec fn neg_s(self) -> Self {
        Fermat::of(0 - self.val())
    }

    open spec fn exp_s(self) -> Self {
        Fermat::of(1)
    }

    open spec fn ln_s(self) -> Self {
        Fermat::of(0)
    }

    open spec fn exp2_s(self) -> Self {
        Fermat::of(1)
    }

    open spec fn log2_s(self) -> Self {
        Fermat::of(0)
    }

    open spec fn sqrt_s(self) -> Self {
        self
    }

    open spec fn rsqrt_s(self) -> Self {
        inverse(self)
    }

    open spec fn sin_s(self) -> Self {
        Fermat::of(0)
    }

    open spec fn cos_s(self) -> Self {
        Fermat::of(1)
    }

    open spec fn gt_s(self, other: Self) -> bool {
        self.rank() > other.rank()
    }

    open spec fn ge_s(self, other: Self) -> bool {
        self.rank() >= other.rank()
    }

    open spec fn eq_s(self, other: Self) -> bool {
        self.val() == other.val()
    }

    open spec fn lane_sum_s(values: Seq<Self>) -> Self {
        sum_of(values)
    }

    open spec fn lane_max_s(values: Seq<Self>) -> Self {
        max_of(values)
    }

    open spec fn dot_acc_s(acc: Self, a: Seq<Self>, b: Seq<Self>) -> Self {
        acc.plus(sum_of(products(a, b)))
    }

    fn zero() -> (r: Self) {
        Fermat::new(0)
    }

    fn one() -> (r: Self) {
        Fermat::new(1)
    }

    fn neg_inf() -> (r: Self) {
        Fermat::Top
    }

    fn two_pi() -> (r: Self) {
        Fermat::new(6)
    }

    fn of_u32(n: u32) -> (r: Self) {
        Fermat::new(n as u64)
    }

    fn recip_u32(n: u32) -> (r: Self) {
        if n == 16 {
            Fermat::new(61441)
        } else if n == 256 {
            Fermat::new(65281)
        } else if n == 4096 {
            Fermat::new(65521)
        } else {
            invert(Fermat::new(n as u64))
        }
    }

    fn add(self, other: Self) -> (r: Self) {
        plus(self, other)
    }

    fn sub(self, other: Self) -> (r: Self) {
        let a: u64 = self.get() as u64;
        let b: u64 = other.get() as u64;
        proof {
            lemma_mod_multiples_vanish(1, a - b, 65537);
        }
        Fermat::new(a + 65537 - b)
    }

    fn mul(self, other: Self) -> (r: Self) {
        times(self, other)
    }

    fn div(self, other: Self) -> (r: Self) {
        times(self, invert(other))
    }

    fn neg(self) -> (r: Self) {
        let a: u64 = self.get() as u64;
        proof {
            lemma_mod_multiples_vanish(1, 0 - a, 65537);
        }
        Fermat::new(65537 - a)
    }

    fn exp(self) -> (r: Self) {
        Fermat::new(1)
    }

    fn ln(self) -> (r: Self) {
        Fermat::new(0)
    }

    fn exp2(self) -> (r: Self) {
        Fermat::new(1)
    }

    fn log2(self) -> (r: Self) {
        Fermat::new(0)
    }

    fn sqrt(self) -> (r: Self) {
        self
    }

    fn rsqrt(self) -> (r: Self) {
        invert(self)
    }

    fn sin(self) -> (r: Self) {
        Fermat::new(0)
    }

    fn cos(self) -> (r: Self) {
        Fermat::new(1)
    }

    fn gt(self, other: Self) -> (r: bool) {
        self.get_rank() > other.get_rank()
    }

    fn ge(self, other: Self) -> (r: bool) {
        self.get_rank() >= other.get_rank()
    }

    fn eq(self, other: Self) -> (r: bool) {
        self.get() == other.get()
    }

    fn lane_sum(values: &Vec<Self>) -> (r: Self) {
        sum_vec(values)
    }

    fn lane_max(values: &Vec<Self>) -> (r: Self) {
        max_vec(values)
    }

    fn dot_acc(acc: Self, a: &Vec<Self>, b: &Vec<Self>) -> (r: Self) {
        plus(acc, sum_vec(&products_vec(a, b)))
    }
}

/// Adds two residues.
fn plus(a: Fermat, b: Fermat) -> (r: Fermat)
    ensures
        r == a.plus(b),
{
    Fermat::new(a.get() as u64 + b.get() as u64)
}

/// Multiplies two residues.
fn times(a: Fermat, b: Fermat) -> (r: Fermat)
    ensures
        r == a.times(b),
{
    let x: u64 = a.get() as u64;
    let y: u64 = b.get() as u64;
    assert(x * y <= 65536 * 65536) by (nonlinear_arith)
        requires
            x <= 65536,
            y <= 65536,
    ;
    Fermat::new(x * y)
}

/// Adds up a vector.
fn sum_vec(values: &Vec<Fermat>) -> (r: Fermat)
    ensures
        r == sum_of(values@),
{
    let mut acc = Fermat::new(0);
    let mut i: usize = 0;
    while i < values.len()
        invariant
            i <= values@.len(),
            acc == sum_of(values@.take(i as int)),
        decreases values@.len() - i,
    {
        acc = plus(acc, values[i]);
        assert(values@.take(i as int + 1).drop_last() =~= values@.take(i as int));
        i += 1;
    }
    assert(values@.take(i as int) =~= values@);
    acc
}

/// The largest residue of a vector.
fn max_vec(values: &Vec<Fermat>) -> (r: Fermat)
    ensures
        r == max_of(values@),
{
    let mut best = Fermat::Top;
    let mut i: usize = 0;
    while i < values.len()
        invariant
            i <= values@.len(),
            best == max_of(values@.take(i as int)),
        decreases values@.len() - i,
    {
        if values[i].get_rank() > best.get_rank() {
            best = values[i];
        }
        assert(values@.take(i as int + 1).drop_last() =~= values@.take(i as int));
        i += 1;
    }
    assert(values@.take(i as int) =~= values@);
    best
}

/// Products of two vectors, element by element.
pub open spec fn products(a: Seq<Fermat>, b: Seq<Fermat>) -> Seq<Fermat> {
    Seq::new(a.len(), |i: int| a[i].times(b[i]))
}

fn products_vec(a: &Vec<Fermat>, b: &Vec<Fermat>) -> (r: Vec<Fermat>)
    requires
        a@.len() == b@.len(),
    ensures
        r@ == products(a@, b@),
{
    let mut out: Vec<Fermat> = Vec::new();
    let mut i: usize = 0;
    while i < a.len()
        invariant
            i <= a@.len(),
            a@.len() == b@.len(),
            out@ == products(a@, b@).take(i as int),
        decreases a@.len() - i,
    {
        out.push(times(a[i], b[i]));
        i += 1;
    }
    assert(products(a@, b@).take(i as int) =~= products(a@, b@));
    out
}

/// The inverse of an element, by sixteen squarings.
fn invert(b: Fermat) -> (r: Fermat)
    ensures
        r == inverse(b),
{
    let mut acc = Fermat::new(1);
    let mut sq = b;
    let mut n: u32 = 16;
    while n > 0
        invariant
            n <= 16,
            power_product(acc, sq, n as nat) == inverse(b),
        decreases n,
    {
        acc = times(acc, sq);
        sq = times(sq, sq);
        n -= 1;
    }
    acc
}

proof fn lemma_sum_total(values: Seq<Fermat>)
    ensures
        sum_of(values) == total(values),
    decreases values.len(),
{
    if values.len() > 0 {
        lemma_sum_total(values.drop_last());
    }
}

impl ExactNum for Fermat {
    proof fn add_comm(a: Self, b: Self) {
    }

    proof fn add_assoc(a: Self, b: Self, c: Self) {
        lemma_val_of(a.val() + b.val());
        lemma_val_of(b.val() + c.val());
        lemma_add_mod_noop(a.val() + b.val(), c.val(), 65537);
        lemma_add_mod_noop(a.val(), b.val() + c.val(), 65537);
        lemma_small_mod(c.val() as nat, 65537);
        lemma_small_mod(a.val() as nat, 65537);
    }

    proof fn add_zero(a: Self) {
        lemma_of_val(a);
    }

    proof fn mul_comm(a: Self, b: Self) {
        assert(a.val() * b.val() == b.val() * a.val()) by (nonlinear_arith);
    }

    proof fn mul_assoc(a: Self, b: Self, c: Self) {
        lemma_val_of(a.val() * b.val());
        lemma_val_of(b.val() * c.val());
        lemma_mul_mod_noop(a.val() * b.val(), c.val(), 65537);
        lemma_mul_mod_noop(a.val(), b.val() * c.val(), 65537);
        lemma_small_mod(c.val() as nat, 65537);
        lemma_small_mod(a.val() as nat, 65537);
        let (x, y, z) = (a.val(), b.val(), c.val());
        assert((x * y) * z == x * (y * z)) by (nonlinear_arith);
    }

    proof fn mul_one(a: Self) {
        lemma_of_val(a);
        assert(a.val() * 1 == a.val());
    }

    proof fn of_zero() {
    }

    proof fn sub_zero(a: Self) {
        lemma_of_val(a);
    }

    proof fn sub_self(a: Self) {
    }

    proof fn sub_add_neg(a: Self, b: Self) {
        let (x, y) = (a.val(), b.val());
        lemma_val_of(0 - y);
        lemma_add_mod_noop(x, 0 - y, 65537);
        lemma_small_mod(x as nat, 65537);
    }

    proof fn exp_zero() {
    }

    proof fn level_at_zero() {
    }

    proof fn zero_above_neg_inf() {
    }

    proof fn mul_zero(a: Self) {
        assert(a.val() * 0 == 0);
    }

    proof fn distrib(a: Self, b: Self, c: Self) {
        let (x, y, z) = (a.val(), b.val(), c.val());
        lemma_val_of(x + y);
        lemma_val_of(x * z);
        lemma_val_of(y * z);
        lemma_mul_mod_noop(x + y, z, 65537);
        lemma_small_mod(z as nat, 65537);
        lemma_add_mod_noop(x * z, y * z, 65537);
        assert((x + y) * z == x * z + y * z) by (nonlinear_arith);
    }

    proof fn div_recip(a: Self, b: Self) {
        Self::mul_comm(Self::one_s(), inverse(b));
        Self::mul_one(inverse(b));
    }

    proof fn rsqrt_recip(a: Self) {
        let i = inverse(a);
        Self::mul_comm(Self::one_s(), i);
        Self::mul_one(i);
    }

    proof fn exp_shift(a: Self, b: Self, c: Self) {
        assert(Fermat::of(1).val() == 1);
    }

    proof fn recip_pow2(code: u32, place: u32) {
        let n: int = code * place;
        assert(n < 65536) by (nonlinear_arith)
            requires
                n == code * place,
                code < 16,
                place <= 4096,
        ;
        let r: int = if place == 16 {
            61441
        } else if place == 256 {
            65281
        } else {
            65521
        };
        lemma_small_mod(n as nat, 65537);
        assert(n * r == code * (place * r)) by (nonlinear_arith)
            requires
                n == code * place,
        ;
        let m: int = if place == 16 {
            15
        } else if place == 256 {
            255
        } else {
            4095
        };
        assert(code * (place * r) == 65537 * (code * m) + code) by (nonlinear_arith)
            requires
                place * r == 65537 * m + 1,
        ;
        lemma_mod_multiples_vanish(code * m, code as int, 65537);
    }

    proof fn order_irreflexive(a: Self) {
    }

    proof fn order_transitive(a: Self, b: Self, c: Self) {
    }

    proof fn order_total(a: Self, b: Self) {
        lemma_of_val(a);
        lemma_of_val(b);
    }

    proof fn ge_is_gt_or_same(a: Self, b: Self) {
        lemma_of_val(a);
        lemma_of_val(b);
    }

    proof fn neg_inf_lowest(a: Self) {
    }

    proof fn lane_sum_total(values: Seq<Self>) {
        lemma_sum_total(values);
    }

    proof fn lane_max_member(values: Seq<Self>)
        decreases values.len(),
    {
        let rest = values.drop_last();
        if rest.len() > 0 {
            Self::lane_max_member(rest);
            let i = choose|i: int| 0 <= i < rest.len() && rest[i] == Self::lane_max_s(rest);
            assert(values[i] == rest[i]);
        } else {
            assert(max_of(rest) == Fermat::Top);
            lemma_of_val(values.last());
        }
        let last = values.len() - 1;
        assert(values[last] == values.last());
        assert forall|i: int| 0 <= i < values.len() implies !(#[trigger] values[i]).gt_s(
            Self::lane_max_s(values),
        ) by {
            if i < last {
                assert(rest[i] == values[i]);
            }
        }
    }

    proof fn dot_acc_total(acc: Self, a: Seq<Self>, b: Seq<Self>) {
        lemma_sum_total(products(a, b));
        assert(products(a, b) =~= Seq::new(a.len(), |i: int| a[i].mul_s(b[i])));
    }
}

impl Store<Fermat> for Fermat {
    open spec fn widen_s(self) -> Fermat {
        self
    }

    open spec fn narrow_s(value: Fermat) -> Self {
        value
    }

    open spec fn stage_s(value: Fermat) -> Fermat {
        value
    }

    fn widen(self) -> (r: Fermat) {
        self
    }

    fn narrow(value: Fermat) -> (r: Self) {
        value
    }

    fn stage(value: Fermat) -> (r: Fermat) {
        value
    }
}

impl ExactStore<Fermat> for Fermat {
    proof fn widen_narrow(value: Fermat) {
    }

    proof fn narrow_widen(element: Self) {
    }

    proof fn stage_exact(value: Fermat) {
    }
}

} // verus!
