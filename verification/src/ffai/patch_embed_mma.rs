//! Patch embedding on the matrix unit: tiles of thirty-two patches by
//! thirty-two hidden units.
use vstd::prelude::*;

use super::mma::{slice_fold, slice_product, store_tile, Tiling};
use super::moe_laws::lemma_slice_fold;
use super::patch_embed::{embed_fold, embedded, lemma_pixel, Patching};
use crate::index::{lemma_index_row, lemma_mul_le, lemma_row, lemma_row_col};
use crate::num::{ExactNum, ExactStore, Num, Store};
use crate::sums::{
    lemma_range_blocks, lemma_range_congr, lemma_range_shift, lemma_range_split, lemma_range_zero,
    range_sum,
};

verus! {

/// Pixels of a patch, rounded up to whole blocks of thirty-two.
pub open spec fn padded(n: int) -> int {
    (n + 31) / 32 * 32
}

/// Pixels of patch `p` as the matrix unit sees them, zeros behind the last.
pub open spec fn pixel_operands<F: Num, T: Store<F>>(d: Patching, image: Seq<T>, p: int) -> Seq<F> {
    Seq::new(
        padded(d.patch_dim()) as nat,
        |k: int|
            T::narrow_s(
                if k < d.patch_dim() {
                    image[d.pixel(p, k)].widen_s()
                } else {
                    F::zero_s()
                },
            ).widen_s(),
    )
}

/// Weights of hidden unit `h` as the matrix unit sees them, zeros behind the
/// last.
pub open spec fn unit_operands<F: Num, T: Store<F>>(d: Patching, weight: Seq<T>, h: int) -> Seq<F> {
    Seq::new(
        padded(d.patch_dim()) as nat,
        |k: int|
            T::narrow_s(
                if k < d.patch_dim() {
                    weight[h * d.patch_dim() + k].widen_s()
                } else {
                    F::zero_s()
                },
            ).widen_s(),
    )
}

/// Patch `p` projected onto hidden unit `h`, eight pixels per step.
pub open spec fn embedded_mma<F: Num, T: Store<F>>(
    d: Patching,
    image: Seq<T>,
    weight: Seq<T>,
    bias: Seq<T>,
    p: int,
    h: int,
) -> F {
    slice_fold(
        pixel_operands::<F, T>(d, image, p),
        unit_operands::<F, T>(d, weight, h),
        8,
        (padded(d.patch_dim()) / 8) as nat,
    ).add_s(bias[h].widen_s())
}

/// Pixels of a channel of a patch, and of a patch.
fn get_patch_dim(d: Patching) -> (r: (u64, u32))
    requires
        d.wf(),
        d.patch_dim() <= 0xffff_ffe0,
    ensures
        r.0 == d.patch_plane(),
        r.1 == d.patch_dim(),
{
    proof {
        lemma_mul_le(d.patch_h as int, 0xffff_ffff, d.patch_w as int, 0xffff_ffff);
        if d.in_ch > 0 {
            lemma_mul_le(1, d.in_ch as int, d.patch_plane(), d.patch_plane());
        } else {
            assert(d.in_ch * d.patch_plane() == 0) by (nonlinear_arith)
                requires
                    d.in_ch == 0,
            ;
        }
    }
    let patch_plane: u64 = d.patch_h as u64 * d.patch_w as u64;
    (patch_plane, (d.in_ch as u64 * patch_plane) as u32)
}

/// Stages one patch.
fn stage_patch<F: Num, T: Store<F>>(
    d: Patching,
    image: &[T],
    p: u32,
) -> (r: Vec<F>)
    requires
        d.wf(),
        d.in_ch * d.plane() <= image@.len(),
        d.patch_dim() <= 0xffff_ffe0,
        p < d.num_patches(),
    ensures
        r@ == pixel_operands::<F, T>(d, image@, p as int),
{
    let ghost full = pixel_operands::<F, T>(d, image@, p as int);
    let (patch_plane, patch_dim) = get_patch_dim(d);
    let kp: u32 = (patch_dim + 31) / 32 * 32;
    let mut row: Vec<F> = Vec::new();
    let mut k: u32 = 0;
    while k < kp
        invariant
            k <= kp,
            kp == padded(d.patch_dim()),
            d.wf(),
            d.in_ch * d.plane() <= image@.len(),
            d.patch_dim() <= 0xffff_ffe0,
            p < d.num_patches(),
            patch_plane == d.patch_plane(),
            patch_dim == d.patch_dim(),
            full == pixel_operands::<F, T>(d, image@, p as int),
            row@ == full.take(k as int),
        decreases kp - k,
    {
        let raw: F = if k < patch_dim {
            proof {
                lemma_pixel(d, p as int, k as int);
                let ic = k as int / d.patch_plane();
                lemma_row(ic, d.in_ch as int, d.plane());
                let y = (p as int / d.patches_w()) * d.patch_h + (k as int % d.patch_plane())
                    / d.patch_w as int;
                lemma_row(y, d.in_h as int, d.in_w as int);
                lemma_mul_le(1, d.in_ch as int, d.plane(), d.plane());
                lemma_mul_le(1, d.in_ch as int, d.patch_plane(), d.patch_plane());
            }
            let patches_w: u32 = d.in_w / d.patch_w;
            let py0: u32 = (p / patches_w) * d.patch_h;
            let px0: u32 = (p % patches_w) * d.patch_w;
            let plane: u32 = d.in_h * d.in_w;
            let ic: u32 = (k as u64 / patch_plane) as u32;
            let rem: u32 = (k as u64 % patch_plane) as u32;
            let py: u32 = rem / d.patch_w;
            let px: u32 = rem % d.patch_w;
            image[(ic * plane + (py0 + py) * d.in_w + (px0 + px)) as usize].widen()
        } else {
            F::zero()
        };
        row.push(T::narrow(raw).widen());
        assert(row@ =~= full.take(k + 1));
        k += 1;
    }
    assert(row@ =~= full);
    row
}

/// Stages the weights of one hidden unit.
fn stage_unit<F: Num, T: Store<F>>(
    d: Patching,
    weight: &[T],
    h: u32,
) -> (r: Vec<F>)
    requires
        d.wf(),
        d.hidden * d.patch_dim() <= weight@.len(),
        d.patch_dim() <= 0xffff_ffe0,
        h < d.hidden,
    ensures
        r@ == unit_operands::<F, T>(d, weight@, h as int),
{
    let ghost full = unit_operands::<F, T>(d, weight@, h as int);
    let (_plane, patch_dim) = get_patch_dim(d);
    let kp: u32 = (patch_dim + 31) / 32 * 32;
    proof {
        lemma_row(h as int, d.hidden as int, d.patch_dim());
    }
    let base: u32 = h * patch_dim;
    let mut row: Vec<F> = Vec::new();
    let mut k: u32 = 0;
    while k < kp
        invariant
            k <= kp,
            kp == padded(d.patch_dim()),
            patch_dim == d.patch_dim(),
            base == h * d.patch_dim(),
            base + patch_dim <= weight@.len(),
            base + patch_dim <= 0xffff_ffff,
            full == unit_operands::<F, T>(d, weight@, h as int),
            row@ == full.take(k as int),
        decreases kp - k,
    {
        let raw: F = if k < patch_dim {
            weight[(base + k) as usize].widen()
        } else {
            F::zero()
        };
        row.push(T::narrow(raw).widen());
        assert(row@ =~= full.take(k + 1));
        k += 1;
    }
    assert(row@ =~= full);
    row
}

/// The accumulators of the tile at patch `m_base` and hidden unit `n_base`.
fn embed_tile<F: Num, T: Store<F>>(
    d: Patching,
    image: &[T],
    weight: &[T],
    bias: &[T],
    m_base: u32,
    n_base: u32,
) -> (acc: Vec<F>)
    requires
        d.wf(),
        d.fits(image@, weight@, bias@),
        d.patch_dim() <= 0xffff_ffe0,
        m_base + 32 <= d.num_patches(),
        n_base + 32 <= d.hidden,
    ensures
        acc@.len() == 1024,
        forall|r: int, c: int|
            0 <= r < 32 && 0 <= c < 32 ==> #[trigger] acc@[r * 32 + c] == embedded_mma::<F, T>(
                d,
                image@,
                weight@,
                bias@,
                m_base + r,
                n_base + c,
            ),
{
    let (_plane, patch_dim) = get_patch_dim(d);
    let kp: u32 = (patch_dim + 31) / 32 * 32;
    proof {
        lemma_mul_le(d.num_patches(), d.num_patches(), 1, d.hidden as int);
    }
    let mut units: Vec<Vec<F>> = Vec::new();
    let mut c: u32 = 0;
    while c < 32
        invariant
            c <= 32,
            d.wf(),
            d.fits(image@, weight@, bias@),
            d.patch_dim() <= 0xffff_ffe0,
            n_base + 32 <= d.hidden,
            units@.len() == c,
            forall|j: int|
                0 <= j < c ==> (#[trigger] units@[j])@ == unit_operands::<F, T>(
                    d,
                    weight@,
                    n_base + j,
                ),
        decreases 32 - c,
    {
        units.push(stage_unit::<F, T>(d, weight, n_base + c));
        c += 1;
    }
    let mut acc: Vec<F> = Vec::new();
    let mut r: u32 = 0;
    while r < 32
        invariant
            r <= 32,
            kp == padded(d.patch_dim()),
            kp % 8 == 0,
            d.wf(),
            d.fits(image@, weight@, bias@),
            d.patch_dim() <= 0xffff_ffe0,
            m_base + 32 <= d.num_patches() <= 0xffff_ffff,
            n_base + 32 <= d.hidden,
            units@.len() == 32,
            forall|j: int|
                0 <= j < 32 ==> (#[trigger] units@[j])@ == unit_operands::<F, T>(
                    d,
                    weight@,
                    n_base + j,
                ),
            acc@.len() == r * 32,
            forall|i: int|
                0 <= i < r * 32 ==> #[trigger] acc@[i] == embedded_mma::<F, T>(
                    d,
                    image@,
                    weight@,
                    bias@,
                    m_base + i / 32,
                    n_base + i % 32,
                ),
        decreases 32 - r,
    {
        let xs = stage_patch::<F, T>(d, image, m_base + r);
        let mut c: u32 = 0;
        while c < 32
            invariant
                c <= 32,
                r < 32,
                kp == padded(d.patch_dim()),
                kp % 8 == 0,
                d.wf(),
                d.fits(image@, weight@, bias@),
                d.patch_dim() <= 0xffff_ffe0,
                n_base + 32 <= d.hidden,
                units@.len() == 32,
                xs@ == pixel_operands::<F, T>(d, image@, m_base + r),
                forall|j: int|
                    0 <= j < 32 ==> (#[trigger] units@[j])@ == unit_operands::<F, T>(
                        d,
                        weight@,
                        n_base + j,
                    ),
                acc@.len() == r * 32 + c,
                forall|i: int|
                    0 <= i < r * 32 + c ==> #[trigger] acc@[i] == embedded_mma::<F, T>(
                        d,
                        image@,
                        weight@,
                        bias@,
                        m_base + i / 32,
                        n_base + i % 32,
                    ),
            decreases 32 - c,
        {
            let dot = slice_product(&xs, &units[c as usize], 8, kp);
            acc.push(dot.add(bias[(n_base + c) as usize].widen()));
            c += 1;
        }
        r += 1;
    }
    acc
}

/// Embeds every patch of the image, tile by tile. Patches and hidden units
/// come in multiples of thirty-two.
pub fn patch_embed_mma<F: Num, T: Store<F>>(
    image: &[T],
    weight: &[T],
    bias: &[T],
    out: &mut Vec<T>,
    in_ch: u32,
    in_h: u32,
    in_w: u32,
    patch_h: u32,
    patch_w: u32,
    hidden: u32,
)
    requires
        (Patching { in_ch, in_h, in_w, patch_h, patch_w, hidden }).wf(),
        (Patching { in_ch, in_h, in_w, patch_h, patch_w, hidden }).fits(image@, weight@, bias@),
        (Patching { in_ch, in_h, in_w, patch_h, patch_w, hidden }).num_patches() * hidden <= old(out)@.len(),
        (Patching { in_ch, in_h, in_w, patch_h, patch_w, hidden }).num_patches() % 32 == 0,
        hidden % 32 == 0,
        (Patching { in_ch, in_h, in_w, patch_h, patch_w, hidden }).patch_dim() <= 0xffff_ffe0,
    ensures
        final(out)@.len() == old(out)@.len(),
        forall|i: int|
            0 <= i < old(out)@.len() ==> #[trigger] final(out)@[i] == (if i < (Patching {
                in_ch,
                in_h,
                in_w,
                patch_h,
                patch_w,
                hidden,
            }).num_patches() * hidden {
                T::narrow_s(
                    embedded_mma::<F, T>(
                        (Patching { in_ch, in_h, in_w, patch_h, patch_w, hidden }),
                        image@,
                        weight@,
                        bias@,
                        i / hidden as int,
                        i % hidden as int,
                    ),
                )
            } else {
                old(out)@[i]
            }),
{
    let d = Patching { in_ch, in_h, in_w, patch_h, patch_w, hidden };
    let ghost before = out@;
    if hidden == 0 {
        assert(d.num_patches() * hidden == 0) by (nonlinear_arith)
            requires
                hidden == 0,
        ;
        return ;
    }
    let t = Tiling {
        bm: 32,
        bn: 32,
        bk: 32,
        slice: 8,
        unit: 8,
        masked: false,
        signed: false,
        multiplied: false,
        staged: false,
    };
    proof {
        vstd::arithmetic::div_mod::lemma_div_pos_is_pos(in_h as int, patch_h as int);
        vstd::arithmetic::div_mod::lemma_div_pos_is_pos(in_w as int, patch_w as int);
        lemma_mul_le(0, d.patches_h(), 0, d.patches_w());
        lemma_mul_le(d.num_patches(), d.num_patches(), 1, hidden as int);
    }
    let m_total: u32 = (in_h / patch_h) * (in_w / patch_w);
    let ghost val = |r: int, c: int|
        T::narrow_s(embedded_mma::<F, T>(d, image@, weight@, bias@, r, c));
    let mut m_base: u32 = 0;
    while m_base < m_total
        invariant
            m_base <= m_total,
            m_base % 32 == 0,
            m_total % 32 == 0,
            hidden % 32 == 0,
            d.hidden == hidden,
            m_total == d.num_patches(),
            t == (Tiling {
                bm: 32,
                bn: 32,
                bk: 32,
                slice: 8,
                unit: 8,
                masked: false,
                signed: false,
                multiplied: false,
                staged: false,
            }),
            d.wf(),
            d.fits(image@, weight@, bias@),
            d.patch_dim() <= 0xffff_ffe0,
            m_total * hidden <= before.len(),
            out@.len() == before.len(),
            val == (|r: int, c: int|
                T::narrow_s(embedded_mma::<F, T>(d, image@, weight@, bias@, r, c))),
            forall|r: int, c: int|
                0 <= r < m_total && 0 <= c < hidden ==> #[trigger] out@[r * hidden + c] == (if r
                    < m_base {
                    val(r, c)
                } else {
                    before[r * hidden + c]
                }),
            forall|i: int| m_total * hidden <= i < before.len() ==> #[trigger] out@[i] == before[i],
        decreases m_total - m_base,
    {
        let mut n_base: u32 = 0;
        while n_base < hidden
            invariant
                n_base <= hidden,
                n_base % 32 == 0,
                m_base + 32 <= m_total,
                hidden % 32 == 0,
                d.hidden == hidden,
                m_total == d.num_patches(),
                t == (Tiling {
                    bm: 32,
                    bn: 32,
                    bk: 32,
                    slice: 8,
                    unit: 8,
                    masked: false,
                    signed: false,
                    multiplied: false,
                    staged: false,
                }),
                d.wf(),
                d.fits(image@, weight@, bias@),
            d.patch_dim() <= 0xffff_ffe0,
                m_total * hidden <= before.len(),
                out@.len() == before.len(),
                val == (|r: int, c: int|
                    T::narrow_s(embedded_mma::<F, T>(d, image@, weight@, bias@, r, c))),
                forall|r: int, c: int|
                    0 <= r < m_total && 0 <= c < hidden ==> #[trigger] out@[r * hidden + c] == (if r
                        < m_base || (r < m_base + 32 && c < n_base) {
                        val(r, c)
                    } else {
                        before[r * hidden + c]
                    }),
                forall|i: int|
                    m_total * hidden <= i < before.len() ==> #[trigger] out@[i] == before[i],
            decreases hidden - n_base,
        {
            let acc = embed_tile::<F, T>(d, image, weight, bias, m_base, n_base);
            let ghost mid = out@;
            store_tile::<F, T>(t, &acc, out, m_total, hidden, m_base, n_base, 0, 32);
            proof {
                assert forall|r: int, c: int|
                    0 <= r < m_total && 0 <= c < hidden implies #[trigger] out@[r * hidden + c]
                    == (if r < m_base || (r < m_base + 32 && c < n_base + 32) {
                    val(r, c)
                } else {
                    before[r * hidden + c]
                }) by {
                    let kept = mid[r * hidden + c];
                    if m_base <= r < m_base + 32 && n_base <= c < n_base + 32 {
                        assert(acc@[(r - m_base) * 32 + (c - n_base)] == embedded_mma::<F, T>(
                            d,
                            image@,
                            weight@,
                            bias@,
                            r,
                            c,
                        ));
                    }
                }
            }
            n_base += 32;
        }
        m_base += 32;
    }
    proof {
        assert forall|i: int| 0 <= i < before.len() implies #[trigger] out@[i] == (if i < m_total
            * hidden {
            T::narrow_s(
                embedded_mma::<F, T>(
                    d,
                    image@,
                    weight@,
                    bias@,
                    i / hidden as int,
                    i % hidden as int,
                ),
            )
        } else {
            before[i]
        }) by {
            if i < m_total * hidden {
                lemma_index_row(i, m_total as int, hidden as int);
                let (r, c) = (i / hidden as int, i % hidden as int);
                assert(out@[r * hidden + c] == val(r, c));
            }
        }
    }
}

proof fn lemma_embed_fold<F: ExactNum, T: Store<F>>(
    d: Patching,
    image: Seq<T>,
    weight: Seq<T>,
    p: int,
    h: int,
    acc: F,
    n: nat,
    f: spec_fn(int) -> F,
)
    requires
        forall|k: int|
            0 <= k < n ==> #[trigger] f(k) == image[d.pixel(p, k)].widen_s().mul_s(
                weight[h * d.patch_dim() + k].widen_s(),
            ),
    ensures
        embed_fold::<F, T>(d, image, weight, p, h, acc, n) == acc.add_s(range_sum(f, 0, n as int)),
    decreases n,
{
    if n == 0 {
        F::add_zero(acc);
    } else {
        lemma_embed_fold::<F, T>(d, image, weight, p, h, acc, (n - 1) as nat, f);
        let k = n - 1;
        assert(f(k) == image[d.pixel(p, k)].widen_s().mul_s(
            weight[h * d.patch_dim() + k].widen_s(),
        ));
        F::add_assoc(acc, range_sum(f, 0, k), f(k));
    }
}

/// The tiled embedding computes what the one-thread-per-element embedding
/// computes; the padding of a partial block adds nothing.
pub proof fn law_embeddings_agree<F: ExactNum, T: ExactStore<F>>(
    d: Patching,
    image: Seq<T>,
    weight: Seq<T>,
    bias: Seq<T>,
    p: int,
    h: int,
)
    ensures
        embedded_mma::<F, T>(d, image, weight, bias, p, h) == embedded::<F, T>(
            d,
            image,
            weight,
            bias,
            p,
            h,
        ),
{
    let n = d.patch_dim();
    lemma_mul_le(0, d.patch_h as int, 0, d.patch_w as int);
    lemma_mul_le(0, d.in_ch as int, 0, d.patch_plane());
    let kp = padded(n);
    let a = pixel_operands::<F, T>(d, image, p);
    let b = unit_operands::<F, T>(d, weight, h);
    let f = |k: int|
        if k < n {
            image[d.pixel(p, k)].widen_s().mul_s(weight[h * n + k].widen_s())
        } else {
            F::zero_s()
        };
    assert forall|k: int| 0 <= k < a.len() implies #[trigger] f(k) == a[k].mul_s(b[k]) by {
        T::widen_narrow(F::zero_s());
        if k < n {
            T::widen_narrow(image[d.pixel(p, k)].widen_s());
            T::widen_narrow(weight[h * n + k].widen_s());
        } else {
            F::mul_zero(F::zero_s());
        }
    }
    lemma_slice_fold(a, b, 8, (kp / 8) as nat, f);
    assert((kp / 8) * 8 == kp);
    lemma_range_split(f, 0, n, kp);
    lemma_range_zero(f, n, kp);
    F::add_zero(range_sum(f, 0, n));
    let b0 = bias[h].widen_s();
    lemma_embed_fold::<F, T>(d, image, weight, p, h, b0, n as nat, f);
    F::add_comm(range_sum(f, 0, n), b0);
}

/// Hidden unit `h` of the patch in row `gy` and column `gx` of the grid of
/// patches: the bias plus, over channels, rows and columns of the patch, the
/// pixel times the weight.
pub proof fn law_embedding_of_buffers<F: ExactNum, T: ExactStore<F>>(
    d: Patching,
    image: Seq<T>,
    weight: Seq<T>,
    bias: Seq<T>,
    gy: int,
    gx: int,
    h: int,
    channel: spec_fn(int) -> F,
    line: spec_fn(int, int) -> F,
)
    requires
        0 < d.patch_h,
        0 < d.patch_w,
        0 <= gy,
        0 <= gx < d.in_w as int / d.patch_w as int,
        forall|c: int, y: int|
            #[trigger] line(c, y) == range_sum(
                |x: int|
                    image[(c * d.in_h + (gy * d.patch_h + y)) * d.in_w + (gx * d.patch_w
                        + x)].widen_s().mul_s(
                        weight[((h * d.in_ch + c) * d.patch_h + y) * d.patch_w + x].widen_s(),
                    ),
                0,
                d.patch_w as int,
            ),
        forall|c: int|
            #[trigger] channel(c) == range_sum(|y: int| line(c, y), 0, d.patch_h as int),
    ensures
        ({
            let p = gy * (d.in_w as int / d.patch_w as int) + gx;
            let want = bias[h].widen_s().add_s(
                range_sum(|c: int| channel(c), 0, d.in_ch as int),
            );
            &&& embedded::<F, T>(d, image, weight, bias, p, h) == want
            &&& embedded_mma::<F, T>(d, image, weight, bias, p, h) == want
        }),
{
    let (ph, pw, ch) = (d.patch_h as int, d.patch_w as int, d.in_ch as int);
    let across = d.in_w as int / d.patch_w as int;
    let p = gy * across + gx;
    lemma_row_col(gy, gx, across);
    let plane = d.patch_plane();
    lemma_mul_le(1, ph, 1, pw);
    lemma_mul_le(0, ch, 0, plane);
    let n = d.patch_dim();
    let f = |k: int| image[d.pixel(p, k)].widen_s().mul_s(weight[h * n + k].widen_s());
    lemma_embed_fold::<F, T>(d, image, weight, p, h, bias[h].widen_s(), n as nat, f);
    let by_channel = |c: int| channel(c);
    assert forall|c: int| 0 <= c < ch implies #[trigger] by_channel(c) == range_sum(
        f,
        c * plane,
        c * plane + plane,
    ) by {
        let part = |k: int| f(k + c * plane);
        lemma_range_shift(part, f, 0, plane, c * plane);
        let by_line = |y: int| line(c, y);
        assert forall|y: int| 0 <= y < ph implies #[trigger] by_line(y) == range_sum(
            part,
            y * pw,
            y * pw + pw,
        ) by {
            let here = |x: int| part(x + y * pw);
            lemma_range_shift(here, part, 0, pw, y * pw);
            let want = |x: int|
                image[(c * d.in_h + (gy * d.patch_h + y)) * d.in_w + (gx * d.patch_w
                    + x)].widen_s().mul_s(
                    weight[((h * d.in_ch + c) * d.patch_h + y) * d.patch_w + x].widen_s(),
                );
            assert forall|x: int| 0 <= x < pw implies #[trigger] here(x) == want(x) by {
                lemma_patch_index(d, gy, gx, h, c, y, x);
            }
            lemma_range_congr(here, want, 0, pw);
            assert(line(c, y) == range_sum(want, 0, pw));
        }
        lemma_range_blocks(by_line, part, pw, ph);
        assert(ph * pw == plane);
        assert(channel(c) == range_sum(by_line, 0, ph));
    }
    lemma_range_blocks(by_channel, f, plane, ch);
    law_embeddings_agree::<F, T>(d, image, weight, bias, p, h);
}

/// Where pixel `(c, y, x)` of a patch, and its weight, stand.
proof fn lemma_patch_index(d: Patching, gy: int, gx: int, h: int, c: int, y: int, x: int)
    requires
        0 < d.patch_h,
        0 < d.patch_w,
        0 <= gx < d.in_w as int / d.patch_w as int,
        0 <= c < d.in_ch,
        0 <= y < d.patch_h,
        0 <= x < d.patch_w,
    ensures
        ({
            let k = x + y * d.patch_w + c * d.patch_plane();
            &&& d.pixel(gy * (d.in_w as int / d.patch_w as int) + gx, k) == (c * d.in_h + (gy
                * d.patch_h + y)) * d.in_w + (gx * d.patch_w + x)
            &&& h * d.patch_dim() + k == ((h * d.in_ch + c) * d.patch_h + y) * d.patch_w + x
        }),
{
    let (ph, pw) = (d.patch_h as int, d.patch_w as int);
    let plane = d.patch_plane();
    let k = x + y * pw + c * plane;
    lemma_row_col(gy, gx, d.in_w as int / d.patch_w as int);
    lemma_row(y, ph, pw);
    lemma_row_col(c, y * pw + x, plane);
    lemma_row_col(y, x, pw);
    assert(k == c * plane + (y * pw + x));
    let (ih, iw) = (d.in_h as int, d.in_w as int);
    assert(c * (ih * iw) + (gy * ph + y) * iw == (c * ih + (gy * ph + y)) * iw) by (nonlinear_arith);
    let ch = d.in_ch as int;
    assert(h * (ch * (ph * pw)) + c * (ph * pw) + y * pw == ((h * ch + c) * ph + y) * pw)
        by (nonlinear_arith);
}

} // verus!
