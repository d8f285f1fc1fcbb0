//! Patch embedding: cut an image into patches and project each onto the hidden
//! dimension, without materialising the patches.
use vstd::prelude::*;

use crate::index::{lemma_index_row, lemma_mul_le, lemma_row, lemma_row_col};
use crate::num::{Num, Store};

verus! {

/// Shape of a patch embedding of an image `[in_ch, in_h, in_w]`.
#[derive(Clone, Copy)]
pub struct Patching {
    pub in_ch: u32,
    pub in_h: u32,
    pub in_w: u32,
    pub patch_h: u32,
    pub patch_w: u32,
    pub hidden: u32,
}

impl Patching {
    pub open spec fn patches_w(self) -> int {
        self.in_w as int / self.patch_w as int
    }

    pub open spec fn patches_h(self) -> int {
        self.in_h as int / self.patch_h as int
    }

    pub open spec fn num_patches(self) -> int {
        self.patches_h() * self.patches_w()
    }

    pub open spec fn plane(self) -> int {
        self.in_h * self.in_w
    }

    pub open spec fn patch_plane(self) -> int {
        self.patch_h * self.patch_w
    }

    /// Pixels of a patch.
    pub open spec fn patch_dim(self) -> int {
        self.in_ch * self.patch_plane()
    }

    /// Index of pixel `kt` of patch `p` in the image. Patches are numbered row
    /// by row; the pixels of a patch by channel, row and column.
    pub open spec fn pixel(self, p: int, kt: int) -> int {
        let ic = kt / self.patch_plane();
        let py = (kt % self.patch_plane()) / self.patch_w as int;
        let px = (kt % self.patch_plane()) % self.patch_w as int;
        let py0 = (p / self.patches_w()) * self.patch_h;
        let px0 = (p % self.patches_w()) * self.patch_w;
        ic * self.plane() + (py0 + py) * self.in_w + (px0 + px)
    }

    /// Patches have pixels, and every index fits a machine word.
    pub open spec fn wf(self) -> bool {
        &&& 0 < self.patch_h
        &&& 0 < self.patch_w
        &&& self.in_ch * self.plane() <= 0xffff_ffff
        &&& self.hidden * self.patch_dim() <= 0xffff_ffff
        &&& self.num_patches() * self.hidden <= 0xffff_ffff
    }

    /// The buffers hold their tensors.
    pub open spec fn fits<T>(self, image: Seq<T>, weight: Seq<T>, bias: Seq<T>) -> bool {
        &&& self.in_ch * self.plane() <= image.len()
        &&& self.hidden * self.patch_dim() <= weight.len()
        &&& self.hidden <= bias.len()
    }
}

/// A pixel of a patch is a pixel of the image.
pub proof fn lemma_pixel(d: Patching, p: int, kt: int)
    requires
        0 < d.patch_h,
        0 < d.patch_w,
        0 <= p < d.num_patches(),
        0 <= kt < d.patch_dim(),
    ensures
        0 < d.patches_w(),
        0 <= p / d.patches_w() < d.patches_h(),
        0 <= p % d.patches_w() < d.patches_w(),
        0 < d.patch_plane(),
        0 <= kt / d.patch_plane() < d.in_ch,
        0 <= kt % d.patch_plane() < d.patch_plane(),
        0 <= (kt % d.patch_plane()) / d.patch_w as int,
        (kt % d.patch_plane()) / (d.patch_w as int) < d.patch_h,
        0 <= (kt % d.patch_plane()) % (d.patch_w as int) < d.patch_w,
        0 <= (p / d.patches_w()) * d.patch_h,
        (p / d.patches_w()) * d.patch_h + d.patch_h <= d.in_h,
        0 <= (p % d.patches_w()) * d.patch_w,
        (p % d.patches_w()) * d.patch_w + d.patch_w <= d.in_w,
        0 <= d.pixel(p, kt) < d.in_ch * d.plane(),
{
    let (ph, pw) = (d.patches_h(), d.patches_w());
    vstd::arithmetic::div_mod::lemma_div_pos_is_pos(d.in_h as int, d.patch_h as int);
    vstd::arithmetic::div_mod::lemma_div_pos_is_pos(d.in_w as int, d.patch_w as int);
    assert(0 < pw) by (nonlinear_arith)
        requires
            0 <= p < ph * pw,
            0 <= pw,
            0 <= ph,
    ;
    lemma_index_row(p, ph, pw);
    lemma_mul_le(1, d.patch_h as int, 1, d.patch_w as int);
    lemma_index_row(kt, d.in_ch as int, d.patch_plane());
    let rem = kt % d.patch_plane();
    lemma_index_row(rem, d.patch_h as int, d.patch_w as int);
    let (a, b) = (p / pw, p % pw);
    lemma_row(a, ph, d.patch_h as int);
    lemma_row(b, pw, d.patch_w as int);
    vstd::arithmetic::div_mod::lemma_fundamental_div_mod(d.in_h as int, d.patch_h as int);
    vstd::arithmetic::div_mod::lemma_mod_bound(d.in_h as int, d.patch_h as int);
    assert(d.patch_h * ph == ph * d.patch_h) by (nonlinear_arith);
    vstd::arithmetic::div_mod::lemma_fundamental_div_mod(d.in_w as int, d.patch_w as int);
    vstd::arithmetic::div_mod::lemma_mod_bound(d.in_w as int, d.patch_w as int);
    assert(d.patch_w * pw == pw * d.patch_w) by (nonlinear_arith);
    let y = a * d.patch_h + rem / d.patch_w as int;
    lemma_row(y, d.in_h as int, d.in_w as int);
    lemma_row(kt / d.patch_plane(), d.in_ch as int, d.plane());
}

/// `acc` plus the first `n` pixels of patch `p` times weight row `h`.
pub open spec fn embed_fold<F: Num, T: Store<F>>(
    d: Patching,
    image: Seq<T>,
    weight: Seq<T>,
    p: int,
    h: int,
    acc: F,
    n: nat,
) -> F
    decreases n,
{
    if n == 0 {
        acc
    } else {
        embed_fold::<F, T>(d, image, weight, p, h, acc, (n - 1) as nat).add_s(
            image[d.pixel(p, n - 1)].widen_s().mul_s(
                weight[h * d.patch_dim() + (n - 1)].widen_s(),
            ),
        )
    }
}

/// Patch `p` projected onto hidden unit `h`: the bias plus the dot product.
pub open spec fn embedded<F: Num, T: Store<F>>(
    d: Patching,
    image: Seq<T>,
    weight: Seq<T>,
    bias: Seq<T>,
    p: int,
    h: int,
) -> F {
    embed_fold::<F, T>(d, image, weight, p, h, bias[h].widen_s(), d.patch_dim() as nat)
}

/// Computes [`embedded`].
fn embed<F: Num, T: Store<F>>(
    d: Patching,
    image: &[T],
    weight: &[T],
    bias: &[T],
    p: u32,
    h: u32,
) -> (r: F)
    requires
        d.wf(),
        d.fits(image@, weight@, bias@),
        p < d.num_patches(),
        h < d.hidden,
    ensures
        r == embedded::<F, T>(d, image@, weight@, bias@, p as int, h as int),
{
    let mut acc = bias[h as usize].widen();
    let ghost first = acc;
    proof {
        lemma_mul_le(d.patch_h as int, 0xffff_ffff, d.patch_w as int, 0xffff_ffff);
    }
    let patch_plane: u64 = d.patch_h as u64 * d.patch_w as u64;
    let mut ic: u32 = 0;
    while ic < d.in_ch
        invariant
            ic <= d.in_ch,
            d.wf(),
            d.fits(image@, weight@, bias@),
            p < d.num_patches(),
            h < d.hidden,
            patch_plane == d.patch_plane(),
            acc == embed_fold::<F, T>(
                d,
                image@,
                weight@,
                p as int,
                h as int,
                first,
                (ic * patch_plane) as nat,
            ),
        decreases d.in_ch - ic,
    {
        proof {
            lemma_mul_le(1, d.patch_h as int, 1, d.patch_w as int);
            lemma_row(ic as int, d.in_ch as int, d.patch_plane());
            lemma_pixel(d, p as int, ic * patch_plane);
            lemma_row(h as int, d.hidden as int, d.patch_dim());
            lemma_row(ic as int, d.in_ch as int, d.plane());
            lemma_mul_le(1, d.in_ch as int, d.plane(), d.plane());
        }
        let patches_w: u32 = d.in_w / d.patch_w;
        let py0: u32 = (p / patches_w) * d.patch_h;
        let px0: u32 = (p % patches_w) * d.patch_w;
        let plane: u32 = d.in_h * d.in_w;
        let image_base: u32 = ic * plane;
        assert(d.patch_dim() <= d.hidden * d.patch_dim()) by {
            lemma_mul_le(1, d.hidden as int, d.patch_dim(), d.patch_dim());
        }
        let patch_dim: u32 = (d.in_ch as u64 * patch_plane) as u32;
        let weight_base: u32 = h * patch_dim;
        let weight_ic: u32 = (ic as u64 * patch_plane) as u32;
        let mut py: u32 = 0;
        assert(0 * d.patch_w == 0);
        while py < d.patch_h
            invariant
                py <= d.patch_h,
                ic < d.in_ch,
                d.wf(),
                d.fits(image@, weight@, bias@),
                p < d.num_patches(),
                h < d.hidden,
                patch_plane == d.patch_plane(),
                0 < d.patches_w(),
                py0 == (p as int / d.patches_w()) * d.patch_h,
                py0 + d.patch_h <= d.in_h,
                px0 == (p as int % d.patches_w()) * d.patch_w,
                px0 + d.patch_w <= d.in_w,
                image_base == ic * d.plane(),
                image_base + d.plane() <= d.in_ch * d.plane(),
                weight_base == h * d.patch_dim(),
                weight_base + d.patch_dim() <= d.hidden * d.patch_dim(),
                weight_ic == ic * d.patch_plane(),
                weight_ic + d.patch_plane() <= d.patch_dim(),
                acc == embed_fold::<F, T>(
                    d,
                    image@,
                    weight@,
                    p as int,
                    h as int,
                    first,
                    (weight_ic + py * d.patch_w) as nat,
                ),
            decreases d.patch_h - py,
        {
            proof {
                lemma_row(py as int, d.patch_h as int, d.patch_w as int);
                lemma_row(py0 + py, d.in_h as int, d.in_w as int);
            }
            let row: u32 = image_base + (py0 + py) * d.in_w;
            let weight_row: u32 = weight_base + weight_ic + py * d.patch_w;
            let mut px: u32 = 0;
            while px < d.patch_w
                invariant
                    px <= d.patch_w,
                    py < d.patch_h,
                    ic < d.in_ch,
                    d.wf(),
                    d.fits(image@, weight@, bias@),
                    patch_plane == d.patch_plane(),
                    py * d.patch_w + d.patch_w <= d.patch_plane(),
                    0 <= py * d.patch_w,
                    py0 == (p as int / d.patches_w()) * d.patch_h,
                    px0 == (p as int % d.patches_w()) * d.patch_w,
                    px0 + d.patch_w <= d.in_w,
                    row == ic * d.plane() + (py0 + py) * d.in_w,
                    row + d.in_w <= d.in_ch * d.plane(),
                    weight_base == h * d.patch_dim(),
                    weight_base + d.patch_dim() <= d.hidden * d.patch_dim(),
                    weight_ic == ic * d.patch_plane(),
                    weight_ic + d.patch_plane() <= d.patch_dim(),
                    weight_row == weight_base + weight_ic + py * d.patch_w,
                    acc == embed_fold::<F, T>(
                        d,
                        image@,
                        weight@,
                        p as int,
                        h as int,
                        first,
                        (weight_ic + py * d.patch_w + px) as nat,
                    ),
                decreases d.patch_w - px,
            {
                proof {
                    let rem = py * d.patch_w + px;
                    lemma_row_col(ic as int, rem, d.patch_plane());
                    lemma_row_col(py as int, px as int, d.patch_w as int);
                }
                let pix = image[(row + px0 + px) as usize].widen();
                let wt = weight[(weight_row + px) as usize].widen();
                acc = acc.add(pix.mul(wt));
                px += 1;
            }
            py += 1;
        }
        ic += 1;
    }
    acc
}

/// Embeds every patch of the image, one thread per output element.
pub fn patch_embed<F: Num, T: Store<F>>(
    image: &[T],
    weight: &[T],
    bias: &[T],
    out: &mut Vec<T>,
    in_ch: u32,
    in_h: u32,
    in_w: u32,
    patch_h: u32,
    patch_w: u32,
    hidden: u32,
)
    requires
        (Patching { in_ch, in_h, in_w, patch_h, patch_w, hidden }).wf(),
        (Patching { in_ch, in_h, in_w, patch_h, patch_w, hidden }).fits(image@, weight@, bias@),
        (Patching { in_ch, in_h, in_w, patch_h, patch_w, hidden }).num_patches() * hidden <= old(out)@.len(),
    ensures
        final(out)@.len() == old(out)@.len(),
        forall|i: int|
            0 <= i < old(out)@.len() ==> #[trigger] final(out)@[i] == (if i < (Patching {
                in_ch,
                in_h,
                in_w,
                patch_h,
                patch_w,
                hidden,
            }).num_patches() * hidden {
                T::narrow_s(
                    embedded::<F, T>(
                        (Patching { in_ch, in_h, in_w, patch_h, patch_w, hidden }),
                        image@,
                        weight@,
                        bias@,
                        i / hidden as int,
                        i % hidden as int,
                    ),
                )
            } else {
                old(out)@[i]
            }),
{
    let d = Patching { in_ch, in_h, in_w, patch_h, patch_w, hidden };
    let ghost before = out@;
    if hidden == 0 {
        assert(d.num_patches() * hidden == 0) by (nonlinear_arith)
            requires
                hidden == 0,
        ;
        return ;
    }
    proof {
        vstd::arithmetic::div_mod::lemma_div_pos_is_pos(in_h as int, patch_h as int);
        vstd::arithmetic::div_mod::lemma_div_pos_is_pos(in_w as int, patch_w as int);
        lemma_mul_le(0, d.patches_h(), 0, d.patches_w());
        lemma_mul_le(d.num_patches(), d.num_patches(), 1, hidden as int);
    }
    let num_patches: u32 = (in_h / patch_h) * (in_w / patch_w);
    let n: u32 = num_patches * hidden;
    let mut idx: u32 = 0;
    while idx < n
        invariant
            idx <= n,
            0 < hidden,
            d == (Patching { in_ch, in_h, in_w, patch_h, patch_w, hidden }),
            d.wf(),
            d.fits(image@, weight@, bias@),
            d.num_patches() * hidden <= before.len(),
            num_patches == d.num_patches(),
            n == num_patches * hidden,
            out@.len() == before.len(),
            forall|i: int|
                0 <= i < before.len() ==> #[trigger] out@[i] == (if i < idx {
                    T::narrow_s(
                        embedded::<F, T>(
                            d,
                            image@,
                            weight@,
                            bias@,
                            i / hidden as int,
                            i % hidden as int,
                        ),
                    )
                } else {
                    before[i]
                }),
        decreases n - idx,
    {
        proof {
            lemma_index_row(idx as int, num_patches as int, hidden as int);
        }
        let h: u32 = idx % hidden;
        let patch: u32 = idx / hidden;
        let acc: F = embed::<F, T>(d, image, weight, bias, patch, h);
        out.set(idx as usize, T::narrow(acc));
        idx += 1;
    }
}

/// Embeds every patch without narrowing the results.
pub fn naive_patch_embed<F: Num, T: Store<F>>(
    image: &[T],
    weight: &[T],
    bias: &[T],
    in_ch: u32,
    in_h: u32,
    in_w: u32,
    patch_h: u32,
    patch_w: u32,
    hidden: u32,
) -> (out: Vec<F>)
    requires
        (Patching { in_ch, in_h, in_w, patch_h, patch_w, hidden }).wf(),
        (Patching { in_ch, in_h, in_w, patch_h, patch_w, hidden }).fits(image@, weight@, bias@),
    ensures
        out@.len() == (Patching { in_ch, in_h, in_w, patch_h, patch_w, hidden }).num_patches()
            * hidden,
        forall|p: int, h: int|
            0 <= p < (Patching { in_ch, in_h, in_w, patch_h, patch_w, hidden }).num_patches() && 0
                <= h < hidden ==> #[trigger] out@[p * hidden + h] == embedded::<F, T>(
                (Patching { in_ch, in_h, in_w, patch_h, patch_w, hidden }),
                image@,
                weight@,
                bias@,
                p,
                h,
            ),
{
    let d = Patching { in_ch, in_h, in_w, patch_h, patch_w, hidden };
    if hidden == 0 {
        assert(d.num_patches() * hidden == 0) by (nonlinear_arith)
            requires
                hidden == 0,
        ;
        return Vec::new();
    }
    proof {
        vstd::arithmetic::div_mod::lemma_div_pos_is_pos(in_h as int, patch_h as int);
        vstd::arithmetic::div_mod::lemma_div_pos_is_pos(in_w as int, patch_w as int);
        lemma_mul_le(0, d.patches_h(), 0, d.patches_w());
        lemma_mul_le(d.num_patches(), d.num_patches(), 1, hidden as int);
    }
    let num_patches: u32 = (in_h / patch_h) * (in_w / patch_w);
    let n: u32 = num_patches * hidden;
    let mut out: Vec<F> = Vec::new();
    let mut idx: u32 = 0;
    while idx < n
        invariant
            idx <= n,
            d.hidden == hidden,
            0 < hidden,
            d.wf(),
            d.fits(image@, weight@, bias@),
            num_patches == d.num_patches(),
            n == num_patches * hidden,
            out@.len() == idx,
            forall|i: int|
                0 <= i < idx ==> #[trigger] out@[i] == embedded::<F, T>(
                    d,
                    image@,
                    weight@,
                    bias@,
                    i / hidden as int,
                    i % hidden as int,
                ),
        decreases n - idx,
    {
        proof {
            lemma_index_row(idx as int, num_patches as int, hidden as int);
        }
        out.push(embed::<F, T>(d, image, weight, bias, idx / hidden, idx % hidden));
        idx += 1;
    }
    proof {
        assert forall|p: int, h: int|
            0 <= p < num_patches && 0 <= h < hidden implies #[trigger] out@[p * hidden + h]
            == embedded::<F, T>(d, image@, weight@, bias@, p, h) by {
            lemma_row_col(p, h, hidden as int);
            lemma_row(p, num_patches as int, hidden as int);
        }
    }
    out
}

/// Patches tile the image: as many whole ones as fit down and across, and their
/// pixels are those of every channel.
pub proof fn law_patches_tile_the_image(d: Patching, down: int, across: int)
    requires
        0 < d.patch_h,
        0 < d.patch_w,
        0 <= down,
        0 <= across,
        down * d.patch_h <= d.in_h < (down + 1) * d.patch_h,
        across * d.patch_w <= d.in_w < (across + 1) * d.patch_w,
    ensures
        d.num_patches() == down * across,
        d.patch_dim() == d.in_ch * (d.patch_h * d.patch_w),
{
    let (ph, pw) = (d.patch_h as int, d.patch_w as int);
    assert((down + 1) * ph == down * ph + ph) by (nonlinear_arith);
    assert((across + 1) * pw == across * pw + pw) by (nonlinear_arith);
    lemma_row_col(down, d.in_h - down * ph, ph);
    lemma_row_col(across, d.in_w - across * pw, pw);
}

} // verus!
