//! Texture data: mip chain length, palette textures expanded to RGBA8,
//! the placeholder for missing textures, and the mipmap blit plan.

use vstd::prelude::*;

verus! {

/// The number of levels of a full mip chain for a largest side of `m`:
/// `floor(log2(m)) + 1`, and one level for an empty texture.
pub open spec fn spec_mip_count(m: nat) -> nat
    decreases m,
{
    if m <= 1 {
        1
    } else {
        1 + spec_mip_count(m / 2)
    }
}

/// `2` to the power `n`.
pub open spec fn pow2(n: nat) -> nat
    decreases n,
{
    if n == 0 {
        1
    } else {
        2 * pow2((n - 1) as nat)
    }
}

/// The number of mip levels of a `width` by `height` texture.
pub fn calculate_mipmap_count(width: u32, height: u32) -> (res: u32)
    ensures
        res == spec_mip_count(if width >= height { width as nat } else { height as nat }),
{
    let m = if width >= height { width } else { height };
    let mut v = m;
    let mut n: u32 = 1;
    proof {
        assert(pow2(0) == 1);
        assert(m as nat / 1 == m as nat);
    }
    while v > 1
        invariant
            1 <= n <= 32,
            v <= m,
            n + spec_mip_count(v as nat) - 1 == spec_mip_count(m as nat),
            v as nat <= (m as nat) / pow2((n - 1) as nat),
        decreases v,
    {
        proof {
            lemma_div_pow2_step(m as nat, (n - 1) as nat);
            lemma_pow2_bound((n - 1) as nat, m as nat, v as nat);
        }
        v = v / 2;
        n = n + 1;
    }
    n
}

/// Halving the quotient by `2^k` once more is dividing by `2^(k+1)`.
proof fn lemma_div_pow2_step(m: nat, k: nat)
    ensures
        (m / pow2(k)) / 2 == m / pow2(k + 1),
{
    lemma_pow2_positive(k);
    assert(pow2(k + 1) == 2 * pow2(k));
    vstd::arithmetic::div_mod::lemma_div_denominator(m as int, pow2(k) as int, 2);
    assert(pow2(k) * 2 == 2 * pow2(k)) by (nonlinear_arith);
}

/// Powers of two are positive.
proof fn lemma_pow2_positive(k: nat)
    ensures
        pow2(k) >= 1,
    decreases k,
{
    if k > 0 {
        lemma_pow2_positive((k - 1) as nat);
    }
}

/// A 32-bit value that is still above one after `k` halvings means `k`
/// is below 31.
proof fn lemma_pow2_bound(k: nat, m: nat, v: nat)
    requires
        m < 0x1_0000_0000,
        v <= m / pow2(k),
        v > 1,
    ensures
        k < 31,
{
    if k >= 31 {
        lemma_pow2_monotone(31, k);
        assert(pow2(31) == 0x8000_0000) by {
            reveal_with_fuel(pow2, 32);
        }
        lemma_pow2_positive(k);
        vstd::arithmetic::div_mod::lemma_div_is_ordered_by_denominator(m as int, 0x8000_0000, pow2(k) as int);
        assert(m / 0x8000_0000 <= 1);
    }
}

/// Larger exponents give larger powers.
proof fn lemma_pow2_monotone(a: nat, b: nat)
    requires
        a <= b,
    ensures
        pow2(a) <= pow2(b),
    decreases b,
{
    if a < b {
        lemma_pow2_monotone(a, (b - 1) as nat);
        lemma_pow2_positive((b - 1) as nat);
    }
}

/// The mip count `n` of a nonzero side `m` brackets it between
/// `2^(n-1)` and `2^n`: it is `floor(log2(m)) + 1`.
pub proof fn lemma_mip_count_log2(m: nat)
    requires
        m >= 1,
    ensures
        pow2((spec_mip_count(m) - 1) as nat) <= m < pow2(spec_mip_count(m)),
    decreases m,
{
    if m >= 2 {
        lemma_mip_count_log2(m / 2);
        let k = spec_mip_count(m / 2);
        assert(spec_mip_count(m) == 1 + k);
        assert(pow2(k) == 2 * pow2((k - 1) as nat)) by {
            assert(k >= 1);
        }
        assert(pow2(k + 1) == 2 * pow2(k));
    }
}

/// How many times `x` occurs in `s`.
pub open spec fn count_of(s: Seq<u8>, x: u8) -> nat
    decreases s.len(),
{
    if s.len() == 0 {
        0
    } else {
        count_of(s.drop_last(), x) + if s.last() == x { 1nat } else { 0nat }
    }
}

/// `x` occurs in `s` at least as often as any other value.
pub open spec fn is_mode(s: Seq<u8>, x: u8) -> bool {
    count_of(s, x) >= 1 && forall|y: u8| count_of(s, x) >= #[trigger] count_of(s, y)
}

/// `x` occurs in `s` more often than any other value.
pub open spec fn is_unique_mode(s: Seq<u8>, x: u8) -> bool {
    count_of(s, x) >= 1 && forall|y: u8| y != x ==> count_of(s, x) > #[trigger] count_of(s, y)
}

/// A value that occurs in `a` at least as often as any other. Which of
/// several equally frequent values comes out is not fixed.
pub fn most_repeating_number(a: &[u8]) -> (res: u8)
    requires
        a@.len() > 0,
    ensures
        is_mode(a@, res),
{
    let mut counts: Vec<usize> = Vec::new();
    let mut v: usize = 0;
    while v < 256
        invariant
            v <= 256,
            counts@.len() == v,
            forall|j: int| 0 <= j < v ==> counts@[j] == 0,
        decreases 256 - v,
    {
        counts.push(0);
        v = v + 1;
    }
    let mut i: usize = 0;
    proof {
        assert(a@.take(0) =~= Seq::<u8>::empty());
    }
    while i < a.len()
        invariant
            i <= a@.len(),
            counts@.len() == 256,
            forall|y: u8| #[trigger] counts@[y as int] == count_of(a@.take(i as int), y),
            forall|y: u8| #[trigger] count_of(a@.take(i as int), y) <= i,
        decreases a@.len() - i,
    {
        let x = a[i];
        proof {
            assert(a@.take(i + 1).drop_last() =~= a@.take(i as int));
            assert(a@.take(i + 1).last() == x);
            assert(counts@[x as int] == count_of(a@.take(i as int), x));
        }
        let c = counts[x as usize];
        let ghost before = counts@;
        counts.set(x as usize, c + 1);
        proof {
            assert forall|y: u8| #[trigger] counts@[y as int] == count_of(a@.take(i + 1), y) by {
                if y != x {
                    assert(counts@[y as int] == before[y as int]) by {
                        assert((y as int) != (x as int));
                    }
                }
            }
            assert forall|y: u8| #[trigger] count_of(a@.take(i + 1), y) <= i + 1 by {
                assert(count_of(a@.take(i as int), y) <= i);
                assert(count_of(a@.take(i + 1), y) <= count_of(a@.take(i as int), y) + 1);
            }
        }
        i = i + 1;
    }
    proof {
        assert(a@.take(a@.len() as int) =~= a@);
    }
    let mut best: u8 = a[0];
    let mut best_count: usize = counts[a[0] as usize];
    proof {
        lemma_count_positive(a@, 0);
    }
    let mut y: usize = 0;
    while y < 256
        invariant
            y <= 256,
            counts@.len() == 256,
            forall|z: u8| #[trigger] counts@[z as int] == count_of(a@, z),
            best_count == count_of(a@, best),
            best_count >= 1,
            forall|z: u8| (z as int) < y ==> best_count >= #[trigger] count_of(a@, z),
        decreases 256 - y,
    {
        let cy = counts[y];
        proof {
            assert(counts@[(y as u8) as int] == count_of(a@, y as u8));
        }
        if cy > best_count {
            best_count = cy;
            best = y as u8;
        }
        proof {
            assert forall|z: u8| (z as int) < y + 1 implies best_count >= #[trigger] count_of(a@, z) by {
                if (z as int) == y {
                    assert(z == y as u8);
                }
            }
        }
        y = y + 1;
    }
    best
}

/// A value at index `k` of `s` occurs in `s`.
pub proof fn lemma_count_positive(s: Seq<u8>, k: int)
    requires
        0 <= k < s.len(),
    ensures
        count_of(s, s[k]) >= 1,
    decreases s.len(),
{
    if k < s.len() - 1 {
        lemma_count_positive(s.drop_last(), k);
        assert(s.drop_last()[k] == s[k]);
    }
}

/// An RGBA image with 8 bits per channel, stored row by row.
pub struct Rgba8Image {
    pub width: u32,
    pub height: u32,
    /// Four bytes per pixel, red, green, blue and alpha.
    pub data: Vec<u8>,
}

impl Rgba8Image {
    /// The buffer holds at least one RGBA pixel for each of the
    /// `width * height` pixels.
    pub open spec fn wf(&self) -> bool {
        self.data@.len() >= 4 * (self.width as int) * (self.height as int)
    }
}

/// The RGBA bytes of one palette pixel: a masked index 255 is fully
/// transparent black; any other index gives its palette color with the
/// override alpha, or 255.
pub open spec fn spec_palette_pixel(idx: u8, palette: Seq<[u8; 3]>, override_alpha: Option<u8>, masked: bool) -> Seq<u8> {
    let color = palette[idx as int];
    let is_blue = color@ == seq![0u8, 0u8, 255u8];
    if idx == 255 && (masked || is_blue) {
        seq![0u8, 0u8, 0u8, 0u8]
    } else {
        seq![color@[0], color@[1], color@[2], match override_alpha { Some(a) => a, None => 255u8 }]
    }
}

/// The RGBA bytes of a palette image, pixel after pixel.
pub open spec fn spec_palette_pixels(img: Seq<u8>, palette: Seq<[u8; 3]>, override_alpha: Option<u8>, masked: bool) -> Seq<u8>
    decreases img.len(),
{
    if img.len() == 0 {
        Seq::empty()
    } else {
        spec_palette_pixels(img.drop_last(), palette, override_alpha, masked)
            + spec_palette_pixel(img.last(), palette, override_alpha, masked)
    }
}

/// The pixels of a palette image, four bytes each, in image order.
proof fn lemma_palette_pixels_at(img: Seq<u8>, palette: Seq<[u8; 3]>, override_alpha: Option<u8>, masked: bool)
    ensures
        spec_palette_pixels(img, palette, override_alpha, masked).len() == 4 * img.len(),
        forall|i: int, c: int| 0 <= i < img.len() && 0 <= c < 4 ==>
            #[trigger] spec_palette_pixels(img, palette, override_alpha, masked)[4 * i + c]
                == spec_palette_pixel(img[i], palette, override_alpha, masked)[c],
    decreases img.len(),
{
    if img.len() > 0 {
        let init = img.drop_last();
        lemma_palette_pixels_at(init, palette, override_alpha, masked);
        let all = spec_palette_pixels(img, palette, override_alpha, masked);
        let prev = spec_palette_pixels(init, palette, override_alpha, masked);
        let last = spec_palette_pixel(img.last(), palette, override_alpha, masked);
        assert(all == prev + last);
        assert forall|i: int, c: int| 0 <= i < img.len() && 0 <= c < 4 implies
            #[trigger] all[4 * i + c] == spec_palette_pixel(img[i], palette, override_alpha, masked)[c] by {
            if i < img.len() - 1 {
                assert(init[i] == img[i]);
                assert(all[4 * i + c] == prev[4 * i + c]);
            } else {
                assert(all[4 * i + c] == last[c]);
            }
        }
    }
}

/// In a masked palette image every pixel of index 255 is transparent
/// black, whatever its palette color; a pixel of another index is its
/// palette color with the override alpha, or opaque.
pub proof fn lemma_masked_index_transparent(
    img: Seq<u8>,
    palette: Seq<[u8; 3]>,
    override_alpha: Option<u8>,
    masked: bool,
    i: int,
)
    requires
        0 <= i < img.len(),
    ensures
        spec_palette_pixels(img, palette, override_alpha, masked).len() == 4 * img.len(),
        masked && img[i] == 255 ==> {
            let px = spec_palette_pixels(img, palette, override_alpha, masked);
            &&& px[4 * i] == 0 && px[4 * i + 1] == 0 && px[4 * i + 2] == 0 && px[4 * i + 3] == 0
        },
        img[i] != 255 ==> {
            let px = spec_palette_pixels(img, palette, override_alpha, masked);
            &&& px[4 * i] == palette[img[i] as int][0]
            &&& px[4 * i + 1] == palette[img[i] as int][1]
            &&& px[4 * i + 2] == palette[img[i] as int][2]
            &&& px[4 * i + 3] == (match override_alpha { Some(a) => a, None => 255u8 })
        },
{
    lemma_palette_pixels_at(img, palette, override_alpha, masked);
    let px = spec_palette_pixels(img, palette, override_alpha, masked);
    assert(px[4 * i + 0] == spec_palette_pixel(img[i], palette, override_alpha, masked)[0]);
    assert(px[4 * i + 1] == spec_palette_pixel(img[i], palette, override_alpha, masked)[1]);
    assert(px[4 * i + 2] == spec_palette_pixel(img[i], palette, override_alpha, masked)[2]);
    assert(px[4 * i + 3] == spec_palette_pixel(img[i], palette, override_alpha, masked)[3]);
}

/// Expands an 8-bit palette image to RGBA. An image whose most frequent
/// index is 255 is taken to be masked: its index 255 becomes transparent;
/// so does index 255 wherever its palette color is pure blue.
pub fn eightbpp_to_rgba8(
    img: &[u8],
    palette: &[[u8; 3]],
    width: u32,
    height: u32,
    override_alpha: Option<u8>,
) -> (res: Rgba8Image)
    requires
        img@.len() > 0,
        (width as int) * (height as int) <= img@.len(),
        4 * img@.len() <= usize::MAX,
        forall|i: int| 0 <= i < img@.len() ==> (img@[i] as int) < palette@.len(),
    ensures
        res.wf(),
        res.width == width,
        res.height == height,
        exists|masked: bool| {
            &&& (masked ==> is_mode(img@, 255))
            &&& (is_unique_mode(img@, 255) ==> masked)
            &&& res.data@ == spec_palette_pixels(img@, palette@, override_alpha, masked)
        },
        res.data@.len() == 4 * img@.len(),
        forall|i: int| 0 <= i < img@.len() && is_unique_mode(img@, 255) && #[trigger] img@[i] == 255 ==> {
            &&& res.data@[4 * i] == 0 && res.data@[4 * i + 1] == 0
            &&& res.data@[4 * i + 2] == 0 && res.data@[4 * i + 3] == 0
        },
        forall|i: int| 0 <= i < img@.len() && #[trigger] img@[i] != 255 ==> {
            &&& res.data@[4 * i] == palette@[img@[i] as int][0]
            &&& res.data@[4 * i + 1] == palette@[img@[i] as int][1]
            &&& res.data@[4 * i + 2] == palette@[img@[i] as int][2]
            &&& res.data@[4 * i + 3] == (match override_alpha { Some(a) => a, None => 255u8 })
        },
{
    let mode = most_repeating_number(img);
    let masked = mode == 255;
    proof {
        if is_unique_mode(img@, 255) && !masked {
            assert(count_of(img@, 255) > count_of(img@, mode));
            assert(count_of(img@, mode) >= count_of(img@, 255));
        }
    }
    let alpha: u8 = match override_alpha {
        Some(a) => a,
        None => 255,
    };
    let mut data: Vec<u8> = Vec::new();
    let mut i: usize = 0;
    proof {
        assert(img@.take(0) =~= Seq::<u8>::empty());
    }
    while i < img.len()
        invariant
            i <= img@.len(),
            4 * img@.len() <= usize::MAX,
            forall|j: int| 0 <= j < img@.len() ==> (img@[j] as int) < palette@.len(),
            alpha == match override_alpha { Some(a) => a, None => 255u8 },
            data@ == spec_palette_pixels(img@.take(i as int), palette@, override_alpha, masked),
            data@.len() == 4 * i,
        decreases img@.len() - i,
    {
        let idx = img[i];
        let color = palette[idx as usize];
        let is_blue = color[0] == 0 && color[1] == 0 && color[2] == 255;
        proof {
            assert(img@.take(i + 1).drop_last() =~= img@.take(i as int));
            assert(img@.take(i + 1).last() == idx);
            assert(is_blue == (color@ =~= seq![0u8, 0u8, 255u8]));
        }
        let ghost old_data = data@;
        if idx == 255 && (masked || is_blue) {
            data.push(0);
            data.push(0);
            data.push(0);
            data.push(0);
        } else {
            data.push(color[0]);
            data.push(color[1]);
            data.push(color[2]);
            data.push(alpha);
        }
        proof {
            assert(data@ =~= old_data + spec_palette_pixel(idx, palette@, override_alpha, masked));
        }
        i = i + 1;
    }
    proof {
        assert(img@.take(img@.len() as int) =~= img@);
        assert forall|i: int| 0 <= i < img@.len() && is_unique_mode(img@, 255) && #[trigger] img@[i] == 255 implies {
            &&& data@[4 * i] == 0 && data@[4 * i + 1] == 0
            &&& data@[4 * i + 2] == 0 && data@[4 * i + 3] == 0
        } by {
            lemma_masked_index_transparent(img@, palette@, override_alpha, masked, i);
        }
        assert forall|i: int| 0 <= i < img@.len() && #[trigger] img@[i] != 255 implies {
            &&& data@[4 * i] == palette@[img@[i] as int][0]
            &&& data@[4 * i + 1] == palette@[img@[i] as int][1]
            &&& data@[4 * i + 2] == palette@[img@[i] as int][2]
            &&& data@[4 * i + 3] == (match override_alpha { Some(a) => a, None => 255u8 })
        } by {
            lemma_masked_index_transparent(img@, palette@, override_alpha, masked, i);
        }
        assert(4 * (width as int) * (height as int) <= 4 * img@.len()) by (nonlinear_arith)
            requires (width as int) * (height as int) <= img@.len();
    }
    Rgba8Image { width, height, data }
}

/// Whether pixel `(x, y)` of the missing texture placeholder is magenta:
/// the texture is a checkerboard of 16 by 16 squares.
pub open spec fn placeholder_is_magenta(x: int, y: int) -> bool {
    (x / 16 + y / 16) % 2 == 0
}

/// The RGBA bytes of pixel `(x, y)` of the placeholder: opaque magenta or
/// opaque black.
pub open spec fn placeholder_pixel(x: int, y: int) -> Seq<u8> {
    if placeholder_is_magenta(x, y) {
        seq![255u8, 0u8, 255u8, 255u8]
    } else {
        seq![0u8, 0u8, 0u8, 255u8]
    }
}

/// A magenta and black checkerboard of 16 by 16 squares, shown where a
/// texture cannot be found.
pub fn create_missing_texture_placeholder(width: u32, height: u32) -> (res: Rgba8Image)
    requires
        4 * (width as int) * (height as int) <= usize::MAX,
    ensures
        res.wf(),
        res.width == width,
        res.height == height,
        res.data@.len() == 4 * (width as int) * (height as int),
        forall|y: int, x: int| 0 <= y < height && 0 <= x < width ==>
            #[trigger] res.data@.subrange(4 * (y * width + x), 4 * (y * width + x) + 4) == placeholder_pixel(x, y),
{
    let mut data: Vec<u8> = Vec::new();
    let mut y: u32 = 0;
    while y < height
        invariant
            y <= height,
            4 * (width as int) * (height as int) <= usize::MAX,
            data@.len() == 4 * (y as int) * (width as int),
            forall|yy: int, x: int| 0 <= yy < y && 0 <= x < width ==>
                #[trigger] data@.subrange(4 * (yy * width + x), 4 * (yy * width + x) + 4) == placeholder_pixel(x, yy),
        decreases height - y,
    {
        let mut x: u32 = 0;
        let ghost row_start = data@.len();
        proof {
            assert(row_start == 4 * ((y as int) * (width as int))) by (nonlinear_arith)
                requires row_start == 4 * (y as int) * (width as int);
            assert((y as int + 1) * (width as int) <= (height as int) * (width as int)) by (nonlinear_arith)
                requires y < height;
        }
        while x < width
            invariant
                y < height,
                x <= width,
                4 * (width as int) * (height as int) <= usize::MAX,
                (y as int + 1) * (width as int) <= (height as int) * (width as int),
                row_start == 4 * ((y as int) * (width as int)),
                data@.len() == row_start + 4 * (x as int),
                forall|yy: int, xx: int| 0 <= yy < y && 0 <= xx < width ==>
                    #[trigger] data@.subrange(4 * (yy * width + xx), 4 * (yy * width + xx) + 4) == placeholder_pixel(xx, yy),
                forall|xx: int| 0 <= xx < x ==>
                    #[trigger] data@.subrange(row_start + 4 * xx, row_start + 4 * xx + 4) == placeholder_pixel(xx, y as int),
            decreases width - x,
        {
            let magenta = (x / 16 + y / 16) % 2 == 0;
            let ghost old_data = data@;
            proof {
                assert(data@.len() + 4 <= usize::MAX) by (nonlinear_arith)
                    requires
                        data@.len() == row_start + 4 * (x as int),
                        row_start == 4 * ((y as int) * (width as int)),
                        x < width,
                        (y as int + 1) * (width as int) <= (height as int) * (width as int),
                        4 * (width as int) * (height as int) <= usize::MAX;
            }
            if magenta {
                data.push(255);
                data.push(0);
                data.push(255);
                data.push(255);
            } else {
                data.push(0);
                data.push(0);
                data.push(0);
                data.push(255);
            }
            proof {
                assert(data@.subrange(0, old_data.len() as int) =~= old_data);
                assert(data@.subrange(row_start + 4 * x, row_start + 4 * x + 4) =~= placeholder_pixel(x as int, y as int));
                assert forall|yy: int, xx: int| 0 <= yy < y && 0 <= xx < width implies
                    #[trigger] data@.subrange(4 * (yy * width + xx), 4 * (yy * width + xx) + 4) == placeholder_pixel(xx, yy) by {
                    assert(yy * width + xx + 1 <= y * width) by (nonlinear_arith)
                        requires 0 <= yy < y, 0 <= xx < width;
                    assert(data@.subrange(4 * (yy * width + xx), 4 * (yy * width + xx) + 4)
                        =~= old_data.subrange(4 * (yy * width + xx), 4 * (yy * width + xx) + 4));
                }
                assert forall|xx: int| 0 <= xx < x + 1 implies
                    #[trigger] data@.subrange(row_start + 4 * xx, row_start + 4 * xx + 4) == placeholder_pixel(xx, y as int) by {
                    if xx < x {
                        assert(data@.subrange(row_start + 4 * xx, row_start + 4 * xx + 4)
                            =~= old_data.subrange(row_start + 4 * xx, row_start + 4 * xx + 4));
                    }
                }
            }
            x = x + 1;
        }
        proof {
            assert forall|yy: int, xx: int| 0 <= yy < y + 1 && 0 <= xx < width implies
                #[trigger] data@.subrange(4 * (yy * width + xx), 4 * (yy * width + xx) + 4) == placeholder_pixel(xx, yy) by {
                if yy == y {
                    assert(4 * (yy * width + xx) == row_start + 4 * xx) by (nonlinear_arith)
                        requires yy == y, row_start == 4 * ((y as int) * (width as int));
                }
            }
            assert(data@.len() == 4 * (y as int + 1) * (width as int)) by (nonlinear_arith)
                requires data@.len() == row_start + 4 * (width as int), row_start == 4 * ((y as int) * (width as int));
        }
        y = y + 1;
    }
    proof {
        assert(data@.len() == 4 * (width as int) * (height as int)) by (nonlinear_arith)
            requires data@.len() == 4 * (y as int) * (width as int), y == height;
    }
    Rgba8Image { width, height, data }
}

/// Parameters of one mipmap generation pass: the layer of the texture
/// array, padded to sixteen bytes.
pub struct LayerUniform {
    pub layer: u32,
    pub _padding: [u32; 3],
}

/// The uniform for a pass over `layer`.
pub fn layer_uniform(layer: u32) -> (res: LayerUniform)
    ensures
        res.layer == layer,
        res._padding@ == seq![0u32, 0u32, 0u32],
{
    let res = LayerUniform { layer, _padding: [0, 0, 0] };
    proof {
        assert(res._padding@ =~= seq![0u32, 0u32, 0u32]);
    }
    res
}

/// One blit of mipmap generation: `(layer, source level, destination level)`.
pub open spec fn spec_blit_plan(layers: nat, mip_levels: nat) -> Seq<(u32, u32, u32)>
    decreases layers,
{
    if layers == 0 {
        Seq::empty()
    } else {
        spec_blit_plan((layers - 1) as nat, mip_levels) + spec_layer_blits((layers - 1) as nat, mip_levels)
    }
}

/// The blits of one layer: each level from 1 on is drawn from the one
/// before it.
pub open spec fn spec_layer_blits(layer: nat, mip_levels: nat) -> Seq<(u32, u32, u32)> {
    Seq::new(if mip_levels >= 1 { (mip_levels - 1) as nat } else { 0 }, |j: int| (layer as u32, j as u32, (j + 1) as u32))
}

/// The order in which mipmaps of a texture array are generated: layer by
/// layer, each level drawn from the level above it.
pub fn mipmap_blit_plan(array_layer_count: u32, mip_level_count: u32) -> (res: Vec<(u32, u32, u32)>)
    ensures
        res@ == spec_blit_plan(array_layer_count as nat, mip_level_count as nat),
{
    let mut res: Vec<(u32, u32, u32)> = Vec::new();
    let mut layer: u32 = 0;
    while layer < array_layer_count
        invariant
            layer <= array_layer_count,
            res@ == spec_blit_plan(layer as nat, mip_level_count as nat),
        decreases array_layer_count - layer,
    {
        let ghost before = res@;
        let mut mip: u32 = 1;
        while mip < mip_level_count
            invariant
                1 <= mip,
                mip_level_count == 0 ==> mip == 1,
                mip_level_count >= 1 ==> mip <= mip_level_count,
                res@ == before + spec_layer_blits(layer as nat, mip_level_count as nat).take((mip - 1) as int),
            decreases mip_level_count - mip,
        {
            res.push((layer, mip - 1, mip));
            proof {
                assert(spec_layer_blits(layer as nat, mip_level_count as nat).take(mip as int)
                    =~= spec_layer_blits(layer as nat, mip_level_count as nat).take((mip - 1) as int).push((layer, (mip - 1) as u32, mip)));
            }
            mip = mip + 1;
        }
        proof {
            let lb = spec_layer_blits(layer as nat, mip_level_count as nat);
            assert(lb.take(lb.len() as int) =~= lb);
            if mip_level_count == 0 {
                assert(lb.len() == 0);
                assert(lb.take((mip - 1) as int) =~= lb);
            } else {
                assert(mip == mip_level_count);
            }
        }
        layer = layer + 1;
    }
    res
}

} // verus!
