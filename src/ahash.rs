use crate::grid::{GridModel, PixelGrid, Rgba};
use vstd::arithmetic::power2::{lemma2_to64, lemma_pow2_unfold, pow2};
use vstd::prelude::*;
use vstd::string::*;

verus! {

/// Side of the sample grid when the caller gives none.
pub const DEFAULT_HASH_SIZE: u32 = 8;

/// Largest side whose square still fits the 64-bit pattern.
pub const MAX_HASH_SIZE: u32 = 8;

/// Why a fingerprint could not be computed.
#[derive(Clone, Copy, Debug, PartialEq, Eq, Structural)]
pub enum HashError {
    /// The side is zero, or its square exceeds the 64 bits of the pattern.
    InvalidHashSize,
}

/// Luma of a sample with the Rec. 709 weights, alpha ignored.
pub open spec fn luma(p: Rgba) -> int {
    (2126 * p.r + 7152 * p.g + 722 * p.b) / 10000
}

/// The luma of every sample, in order.
pub open spec fn luma_samples(g: GridModel) -> Seq<u8> {
    g.pixels.map_values(|p: Rgba| luma(p) as u8)
}

/// The `side` x `side` resampling of a `width` x `height` one-byte image.
pub uninterp spec fn resampled_of(gray: Seq<u8>, width: nat, height: nat, side: nat) -> Seq<u8>;

/// Relies on `image::imageops::grayscale` over an RGBA buffer: each sample
/// becomes `(2126 r + 7152 g + 722 b) / 10000`, in the same row-major order.
/// `RgbaImage::from_raw` accepts the buffer, which holds exactly four bytes
/// per sample.
#[verifier::external_body]
fn grayscale(img: &PixelGrid) -> (r: Option<Vec<u8>>)
    requires
        img.wf(),
    ensures
        r is Some,
        r matches Some(v) ==> v@ == luma_samples(img@),
{
    let raw: Vec<u8> = img.pixels.iter().flat_map(|p| [p.r, p.g, p.b, p.a]).collect();
    let rgba = image::RgbaImage::from_raw(img.width, img.height, raw)?;
    Some(image::imageops::grayscale(&rgba).into_raw())
}

/// Relies on `fast_image_resize::Resizer::resize` with its default options
/// (convolution with a Lanczos3 filter) from a `width` x `height` one-byte
/// image into a new `side` x `side` one, returned row by row. A buffer of
/// the right size is always accepted (one-byte samples need no alignment).
/// The crate's own tests expect the same one-byte Lanczos3 output on every
/// CPU extension, so the result depends on the arguments alone. When the
/// sizes already agree the image is copied unchanged.
#[verifier::external_body]
fn resample(gray: &Vec<u8>, width: u32, height: u32, side: u32) -> (r: Option<Vec<u8>>)
    requires
        gray@.len() == width * height,
    ensures
        r is Some,
        r matches Some(v) ==> v@ == resampled_of(gray@, width as nat, height as nat, side as nat),
        r matches Some(v) ==> v@.len() == side * side,
        r matches Some(v) ==> (width == side && height == side ==> v@ == gray@),
{
    let kind = fast_image_resize::PixelType::U8;
    let src = fast_image_resize::images::ImageRef::new(width, height, gray, kind).ok()?;
    let mut dst = fast_image_resize::images::Image::new(side, side, kind);
    fast_image_resize::Resizer::new().resize(&src, &mut dst, None).ok()?;
    Some(dst.into_vec())
}

/// Sum of the first `k` samples.
pub open spec fn sample_sum(s: Seq<u8>, k: nat) -> int
    decreases k,
{
    if k == 0 {
        0
    } else {
        sample_sum(s, (k - 1) as nat) + s[k - 1]
    }
}

/// Integer mean of the samples, rounded down.
pub open spec fn sample_mean(s: Seq<u8>) -> int {
    sample_sum(s, s.len()) / (s.len() as int)
}

/// The pattern whose bit `i` (for `i < k`) is set when sample `i` is at least
/// `avg`.
pub open spec fn bit_pattern(s: Seq<u8>, avg: int, k: nat) -> nat
    decreases k,
{
    if k == 0 {
        0
    } else {
        bit_pattern(s, avg, (k - 1) as nat) + if s[k - 1] >= avg {
            pow2((k - 1) as nat)
        } else {
            0
        }
    }
}

/// The lowercase hexadecimal digit of `d`, for `d < 16`.
pub open spec fn hex_char(d: int) -> char {
    "0123456789abcdef"@[d]
}

/// The `w` low hexadecimal digits of `v`, most significant first.
pub open spec fn hex_text(v: nat, w: nat) -> Seq<char>
    decreases w,
{
    if w == 0 {
        Seq::empty()
    } else {
        hex_text(v / 16, (w - 1) as nat).push(hex_char((v % 16) as int))
    }
}

/// A lowercase hexadecimal digit.
pub open spec fn is_lower_hex_digit(c: char) -> bool {
    ('0' <= c && c <= '9') || ('a' <= c && c <= 'f')
}

/// Number of hexadecimal digits of a fingerprint on an `n` x `n` grid.
pub open spec fn hex_width(n: nat) -> nat {
    (n * n + 3) / 4
}

/// The fingerprint of an `n` x `n` grid of samples: one bit per sample, set
/// when the sample reaches the mean, written in `hex_width(n)` digits.
pub open spec fn fingerprint_of(samples: Seq<u8>, n: nat) -> Seq<char> {
    hex_text(bit_pattern(samples, sample_mean(samples), n * n), hex_width(n))
}

/// Each digit of `hex_text` is a hexadecimal digit.
proof fn lemma_hex_text_digits(v: nat, w: nat)
    ensures
        hex_text(v, w).len() == w,
        forall|i: int| 0 <= i < w ==> is_lower_hex_digit(#[trigger] hex_text(v, w)[i]),
    decreases w,
{
    if w > 0 {
        lemma_hex_text_digits(v / 16, (w - 1) as nat);
        reveal_strlit("0123456789abcdef");
        let d = (v % 16) as int;
        assert(is_lower_hex_digit(hex_char(d))) by {
            assert(0 <= d < 16);
            if d < 10 {
                assert(hex_char(d) == '0' || hex_char(d) == '1' || hex_char(d) == '2' || hex_char(d)
                    == '3' || hex_char(d) == '4' || hex_char(d) == '5' || hex_char(d) == '6'
                    || hex_char(d) == '7' || hex_char(d) == '8' || hex_char(d) == '9');
            } else {
                assert(hex_char(d) == 'a' || hex_char(d) == 'b' || hex_char(d) == 'c' || hex_char(d)
                    == 'd' || hex_char(d) == 'e' || hex_char(d) == 'f');
            }
        }
        assert(hex_text(v, w) == hex_text(v / 16, (w - 1) as nat).push(hex_char(d)));
    }
}

/// The one-character string of hexadecimal digit `d`.
fn hex_digit_str(d: u64) -> (r: &'static str)
    requires
        d < 16,
    ensures
        r@ == seq![hex_char(d as int)],
{
    let digits = "0123456789abcdef";
    proof {
        reveal_strlit("0123456789abcdef");
    }
    let r = digits.substring_char(d as usize, d as usize + 1);
    assert(r@ =~= seq![hex_char(d as int)]);
    r
}

/// The `w` low hexadecimal digits of `v`.
fn hex_text_exec(v: u64, w: usize) -> (r: String)
    ensures
        r@ == hex_text(v as nat, w as nat),
        r@.len() == w,
    decreases w,
{
    if w == 0 {
        String::new()
    } else {
        let mut s = hex_text_exec(v / 16, w - 1);
        s.append(hex_digit_str(v % 16));
        s
    }
}

/// The fingerprint of an already resampled `hash_size` x `hash_size` grid:
/// bit `i` of the pattern is set when sample `i` (row-major) reaches the
/// integer mean, and the pattern is written in lowercase hexadecimal,
/// zero-padded to `ceil(hash_size² / 4)` digits. The pattern fits in those
/// digits, so none of its bits is lost.
pub fn fingerprint_from_samples(samples: &Vec<u8>, hash_size: u32) -> (r: String)
    requires
        1 <= hash_size <= MAX_HASH_SIZE,
        samples@.len() == hash_size * hash_size,
    ensures
        r@ == fingerprint_of(samples@, hash_size as nat),
        r@.len() == hex_width(hash_size as nat),
        forall|i: int| 0 <= i < r@.len() ==> is_lower_hex_digit(#[trigger] r@[i]),
        bit_pattern(samples@, sample_mean(samples@), (hash_size * hash_size) as nat) < pow2(
            4 * hex_width(hash_size as nat),
        ),
{
    let count = samples.len();
    assert(1 <= count <= 64) by (nonlinear_arith)
        requires
            count == hash_size * hash_size,
            1 <= hash_size <= 8,
    ;
    let mut sum: u32 = 0;
    let mut i: usize = 0;
    while i < count
        invariant
            count == samples@.len(),
            count <= 64,
            i <= count,
            sum == sample_sum(samples@, i as nat),
            sum <= 255 * i,
        decreases count - i,
    {
        sum = sum + samples[i] as u32;
        i = i + 1;
    }
    let avg = sum / (count as u32);
    let mut pattern: u64 = 0;
    let mut bit: u64 = 1;
    let mut k: usize = 0;
    proof {
        lemma2_to64();
    }
    while k < count
        invariant
            count == samples@.len(),
            count <= 64,
            k <= count,
            avg == sample_mean(samples@),
            pattern == bit_pattern(samples@, avg as int, k as nat),
            pattern < pow2(k as nat),
            k < count ==> bit == pow2(k as nat),
            pow2(64) == 0x10000000000000000,
        decreases count - k,
    {
        proof {
            lemma_pow2_unfold((k + 1) as nat);
            if k + 1 < 64 {
                vstd::arithmetic::power2::lemma_pow2_strictly_increases((k + 1) as nat, 64);
            }
        }
        if samples[k] as u32 >= avg {
            pattern = pattern + bit;
        }
        if k + 1 < count {
            bit = bit * 2;
        }
        k = k + 1;
    }
    let width = ((count + 3) / 4) as usize;
    proof {
        if count < 4 * width {
            vstd::arithmetic::power2::lemma_pow2_strictly_increases(count as nat, 4 * width as nat);
        }
        lemma_hex_text_digits(pattern as nat, width as nat);
    }
    hex_text_exec(pattern, width)
}

/// The side in force: the given one, or 8.
pub open spec fn effective_size(hash_size: Option<u32>) -> u32 {
    match hash_size {
        Some(n) => n,
        None => DEFAULT_HASH_SIZE,
    }
}

/// A side from one to eight: its square fits the 64-bit pattern.
pub open spec fn valid_size(n: u32) -> bool {
    1 <= n <= MAX_HASH_SIZE
}

/// The fingerprint of a grid: its luma, resampled to `n` x `n`, thresholded
/// at the mean.
pub open spec fn image_fingerprint(g: GridModel, n: nat) -> Seq<char> {
    fingerprint_of(resampled_of(luma_samples(g), g.width, g.height, n), n)
}

/// The outcome of hashing a grid with the given side.
pub open spec fn image_hash_of(g: GridModel, hash_size: Option<u32>) -> Result<Seq<char>, HashError> {
    let n = effective_size(hash_size);
    if valid_size(n) {
        Ok(image_fingerprint(g, n as nat))
    } else {
        Err(HashError::InvalidHashSize)
    }
}

/// The character view of a hashing result.
pub open spec fn text_result(r: Result<String, HashError>) -> Result<Seq<char>, HashError> {
    match r {
        Ok(s) => Ok(s@),
        Err(e) => Err(e),
    }
}

/// Computes the average-hash fingerprint of an image.
///
/// The image is reduced to luma, resampled to `hash_size` x `hash_size`
/// (8 when `None`), and the samples are turned into a fingerprint by
/// `fingerprint_from_samples`. A side of zero or above eight is refused;
/// every other side gives a fingerprint.
pub fn compute_image_hash(img: &PixelGrid, hash_size: Option<u32>) -> (r: Result<String, HashError>)
    requires
        img.wf(),
    ensures
        text_result(r) == image_hash_of(img@, hash_size),
        valid_size(effective_size(hash_size)) <==> r is Ok,
        r matches Ok(s) ==> s@.len() == hex_width(effective_size(hash_size) as nat) && forall|
            i: int,
        | 0 <= i < s@.len() ==> is_lower_hex_digit(#[trigger] s@[i]),
        img.width == effective_size(hash_size) && img.height == effective_size(hash_size) ==> (r matches Ok(s) ==> s@ == fingerprint_of(luma_samples(img@), effective_size(hash_size) as nat)),
{
    let n = match hash_size {
        Some(n) => n,
        None => DEFAULT_HASH_SIZE,
    };
    if n == 0 || n > MAX_HASH_SIZE {
        return Err(HashError::InvalidHashSize);
    }
    let gray = grayscale(img).unwrap();
    let samples = resample(&gray, img.width, img.height, n).unwrap();
    Ok(fingerprint_from_samples(&samples, n))
}

proof fn lemma_uniform_sum(s: Seq<u8>, v: u8, k: nat)
    requires
        k <= s.len(),
        forall|i: int| 0 <= i < s.len() ==> s[i] == v,
    ensures
        sample_sum(s, k) == k * v,
    decreases k,
{
    if k > 0 {
        lemma_uniform_sum(s, v, (k - 1) as nat);
        assert(s[k - 1] == v);
        assert(sample_sum(s, k) == sample_sum(s, (k - 1) as nat) + s[k - 1]);
        let kk = k as int;
        let vv = v as int;
        assert((kk - 1) * vv + vv == kk * vv) by (nonlinear_arith);
        assert(sample_sum(s, (k - 1) as nat) == (kk - 1) * vv);
    } else {
        assert(k * v == 0) by (nonlinear_arith)
            requires
                k == 0,
        ;
    }
}

proof fn lemma_uniform_bits(s: Seq<u8>, v: u8, k: nat)
    requires
        k <= s.len(),
        forall|i: int| 0 <= i < s.len() ==> s[i] == v,
    ensures
        bit_pattern(s, v as int, k) == pow2(k) - 1,
    decreases k,
{
    if k > 0 {
        lemma_uniform_bits(s, v, (k - 1) as nat);
        lemma_pow2_unfold(k);
    } else {
        lemma2_to64();
    }
}

proof fn lemma_all_ones_hex(w: nat)
    ensures
        hex_text((pow2(4 * w) - 1) as nat, w) == Seq::new(w, |i: int| 'f'),
    decreases w,
{
    reveal_strlit("0123456789abcdef");
    if w == 0 {
        lemma2_to64();
        assert(hex_text((pow2(0) - 1) as nat, 0) =~= Seq::new(0, |i: int| 'f'));
    } else {
        lemma_all_ones_hex((w - 1) as nat);
        let p = pow2(4 * (w - 1) as nat);
        vstd::arithmetic::power2::lemma_pow2_adds(4 * (w - 1) as nat, 4);
        lemma2_to64();
        assert(4 * w == 4 * (w - 1) as nat + 4);
        assert(pow2(4 * w) == p * 16);
        vstd::arithmetic::power2::lemma_pow2_pos(4 * (w - 1) as nat);
        vstd::arithmetic::div_mod::lemma_fundamental_div_mod_converse(
            p * 16 - 1,
            16,
            p - 1,
            15,
        );
        assert(hex_char(15) == 'f');
        assert(hex_text((pow2(4 * w) - 1) as nat, w) =~= Seq::new(w, |i: int| 'f'));
    }
}

/// When every sample of an `n` x `n` grid is equal, each reaches the mean and
/// every bit is set; for even `n` the digits hold exactly `n²` bits, so the
/// fingerprint is all `f` digits.
pub proof fn lemma_uniform_fingerprint(samples: Seq<u8>, n: nat)
    requires
        1 <= n <= 8,
        n % 2 == 0,
        samples.len() == n * n,
        forall|i: int| 0 <= i < samples.len() ==> #[trigger] samples[i] == samples[0],
    ensures
        fingerprint_of(samples, n) == Seq::new(hex_width(n), |i: int| 'f'),
{
    let k = n * n;
    assert(k > 0) by (nonlinear_arith)
        requires
            n >= 1,
            k == n * n,
    ;
    let v = samples[0];
    lemma_uniform_sum(samples, v, k);
    vstd::arithmetic::div_mod::lemma_div_multiples_vanish(v as int, k as int);
    assert(sample_mean(samples) == v);
    lemma_uniform_bits(samples, v, k);
    assert(n == 2 || n == 4 || n == 6 || n == 8);
    assert(hex_width(n) * 4 == k);
    lemma_all_ones_hex(hex_width(n));
}

} // verus!
