//! The binary PPM (P6) image format.
//!
//! The serialized form of a canvas is an ASCII header `P6\n<width> <height>
//! 255\n` followed by exactly `3 * width * height` body bytes: for every
//! pixel in row-major order, its red, green and blue bytes, read from the
//! packed color's three least-significant bytes (low byte is red). The high
//! byte of a color is not persisted.

use vstd::prelude::*;

verus! {

/// The three body bytes of one pixel: red, green, blue, taken from the
/// packed color's three least-significant bytes, low byte first.
pub open spec fn rgb_triple(p: u32) -> Seq<u8> {
    seq![(p & 0xff) as u8, ((p >> 8) & 0xff) as u8, ((p >> 16) & 0xff) as u8]
}

/// The serialized body: the triples of all pixels, in order.
pub open spec fn body_of(pixels: Seq<u32>) -> Seq<u8>
    decreases pixels.len(),
{
    if pixels.len() == 0 {
        Seq::empty()
    } else {
        body_of(pixels.drop_last()) + rgb_triple(pixels.last())
    }
}

/// The body is three bytes per pixel.
pub proof fn lemma_body_len(pixels: Seq<u32>)
    ensures
        body_of(pixels).len() == 3 * pixels.len(),
    decreases pixels.len(),
{
    if pixels.len() > 0 {
        lemma_body_len(pixels.drop_last());
    }
}

/// The triple of pixel `i` sits at offset `3 * i` of the body.
pub proof fn lemma_body_index(pixels: Seq<u32>, i: int)
    requires
        0 <= i < pixels.len(),
    ensures
        body_of(pixels)[3 * i] == (pixels[i] & 0xff) as u8,
        body_of(pixels)[3 * i + 1] == ((pixels[i] >> 8) & 0xff) as u8,
        body_of(pixels)[3 * i + 2] == ((pixels[i] >> 16) & 0xff) as u8,
    decreases pixels.len(),
{
    lemma_body_len(pixels.drop_last());
    if i < pixels.len() - 1 {
        lemma_body_index(pixels.drop_last(), i);
    }
}

/// The ASCII decimal digits of `n`, most significant first.
pub open spec fn dec_digits(n: int) -> Seq<u8>
    decreases n,
        when n >= 0
{
    if n < 10 {
        seq![(0x30 + n) as u8]
    } else {
        dec_digits(n / 10).push((0x30 + n % 10) as u8)
    }
}

/// A byte is an ASCII decimal digit.
pub open spec fn is_digit(b: u8) -> bool {
    0x30 <= b <= 0x39
}

/// A decimal rendering has at least one byte, and every byte is a digit.
pub proof fn lemma_dec_digits_shape(n: int)
    requires
        n >= 0,
    ensures
        dec_digits(n).len() >= 1,
        forall|k: int| 0 <= k < dec_digits(n).len() ==> is_digit(#[trigger] dec_digits(n)[k]),
    decreases n,
{
    if n >= 10 {
        lemma_dec_digits_shape(n / 10);
    }
}

/// The numeric value of a string of ASCII digits.
pub open spec fn digits_val(s: Seq<u8>) -> int
    decreases s.len(),
{
    if s.len() == 0 {
        0
    } else {
        digits_val(s.drop_last()) * 10 + (s.last() - 0x30)
    }
}

/// Parsing the decimal rendering of `n` gives back `n`.
pub proof fn lemma_dec_digits_val(n: int)
    requires
        n >= 0,
    ensures
        digits_val(dec_digits(n)) == n,
    decreases n,
{
    if n < 10 {
        assert(dec_digits(n) == seq![(0x30 + n) as u8]);
        assert(dec_digits(n).drop_last() =~= Seq::<u8>::empty());
        assert(dec_digits(n).last() - 0x30 == n);
        assert(digits_val(dec_digits(n)) == digits_val(dec_digits(n).drop_last()) * 10 + (
        dec_digits(n).last() - 0x30));
    } else {
        lemma_dec_digits_val(n / 10);
        assert(dec_digits(n).drop_last() =~= dec_digits(n / 10));
        assert(dec_digits(n).last() - 0x30 == n % 10);
    }
}

/// The length of the run of digits in `s` starting at `i`.
pub open spec fn digit_run(s: Seq<u8>, i: int) -> int
    decreases s.len() - i,
        when 0 <= i <= s.len()
{
    if i < s.len() && is_digit(s[i]) {
        1 + digit_run(s, i + 1)
    } else {
        0
    }
}

/// A run of `m` digits followed by a non-digit scans as exactly `m` bytes.
pub proof fn lemma_digit_run_exact(s: Seq<u8>, i: int, m: int)
    requires
        0 <= i,
        0 <= m,
        i + m < s.len(),
        forall|k: int| i <= k < i + m ==> is_digit(#[trigger] s[k]),
        !is_digit(s[i + m]),
    ensures
        digit_run(s, i) == m,
    decreases m,
{
    if m > 0 {
        lemma_digit_run_exact(s, i + 1, m - 1);
    }
}

/// The packed color of pixel `i` read back from a body of triples: red in
/// the low byte, then green, then blue; the high byte is zero.
pub open spec fn pixel_from(body: Seq<u8>, i: int) -> u32 {
    (body[3 * i] as u32) | ((body[3 * i + 1] as u32) << 8) | ((body[3 * i + 2] as u32) << 16)
}

/// The header: `P6\n<width> <height> 255\n` in ASCII.
pub open spec fn header_of(w: int, h: int) -> Seq<u8> {
    seq![0x50u8, 0x36u8, 0x0au8] + dec_digits(w) + seq![0x20u8] + dec_digits(h) + seq![
        0x20u8,
        0x32u8,
        0x35u8,
        0x35u8,
        0x0au8,
    ]
}

/// The complete serialized image: header, then body.
pub open spec fn ppm_of(w: int, h: int, pixels: Seq<u32>) -> Seq<u8> {
    header_of(w, h) + body_of(pixels)
}

/// Parses bytes in the header-then-fixed-body scheme: the `P6` magic and
/// newline, decimal width, a space, decimal height, the fixed ` 255` and
/// newline, then exactly `3 * width * height` body bytes, three per pixel.
/// Yields the width, the height and the pixel colors (whose high bytes are
/// zero), or nothing where the bytes do not fit the scheme.
pub open spec fn parse_ppm(s: Seq<u8>) -> Option<(int, int, Seq<u32>)> {
    if s.len() >= 3 && s[0] == 0x50u8 && s[1] == 0x36u8 && s[2] == 0x0au8 {
        let dw = digit_run(s, 3);
        if dw >= 1 && 3 + dw < s.len() && s[3 + dw] == 0x20u8 {
            let w = digits_val(s.subrange(3, 3 + dw));
            let hs = 3 + dw + 1;
            let dh = digit_run(s, hs);
            if dh >= 1 && hs + dh + 5 <= s.len() && s[hs + dh] == 0x20u8 && s[hs + dh + 1]
                == 0x32u8 && s[hs + dh + 2] == 0x35u8 && s[hs + dh + 3] == 0x35u8 && s[hs + dh + 4]
                == 0x0au8 {
                let h = digits_val(s.subrange(hs, hs + dh));
                let body = s.skip(hs + dh + 5);
                if w >= 1 && h >= 1 && body.len() == 3 * (w * h) {
                    Some((w, h, Seq::new((w * h) as nat, |i: int| pixel_from(body, i))))
                } else {
                    None
                }
            } else {
                None
            }
        } else {
            None
        }
    } else {
        None
    }
}

/// Law: after a flat fill with `c`, every byte of the serialized body reads
/// from `c`'s triple: each of the `w * h` triples is the low three bytes of
/// `c`, red then green then blue.
pub proof fn lemma_filled_body(pixels: Seq<u32>, c: u32)
    requires
        forall|i: int| 0 <= i < pixels.len() ==> pixels[i] == c,
    ensures
        body_of(pixels).len() == 3 * pixels.len(),
        forall|k: int|
            0 <= k < body_of(pixels).len() ==> #[trigger] body_of(pixels)[k] == rgb_triple(
                c,
            )[k % 3],
{
    lemma_body_len(pixels);
    assert forall|k: int|
        0 <= k < body_of(pixels).len() implies #[trigger] body_of(pixels)[k] == rgb_triple(
        c,
    )[k % 3] by {
        let i = k / 3;
        let j = k % 3;
        assert(0 <= i < pixels.len() && k == 3 * i + j && 0 <= j < 3);
        lemma_body_index(pixels, i);
        assert(pixels[i] == c);
        if j == 0 {
            assert(body_of(pixels)[3 * i] == rgb_triple(c)[0]);
        } else if j == 1 {
            assert(body_of(pixels)[3 * i + 1] == rgb_triple(c)[1]);
        } else {
            assert(body_of(pixels)[3 * i + 2] == rgb_triple(c)[2]);
        }
    }
}

/// Law: a grid of zero pixels — a canvas as constructed — serializes to a
/// body of exactly `3 * w * h` bytes, all zero.
pub proof fn lemma_blank_body(pixels: Seq<u32>)
    requires
        forall|i: int| 0 <= i < pixels.len() ==> pixels[i] == 0,
    ensures
        body_of(pixels).len() == 3 * pixels.len(),
        forall|k: int| 0 <= k < body_of(pixels).len() ==> #[trigger] body_of(pixels)[k] == 0,
{
    lemma_filled_body(pixels, 0);
    assert(0u32 & 0xff == 0 && (0u32 >> 8) & 0xff == 0 && (0u32 >> 16) & 0xff == 0)
        by (bit_vector);
    assert forall|k: int|
        0 <= k < body_of(pixels).len() implies #[trigger] body_of(pixels)[k] == 0 by {
        assert(body_of(pixels)[k] == rgb_triple(0)[k % 3]);
        assert(0 <= k % 3 < 3);
    }
}

/// Law: serialization followed by parsing is the identity up to each
/// pixel's high byte: the bytes of `ppm_of` parse back to the same width,
/// the same height, and every pixel's low three bytes.
pub proof fn lemma_ppm_round_trip(w: int, h: int, pixels: Seq<u32>)
    requires
        1 <= w,
        1 <= h,
        pixels.len() == w * h,
    ensures
        parse_ppm(ppm_of(w, h, pixels)) == Some(
            (w, h, pixels.map_values(|p: u32| p & 0xffffff)),
        ),
{
    let s = ppm_of(w, h, pixels);
    let dw = dec_digits(w);
    let dh = dec_digits(h);
    let body = body_of(pixels);
    lemma_dec_digits_shape(w);
    lemma_dec_digits_shape(h);
    lemma_dec_digits_val(w);
    lemma_dec_digits_val(h);
    lemma_body_len(pixels);
    assert(w * h >= 1) by (nonlinear_arith)
        requires
            w >= 1,
            h >= 1,
    ;
    let dwl = dw.len() as int;
    let dhl = dh.len() as int;
    let hs = 3 + dwl + 1;
    let bodystart = hs + dhl + 5;
    assert(s.len() == bodystart + 3 * pixels.len());
    assert(s[0] == 0x50u8 && s[1] == 0x36u8 && s[2] == 0x0au8);
    assert(s.subrange(3, 3 + dwl) =~= dw);
    assert(s[3 + dwl] == 0x20u8);
    assert forall|k: int| 3 <= k < 3 + dwl implies is_digit(#[trigger] s[k]) by {
        assert(s[k] == s.subrange(3, 3 + dwl)[k - 3]);
        assert(is_digit(dw[k - 3]));
    }
    lemma_digit_run_exact(s, 3, dwl);
    assert(digits_val(s.subrange(3, 3 + dwl)) == w);
    assert(s.subrange(hs, hs + dhl) =~= dh);
    assert(s[hs + dhl] == 0x20u8);
    assert forall|k: int| hs <= k < hs + dhl implies is_digit(#[trigger] s[k]) by {
        assert(s[k] == s.subrange(hs, hs + dhl)[k - hs]);
        assert(is_digit(dh[k - hs]));
    }
    lemma_digit_run_exact(s, hs, dhl);
    assert(digits_val(s.subrange(hs, hs + dhl)) == h);
    assert(s[hs + dhl + 1] == 0x32u8 && s[hs + dhl + 2] == 0x35u8 && s[hs + dhl + 3] == 0x35u8
        && s[hs + dhl + 4] == 0x0au8);
    assert(s.skip(bodystart) =~= body);
    assert forall|i: int| 0 <= i < pixels.len() implies pixel_from(body, i) == (
    #[trigger] pixels[i]) & 0xffffff by {
        lemma_body_index(pixels, i);
        let p = pixels[i];
        assert(p & 0xff < 0x100 && (p >> 8) & 0xff < 0x100 && (p >> 16) & 0xff < 0x100)
            by (bit_vector);
        assert((p & 0xff) | (((p >> 8) & 0xff) << 8) | (((p >> 16) & 0xff) << 16) == p & 0xffffff)
            by (bit_vector);
        assert((body[3 * i] as u32) == p & 0xff);
        assert((body[3 * i + 1] as u32) == (p >> 8) & 0xff);
        assert((body[3 * i + 2] as u32) == (p >> 16) & 0xff);
    }
    assert(Seq::new((w * h) as nat, |i: int| pixel_from(s.skip(bodystart), i)) =~= pixels
        .map_values(|p: u32| p & 0xffffff));
}

/// Appends the decimal digits of `n` to `out`.
pub fn push_decimal(out: &mut Vec<u8>, n: usize)
    ensures
        final(out)@ == old(out)@ + dec_digits(n as int),
    decreases n,
{
    if n >= 10 {
        push_decimal(out, n / 10);
    }
    out.push(0x30u8 + (n % 10) as u8);
    proof {
        assert(out@ =~= old(out)@ + dec_digits(n as int));
    }
}

} // verus!
