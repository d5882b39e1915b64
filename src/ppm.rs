//! PPM image encoding of quantized pixels.
use vstd::prelude::*;

verus! {

/// The ASCII character of a decimal digit.
pub open spec fn digit_char(d: nat) -> char {
    if d == 0 { '0' } else if d == 1 { '1' } else if d == 2 { '2' } else if d == 3 { '3' }
    else if d == 4 { '4' } else if d == 5 { '5' } else if d == 6 { '6' } else if d == 7 { '7' }
    else if d == 8 { '8' } else { '9' }
}

/// The decimal notation of `n`, most significant digit first, without leading zeros.
pub open spec fn decimal(n: nat) -> Seq<char>
    decreases n,
{
    if n < 10 {
        seq![digit_char(n)]
    } else {
        decimal(n / 10).push(digit_char(n % 10))
    }
}

/// Appends the decimal notation of `n` to `s`.
fn push_decimal(s: &mut String, n: u32)
    ensures
        final(s)@ == old(s)@ + decimal(n as nat),
    decreases n,
{
    if n >= 10 {
        push_decimal(s, n / 10);
    }
    let d = n % 10;
    let t: &str = if d == 0 { "0" } else if d == 1 { "1" } else if d == 2 { "2" }
        else if d == 3 { "3" } else if d == 4 { "4" } else if d == 5 { "5" }
        else if d == 6 { "6" } else if d == 7 { "7" } else if d == 8 { "8" } else { "9" };
    proof {
        reveal_strlit("0"); reveal_strlit("1"); reveal_strlit("2"); reveal_strlit("3");
        reveal_strlit("4"); reveal_strlit("5"); reveal_strlit("6"); reveal_strlit("7");
        reveal_strlit("8"); reveal_strlit("9");
    }
    assert(t@ =~= seq![digit_char(d as nat)]);
    s.append(t);
    assert(final(s)@ =~= old(s)@ + decimal(n as nat));
}

/// The text header of a plain (P3) PPM image of the given size.
pub open spec fn p3_header_text(width: nat, height: nat) -> Seq<char> {
    seq!['P', '3', '\n'] + decimal(width) + seq![' '] + decimal(height) + seq!['\n', '2', '5', '5', '\n']
}

/// The header of a plain-text PPM image: magic number, size, and maximum channel value.
pub fn p3_header(width: u16, height: u16) -> (r: String)
    ensures
        r@ == p3_header_text(width as nat, height as nat),
{
    let mut s = String::new();
    s.append("P3\n");
    push_decimal(&mut s, width as u32);
    s.append(" ");
    push_decimal(&mut s, height as u32);
    s.append("\n255\n");
    proof {
        reveal_strlit("P3\n");
        reveal_strlit(" ");
        reveal_strlit("\n255\n");
    }
    assert(s@ =~= p3_header_text(width as nat, height as nat));
    s
}

/// One pixel's channels after gamma correction and quantization to eight bits.
#[derive(Clone, Copy, Debug, PartialEq, Eq, Structural)]
pub struct Rgb8 {
    pub r: u8,
    pub g: u8,
    pub b: u8,
}

/// The bytes of an ASCII text.
pub open spec fn ascii(s: Seq<char>) -> Seq<u8> {
    s.map_values(|c: char| c as u8)
}

/// The text line of one pixel in a plain (P3) PPM image.
pub open spec fn p3_pixel_text(p: Rgb8) -> Seq<char> {
    decimal(p.r as nat) + seq![' '] + decimal(p.g as nat) + seq![' '] + decimal(p.b as nat) + seq!['\n']
}

/// The line of a plain-text PPM image that holds one pixel: its three channels in decimal.
pub fn p3_pixel(color: &Rgb8) -> (r: String)
    ensures
        r@ == p3_pixel_text(*color),
{
    let mut s = String::new();
    push_decimal(&mut s, color.r as u32);
    s.append(" ");
    push_decimal(&mut s, color.g as u32);
    s.append(" ");
    push_decimal(&mut s, color.b as u32);
    s.append("\n");
    proof {
        reveal_strlit(" ");
        reveal_strlit("\n");
    }
    assert(s@ =~= p3_pixel_text(*color));
    s
}

/// Appends the ASCII decimal notation of `n` to `v`.
fn push_decimal_bytes(v: &mut Vec<u8>, n: u32)
    ensures
        final(v)@ == old(v)@ + ascii(decimal(n as nat)),
    decreases n,
{
    if n >= 10 {
        push_decimal_bytes(v, n / 10);
    }
    let d = (n % 10) as u8;
    v.push(48u8 + d);
    proof {
        let k = n as nat;
        if k >= 10 {
            assert(decimal(k) == decimal(k / 10).push(digit_char(k % 10)));
        } else {
            assert(decimal(k) == seq![digit_char(k)]);
        }
        assert(digit_char(d as nat) as u8 == 48 + d);
    }
    assert(final(v)@ =~= old(v)@ + ascii(decimal(n as nat)));
}

/// Appends the given ASCII text, given as its bytes, to `v`.
fn push_bytes(v: &mut Vec<u8>, bytes: &[u8])
    ensures
        final(v)@ == old(v)@ + bytes@,
{
    let mut i: usize = 0;
    while i < bytes.len()
        invariant
            i <= bytes@.len(),
            v@ == old(v)@ + bytes@.subrange(0, i as int),
        decreases bytes@.len() - i,
    {
        v.push(bytes[i]);
        i = i + 1;
        assert(v@ =~= old(v)@ + bytes@.subrange(0, i as int));
    }
    assert(bytes@.subrange(0, i as int) =~= bytes@);
}

/// The channels of the pixels in order, three bytes per pixel.
pub open spec fn pixel_bytes(pixels: Seq<Rgb8>) -> Seq<u8>
    decreases pixels.len(),
{
    if pixels.len() == 0 {
        Seq::empty()
    } else {
        let p = pixels.last();
        pixel_bytes(pixels.drop_last()) + seq![p.r, p.g, p.b]
    }
}

/// The header of a binary (P6) PPM image of the given size.
pub open spec fn p6_header_bytes(width: nat, height: nat) -> Seq<u8> {
    ascii(seq!['P', '6', ' '] + decimal(width) + seq![' '] + decimal(height) + seq![' ', '2', '5', '5', '\n'])
}

/// The binary PPM image of the pixels, given row by row, top row first. An
/// empty pixel list, or one whose length is not `width * height`, yields the
/// header of an empty image.
pub open spec fn p6_bytes(width: nat, height: nat, pixels: Seq<Rgb8>) -> Seq<u8> {
    if pixels.len() == 0 || pixels.len() != width * height {
        p6_header_bytes(0, 0)
    } else {
        p6_header_bytes(width, height) + pixel_bytes(pixels)
    }
}

/// The number of pixels of an image whose sides fit in 32 bits fits in 64 bits.
proof fn lemma_product_fits(a: u32, b: u32)
    ensures
        a as nat * b as nat <= u64::MAX,
{
    assert(a as nat * b as nat <= u32::MAX as nat * u32::MAX as nat) by (nonlinear_arith)
        requires a <= u32::MAX, b <= u32::MAX;
}

/// Encodes the pixels as a binary PPM image.
pub fn p6_image(width: u32, height: u32, pixels: &Vec<Rgb8>) -> (r: Vec<u8>)
    ensures
        r@ == p6_bytes(width as nat, height as nat, pixels@),
{
    let mut image: Vec<u8> = Vec::new();
    let n = pixels.len();
    proof {
        lemma_product_fits(width, height);
    }
    let area = width as u64 * height as u64;
    if n == 0 || n as u64 != area {
        push_bytes(&mut image, &[80u8, 54u8, 32u8]);
        push_decimal_bytes(&mut image, 0);
        push_bytes(&mut image, &[32u8]);
        push_decimal_bytes(&mut image, 0);
        push_bytes(&mut image, &[32u8, 50u8, 53u8, 53u8, 10u8]);
        assert(image@ =~= p6_header_bytes(0, 0));
        return image;
    }
    push_bytes(&mut image, &[80u8, 54u8, 32u8]);
    push_decimal_bytes(&mut image, width);
    push_bytes(&mut image, &[32u8]);
    push_decimal_bytes(&mut image, height);
    push_bytes(&mut image, &[32u8, 50u8, 53u8, 53u8, 10u8]);
    let ghost header = image@;
    assert(header =~= p6_header_bytes(width as nat, height as nat));
    let mut i: usize = 0;
    while i < n
        invariant
            n == pixels@.len(),
            i <= n,
            image@ == header + pixel_bytes(pixels@.subrange(0, i as int)),
        decreases n - i,
    {
        let p = pixels[i];
        image.push(p.r);
        image.push(p.g);
        image.push(p.b);
        assert(pixels@.subrange(0, i + 1).drop_last() =~= pixels@.subrange(0, i as int));
        i = i + 1;
        assert(image@ =~= header + pixel_bytes(pixels@.subrange(0, i as int)));
    }
    assert(pixels@.subrange(0, n as int) =~= pixels@);
    image
}

} // verus!
