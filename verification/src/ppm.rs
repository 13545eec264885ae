use vstd::prelude::*;
use crate::color::{Color, to_pixel_spec};
use crate::pixel::{Pixel, to_color_spec};

verus! {

/// ASCII whitespace, as the reader's token separator set.
pub open spec fn is_ws(b: u8) -> bool {
    b == 32 || b == 9 || b == 10 || b == 11 || b == 12 || b == 13
}

/// An ASCII decimal digit.
pub open spec fn is_digit(b: u8) -> bool {
    48 <= b <= 57
}

/// The decimal digits of a number, most significant first.
pub open spec fn dec_digits(n: nat) -> Seq<u8>
    decreases n,
{
    if n < 10 {
        seq![(48 + n) as u8]
    } else {
        dec_digits(n / 10).push((48 + n % 10) as u8)
    }
}

/// The value of a digit string, read left to right.
pub open spec fn dec_value(s: Seq<u8>) -> nat
    decreases s.len(),
{
    if s.len() == 0 {
        0
    } else {
        dec_value(s.drop_last()) * 10 + (s.last() - 48) as nat
    }
}

/// The decimal digits of a number denote it, are never empty, and consist
/// of digits only.
pub proof fn lemma_dec_digits(n: nat)
    ensures
        dec_value(dec_digits(n)) == n,
        dec_digits(n).len() >= 1,
        forall|i: int| 0 <= i < dec_digits(n).len() ==> is_digit(#[trigger] dec_digits(n)[i]),
    decreases n,
{
    if n < 10 {
        let d = seq![(48 + n) as u8];
        assert(d.drop_last() =~= Seq::<u8>::empty());
        assert(dec_value(Seq::<u8>::empty()) == 0);
        assert(dec_value(d) == (d.last() - 48) as nat);
    } else {
        lemma_dec_digits(n / 10);
        let d = dec_digits(n / 10);
        let whole = d.push((48 + n % 10) as u8);
        assert(whole.drop_last() =~= d);
        assert(dec_value(whole) == dec_value(d) * 10 + n % 10);
        assert(n / 10 * 10 + n % 10 == n);
    }
}

/// The length of the first token: the maximal non-whitespace prefix.
pub open spec fn first_token_len(s: Seq<u8>) -> nat
    decreases s.len(),
{
    if s.len() == 0 || is_ws(s[0]) {
        0
    } else {
        1 + first_token_len(s.subrange(1, s.len() as int))
    }
}

/// The first token is never longer than the string.
pub proof fn lemma_first_token_len_le(s: Seq<u8>)
    ensures
        first_token_len(s) <= s.len(),
    decreases s.len(),
{
    if s.len() > 0 && !is_ws(s[0]) {
        lemma_first_token_len_le(s.subrange(1, s.len() as int));
    }
}

/// The whitespace-separated tokens of a byte string, in order.
pub open spec fn tokens_of(s: Seq<u8>) -> Seq<Seq<u8>>
    decreases s.len() via tokens_of_decreases
{
    if s.len() == 0 {
        seq![]
    } else if is_ws(s[0]) {
        tokens_of(s.subrange(1, s.len() as int))
    } else {
        let k = first_token_len(s) as int;
        seq![s.subrange(0, k)] + tokens_of(s.subrange(k, s.len() as int))
    }
}

#[via_fn]
proof fn tokens_of_decreases(s: Seq<u8>) {
    lemma_first_token_len_le(s);
}

/// Whether a token is a data token: one or more decimal digits whose value
/// fits the machine's word.
pub open spec fn is_data(t: Seq<u8>) -> bool {
    t.len() >= 1
        && (forall|i: int| 0 <= i < t.len() ==> is_digit(#[trigger] t[i]))
        && dec_value(t) <= usize::MAX
}

/// The values of the data tokens of a token list, non-data tokens ignored.
pub open spec fn data_values(ts: Seq<Seq<u8>>) -> Seq<nat>
    decreases ts.len(),
{
    if ts.len() == 0 {
        seq![]
    } else {
        (if is_data(ts[0]) {
            seq![dec_value(ts[0])]
        } else {
            Seq::<nat>::empty()
        }) + data_values(ts.subrange(1, ts.len() as int))
    }
}

/// The first token of a byte string that starts with a full token followed
/// by whitespace (or the end) is exactly that token.
proof fn lemma_first_token(t: Seq<u8>, rest: Seq<u8>)
    requires
        t.len() >= 1,
        forall|i: int| 0 <= i < t.len() ==> !is_ws(#[trigger] t[i]),
        rest.len() == 0 || is_ws(rest[0]),
    ensures
        first_token_len(t + rest) == t.len(),
    decreases t.len(),
{
    let s = t + rest;
    assert(s[0] == t[0]);
    assert(!is_ws(s[0]));
    if t.len() == 1 {
        assert(s.subrange(1, s.len() as int) =~= rest);
        assert(first_token_len(rest) == 0);
    } else {
        let t2 = t.subrange(1, t.len() as int);
        lemma_first_token(t2, rest);
        assert(s.subrange(1, s.len() as int) =~= t2 + rest);
    }
}

/// Tokenizing a token, one whitespace byte, and a remainder yields the
/// token followed by the remainder's tokens.
proof fn lemma_tokens_sep(t: Seq<u8>, sep: u8, rest: Seq<u8>)
    requires
        t.len() >= 1,
        forall|i: int| 0 <= i < t.len() ==> !is_ws(#[trigger] t[i]),
        is_ws(sep),
    ensures
        tokens_of(t + seq![sep] + rest) == seq![t] + tokens_of(rest),
{
    let tail = seq![sep] + rest;
    assert(tail[0] == sep);
    lemma_first_token(t, tail);
    let s = t + seq![sep] + rest;
    assert(s =~= t + tail);
    assert(s[0] == t[0]);
    assert(!is_ws(s[0]));
    let k = first_token_len(s) as int;
    assert(k == t.len());
    assert(s.subrange(0, k) =~= t);
    assert(s.subrange(k, s.len() as int) =~= tail);
    assert(tail.subrange(1, tail.len() as int) =~= rest);
    assert(tokens_of(tail) == tokens_of(rest));
    assert(tokens_of(s) == seq![s.subrange(0, k)] + tokens_of(s.subrange(k, s.len() as int)));
    assert(tokens_of(s) == seq![t] + tokens_of(rest));
}

/// The decimal token of a value is a data token denoting it, and contains
/// no whitespace.
proof fn lemma_dec_token(n: nat)
    requires
        n <= usize::MAX,
    ensures
        is_data(dec_digits(n)),
        dec_value(dec_digits(n)) == n,
        forall|i: int| 0 <= i < dec_digits(n).len() ==> !is_ws(#[trigger] dec_digits(n)[i]),
{
    lemma_dec_digits(n);
}

/// One unpremultiplied output channel: a middle alpha divides the channel
/// back out with rounding; zero and full alpha emit the channel as stored.
pub open spec fn out_ch(c: int, a: int) -> int {
    if a != 0 && a != 255 {
        (c * 255 + a / 2) / a
    } else {
        c
    }
}

/// One `r g b` line of the P3 body, for one stored color.
pub open spec fn color_line(c: Color) -> Seq<u8> {
    let p = to_pixel_spec(c);
    dec_digits(out_ch(p.r as int, p.a as int) as nat) + seq![32u8]
        + dec_digits(out_ch(p.g as int, p.a as int) as nat) + seq![32u8]
        + dec_digits(out_ch(p.b as int, p.a as int) as nat) + seq![10u8]
}

/// The pixel lines for the colors from index `i` on.
pub open spec fn pixel_lines(colors: Seq<Color>, i: int) -> Seq<u8>
    decreases colors.len() - i,
{
    if i < 0 || i >= colors.len() {
        Seq::empty()
    } else {
        color_line(colors[i]) + pixel_lines(colors, i + 1)
    }
}

/// The complete P3 byte stream: magic, dimensions, the fixed maximum of
/// 255, and one line per pixel in row-major order.
pub open spec fn ppm_bytes(w: nat, h: nat, colors: Seq<Color>) -> Seq<u8> {
    seq![80u8, 51u8, 10u8] + dec_digits(w) + seq![32u8] + dec_digits(h) + seq![32u8]
        + dec_digits(255) + seq![10u8] + pixel_lines(colors, 0)
}

/// The three output channel values of each color from index `i` on.
pub open spec fn channel_values(colors: Seq<Color>, i: int) -> Seq<nat>
    decreases colors.len() - i,
{
    if i < 0 || i >= colors.len() {
        Seq::empty()
    } else {
        let p = to_pixel_spec(colors[i]);
        seq![
            out_ch(p.r as int, p.a as int) as nat,
            out_ch(p.g as int, p.a as int) as nat,
            out_ch(p.b as int, p.a as int) as nat,
        ] + channel_values(colors, i + 1)
    }
}

/// An output channel of a well-formed pixel stays in the 8-bit range.
proof fn lemma_out_ch_bounds(c: int, a: int)
    requires
        0 <= c <= a <= 255,
    ensures
        0 <= out_ch(c, a) <= 255,
{
    if a != 0 && a != 255 {
        assert(0 <= (c * 255 + a / 2) / a <= 255) by (nonlinear_arith)
            requires 0 <= c <= a && 1 <= a <= 255;
    }
}

/// The data values of the tokenized pixel lines are exactly the channel
/// values of the colors.
proof fn lemma_pixel_lines_values(colors: Seq<Color>, i: int)
    ensures
        data_values(tokens_of(pixel_lines(colors, i))) == channel_values(colors, i),
    decreases colors.len() - i,
{
    if i < 0 || i >= colors.len() {
        assert(pixel_lines(colors, i) =~= Seq::<u8>::empty());
        assert(data_values(tokens_of(pixel_lines(colors, i))) =~= channel_values(colors, i));
    } else {
        lemma_pixel_lines_values(colors, i + 1);
        let c = colors[i];
        let p = to_pixel_spec(c);
        crate::color::lemma_premul_ch_bounds(c.r as int, c.a as int);
        crate::color::lemma_premul_ch_bounds(c.g as int, c.a as int);
        crate::color::lemma_premul_ch_bounds(c.b as int, c.a as int);
        assert(p.r <= p.a && p.g <= p.a && p.b <= p.a && p.a <= 255);
        let r = out_ch(p.r as int, p.a as int);
        let g = out_ch(p.g as int, p.a as int);
        let b = out_ch(p.b as int, p.a as int);
        lemma_out_ch_bounds(p.r as int, p.a as int);
        lemma_out_ch_bounds(p.g as int, p.a as int);
        lemma_out_ch_bounds(p.b as int, p.a as int);
        lemma_dec_token(r as nat);
        lemma_dec_token(g as nat);
        lemma_dec_token(b as nat);
        let rest = pixel_lines(colors, i + 1);
        let tb = dec_digits(b as nat) + seq![10u8] + rest;
        let tg = dec_digits(g as nat) + seq![32u8] + tb;
        let tr = dec_digits(r as nat) + seq![32u8] + tg;
        assert(pixel_lines(colors, i) =~= tr);
        lemma_tokens_sep(dec_digits(b as nat), 10u8, rest);
        lemma_tokens_sep(dec_digits(g as nat), 32u8, tb);
        lemma_tokens_sep(dec_digits(r as nat), 32u8, tg);
        let ts3 = seq![dec_digits(b as nat)] + tokens_of(rest);
        let ts2 = seq![dec_digits(g as nat)] + ts3;
        let ts = seq![dec_digits(r as nat)] + ts2;
        assert(tokens_of(tb) == ts3);
        assert(tokens_of(tg) =~= ts2);
        assert(tokens_of(tr) =~= ts);
        assert(ts[0] == dec_digits(r as nat));
        assert(ts.subrange(1, ts.len() as int) =~= ts2);
        assert(ts2[0] == dec_digits(g as nat));
        assert(ts2.subrange(1, ts2.len() as int) =~= ts3);
        assert(ts3[0] == dec_digits(b as nat));
        assert(ts3.subrange(1, ts3.len() as int) =~= tokens_of(rest));
        assert(data_values(ts3) =~= seq![b as nat] + data_values(tokens_of(rest)));
        assert(data_values(ts2) =~= seq![g as nat] + data_values(ts3));
        assert(data_values(ts) =~= seq![r as nat] + data_values(ts2));
        assert(data_values(tokens_of(pixel_lines(colors, i)))
            =~= channel_values(colors, i));
    }
}

/// The channel value list has three entries per color.
proof fn lemma_channel_values_len(colors: Seq<Color>, i: int)
    requires
        0 <= i <= colors.len(),
    ensures
        channel_values(colors, i).len() == 3 * (colors.len() - i),
    decreases colors.len() - i,
{
    if i < colors.len() {
        lemma_channel_values_len(colors, i + 1);
    }
}

/// The channel values of color `j`, seen from start index `i`.
proof fn lemma_channel_values_index(colors: Seq<Color>, i: int, j: int)
    requires
        0 <= i <= j < colors.len(),
    ensures
        ({
            let p = to_pixel_spec(colors[j]);
            let cv = channel_values(colors, i);
            &&& cv.len() == 3 * (colors.len() - i)
            &&& cv[3 * (j - i)] == out_ch(p.r as int, p.a as int) as nat
            &&& cv[3 * (j - i) + 1] == out_ch(p.g as int, p.a as int) as nat
            &&& cv[3 * (j - i) + 2] == out_ch(p.b as int, p.a as int) as nat
        }),
    decreases j - i,
{
    lemma_channel_values_len(colors, i);
    lemma_channel_values_len(colors, i + 1);
    if i < j {
        lemma_channel_values_index(colors, i + 1, j);
    }
}

/// Writing a bitmap of fully opaque pixels and reading the bytes back
/// yields every pixel bit for bit: the decoded colors convert to exactly
/// the original pixels.
#[verifier::rlimit(60)]
pub proof fn lemma_ppm_round_trip(w: nat, h: nat, pixels: Seq<Pixel>)
    requires
        pixels.len() == w * h,
        w <= 0x7FFF,
        h <= 0x7FFF,
        forall|i: int| 0 <= i < pixels.len()
            ==> (#[trigger] pixels[i]).a == 255 && pixels[i].r <= 255
                && pixels[i].g <= 255 && pixels[i].b <= 255,
    ensures
        ({
            let colors = Seq::new(pixels.len(), |i: int| to_color_spec(pixels[i]));
            let vals = data_values(tokens_of(ppm_bytes(w, h, colors)));
            &&& decode_spec(vals).is_some()
            &&& decode_spec(vals).unwrap().0 == w
            &&& decode_spec(vals).unwrap().1 == h
            &&& decode_spec(vals).unwrap().2.len() == pixels.len()
            &&& forall|j: int| 0 <= j < pixels.len()
                ==> to_pixel_spec(#[trigger] decode_spec(vals).unwrap().2[j]) == pixels[j]
        }),
{
    let colors = Seq::new(pixels.len(), |i: int| to_color_spec(pixels[i]));

    // Tokenize the header: the magic is not a data token, the three header
    // numbers are.
    let body = pixel_lines(colors, 0);
    let t255 = dec_digits(255) + seq![10u8] + body;
    let th = dec_digits(h) + seq![32u8] + t255;
    let tw = dec_digits(w) + seq![32u8] + th;
    let magic = seq![80u8, 51u8];
    let s = magic + seq![10u8] + tw;
    assert(ppm_bytes(w, h, colors) =~= s);

    lemma_dec_token(w);
    lemma_dec_token(h);
    lemma_dec_token(255);
    lemma_pixel_lines_values(colors, 0);
    lemma_tokens_sep(dec_digits(255), 10u8, body);
    lemma_tokens_sep(dec_digits(h), 32u8, t255);
    lemma_tokens_sep(dec_digits(w), 32u8, th);
    assert(forall|i: int| 0 <= i < magic.len() ==> !is_ws(#[trigger] magic[i]));
    lemma_tokens_sep(magic, 10u8, tw);

    assert(magic[0] == 80);
    assert(!is_data(magic));

    let ts3 = seq![dec_digits(255)] + tokens_of(body);
    let ts2 = seq![dec_digits(h)] + ts3;
    let ts1 = seq![dec_digits(w)] + ts2;
    let ts = seq![magic] + ts1;
    assert(tokens_of(t255) == ts3);
    assert(tokens_of(th) =~= ts2);
    assert(tokens_of(tw) =~= ts1);
    assert(tokens_of(s) =~= ts);
    assert(ts[0] == magic);
    assert(ts.subrange(1, ts.len() as int) =~= ts1);
    assert(ts1[0] == dec_digits(w));
    assert(ts1.subrange(1, ts1.len() as int) =~= ts2);
    assert(ts2[0] == dec_digits(h));
    assert(ts2.subrange(1, ts2.len() as int) =~= ts3);
    assert(ts3[0] == dec_digits(255));
    assert(ts3.subrange(1, ts3.len() as int) =~= tokens_of(body));
    assert(data_values(ts3) =~= seq![255nat] + data_values(tokens_of(body)));
    assert(data_values(ts2) =~= seq![h] + data_values(ts3));
    assert(data_values(ts1) =~= seq![w] + data_values(ts2));
    assert(data_values(ts) =~= data_values(ts1));

    let vals = data_values(tokens_of(s));
    assert(vals =~= seq![w, h, 255nat] + channel_values(colors, 0));

    lemma_channel_values_len(colors, 0);
    assert(3 * ((w as int) * (h as int)) == 3 * (w as int) * (h as int))
        by (nonlinear_arith);
    assert(vals.len() == 3 + 3 * w * h);

    // Decode succeeds and reproduces every pixel.
    assert(decode_spec(vals).is_some());
    let decoded = decode_spec(vals).unwrap().2;
    assert forall|j: int| 0 <= j < pixels.len()
        implies to_pixel_spec(#[trigger] decoded[j]) == pixels[j] by {
        lemma_channel_values_index(colors, 0, j);
        let p = pixels[j];
        // An opaque pixel round-trips through its straight color exactly.
        crate::color::lemma_pixel_color_round_trip(p);
        let q = to_pixel_spec(to_color_spec(p));
        assert(q == p);
        // With full alpha the output channels are the stored channels.
        assert(out_ch(q.r as int, 255) == q.r as int);
        assert(vals[3 + 3 * j] == p.r as nat);
        assert(vals[3 + 3 * j + 1] == p.g as nat);
        assert(vals[3 + 3 * j + 2] == p.b as nat);
        assert(decoded[j] == decoded_color(vals, j));
        assert(decoded_color(vals, j)
            == to_color_spec(Pixel { a: 255u8, r: p.r, g: p.g, b: p.b }));
        assert(Pixel { a: 255u8, r: p.r, g: p.g, b: p.b } == p);
        crate::color::lemma_pixel_color_round_trip(p);
    }
}

/// A canvas cleared to an opaque color, written as PPM bytes and read
/// back, yields that color's pixel at every coordinate, exactly.
pub proof fn lemma_clear_round_trip(w: nat, h: nat, c: Color)
    requires
        w <= 0x7FFF,
        h <= 0x7FFF,
        to_pixel_spec(c).a == 255,
    ensures
        ({
            let pixels = Seq::new(w * h, |i: int| to_pixel_spec(c));
            let colors = Seq::new(pixels.len(), |i: int| to_color_spec(pixels[i]));
            let vals = data_values(tokens_of(ppm_bytes(w, h, colors)));
            &&& decode_spec(vals).is_some()
            &&& decode_spec(vals).unwrap().0 == w
            &&& decode_spec(vals).unwrap().1 == h
            &&& forall|j: int| 0 <= j < w * h
                ==> to_pixel_spec(#[trigger] decode_spec(vals).unwrap().2[j])
                    == to_pixel_spec(c)
        }),
{
    let pixels = Seq::new(w * h, |i: int| to_pixel_spec(c));
    crate::color::lemma_premul_ch_bounds(c.r as int, c.a as int);
    crate::color::lemma_premul_ch_bounds(c.g as int, c.a as int);
    crate::color::lemma_premul_ch_bounds(c.b as int, c.a as int);
    lemma_ppm_round_trip(w, h, pixels);
}

/// The color a data value triple decodes to: an opaque pixel of the three
/// channels truncated to bytes, as a straight color.
pub open spec fn decoded_color(vals: Seq<nat>, j: int) -> Color {
    to_color_spec(Pixel {
        a: 255u8,
        r: (vals[3 + 3 * j] % 256) as u8,
        g: (vals[3 + 3 * j + 1] % 256) as u8,
        b: (vals[3 + 3 * j + 2] % 256) as u8,
    })
}

/// What a list of data values decodes to: the first three are width,
/// height and the ignored maximum; the rest are channel triples. Too few
/// values, or dimensions beyond the raster limit, fail.
pub open spec fn decode_spec(vals: Seq<nat>) -> Option<(nat, nat, Seq<Color>)> {
    if vals.len() < 3 {
        None
    } else {
        let w = vals[0];
        let h = vals[1];
        if w > 0x7FFF || h > 0x7FFF {
            None
        } else if vals.len() < 3 + 3 * w * h {
            None
        } else {
            Some((w, h, Seq::new((w * h) as nat, |j: int| decoded_color(vals, j))))
        }
    }
}

/// Appends the decimal digits of a value.
fn push_dec(out: &mut Vec<u8>, v: usize)
    ensures
        final(out)@ == old(out)@ + dec_digits(v as nat),
    decreases v,
{
    if v >= 10 {
        push_dec(out, v / 10);
    }
    out.push(48 + (v % 10) as u8);
    proof {
        if v < 10 {
            assert(final(out)@ =~= old(out)@ + dec_digits(v as nat));
        } else {
            assert(final(out)@ =~= old(out)@ + dec_digits(v as nat));
        }
    }
}

/// One unpremultiplied output channel of a premultiplied pixel.
fn unpremul_out(c: u8, a: u8) -> (r: u8)
    requires
        c <= a,
    ensures
        r as int == out_ch(c as int, a as int),
{
    if a != 0 && a != 255 {
        proof {
            assert((c as int * 255 + a as int / 2) / (a as int) <= 255) by (nonlinear_arith)
                requires 1 <= a as int <= 255 && 0 <= c as int <= a as int;
            assert((c as int * 255 + a as int / 2) / (a as int) >= 0) by (nonlinear_arith)
                requires 1 <= a as int && 0 <= c as int;
        }
        (((c as u32) * 255 + (a as u32) / 2) / (a as u32)) as u8
    } else {
        c
    }
}

/// Whether a byte is ASCII whitespace.
fn byte_is_ws(b: u8) -> (r: bool)
    ensures
        r == is_ws(b),
{
    b == 32 || b == 9 || b == 10 || b == 11 || b == 12 || b == 13
}

/// Collects the values of all whitespace-separated decimal tokens; tokens
/// with other characters, or values beyond the machine word, are ignored.
fn parse_values(data: &[u8]) -> (vals: Vec<usize>)
    ensures
        ({
            let dv = data_values(tokens_of(data@));
            &&& vals@.len() == dv.len()
            &&& forall|i: int| 0 <= i < dv.len() ==> vals@[i] as nat == dv[i]
        }),
{
    let n = data.len();
    let mut vals: Vec<usize> = Vec::new();
    let ghost dv = data_values(tokens_of(data@));
    proof {
        assert(data@.subrange(0, n as int) =~= data@);
        assert(vals@.map_values(|v: usize| v as nat) =~= Seq::<nat>::empty());
    }
    let mut i: usize = 0;
    while i < n
        invariant
            i <= n,
            n == data@.len(),
            dv == data_values(tokens_of(data@)),
            dv =~= vals@.map_values(|v: usize| v as nat)
                + data_values(tokens_of(data@.subrange(i as int, n as int))),
        decreases n - i,
    {
        let b = data[i];
        if byte_is_ws(b) {
            proof {
                let suf = data@.subrange(i as int, n as int);
                assert(suf[0] == b);
                assert(suf.subrange(1, suf.len() as int)
                    =~= data@.subrange(i as int + 1, n as int));
            }
            i += 1;
        } else {
            let start = i;
            let mut acc: usize = 0;
            let mut valid = true;
            while i < n && !byte_is_ws(data[i])
                invariant
                    n == data@.len(),
                    start <= i <= n,
                    start < n,
                    !is_ws(data@[start as int]),
                    forall|k: int| start <= k < i ==> !is_ws(#[trigger] data@[k]),
                    first_token_len(data@.subrange(start as int, n as int))
                        == (i - start)
                            + first_token_len(data@.subrange(i as int, n as int)),
                    valid == ({
                        let tp = data@.subrange(start as int, i as int);
                        (forall|k: int| 0 <= k < tp.len() ==> is_digit(#[trigger] tp[k]))
                            && dec_value(tp) <= usize::MAX
                    }),
                    valid ==> acc as nat
                        == dec_value(data@.subrange(start as int, i as int)),
                decreases n - i,
            {
                let b2 = data[i];
                let ghost tp = data@.subrange(start as int, i as int);
                let ghost tp2 = data@.subrange(start as int, i as int + 1);
                proof {
                    assert(tp2.drop_last() =~= tp);
                    assert(tp2.last() == data@[i as int]);
                }
                if valid && 48 <= b2 && b2 <= 57 {
                    let d = (b2 - 48) as usize;
                    if acc <= (usize::MAX - d) / 10 {
                        proof {
                            assert(acc * 10 + d <= usize::MAX) by (nonlinear_arith)
                                requires
                                    acc as int <= (usize::MAX - d) as int / 10,
                                    0 <= d <= 9,
                                    acc >= 0;
                        }
                        acc = acc * 10 + d;
                    } else {
                        proof {
                            assert(acc * 10 + d > usize::MAX) by (nonlinear_arith)
                                requires
                                    acc as int > (usize::MAX - d) as int / 10,
                                    0 <= d <= 9,
                                    acc >= 0;
                        }
                        valid = false;
                    }
                } else {
                    proof {
                        if valid {
                            // A non-digit byte spoils the token.
                            assert(!is_digit(tp2.last()));
                        } else {
                            // Once spoiled, the value only grows.
                            if forall|k: int| 0 <= k < tp2.len()
                                ==> is_digit(#[trigger] tp2[k]) {
                                assert(dec_value(tp2)
                                    == dec_value(tp) * 10 + (tp2.last() - 48) as nat);
                                assert(dec_value(tp) * 10 >= dec_value(tp))
                                    by (nonlinear_arith);
                            }
                        }
                    }
                    valid = false;
                }
                proof {
                    let sufs = data@.subrange(start as int, n as int);
                    let sufi = data@.subrange(i as int, n as int);
                    let sufi2 = data@.subrange(i as int + 1, n as int);
                    assert(sufi[0] == data@[i as int]);
                    assert(!is_ws(sufi[0]));
                    assert(sufi.subrange(1, sufi.len() as int) =~= sufi2);
                }
                i += 1;
            }
            proof {
                // The scan stopped at the token's end.
                let sufi = data@.subrange(i as int, n as int);
                if i < n {
                    assert(sufi[0] == data@[i as int]);
                }
                assert(first_token_len(sufi) == 0);
                let sufs = data@.subrange(start as int, n as int);
                let t = data@.subrange(start as int, i as int);
                assert(first_token_len(sufs) == i - start);
                assert(t.len() >= 1);
                assert(sufs[0] == data@[start as int]);
                assert(!is_ws(sufs[0]));
                assert(sufs.subrange(0, i - start) =~= t);
                assert(sufs.subrange(i - start, sufs.len() as int) =~= sufi);
                assert(tokens_of(sufs) == seq![t] + tokens_of(sufi));
                let ts = seq![t] + tokens_of(sufi);
                assert(ts[0] == t);
                assert(ts.subrange(1, ts.len() as int) =~= tokens_of(sufi));
                assert(data_values(tokens_of(sufs))
                    == (if is_data(t) { seq![dec_value(t)] } else { Seq::<nat>::empty() })
                        + data_values(tokens_of(sufi)));
                assert(valid == is_data(t));
            }
            if valid {
                let ghost old_vals = vals@;
                vals.push(acc);
                proof {
                    assert(vals@.map_values(|v: usize| v as nat)
                        =~= old_vals.map_values(|v: usize| v as nat).push(acc as nat));
                }
            }
        }
    }
    proof {
        assert(data@.subrange(n as int, n as int) =~= Seq::<u8>::empty());
        assert(dv =~= vals@.map_values(|v: usize| v as nat));
    }
    vals
}

/// An ASCII P3 image: a raster of straight colors with the dimensions of
/// its header.
pub struct PPMImage {
    pub width: usize,
    pub height: usize,
    pub colors: Vec<Color>,
}

impl PPMImage {
    /// The stored colors, row-major.
    pub open spec fn colors_view(&self) -> Seq<Color> {
        self.colors@
    }

    /// The image invariant: the color buffer matches the dimensions, which
    /// stay within the raster limit.
    pub open spec fn wf(&self) -> bool {
        &&& self.colors_view().len() == self.width * self.height
        &&& self.width <= 0x7FFF
        &&& self.height <= 0x7FFF
    }

    /// A blank white image of the given size.
    pub fn new(width: usize, height: usize) -> (img: PPMImage)
        requires
            width <= 0x7FFF,
            height <= 0x7FFF,
        ensures
            img.wf(),
            img.width == width,
            img.height == height,
            forall|i: int| 0 <= i < img.colors_view().len()
                ==> #[trigger] img.colors_view()[i]
                    == (Color { a: 0x10000i32, r: 0x10000i32, g: 0x10000i32, b: 0x10000i32 }),
    {
        proof {
            assert(width * height <= 0x40000000) by (nonlinear_arith)
                requires width <= 0x8000 && height <= 0x8000;
        }
        let n = width * height;
        let white = Color::white();
        let mut colors: Vec<Color> = Vec::with_capacity(n);
        let mut i: usize = 0;
        while i < n
            invariant
                i <= n,
                colors@.len() == i,
                white == (Color { a: 0x10000i32, r: 0x10000i32, g: 0x10000i32, b: 0x10000i32 }),
                forall|k: int| 0 <= k < i ==> #[trigger] colors@[k] == white,
            decreases n - i,
        {
            colors.push(white);
            i += 1;
        }
        PPMImage { width, height, colors }
    }

    /// Overwrites one stored color.
    pub fn set(&mut self, x: usize, y: usize, c: &Color)
        requires
            old(self).wf(),
            x < old(self).width,
            y < old(self).height,
        ensures
            final(self).wf(),
            final(self).width == old(self).width,
            final(self).height == old(self).height,
            final(self).colors_view()
                == old(self).colors_view().update(x + y * old(self).width, *c),
    {
        proof {
            crate::bitmap::lemma_index_in_bounds(
                self.width as int, self.height as int, x as int, y as int);
            assert(self.width * self.height <= 0x40000000) by (nonlinear_arith)
                requires self.width <= 0x8000 && self.height <= 0x8000;
        }
        let i = x + y * self.width;
        self.colors[i] = *c;
    }

    /// Reads one stored color.
    pub fn get(&self, x: usize, y: usize) -> (c: Color)
        requires
            self.wf(),
            x < self.width,
            y < self.height,
        ensures
            c == self.colors_view()[x + y * self.width],
    {
        proof {
            crate::bitmap::lemma_index_in_bounds(
                self.width as int, self.height as int, x as int, y as int);
            assert(self.width * self.height <= 0x40000000) by (nonlinear_arith)
                requires self.width <= 0x8000 && self.height <= 0x8000;
        }
        self.colors[x + y * self.width]
    }

    /// Serializes the image as ASCII P3 bytes.
    pub fn write(&self) -> (out: Vec<u8>)
        requires
            self.wf(),
        ensures
            out@ == ppm_bytes(self.width as nat, self.height as nat, self.colors_view()),
    {
        let mut out: Vec<u8> = Vec::new();
        // "P3\n"
        out.push(80);
        out.push(51);
        out.push(10);
        push_dec(&mut out, self.width);
        out.push(32);
        push_dec(&mut out, self.height);
        out.push(32);
        push_dec(&mut out, 255);
        out.push(10);

        let ghost header = out@;
        proof {
            assert(header =~= seq![80u8, 51u8, 10u8] + dec_digits(self.width as nat)
                + seq![32u8] + dec_digits(self.height as nat) + seq![32u8]
                + dec_digits(255) + seq![10u8]);
        }

        let n = self.colors.len();
        let mut i: usize = 0;
        while i < n
            invariant
                i <= n,
                n == self.colors_view().len(),
                self.wf(),
                out@ + pixel_lines(self.colors_view(), i as int)
                    =~= header + pixel_lines(self.colors_view(), 0),
            decreases n - i,
        {
            let pixel = self.colors[i].to_pixel();
            let r = unpremul_out(pixel.r, pixel.a);
            let g = unpremul_out(pixel.g, pixel.a);
            let b = unpremul_out(pixel.b, pixel.a);
            let ghost before = out@;
            push_dec(&mut out, r as usize);
            out.push(32);
            push_dec(&mut out, g as usize);
            out.push(32);
            push_dec(&mut out, b as usize);
            out.push(10);
            proof {
                assert(out@ =~= before + color_line(self.colors_view()[i as int]));
                assert(out@ + pixel_lines(self.colors_view(), i + 1)
                    =~= before + pixel_lines(self.colors_view(), i as int));
            }
            i += 1;
        }
        proof {
            assert(pixel_lines(self.colors_view(), n as int) =~= Seq::<u8>::empty());
            assert(out@ =~= header + pixel_lines(self.colors_view(), 0));
            assert(out@ =~= ppm_bytes(self.width as nat, self.height as nat,
                self.colors_view()));
        }
        out
    }

    /// Parses ASCII P3 bytes into this image. On failure the image is left
    /// exactly as it was.
    pub fn read(&mut self, data: &[u8]) -> (ok: bool)
        ensures
            ok == decode_spec(data_values(tokens_of(data@))).is_some(),
            !ok ==> *final(self) == *old(self),
            ok ==> ({
                let (w, h, colors) = decode_spec(data_values(tokens_of(data@))).unwrap();
                &&& final(self).width == w
                &&& final(self).height == h
                &&& final(self).colors_view() == colors
                &&& final(self).wf()
            }),
    {
        let vals = parse_values(data);
        let ghost dv = data_values(tokens_of(data@));

        if vals.len() < 3 {
            return false;
        }
        let w = vals[0];
        let h = vals[1];
        if w > 0x7FFF || h > 0x7FFF {
            return false;
        }
        proof {
            assert(w * h <= 0x3FFF0001) by (nonlinear_arith)
                requires w <= 0x7FFF && h <= 0x7FFF;
            assert(3 * ((w as int) * (h as int)) == 3 * (w as int) * (h as int))
                by (nonlinear_arith);
        }
        let n = w * h;
        let need = 3 * n;
        if vals.len() - 3 < need {
            return false;
        }

        let mut colors: Vec<Color> = Vec::with_capacity(n);
        let mut j: usize = 0;
        while j < n
            invariant
                j <= n,
                n == w * h,
                w <= 0x7FFF && h <= 0x7FFF,
                n <= 0x3FFF0001,
                vals@.len() >= 3 + 3 * n,
                dv.len() == vals@.len(),
                forall|i: int| 0 <= i < dv.len() ==> vals@[i] as nat == dv[i],
                colors@.len() == j,
                forall|k: int| 0 <= k < j
                    ==> #[trigger] colors@[k] == decoded_color(dv, k),
            decreases n - j,
        {
            proof {
                assert(3 + 3 * j + 2 < vals@.len()) by (nonlinear_arith)
                    requires j < n && vals@.len() >= 3 + 3 * n;
            }
            let r = (vals[3 + 3 * j] % 256) as u8;
            let g = (vals[3 + 3 * j + 1] % 256) as u8;
            let b = (vals[3 + 3 * j + 2] % 256) as u8;
            let c = Pixel::pack_rgb(r, g, b).to_color();
            colors.push(c);
            j += 1;
        }

        self.width = w;
        self.height = h;
        self.colors = colors;
        proof {
            let (dw, dh, dcolors) = decode_spec(dv).unwrap();
            assert(self.colors@ =~= dcolors);
        }
        true
    }
}

} // verus!
