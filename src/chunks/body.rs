use vstd::arithmetic::div_mod::*;
use vstd::arithmetic::mul::*;
use vstd::arithmetic::power2::*;
use vstd::bits::lemma_u128_shr_is_div;
use vstd::prelude::*;

use crate::color::{extend, extend_defined, extend_value, fits, number_type_of, packed_bytes, packed_depth, packed_samples, read_colors_variant, write_colors_variant, ChannelVariant, ColorList};
use crate::format::Format;
use crate::Head;
use crate::error::{ReadError, ReadErrorKind, WriteError, WriteErrorKind};
use crate::format::{carrier_for, ChannelValueType, ColorType, NumberType};
use crate::io::{lemma_pow2_128, pack_bits, packs_bits, spec_get_bit};

verus! {

/// Bytes in one bit-plane of a row.
pub open spec fn plane_len(width: nat) -> nat {
    (width + 7) / 8
}

/// Bytes of a whole interleaved image.
pub open spec fn interleaved_len(width: nat, height: nat, planes: nat, channels: nat) -> nat {
    height * channels * planes * plane_len(width)
}

/// Byte offset of bit-plane `p` of channel `c` in row `y`.
pub open spec fn plane_offset(y: nat, c: nat, p: nat, width: nat, planes: nat, channels: nat) -> nat {
    ((y * channels + c) * planes + p) * plane_len(width)
}

/// Bit `p` of the raw value of channel `c` of pixel `(x, y)`.
pub open spec fn plane_bit(
    b: Seq<u8>,
    y: nat,
    x: nat,
    c: nat,
    p: nat,
    width: nat,
    planes: nat,
    channels: nat,
) -> u8 {
    spec_get_bit(b, 8 * plane_offset(y, c, p, width, planes, channels) + x)
}

/// The raw value made of planes `p..planes`, plane `p` as its lowest bit.
pub open spec fn gather(
    b: Seq<u8>,
    y: nat,
    x: nat,
    c: nat,
    p: nat,
    width: nat,
    planes: nat,
    channels: nat,
) -> nat
    decreases planes - p,
{
    if p >= planes {
        0
    } else {
        plane_bit(b, y, x, c, p, width, planes, channels) as nat + 2 * gather(
            b,
            y,
            x,
            c,
            p + 1,
            width,
            planes,
            channels,
        )
    }
}

/// Sample `i` (pixel `i / channels`, channel `i % channels`) of an interleaved
/// image, extended to a carrier of `bits` bits.
pub open spec fn interleaved_sample(
    b: Seq<u8>,
    width: nat,
    planes: nat,
    channels: nat,
    bits: nat,
    i: nat,
) -> u128 {
    let c = i % channels;
    let pix = i / channels;
    extend_value(
        gather(b, pix / width, pix % width, c, 0, width, planes, channels),
        planes,
        bits,
    ) as u128
}

pub open spec fn interleaved_samples(
    b: Seq<u8>,
    width: nat,
    height: nat,
    planes: nat,
    channels: nat,
    bits: nat,
) -> Seq<u128> {
    Seq::new(
        width * height * channels,
        |i: int| interleaved_sample(b, width, planes, channels, bits, i as nat),
    )
}

/// Depths the interleaved layout supports.
pub open spec fn interleaved_depth(is_float: bool, planes: nat) -> bool {
    if is_float {
        planes == 32 || planes == 64
    } else {
        1 <= planes <= 128
    }
}

proof fn lemma_gather_bound(
    b: Seq<u8>,
    y: nat,
    x: nat,
    c: nat,
    p: nat,
    width: nat,
    planes: nat,
    channels: nat,
)
    requires
        p <= planes,
    ensures
        gather(b, y, x, c, p, width, planes, channels) < pow2((planes - p) as nat),
        0 <= gather(b, y, x, c, p, width, planes, channels),
    decreases planes - p,
{
    reveal(pow2);
    if p < planes {
        lemma_gather_bound(b, y, x, c, p + 1, width, planes, channels);
        assert(plane_bit(b, y, x, c, p, width, planes, channels) <= 1) by {
            let k = 8 * plane_offset(y, c, p, width, planes, channels) + x;
            let v = b[(k / 8) as int];
            let s = (k % 8) as u8;
            assert((v >> s) & 1u8 <= 1) by (bit_vector);
        }
        lemma_pow2_unfold((planes - p) as nat);
    } else {
        lemma2_to64();
    }
}


proof fn lemma_plane_index(y: nat, c: nat, p: nat, xb: nat, h: nat, ch: nat, n: nat, pl: nat)
    requires
        y < h,
        c < ch,
        p < n,
        xb < pl,
    ensures
        y * ch + c < h * ch * n * pl,
        (y * ch + c) * n + p < h * ch * n * pl,
        ((y * ch + c) * n + p) * pl < h * ch * n * pl,
        ((y * ch + c) * n + p) * pl + xb < h * ch * n * pl,
{
    assert(h * ch <= h * ch * n * pl && h * ch * n <= h * ch * n * pl) by (nonlinear_arith)
        requires
            n >= 1,
            pl >= 1,
    ;
    assert(y * ch + c < h * ch) by (nonlinear_arith)
        requires
            y < h,
            c < ch,
    {
        assert(y * ch + c < y * ch + ch);
        assert(y * ch + ch == (y + 1) * ch);
        assert((y + 1) * ch <= h * ch);
    }
    let a = y * ch + c;
    assert(a * n + p < h * ch * n) by (nonlinear_arith)
        requires
            a < h * ch,
            p < n,
    {
        assert(a * n + p < a * n + n);
        assert(a * n + n == (a + 1) * n);
        assert((a + 1) * n <= (h * ch) * n);
    }
    let q = a * n + p;
    assert(q * pl + xb < h * ch * n * pl) by (nonlinear_arith)
        requires
            q < h * ch * n,
            xb < pl,
    {
        assert(q * pl + xb < q * pl + pl);
        assert(q * pl + pl == (q + 1) * pl);
        assert((q + 1) * pl <= (h * ch * n) * pl);
    }
}

proof fn lemma_pixel_position(i: nat, ch: nat, w: nat, h: nat)
    requires
        i < w * h * ch,
        ch > 0,
        w > 0,
    ensures
        i / ch < w * h,
        (i / ch) / w < h,
        (i / ch) % w < w,
        i % ch < ch,
{
    lemma_div_pos_is_pos(i as int, ch as int);
    assert(i / ch < w * h) by {
        assert(ch * (w * h) == w * h * ch) by (nonlinear_arith);
        lemma_multiply_divide_lt(i as int, ch as int, (w * h) as int);
        assert((w * h) * ch == w * h * ch) by (nonlinear_arith);
        assert(ch * (w * h) == w * h * ch) by (nonlinear_arith);
    }
    lemma_multiply_divide_lt((i / ch) as int, w as int, h as int);
    lemma_mod_pos_bound((i / ch) as int, w as int);
    lemma_mod_pos_bound(i as int, ch as int);
}

/// Decodes an interleaved (bit-plane) body.
pub fn read_interleaved_colors(
    bytes: &[u8],
    is_float: bool,
    planes: u8,
    channels: u8,
    width: u32,
    height: u32,
) -> (r: Result<ColorList, ReadError>)
    requires
        bytes@.len() * 8 <= usize::MAX,
    ensures
        r is Ok <==> interleaved_depth(is_float, planes as nat)
            && ColorType::spec_from_channels(channels as nat) is Some
            && bytes@.len() >= interleaved_len(width as nat, height as nat, planes as nat, channels as nat),
        r is Err ==> r->Err_0.kind == ReadErrorKind::BrokenFile,
        r is Ok ==> {
            &&& Some(r->Ok_0.spec_value_type()) == carrier_for(number_type_of(is_float), planes as nat)
            &&& Some(r->Ok_0.spec_color_type()) == ColorType::spec_from_channels(channels as nat)
            &&& r->Ok_0.samples() == interleaved_samples(
                bytes@,
                width as nat,
                height as nat,
                planes as nat,
                channels as nat,
                r->Ok_0.spec_value_type().bits(),
            )
        },
{
    let depth_ok = if is_float {
        planes == 32 || planes == 64
    } else {
        1 <= planes && planes <= 128
    };
    if !depth_ok {
        return Err(ReadError::with_message(ReadErrorKind::BrokenFile, "unsupported color format"));
    }
    let color_type = match ColorType::from_channels(channels) {
        Ok(t) => t,
        Err(_) => {
            return Err(ReadError::with_message(ReadErrorKind::BrokenFile, "illegal number of channels"));
        },
    };
    let number_type = if is_float { NumberType::Float } else { NumberType::Integer };
    let value_type = match ChannelValueType::from_planes(number_type, planes) {
        Ok(t) => t,
        Err(_) => {
            return Err(ReadError::with_message(ReadErrorKind::BrokenFile, "unsupported color format"));
        },
    };
    let bits = value_type.planes() as u32;
    assert(extend_defined(planes as nat, bits as nat));
    let pl_wide: u128 = (width as u128 + 7) / 8;
    proof {
        assert(height * channels * planes * pl_wide <= 0xFFFF_FFFF * 4 * 128 * 0x2000_0000) by (nonlinear_arith)
            requires
                height <= 0xFFFF_FFFF,
                channels <= 4,
                planes <= 128,
                pl_wide <= 0x2000_0000,
        ;
    }
    proof {
        assert(height * channels <= 0xFFFF_FFFF * 4) by (nonlinear_arith)
            requires
                height <= 0xFFFF_FFFF,
                channels <= 4,
        ;
        assert(height * channels * planes <= 0xFFFF_FFFF * 4 * 128) by (nonlinear_arith)
            requires
                height * channels <= 0xFFFF_FFFF * 4,
                planes <= 128,
        ;
    }
    let needed: u128 = height as u128 * channels as u128 * planes as u128 * pl_wide;
    if (bytes.len() as u128) < needed {
        return Err(ReadError::with_message(ReadErrorKind::BrokenFile, "truncated BODY chunk"));
    }
    let ghost w = width as nat;
    let ghost h = height as nat;
    let ghost n = planes as nat;
    let ghost ch = channels as nat;
    let mut out: Vec<u128> = Vec::new();
    if width == 0 || height == 0 {
        proof {
            assert(w * h * ch == 0) by (nonlinear_arith)
                requires
                    w == 0 || h == 0,
            ;
            lemma_mod_multiples_basic(0, ch as int);
        }
        let r = ChannelVariant::from_samples(value_type, color_type, &out);
        assert(r.samples() =~= interleaved_samples(bytes@, w, h, n, ch, bits as nat));
        return Ok(r);
    }
    proof {
        // every sample has at least one bit among the bytes present
        assert(w * h * ch <= 8 * needed) by (nonlinear_arith)
            requires
                needed == h * ch * n * pl_wide,
                pl_wide == (w + 7) / 8,
                n >= 1,
                w >= 1,
        {
            assert(w <= 8 * pl_wide);
            assert(h * ch * w <= h * ch * (8 * pl_wide));
            assert(h * ch * (8 * pl_wide) <= h * ch * n * (8 * pl_wide));
        }
        assert(w * h <= w * h * ch) by (nonlinear_arith)
            requires
                ch >= 1,
        ;
    }
    let pl = pl_wide as usize;
    let ch_u = channels as usize;
    let n_u = planes as usize;
    let w_u = width as usize;
    let total = w_u * height as usize * ch_u;
    let mut i: usize = 0;
    while i < total
        invariant
            total == w * h * ch,
            n == planes as nat,
            w == width as nat,
            h == height as nat,
            ch == channels as nat,
            w >= 1,
            h >= 1,
            ch == ch_u,
            1 <= ch <= 4,
            n == n_u,
            1 <= n <= 128,
            w == w_u,
            pl == plane_len(w),
            bytes@.len() >= h * ch * n * pl,
            bytes@.len() * 8 <= usize::MAX,
            extend_defined(n, bits as nat),
            bits as nat == value_type.bits(),
            bits <= 128,
            i <= total,
            out@.len() == i,
            forall|j: int| 0 <= j < i ==> #[trigger] out@[j] == interleaved_sample(bytes@, w, n, ch, bits as nat, j as nat),
            fits(out@, bits as nat),
        decreases total - i,
    {
        let c = i % ch_u;
        let pix = i / ch_u;
        let x = pix % w_u;
        let y = pix / w_u;
        proof {
            lemma_pixel_position(i as nat, ch, w, h);
            assert(x / 8 < pl);
        }
        let value = read_interleaved_int_color(bytes, y, x, c, n_u, ch_u, pl, Ghost(w), Ghost(h));
        proof {
            lemma_gather_bound(bytes@, y as nat, x as nat, c as nat, 0, w, n, ch);
        }
        let v = extend(value, planes, bits);
        out.push(v);
        i = i + 1;
    }
    proof {
        lemma_mod_multiples_basic((w * h) as int, ch as int);
        assert(w * h * ch == (w * h) * ch);
    }
    let r = ChannelVariant::from_samples(value_type, color_type, &out);
    assert(r.samples() =~= interleaved_samples(bytes@, w, h, n, ch, bits as nat));
    Ok(r)
}


/// The raw value of channel `c` of pixel `(x, y)`, gathered from its bit-planes.
fn read_interleaved_int_color(
    bytes: &[u8],
    y: usize,
    x: usize,
    c: usize,
    n_u: usize,
    ch_u: usize,
    pl: usize,
    Ghost(w): Ghost<nat>,
    Ghost(h): Ghost<nat>,
) -> (value: u128)
    requires
        1 <= n_u <= 128,
        y < h,
        c < ch_u,
        x < w,
        pl == plane_len(w),
        bytes@.len() >= h * ch_u * n_u * pl,
        bytes@.len() * 8 <= usize::MAX,
    ensures
        value as nat == gather(bytes@, y as nat, x as nat, c as nat, 0, w, n_u as nat, ch_u as nat),
        (value as nat) < pow2(n_u as nat),
{
    let ghost n = n_u as nat;
    let ghost ch = ch_u as nat;
    assert(x / 8 < pl);
    let mut value: u128 = 0;
    let mut p: usize = n_u;
    proof {
        lemma2_to64();
    }
    while p > 0
        invariant
            p <= n,
            n == n_u,
            1 <= n <= 128,
            y < h,
            c < ch,
            x < w,
            x / 8 < pl,
            ch == ch_u,
            pl == plane_len(w),
            bytes@.len() >= h * ch * n * pl,
            bytes@.len() * 8 <= usize::MAX,
            value as nat == gather(bytes@, y as nat, x as nat, c as nat, p as nat, w, n, ch),
            (value as nat) < pow2((n - p) as nat),
        decreases p,
    {
        proof {
            lemma_plane_index(y as nat, c as nat, (p - 1) as nat, (x / 8) as nat, h, ch, n, pl as nat);
        }
        let idx = ((y * ch_u + c) * n_u + (p - 1)) * pl + x / 8;
        let byte = bytes[idx];
        let bit = (byte >> ((x % 8) as u8)) & 1u8;
        proof {
            let k = 8 * plane_offset(y as nat, c as nat, (p - 1) as nat, w, n, ch) + x;
            assert(k / 8 == idx);
            assert(k % 8 == x % 8);
            assert(bit == plane_bit(bytes@, y as nat, x as nat, c as nat, (p - 1) as nat, w, n, ch));
            assert(bit <= 1) by (bit_vector)
                requires
                    bit == (byte >> ((x % 8) as u8)) & 1u8,
            ;
            lemma_pow2_unfold((n - p + 1) as nat);
            if n - p < 127 {
                lemma_pow2_strictly_increases((n - p) as nat, 127);
            }
            lemma_pow2_128();
            lemma_pow2_adds(127, 1);
            lemma2_to64();
            assert(value * 2 + bit < pow2(128)) by (nonlinear_arith)
                requires
                    value < pow2(127),
                    bit <= 1,
                    pow2(127) * 2 == pow2(128),
            ;
        }
        value = value * 2 + bit as u128;
        p = p - 1;
    }
    value
}


/// Bit `k` of the interleaved stream of samples `s`: the stream runs row by
/// row, channel by channel and plane by plane, each plane padded with zero
/// bits to whole bytes. A sample contributes its top `planes` bits.
pub open spec fn interleaved_bit(
    s: Seq<u128>,
    width: nat,
    planes: nat,
    channels: nat,
    bits: nat,
    k: nat,
) -> u8 {
    let pl8 = 8 * plane_len(width);
    let x = k % pl8;
    let r = k / pl8;
    let p = r % planes;
    let y = (r / planes) / channels;
    let c = (r / planes) % channels;
    if x < width {
        (((s[((y * width + x) * channels + c) as int] as nat / pow2((bits - planes) as nat)) / pow2(p))
            % 2) as u8
    } else {
        0
    }
}

pub open spec fn interleaved_bits(
    s: Seq<u128>,
    width: nat,
    height: nat,
    planes: nat,
    channels: nat,
    bits: nat,
) -> Seq<u8> {
    Seq::new(
        8 * interleaved_len(width, height, planes, channels),
        |k: int| interleaved_bit(s, width, planes, channels, bits, k as nat),
    )
}

proof fn lemma_stream_position(k: nat, pl8: nat, n: nat, ch: nat, h: nat, w: nat)
    requires
        k < h * ch * n * pl8,
        pl8 > 0,
        n > 0,
        ch > 0,
        w > 0,
        (k % pl8) < w,
    ensures
        ((k / pl8) / n) / ch < h,
        ((k / pl8) / n) % ch < ch,
        (k / pl8) % n < n,
        ((((k / pl8) / n) / ch) * w + k % pl8) * ch + ((k / pl8) / n) % ch < w * h * ch,
{
    assert(pl8 * (h * ch * n) == h * ch * n * pl8) by (nonlinear_arith);
    lemma_multiply_divide_lt(k as int, pl8 as int, (h * ch * n) as int);
    let r = k / pl8;
    assert(n * (h * ch) == h * ch * n) by (nonlinear_arith);
    lemma_multiply_divide_lt(r as int, n as int, (h * ch) as int);
    let r2 = r / n;
    assert(ch * h == h * ch) by (nonlinear_arith);
    lemma_multiply_divide_lt(r2 as int, ch as int, h as int);
    lemma_mod_pos_bound(r2 as int, ch as int);
    lemma_mod_pos_bound(r as int, n as int);
    let y = r2 / ch;
    let c = r2 % ch;
    let x = k % pl8;
    assert((y * w + x) * ch + c < w * h * ch) by (nonlinear_arith)
        requires
            y < h,
            x < w,
            c < ch,
    {
        assert(y * w + x < y * w + w);
        assert(y * w + w == (y + 1) * w);
        assert((y + 1) * w <= h * w);
        assert(y * w + x + 1 <= h * w);
        assert((y * w + x) * ch + c < (y * w + x) * ch + ch);
        assert((y * w + x) * ch + ch == (y * w + x + 1) * ch);
        assert((y * w + x + 1) * ch <= (h * w) * ch);
        assert((h * w) * ch == w * h * ch);
    }
}

/// Encodes samples in the interleaved (bit-plane) layout.
pub fn write_interleaved_int_colors(
    samples: &[u128],
    planes: u8,
    bits: u32,
    channels: usize,
    width: usize,
    height: usize,
) -> (r: Vec<u8>)
    requires
        1 <= planes <= bits <= 128,
        1 <= channels <= 4,
        width >= 1,
        samples@.len() == width * height * channels,
        8 * interleaved_len(width as nat, height as nat, planes as nat, channels as nat) <= usize::MAX,
    ensures
        packs_bits(
            r@,
            interleaved_bits(samples@, width as nat, height as nat, planes as nat, channels as nat, bits as nat),
        ),
{
    let pl = width / 8 + if width % 8 == 0 { 0 } else { 1 };
    assert(pl == plane_len(width as nat));
    if height == 0 {
        let empty: Vec<u8> = Vec::new();
        proof {
            assert(8 * interleaved_len(width as nat, 0, planes as nat, channels as nat) == 0) by (nonlinear_arith);
            assert forall|i: nat| i < 8 * empty@.len() implies #[trigger] spec_get_bit(empty@, i) == 0u8 by {}
        }
        return pack_bits(&empty);
    }
    proof {
        assert(8 * pl <= 8 * interleaved_len(width as nat, height as nat, planes as nat, channels as nat)) by (nonlinear_arith)
            requires
                height >= 1,
                channels >= 1,
                planes >= 1,
                interleaved_len(width as nat, height as nat, planes as nat, channels as nat) == height * channels * planes * pl,
        ;
    }
    let pl8 = 8 * pl;
    let n = planes as usize;
    proof {
        assert(height * channels * n * pl8 == 8 * interleaved_len(width as nat, height as nat, planes as nat, channels as nat)) by (nonlinear_arith)
            requires
                pl8 == 8 * pl,
                pl == plane_len(width as nat),
                n == planes,
        ;
        assert(height * channels <= height * channels * n * pl8 && height * channels * n <= height * channels * n * pl8) by (nonlinear_arith)
            requires
                n >= 1,
                pl8 >= 1,
        ;
    }
    let total = height * channels * n * pl8;
    let slen = samples.len();
    let shift = bits - planes as u32;
    let mut stream: Vec<u8> = Vec::new();
    let mut k: usize = 0;
    while k < total
        invariant
            total == height * channels * n * pl8,
            total == 8 * interleaved_len(width as nat, height as nat, planes as nat, channels as nat),
            pl8 == 8 * plane_len(width as nat),
            n == planes,
            1 <= planes <= bits <= 128,
            shift == bits - planes,
            1 <= channels <= 4,
            width >= 1,
            samples@.len() == width * height * channels,
            slen == samples@.len(),
            k <= total,
            stream@.len() == k,
            forall|j: int| 0 <= j < k ==> #[trigger] stream@[j] == interleaved_bit(samples@, width as nat, planes as nat, channels as nat, bits as nat, j as nat),
            forall|j: int| 0 <= j < k ==> #[trigger] stream@[j] <= 1,
        decreases total - k,
    {
        let x = k % pl8;
        let r = k / pl8;
        let p = r % n;
        let c = (r / n) % channels;
        let y = (r / n) / channels;
        let b: u8 = if x < width {
            proof {
                lemma_stream_position(k as nat, pl8 as nat, n as nat, channels as nat, height as nat, width as nat);
                assert(y * width + x < width * height) by (nonlinear_arith)
                    requires
                        (y * width + x) * channels + c < width * height * channels,
                        channels >= 1,
                ;
                assert((y * width + x) * channels <= width * height * channels) by (nonlinear_arith)
                    requires
                        (y * width + x) * channels + c < width * height * channels,
                ;
                assert(width * height <= width * height * channels) by (nonlinear_arith)
                    requires
                        channels >= 1,
                ;
                assert(y * width <= y * width + x);
            }
            let v = samples[(y * width + x) * channels + c];
            let t = (v >> shift) >> (p as u128);
            proof {
                lemma_u128_shr_is_div(v, shift as u128);
                lemma_u128_shr_is_div(v >> shift, p as u128);
                assert((t & 1) == t % 2) by (bit_vector);
            }
            (t & 1) as u8
        } else {
            0
        };
        stream.push(b);
        k = k + 1;
    }
    pack_bits(&stream)
}


/// Channels of a body: one index per pixel in an indexed image, else the
/// header's channels.
pub open spec fn body_channels(head: Head) -> nat {
    if head.spec_index_planes() > 0 {
        1
    } else {
        head.spec_channels() as nat
    }
}

/// Carrier, arrangement and samples of a BODY payload under a header, or
/// `None` when the payload cannot be decoded.
pub open spec fn decoded_body(b: Seq<u8>, head: Head) -> Option<(ChannelValueType, ColorType, Seq<u128>)> {
    let planes = head.spec_planes() as nat;
    let channels = body_channels(head);
    let nt = number_type_of(head.spec_float());
    if ColorType::spec_from_channels(channels) is None {
        None
    } else if !head.spec_interleaved() {
        if packed_depth(head.spec_float(), planes) {
            Some((carrier_for(nt, planes)->0, ColorType::spec_from_channels(channels)->0, packed_samples(b, planes, channels)))
        } else {
            None
        }
    } else if interleaved_depth(head.spec_float(), planes) && b.len() >= interleaved_len(
        head.spec_width() as nat,
        head.spec_height() as nat,
        planes,
        channels,
    ) {
        Some(
            (
                carrier_for(nt, planes)->0,
                ColorType::spec_from_channels(channels)->0,
                interleaved_samples(
                    b,
                    head.spec_width() as nat,
                    head.spec_height() as nat,
                    planes,
                    channels,
                    carrier_for(nt, planes)->0.bits(),
                ),
            ),
        )
    } else {
        None
    }
}

/// Whether a pixel buffer can be stored under a header: its carrier is the
/// one the header's planes call for, its arrangement is the header's, it has
/// `width * height` pixels, and the layout supports the depth.
pub open spec fn body_writable(data: ColorList, head: Head) -> bool {
    let planes = head.spec_planes() as nat;
    let nt = number_type_of(head.spec_float());
    &&& planes > 0
    &&& carrier_for(nt, planes) == Some(data.spec_value_type())
    &&& ColorType::spec_from_channels(body_channels(head)) == Some(data.spec_color_type())
    &&& data.spec_len() == head.spec_width() as nat * head.spec_height() as nat
    &&& if head.spec_interleaved() {
        &&& interleaved_depth(head.spec_float(), planes)
        &&& 8 * interleaved_len(head.spec_width() as nat, head.spec_height() as nat, planes, body_channels(head)) <= usize::MAX
    } else {
        packed_depth(head.spec_float(), planes)
    }
}

/// `out` is the BODY payload of samples `s` under a header.
pub open spec fn encoded_body(out: Seq<u8>, s: Seq<u128>, head: Head, bits: nat) -> bool {
    if head.spec_interleaved() {
        packs_bits(
            out,
            interleaved_bits(
                s,
                head.spec_width() as nat,
                head.spec_height() as nat,
                head.spec_planes() as nat,
                body_channels(head),
                bits,
            ),
        )
    } else {
        packed_bytes(out, s, head.spec_planes() as nat)
    }
}

proof fn lemma_packed_count_le(len: nat, ch: nat)
    requires
        1 <= ch,
    ensures
        crate::color::packed_count(len, 1, ch) <= len * 8,
{
    let q = (len * 8) / ch;
    lemma_fundamental_div_mod((len * 8) as int, ch as int);
    lemma_mod_pos_bound((len * 8) as int, ch as int);
    assert(q * ch <= len * 8) by (nonlinear_arith)
        requires
            ch * q <= len * 8,
    ;
    assert(crate::color::packed_count(len, 1, ch) == q * ch);
}

proof fn lemma_gather_value(
    b: Seq<u8>,
    y: nat,
    x: nat,
    c: nat,
    p: nat,
    width: nat,
    planes: nat,
    channels: nat,
    v: nat,
)
    requires
        p <= planes,
        v < pow2(planes),
        forall|q: nat|
            p <= q < planes ==> #[trigger] plane_bit(b, y, x, c, q, width, planes, channels) as nat == (v
                / pow2(q)) % 2,
    ensures
        gather(b, y, x, c, p, width, planes, channels) == v / pow2(p),
    decreases planes - p,
{
    lemma_pow2_pos(p);
    if p < planes {
        lemma_gather_value(b, y, x, c, p + 1, width, planes, channels, v);
        lemma_pow2_unfold(p + 1);
        lemma_div_denominator(v as int, pow2(p) as int, 2);
        assert(pow2(p) * 2 == pow2(p + 1));
        lemma_fundamental_div_mod((v / pow2(p)) as int, 2);
    } else {
        lemma_div_small(v, pow2(planes));
    }
}

proof fn lemma_div_small(v: nat, d: nat)
    requires
        v < d,
    ensures
        v / d == 0,
{
    lemma_basic_div(v as int, d as int);
}

/// Where bit `x` of plane `p` of channel `c` in row `y` sits in the stream
/// of an interleaved image.
proof fn lemma_stream_index(y: nat, c: nat, p: nat, x: nat, w: nat, n: nat, ch: nat)
    requires
        x < w,
        c < ch,
        p < n,
        w >= 1,
    ensures
        ({
            let pl8 = 8 * plane_len(w);
            let k = ((y * ch + c) * n + p) * pl8 + x;
            &&& k == 8 * plane_offset(y, c, p, w, n, ch) + x
            &&& k % pl8 == x
            &&& k / pl8 == (y * ch + c) * n + p
            &&& (k / pl8) % n == p
            &&& ((k / pl8) / n) % ch == c
            &&& ((k / pl8) / n) / ch == y
        }),
{
    let pl8 = 8 * plane_len(w);
    let r = (y * ch + c) * n + p;
    let k = r * pl8 + x;
    assert(x < pl8);
    assert(k == 8 * plane_offset(y, c, p, w, n, ch) + x) by (nonlinear_arith)
        requires
            k == r * pl8 + x,
            r == (y * ch + c) * n + p,
            pl8 == 8 * plane_len(w),
            plane_offset(y, c, p, w, n, ch) == ((y * ch + c) * n + p) * plane_len(w),
    ;
    lemma_fundamental_div_mod_converse(k as int, pl8 as int, r as int, x as int);
    lemma_fundamental_div_mod_converse(r as int, n as int, (y * ch + c) as int, p as int);
    lemma_fundamental_div_mod_converse((y * ch + c) as int, ch as int, y as int, c as int);
}

/// An interleaved image whose depth is its carrier's width reads back
/// the samples it was written from.
pub proof fn lemma_interleaved_round_trip(out: Seq<u8>, s: Seq<u128>, w: nat, h: nat, ch: nat, bits: nat)
    requires
        packs_bits(out, interleaved_bits(s, w, h, bits, ch, bits)),
        s.len() == w * h * ch,
        fits(s, bits),
        1 <= ch <= 4,
        w >= 1,
        1 <= bits <= 128,
    ensures
        out.len() == interleaved_len(w, h, bits, ch),
        interleaved_samples(out, w, h, bits, ch, bits) == s,
{
    let il = interleaved_len(w, h, bits, ch);
    assert(out.len() == il) by {
        assert((8 * il + 7) / 8 == il);
    }
    let stream = interleaved_bits(s, w, h, bits, ch, bits);
    assert forall|i: int| 0 <= i < s.len() implies #[trigger] interleaved_samples(out, w, h, bits, ch, bits)[i] == s[i] by {
        let c = i as nat % ch;
        let pix = i as nat / ch;
        let x = pix % w;
        let y = pix / w;
        lemma_pixel_position(i as nat, ch, w, h);
        lemma_fundamental_div_mod(i, ch as int);
        lemma_fundamental_div_mod(pix as int, w as int);
        assert((y * w + x) * ch + c == i) by (nonlinear_arith)
            requires
                pix == w * y + x,
                i == ch * pix + c,
        ;
        let v = s[i] as nat;
        assert forall|q: nat| 0 <= q < bits implies #[trigger] plane_bit(out, y, x, c, q, w, bits, ch) as nat == (v / pow2(q)) % 2 by {
            lemma_stream_index(y, c, q, x, w, bits, ch);
            let pl8 = 8 * plane_len(w);
            let k = ((y * ch + c) * bits + q) * pl8 + x;
            lemma_plane_index(y, c, q, x / 8, h, ch, bits, plane_len(w));
            assert(k < 8 * il) by (nonlinear_arith)
                requires
                    ((y * ch + c) * bits + q) * plane_len(w) + x / 8 < h * ch * bits * plane_len(w),
                    k == ((y * ch + c) * bits + q) * pl8 + x,
                    pl8 == 8 * plane_len(w),
                    il == h * ch * bits * plane_len(w),
                    x % 8 < 8,
                    x == 8 * (x / 8) + x % 8,
            ;
            assert(stream[k as int] == interleaved_bit(s, w, bits, ch, bits, k));
            lemma2_to64();
            assert(v / pow2(0) == v);
        }
        lemma_gather_value(out, y, x, c, 0, w, bits, ch, v);
        lemma2_to64();
    }
    assert(interleaved_samples(out, w, h, bits, ch, bits) =~= s);
}

pub open spec fn samples_of(d: (ChannelValueType, ColorType, Seq<u128>)) -> Seq<u128> {
    d.2
}

/// Every sample of a 1-bit body, byte-packed or interleaved, decodes to
/// 0 or 255, whatever the bits.
pub proof fn lemma_one_bit_samples(b: Seq<u8>, head: Head)
    requires
        head.spec_planes() == 1,
        decoded_body(b, head) is Some,
    ensures
        forall|i: int|
            0 <= i < samples_of(decoded_body(b, head)->0).len() ==> #[trigger] samples_of(decoded_body(b, head)->0)[i] == 0
                || samples_of(decoded_body(b, head)->0)[i] == 255,
{
    let s = samples_of(decoded_body(b, head)->0);
    assert forall|i: int| 0 <= i < s.len() implies #[trigger] s[i] == 0 || s[i] == 255 by {
        let ch = body_channels(head);
        assert(!head.spec_float());
        if !head.spec_interleaved() {
            assert(s == packed_samples(b, 1, ch));
            let k = i as nat;
            assert(k / 8 < b.len()) by {
                lemma_packed_count_le(b.len(), ch);
            }
            let v = b[(k / 8) as int];
            let t = (k % 8) as u8;
            assert((v >> t) & 1u8 <= 1) by (bit_vector);
            let bit = spec_get_bit(b, k);
            assert(bit == 0 || bit == 1);
            assert(s[i] == (bit * 255) as u128);
        } else {
            let w = head.spec_width() as nat;
            let h = head.spec_height() as nat;
            assert(s == interleaved_samples(b, w, h, 1, ch, 8));
            let pix = i as nat / ch;
            lemma_gather_bound(b, pix / w, pix % w, i as nat % ch, 0, w, 1, ch);
            lemma2_to64();
            let g = gather(b, pix / w, pix % w, i as nat % ch, 0, w, 1, ch);
            assert(pow2(1) == 2);
            assert(g < pow2((1 - 0) as nat));
            assert(g < 2);
            assert(g * 255 == 0 || g * 255 == 255) by (nonlinear_arith)
                requires
                    g < 2,
                    g >= 0,
            ;
            assert(extend_value(g, 1, 8) == g * 255);
            assert(s[i] == (g * 255) as u128);
        }
    }
}

/// The BODY chunk: the image's pixels.
#[derive(Debug)]
pub struct Body {
    pub data: ColorList,
}

impl Body {
    pub const FOURCC: [u8; 4] = [0x42, 0x4F, 0x44, 0x59];

    /// An empty body of the given format.
    pub fn new(format: Format) -> (r: Self)
        ensures
            r.data.spec_value_type() == format.0,
            r.data.spec_color_type() == format.1,
            r.data.samples().len() == 0,
    {
        Body { data: format.make_color_list() }
    }

    pub fn with_data(data: ColorList) -> (r: Self)
        ensures
            r.data == data,
    {
        Body { data }
    }

    pub fn data(&self) -> (r: &ColorList)
        ensures
            *r == self.data,
    {
        &self.data
    }

    pub fn data_mut(&mut self) -> (r: &mut ColorList)
        ensures
            *r == old(self).data,
            final(self).data == *final(r),
    {
        &mut self.data
    }

    /// Decodes a BODY payload: byte-packed or bit-plane interleaved, as the
    /// header says.
    pub fn read(bytes: &[u8], head: &Head) -> (r: Result<Self, ReadError>)
        requires
            bytes@.len() * 8 <= usize::MAX,
        ensures
            r is Ok <==> decoded_body(bytes@, *head) is Some,
            r is Err ==> r->Err_0.kind == ReadErrorKind::BrokenFile,
            r is Ok ==> decoded_body(bytes@, *head) == Some(
                (r->Ok_0.data.spec_value_type(), r->Ok_0.data.spec_color_type(), r->Ok_0.data.samples()),
            ),
    {
        let channels = if head.is_indexed() {
            1
        } else {
            head.channels()
        };
        if !head.is_interleaved() {
            match read_colors_variant(bytes, head.is_float(), head.planes(), channels) {
                Ok(data) => Ok(Body { data }),
                Err(e) => Err(e),
            }
        } else {
            match read_interleaved_colors(
                bytes,
                head.is_float(),
                head.planes(),
                channels,
                head.width(),
                head.height(),
            ) {
                Ok(data) => Ok(Body { data }),
                Err(e) => Err(e),
            }
        }
    }

    /// Encodes the pixels as a BODY payload under the header.
    pub fn write(&self, head: &Head) -> (r: Result<Vec<u8>, WriteError>)
        ensures
            r is Ok <==> body_writable(self.data, *head),
            r is Err ==> r->Err_0.kind == WriteErrorKind::InvalidParams,
            r is Ok ==> encoded_body(r->Ok_0@, self.data.samples(), *head, self.data.spec_value_type().bits()),
    {
        let value_type = match ChannelValueType::from_planes(head.number_type(), head.planes()) {
            Ok(t) => t,
            Err(_) => {
                return Err(WriteError::with_message(WriteErrorKind::InvalidParams, "unsupported parameters for body colors"));
            },
        };
        if self.data.channel_value_type() != value_type {
            return Err(WriteError::with_message(WriteErrorKind::InvalidParams, "channel value type does not match the header"));
        }
        let header_channels = if head.is_indexed() {
            1
        } else {
            head.channels()
        };
        let color_type = match ColorType::from_channels(header_channels) {
            Ok(t) => t,
            Err(_) => {
                return Err(WriteError::with_message(WriteErrorKind::InvalidParams, "invalid number of channels"));
            },
        };
        if self.data.color_type() != color_type {
            return Err(WriteError::with_message(WriteErrorKind::InvalidParams, "color type does not match the header"));
        }
        let samples = self.data.to_samples();
        let channels = color_type.channels() as usize;
        let pixels = samples.len() / channels;
        proof {
            assert(pixels == self.data.spec_len()) by (nonlinear_arith)
                requires
                    samples@.len() == self.data.spec_len() * channels,
                    channels > 0,
                    pixels == samples@.len() / (channels as nat),
            {
                vstd::arithmetic::div_mod::lemma_div_multiples_vanish(self.data.spec_len() as int, channels as int);
            }
        }
        proof {
            assert(head.spec_width() * head.spec_height() <= 0xFFFF_FFFF * 0xFFFF_FFFF) by (nonlinear_arith)
                requires
                    head.spec_width() <= 0xFFFF_FFFF,
                    head.spec_height() <= 0xFFFF_FFFF,
            ;
        }
        if pixels as u64 != head.width() as u64 * head.height() as u64 {
            return Err(WriteError::with_message(WriteErrorKind::InvalidParams, "pixel count does not match the header"));
        }
        if head.is_interleaved() {
            let planes = head.planes();
            let float_ok = if head.is_float() {
                planes == 32 || planes == 64
            } else {
                true
            };
            if !float_ok {
                return Err(WriteError::with_message(WriteErrorKind::InvalidParams, "unsupported interleaved float depth"));
            }
            let width = head.width();
            let height = head.height();
            let pl_wide: u128 = (width as u128 + 7) / 8;
            proof {
                assert(height * channels <= 0xFFFF_FFFF * 4) by (nonlinear_arith)
                    requires
                        height <= 0xFFFF_FFFF,
                        channels <= 4,
                ;
                assert(height * channels * planes <= 0xFFFF_FFFF * 4 * 255) by (nonlinear_arith)
                    requires
                        height * channels <= 0xFFFF_FFFF * 4,
                        planes <= 255,
                ;
                assert(height * channels * planes * pl_wide <= 0xFFFF_FFFF * 4 * 255 * 0x2000_0000) by (nonlinear_arith)
                    requires
                        height * channels * planes <= 0xFFFF_FFFF * 4 * 255,
                        pl_wide <= 0x2000_0000,
                ;
            }
            let total: u128 = 8 * (height as u128 * channels as u128 * planes as u128 * pl_wide);
            if total > usize::MAX as u128 {
                return Err(WriteError::with_message(WriteErrorKind::InvalidParams, "image too large"));
            }
            proof {
                assert(pixels == width * height);
                assert(samples@.len() == width * height * channels) by (nonlinear_arith)
                    requires
                        samples@.len() == pixels * channels,
                        pixels == width * height,
                ;
            }
            let bits = value_type.planes() as u32;
            if width == 0 {
                let empty: Vec<u8> = Vec::new();
                proof {
                    assert(8 * interleaved_len(0, height as nat, planes as nat, channels as nat) == 0) by (nonlinear_arith);
                    assert forall|i: nat| i < 8 * empty@.len() implies #[trigger] spec_get_bit(empty@, i) == 0u8 by {}
                }
                return Ok(pack_bits(empty.as_slice()));
            }
            let out = write_interleaved_int_colors(
                samples.as_slice(),
                planes,
                bits,
                channels,
                width as usize,
                height as usize,
            );
            Ok(out)
        } else {
            write_colors_variant(&self.data, head.planes())
        }
    }
}

} // verus!
