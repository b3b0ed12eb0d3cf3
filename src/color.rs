use vstd::arithmetic::div_mod::*;
use vstd::arithmetic::power2::*;
use vstd::prelude::*;

use crate::error::{ReadError, ReadErrorKind, WriteError, WriteErrorKind};
use crate::format::{carrier_for, ChannelValueType, ColorType, NumberType};
use crate::io::{lemma_le_round_trip, get_bit, get_nibble, lemma_le_value_bound, lemma_pow2_128, le_bytes, le_value, pack_bits, pack_nibbles, packs_bits, packs_nibbles, push_le, read_le, spec_get_bit, spec_get_nibble};

verus! {

/// A machine integer that carries one channel value.
/// Float channels are carried as their IEEE 754 bit pattern.
pub trait ChannelValue: Sized + Copy {
    /// Width of the carrier in bits.
    spec fn bits() -> nat;

    /// The carried value.
    spec fn value(&self) -> u128;

    fn carrier_bits() -> (r: u32)
        ensures
            r as nat == Self::bits(),
            8 <= r <= 128,
    ;

    proof fn lemma_value_fits(&self)
        ensures
            (self.value() as nat) < pow2(Self::bits()),
    ;

    fn from_raw(v: u128) -> (r: Self)
        requires
            (v as nat) < pow2(Self::bits()),
        ensures
            r.value() == v,
    ;

    fn raw(&self) -> (r: u128)
        ensures
            r == self.value(),
            (r as nat) < pow2(Self::bits()),
    ;

    /// Reads a value from the first `bits / 8` bytes, little-endian; `None`
    /// when there are fewer.
    fn from_bytes(bytes: &[u8]) -> (r: Option<Self>)
        ensures
            r is Some <==> bytes@.len() >= Self::bits() / 8,
            r is Some ==> r->0.value() as nat == le_value(bytes@.subrange(0, (Self::bits() / 8) as int)),
    {
        let size = (Self::carrier_bits() / 8) as usize;
        if bytes.len() < size {
            return None;
        }
        proof {
            lemma_le_value_bound(bytes@.subrange(0, size as int));
            assert(8 * size == Self::bits()) by {
                assert(Self::bits() % 8 == 0) by {
                    let b = Self::bits();
                    assert(b == 8 || b == 16 || b == 32 || b == 64 || b == 128) by {
                        Self::lemma_bits_choice();
                    }
                }
            }
        }
        Some(Self::from_raw(read_le(bytes, 0, size)))
    }

    /// Appends the value as `bits / 8` bytes, little-endian.
    fn write_to(&self, writer: &mut Vec<u8>)
        ensures
            final(writer)@ == old(writer)@ + le_bytes(self.value() as nat, Self::bits() / 8),
    {
        push_le(writer, self.raw(), (Self::carrier_bits() / 8) as usize);
    }

    proof fn lemma_bits_choice()
        ensures
            Self::bits() == 8 || Self::bits() == 16 || Self::bits() == 32 || Self::bits() == 64 || Self::bits()
                == 128,
    ;
}

impl ChannelValue for u8 {
    open spec fn bits() -> nat {
        8
    }

    open spec fn value(&self) -> u128 {
        *self as u128
    }

    fn carrier_bits() -> (r: u32) {
        8
    }

    proof fn lemma_bits_choice() {
    }

    proof fn lemma_value_fits(&self) {
        lemma_pow2_128();
    }

    fn from_raw(v: u128) -> (r: Self) {
        proof {
            lemma_pow2_128();
        }
        v as u8
    }

    fn raw(&self) -> (r: u128) {
        proof {
            lemma_pow2_128();
        }
        *self as u128
    }
}

impl ChannelValue for u16 {
    open spec fn bits() -> nat {
        16
    }

    open spec fn value(&self) -> u128 {
        *self as u128
    }

    fn carrier_bits() -> (r: u32) {
        16
    }

    proof fn lemma_bits_choice() {
    }

    proof fn lemma_value_fits(&self) {
        vstd::arithmetic::power2::lemma2_to64();
    }

    fn from_raw(v: u128) -> (r: Self) {
        proof {
            vstd::arithmetic::power2::lemma2_to64();
        }
        v as u16
    }

    fn raw(&self) -> (r: u128) {
        proof {
            vstd::arithmetic::power2::lemma2_to64();
        }
        *self as u128
    }
}

impl ChannelValue for u32 {
    open spec fn bits() -> nat {
        32
    }

    open spec fn value(&self) -> u128 {
        *self as u128
    }

    fn carrier_bits() -> (r: u32) {
        32
    }

    proof fn lemma_bits_choice() {
    }

    proof fn lemma_value_fits(&self) {
        vstd::arithmetic::power2::lemma2_to64();
    }

    fn from_raw(v: u128) -> (r: Self) {
        proof {
            vstd::arithmetic::power2::lemma2_to64();
        }
        v as u32
    }

    fn raw(&self) -> (r: u128) {
        proof {
            vstd::arithmetic::power2::lemma2_to64();
        }
        *self as u128
    }
}

impl ChannelValue for u64 {
    open spec fn bits() -> nat {
        64
    }

    open spec fn value(&self) -> u128 {
        *self as u128
    }

    fn carrier_bits() -> (r: u32) {
        64
    }

    proof fn lemma_bits_choice() {
    }

    proof fn lemma_value_fits(&self) {
        lemma_pow2_128();
    }

    fn from_raw(v: u128) -> (r: Self) {
        proof {
            lemma_pow2_128();
        }
        v as u64
    }

    fn raw(&self) -> (r: u128) {
        proof {
            lemma_pow2_128();
        }
        *self as u128
    }
}

impl ChannelValue for u128 {
    open spec fn bits() -> nat {
        128
    }

    open spec fn value(&self) -> u128 {
        *self
    }

    fn carrier_bits() -> (r: u32) {
        128
    }

    proof fn lemma_bits_choice() {
    }

    proof fn lemma_value_fits(&self) {
        lemma_pow2_128();
    }

    fn from_raw(v: u128) -> (r: Self) {
        v
    }

    fn raw(&self) -> (r: u128) {
        proof {
            lemma_pow2_128();
        }
        *self
    }
}

/// Integer carriers, whose raw values can be extended to the full range.
pub trait IntChannelValue: ChannelValue {
    /// Extends a raw `planes`-bit value held in this carrier.
    fn extend(self, planes: u8) -> (r: Self)
        requires
            extend_defined(planes as nat, Self::bits()),
            (self.value() as nat) < pow2(planes as nat),
        ensures
            r.value() as nat == extend_value(self.value() as nat, planes as nat, Self::bits()),
    {
        let bits = Self::carrier_bits();
        let v = extend(self.raw(), planes, bits);
        Self::from_raw(v)
    }

    /// The low eight bits of the value.
    fn least_significant_byte(self) -> (r: u8)
        ensures
            r as nat == self.value() as nat % 256,
    {
        (self.raw() % 256) as u8
    }
}

impl IntChannelValue for u8 {
}

impl IntChannelValue for u16 {
}

impl IntChannelValue for u32 {
}

impl IntChannelValue for u64 {
}

impl IntChannelValue for u128 {
}

/// Luminance and alpha.
#[derive(Debug, Clone, Copy, PartialEq, Eq)]
pub struct La<C>(pub [C; 2]);

/// Red, green and blue.
#[derive(Debug, Clone, Copy, PartialEq, Eq)]
pub struct Rgb<C>(pub [C; 3]);

/// Red, green, blue and alpha.
#[derive(Debug, Clone, Copy, PartialEq, Eq)]
pub struct Rgba<C>(pub [C; 4]);

/// A pixel buffer of one carrier type, tagged by its channel arrangement.
#[derive(Debug, PartialEq, Eq)]
pub enum ColorVariant<C> {
    L(Vec<C>),
    La(Vec<La<C>>),
    Rgb(Vec<Rgb<C>>),
    Rgba(Vec<Rgba<C>>),
}

pub open spec fn l_samples<C: ChannelValue>(v: Seq<C>) -> Seq<u128> {
    Seq::new(v.len(), |i: int| v[i].value())
}

pub open spec fn la_samples<C: ChannelValue>(v: Seq<La<C>>) -> Seq<u128> {
    Seq::new(2 * v.len(), |i: int| v[i / 2].0@[i % 2].value())
}

pub open spec fn rgb_samples<C: ChannelValue>(v: Seq<Rgb<C>>) -> Seq<u128> {
    Seq::new(3 * v.len(), |i: int| v[i / 3].0@[i % 3].value())
}

pub open spec fn rgba_samples<C: ChannelValue>(v: Seq<Rgba<C>>) -> Seq<u128> {
    Seq::new(4 * v.len(), |i: int| v[i / 4].0@[i % 4].value())
}

/// Every sample fits in `bits` bits.
pub open spec fn fits(s: Seq<u128>, bits: nat) -> bool {
    forall|i: int| 0 <= i < s.len() ==> (#[trigger] s[i] as nat) < pow2(bits)
}

impl<C: ChannelValue> ColorVariant<C> {
    /// The channel values of all pixels in order, pixel after pixel.
    pub open spec fn samples(&self) -> Seq<u128> {
        match self {
            ColorVariant::L(v) => l_samples(v@),
            ColorVariant::La(v) => la_samples(v@),
            ColorVariant::Rgb(v) => rgb_samples(v@),
            ColorVariant::Rgba(v) => rgba_samples(v@),
        }
    }

    pub open spec fn spec_color_type(&self) -> ColorType {
        match self {
            ColorVariant::L(_) => ColorType::L,
            ColorVariant::La(_) => ColorType::La,
            ColorVariant::Rgb(_) => ColorType::Rgb,
            ColorVariant::Rgba(_) => ColorType::Rgba,
        }
    }

    /// Number of pixels.
    pub open spec fn spec_len(&self) -> nat {
        match self {
            ColorVariant::L(v) => v@.len(),
            ColorVariant::La(v) => v@.len(),
            ColorVariant::Rgb(v) => v@.len(),
            ColorVariant::Rgba(v) => v@.len(),
        }
    }

    pub proof fn lemma_samples_len(&self)
        ensures
            self.samples().len() == self.spec_len() * self.spec_color_type().spec_channels(),
    {
    }

    /// Number of pixels.
    pub fn len(&self) -> (r: usize)
        ensures
            r == self.spec_len(),
    {
        match self {
            ColorVariant::L(v) => v.len(),
            ColorVariant::La(v) => v.len(),
            ColorVariant::Rgb(v) => v.len(),
            ColorVariant::Rgba(v) => v.len(),
        }
    }

    pub proof fn lemma_samples_fit(&self)
        ensures
            fits(self.samples(), C::bits()),
    {
        let s = self.samples();
        assert forall|i: int| 0 <= i < s.len() implies (#[trigger] s[i] as nat) < pow2(C::bits()) by {
            match self {
                ColorVariant::L(v) => v@[i].lemma_value_fits(),
                ColorVariant::La(v) => v@[i / 2].0@[i % 2].lemma_value_fits(),
                ColorVariant::Rgb(v) => v@[i / 3].0@[i % 3].lemma_value_fits(),
                ColorVariant::Rgba(v) => v@[i / 4].0@[i % 4].lemma_value_fits(),
            }
        }
    }

    pub fn color_type(&self) -> (r: ColorType)
        ensures
            r == self.spec_color_type(),
    {
        match self {
            ColorVariant::L(_) => ColorType::L,
            ColorVariant::La(_) => ColorType::La,
            ColorVariant::Rgb(_) => ColorType::Rgb,
            ColorVariant::Rgba(_) => ColorType::Rgba,
        }
    }

    /// Builds a buffer of the given arrangement from its channel values.
    pub fn from_samples(color_type: ColorType, s: &[u128]) -> (r: Self)
        requires
            s@.len() % color_type.spec_channels() == 0,
            fits(s@, C::bits()),
        ensures
            r.spec_color_type() == color_type,
            r.samples() == s@,
    {
        match color_type {
            ColorType::L => ColorVariant::L(pack_l(s)),
            ColorType::La => ColorVariant::La(pack_la(s)),
            ColorType::Rgb => ColorVariant::Rgb(pack_rgb(s)),
            ColorType::Rgba => ColorVariant::Rgba(pack_rgba(s)),
        }
    }

    /// The channel values of all pixels in order.
    pub fn to_samples(&self) -> (r: Vec<u128>)
        ensures
            r@ == self.samples(),
            fits(r@, C::bits()),
            r@.len() == self.spec_len() * self.spec_color_type().spec_channels(),
    {
        match self {
            ColorVariant::L(v) => unpack_l(v),
            ColorVariant::La(v) => unpack_la(v),
            ColorVariant::Rgb(v) => unpack_rgb(v),
            ColorVariant::Rgba(v) => unpack_rgba(v),
        }
    }
}

fn pack_l<C: ChannelValue>(s: &[u128]) -> (r: Vec<C>)
    requires
        fits(s@, C::bits()),
    ensures
        l_samples(r@) == s@,
{
    let mut out: Vec<C> = Vec::new();
    let mut k: usize = 0;
    while k < s.len()
        invariant
            k <= s@.len(),
            fits(s@, C::bits()),
            out@.len() == k,
            forall|j: int| 0 <= j < k ==> #[trigger] out@[j].value() == s@[j],
        decreases s@.len() - k,
    {
        out.push(C::from_raw(s[k]));
        k = k + 1;
    }
    assert(l_samples(out@) =~= s@);
    out
}

fn pack_la<C: ChannelValue>(s: &[u128]) -> (r: Vec<La<C>>)
    requires
        s@.len() % 2 == 0,
        fits(s@, C::bits()),
    ensures
        la_samples(r@) == s@,
{
    let len = s.len();
    let n = len / 2;
    let mut out: Vec<La<C>> = Vec::new();
    let mut k: usize = 0;
    while k < n
        invariant
            len == s@.len(),
            n == s@.len() / 2,
            s@.len() % 2 == 0,
            k <= n,
            fits(s@, C::bits()),
            out@.len() == k,
            forall|j: int, c: int|
                0 <= j < k && 0 <= c < 2 ==> #[trigger] out@[j].0@[c].value() == s@[2 * j + c],
        decreases n - k,
    {
        let px = La([C::from_raw(s[2 * k]), C::from_raw(s[2 * k + 1])]);
        out.push(px);
        k = k + 1;
    }
    assert forall|i: int| 0 <= i < s@.len() implies #[trigger] la_samples(out@)[i] == s@[i] by {
        assert(i == 2 * (i / 2) + i % 2);
    }
    assert(la_samples(out@) =~= s@);
    out
}

fn pack_rgb<C: ChannelValue>(s: &[u128]) -> (r: Vec<Rgb<C>>)
    requires
        s@.len() % 3 == 0,
        fits(s@, C::bits()),
    ensures
        rgb_samples(r@) == s@,
{
    let len = s.len();
    let n = len / 3;
    let mut out: Vec<Rgb<C>> = Vec::new();
    let mut k: usize = 0;
    while k < n
        invariant
            len == s@.len(),
            n == s@.len() / 3,
            s@.len() % 3 == 0,
            k <= n,
            fits(s@, C::bits()),
            out@.len() == k,
            forall|j: int, c: int|
                0 <= j < k && 0 <= c < 3 ==> #[trigger] out@[j].0@[c].value() == s@[3 * j + c],
        decreases n - k,
    {
        let px = Rgb([C::from_raw(s[3 * k]), C::from_raw(s[3 * k + 1]), C::from_raw(s[3 * k + 2])]);
        out.push(px);
        k = k + 1;
    }
    assert forall|i: int| 0 <= i < s@.len() implies #[trigger] rgb_samples(out@)[i] == s@[i] by {
        assert(i == 3 * (i / 3) + i % 3);
    }
    assert(rgb_samples(out@) =~= s@);
    out
}

fn pack_rgba<C: ChannelValue>(s: &[u128]) -> (r: Vec<Rgba<C>>)
    requires
        s@.len() % 4 == 0,
        fits(s@, C::bits()),
    ensures
        rgba_samples(r@) == s@,
{
    let len = s.len();
    let n = len / 4;
    let mut out: Vec<Rgba<C>> = Vec::new();
    let mut k: usize = 0;
    while k < n
        invariant
            len == s@.len(),
            n == s@.len() / 4,
            s@.len() % 4 == 0,
            k <= n,
            fits(s@, C::bits()),
            out@.len() == k,
            forall|j: int, c: int|
                0 <= j < k && 0 <= c < 4 ==> #[trigger] out@[j].0@[c].value() == s@[4 * j + c],
        decreases n - k,
    {
        let px = Rgba(
            [
                C::from_raw(s[4 * k]),
                C::from_raw(s[4 * k + 1]),
                C::from_raw(s[4 * k + 2]),
                C::from_raw(s[4 * k + 3]),
            ],
        );
        out.push(px);
        k = k + 1;
    }
    assert forall|i: int| 0 <= i < s@.len() implies #[trigger] rgba_samples(out@)[i] == s@[i] by {
        assert(i == 4 * (i / 4) + i % 4);
    }
    assert(rgba_samples(out@) =~= s@);
    out
}

fn unpack_l<C: ChannelValue>(v: &Vec<C>) -> (r: Vec<u128>)
    ensures
        r@ == l_samples(v@),
        fits(r@, C::bits()),
{
    let mut out: Vec<u128> = Vec::new();
    let mut k: usize = 0;
    while k < v.len()
        invariant
            k <= v@.len(),
            out@ =~= l_samples(v@.take(k as int)),
            fits(out@, C::bits()),
        decreases v@.len() - k,
    {
        let x = v[k].raw();
        out.push(x);
        k = k + 1;
        assert(out@ =~= l_samples(v@.take(k as int)));
    }
    assert(v@.take(k as int) =~= v@);
    out
}

fn unpack_la<C: ChannelValue>(v: &Vec<La<C>>) -> (r: Vec<u128>)
    ensures
        r@ == la_samples(v@),
        fits(r@, C::bits()),
{
    let mut out: Vec<u128> = Vec::new();
    let mut k: usize = 0;
    while k < v.len()
        invariant
            k <= v@.len(),
            out@.len() == 2 * k,
            forall|i: int| 0 <= i < 2 * k ==> #[trigger] out@[i] == la_samples(v@)[i],
            fits(out@, C::bits()),
        decreases v@.len() - k,
    {
        let px = v[k];
        out.push(px.0[0].raw());
        out.push(px.0[1].raw());
        proof {
            assert forall|i: int| 0 <= i < 2 * k + 2 implies #[trigger] out@[i] == la_samples(v@)[i] by {
                if i >= 2 * k {
                    assert(i / 2 == k);
                }
            }
        }
        k = k + 1;
    }
    assert(out@ =~= la_samples(v@));
    out
}

fn unpack_rgb<C: ChannelValue>(v: &Vec<Rgb<C>>) -> (r: Vec<u128>)
    ensures
        r@ == rgb_samples(v@),
        fits(r@, C::bits()),
{
    let mut out: Vec<u128> = Vec::new();
    let mut k: usize = 0;
    while k < v.len()
        invariant
            k <= v@.len(),
            out@.len() == 3 * k,
            forall|i: int| 0 <= i < 3 * k ==> #[trigger] out@[i] == rgb_samples(v@)[i],
            fits(out@, C::bits()),
        decreases v@.len() - k,
    {
        let px = v[k];
        out.push(px.0[0].raw());
        out.push(px.0[1].raw());
        out.push(px.0[2].raw());
        proof {
            assert forall|i: int| 0 <= i < 3 * k + 3 implies #[trigger] out@[i] == rgb_samples(v@)[i] by {
                if i >= 3 * k {
                    assert(i / 3 == k);
                }
            }
        }
        k = k + 1;
    }
    assert(out@ =~= rgb_samples(v@));
    out
}

fn unpack_rgba<C: ChannelValue>(v: &Vec<Rgba<C>>) -> (r: Vec<u128>)
    ensures
        r@ == rgba_samples(v@),
        fits(r@, C::bits()),
{
    let mut out: Vec<u128> = Vec::new();
    let mut k: usize = 0;
    while k < v.len()
        invariant
            k <= v@.len(),
            out@.len() == 4 * k,
            forall|i: int| 0 <= i < 4 * k ==> #[trigger] out@[i] == rgba_samples(v@)[i],
            fits(out@, C::bits()),
        decreases v@.len() - k,
    {
        let px = v[k];
        out.push(px.0[0].raw());
        out.push(px.0[1].raw());
        out.push(px.0[2].raw());
        out.push(px.0[3].raw());
        proof {
            assert forall|i: int| 0 <= i < 4 * k + 4 implies #[trigger] out@[i] == rgba_samples(v@)[i] by {
                if i >= 4 * k {
                    assert(i / 4 == k);
                }
            }
        }
        k = k + 1;
    }
    assert(out@ =~= rgba_samples(v@));
    out
}


/// A pixel buffer tagged by carrier type, then by channel arrangement.
/// `F32` and `F64` hold the IEEE 754 bit patterns of their values.
#[derive(Debug, PartialEq, Eq)]
pub enum ChannelVariant {
    U8(ColorVariant<u8>),
    U16(ColorVariant<u16>),
    U32(ColorVariant<u32>),
    U64(ColorVariant<u64>),
    U128(ColorVariant<u128>),
    F32(ColorVariant<u32>),
    F64(ColorVariant<u64>),
}

/// The pixel buffer of a body or a palette.
pub type ColorList = ChannelVariant;

impl ChannelVariant {
    pub open spec fn spec_value_type(&self) -> ChannelValueType {
        match self {
            ChannelVariant::U8(_) => ChannelValueType::U8,
            ChannelVariant::U16(_) => ChannelValueType::U16,
            ChannelVariant::U32(_) => ChannelValueType::U32,
            ChannelVariant::U64(_) => ChannelValueType::U64,
            ChannelVariant::U128(_) => ChannelValueType::U128,
            ChannelVariant::F32(_) => ChannelValueType::F32,
            ChannelVariant::F64(_) => ChannelValueType::F64,
        }
    }

    pub open spec fn spec_color_type(&self) -> ColorType {
        match self {
            ChannelVariant::U8(d) => d.spec_color_type(),
            ChannelVariant::U16(d) => d.spec_color_type(),
            ChannelVariant::U32(d) => d.spec_color_type(),
            ChannelVariant::U64(d) => d.spec_color_type(),
            ChannelVariant::U128(d) => d.spec_color_type(),
            ChannelVariant::F32(d) => d.spec_color_type(),
            ChannelVariant::F64(d) => d.spec_color_type(),
        }
    }

    /// All channel values, pixel after pixel.
    pub open spec fn samples(&self) -> Seq<u128> {
        match self {
            ChannelVariant::U8(d) => d.samples(),
            ChannelVariant::U16(d) => d.samples(),
            ChannelVariant::U32(d) => d.samples(),
            ChannelVariant::U64(d) => d.samples(),
            ChannelVariant::U128(d) => d.samples(),
            ChannelVariant::F32(d) => d.samples(),
            ChannelVariant::F64(d) => d.samples(),
        }
    }

    /// Number of pixels.
    pub open spec fn spec_len(&self) -> nat {
        match self {
            ChannelVariant::U8(d) => d.spec_len(),
            ChannelVariant::U16(d) => d.spec_len(),
            ChannelVariant::U32(d) => d.spec_len(),
            ChannelVariant::U64(d) => d.spec_len(),
            ChannelVariant::U128(d) => d.spec_len(),
            ChannelVariant::F32(d) => d.spec_len(),
            ChannelVariant::F64(d) => d.spec_len(),
        }
    }

    pub proof fn lemma_samples_len(&self)
        ensures
            self.samples().len() == self.spec_len() * self.spec_color_type().spec_channels(),
    {
        match self {
            ChannelVariant::U8(d) => d.lemma_samples_len(),
            ChannelVariant::U16(d) => d.lemma_samples_len(),
            ChannelVariant::U32(d) => d.lemma_samples_len(),
            ChannelVariant::U64(d) => d.lemma_samples_len(),
            ChannelVariant::U128(d) => d.lemma_samples_len(),
            ChannelVariant::F32(d) => d.lemma_samples_len(),
            ChannelVariant::F64(d) => d.lemma_samples_len(),
        }
    }

    pub proof fn lemma_samples_fit(&self)
        ensures
            fits(self.samples(), self.spec_value_type().bits()),
    {
        match self {
            ChannelVariant::U8(d) => d.lemma_samples_fit(),
            ChannelVariant::U16(d) => d.lemma_samples_fit(),
            ChannelVariant::U32(d) => d.lemma_samples_fit(),
            ChannelVariant::U64(d) => d.lemma_samples_fit(),
            ChannelVariant::U128(d) => d.lemma_samples_fit(),
            ChannelVariant::F32(d) => d.lemma_samples_fit(),
            ChannelVariant::F64(d) => d.lemma_samples_fit(),
        }
    }

    /// Number of pixels.
    pub fn len(&self) -> (r: usize)
        ensures
            r == self.spec_len(),
    {
        match self {
            ChannelVariant::U8(d) => d.len(),
            ChannelVariant::U16(d) => d.len(),
            ChannelVariant::U32(d) => d.len(),
            ChannelVariant::U64(d) => d.len(),
            ChannelVariant::U128(d) => d.len(),
            ChannelVariant::F32(d) => d.len(),
            ChannelVariant::F64(d) => d.len(),
        }
    }

    pub fn channel_value_type(&self) -> (r: ChannelValueType)
        ensures
            r == self.spec_value_type(),
    {
        match self {
            ChannelVariant::U8(_) => ChannelValueType::U8,
            ChannelVariant::U16(_) => ChannelValueType::U16,
            ChannelVariant::U32(_) => ChannelValueType::U32,
            ChannelVariant::U64(_) => ChannelValueType::U64,
            ChannelVariant::U128(_) => ChannelValueType::U128,
            ChannelVariant::F32(_) => ChannelValueType::F32,
            ChannelVariant::F64(_) => ChannelValueType::F64,
        }
    }

    pub fn color_type(&self) -> (r: ColorType)
        ensures
            r == self.spec_color_type(),
    {
        match self {
            ChannelVariant::U8(d) => d.color_type(),
            ChannelVariant::U16(d) => d.color_type(),
            ChannelVariant::U32(d) => d.color_type(),
            ChannelVariant::U64(d) => d.color_type(),
            ChannelVariant::U128(d) => d.color_type(),
            ChannelVariant::F32(d) => d.color_type(),
            ChannelVariant::F64(d) => d.color_type(),
        }
    }

    /// Builds a buffer of the given carrier and arrangement from its channel values.
    pub fn from_samples(value_type: ChannelValueType, color_type: ColorType, s: &[u128]) -> (r: Self)
        requires
            s@.len() % color_type.spec_channels() == 0,
            fits(s@, value_type.bits()),
        ensures
            r.spec_value_type() == value_type,
            r.spec_color_type() == color_type,
            r.samples() == s@,
    {
        match value_type {
            ChannelValueType::U8 => ChannelVariant::U8(ColorVariant::from_samples(color_type, s)),
            ChannelValueType::U16 => ChannelVariant::U16(ColorVariant::from_samples(color_type, s)),
            ChannelValueType::U32 => ChannelVariant::U32(ColorVariant::from_samples(color_type, s)),
            ChannelValueType::U64 => ChannelVariant::U64(ColorVariant::from_samples(color_type, s)),
            ChannelValueType::U128 => ChannelVariant::U128(ColorVariant::from_samples(color_type, s)),
            ChannelValueType::F32 => ChannelVariant::F32(ColorVariant::from_samples(color_type, s)),
            ChannelValueType::F64 => ChannelVariant::F64(ColorVariant::from_samples(color_type, s)),
        }
    }

    /// All channel values, pixel after pixel.
    pub fn to_samples(&self) -> (r: Vec<u128>)
        ensures
            r@ == self.samples(),
            fits(r@, self.spec_value_type().bits()),
            r@.len() == self.spec_len() * self.spec_color_type().spec_channels(),
    {
        match self {
            ChannelVariant::U8(d) => d.to_samples(),
            ChannelVariant::U16(d) => d.to_samples(),
            ChannelVariant::U32(d) => d.to_samples(),
            ChannelVariant::U64(d) => d.to_samples(),
            ChannelVariant::U128(d) => d.to_samples(),
            ChannelVariant::F32(d) => d.to_samples(),
            ChannelVariant::F64(d) => d.to_samples(),
        }
    }

    /// A copy with the same carrier, arrangement and values.
    pub fn duplicate(&self) -> (r: Self)
        ensures
            r.spec_value_type() == self.spec_value_type(),
            r.spec_color_type() == self.spec_color_type(),
            r.samples() == self.samples(),
    {
        let s = self.to_samples();
        proof {
            lemma_channels_divide(self.spec_len(), self.spec_color_type().spec_channels());
        }
        ChannelVariant::from_samples(self.channel_value_type(), self.color_type(), &s)
    }
}

proof fn lemma_channels_divide(n: nat, c: nat)
    requires
        c > 0,
    ensures
        (n * c) % c == 0,
{
    vstd::arithmetic::div_mod::lemma_mod_multiples_basic(n as int, c as int);
}

/// Whether `extend` is defined for `planes` bits in a carrier of `bits` bits:
/// a byte carrier takes any depth up to 8, wider carriers take more than
/// half their width.
pub open spec fn extend_defined(planes: nat, bits: nat) -> bool {
    1 <= planes <= bits && (bits == 8 || 2 * planes > bits)
}

/// Maps a raw `planes`-bit value onto the full range of a `bits`-bit carrier.
/// For byte carriers of depth 1 to 3 this is the exact replication
/// `v * 255`, `v<<6 | v<<4 | v<<2 | v` and `v<<5 | v<<2 | v>>1`; otherwise it
/// is the double shift `(v << (bits - planes)) | (v >> (2 * planes - bits))`,
/// whose two parts never share a bit.
pub open spec fn extend_value(v: nat, planes: nat, bits: nat) -> nat {
    if planes == bits {
        v
    } else if bits == 8 && planes == 1 {
        v * 255
    } else if bits == 8 && planes == 2 {
        v * 85
    } else if bits == 8 && planes == 3 {
        v * 36 + v / 2
    } else {
        v * pow2((bits - planes) as nat) + v / pow2((2 * planes - bits) as nat)
    }
}

/// `2^k` for `k < 128`.
pub fn pow2_u128(k: u32) -> (r: u128)
    requires
        k < 128,
    ensures
        r as nat == pow2(k as nat),
{
    let mut r: u128 = 1;
    let mut i: u32 = 0;
    proof {
        lemma_pow2_128();
        lemma2_to64();
    }
    while i < k
        invariant
            i <= k < 128,
            r as nat == pow2(i as nat),
            pow2(128) == 0x1_0000_0000_0000_0000_0000_0000_0000_0000,
        decreases k - i,
    {
        proof {
            lemma_pow2_strictly_increases(i as nat, 127);
            lemma_pow2_adds(127, 1);
            lemma_pow2_adds(i as nat, 1);
            lemma2_to64();
        }
        r = r * 2;
        i = i + 1;
    }
    r
}

proof fn lemma_extend_bound(v: nat, planes: nat, bits: nat)
    requires
        extend_defined(planes, bits),
        v < pow2(planes),
    ensures
        extend_value(v, planes, bits) < pow2(bits),
{
    lemma2_to64();
    if planes == bits {
    } else if bits == 8 && planes == 1 {
    } else if bits == 8 && planes == 2 {
    } else if bits == 8 && planes == 3 {
    } else {
        let a = pow2((bits - planes) as nat);
        let d = pow2((2 * planes - bits) as nat);
        lemma_pow2_adds(planes, (bits - planes) as nat);
        lemma_pow2_pos((2 * planes - bits) as nat);
        lemma_pow2_pos((bits - planes) as nat);
        lemma_pow2_adds((2 * planes - bits) as nat, (bits - planes) as nat);
        assert(pow2(planes) == d * a);
        assert(v * a + v / d < pow2(bits)) by (nonlinear_arith)
            requires
                v < d * a,
                d > 0,
                a > 0,
                pow2(bits) == pow2(planes) * a,
                pow2(planes) == d * a,
        {
            assert(v / d < a) by {
                lemma_multiply_divide_lt(v as int, d as int, a as int);
            }
            assert(v <= d * a - 1);
            assert(v * a <= (d * a - 1) * a);
        }
    }
}

/// Extension keeps the order of raw values: for every integer depth `n`
/// and carrier chosen for it, `extend(v) <= extend(v + 1)`.
pub proof fn lemma_extend_monotonic(v: nat, n: nat)
    requires
        1 <= n <= 128,
        v + 1 < pow2(n),
    ensures
        extend_value(v, n, carrier_for(NumberType::Integer, n)->0.bits()) <= extend_value(
            v + 1,
            n,
            carrier_for(NumberType::Integer, n)->0.bits(),
        ),
{
    let bits = carrier_for(NumberType::Integer, n)->0.bits();
    if n == bits {
    } else if bits == 8 && n == 1 {
    } else if bits == 8 && n == 2 {
    } else if bits == 8 && n == 3 {
        lemma_div_is_ordered(v as int, (v + 1) as int, 2);
    } else {
        let a = pow2((bits - n) as nat);
        let d = pow2((2 * n - bits) as nat);
        lemma_pow2_pos((2 * n - bits) as nat);
        lemma_div_is_ordered(v as int, (v + 1) as int, d as int);
        assert(v * a <= (v + 1) * a) by (nonlinear_arith);
    }
}

/// Extension sends 0 to 0 and the largest raw value `2^n - 1` to the
/// carrier's largest value, for every integer depth `n`.
pub proof fn lemma_extend_ends(n: nat)
    requires
        1 <= n <= 128,
    ensures
        extend_value(0, n, carrier_for(NumberType::Integer, n)->0.bits()) == 0,
        extend_value((pow2(n) - 1) as nat, n, carrier_for(NumberType::Integer, n)->0.bits()) == pow2(
            carrier_for(NumberType::Integer, n)->0.bits(),
        ) - 1,
{
    let bits = carrier_for(NumberType::Integer, n)->0.bits();
    lemma2_to64();
    lemma_pow2_pos(n);
    if n == bits {
    } else if bits == 8 && n == 1 {
    } else if bits == 8 && n == 2 {
    } else if bits == 8 && n == 3 {
    } else {
        let a = pow2((bits - n) as nat);
        let d = pow2((2 * n - bits) as nat);
        lemma_pow2_pos((2 * n - bits) as nat);
        lemma_pow2_pos((bits - n) as nat);
        lemma_pow2_adds((2 * n - bits) as nat, (bits - n) as nat);
        lemma_pow2_adds(n, (bits - n) as nat);
        assert(pow2(n) == d * a);
        assert(0nat * a + 0nat / d == 0) by (nonlinear_arith)
            requires
                d > 0,
        ;
        let m = (pow2(n) - 1) as nat;
        assert(m == (a - 1) * d + (d - 1)) by (nonlinear_arith)
            requires
                m == d * a - 1,
                a >= 1,
                d >= 1,
        ;
        lemma_fundamental_div_mod_converse(m as int, d as int, (a - 1) as int, (d - 1) as int);
        assert(m * a + (a - 1) == pow2(bits) - 1) by (nonlinear_arith)
            requires
                m == d * a - 1,
                pow2(bits) == pow2(n) * a,
                pow2(n) == d * a,
        ;
    }
}

/// Extends a raw `planes`-bit value to the full range of a `bits`-bit carrier.
pub fn extend(value: u128, planes: u8, bits: u32) -> (r: u128)
    requires
        extend_defined(planes as nat, bits as nat),
        bits <= 128,
        (value as nat) < pow2(planes as nat),
    ensures
        r as nat == extend_value(value as nat, planes as nat, bits as nat),
        (r as nat) < pow2(bits as nat),
{
    proof {
        lemma_extend_bound(value as nat, planes as nat, bits as nat);
        lemma_pow2_128();
        lemma2_to64();
        if (bits as nat) < 128 {
            lemma_pow2_strictly_increases(bits as nat, 128);
        }
    }
    if planes as u32 == bits {
        value
    } else if bits == 8 && planes == 1 {
        value * 255
    } else if bits == 8 && planes == 2 {
        value * 85
    } else if bits == 8 && planes == 3 {
        value * 36 + value / 2
    } else {
        let up = pow2_u128(bits - planes as u32);
        let down = pow2_u128(2 * planes as u32 - bits);
        proof {
            lemma_pow2_pos((2 * planes - bits) as nat);
            assert((value as nat) * (up as nat) <= extend_value(value as nat, planes as nat, bits as nat));
        }
        value * up + value / down
    }
}


/// Depths the byte-packed layout supports.
pub open spec fn packed_depth(is_float: bool, depth: nat) -> bool {
    if is_float {
        depth == 32 || depth == 64
    } else {
        depth == 1 || depth == 4 || depth == 8 || depth == 16 || depth == 32 || depth == 64 || depth
            == 128
    }
}

pub open spec fn number_type_of(is_float: bool) -> NumberType {
    if is_float {
        NumberType::Float
    } else {
        NumberType::Integer
    }
}

/// Sample `i` of a byte-packed stream: a bit mapped to 0 or 255, a nibble
/// `v` mapped to `(v << 4) | v`, or `depth / 8` little-endian bytes.
pub open spec fn packed_sample(b: Seq<u8>, depth: nat, i: nat) -> u128 {
    if depth == 1 {
        (spec_get_bit(b, i) * 255) as u128
    } else if depth == 4 {
        (spec_get_nibble(b, i) * 17) as u128
    } else {
        le_value(b.subrange((i * (depth / 8)) as int, ((i + 1) * (depth / 8)) as int)) as u128
    }
}

/// Number of samples decoded from `len` bytes: whole pixels only.
pub open spec fn packed_count(len: nat, depth: nat, channels: nat) -> nat {
    ((len * 8) / (depth * channels)) * channels
}

/// The samples of a byte-packed stream.
pub open spec fn packed_samples(b: Seq<u8>, depth: nat, channels: nat) -> Seq<u128> {
    Seq::new(packed_count(b.len(), depth, channels), |i: int| packed_sample(b, depth, i as nat))
}

/// Samples written one after the other as `size` little-endian bytes each.
pub open spec fn le_concat(s: Seq<u128>, size: nat) -> Seq<u8>
    decreases s.len(),
{
    if s.len() == 0 {
        Seq::empty()
    } else {
        le_concat(s.drop_last(), size) + le_bytes(s.last() as nat, size)
    }
}

pub open spec fn low_bits(s: Seq<u128>) -> Seq<u8> {
    Seq::new(s.len(), |i: int| (s[i] % 2) as u8)
}

pub open spec fn low_nibbles(s: Seq<u128>) -> Seq<u8> {
    Seq::new(s.len(), |i: int| (s[i] % 16) as u8)
}

/// `out` is the byte-packed form of samples `s` at the given depth; 1- and
/// 4-bit samples keep their low bit or low nibble.
pub open spec fn packed_bytes(out: Seq<u8>, s: Seq<u128>, depth: nat) -> bool {
    if depth == 1 {
        packs_bits(out, low_bits(s))
    } else if depth == 4 {
        packs_nibbles(out, low_nibbles(s))
    } else {
        out == le_concat(s, depth / 8)
    }
}

proof fn lemma_packed_bound(len: nat, d: nat, ch: nat, i: nat)
    requires
        d > 0,
        ch > 0,
        i < packed_count(len, d, ch),
    ensures
        (i + 1) * d <= len * 8,
{
    let q = (len * 8) / (d * ch);
    assert(d * ch > 0) by (nonlinear_arith)
        requires
            d > 0,
            ch > 0,
    ;
    lemma_fundamental_div_mod((len * 8) as int, (d * ch) as int);
    lemma_mod_pos_bound((len * 8) as int, (d * ch) as int);
    assert((i + 1) * d <= len * 8) by (nonlinear_arith)
        requires
            i < q * ch,
            q * (d * ch) <= len * 8,
            d > 0,
    {
        assert(i + 1 <= q * ch);
        assert((i + 1) * d <= (q * ch) * d);
        assert((q * ch) * d == q * (d * ch));
    }
}

/// Decodes the samples of a byte-packed stream.
pub fn read_colors(bytes: &[u8], depth: u32, channels: u32) -> (r: Vec<u128>)
    requires
        depth == 1 || depth == 4 || depth == 8 || depth == 16 || depth == 32 || depth == 64 || depth
            == 128,
        1 <= channels <= 4,
        bytes@.len() * 8 <= usize::MAX,
    ensures
        r@ == packed_samples(bytes@, depth as nat, channels as nat),
        fits(r@, if depth < 8 { 8 } else { depth as nat }),
{
    let len = bytes.len();
    proof {
        assert(depth * channels <= 512) by (nonlinear_arith)
            requires
                depth <= 128,
                channels <= 4,
        ;
    }
    let unit = depth as usize * channels as usize;
    proof {
        assert(unit > 0) by (nonlinear_arith)
            requires
                unit == depth * channels,
                depth > 0,
                channels > 0,
        ;
    }
    let q = (len * 8) / unit;
    proof {
        lemma_fundamental_div_mod((len * 8) as int, unit as int);
        lemma_mod_pos_bound((len * 8) as int, unit as int);
        assert(q * channels <= len * 8) by (nonlinear_arith)
            requires
                unit * q <= len * 8,
                unit == depth * channels,
                depth >= 1,
        ;
    }
    let count = q * channels as usize;
    let size = (depth / 8) as usize;
    let mut out: Vec<u128> = Vec::new();
    let mut i: usize = 0;
    proof {
        lemma_pow2_128();
        lemma2_to64();
        assert(count as nat == packed_count(len as nat, depth as nat, channels as nat));
    }
    while i < count
        invariant
            len == bytes@.len(),
            len * 8 <= usize::MAX,
            count == packed_count(len as nat, depth as nat, channels as nat),
            size == depth / 8,
            depth == 1 || depth == 4 || depth == 8 || depth == 16 || depth == 32 || depth == 64
                || depth == 128,
            1 <= channels <= 4,
            i <= count,
            out@.len() == i,
            forall|j: int| 0 <= j < i ==> #[trigger] out@[j] == packed_sample(bytes@, depth as nat, j as nat),
            fits(out@, if depth < 8 { 8 } else { depth as nat }),
            pow2(8) == 256,
        decreases count - i,
    {
        proof {
            lemma_packed_bound(len as nat, depth as nat, channels as nat, i as nat);
        }
        let v: u128 = if depth == 1 {
            (get_bit(bytes, i) as u128) * 255
        } else if depth == 4 {
            (get_nibble(bytes, i) as u128) * 17
        } else {
            proof {
                assert((i + 1) * size <= len) by (nonlinear_arith)
                    requires
                        (i + 1) * depth <= len * 8,
                        size == depth / 8,
                        depth % 8 == 0,
                ;
                assert(i * size + size == (i + 1) * size) by (nonlinear_arith);
                lemma_le_value_bound(bytes@.subrange((i * size) as int, (i * size + size) as int));
                assert(8 * size == depth);
            }
            read_le(bytes, i * size, size)
        };
        proof {
            if depth >= 8 {
                assert(i * size + size == (i + 1) * size) by (nonlinear_arith);
            }
        }
        out.push(v);
        i = i + 1;
    }
    assert(out@ =~= packed_samples(bytes@, depth as nat, channels as nat));
    out
}

/// Writes 1-bit samples: the low bit of each, eight to a byte.
pub fn write_1bit_colors(samples: &[u128]) -> (r: Vec<u8>)
    ensures
        packed_bytes(r@, samples@, 1),
{
    let mut bits: Vec<u8> = Vec::new();
    let mut i: usize = 0;
    while i < samples.len()
        invariant
            i <= samples@.len(),
            bits@ =~= low_bits(samples@.take(i as int)),
        decreases samples@.len() - i,
    {
        bits.push((samples[i] % 2) as u8);
        i = i + 1;
        assert(bits@ =~= low_bits(samples@.take(i as int)));
    }
    assert(samples@.take(i as int) =~= samples@);
    pack_bits(&bits)
}

/// Writes 4-bit samples: the low nibble of each, two to a byte.
pub fn write_4bit_colors(samples: &[u128]) -> (r: Vec<u8>)
    ensures
        packed_bytes(r@, samples@, 4),
{
    let mut nibbles: Vec<u8> = Vec::new();
    let mut i: usize = 0;
    while i < samples.len()
        invariant
            i <= samples@.len(),
            nibbles@ =~= low_nibbles(samples@.take(i as int)),
        decreases samples@.len() - i,
    {
        nibbles.push((samples[i] % 16) as u8);
        i = i + 1;
        assert(nibbles@ =~= low_nibbles(samples@.take(i as int)));
    }
    assert(samples@.take(i as int) =~= samples@);
    pack_nibbles(&nibbles)
}

/// Writes each sample as `size` little-endian bytes.
pub fn write_colors(samples: &[u128], size: usize) -> (r: Vec<u8>)
    ensures
        r@ == le_concat(samples@, size as nat),
{
    let mut out: Vec<u8> = Vec::new();
    let mut i: usize = 0;
    while i < samples.len()
        invariant
            i <= samples@.len(),
            out@ == le_concat(samples@.take(i as int), size as nat),
        decreases samples@.len() - i,
    {
        push_le(&mut out, samples[i], size);
        proof {
            let t = samples@.take(i + 1);
            assert(t.drop_last() =~= samples@.take(i as int));
        }
        i = i + 1;
    }
    assert(samples@.take(i as int) =~= samples@);
    out
}

proof fn lemma_le_concat_len(s: Seq<u128>, size: nat)
    ensures
        le_concat(s, size).len() == s.len() * size,
    decreases s.len(),
{
    if s.len() > 0 {
        lemma_le_concat_len(s.drop_last(), size);
        lemma_le_bytes_len(s.last() as nat, size);
        assert(s.len() * size == (s.len() - 1) * size + size) by (nonlinear_arith)
            requires
                s.len() > 0,
        ;
    }
}

proof fn lemma_le_bytes_len(v: nat, n: nat)
    ensures
        le_bytes(v, n).len() == n,
    decreases n,
{
    if n > 0 {
        lemma_le_bytes_len(v / 256, (n - 1) as nat);
    }
}

proof fn lemma_le_concat_item(s: Seq<u128>, size: nat, i: int)
    requires
        0 <= i < s.len(),
    ensures
        i * size + size <= le_concat(s, size).len(),
        le_concat(s, size).subrange(i * size, i * size + size) == le_bytes(s[i] as nat, size),
    decreases s.len(),
{
    lemma_le_concat_len(s, size);
    lemma_le_concat_len(s.drop_last(), size);
    lemma_le_bytes_len(s.last() as nat, size);
    let n = s.len();
    assert(i * size + size <= n * size) by (nonlinear_arith)
        requires
            i < n,
    ;
    let pre = le_concat(s.drop_last(), size);
    let whole = le_concat(s, size);
    assert(whole == pre + le_bytes(s.last() as nat, size));
    if i < n - 1 {
        lemma_le_concat_item(s.drop_last(), size, i);
        assert(whole.subrange(i * size, i * size + size) =~= pre.subrange(i * size, i * size + size));
    } else {
        assert(i * size == (n - 1) * size);
        assert(whole.subrange(i * size, i * size + size) =~= le_bytes(s.last() as nat, size));
    }
}

/// Samples written at a byte-aligned depth read back unchanged.
pub proof fn lemma_packed_round_trip(s: Seq<u128>, size: nat, ch: nat)
    requires
        1 <= size <= 16,
        1 <= ch <= 4,
        s.len() % ch == 0,
        fits(s, 8 * size),
    ensures
        packed_samples(le_concat(s, size), 8 * size, ch) == s,
{
    let b = le_concat(s, size);
    let n = s.len();
    lemma_le_concat_len(s, size);
    lemma_pow2_128();
    assert(packed_count(b.len(), 8 * size, ch) == n) by {
        assert(b.len() * 8 == n * (8 * size)) by (nonlinear_arith)
            requires
                b.len() == n * size,
        ;
        let q = n / ch;
        lemma_fundamental_div_mod(n as int, ch as int);
        assert(n == q * ch);
        assert(n * (8 * size) == q * ((8 * size) * ch)) by (nonlinear_arith)
            requires
                n == q * ch,
        ;
        assert((8 * size) * ch > 0) by (nonlinear_arith)
            requires
                size >= 1,
                ch >= 1,
        ;
        let dd = (8 * size) * ch;
        lemma_div_multiples_vanish(q as int, dd as int);
        assert(b.len() * 8 == dd * q) by (nonlinear_arith)
            requires
                b.len() * 8 == n * (8 * size),
                n * (8 * size) == q * ((8 * size) * ch),
                dd == (8 * size) * ch,
        ;
        assert((b.len() * 8) / dd == q);
    }
    assert forall|i: int| 0 <= i < n implies #[trigger] packed_samples(b, 8 * size, ch)[i] == s[i] by {
        lemma_le_concat_item(s, size, i);
        assert((8 * size) / 8 == size);
        assert((i + 1) * size == i * size + size) by (nonlinear_arith);
        lemma_le_round_trip(s[i] as nat, size);
    }
    assert(packed_samples(b, 8 * size, ch) =~= s);
}

/// Decodes a byte-packed body or palette.
pub fn read_colors_variant(bytes: &[u8], is_float: bool, depth: u8, channels: u8) -> (r: Result<ColorList, ReadError>)
    requires
        bytes@.len() * 8 <= usize::MAX,
    ensures
        r is Ok <==> packed_depth(is_float, depth as nat) && ColorType::spec_from_channels(channels as nat) is Some,
        r is Err ==> r->Err_0.kind == ReadErrorKind::BrokenFile,
        r is Ok ==> {
            &&& Some(r->Ok_0.spec_value_type()) == carrier_for(number_type_of(is_float), depth as nat)
            &&& Some(r->Ok_0.spec_color_type()) == ColorType::spec_from_channels(channels as nat)
            &&& r->Ok_0.samples() == packed_samples(bytes@, depth as nat, channels as nat)
        },
{
    let valid = if is_float {
        depth == 32 || depth == 64
    } else {
        depth == 1 || depth == 4 || depth == 8 || depth == 16 || depth == 32 || depth == 64 || depth == 128
    };
    if !valid {
        return Err(ReadError::with_message(ReadErrorKind::BrokenFile, "unsupported color format"));
    }
    let color_type = match ColorType::from_channels(channels) {
        Ok(t) => t,
        Err(_) => {
            return Err(ReadError::with_message(ReadErrorKind::BrokenFile, "illegal number of channels"));
        },
    };
    let number_type = if is_float { NumberType::Float } else { NumberType::Integer };
    let value_type = match ChannelValueType::from_planes(number_type, depth) {
        Ok(t) => t,
        Err(_) => {
            return Err(ReadError::with_message(ReadErrorKind::BrokenFile, "unsupported color format"));
        },
    };
    let samples = read_colors(bytes, depth as u32, channels as u32);
    proof {
        lemma_packed_count_divides(bytes@.len(), depth as nat, channels as nat);
        lemma_pow2_128();
    }
    Ok(ChannelVariant::from_samples(value_type, color_type, &samples))
}

proof fn lemma_packed_count_divides(len: nat, d: nat, ch: nat)
    requires
        d > 0,
        ch > 0,
    ensures
        packed_count(len, d, ch) % ch == 0,
{
    let q = (len * 8) / (d * ch);
    lemma_mod_multiples_basic(q as int, ch as int);
    let p = packed_count(len, d, ch);
    let qi: int = q as int;
    let ci: int = ch as int;
    assert((qi * ci) % ci == 0);
    assert(p == q * ch);
    assert(p == qi * ci) by (nonlinear_arith)
        requires
            p == q * ch,
            qi == q,
            ci == ch,
    ;
}

/// Encodes a body or palette in the byte-packed layout at the given depth,
/// which must be the carrier's own width, or 1 or 4 for a byte carrier.
/// LA buffers are refused: stored images hold L, RGB or RGBA only.
pub fn write_colors_variant(colors: &ColorList, planes: u8) -> (r: Result<Vec<u8>, WriteError>)
    ensures
        r is Ok <==> packed_depth(colors.spec_value_type().spec_number_type() == NumberType::Float, planes as nat)
            && carrier_for(colors.spec_value_type().spec_number_type(), planes as nat) == Some(colors.spec_value_type())
            && colors.spec_color_type() != ColorType::La,
        r is Err ==> r->Err_0.kind == WriteErrorKind::InvalidParams,
        r is Ok ==> packed_bytes(r->Ok_0@, colors.samples(), planes as nat),
{
    let value_type = colors.channel_value_type();
    let valid = match value_type {
        ChannelValueType::U8 => planes == 1 || planes == 4 || planes == 8,
        ChannelValueType::U16 => planes == 16,
        ChannelValueType::U32 | ChannelValueType::F32 => planes == 32,
        ChannelValueType::U64 | ChannelValueType::F64 => planes == 64,
        ChannelValueType::U128 => planes == 128,
    };
    if !valid {
        return Err(WriteError::with_message(WriteErrorKind::InvalidParams, "invalid bit depth for channel value type"));
    }
    if let ColorType::La = colors.color_type() {
        return Err(WriteError::with_message(WriteErrorKind::InvalidParams, "LA buffers cannot be stored"));
    }
    let samples = colors.to_samples();
    if planes == 1 {
        Ok(write_1bit_colors(&samples))
    } else if planes == 4 {
        Ok(write_4bit_colors(&samples))
    } else {
        Ok(write_colors(&samples, (planes / 8) as usize))
    }
}


/// The largest channel value of a carrier: all ones for integers, and the
/// bit pattern of 1.0 for floats.
pub open spec fn channel_max(t: ChannelValueType) -> u128 {
    match t {
        ChannelValueType::U8 => 0xFF,
        ChannelValueType::U16 => 0xFFFF,
        ChannelValueType::U32 => 0xFFFF_FFFF,
        ChannelValueType::U64 => 0xFFFF_FFFF_FFFF_FFFF,
        ChannelValueType::U128 => 0xFFFF_FFFF_FFFF_FFFF_FFFF_FFFF_FFFF_FFFF,
        ChannelValueType::F32 => 0x3F80_0000,
        ChannelValueType::F64 => 0x3FF0_0000_0000_0000,
    }
}

pub fn max_value(t: ChannelValueType) -> (r: u128)
    ensures
        r == channel_max(t),
        (r as nat) < pow2(t.bits()),
{
    proof {
        lemma_pow2_128();
        lemma2_to64();
    }
    match t {
        ChannelValueType::U8 => 0xFF,
        ChannelValueType::U16 => 0xFFFF,
        ChannelValueType::U32 => 0xFFFF_FFFF,
        ChannelValueType::U64 => 0xFFFF_FFFF_FFFF_FFFF,
        ChannelValueType::U128 => 0xFFFF_FFFF_FFFF_FFFF_FFFF_FFFF_FFFF_FFFF,
        ChannelValueType::F32 => 0x3F80_0000,
        ChannelValueType::F64 => 0x3FF0_0000_0000_0000,
    }
}

/// Channel `c` of pixel `k` after conversion to `out` channels (3 for RGB,
/// 4 for RGBA): luminance goes to red, green and blue, and alpha is kept,
/// or is `alpha` where the source has none.
pub open spec fn converted_channel(s: Seq<u128>, ct: ColorType, k: int, c: int, out: nat, alpha: u128) -> u128 {
    let n = ct.spec_channels() as int;
    if c == 3 {
        if ct == ColorType::La {
            s[2 * k + 1]
        } else if ct == ColorType::Rgba {
            s[4 * k + 3]
        } else {
            alpha
        }
    } else if ct == ColorType::L || ct == ColorType::La {
        s[n * k]
    } else {
        s[n * k + c]
    }
}

pub open spec fn converted(s: Seq<u128>, ct: ColorType, out: nat, alpha: u128) -> Seq<u128> {
    let pixels = s.len() / ct.spec_channels();
    Seq::new(
        pixels * out,
        |i: int| converted_channel(s, ct, i / out as int, i % out as int, out, alpha),
    )
}

fn convert_samples(s: &[u128], ct: ColorType, out: usize, alpha: u128) -> (r: Vec<u128>)
    requires
        out == 3 || out == 4,
        s@.len() % ct.spec_channels() == 0,
        (s@.len() / ct.spec_channels()) * out <= usize::MAX,
    ensures
        r@ == converted(s@, ct, out as nat, alpha),
{
    let n = ct.channels() as usize;
    let slen = s.len();
    let pixels = slen / n;
    let mut r: Vec<u128> = Vec::new();
    let mut k: usize = 0;
    while k < pixels
        invariant
            slen == s@.len(),
            n == ct.spec_channels(),
            1 <= n <= 4,
            out == 3 || out == 4,
            pixels == s@.len() / (n as nat),
            s@.len() % (n as nat) == 0,
            pixels * out <= usize::MAX,
            k <= pixels,
            r@.len() == k * out,
            forall|i: int| 0 <= i < k * out ==> #[trigger] r@[i] == converted(s@, ct, out as nat, alpha)[i],
        decreases pixels - k,
    {
        proof {
            lemma_fundamental_div_mod(s@.len() as int, n as int);
            assert(n * k + n <= s@.len()) by (nonlinear_arith)
                requires
                    k < pixels,
                    n * pixels == s@.len(),
            ;
            assert(k * out + out <= pixels * out) by (nonlinear_arith)
                requires
                    k < pixels,
            ;
        }
        let base = n * k;
        let mut c: usize = 0;
        while c < out
            invariant
                n == ct.spec_channels(),
                1 <= n <= 4,
                out == 3 || out == 4,
                pixels == s@.len() / (n as nat),
                k < pixels,
                base == n * k,
                base + n <= s@.len(),
                k * out + out <= usize::MAX,
                c <= out,
                r@.len() == k * out + c,
                forall|i: int| 0 <= i < k * out + c ==> #[trigger] r@[i] == converted(s@, ct, out as nat, alpha)[i],
            decreases out - c,
        {
            let v: u128 = if c == 3 {
                match ct {
                    ColorType::La => s[base + 1],
                    ColorType::Rgba => s[base + 3],
                    _ => alpha,
                }
            } else {
                match ct {
                    ColorType::L | ColorType::La => s[base],
                    _ => s[base + c],
                }
            };
            proof {
                let i = k * out + c;
                lemma_fundamental_div_mod_converse(i as int, out as int, k as int, c as int);
                assert(i < pixels * out) by (nonlinear_arith)
                    requires
                        k < pixels,
                        c < out,
                        i == k * out + c,
                ;
            }
            r.push(v);
            c = c + 1;
        }
        assert(k * out + out == (k + 1) * out) by (nonlinear_arith);
        k = k + 1;
    }
    proof {
        assert(r@.len() == (s@.len() / ct.spec_channels()) * out);
    }
    assert(r@ =~= converted(s@, ct, out as nat, alpha));
    r
}

impl ChannelVariant {
    /// The same pixels as RGB: luminance is copied to red, green and blue,
    /// and alpha is dropped.
    pub fn to_rgb(&self) -> (r: ColorList)
        requires
            self.spec_len() * 3 <= usize::MAX,
        ensures
            r.spec_value_type() == self.spec_value_type(),
            r.spec_color_type() == ColorType::Rgb,
            r.samples() == converted(self.samples(), self.spec_color_type(), 3, 0),
    {
        self.convert(3, ColorType::Rgb)
    }

    /// The same pixels as RGBA: luminance is copied to red, green and
    /// blue, and opaque sources get the carrier's largest value as alpha.
    pub fn to_rgba(&self) -> (r: ColorList)
        requires
            self.spec_len() * 4 <= usize::MAX,
        ensures
            r.spec_value_type() == self.spec_value_type(),
            r.spec_color_type() == ColorType::Rgba,
            r.samples() == converted(
                self.samples(),
                self.spec_color_type(),
                4,
                channel_max(self.spec_value_type()),
            ),
    {
        self.convert(4, ColorType::Rgba)
    }

    fn convert(&self, out: usize, target: ColorType) -> (r: ColorList)
        requires
            (out == 3 && target == ColorType::Rgb) || (out == 4 && target == ColorType::Rgba),
            self.spec_len() * out <= usize::MAX,
        ensures
            r.spec_value_type() == self.spec_value_type(),
            r.spec_color_type() == target,
            r.samples() == converted(
                self.samples(),
                self.spec_color_type(),
                out as nat,
                if out == 4 {
                    channel_max(self.spec_value_type())
                } else {
                    0
                },
            ),
    {
        let s = self.to_samples();
        let ct = self.color_type();
        let vt = self.channel_value_type();
        let alpha = if out == 4 {
            max_value(vt)
        } else {
            0
        };
        proof {
            lemma_mod_multiples_basic(self.spec_len() as int, ct.spec_channels() as int);
            lemma_div_multiples_vanish(self.spec_len() as int, ct.spec_channels() as int);
            assert(self.spec_len() * ct.spec_channels() == ct.spec_channels() * self.spec_len()) by (nonlinear_arith);
            lemma2_to64();
            lemma_pow2_pos(vt.bits());
        }
        let r = convert_samples(s.as_slice(), ct, out, alpha);
        proof {
            self.lemma_samples_fit();
            assert forall|i: int| 0 <= i < r@.len() implies (#[trigger] r@[i] as nat) < pow2(vt.bits()) by {
                let pixels = s@.len() / ct.spec_channels();
                let k = i / out as int;
                let c = i % out as int;
                lemma_fundamental_div_mod(i, out as int);
                lemma_mod_pos_bound(i, out as int);
                assert(k < pixels) by {
                    lemma_multiply_divide_lt(i, out as int, pixels as int);
                    assert(out * pixels == pixels * out) by (nonlinear_arith);
                }
                let n = ct.spec_channels() as int;
                assert(pixels == self.spec_len());
                let nn: nat = ct.spec_channels();
                let kk: nat = k as nat;
                assert(nn * kk + nn <= s@.len()) by (nonlinear_arith)
                    requires
                        kk < pixels,
                        s@.len() == pixels * nn,
                ;
            }
            assert(r@.len() % 3 == 0 || out == 4);
            assert((r@.len() as int) % (out as int) == 0) by {
                lemma_mod_multiples_basic((s@.len() / ct.spec_channels()) as int, out as int);
            }
        }
        ChannelVariant::from_samples(vt, target, r.as_slice())
    }
}

/// Colors looked up by index: pixel `k` takes the palette's color number
/// `idx[k]`, or all-zero channels where there is no such color.
pub open spec fn palette_lookup(idx: Seq<u128>, pal: Seq<u128>, ch: nat) -> Seq<u128> {
    Seq::new(
        idx.len() * ch,
        |i: int|
            {
                let k = idx[i / ch as int] as nat;
                if k < pal.len() / ch {
                    pal[(k * ch + i % ch as int) as int]
                } else {
                    0u128
                }
            },
    )
}

/// Looks up each index in a palette of `channels` channels per color.
pub fn apply_palette(img: &[u128], palette: &[u128], channels: usize) -> (r: Vec<u128>)
    requires
        1 <= channels <= 4,
        img@.len() * channels <= usize::MAX,
    ensures
        r@ == palette_lookup(img@, palette@, channels as nat),
{
    let plen = palette.len();
    let count = plen / channels;
    let mut out: Vec<u128> = Vec::new();
    let mut k: usize = 0;
    while k < img.len()
        invariant
            plen == palette@.len(),
            1 <= channels <= 4,
            count == palette@.len() / (channels as nat),
            img@.len() * channels <= usize::MAX,
            k <= img@.len(),
            out@.len() == k * channels,
            forall|i: int| 0 <= i < k * channels ==> #[trigger] out@[i] == palette_lookup(img@, palette@, channels as nat)[i],
        decreases img@.len() - k,
    {
        let index = img[k];
        let mut c: usize = 0;
        while c < channels
            invariant
                plen == palette@.len(),
                1 <= channels <= 4,
                count == palette@.len() / (channels as nat),
                img@.len() * channels <= usize::MAX,
                k < img@.len(),
                index == img@[k as int],
                c <= channels,
                out@.len() == k * channels + c,
                forall|i: int| 0 <= i < k * channels + c ==> #[trigger] out@[i] == palette_lookup(img@, palette@, channels as nat)[i],
            decreases channels - c,
        {
            assert(plen == palette@.len());
            proof {
                assert(k * channels + c < img@.len() * channels) by (nonlinear_arith)
                    requires
                        k < img@.len(),
                        c < channels,
                ;
                let i = k * channels + c;
                lemma_fundamental_div_mod_converse(i as int, channels as int, k as int, c as int);
            }
            let v: u128 = if index < count as u128 {
                proof {
                    lemma_fundamental_div_mod(palette@.len() as int, channels as int);
                    assert((index as nat) * channels + c < palette@.len()) by (nonlinear_arith)
                        requires
                            (index as nat) < count,
                            c < channels,
                            count * channels <= palette@.len(),
                    {
                        assert((index as nat) + 1 <= count);
                        assert(((index as nat) + 1) * channels <= count * channels);
                    }
                }
                palette[index as usize * channels + c]
            } else {
                0
            };
            out.push(v);
            c = c + 1;
        }
        assert(k * channels + channels == (k + 1) * channels) by (nonlinear_arith);
        k = k + 1;
    }
    assert(out@ =~= palette_lookup(img@, palette@, channels as nat));
    out
}

/// Applies a palette to an index image, keeping the palette's carrier and
/// arrangement.
pub fn apply_palette_variant(img: &[u128], palette: &ColorList) -> (r: ColorList)
    requires
        img@.len() * 4 <= usize::MAX,
    ensures
        r.spec_value_type() == palette.spec_value_type(),
        r.spec_color_type() == palette.spec_color_type(),
        r.samples() == palette_lookup(img@, palette.samples(), palette.spec_color_type().spec_channels()),
        r.spec_len() == img@.len(),
{
    let colors = palette.to_samples();
    let channels = palette.color_type().channels() as usize;
    proof {
        assert(img@.len() * channels <= img@.len() * 4) by (nonlinear_arith)
            requires
                channels <= 4,
        ;
    }
    let out = apply_palette(img, colors.as_slice(), channels);
    proof {
        assert forall|i: int| 0 <= i < out@.len() implies (#[trigger] out@[i] as nat) < pow2(palette.spec_value_type().bits()) by {
            let k = img@[i / channels as int] as nat;
            if k < colors@.len() / (channels as nat) {
                lemma_fundamental_div_mod(colors@.len() as int, channels as int);
                lemma_mod_pos_bound(i, channels as int);
                assert(k * channels + i % (channels as int) < colors@.len()) by (nonlinear_arith)
                    requires
                        k < colors@.len() / (channels as nat),
                        i % (channels as int) < channels,
                        (colors@.len() / (channels as nat)) * channels <= colors@.len(),
                {
                    assert(k + 1 <= colors@.len() / (channels as nat));
                    assert((k + 1) * channels <= (colors@.len() / (channels as nat)) * channels);
                }
            } else {
                vstd::arithmetic::power2::lemma_pow2_pos(palette.spec_value_type().bits());
            }
        }
        lemma_mod_multiples_basic(img@.len() as int, channels as int);
    }
    let r = ChannelVariant::from_samples(palette.channel_value_type(), palette.color_type(), out.as_slice());
    proof {
        r.lemma_samples_len();
        assert(r.spec_len() * channels == img@.len() * channels);
        assert(r.spec_len() == img@.len()) by (nonlinear_arith)
            requires
                r.spec_len() * channels == img@.len() * channels,
                channels > 0,
        ;
    }
    r
}

} // verus!
