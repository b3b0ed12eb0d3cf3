pub mod chunks;
pub mod color;
pub mod error;
pub mod format;
pub mod io;
pub mod text;
pub mod zlib;

use vstd::arithmetic::power2::pow2;
use vstd::prelude::*;
use vstd::string::StringSliceAdditionalSpecFns;

use crate::chunks::body::{body_channels, body_writable, decoded_body, encoded_body, lemma_interleaved_round_trip, Body};
use crate::chunks::foot::{foot_payload, ChecksumType, Foot};
use crate::chunks::indx::{decoded_palette, palette_writable, Indx};
use crate::chunks::meta::{empty_meta, meta_bytes, meta_from, Meta};
use crate::chunks::xmet::{xmet_bytes, xmet_from, Xmet};
use crate::color::{apply_palette_variant, lemma_packed_round_trip, packed_bytes, palette_lookup, ColorList};
use crate::error::{IllegalDate, InvalidParams, ReadError, ReadErrorKind, WriteError, WriteErrorKind};
use crate::zlib::{zlib_compress, zlib_decompress, zlib_deflate, zlib_inflate};
use crate::format::{carrier_for, ChannelValueType, ColorType, Format, NumberType};
use crate::io::{lemma_packs_bits_unique, lemma_packs_nibbles_unique, le_bytes, le_value, slice_subrange, lemma_le_round_trip, lemma_le_value_bound, lemma_pow2_128, push_le, read_le};
use crate::text::{decimal_at_most, dec_digits, parse_decimal, push_decimal};

verus! {

/// The planes a header may declare for the given number type and layout.
pub open spec fn valid_planes(number_type: NumberType, interleaved: bool, planes: nat) -> bool {
    if number_type == NumberType::Float {
        planes == 32 || planes == 64
    } else if interleaved {
        1 <= planes <= 128
    } else {
        planes == 1 || planes == 4 || planes == 8 || planes == 16 || planes == 32 || planes == 64
            || planes == 128
    }
}

pub fn is_valid_planes(number_type: NumberType, interleaved: bool, planes: u8) -> (r: bool)
    ensures
        r == valid_planes(number_type, interleaved, planes as nat),
{
    if number_type.is_float() {
        return planes == 32 || planes == 64;
    }
    if interleaved {
        return planes > 0 && planes <= 128;
    }
    planes == 1 || planes == 4 || planes == 8 || planes == 16 || planes == 32 || planes == 64
        || planes == 128
}

/// The sixteen bytes of a file header: the magic `XZIB`, then the fields,
/// little-endian.
pub open spec fn head_bytes(
    flags: u8,
    channels: u8,
    planes: u8,
    index_planes: u8,
    width: u32,
    height: u32,
) -> Seq<u8> {
    seq![0x58u8, 0x5Au8, 0x49u8, 0x42u8, flags, channels, planes, index_planes] + le_bytes(
        width as nat,
        4,
    ) + le_bytes(height as nat, 4)
}

/// The mandatory file header.
#[derive(Debug, Clone, Copy, PartialEq, Eq, Structural)]
pub struct Head {
    flags: u8,
    channels: u8,
    planes: u8,
    index_planes: u8,
    width: u32,
    height: u32,
}

impl Head {
    pub const INTERLEAVED: u8 = 1;
    pub const FLOAT: u8 = 2;

    pub closed spec fn spec_flags(&self) -> u8 {
        self.flags
    }

    pub closed spec fn spec_channels(&self) -> u8 {
        self.channels
    }

    pub closed spec fn spec_planes(&self) -> u8 {
        self.planes
    }

    pub closed spec fn spec_index_planes(&self) -> u8 {
        self.index_planes
    }

    pub closed spec fn spec_width(&self) -> u32 {
        self.width
    }

    pub closed spec fn spec_height(&self) -> u32 {
        self.height
    }

    pub open spec fn spec_interleaved(&self) -> bool {
        self.spec_flags() & 1 != 0
    }

    pub open spec fn spec_float(&self) -> bool {
        self.spec_flags() & 2 != 0
    }

    pub open spec fn spec_number_type(&self) -> NumberType {
        if self.spec_float() {
            NumberType::Float
        } else {
            NumberType::Integer
        }
    }

    /// The header's bytes as stored in a file.
    pub open spec fn spec_bytes(&self) -> Seq<u8> {
        head_bytes(
            self.spec_flags(),
            self.spec_channels(),
            self.spec_planes(),
            self.spec_index_planes(),
            self.spec_width(),
            self.spec_height(),
        )
    }

    /// A header for a storable image: planes valid for the number type and
    /// layout, index planes zero or a byte-packed integer depth, a non-empty
    /// size, and one of the stored arrangements L, Rgb or Rgba.
    pub fn new(
        number_type: NumberType,
        interleaved: bool,
        color_type: ColorType,
        planes: u8,
        index_planes: u8,
        width: u32,
        height: u32,
    ) -> (r: Result<Self, InvalidParams>)
        ensures
            r is Ok <==> {
                &&& valid_planes(number_type, interleaved, planes as nat)
                &&& (index_planes == 0 || valid_planes(NumberType::Integer, false, index_planes as nat))
                &&& width > 0 && height > 0
                &&& color_type != ColorType::La
            },
            r is Ok ==> {
                let h = r->Ok_0;
                &&& h.spec_interleaved() == interleaved
                &&& h.spec_number_type() == number_type
                &&& h.spec_flags() == (if number_type == NumberType::Float { 2u8 } else { 0u8 }) + (if interleaved { 1u8 } else { 0u8 })
                &&& h.spec_channels() as nat == color_type.spec_channels()
                &&& h.spec_planes() == planes
                &&& h.spec_index_planes() == index_planes
                &&& h.spec_width() == width
                &&& h.spec_height() == height
            },
    {
        let mut flags: u8 = 0;
        if number_type.is_float() {
            flags = flags + Self::FLOAT;
        }
        if interleaved {
            flags = flags + Self::INTERLEAVED;
        }
        if !is_valid_planes(number_type, interleaved, planes) {
            return Err(InvalidParams::with_message("invalid planes for number type and layout"));
        }
        if index_planes != 0 && !is_valid_planes(NumberType::Integer, false, index_planes) {
            return Err(InvalidParams::with_message("invalid index planes"));
        }
        if width == 0 || height == 0 {
            return Err(InvalidParams::with_message("width and height must be non-zero"));
        }
        if let ColorType::La = color_type {
            return Err(InvalidParams::with_message("LA images cannot be stored"));
        }
        assert(0u8 & 1 == 0 && 0u8 & 2 == 0 && 1u8 & 1 != 0 && 1u8 & 2 == 0 && 2u8 & 1 == 0 && 2u8 & 2 != 0 && 3u8 & 1 != 0 && 3u8 & 2 != 0) by (bit_vector);
        Ok(Head { flags, channels: color_type.channels(), planes, index_planes, width, height })
    }

    pub fn is_interleaved(&self) -> (r: bool)
        ensures
            r == self.spec_interleaved(),
    {
        self.flags & Self::INTERLEAVED != 0
    }

    pub fn is_float(&self) -> (r: bool)
        ensures
            r == self.spec_float(),
    {
        self.flags & Self::FLOAT != 0
    }

    pub fn is_integer(&self) -> (r: bool)
        ensures
            r == !self.spec_float(),
    {
        self.flags & Self::FLOAT == 0
    }

    pub fn is_indexed(&self) -> (r: bool)
        ensures
            r == (self.spec_index_planes() > 0),
    {
        self.index_planes > 0
    }

    pub fn number_type(&self) -> (r: NumberType)
        ensures
            r == self.spec_number_type(),
    {
        if self.is_float() {
            NumberType::Float
        } else {
            NumberType::Integer
        }
    }

    pub fn channel_value_type(&self) -> (r: Result<ChannelValueType, InvalidParams>)
        ensures
            r is Ok <==> (self.spec_planes() > 0 && carrier_for(self.spec_number_type(), self.spec_planes() as nat) is Some),
            r is Ok ==> carrier_for(self.spec_number_type(), self.spec_planes() as nat) == Some(r->Ok_0),
    {
        ChannelValueType::from_planes(self.number_type(), self.planes)
    }

    pub fn index_channel_value_type(&self) -> (r: Result<Option<ChannelValueType>, InvalidParams>)
        ensures
            self.spec_index_planes() == 0 ==> r == Ok::<Option<ChannelValueType>, InvalidParams>(None),
            self.spec_index_planes() != 0 ==> (r is Ok <==> carrier_for(self.spec_number_type(), self.spec_index_planes() as nat) is Some),
            self.spec_index_planes() != 0 && r is Ok ==> r->Ok_0 == carrier_for(self.spec_number_type(), self.spec_index_planes() as nat),
    {
        if self.index_planes == 0 {
            return Ok(None);
        }
        match ChannelValueType::from_planes(self.number_type(), self.index_planes) {
            Ok(t) => Ok(Some(t)),
            Err(e) => Err(e),
        }
    }

    pub fn color_type(&self) -> (r: Result<ColorType, InvalidParams>)
        ensures
            r is Ok <==> ColorType::spec_from_channels(self.spec_channels() as nat) is Some,
            r is Ok ==> ColorType::spec_from_channels(self.spec_channels() as nat) == Some(r->Ok_0),
    {
        ColorType::from_channels(self.channels)
    }

    pub fn format(&self) -> (r: Result<Format, InvalidParams>)
        ensures
            r is Ok <==> (self.spec_planes() > 0 && carrier_for(self.spec_number_type(), self.spec_planes() as nat) is Some
                && ColorType::spec_from_channels(self.spec_channels() as nat) is Some),
            r is Ok ==> Some(r->Ok_0.0) == carrier_for(self.spec_number_type(), self.spec_planes() as nat)
                && Some(r->Ok_0.1) == ColorType::spec_from_channels(self.spec_channels() as nat),
    {
        Format::from_components(self.number_type(), self.planes, self.channels)
    }

    pub fn flags(&self) -> (r: u8)
        ensures
            r == self.spec_flags(),
    {
        self.flags
    }

    pub fn channels(&self) -> (r: u8)
        ensures
            r == self.spec_channels(),
    {
        self.channels
    }

    pub fn planes(&self) -> (r: u8)
        ensures
            r == self.spec_planes(),
    {
        self.planes
    }

    pub fn index_planes(&self) -> (r: u8)
        ensures
            r == self.spec_index_planes(),
    {
        self.index_planes
    }

    pub fn width(&self) -> (r: u32)
        ensures
            r == self.spec_width(),
    {
        self.width
    }

    pub fn height(&self) -> (r: u32)
        ensures
            r == self.spec_height(),
    {
        self.height
    }

    /// Reads the header at the start of a file: the magic, then twelve
    /// bytes of fields. A wrong magic is `Unsupported`; a short file is
    /// `BrokenFile`.
    pub fn read(bytes: &[u8]) -> (r: Result<Self, ReadError>)
        ensures
            bytes@.len() < 4 ==> r is Err && r->Err_0.kind == ReadErrorKind::BrokenFile,
            bytes@.len() >= 4 && bytes@.subrange(0, 4) != seq![0x58u8, 0x5Au8, 0x49u8, 0x42u8] ==> r is Err
                && r->Err_0.kind == ReadErrorKind::Unsupported,
            bytes@.len() >= 4 && bytes@.subrange(0, 4) == seq![0x58u8, 0x5Au8, 0x49u8, 0x42u8] && bytes@.len() < 16
                ==> r is Err && r->Err_0.kind == ReadErrorKind::BrokenFile,
            r is Ok <==> bytes@.len() >= 16 && bytes@.subrange(0, 4) == seq![0x58u8, 0x5Au8, 0x49u8, 0x42u8],
            r is Ok ==> r->Ok_0.spec_bytes() == bytes@.subrange(0, 16),
            r is Ok ==> r->Ok_0 == Head::spec_parse(bytes@),
    {
        if bytes.len() < 4 {
            return Err(ReadError::with_message(ReadErrorKind::BrokenFile, "truncated header"));
        }
        if bytes[0] != 0x58 || bytes[1] != 0x5A || bytes[2] != 0x49 || bytes[3] != 0x42 {
            assert(bytes@.subrange(0, 4) != seq![0x58u8, 0x5Au8, 0x49u8, 0x42u8]) by {
                let m = bytes@.subrange(0, 4);
                assert(m[0] == bytes@[0] && m[1] == bytes@[1] && m[2] == bytes@[2] && m[3] == bytes@[3]);
            }
            return Err(ReadError::with_message(ReadErrorKind::Unsupported, "unsupported fourcc"));
        }
        assert(bytes@.subrange(0, 4) =~= seq![0x58u8, 0x5Au8, 0x49u8, 0x42u8]);
        if bytes.len() < 16 {
            return Err(ReadError::with_message(ReadErrorKind::BrokenFile, "truncated header"));
        }
        proof {
            lemma_le_value_bound(bytes@.subrange(8, 12));
            lemma_le_value_bound(bytes@.subrange(12, 16));
            vstd::arithmetic::power2::lemma2_to64();
        }
        let width = read_le(bytes, 8, 4) as u32;
        let height = read_le(bytes, 12, 4) as u32;
        let head = Head {
            flags: bytes[4],
            channels: bytes[5],
            planes: bytes[6],
            index_planes: bytes[7],
            width,
            height,
        };
        proof {
            lemma_le_bytes_of_value(bytes@.subrange(8, 12));
            lemma_le_bytes_of_value(bytes@.subrange(12, 16));
            assert(head.spec_bytes() =~= bytes@.subrange(0, 16));
        }
        Ok(head)
    }

    /// The header held in the first sixteen bytes of a file.
    pub closed spec fn spec_parse(b: Seq<u8>) -> Head {
        Head {
            flags: b[4],
            channels: b[5],
            planes: b[6],
            index_planes: b[7],
            width: le_value(b.subrange(8, 12)) as u32,
            height: le_value(b.subrange(12, 16)) as u32,
        }
    }

    /// Appends the header's sixteen bytes.
    pub fn write(&self, writer: &mut Vec<u8>)
        ensures
            final(writer)@ == old(writer)@ + self.spec_bytes(),
    {
        let ghost start = writer@;
        writer.push(0x58);
        writer.push(0x5A);
        writer.push(0x49);
        writer.push(0x42);
        writer.push(self.flags);
        writer.push(self.channels);
        writer.push(self.planes);
        writer.push(self.index_planes);
        push_le(writer, self.width as u128, 4);
        push_le(writer, self.height as u128, 4);
        assert(writer@ =~= start + self.spec_bytes());
    }
}

/// Bytes are the little-endian form of their own value.
pub proof fn lemma_le_bytes_of_value(s: Seq<u8>)
    ensures
        le_bytes(le_value(s), s.len()) == s,
    decreases s.len(),
{
    if s.len() > 0 {
        lemma_le_bytes_of_value(s.drop_first());
        let v = le_value(s);
        let r = le_value(s.drop_first());
        assert(v % 256 == s[0] as nat && v / 256 == r) by (nonlinear_arith)
            requires
                v == s[0] as nat + 256 * r,
                s[0] < 256,
        ;
        assert(le_bytes(v, s.len()) =~= s);
    } else {
        assert(le_bytes(le_value(s), 0) =~= s);
    }
}


/// Index of the first `x` in `b` at or after `from`, or `b.len()`.
pub open spec fn find_byte(b: Seq<u8>, x: u8, from: nat) -> nat
    decreases b.len() - from,
{
    if from >= b.len() {
        b.len()
    } else if b[from as int] == x {
        from
    } else {
        find_byte(b, x, from + 1)
    }
}

/// Year, month and day of a date written `Y-M-D`: exactly two dashes, and
/// three unsigned decimal numbers that fit 16, 8 and 8 bits.
pub open spec fn date_of(b: Seq<u8>) -> Option<(nat, nat, nat)> {
    let i1 = find_byte(b, 0x2D, 0);
    let i2 = find_byte(b, 0x2D, i1 + 1);
    let i3 = find_byte(b, 0x2D, i2 + 1);
    if i1 >= b.len() || i2 >= b.len() || i3 < b.len() {
        None
    } else {
        match (
            decimal_at_most(b.subrange(0, i1 as int), 0xFFFF),
            decimal_at_most(b.subrange((i1 + 1) as int, i2 as int), 0xFF),
            decimal_at_most(b.subrange((i2 + 1) as int, b.len() as int), 0xFF),
        ) {
            (Some(y), Some(m), Some(d)) => Some((y, m, d)),
            _ => None,
        }
    }
}

pub fn find_byte_from(b: &[u8], x: u8, from: usize) -> (r: usize)
    requires
        from <= b@.len(),
    ensures
        r as nat == find_byte(b@, x, from as nat),
        from <= r <= b@.len(),
{
    let mut i = from;
    while i < b.len()
        invariant
            from <= i <= b@.len(),
            find_byte(b@, x, from as nat) == find_byte(b@, x, i as nat),
        decreases b@.len() - i,
    {
        if b[i] == x {
            return i;
        }
        i = i + 1;
    }
    i
}

/// The date with the given year, month and day.
pub open spec fn date_from(t: (nat, nat, nat)) -> Date {
    Date::spec_new(t.0 as u16, t.1 as u8, t.2 as u8)
}

/// A calendar date; any component may be zero.
#[derive(Debug, Clone, Copy, PartialEq, Eq, Structural)]
pub struct Date {
    year: u16,
    month: u8,
    day: u8,
}

impl Date {
    pub closed spec fn spec_year(&self) -> u16 {
        self.year
    }

    pub closed spec fn spec_month(&self) -> u8 {
        self.month
    }

    pub closed spec fn spec_day(&self) -> u8 {
        self.day
    }

    /// The date with the given components.
    pub closed spec fn spec_new(year: u16, month: u8, day: u8) -> Date {
        Date { year, month, day }
    }

    pub proof fn lemma_spec_new(year: u16, month: u8, day: u8)
        ensures
            #[trigger] Date::spec_new(year, month, day).spec_year() == year,
            Date::spec_new(year, month, day).spec_month() == month,
            Date::spec_new(year, month, day).spec_day() == day,
    {
    }

    /// The date's text form `YYYY-MM-DD`, each part zero-padded.
    pub open spec fn spec_text(&self) -> Seq<u8> {
        dec_digits(self.spec_year() as nat, 4) + seq![0x2Du8] + dec_digits(self.spec_month() as nat, 2)
            + seq![0x2Du8] + dec_digits(self.spec_day() as nat, 2)
    }

    pub fn new(year: u16, month: u8, day: u8) -> (r: Self)
        ensures
            r == Date::spec_new(year, month, day),
            r.spec_year() == year && r.spec_month() == month && r.spec_day() == day,
    {
        Date { year, month, day }
    }

    pub fn from_year(year: u16) -> (r: Self)
        ensures
            r.spec_year() == year && r.spec_month() == 0 && r.spec_day() == 0,
    {
        Date { year, month: 0, day: 0 }
    }

    pub fn from_year_and_month(year: u16, month: u8) -> (r: Self)
        ensures
            r.spec_year() == year && r.spec_month() == month && r.spec_day() == 0,
    {
        Date { year, month, day: 0 }
    }

    pub fn year(&self) -> (r: u16)
        ensures
            r == self.spec_year(),
    {
        self.year
    }

    pub fn month(&self) -> (r: u8)
        ensures
            r == self.spec_month(),
    {
        self.month
    }

    pub fn day(&self) -> (r: u8)
        ensures
            r == self.spec_day(),
    {
        self.day
    }

    pub fn set_year(&mut self, value: u16)
        ensures
            final(self).spec_year() == value,
            final(self).spec_month() == old(self).spec_month(),
            final(self).spec_day() == old(self).spec_day(),
    {
        self.year = value;
    }

    pub fn set_month(&mut self, value: u8)
        ensures
            final(self).spec_year() == old(self).spec_year(),
            final(self).spec_month() == value,
            final(self).spec_day() == old(self).spec_day(),
    {
        self.month = value;
    }

    pub fn set_day(&mut self, value: u8)
        ensures
            final(self).spec_year() == old(self).spec_year(),
            final(self).spec_month() == old(self).spec_month(),
            final(self).spec_day() == value,
    {
        self.day = value;
    }

    /// Whether this is the empty date, all of whose components are zero.
    pub fn is_null(&self) -> (r: bool)
        ensures
            r == (self.spec_year() == 0 && self.spec_month() == 0 && self.spec_day() == 0),
            r == (*self == Date::spec_new(0, 0, 0)),
    {
        self.year == 0 && self.month == 0 && self.day == 0
    }

    /// Parses `YYYY-MM-DD` given as bytes.
    pub fn parse_bytes(b: &[u8]) -> (r: Result<Date, IllegalDate>)
        ensures
            r is Ok <==> date_of(b@) is Some,
            r is Ok ==> date_of(b@) == Some(
                (r->Ok_0.spec_year() as nat, r->Ok_0.spec_month() as nat, r->Ok_0.spec_day() as nat),
            ),
            r is Ok ==> r->Ok_0 == date_from(date_of(b@)->0),
    {
        let i1 = find_byte_from(b, 0x2D, 0);
        if i1 >= b.len() {
            return Err(IllegalDate::with_message("illegal date"));
        }
        let i2 = find_byte_from(b, 0x2D, i1 + 1);
        if i2 >= b.len() {
            return Err(IllegalDate::with_message("illegal date"));
        }
        let i3 = find_byte_from(b, 0x2D, i2 + 1);
        if i3 < b.len() {
            return Err(IllegalDate::with_message("illegal date"));
        }
        let year = match parse_decimal(b, 0, i1, 0xFFFF) {
            Some(v) => v,
            None => {
                return Err(IllegalDate::with_message("illegal date"));
            },
        };
        let month = match parse_decimal(b, i1 + 1, i2, 0xFF) {
            Some(v) => v,
            None => {
                return Err(IllegalDate::with_message("illegal date"));
            },
        };
        let day = match parse_decimal(b, i2 + 1, b.len(), 0xFF) {
            Some(v) => v,
            None => {
                return Err(IllegalDate::with_message("illegal date"));
            },
        };
        Ok(Date { year: year as u16, month: month as u8, day: day as u8 })
    }

    /// Parses a date written `YYYY-MM-DD`.
    pub fn parse(value: &str) -> (r: Result<Date, IllegalDate>)
        ensures
            r is Ok <==> date_of(value.spec_bytes()) is Some,
            r is Ok ==> date_of(value.spec_bytes()) == Some(
                (r->Ok_0.spec_year() as nat, r->Ok_0.spec_month() as nat, r->Ok_0.spec_day() as nat),
            ),
    {
        Date::parse_bytes(value.as_bytes())
    }

    /// The date as `YYYY-MM-DD`, each part zero-padded.
    pub fn to_bytes(&self) -> (r: Vec<u8>)
        ensures
            r@ == self.spec_text(),
    {
        let mut out: Vec<u8> = Vec::new();
        push_decimal(&mut out, self.year as u32, 4);
        out.push(0x2D);
        push_decimal(&mut out, self.month as u32, 2);
        out.push(0x2D);
        push_decimal(&mut out, self.day as u32, 2);
        assert(out@ =~= self.spec_text());
        out
    }
}

impl Default for Date {
    fn default() -> (r: Self)
        ensures
            r == Date::spec_new(0, 0, 0),
            r.spec_year() == 0 && r.spec_month() == 0 && r.spec_day() == 0,
    {
        Date { year: 0, month: 0, day: 0 }
    }
}


pub open spec fn is_upper(c: u8) -> bool {
    0x41 <= c <= 0x5A
}

pub open spec fn is_lower(c: u8) -> bool {
    0x61 <= c <= 0x7A
}

pub open spec fn to_upper(c: u8) -> u8 {
    if is_lower(c) {
        (c - 32) as u8
    } else {
        c
    }
}

pub open spec fn to_lower(c: u8) -> u8 {
    if is_upper(c) {
        (c + 32) as u8
    } else {
        c
    }
}

pub fn ascii_upper(c: u8) -> (r: u8)
    ensures
        r == to_upper(c),
{
    if 0x61 <= c && c <= 0x7A {
        c - 32
    } else {
        c
    }
}

pub fn ascii_lower(c: u8) -> (r: u8)
    ensures
        r == to_lower(c),
{
    if 0x41 <= c && c <= 0x5A {
        c + 32
    } else {
        c
    }
}

/// The stored form of a chunk with tag `tag` and payload `payload` at a
/// compression level: byte 0 of the tag lowercase for a `u32` size (payloads
/// up to `2^32 - 1` bytes), else a `u64` size; byte 1 lowercase when the
/// payload is zlib-compressed, which it is for a level above zero.
pub open spec fn envelope(tag: Seq<u8>, payload: Seq<u8>, level: u32) -> Seq<u8> {
    let data = if level > 0 {
        zlib_deflate(payload, level)
    } else {
        payload
    };
    let small = data.len() <= 0xFFFF_FFFF;
    seq![
        if small {
            to_lower(tag[0])
        } else {
            tag[0]
        },
        if level > 0 {
            to_lower(tag[1])
        } else {
            tag[1]
        },
        tag[2],
        tag[3],
    ] + (if small {
        le_bytes(data.len(), 4)
    } else {
        le_bytes(data.len(), 8)
    }) + data
}

/// The case of a stored tag carries the envelope's two flags: byte 0 is
/// lowercase exactly when the size is stored as `u32`, which the writer
/// does for data of at most `2^32 - 1` bytes, and byte 1 is lowercase
/// exactly when the payload is compressed, which it is for a level above 0.
pub proof fn lemma_envelope_case(tag: Seq<u8>, payload: Seq<u8>, level: u32)
    requires
        tag.len() == 4,
        is_upper(tag[0]),
        is_upper(tag[1]),
    ensures
        is_lower(envelope(tag, payload, level)[0]) <==> (if level > 0 {
            zlib_deflate(payload, level)
        } else {
            payload
        }).len() <= 0xFFFF_FFFF,
        is_lower(envelope(tag, payload, level)[1]) <==> level > 0,
{
}

/// The stored chunk at `pos`: its canonical tag (bytes 0 and 1 uppercased),
/// its payload after inflating, and where the next chunk starts; `None`
/// when the size or payload is cut short or the payload does not inflate.
pub open spec fn chunk_at(b: Seq<u8>, pos: nat) -> Option<(Seq<u8>, Seq<u8>, nat)> {
    let p = pos as int;
    let t0 = b[p];
    let t1 = b[p + 1];
    let sw: int = if is_upper(t0) {
        8
    } else {
        4
    };
    if p + 4 + sw > b.len() {
        None
    } else {
        let size = le_value(b.subrange(p + 4, p + 4 + sw));
        let start = p + 4 + sw;
        if start + size > b.len() {
            None
        } else {
            let raw = b.subrange(start, start + size);
            let data = if is_lower(t1) {
                zlib_inflate(raw)
            } else {
                Some(raw)
            };
            match data {
                Some(d) => if d.len() * 8 <= usize::MAX {
                    Some((seq![to_upper(t0), to_upper(t1), b[p + 2], b[p + 3]], d, (start + size) as nat))
                } else {
                    None
                },
                None => None,
            }
        }
    }
}

/// The chunks stored from `pos` to the end of the file, as canonical tags
/// and payloads; fewer than four bytes left end the file.
pub open spec fn chunks_from(b: Seq<u8>, pos: nat) -> Option<Seq<(Seq<u8>, Seq<u8>)>>
    decreases b.len() - pos,
{
    if pos + 4 > b.len() {
        Some(Seq::empty())
    } else {
        match chunk_at(b, pos) {
            None => None,
            Some(c) => if c.2 <= pos {
                None
            } else {
                match chunks_from(b, c.2) {
                    Some(rest) => Some(seq![(c.0, c.1)] + rest),
                    None => None,
                }
            },
        }
    }
}

pub open spec fn tag_indx() -> Seq<u8> {
    seq![0x49u8, 0x4Eu8, 0x44u8, 0x58u8]
}

pub open spec fn tag_meta() -> Seq<u8> {
    seq![0x4Du8, 0x45u8, 0x54u8, 0x41u8]
}

pub open spec fn tag_xmet() -> Seq<u8> {
    seq![0x58u8, 0x4Du8, 0x45u8, 0x54u8]
}

pub open spec fn tag_body() -> Seq<u8> {
    seq![0x42u8, 0x4Fu8, 0x44u8, 0x59u8]
}

pub open spec fn tag_foot() -> Seq<u8> {
    seq![0x46u8, 0x4Fu8, 0x4Fu8, 0x54u8]
}

/// Whether a chunk's payload parses under the header; unknown tags are
/// skipped and always pass.
pub open spec fn chunk_ok(tag: Seq<u8>, d: Seq<u8>, head: Head) -> bool {
    if tag == tag_indx() {
        decoded_palette(d, head) is Some
    } else if tag == tag_meta() {
        meta_from(d, 0, empty_meta()) is Some
    } else if tag == tag_xmet() {
        xmet_from(d, 0, Seq::empty()) is Some
    } else if tag == tag_body() {
        decoded_body(d, head) is Some
    } else if tag == tag_foot() {
        d.len() >= 1 && ChecksumType::spec_new(d[0]) is Some && d.len() >= 1 + ChecksumType::spec_new(
            d[0],
        )->0.spec_size()
    } else {
        true
    }
}

/// The payload of the last chunk with the given tag, if any.
pub open spec fn last_payload(l: Seq<(Seq<u8>, Seq<u8>)>, tag: Seq<u8>) -> Option<Seq<u8>>
    decreases l.len(),
{
    if l.len() == 0 {
        None
    } else if l.last().0 == tag {
        Some(l.last().1)
    } else {
        last_payload(l.drop_last(), tag)
    }
}

/// A whole image: the header and the optional chunks.
#[derive(Debug)]
pub struct XZIB {
    head: Head,
    indx: Option<Indx>,
    meta: Option<Meta>,
    xmet: Option<Xmet>,
    body: Option<Body>,
    foot: Option<Foot>,
}

impl XZIB {
    pub const INTERLEAVED: u8 = 1;
    pub const FLOAT: u8 = 2;
    pub const FOURCC: [u8; 4] = [0x58, 0x5A, 0x49, 0x42];

    pub closed spec fn spec_head(&self) -> Head {
        self.head
    }

    pub closed spec fn spec_indx(&self) -> Option<Indx> {
        self.indx
    }

    pub closed spec fn spec_meta(&self) -> Option<Meta> {
        self.meta
    }

    pub closed spec fn spec_xmet(&self) -> Option<Xmet> {
        self.xmet
    }

    pub closed spec fn spec_body(&self) -> Option<Body> {
        self.body
    }

    pub closed spec fn spec_foot(&self) -> Option<Foot> {
        self.foot
    }

    pub fn new(head: Head) -> (r: Self)
        ensures
            r.spec_head() == head,
            r.spec_indx() is None,
            r.spec_meta() is None,
            r.spec_xmet() is None,
            r.spec_body() is None,
            r.spec_foot() is None,
    {
        XZIB { head, indx: None, meta: None, xmet: None, body: None, foot: None }
    }

    pub fn head(&self) -> (r: &Head)
        ensures
            *r == self.spec_head(),
    {
        &self.head
    }

    pub fn indx(&self) -> (r: Option<&Indx>)
        ensures
            match r {
                Some(x) => self.spec_indx() == Some(*x),
                None => self.spec_indx() is None,
            },
    {
        self.indx.as_ref()
    }

    pub fn meta(&self) -> (r: Option<&Meta>)
        ensures
            match r {
                Some(x) => self.spec_meta() == Some(*x),
                None => self.spec_meta() is None,
            },
    {
        self.meta.as_ref()
    }

    pub fn xmet(&self) -> (r: Option<&Xmet>)
        ensures
            match r {
                Some(x) => self.spec_xmet() == Some(*x),
                None => self.spec_xmet() is None,
            },
    {
        self.xmet.as_ref()
    }

    pub fn body(&self) -> (r: Option<&Body>)
        ensures
            match r {
                Some(x) => self.spec_body() == Some(*x),
                None => self.spec_body() is None,
            },
    {
        self.body.as_ref()
    }

    pub fn foot(&self) -> (r: Option<&Foot>)
        ensures
            match r {
                Some(x) => self.spec_foot() == Some(*x),
                None => self.spec_foot() is None,
            },
    {
        self.foot.as_ref()
    }

    pub fn indx_mut(&mut self) -> (r: &mut Option<Indx>)
        ensures
            *r == old(self).spec_indx(),
            final(self).spec_indx() == *final(r),
            final(self).spec_head() == old(self).spec_head(),
            final(self).spec_meta() == old(self).spec_meta(),
            final(self).spec_xmet() == old(self).spec_xmet(),
            final(self).spec_body() == old(self).spec_body(),
            final(self).spec_foot() == old(self).spec_foot(),
    {
        &mut self.indx
    }

    pub fn meta_mut(&mut self) -> (r: &mut Option<Meta>)
        ensures
            *r == old(self).spec_meta(),
            final(self).spec_meta() == *final(r),
            final(self).spec_head() == old(self).spec_head(),
            final(self).spec_indx() == old(self).spec_indx(),
            final(self).spec_xmet() == old(self).spec_xmet(),
            final(self).spec_body() == old(self).spec_body(),
            final(self).spec_foot() == old(self).spec_foot(),
    {
        &mut self.meta
    }

    pub fn xmet_mut(&mut self) -> (r: &mut Option<Xmet>)
        ensures
            *r == old(self).spec_xmet(),
            final(self).spec_xmet() == *final(r),
            final(self).spec_head() == old(self).spec_head(),
            final(self).spec_indx() == old(self).spec_indx(),
            final(self).spec_meta() == old(self).spec_meta(),
            final(self).spec_body() == old(self).spec_body(),
            final(self).spec_foot() == old(self).spec_foot(),
    {
        &mut self.xmet
    }

    pub fn body_mut(&mut self) -> (r: &mut Option<Body>)
        ensures
            *r == old(self).spec_body(),
            final(self).spec_body() == *final(r),
            final(self).spec_head() == old(self).spec_head(),
            final(self).spec_indx() == old(self).spec_indx(),
            final(self).spec_meta() == old(self).spec_meta(),
            final(self).spec_xmet() == old(self).spec_xmet(),
            final(self).spec_foot() == old(self).spec_foot(),
    {
        &mut self.body
    }

    pub fn foot_mut(&mut self) -> (r: &mut Option<Foot>)
        ensures
            *r == old(self).spec_foot(),
            final(self).spec_foot() == *final(r),
            final(self).spec_head() == old(self).spec_head(),
            final(self).spec_indx() == old(self).spec_indx(),
            final(self).spec_meta() == old(self).spec_meta(),
            final(self).spec_xmet() == old(self).spec_xmet(),
            final(self).spec_body() == old(self).spec_body(),
    {
        &mut self.foot
    }

    /// The pixels to display: the BODY's buffer, or, when there is a palette
    /// and the body is an integer L buffer, the body's values looked up in
    /// the palette. `None` without a BODY.
    pub fn image_buffer(&self) -> (r: Option<ColorList>)
        requires
            self.spec_body() is Some ==> self.spec_body()->0.data.samples().len() * 4 <= usize::MAX,
        ensures
            self.spec_body() is None ==> r is None,
            self.spec_body() is Some ==> r is Some,
            self.spec_body() is Some && !indexed_lookup(*self) ==> {
                let d = self.spec_body()->0.data;
                &&& r->0.spec_value_type() == d.spec_value_type()
                &&& r->0.spec_color_type() == d.spec_color_type()
                &&& r->0.samples() == d.samples()
            },
            self.spec_body() is Some && indexed_lookup(*self) ==> {
                let d = self.spec_body()->0.data;
                let p = self.spec_indx()->0.colors;
                &&& r->0.spec_value_type() == p.spec_value_type()
                &&& r->0.spec_color_type() == p.spec_color_type()
                &&& r->0.samples() == palette_lookup(d.samples(), p.samples(), p.spec_color_type().spec_channels())
                &&& r->0.spec_len() == d.spec_len()
            },
    {
        let body = match &self.body {
            Some(b) => b,
            None => return None,
        };
        let data = &body.data;
        if let Some(indx) = &self.indx {
            let integer = match data.channel_value_type() {
                ChannelValueType::F32 | ChannelValueType::F64 => false,
                _ => true,
            };
            if integer {
                if let ColorType::L = data.color_type() {
                    let img = data.to_samples();
                    proof {
                        data.lemma_samples_len();
                    }
                    return Some(apply_palette_variant(img.as_slice(), &indx.colors));
                }
            }
        }
        Some(data.duplicate())
    }

    /// Decodes a whole file held in memory. A wrong magic is `Unsupported`;
    /// anything else that does not decode is `BrokenFile`. Unknown chunks
    /// are skipped, and of chunks of one kind the last one counts.
    pub fn read(bytes: &[u8]) -> (r: Result<Self, ReadError>)
        ensures
            r is Ok <==> file_ok(bytes@),
            r is Err && bytes@.len() >= 4 && bytes@.subrange(0, 4) != magic() ==> r->Err_0.kind
                == ReadErrorKind::Unsupported,
            r is Err && bytes@.len() >= 4 && bytes@.subrange(0, 4) == magic() ==> r->Err_0.kind
                == ReadErrorKind::BrokenFile,
            r is Ok ==> r->Ok_0.spec_head() == Head::spec_parse(bytes@) && holds_chunks(
                r->Ok_0.spec_indx(),
                r->Ok_0.spec_meta(),
                r->Ok_0.spec_xmet(),
                r->Ok_0.spec_body(),
                r->Ok_0.spec_foot(),
                chunks_from(bytes@, 16)->0,
                Head::spec_parse(bytes@),
            ),
    {
        let head = match Head::read(bytes) {
            Ok(h) => h,
            Err(e) => return Err(e),
        };
        if head.channels() == 0 {
            return Err(ReadError::with_message(ReadErrorKind::BrokenFile, "channels == 0"));
        }
        if head.planes() == 0 {
            return Err(ReadError::with_message(ReadErrorKind::BrokenFile, "planes == 0"));
        }
        let ghost b = bytes@;
        let len = bytes.len();
        let mut indx: Option<Indx> = None;
        let mut meta: Option<Meta> = None;
        let mut xmet: Option<Xmet> = None;
        let mut body: Option<Body> = None;
        let mut foot: Option<Foot> = None;
        let ghost mut seen: Seq<(Seq<u8>, Seq<u8>)> = Seq::empty();
        let mut pos: usize = 16;
        proof {
            match chunks_from(b, 16) {
                Some(rest) => {
                    assert(seen + rest =~= rest);
                },
                None => {},
            }
        }
        while pos < len && len - pos >= 4
            invariant
                b == bytes@,
                len == b.len(),
                16 <= pos <= len,
                head == Head::spec_parse(b),
                b.len() >= 16,
                b.subrange(0, 4) == magic(),
                b[5] != 0,
                b[6] != 0,
                match chunks_from(b, pos as nat) {
                    Some(rest) => chunks_from(b, 16) == Some(seen + rest),
                    None => chunks_from(b, 16) is None,
                },
                forall|i: int| 0 <= i < seen.len() ==> chunk_ok(#[trigger] seen[i].0, seen[i].1, head),
                holds_chunks(indx, meta, xmet, body, foot, seen, head),
            decreases len - pos,
        {
            let (tag, data, end) = match read_chunk(bytes, pos) {
                Ok(c) => c,
                Err(e) => return Err(e),
            };
            proof {
                match chunks_from(b, end as nat) {
                    Some(rest) => {
                        assert(seen.push((tag@, data@)) + rest =~= seen + (seq![(tag@, data@)] + rest));
                    },
                    None => {},
                }
            }
            let ghost item = (tag@, data@);
            let data = data.as_slice();
            if same_tag(tag, Indx::FOURCC) {
                match Indx::read(data, &head) {
                    Ok(v) => {
                        indx = Some(v);
                    },
                    Err(e) => {
                        proof { lemma_chunk_fails(b, seen, pos as nat, item, head); }
                        return Err(e);
                    },
                }
            } else if same_tag(tag, Meta::FOURCC) {
                match Meta::read(data) {
                    Ok(v) => {
                        meta = Some(v);
                    },
                    Err(e) => {
                        proof { lemma_chunk_fails(b, seen, pos as nat, item, head); }
                        return Err(e);
                    },
                }
            } else if same_tag(tag, Xmet::FOURCC) {
                match Xmet::read(data) {
                    Ok(v) => {
                        xmet = Some(v);
                    },
                    Err(e) => {
                        proof { lemma_chunk_fails(b, seen, pos as nat, item, head); }
                        return Err(e);
                    },
                }
            } else if same_tag(tag, Body::FOURCC) {
                match Body::read(data, &head) {
                    Ok(v) => {
                        body = Some(v);
                    },
                    Err(e) => {
                        proof { lemma_chunk_fails(b, seen, pos as nat, item, head); }
                        return Err(e);
                    },
                }
            } else if same_tag(tag, Foot::FOURCC) {
                match Foot::read(data) {
                    Ok(v) => {
                        foot = Some(v);
                    },
                    Err(e) => {
                        proof { lemma_chunk_fails(b, seen, pos as nat, item, head); }
                        return Err(e);
                    },
                }
            }
            proof {
                let s2 = seen.push(item);
                assert(s2.drop_last() =~= seen);
                assert(tag_indx() == Indx::FOURCC@);
                assert(tag_meta() == Meta::FOURCC@);
                assert(tag_xmet() == Xmet::FOURCC@);
                assert(tag_body() == Body::FOURCC@);
                assert(tag_foot() == Foot::FOURCC@);
                seen = s2;
            }
            pos = end;
        }
        proof {
            assert(chunks_from(b, pos as nat) == Some(Seq::<(Seq<u8>, Seq<u8>)>::empty()));
            assert(seen + Seq::<(Seq<u8>, Seq<u8>)>::empty() =~= seen);
        }
        Ok(XZIB { head, indx, meta, xmet, body, foot })
    }

    /// Encodes the image: the header, then each present chunk in the order
    /// INDX, META, XMET, BODY, FOOT, compressed at `compression` (0 to 9,
    /// where 0 stores payloads raw). The FOOT chunk is stored as held; the
    /// checksum it carries is meant to cover every byte before it.
    pub fn write(&self, compression: u32) -> (r: Result<Vec<u8>, WriteError>)
        requires
            compression <= 9,
        ensures
            r is Ok <==> image_writable(*self),
            r is Err ==> r->Err_0.kind == WriteErrorKind::InvalidParams,
            r is Ok ==> exists|pi: Seq<u8>, pb: Seq<u8>|
                #[trigger] payloads_of(*self, pi, pb) && r->Ok_0@ == written_image(*self, pi, pb, compression)
                    && all_stored_ok(written_chunks(*self, pi, pb), compression),
    {
        let mut out: Vec<u8> = Vec::new();
        self.head.write(&mut out);
        let ghost mut pi: Seq<u8> = Seq::empty();
        let ghost mut pb: Seq<u8> = Seq::empty();

        let ghost s0 = out@;
        if let Some(indx) = &self.indx {
            let payload = match indx.write(&self.head) {
                Ok(p) => p,
                Err(e) => return Err(e),
            };
            proof {
                pi = payload@;
            }
            write_chunk(&mut out, Indx::FOURCC, payload.as_slice(), compression);
        }
        let ghost s1 = out@;
        if let Some(meta) = &self.meta {
            let mut payload: Vec<u8> = Vec::new();
            meta.write(&mut payload);
            assert(payload@ =~= meta_bytes(meta.view()));
            write_chunk(&mut out, Meta::FOURCC, payload.as_slice(), compression);
        }
        let ghost s2 = out@;
        if let Some(xmet) = &self.xmet {
            let mut payload: Vec<u8> = Vec::new();
            xmet.write(&mut payload);
            assert(payload@ =~= xmet_bytes(xmet.view()));
            write_chunk(&mut out, Xmet::FOURCC, payload.as_slice(), compression);
        }
        let ghost s3 = out@;
        if let Some(body) = &self.body {
            if self.indx.is_some() {
                match body.data.color_type() {
                    ColorType::L => {},
                    _ => {
                        return Err(WriteError::with_message(WriteErrorKind::InvalidParams, "with an index the BODY chunk must be of type L"));
                    },
                }
            }
            let payload = match body.write(&self.head) {
                Ok(p) => p,
                Err(e) => return Err(e),
            };
            proof {
                pb = payload@;
            }
            write_chunk(&mut out, Body::FOURCC, payload.as_slice(), compression);
        }
        let ghost s4 = out@;
        if let Some(foot) = &self.foot {
            let mut payload: Vec<u8> = Vec::new();
            foot.write(&mut payload);
            assert(payload@ =~= foot_payload(foot.checksum));
            write_chunk(&mut out, Foot::FOURCC, payload.as_slice(), compression);
        }
        proof {
            assert(payloads_of(*self, pi, pb));
            assert(tag_indx() == Indx::FOURCC@);
            assert(tag_meta() == Meta::FOURCC@);
            assert(tag_xmet() == Xmet::FOURCC@);
            assert(tag_body() == Body::FOURCC@);
            assert(tag_foot() == Foot::FOURCC@);
            assert(out@ =~= written_image(*self, pi, pb, compression));
            let l = written_chunks(*self, pi, pb);
            assert(all_stored_ok(l, compression)) by {
                assert forall|i: int| 0 <= i < l.len() implies #[trigger] stored_ok(l[i].1, compression) by {
                    let li = optional_chunk(self.indx is Some, tag_indx(), pi);
                    let lm = optional_chunk(self.meta is Some, tag_meta(), meta_bytes(self.meta->0.view()));
                    let lx = optional_chunk(self.xmet is Some, tag_xmet(), xmet_bytes(self.xmet->0.view()));
                    let lb = optional_chunk(self.body is Some, tag_body(), pb);
                    let lf = optional_chunk(self.foot is Some, tag_foot(), foot_payload(self.foot->0.checksum));
                    assert(l == li + lm + lx + lb + lf);
                }
            }
        }
        Ok(out)
    }
}

/// A file's magic: the bytes `XZIB`.
pub open spec fn magic() -> Seq<u8> {
    seq![0x58u8, 0x5Au8, 0x49u8, 0x42u8]
}

/// Whether the chunk list read from a file is held by an image: each kind
/// is present exactly when a chunk of it was read, and holds what the last
/// such chunk decodes to.
pub open spec fn holds_chunks(
    indx: Option<Indx>,
    meta: Option<Meta>,
    xmet: Option<Xmet>,
    body: Option<Body>,
    foot: Option<Foot>,
    l: Seq<(Seq<u8>, Seq<u8>)>,
    head: Head,
) -> bool {
    &&& match last_payload(l, tag_indx()) {
        None => indx is None,
        Some(p) => indx is Some && decoded_palette(p, head) == Some(
            (
                indx->0.colors.spec_value_type(),
                indx->0.colors.spec_color_type(),
                indx->0.colors.samples(),
            ),
        ),
    }
    &&& match last_payload(l, tag_meta()) {
        None => meta is None,
        Some(p) => meta is Some && meta_from(p, 0, empty_meta()) == Some(meta->0.view()),
    }
    &&& match last_payload(l, tag_xmet()) {
        None => xmet is None,
        Some(p) => xmet is Some && xmet_from(p, 0, Seq::empty()) == Some(xmet->0.view()),
    }
    &&& match last_payload(l, tag_body()) {
        None => body is None,
        Some(p) => body is Some && decoded_body(p, head) == Some(
            (body->0.data.spec_value_type(), body->0.data.spec_color_type(), body->0.data.samples()),
        ),
    }
    &&& match last_payload(l, tag_foot()) {
        None => foot is None,
        Some(p) => foot is Some && foot_payload(foot->0.checksum) == p.subrange(
            0,
            (1 + foot->0.checksum.spec_type().spec_size()) as int,
        ),
    }
}

/// Whether a file decodes: a header with its magic and non-zero channels
/// and planes, a well-formed chunk sequence, and chunks that all parse.
pub open spec fn file_ok(b: Seq<u8>) -> bool {
    &&& b.len() >= 16
    &&& b.subrange(0, 4) == magic()
    &&& b[5] != 0
    &&& b[6] != 0
    &&& chunks_from(b, 16) is Some
    &&& forall|i: int|
        0 <= i < chunks_from(b, 16)->0.len() ==> chunk_ok(
            #[trigger] chunks_from(b, 16)->0[i].0,
            chunks_from(b, 16)->0[i].1,
            Head::spec_parse(b),
        )
}

/// Whether an image's pixels go through its palette: there is a palette
/// and the body is an integer L buffer.
pub open spec fn indexed_lookup(x: XZIB) -> bool {
    &&& x.spec_indx() is Some
    &&& x.spec_body() is Some
    &&& x.spec_body()->0.data.spec_color_type() == ColorType::L
    &&& x.spec_body()->0.data.spec_value_type().spec_number_type() == NumberType::Integer
}

/// Whether an image can be written: a palette and a body that fit the
/// header, and a body of arrangement L when there is a palette.
pub open spec fn image_writable(x: XZIB) -> bool {
    &&& x.spec_indx() is Some ==> palette_writable(x.spec_indx()->0.colors, x.spec_head())
    &&& x.spec_body() is Some ==> body_writable(x.spec_body()->0.data, x.spec_head())
    &&& x.spec_body() is Some && x.spec_indx() is Some ==> x.spec_body()->0.data.spec_color_type()
        == ColorType::L
}

pub open spec fn optional_envelope(present: bool, tag: Seq<u8>, payload: Seq<u8>, level: u32) -> Seq<u8> {
    if present {
        envelope(tag, payload, level)
    } else {
        Seq::empty()
    }
}

/// The bytes of an image whose palette and body payloads are `pi` and
/// `pb`: the header, then INDX, META, XMET, BODY and FOOT, each if present.
pub open spec fn written_image(x: XZIB, pi: Seq<u8>, pb: Seq<u8>, level: u32) -> Seq<u8> {
    x.spec_head().spec_bytes() + optional_envelope(x.spec_indx() is Some, tag_indx(), pi, level)
        + optional_envelope(
        x.spec_meta() is Some,
        tag_meta(),
        meta_bytes(x.spec_meta()->0.view()),
        level,
    ) + optional_envelope(x.spec_xmet() is Some, tag_xmet(), xmet_bytes(x.spec_xmet()->0.view()), level)
        + optional_envelope(x.spec_body() is Some, tag_body(), pb, level) + optional_envelope(
        x.spec_foot() is Some,
        tag_foot(),
        foot_payload(x.spec_foot()->0.checksum),
        level,
    )
}

/// Facts about a payload that a reader relies on: it fits in memory, and
/// when compressed, its zlib stream fits in memory and inflates back to it.
pub open spec fn stored_ok(p: Seq<u8>, level: u32) -> bool {
    &&& p.len() <= usize::MAX
    &&& level > 0 ==> zlib_deflate(p, level).len() <= usize::MAX && zlib_inflate(zlib_deflate(p, level))
        == Some(p)
}

/// The chunks an image is written as: canonical tags and payloads, in
/// the order INDX, META, XMET, BODY, FOOT.
pub open spec fn written_chunks(x: XZIB, pi: Seq<u8>, pb: Seq<u8>) -> Seq<(Seq<u8>, Seq<u8>)> {
    optional_chunk(x.spec_indx() is Some, tag_indx(), pi) + optional_chunk(
        x.spec_meta() is Some,
        tag_meta(),
        meta_bytes(x.spec_meta()->0.view()),
    ) + optional_chunk(x.spec_xmet() is Some, tag_xmet(), xmet_bytes(x.spec_xmet()->0.view()))
        + optional_chunk(x.spec_body() is Some, tag_body(), pb) + optional_chunk(
        x.spec_foot() is Some,
        tag_foot(),
        foot_payload(x.spec_foot()->0.checksum),
    )
}

pub open spec fn optional_chunk(present: bool, tag: Seq<u8>, p: Seq<u8>) -> Seq<(Seq<u8>, Seq<u8>)> {
    if present {
        seq![(tag, p)]
    } else {
        Seq::empty()
    }
}

/// Whether every chunk of a list can be stored and read back at a level.
pub open spec fn all_stored_ok(l: Seq<(Seq<u8>, Seq<u8>)>, level: u32) -> bool {
    forall|i: int| 0 <= i < l.len() ==> #[trigger] stored_ok(l[i].1, level)
}

/// Whether every payload of a list is small enough for the decoders.
pub open spec fn small_payloads(l: Seq<(Seq<u8>, Seq<u8>)>) -> bool {
    forall|i: int| 0 <= i < l.len() ==> #[trigger] l[i].1.len() * 8 <= usize::MAX
}

/// Whether every tag of a list is one of the five known ones.
pub open spec fn known_tags(l: Seq<(Seq<u8>, Seq<u8>)>) -> bool {
    forall|i: int|
        0 <= i < l.len() ==> #[trigger] l[i].0 == tag_indx() || l[i].0 == tag_meta() || l[i].0
            == tag_xmet() || l[i].0 == tag_body() || l[i].0 == tag_foot()
}

/// A list of chunks stored one after the other.
pub open spec fn envelopes(l: Seq<(Seq<u8>, Seq<u8>)>, level: u32) -> Seq<u8>
    decreases l.len(),
{
    if l.len() == 0 {
        Seq::empty()
    } else {
        envelopes(l.drop_last(), level) + envelope(l.last().0, l.last().1, level)
    }
}

/// Whether `pi` and `pb` are the encoded palette and body of an image.
pub open spec fn payloads_of(x: XZIB, pi: Seq<u8>, pb: Seq<u8>) -> bool {
    &&& x.spec_indx() is Some ==> packed_bytes(
        pi,
        x.spec_indx()->0.colors.samples(),
        x.spec_head().spec_index_planes() as nat,
    )
    &&& x.spec_body() is Some ==> encoded_body(
        pb,
        x.spec_body()->0.data.samples(),
        x.spec_head(),
        x.spec_body()->0.data.spec_value_type().bits(),
    )
}

pub fn same_tag(a: [u8; 4], b: [u8; 4]) -> (r: bool)
    ensures
        r == (a@ == b@),
{
    let r = a[0] == b[0] && a[1] == b[1] && a[2] == b[2] && a[3] == b[3];
    if r {
        assert(a@ =~= b@);
    }
    r
}

/// Reads the stored chunk at `pos`: its canonical tag, its payload after
/// inflating, and where the next chunk starts.
fn read_chunk(bytes: &[u8], pos: usize) -> (r: Result<([u8; 4], Vec<u8>, usize), ReadError>)
    requires
        pos + 4 <= bytes@.len(),
    ensures
        r is Ok <==> chunk_at(bytes@, pos as nat) is Some,
        r is Err ==> r->Err_0.kind == ReadErrorKind::BrokenFile,
        r is Ok ==> chunk_at(bytes@, pos as nat) == Some((r->Ok_0.0@, r->Ok_0.1@, r->Ok_0.2 as nat)),
        r is Ok ==> r->Ok_0.2 > pos && r->Ok_0.2 <= bytes@.len() && r->Ok_0.1@.len() * 8 <= usize::MAX,
{
    let len = bytes.len();
    let t0 = bytes[pos];
    let t1 = bytes[pos + 1];
    let t2 = bytes[pos + 2];
    let t3 = bytes[pos + 3];
    let sw: usize = if 0x41 <= t0 && t0 <= 0x5A {
        8
    } else {
        4
    };
    if len - pos - 4 < sw {
        return Err(ReadError::with_message(ReadErrorKind::BrokenFile, "truncated chunk size"));
    }
    let size = read_le(bytes, pos + 4, sw);
    let start = pos + 4 + sw;
    if ((len - start) as u128) < size {
        return Err(ReadError::with_message(ReadErrorKind::BrokenFile, "truncated chunk"));
    }
    let end = start + size as usize;
    let raw = slice_subrange(bytes, start, end);
    let data: Vec<u8> = if 0x61 <= t1 && t1 <= 0x7A {
        match zlib_decompress(raw) {
            Some(v) => v,
            None => {
                return Err(ReadError::with_message(ReadErrorKind::BrokenFile, "broken compressed chunk"));
            },
        }
    } else {
        let mut v: Vec<u8> = Vec::new();
        crate::io::push_all(&mut v, raw);
        assert(v@ =~= raw@);
        v
    };
    if data.len() > usize::MAX / 8 {
        return Err(ReadError::with_message(ReadErrorKind::BrokenFile, "chunk too large"));
    }
    let tag = [ascii_upper(t0), ascii_upper(t1), t2, t3];
    assert(tag@ =~= seq![to_upper(t0), to_upper(t1), bytes@[pos + 2], bytes@[pos + 3]]);
    Ok((tag, data, end))
}

pub open spec fn next_of(c: (Seq<u8>, Seq<u8>, nat)) -> nat {
    c.2
}

pub open spec fn tag_part(c: (Seq<u8>, Seq<u8>, nat)) -> Seq<u8> {
    c.0
}

pub open spec fn payload_part(c: (Seq<u8>, Seq<u8>, nat)) -> Seq<u8> {
    c.1
}

proof fn lemma_chunk_fails(
    b: Seq<u8>,
    seen: Seq<(Seq<u8>, Seq<u8>)>,
    pos: nat,
    item: (Seq<u8>, Seq<u8>),
    head: Head,
)
    requires
        chunk_at(b, pos) is Some,
        tag_part(chunk_at(b, pos)->0) == item.0,
        payload_part(chunk_at(b, pos)->0) == item.1,
        next_of(chunk_at(b, pos)->0) > pos,
        pos + 4 <= b.len(),
        match chunks_from(b, pos) {
            Some(rest) => chunks_from(b, 16) == Some(seen + rest),
            None => chunks_from(b, 16) is None,
        },
        !chunk_ok(item.0, item.1, head),
        head == Head::spec_parse(b),
    ensures
        !file_ok(b),
{
    if chunks_from(b, 16) is Some {
        let rest = chunks_from(b, pos)->0;
        assert(rest[0] == item);
        let l = chunks_from(b, 16)->0;
        assert(l == seen + rest);
        assert(l[seen.len() as int] == item);
    }
}

proof fn lemma_envelopes_concat(a: Seq<(Seq<u8>, Seq<u8>)>, b: Seq<(Seq<u8>, Seq<u8>)>, level: u32)
    ensures
        envelopes(a + b, level) == envelopes(a, level) + envelopes(b, level),
    decreases b.len(),
{
    if b.len() == 0 {
        assert(a + b =~= a);
        assert(envelopes(a, level) + Seq::<u8>::empty() =~= envelopes(a, level));
    } else {
        lemma_envelopes_concat(a, b.drop_last(), level);
        assert((a + b).drop_last() =~= a + b.drop_last());
        assert((a + b).last() == b.last());
        assert(envelopes(a + b, level) =~= envelopes(a, level) + envelopes(b, level));
    }
}

proof fn lemma_envelopes_single(c: (Seq<u8>, Seq<u8>), level: u32)
    ensures
        envelopes(seq![c], level) == envelope(c.0, c.1, level),
{
    let l = seq![c];
    assert(l.drop_last() =~= Seq::<(Seq<u8>, Seq<u8>)>::empty());
    assert(envelopes(l.drop_last(), level) == Seq::<u8>::empty());
    assert(l.last() == c);
    assert(envelopes(l, level) == envelopes(l.drop_last(), level) + envelope(c.0, c.1, level));
    assert(Seq::<u8>::empty() + envelope(c.0, c.1, level) =~= envelope(c.0, c.1, level));
}

proof fn lemma_envelopes_front(l: Seq<(Seq<u8>, Seq<u8>)>, level: u32)
    requires
        l.len() > 0,
    ensures
        envelopes(l, level) == envelope(l[0].0, l[0].1, level) + envelopes(l.drop_first(), level),
{
    lemma_envelopes_concat(seq![l[0]], l.drop_first(), level);
    assert(seq![l[0]] + l.drop_first() =~= l);
    lemma_envelopes_single(l[0], level);
}

proof fn lemma_written_image_envelopes(x: XZIB, pi: Seq<u8>, pb: Seq<u8>, level: u32)
    ensures
        written_image(x, pi, pb, level) == x.spec_head().spec_bytes() + envelopes(written_chunks(x, pi, pb), level),
{
    let li = optional_chunk(x.spec_indx() is Some, tag_indx(), pi);
    let lm = optional_chunk(x.spec_meta() is Some, tag_meta(), meta_bytes(x.spec_meta()->0.view()));
    let lx = optional_chunk(x.spec_xmet() is Some, tag_xmet(), xmet_bytes(x.spec_xmet()->0.view()));
    let lb = optional_chunk(x.spec_body() is Some, tag_body(), pb);
    let lf = optional_chunk(x.spec_foot() is Some, tag_foot(), foot_payload(x.spec_foot()->0.checksum));
    lemma_optional(x.spec_indx() is Some, tag_indx(), pi, level);
    lemma_optional(x.spec_meta() is Some, tag_meta(), meta_bytes(x.spec_meta()->0.view()), level);
    lemma_optional(x.spec_xmet() is Some, tag_xmet(), xmet_bytes(x.spec_xmet()->0.view()), level);
    lemma_optional(x.spec_body() is Some, tag_body(), pb, level);
    lemma_optional(x.spec_foot() is Some, tag_foot(), foot_payload(x.spec_foot()->0.checksum), level);
    lemma_envelopes_concat(li, lm, level);
    lemma_envelopes_concat(li + lm, lx, level);
    lemma_envelopes_concat(li + lm + lx, lb, level);
    lemma_envelopes_concat(li + lm + lx + lb, lf, level);
    let oi = optional_envelope(x.spec_indx() is Some, tag_indx(), pi, level);
    let om = optional_envelope(x.spec_meta() is Some, tag_meta(), meta_bytes(x.spec_meta()->0.view()), level);
    let ox = optional_envelope(x.spec_xmet() is Some, tag_xmet(), xmet_bytes(x.spec_xmet()->0.view()), level);
    let ob = optional_envelope(x.spec_body() is Some, tag_body(), pb, level);
    let of = optional_envelope(x.spec_foot() is Some, tag_foot(), foot_payload(x.spec_foot()->0.checksum), level);
    let h = x.spec_head().spec_bytes();
    assert(written_chunks(x, pi, pb) == li + lm + lx + lb + lf);
    assert(envelopes(written_chunks(x, pi, pb), level) == oi + om + ox + ob + of);
    assert(written_image(x, pi, pb, level) == h + oi + om + ox + ob + of);
    vstd::seq_lib::lemma_concat_associative(h, oi, om);
    vstd::seq_lib::lemma_concat_associative(h, oi + om, ox);
    vstd::seq_lib::lemma_concat_associative(h, oi + om + ox, ob);
    vstd::seq_lib::lemma_concat_associative(h, oi + om + ox + ob, of);
}

proof fn lemma_optional(present: bool, tag: Seq<u8>, p: Seq<u8>, level: u32)
    ensures
        envelopes(optional_chunk(present, tag, p), level) == optional_envelope(present, tag, p, level),
{
    if present {
        lemma_envelopes_single((tag, p), level);
    }
}

pub open spec fn upper_tag(t: Seq<u8>) -> bool {
    t.len() == 4 && is_upper(t[0]) && is_upper(t[1])
}

proof fn lemma_chunk_at_envelope(pre: Seq<u8>, t: Seq<u8>, p: Seq<u8>, rest: Seq<u8>, level: u32)
    requires
        upper_tag(t),
        stored_ok(p, level),
        p.len() * 8 <= usize::MAX,
    ensures
        ({
            let b = pre + envelope(t, p, level) + rest;
            &&& pre.len() + 4 <= b.len()
            &&& chunk_at(b, pre.len()) == Some((t, p, pre.len() + envelope(t, p, level).len()))
        }),
{
    let e = envelope(t, p, level);
    let b = pre + e + rest;
    let pos = pre.len() as int;
    let data = if level > 0 {
        zlib_deflate(p, level)
    } else {
        p
    };
    let small = data.len() <= 0xFFFF_FFFF;
    let sw: nat = if small {
        4
    } else {
        8
    };
    lemma_pow2_128();
    vstd::arithmetic::power2::lemma2_to64();
    assert(data.len() <= usize::MAX);
    assert(data.len() < pow2(8 * sw));
    lemma_le_round_trip(data.len(), sw);
    let sizeb = le_bytes(data.len(), sw);
    assert(e == seq![
        if small { to_lower(t[0]) } else { t[0] },
        if level > 0 { to_lower(t[1]) } else { t[1] },
        t[2],
        t[3],
    ] + sizeb + data);
    assert(e.len() == 4 + sw + data.len());
    assert(b[pos] == e[0]);
    assert(b[pos + 1] == e[1]);
    assert(b[pos + 2] == t[2]);
    assert(b[pos + 3] == t[3]);
    assert(is_upper(b[pos]) <==> !small);
    assert(b.subrange(pos + 4, pos + 4 + sw) =~= sizeb);
    assert(b.subrange(pos + 4 + sw, pos + 4 + sw + data.len()) =~= data);
    assert(is_lower(b[pos + 1]) <==> level > 0);
    assert(seq![to_upper(b[pos]), to_upper(b[pos + 1]), b[pos + 2], b[pos + 3]] =~= t);
}

proof fn lemma_chunks_of_envelopes(pre: Seq<u8>, l: Seq<(Seq<u8>, Seq<u8>)>, level: u32)
    requires
        forall|i: int| 0 <= i < l.len() ==> upper_tag(#[trigger] l[i].0),
        all_stored_ok(l, level),
        small_payloads(l),
    ensures
        chunks_from(pre + envelopes(l, level), pre.len()) == Some(l),
    decreases l.len(),
{
    if l.len() == 0 {
        assert(pre + envelopes(l, level) =~= pre);
        assert(Seq::<(Seq<u8>, Seq<u8>)>::empty() =~= l);
    } else {
        lemma_envelopes_front(l, level);
        let e = envelope(l[0].0, l[0].1, level);
        let tail = l.drop_first();
        assert(upper_tag(l[0].0));
        assert(stored_ok(l[0].1, level));
        assert(l[0].1.len() * 8 <= usize::MAX);
        lemma_chunk_at_envelope(pre, l[0].0, l[0].1, envelopes(tail, level), level);
        let b = pre + envelopes(l, level);
        assert(b =~= pre + e + envelopes(tail, level));
        assert forall|i: int| 0 <= i < tail.len() implies upper_tag(#[trigger] tail[i].0) by {
            assert(tail[i] == l[i + 1]);
        }
        assert forall|i: int| 0 <= i < tail.len() implies #[trigger] stored_ok(tail[i].1, level) by {
            assert(tail[i] == l[i + 1]);
        }
        assert forall|i: int| 0 <= i < tail.len() implies #[trigger] tail[i].1.len() * 8 <= usize::MAX by {
            assert(tail[i] == l[i + 1]);
        }
        lemma_chunks_of_envelopes(pre + e, tail, level);
        assert((pre + e) + envelopes(tail, level) =~= b);
        assert(seq![(l[0].0, l[0].1)] + tail =~= l);
    }
}

proof fn lemma_head_prefix(h: Head, rest: Seq<u8>)
    ensures
        (h.spec_bytes() + rest).len() >= 16,
        (h.spec_bytes() + rest).subrange(0, 16) == h.spec_bytes(),
        (h.spec_bytes() + rest).subrange(0, 4) == magic(),
        (h.spec_bytes() + rest)[5] == h.spec_channels(),
        (h.spec_bytes() + rest)[6] == h.spec_planes(),
        Head::spec_parse(h.spec_bytes() + rest) == h,
{
    let b = h.spec_bytes() + rest;
    lemma_pow2_128();
    vstd::arithmetic::power2::lemma2_to64();
    lemma_le_round_trip(h.width as nat, 4);
    lemma_le_round_trip(h.height as nat, 4);
    assert(b.subrange(0, 16) =~= h.spec_bytes());
    assert(b.subrange(0, 4) =~= magic());
    assert(b.subrange(8, 12) =~= le_bytes(h.width as nat, 4));
    assert(b.subrange(12, 16) =~= le_bytes(h.height as nat, 4));
}

proof fn lemma_written_tags(x: XZIB, pi: Seq<u8>, pb: Seq<u8>)
    ensures
        forall|i: int|
            0 <= i < written_chunks(x, pi, pb).len() ==> upper_tag(#[trigger] written_chunks(x, pi, pb)[i].0),
{
    let l = written_chunks(x, pi, pb);
    assert forall|i: int| 0 <= i < l.len() implies upper_tag(#[trigger] l[i].0) by {
        let li = optional_chunk(x.spec_indx() is Some, tag_indx(), pi);
        let lm = optional_chunk(x.spec_meta() is Some, tag_meta(), meta_bytes(x.spec_meta()->0.view()));
        let lx = optional_chunk(x.spec_xmet() is Some, tag_xmet(), xmet_bytes(x.spec_xmet()->0.view()));
        let lb = optional_chunk(x.spec_body() is Some, tag_body(), pb);
        let lf = optional_chunk(x.spec_foot() is Some, tag_foot(), foot_payload(x.spec_foot()->0.checksum));
        assert(l == li + lm + lx + lb + lf);
        assert(l[i].0 == tag_indx() || l[i].0 == tag_meta() || l[i].0 == tag_xmet() || l[i].0 == tag_body()
            || l[i].0 == tag_foot());
    }
}

proof fn lemma_packed_bytes_unique(a: Seq<u8>, b: Seq<u8>, s: Seq<u128>, depth: nat)
    requires
        packed_bytes(a, s, depth),
        packed_bytes(b, s, depth),
    ensures
        a == b,
{
    if depth == 1 {
        lemma_packs_bits_unique(a, b, crate::color::low_bits(s));
    } else if depth == 4 {
        lemma_packs_nibbles_unique(a, b, crate::color::low_nibbles(s));
    }
}

/// An image determines its encoded palette and body, and so the chunks it
/// is written as.
pub proof fn lemma_payloads_unique(x: XZIB, pi: Seq<u8>, pb: Seq<u8>, pi2: Seq<u8>, pb2: Seq<u8>)
    requires
        payloads_of(x, pi, pb),
        payloads_of(x, pi2, pb2),
    ensures
        written_chunks(x, pi, pb) == written_chunks(x, pi2, pb2),
{
    if x.spec_indx() is Some {
        lemma_packed_bytes_unique(pi, pi2, x.spec_indx()->0.colors.samples(), x.spec_head().spec_index_planes() as nat);
    }
    if x.spec_body() is Some {
        let d = x.spec_body()->0.data;
        let head = x.spec_head();
        if head.spec_interleaved() {
            lemma_packs_bits_unique(
                pb,
                pb2,
                crate::chunks::body::interleaved_bits(
                    d.samples(),
                    head.spec_width() as nat,
                    head.spec_height() as nat,
                    head.spec_planes() as nat,
                    body_channels(head),
                    d.spec_value_type().bits(),
                ),
            );
        } else {
            lemma_packed_bytes_unique(pb, pb2, d.samples(), head.spec_planes() as nat);
        }
    }
}

/// Compression does not change what a file reads back as: at every
/// level, a written image yields the header it was written with and the
/// same chunks, with the same tags and uncompressed payloads; so the file
/// decodes at a level exactly when, and to what, it decodes at level 0.
pub proof fn lemma_compression_transparency(x: XZIB, pi: Seq<u8>, pb: Seq<u8>, level: u32)
    requires
        all_stored_ok(written_chunks(x, pi, pb), level),
        small_payloads(written_chunks(x, pi, pb)),
    ensures
        Head::spec_parse(written_image(x, pi, pb, level)) == x.spec_head(),
        written_image(x, pi, pb, level).subrange(0, 16) == x.spec_head().spec_bytes(),
        chunks_from(written_image(x, pi, pb, level), 16) == Some(written_chunks(x, pi, pb)),
        file_ok(written_image(x, pi, pb, level)) == file_ok(written_image(x, pi, pb, 0)),
{
    let l = written_chunks(x, pi, pb);
    lemma_written_tags(x, pi, pb);
    assert(all_stored_ok(l, 0)) by {
        assert forall|i: int| 0 <= i < l.len() implies #[trigger] stored_ok(l[i].1, 0) by {
            assert(l[i].1.len() * 8 <= usize::MAX);
        }
    }
    let h = x.spec_head().spec_bytes();
    lemma_written_image_envelopes(x, pi, pb, level);
    lemma_written_image_envelopes(x, pi, pb, 0);
    lemma_head_prefix(x.spec_head(), envelopes(l, level));
    lemma_head_prefix(x.spec_head(), envelopes(l, 0));
    lemma_chunks_of_envelopes(h, l, level);
    lemma_chunks_of_envelopes(h, l, 0);
}

/// Two writes of one image, at level `level` and at level 0, as
/// `XZIB::write` returns them, read back as the same header and chunks, and
/// one decodes exactly when the other does.
pub proof fn lemma_compression_agrees(
    x: XZIB,
    pi: Seq<u8>,
    pb: Seq<u8>,
    level: u32,
    pi0: Seq<u8>,
    pb0: Seq<u8>,
)
    requires
        payloads_of(x, pi, pb),
        payloads_of(x, pi0, pb0),
        all_stored_ok(written_chunks(x, pi, pb), level),
        small_payloads(written_chunks(x, pi, pb)),
    ensures
        Head::spec_parse(written_image(x, pi, pb, level)) == Head::spec_parse(written_image(x, pi0, pb0, 0)),
        chunks_from(written_image(x, pi, pb, level), 16) == chunks_from(written_image(x, pi0, pb0, 0), 16),
        file_ok(written_image(x, pi, pb, level)) == file_ok(written_image(x, pi0, pb0, 0)),
{
    lemma_payloads_unique(x, pi, pb, pi0, pb0);
    lemma_compression_transparency(x, pi, pb, level);
    let l = written_chunks(x, pi, pb);
    assert(all_stored_ok(l, 0)) by {
        assert forall|i: int| 0 <= i < l.len() implies #[trigger] stored_ok(l[i].1, 0) by {
            assert(l[i].1.len() * 8 <= usize::MAX);
        }
    }
    lemma_compression_transparency(x, pi0, pb0, 0);
    lemma_written_image_envelopes(x, pi, pb, 0);
    lemma_written_image_envelopes(x, pi0, pb0, 0);
}

/// An image made of a header and a body stored at its carrier's full width
/// (byte-packed at 8 to 128 bits, floats, or interleaved with as many planes
/// as the carrier has bits) reads back, at every compression level, with
/// the same header and bit-identical pixels.
pub proof fn lemma_round_trip(x: XZIB, pi: Seq<u8>, pb: Seq<u8>, level: u32)
    requires
        x.spec_indx() is None,
        x.spec_meta() is None,
        x.spec_xmet() is None,
        x.spec_foot() is None,
        x.spec_body() is Some,
        image_writable(x),
        payloads_of(x, pi, pb),
        all_stored_ok(written_chunks(x, pi, pb), level),
        pb.len() * 8 <= usize::MAX,
        x.spec_head().spec_planes() as nat == x.spec_body()->0.data.spec_value_type().bits(),
        x.spec_head().spec_index_planes() == 0,
    ensures
        file_ok(written_image(x, pi, pb, level)),
        Head::spec_parse(written_image(x, pi, pb, level)) == x.spec_head(),
        chunks_from(written_image(x, pi, pb, level), 16) == Some(seq![(tag_body(), pb)]),
        decoded_body(pb, x.spec_head()) == Some(
            (
                x.spec_body()->0.data.spec_value_type(),
                x.spec_body()->0.data.spec_color_type(),
                x.spec_body()->0.data.samples(),
            ),
        ),
{
    let head = x.spec_head();
    let d = x.spec_body()->0.data;
    let l = written_chunks(x, pi, pb);
    assert(l =~= seq![(tag_body(), pb)]);
    assert(small_payloads(l));
    lemma_compression_transparency(x, pi, pb, level);
    let s = d.samples();
    let ch = body_channels(head);
    let bits = d.spec_value_type().bits();
    d.lemma_samples_len();
    d.lemma_samples_fit();
    assert(ch == d.spec_color_type().spec_channels());
    if !head.spec_interleaved() {
        let size = bits / 8;
        assert(pb == crate::color::le_concat(s, size));
        lemma_mod_multiples_vanish_for(d.spec_len(), ch);
        lemma_packed_round_trip(s, size, ch);
    } else {
        let w = head.spec_width() as nat;
        let h = head.spec_height() as nat;
        assert(s.len() == w * h * ch) by (nonlinear_arith)
            requires
                s.len() == d.spec_len() * ch,
                d.spec_len() == w * h,
        ;
        if w >= 1 {
            lemma_interleaved_round_trip(pb, s, w, h, ch, bits);
        } else {
            assert(s.len() == 0) by (nonlinear_arith)
                requires
                    s.len() == w * h * ch,
                    w == 0,
            ;
            assert(crate::chunks::body::interleaved_samples(pb, w, h, bits, ch, bits) =~= s) by {
                assert(w * h * ch == 0) by (nonlinear_arith)
                    requires
                        w == 0,
                ;
            }
        }
    }
    let w = written_image(x, pi, pb, level);
    assert(chunk_ok(tag_body(), pb, head));
    let hb = head.spec_bytes();
    assert(w.subrange(0, 16) == hb);
    assert(w[5] == w.subrange(0, 16)[5]);
    assert(w[6] == w.subrange(0, 16)[6]);
    assert(hb[5] == head.spec_channels());
    assert(hb[6] == head.spec_planes());
    assert(w.subrange(0, 4) =~= hb.subrange(0, 4));
    assert(hb.subrange(0, 4) =~= magic());
    assert forall|i: int| 0 <= i < l.len() implies chunk_ok(#[trigger] l[i].0, l[i].1, Head::spec_parse(w)) by {
        assert(l[i] == (tag_body(), pb));
    }
}

proof fn lemma_mod_multiples_vanish_for(n: nat, ch: nat)
    requires
        ch > 0,
    ensures
        (n * ch) % ch == 0,
{
    vstd::arithmetic::div_mod::lemma_mod_multiples_basic(n as int, ch as int);
}

/// The start of an image whose header is filled in step by step: a size
/// and a channel count, with flags and planes still zero.
#[derive(Debug)]
pub struct Builder {
    image: XZIB,
}

impl Builder {
    pub closed spec fn spec_image(&self) -> XZIB {
        self.image
    }

    pub fn new(width: u32, height: u32, channels: u8) -> (r: Self)
        ensures
            r.spec_image().spec_head().spec_flags() == 0,
            r.spec_image().spec_head().spec_channels() == channels,
            r.spec_image().spec_head().spec_planes() == 0,
            r.spec_image().spec_head().spec_index_planes() == 0,
            r.spec_image().spec_head().spec_width() == width,
            r.spec_image().spec_head().spec_height() == height,
            r.spec_image().spec_indx() is None,
            r.spec_image().spec_meta() is None,
            r.spec_image().spec_xmet() is None,
            r.spec_image().spec_body() is None,
            r.spec_image().spec_foot() is None,
    {
        Builder {
            image: XZIB {
                head: Head { flags: 0, channels, planes: 0, index_planes: 0, width, height },
                indx: None,
                meta: None,
                xmet: None,
                body: None,
                foot: None,
            },
        }
    }

    /// The image built so far.
    pub fn build(self) -> (r: XZIB)
        ensures
            r == self.spec_image(),
    {
        self.image
    }
}

/// Appends one stored chunk: tag, size and payload, compressed when the
/// level is above zero.
pub fn write_chunk(writer: &mut Vec<u8>, fourcc: [u8; 4], payload: &[u8], compression: u32)
    requires
        compression <= 9,
    ensures
        final(writer)@ == old(writer)@ + envelope(fourcc@, payload@, compression),
        stored_ok(payload@, compression),
{
    let ghost start = writer@;
    let plen = payload.len();
    let compressed: Vec<u8>;
    let data: &[u8] = if compression > 0 {
        compressed = zlib_compress(payload, compression);
        let clen = compressed.len();
        compressed.as_slice()
    } else {
        payload
    };
    let t1 = if compression > 0 {
        ascii_lower(fourcc[1])
    } else {
        fourcc[1]
    };
    let small = data.len() as u128 <= 0xFFFF_FFFFu128;
    let t0 = if small {
        ascii_lower(fourcc[0])
    } else {
        fourcc[0]
    };
    writer.push(t0);
    writer.push(t1);
    writer.push(fourcc[2]);
    writer.push(fourcc[3]);
    if small {
        push_le(writer, data.len() as u128, 4);
    } else {
        push_le(writer, data.len() as u128, 8);
    }
    crate::io::push_all(writer, data);
    assert(writer@ =~= start + envelope(fourcc@, payload@, compression));
}

} // verus!
