use vstd::prelude::*;

use crate::color::{ChannelVariant, ColorList};
use crate::error::InvalidParams;

verus! {

/// Whether channel values are integers or IEEE 754 floats.
#[derive(Debug, Clone, Copy, PartialEq, Eq, Structural)]
pub enum NumberType {
    Integer,
    Float,
}

impl NumberType {
    pub fn is_float(self) -> (r: bool)
        ensures
            r == (self == NumberType::Float),
    {
        matches!(self, NumberType::Float)
    }

    pub fn is_integer(self) -> (r: bool)
        ensures
            r == (self == NumberType::Integer),
    {
        matches!(self, NumberType::Integer)
    }
}

/// The carrier type that holds one channel value after decoding.
/// Float carriers hold the IEEE 754 bit pattern of the value.
#[derive(Debug, Clone, Copy, PartialEq, Eq, Structural)]
pub enum ChannelValueType {
    U8,
    U16,
    U32,
    U64,
    U128,
    F32,
    F64,
}

/// The narrowest carrier that holds `planes` bits of the given number type.
pub open spec fn carrier_for(number_type: NumberType, planes: nat) -> Option<ChannelValueType> {
    match number_type {
        NumberType::Integer => {
            if planes <= 8 {
                Some(ChannelValueType::U8)
            } else if planes <= 16 {
                Some(ChannelValueType::U16)
            } else if planes <= 32 {
                Some(ChannelValueType::U32)
            } else if planes <= 64 {
                Some(ChannelValueType::U64)
            } else if planes <= 128 {
                Some(ChannelValueType::U128)
            } else {
                None
            }
        },
        NumberType::Float => {
            if planes <= 32 {
                Some(ChannelValueType::F32)
            } else if planes <= 64 {
                Some(ChannelValueType::F64)
            } else {
                None
            }
        },
    }
}

impl ChannelValueType {
    /// Width of the carrier in bits.
    pub open spec fn bits(self) -> nat {
        match self {
            ChannelValueType::U8 => 8,
            ChannelValueType::U16 => 16,
            ChannelValueType::U32 | ChannelValueType::F32 => 32,
            ChannelValueType::U64 | ChannelValueType::F64 => 64,
            ChannelValueType::U128 => 128,
        }
    }

    pub open spec fn spec_number_type(self) -> NumberType {
        match self {
            ChannelValueType::F32 | ChannelValueType::F64 => NumberType::Float,
            _ => NumberType::Integer,
        }
    }

    /// Picks the narrowest carrier for `planes` bits; zero planes, more than
    /// 128 integer planes or more than 64 float planes are refused.
    pub fn from_planes(number_type: NumberType, planes: u8) -> (r: Result<Self, InvalidParams>)
        ensures
            r is Ok <==> (planes > 0 && carrier_for(number_type, planes as nat) is Some),
            r is Ok ==> carrier_for(number_type, planes as nat) == Some(r->Ok_0),
    {
        if planes == 0 {
            return Err(InvalidParams::with_message("number of planes must not be zero"));
        }
        match number_type {
            NumberType::Integer => {
                if planes <= 8 {
                    Ok(ChannelValueType::U8)
                } else if planes <= 16 {
                    Ok(ChannelValueType::U16)
                } else if planes <= 32 {
                    Ok(ChannelValueType::U32)
                } else if planes <= 64 {
                    Ok(ChannelValueType::U64)
                } else if planes <= 128 {
                    Ok(ChannelValueType::U128)
                } else {
                    Err(InvalidParams::with_message("invalid number of planes for integers"))
                }
            },
            NumberType::Float => {
                if planes <= 32 {
                    Ok(ChannelValueType::F32)
                } else if planes <= 64 {
                    Ok(ChannelValueType::F64)
                } else {
                    Err(InvalidParams::with_message("invalid number of planes for floats"))
                }
            },
        }
    }

    pub fn planes(self) -> (r: u8)
        ensures
            r as nat == self.bits(),
    {
        match self {
            ChannelValueType::U8 => 8,
            ChannelValueType::U16 => 16,
            ChannelValueType::U32 | ChannelValueType::F32 => 32,
            ChannelValueType::U64 | ChannelValueType::F64 => 64,
            ChannelValueType::U128 => 128,
        }
    }

    pub fn number_type(self) -> (r: NumberType)
        ensures
            r == self.spec_number_type(),
    {
        match self {
            ChannelValueType::F32 | ChannelValueType::F64 => NumberType::Float,
            _ => NumberType::Integer,
        }
    }

    /// The carrier's name as text, such as `int 16`.
    pub fn to_string(self) -> (r: &'static str) {
        match self {
            ChannelValueType::U8 => "int 8",
            ChannelValueType::U16 => "int 16",
            ChannelValueType::U32 => "int 32",
            ChannelValueType::U64 => "int 64",
            ChannelValueType::U128 => "int 128",
            ChannelValueType::F32 => "float 32",
            ChannelValueType::F64 => "float 64",
        }
    }
}

/// The arrangement of channels in a pixel.
#[derive(Debug, Clone, Copy, PartialEq, Eq, Structural)]
pub enum ColorType {
    L,
    La,
    Rgb,
    Rgba,
}

impl ColorType {
    pub open spec fn spec_channels(self) -> nat {
        match self {
            ColorType::L => 1,
            ColorType::La => 2,
            ColorType::Rgb => 3,
            ColorType::Rgba => 4,
        }
    }

    /// The arrangement a stored header names by its channel count.
    pub open spec fn spec_from_channels(channels: nat) -> Option<ColorType> {
        if channels == 1 {
            Some(ColorType::L)
        } else if channels == 3 {
            Some(ColorType::Rgb)
        } else if channels == 4 {
            Some(ColorType::Rgba)
        } else {
            None
        }
    }

    pub fn from_channels(channels: u8) -> (r: Result<Self, InvalidParams>)
        ensures
            r is Ok <==> Self::spec_from_channels(channels as nat) is Some,
            r is Ok ==> Self::spec_from_channels(channels as nat) == Some(r->Ok_0),
    {
        match channels {
            1 => Ok(ColorType::L),
            3 => Ok(ColorType::Rgb),
            4 => Ok(ColorType::Rgba),
            _ => Err(InvalidParams::with_message("invalid number of channels")),
        }
    }

    pub fn channels(self) -> (r: u8)
        ensures
            r as nat == self.spec_channels(),
    {
        match self {
            ColorType::L => 1,
            ColorType::La => 2,
            ColorType::Rgb => 3,
            ColorType::Rgba => 4,
        }
    }

    /// The arrangement's name as text.
    pub fn to_string(self) -> (r: &'static str) {
        match self {
            ColorType::L => "L",
            ColorType::La => "LA",
            ColorType::Rgb => "RGB",
            ColorType::Rgba => "RGBA",
        }
    }
}

/// A carrier type together with a channel arrangement.
#[derive(Debug, Clone, Copy, PartialEq, Eq, Structural)]
pub struct Format(pub ChannelValueType, pub ColorType);

impl Format {
    pub fn from_components(number_type: NumberType, planes: u8, channels: u8) -> (r: Result<Self, InvalidParams>)
        ensures
            r is Ok <==> (planes > 0 && carrier_for(number_type, planes as nat) is Some
                && ColorType::spec_from_channels(channels as nat) is Some),
            r is Ok ==> Some(r->Ok_0.0) == carrier_for(number_type, planes as nat)
                && Some(r->Ok_0.1) == ColorType::spec_from_channels(channels as nat),
    {
        let channel_value_type = match ChannelValueType::from_planes(number_type, planes) {
            Ok(t) => t,
            Err(e) => return Err(e),
        };
        let color_type = match ColorType::from_channels(channels) {
            Ok(t) => t,
            Err(e) => return Err(e),
        };
        Ok(Format(channel_value_type, color_type))
    }

    /// An empty pixel buffer of this format.
    pub fn make_color_list(&self) -> (r: ColorList)
        ensures
            r.spec_value_type() == self.0,
            r.spec_color_type() == self.1,
            r.samples().len() == 0,
    {
        let empty: Vec<u128> = Vec::new();
        proof {
            vstd::arithmetic::div_mod::lemma_mod_multiples_basic(0, self.1.spec_channels() as int);
        }
        ChannelVariant::from_samples(self.0, self.1, empty.as_slice())
    }
}

} // verus!
