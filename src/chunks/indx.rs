use vstd::prelude::*;

use crate::color::{number_type_of, packed_bytes, packed_depth, packed_samples, read_colors_variant, write_colors_variant, ColorList};
use crate::error::{ReadError, ReadErrorKind, WriteError, WriteErrorKind};
use crate::format::{carrier_for, ChannelValueType, ColorType};
use crate::Head;

verus! {

/// Carrier, arrangement and colors of an INDX payload under a header, or
/// `None` when the payload cannot be decoded.
pub open spec fn decoded_palette(b: Seq<u8>, head: Head) -> Option<(ChannelValueType, ColorType, Seq<u128>)> {
    let planes = head.spec_index_planes() as nat;
    let channels = head.spec_channels() as nat;
    if planes == 0 || !packed_depth(head.spec_float(), planes) || ColorType::spec_from_channels(channels) is None {
        None
    } else {
        Some(
            (
                carrier_for(number_type_of(head.spec_float()), planes)->0,
                ColorType::spec_from_channels(channels)->0,
                packed_samples(b, planes, channels),
            ),
        )
    }
}

/// Whether a palette can be stored under a header: its carrier is the one
/// the index planes call for and its arrangement is the header's.
pub open spec fn palette_writable(colors: ColorList, head: Head) -> bool {
    let planes = head.spec_index_planes() as nat;
    let nt = number_type_of(head.spec_float());
    &&& planes > 0
    &&& carrier_for(nt, planes) == Some(colors.spec_value_type())
    &&& ColorType::spec_from_channels(head.spec_channels() as nat) == Some(colors.spec_color_type())
    &&& packed_depth(head.spec_float(), planes)
}

/// The INDX chunk: the palette of an indexed image.
#[derive(Debug)]
pub struct Indx {
    pub colors: ColorList,
}

impl Indx {
    pub const FOURCC: [u8; 4] = [0x49, 0x4E, 0x44, 0x58];

    pub fn with_colors(colors: ColorList) -> (r: Self)
        ensures
            r.colors == colors,
    {
        Indx { colors }
    }

    pub fn colors(&self) -> (r: &ColorList)
        ensures
            *r == self.colors,
    {
        &self.colors
    }

    pub fn colors_mut(&mut self) -> (r: &mut ColorList)
        ensures
            *r == old(self).colors,
            final(self).colors == *final(r),
    {
        &mut self.colors
    }

    /// Decodes a palette, byte-packed at the header's index depth.
    pub fn read(data: &[u8], head: &Head) -> (r: Result<Self, ReadError>)
        requires
            data@.len() * 8 <= usize::MAX,
        ensures
            r is Ok <==> decoded_palette(data@, *head) is Some,
            r is Err ==> r->Err_0.kind == ReadErrorKind::BrokenFile,
            r is Ok ==> decoded_palette(data@, *head) == Some(
                (r->Ok_0.colors.spec_value_type(), r->Ok_0.colors.spec_color_type(), r->Ok_0.colors.samples()),
            ),
    {
        if head.index_planes() == 0 {
            return Err(ReadError::with_message(ReadErrorKind::BrokenFile, "INDX chunk found, but index_planes == 0"));
        }
        match read_colors_variant(data, head.is_float(), head.index_planes(), head.channels()) {
            Ok(colors) => Ok(Indx { colors }),
            Err(e) => Err(e),
        }
    }

    /// Encodes the palette, byte-packed at the header's index depth.
    pub fn write(&self, head: &Head) -> (r: Result<Vec<u8>, WriteError>)
        ensures
            r is Ok <==> palette_writable(self.colors, *head),
            r is Err ==> r->Err_0.kind == WriteErrorKind::InvalidParams,
            r is Ok ==> packed_bytes(r->Ok_0@, self.colors.samples(), head.spec_index_planes() as nat),
    {
        let value_type = match ChannelValueType::from_planes(head.number_type(), head.index_planes()) {
            Ok(t) => t,
            Err(_) => {
                return Err(WriteError::with_message(WriteErrorKind::InvalidParams, "unsupported parameters for index colors"));
            },
        };
        if self.colors.channel_value_type() != value_type {
            return Err(WriteError::with_message(WriteErrorKind::InvalidParams, "index channel value type does not match the header"));
        }
        match ColorType::from_channels(head.channels()) {
            Ok(t) => {
                if self.colors.color_type() != t {
                    return Err(WriteError::with_message(WriteErrorKind::InvalidParams, "palette color type does not match the header"));
                }
            },
            Err(_) => {
                return Err(WriteError::with_message(WriteErrorKind::InvalidParams, "invalid number of channels"));
            },
        }
        write_colors_variant(&self.colors, head.index_planes())
    }
}

} // verus!
