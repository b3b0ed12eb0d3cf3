use xzib::color::{ChannelValue, ChannelVariant, ColorVariant, IntChannelValue, La, Rgb, Rgba};
use xzib::format::ColorType;
use xzib::io::{get_bit, get_nibble, read_fourcc, read_u16, read_u32, read_u64, write_u16, write_u32};
use xzib::Builder;

#[test]
fn conversions_to_rgb_and_rgba() {
    let l = ChannelVariant::U8(ColorVariant::L(vec![7, 200]));
    assert_eq!(l.to_rgb(), ChannelVariant::U8(ColorVariant::Rgb(vec![Rgb([7, 7, 7]), Rgb([200, 200, 200])])));
    assert_eq!(l.to_rgba(), ChannelVariant::U8(ColorVariant::Rgba(vec![Rgba([7, 7, 7, 255]), Rgba([200, 200, 200, 255])])));
    let la = ChannelVariant::U16(ColorVariant::La(vec![La([5, 9])]));
    assert_eq!(la.to_rgba(), ChannelVariant::U16(ColorVariant::Rgba(vec![Rgba([5, 5, 5, 9])])));
    assert_eq!(la.to_rgb(), ChannelVariant::U16(ColorVariant::Rgb(vec![Rgb([5, 5, 5])])));
    let rgba = ChannelVariant::U8(ColorVariant::Rgba(vec![Rgba([1, 2, 3, 4])]));
    assert_eq!(rgba.to_rgb(), ChannelVariant::U8(ColorVariant::Rgb(vec![Rgb([1, 2, 3])])));
    let f = ChannelVariant::F32(ColorVariant::Rgb(vec![Rgb([0, 0, 0])]));
    assert_eq!(f.to_rgba(), ChannelVariant::F32(ColorVariant::Rgba(vec![Rgba([0, 0, 0, 1.0f32.to_bits()])])));
    assert_eq!(f.to_rgba().color_type(), ColorType::Rgba);
}

#[test]
fn channel_values_from_and_to_bytes() {
    assert_eq!(<u16 as ChannelValue>::from_bytes(&[0x34, 0x12, 0xFF]), Some(0x1234));
    assert_eq!(<u32 as ChannelValue>::from_bytes(&[1, 2, 3]), None);
    let mut out = Vec::new();
    0x0102_0304u32.write_to(&mut out);
    assert_eq!(out, vec![4, 3, 2, 1]);
    assert_eq!(IntChannelValue::extend(3u8, 2), 255);
    assert_eq!(IntChannelValue::extend(1u16, 9), 128);
    assert_eq!(0x1234u16.least_significant_byte(), 0x34);
}

#[test]
fn byte_readers_and_writers() {
    let bytes = [1u8, 2, 3, 4, 5, 6, 7, 8, 9];
    assert_eq!(read_u16(&bytes, 1), Some(0x0302));
    assert_eq!(read_u32(&bytes, 5), Some(0x0908_0706));
    assert_eq!(read_u32(&bytes, 6), None);
    assert_eq!(read_u64(&bytes, 0), Some(0x0807_0605_0403_0201));
    assert_eq!(read_fourcc(&bytes, 0), Some([1, 2, 3, 4]));
    let mut out = Vec::new();
    write_u16(&mut out, 0xBEEF);
    write_u32(&mut out, 7);
    assert_eq!(out, vec![0xEF, 0xBE, 7, 0, 0, 0]);
    assert_eq!(get_bit(&[0b0000_0100], 2), 1);
    assert_eq!(get_bit(&[0b0000_0100, 0x01], 8), 1);
    assert_eq!(get_nibble(&[0xAB], 0), 0xB);
    assert_eq!(get_nibble(&[0xAB], 1), 0xA);
}

#[test]
fn builder_starts_an_empty_image() {
    let img = Builder::new(3, 2, 4).build();
    assert_eq!(img.head().width(), 3);
    assert_eq!(img.head().height(), 2);
    assert_eq!(img.head().channels(), 4);
    assert_eq!(img.head().planes(), 0);
    assert!(img.body().is_none());
}

#[test]
fn la_buffers_are_refused_by_the_packed_writer() {
    let la = ChannelVariant::U8(ColorVariant::La(vec![La([1, 2])]));
    assert!(xzib::color::write_colors_variant(&la, 8).is_err());
    let l = ChannelVariant::U8(ColorVariant::L(vec![1, 2]));
    assert_eq!(xzib::color::write_colors_variant(&l, 8).unwrap(), vec![1, 2]);
}
