use xzib::chunks::foot::{Checksum, ChecksumType};
use xzib::chunks::{Body, Foot, Meta};
use xzib::color::{ChannelVariant, ColorVariant, Rgb, Rgba};
use xzib::error::{ReadErrorKind, WriteErrorKind};
use xzib::format::{ColorType, NumberType};
use xzib::{write_chunk, Date, Head, XZIB};

fn head(nt: NumberType, interleaved: bool, ct: ColorType, planes: u8, w: u32, h: u32) -> Head {
    Head::new(nt, interleaved, ct, planes, 0, w, h).expect("valid header")
}

#[test]
fn one_pixel_l8_raw() {
    let h = head(NumberType::Integer, false, ColorType::L, 8, 1, 1);
    assert_eq!(h.flags(), 0);
    assert_eq!(h.channels(), 1);
    let body = Body::read(&[0x7F], &h).expect("decodes");
    assert_eq!(body.data, ChannelVariant::U8(ColorVariant::L(vec![0x7F])));
}

#[test]
fn one_pixel_l8_raw_file() {
    let mut file = b"XZIB".to_vec();
    file.extend_from_slice(&[0, 1, 8, 0, 1, 0, 0, 0, 1, 0, 0, 0]);
    file.extend_from_slice(b"bODY");
    file.extend_from_slice(&1u32.to_le_bytes());
    file.push(0x7F);
    let img = XZIB::read(&file).expect("decodes");
    assert_eq!(img.head().width(), 1);
    let body = img.body().expect("has a body");
    assert_eq!(body.data, ChannelVariant::U8(ColorVariant::L(vec![0x7F])));
}

#[test]
fn two_by_one_rgb_one_bit() {
    let h = head(NumberType::Integer, false, ColorType::Rgb, 1, 2, 1);
    let body = Body::read(&[0b0000_0101], &h).expect("decodes");
    assert_eq!(
        body.data,
        ChannelVariant::U8(ColorVariant::Rgb(vec![Rgb([255, 0, 255]), Rgb([0, 0, 0])]))
    );
}

#[test]
fn one_pixel_rgba_interleaved_two_planes() {
    let h = head(NumberType::Integer, true, ColorType::Rgba, 2, 1, 1);
    assert_eq!(h.flags(), 1);
    let body = Body::read(&[0x01; 8], &h).expect("decodes");
    assert_eq!(body.data, ChannelVariant::U8(ColorVariant::Rgba(vec![Rgba([255, 255, 255, 255])])));
}

fn sample_meta() -> Meta {
    let mut meta = Meta::new();
    meta.set_title("Hi".to_string());
    meta.add_author("A".to_string());
    meta.add_author("B".to_string());
    meta.set_created_at(&Date::new(2024, 5, 1));
    meta.set_comment("x\ny".to_string());
    meta
}

#[test]
fn meta_round_trip() {
    let meta = sample_meta();
    let mut payload = Vec::new();
    meta.write(&mut payload);
    let expected: Vec<u8> = vec![
        0x01, 0x48, 0x69, 0x00, 0x02, 0x32, 0x30, 0x32, 0x34, 0x2D, 0x30, 0x35, 0x2D, 0x30, 0x31,
        0x00, 0x03, 0x41, 0x00, 0x03, 0x42, 0x00, 0x06, 0x78, 0x0A, 0x79, 0x00,
    ];
    assert_eq!(payload, expected);
    let back = Meta::read(&payload).expect("decodes");
    assert_eq!(back.title(), "Hi");
    assert_eq!(back.author(), &["A".to_string(), "B".to_string()][..]);
    assert_eq!(*back.created_at(), Date::new(2024, 5, 1));
    assert_eq!(back.comment(), "x\ny");
    assert!(back.license().is_empty());
    assert!(back.links().is_empty());
}

#[test]
fn foot_crc32() {
    let payload = [0x01, 0xEF, 0xBE, 0xAD, 0xDE];
    let foot = Foot::read(&payload).expect("decodes");
    assert_eq!(foot.checksum, Checksum::Crc32(0xDEADBEEF));
    assert_eq!(foot.checksum.checksum_type(), ChecksumType::Crc32);
    let mut out = Vec::new();
    foot.write(&mut out);
    assert_eq!(out, payload.to_vec());
}

#[test]
fn compressed_tag_switch() {
    let meta = sample_meta();
    let mut payload = Vec::new();
    meta.write(&mut payload);

    let mut compressed = Vec::new();
    write_chunk(&mut compressed, Meta::FOURCC, &payload, 6);
    assert_eq!(&compressed[0..4], b"meTA");

    let mut raw = Vec::new();
    write_chunk(&mut raw, Meta::FOURCC, &payload, 0);
    assert_eq!(&raw[0..4], b"mETA");
    assert_eq!(&raw[4..8], &(payload.len() as u32).to_le_bytes());
    assert_eq!(&raw[8..], &payload[..]);
}

#[test]
fn bad_magic_is_unsupported() {
    let file = b"XZIC\0\x01\x08\0\x01\0\0\0\x01\0\0\0".to_vec();
    let err = XZIB::read(&file).expect_err("refused");
    assert_eq!(err.kind(), ReadErrorKind::Unsupported);
}

#[test]
fn truncated_header_is_broken() {
    let err = XZIB::read(b"XZIB\0\x01").expect_err("refused");
    assert_eq!(err.kind(), ReadErrorKind::BrokenFile);
}

#[test]
fn truncated_chunk_is_broken() {
    let mut file = b"XZIB".to_vec();
    file.extend_from_slice(&[0, 1, 8, 0, 1, 0, 0, 0, 1, 0, 0, 0]);
    file.extend_from_slice(b"bODY");
    file.extend_from_slice(&5u32.to_le_bytes());
    file.push(0x7F);
    let err = XZIB::read(&file).expect_err("refused");
    assert_eq!(err.kind(), ReadErrorKind::BrokenFile);
}

#[test]
fn index_needs_l_body() {
    let h = Head::new(NumberType::Integer, false, ColorType::Rgb, 8, 8, 1, 1).expect("valid");
    let mut img = XZIB::new(h);
    *img.indx_mut() = Some(xzib::chunks::Indx::with_colors(ChannelVariant::U8(ColorVariant::Rgb(vec![
        Rgb([1, 2, 3]),
    ]))));
    *img.body_mut() = Some(Body::with_data(ChannelVariant::U8(ColorVariant::Rgb(vec![Rgb([0, 0, 0])]))));
    let err = img.write(0).expect_err("refused");
    assert_eq!(err.kind(), WriteErrorKind::InvalidParams);
}
