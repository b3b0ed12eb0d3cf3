use xzib::chunks::meta::MetaKey;
use xzib::chunks::{Body, Indx, Xmet};
use xzib::color::{apply_palette, extend, ChannelVariant, ColorVariant, La, Rgb, Rgba};
use xzib::format::{ChannelValueType, ColorType, Format, NumberType};
use xzib::{is_valid_planes, Date, Head, XZIB};

fn image(nt: NumberType, interleaved: bool, ct: ColorType, planes: u8, w: u32, h: u32, data: ChannelVariant) -> XZIB {
    let head = Head::new(nt, interleaved, ct, planes, 0, w, h).expect("valid header");
    let mut img = XZIB::new(head);
    *img.body_mut() = Some(Body::with_data(data));
    img
}

fn round_trip(img: &XZIB, level: u32) -> XZIB {
    let bytes = img.write(level).expect("writes");
    XZIB::read(&bytes).expect("reads")
}

fn buffers() -> Vec<(NumberType, ColorType, u8, ChannelVariant)> {
    vec![
        (NumberType::Integer, ColorType::L, 8, ChannelVariant::U8(ColorVariant::L(vec![0, 1, 127, 255]))),
        (
            NumberType::Integer,
            ColorType::Rgb,
            16,
            ChannelVariant::U16(ColorVariant::Rgb(vec![Rgb([0, 1, 2]), Rgb([65535, 300, 7]), Rgb([9, 9, 9]), Rgb([1, 0, 1])])),
        ),
        (
            NumberType::Integer,
            ColorType::Rgba,
            32,
            ChannelVariant::U32(ColorVariant::Rgba(vec![Rgba([1, 2, 3, 4]); 4])),
        ),
        (NumberType::Integer, ColorType::L, 64, ChannelVariant::U64(ColorVariant::L(vec![u64::MAX, 0, 5, 1 << 40]))),
        (NumberType::Integer, ColorType::L, 128, ChannelVariant::U128(ColorVariant::L(vec![u128::MAX, 0, 5, 1 << 100]))),
        (
            NumberType::Float,
            ColorType::Rgb,
            32,
            ChannelVariant::F32(ColorVariant::Rgb(vec![Rgb([1.5f32.to_bits(), 0, (-2.0f32).to_bits()]); 4])),
        ),
        (NumberType::Float, ColorType::L, 64, ChannelVariant::F64(ColorVariant::L(vec![0.25f64.to_bits(); 4]))),
    ]
}

#[test]
fn round_trip_non_interleaved() {
    for (nt, ct, planes, data) in buffers() {
        let img = image(nt, false, ct, planes, 2, 2, data);
        let back = round_trip(&img, 0);
        assert_eq!(back.head(), img.head());
        assert_eq!(back.body().unwrap().data, img.body().unwrap().data);
    }
}

#[test]
fn round_trip_interleaved_full_width() {
    for (nt, ct, planes, data) in buffers() {
        let img = image(nt, true, ct, planes, 2, 2, data);
        let back = round_trip(&img, 0);
        assert_eq!(back.head(), img.head());
        assert_eq!(back.body().unwrap().data, img.body().unwrap().data);
    }
}

#[test]
fn round_trip_interleaved_odd_width() {
    let data = ChannelVariant::U16(ColorVariant::L((0..9u16).map(|v| v * 7000).collect()));
    let img = image(NumberType::Integer, true, ColorType::L, 16, 9, 1, data);
    let bytes = img.write(0).unwrap();
    assert_eq!(bytes.len(), 16 + 8 + 16 * 2);
    let back = XZIB::read(&bytes).unwrap();
    assert_eq!(back.body().unwrap().data, img.body().unwrap().data);
}

#[test]
fn compression_is_transparent() {
    for (nt, ct, planes, data) in buffers() {
        let img = image(nt, false, ct, planes, 2, 2, data);
        let plain = round_trip(&img, 0);
        for level in 1..=9 {
            let packed = round_trip(&img, level);
            assert_eq!(packed.head(), plain.head());
            assert_eq!(packed.body().unwrap().data, plain.body().unwrap().data);
        }
    }
}

#[test]
fn compressed_payload_differs_from_raw() {
    let data = ChannelVariant::U8(ColorVariant::L(vec![7; 256]));
    let img = image(NumberType::Integer, false, ColorType::L, 8, 16, 16, data);
    let raw = img.write(0).unwrap();
    let packed = img.write(9).unwrap();
    assert_eq!(&packed[16..20], b"boDY");
    assert!(packed.len() < raw.len());
}

#[test]
fn extend_is_monotonic_with_fixed_ends() {
    for n in 1u8..=8 {
        let max = (1u128 << n) - 1;
        assert_eq!(extend(0, n, 8), 0);
        assert_eq!(extend(max, n, 8), 255);
        for v in 0..max {
            assert!(extend(v, n, 8) <= extend(v + 1, n, 8));
        }
    }
    assert_eq!(extend(3, 2, 8), 0xFF);
    assert_eq!(extend(5, 3, 8), 5 * 36 + 2);
    assert_eq!(extend(0x1FF, 9, 16), 0xFFFF);
    assert_eq!(extend(1, 9, 16), (1 << 7) | (1 >> 2));
    assert_eq!(extend((1u128 << 100) - 1, 100, 128), u128::MAX);
    assert_eq!(extend(12345, 32, 32), 12345);
}

#[test]
fn one_bit_bodies_are_black_or_white() {
    let h = Head::new(NumberType::Integer, false, ColorType::L, 1, 0, 16, 1).unwrap();
    let body = Body::read(&[0b1010_0110, 0xFF], &h).unwrap();
    match body.data {
        ChannelVariant::U8(ColorVariant::L(v)) => {
            assert_eq!(v.len(), 16);
            assert_eq!(&v[0..8], &[0, 255, 255, 0, 0, 255, 0, 255]);
            assert!(v.iter().all(|&x| x == 0 || x == 255));
        }
        other => panic!("unexpected buffer {:?}", other),
    }
    let hi = Head::new(NumberType::Integer, true, ColorType::Rgb, 1, 0, 3, 1).unwrap();
    let body = Body::read(&[0b101, 0b010, 0b111], &hi).unwrap();
    assert_eq!(
        body.data,
        ChannelVariant::U8(ColorVariant::Rgb(vec![Rgb([255, 0, 255]), Rgb([0, 255, 255]), Rgb([255, 0, 255])]))
    );
}

#[test]
fn four_bit_bodies_replicate_nibbles() {
    let h = Head::new(NumberType::Integer, false, ColorType::L, 4, 0, 4, 1).unwrap();
    let body = Body::read(&[0x21, 0xF0], &h).unwrap();
    assert_eq!(body.data, ChannelVariant::U8(ColorVariant::L(vec![0x11, 0x22, 0x00, 0xFF])));
    let bytes = body.write(&h).unwrap();
    assert_eq!(bytes, vec![0x21, 0xF0]);
}

#[test]
fn palette_lookup_and_passthrough() {
    let head = Head::new(NumberType::Integer, false, ColorType::Rgb, 8, 8, 3, 1).unwrap();
    let mut img = XZIB::new(head);
    *img.body_mut() = Some(Body::with_data(ChannelVariant::U8(ColorVariant::L(vec![1, 0, 9]))));
    let unchanged = img.image_buffer().unwrap();
    assert_eq!(unchanged, ChannelVariant::U8(ColorVariant::L(vec![1, 0, 9])));
    *img.indx_mut() =
        Some(Indx::with_colors(ChannelVariant::U8(ColorVariant::Rgb(vec![Rgb([1, 2, 3]), Rgb([4, 5, 6])]))));
    let colored = img.image_buffer().unwrap();
    assert_eq!(colored.color_type(), ColorType::Rgb);
    assert_eq!(
        colored,
        ChannelVariant::U8(ColorVariant::Rgb(vec![Rgb([4, 5, 6]), Rgb([1, 2, 3]), Rgb([0, 0, 0])]))
    );
    assert_eq!(apply_palette(&[1, 5], &[10, 11, 20, 21], 2), vec![20, 21, 0, 0]);
}

#[test]
fn palette_file_round_trip() {
    let head = Head::new(NumberType::Integer, false, ColorType::Rgba, 8, 8, 2, 1).unwrap();
    let mut img = XZIB::new(head);
    *img.indx_mut() = Some(Indx::with_colors(ChannelVariant::U8(ColorVariant::Rgba(vec![Rgba([9, 8, 7, 6])]))));
    *img.body_mut() = Some(Body::with_data(ChannelVariant::U8(ColorVariant::L(vec![0, 3]))));
    let back = round_trip(&img, 3);
    assert_eq!(
        back.image_buffer().unwrap(),
        ChannelVariant::U8(ColorVariant::Rgba(vec![Rgba([9, 8, 7, 6]), Rgba([0, 0, 0, 0])]))
    );
}

#[test]
fn xmet_keeps_every_value() {
    let mut x = Xmet::new();
    x.insert("k".to_string(), "a".to_string());
    x.insert("other".to_string(), "z".to_string());
    x.insert("k".to_string(), "b".to_string());
    x.insert("k".to_string(), "a".to_string());
    let mut payload = Vec::new();
    x.write(&mut payload);
    let back = Xmet::read(&payload).unwrap();
    let k = back.data().iter().find(|e| e.0 == "k").unwrap();
    let mut values = k.1.clone();
    values.sort();
    assert_eq!(values, vec!["a".to_string(), "a".to_string(), "b".to_string()]);
    assert_eq!(back.data().len(), 2);
}

#[test]
fn xmet_rejects_bad_utf8() {
    assert!(Xmet::read(&[0xFF, 0, b'v', 0]).is_err());
    assert!(Xmet::read(&[b'k', 0, 0xC3, 0]).is_err());
}

#[test]
fn envelope_uses_small_size_and_case_flags() {
    let data = ChannelVariant::U8(ColorVariant::L(vec![1, 2, 3, 4]));
    let img = image(NumberType::Integer, false, ColorType::L, 8, 2, 2, data);
    let raw = img.write(0).unwrap();
    assert_eq!(&raw[16..20], b"bODY");
    assert_eq!(&raw[20..24], &4u32.to_le_bytes());
    let packed = img.write(1).unwrap();
    assert_eq!(&packed[16..20], b"boDY");
}

#[test]
fn header_validation() {
    assert!(Head::new(NumberType::Integer, false, ColorType::L, 3, 0, 1, 1).is_err());
    assert!(Head::new(NumberType::Integer, true, ColorType::L, 3, 0, 1, 1).is_ok());
    assert!(Head::new(NumberType::Float, true, ColorType::L, 16, 0, 1, 1).is_err());
    assert!(Head::new(NumberType::Integer, false, ColorType::L, 8, 0, 0, 1).is_err());
    assert!(Head::new(NumberType::Integer, false, ColorType::La, 8, 0, 1, 1).is_err());
    assert!(Head::new(NumberType::Integer, false, ColorType::L, 8, 5, 1, 1).is_err());
    let h = Head::new(NumberType::Float, true, ColorType::Rgb, 64, 8, 3, 4).unwrap();
    assert_eq!(h.flags(), 3);
    assert_eq!(h.channels(), 3);
    assert_eq!(h.number_type(), NumberType::Float);
    assert!(h.is_indexed());
    assert_eq!(h.channel_value_type().unwrap(), ChannelValueType::F64);
    assert_eq!(h.format().unwrap(), Format(ChannelValueType::F64, ColorType::Rgb));
    let mut out = Vec::new();
    h.write(&mut out);
    assert_eq!(out, vec![b'X', b'Z', b'I', b'B', 3, 3, 64, 8, 3, 0, 0, 0, 4, 0, 0, 0]);
    assert_eq!(Head::read(&out).unwrap(), h);
    assert!(is_valid_planes(NumberType::Integer, false, 128));
    assert!(!is_valid_planes(NumberType::Integer, false, 2));
}

#[test]
fn carrier_selection() {
    assert_eq!(ChannelValueType::from_planes(NumberType::Integer, 1).unwrap(), ChannelValueType::U8);
    assert_eq!(ChannelValueType::from_planes(NumberType::Integer, 9).unwrap(), ChannelValueType::U16);
    assert_eq!(ChannelValueType::from_planes(NumberType::Integer, 33).unwrap(), ChannelValueType::U64);
    assert_eq!(ChannelValueType::from_planes(NumberType::Integer, 128).unwrap(), ChannelValueType::U128);
    assert!(ChannelValueType::from_planes(NumberType::Integer, 0).is_err());
    assert!(ChannelValueType::from_planes(NumberType::Integer, 129).is_err());
    assert_eq!(ChannelValueType::from_planes(NumberType::Float, 32).unwrap(), ChannelValueType::F32);
    assert!(ChannelValueType::from_planes(NumberType::Float, 65).is_err());
    assert_eq!(ColorType::from_channels(4).unwrap(), ColorType::Rgba);
    assert!(ColorType::from_channels(2).is_err());
    assert_eq!(ColorType::La.channels(), 2);
}

#[test]
fn dates_and_meta_keys() {
    let d = Date::parse("2024-05-01").unwrap();
    assert_eq!((d.year(), d.month(), d.day()), (2024, 5, 1));
    assert_eq!(Date::parse("+7-0-31").unwrap(), Date::new(7, 0, 31));
    assert!(Date::parse("2024-05").is_err());
    assert!(Date::parse("2024-05-01-02").is_err());
    assert!(Date::parse("2024-256-01").is_err());
    assert!(Date::parse("70000-1-1").is_err());
    assert!(Date::parse("20x4-1-1").is_err());
    assert_eq!(Date::new(7, 3, 9).to_bytes(), b"0007-03-09".to_vec());
    assert!(Date::default().is_null());
    assert!(!Date::from_year(1).is_null());
    assert_eq!(MetaKey::try_from(6).unwrap(), MetaKey::Comment);
    let err = MetaKey::try_from(7).unwrap_err();
    assert_eq!(err.key(), 7);
}

#[test]
fn meta_skips_unknown_keys_and_bad_dates() {
    let payload = [9, b'?', 0, 2, b'x', 0, 1, b'T', 0, 1, b'U'];
    let meta = xzib::chunks::Meta::read(&payload).unwrap();
    assert_eq!(meta.title(), "U");
    assert!(meta.created_at().is_null());
    assert!(xzib::chunks::Meta::read(&[1, 0xFF, 0]).is_err());
}

#[test]
fn la_buffers_are_not_stored() {
    let head = Head::new(NumberType::Integer, false, ColorType::L, 8, 0, 1, 1).unwrap();
    let body = Body::with_data(ChannelVariant::U8(ColorVariant::La(vec![La([1, 2])])));
    assert!(body.write(&head).is_err());
    let empty = Body::new(Format(ChannelValueType::U16, ColorType::Rgb));
    assert_eq!(empty.data, ChannelVariant::U16(ColorVariant::Rgb(vec![])));
}
