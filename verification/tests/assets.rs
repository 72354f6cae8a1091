use icarus_editor::texture::{decode_block_compressed, decode_texture2d};
use icarus_editor::uasset::{read_name_table, AssetError, ByteReader, PACKAGE_FILE_TAG};

fn put_i32(out: &mut Vec<u8>, v: i32) {
    out.extend_from_slice(&v.to_le_bytes());
}

fn put_u32(out: &mut Vec<u8>, v: u32) {
    out.extend_from_slice(&v.to_le_bytes());
}

fn put_i64(out: &mut Vec<u8>, v: i64) {
    out.extend_from_slice(&v.to_le_bytes());
}

fn put_fstring(out: &mut Vec<u8>, s: &str) {
    put_i32(out, s.len() as i32 + 1);
    out.extend_from_slice(s.as_bytes());
    out.push(0);
}

/// A package header with the given names, laid out as an unversioned
/// UE 4.25 cook writes it.
fn uasset_with_names(names: &[&str]) -> Vec<u8> {
    let mut out = Vec::new();
    put_u32(&mut out, PACKAGE_FILE_TAG);
    put_i32(&mut out, -7); // legacy version: UE3 version follows
    put_i32(&mut out, 0); // UE3
    put_i32(&mut out, 0); // UE4
    put_i32(&mut out, 0); // licensee
    put_i32(&mut out, 0); // custom versions
    put_i32(&mut out, 0); // total header size
    put_fstring(&mut out, "/Game/Icon");
    put_u32(&mut out, 0); // package flags
    put_i32(&mut out, names.len() as i32);
    let offset_at = out.len();
    put_i32(&mut out, 0); // name offset, patched below
    let offset = out.len() as i32;
    out[offset_at..offset_at + 4].copy_from_slice(&offset.to_le_bytes());
    for n in names {
        put_fstring(&mut out, n);
        put_u32(&mut out, 0); // hashes
    }
    out
}

fn fname(out: &mut Vec<u8>, index: i32, number: i32) {
    put_i32(out, index);
    put_i32(out, number);
}

/// A `.uexp` with no tagged properties and one uncompressed mip.
fn uexp_single_mip(format_index: i32, format: &str, w: i32, h: i32, payload: &[u8], mips: i32) -> Vec<u8> {
    let mut out = Vec::new();
    fname(&mut out, 0, 0); // "None": end of the tagged properties
    out.extend_from_slice(&[0u8; 12]);
    fname(&mut out, format_index, 0);
    put_i64(&mut out, 0); // skip offset
    put_i32(&mut out, w);
    put_i32(&mut out, h);
    put_u32(&mut out, 0); // packed data, no optional data
    put_fstring(&mut out, format);
    put_i32(&mut out, 0); // first mip to serialize
    put_i32(&mut out, mips);
    for _ in 0..mips {
        put_i32(&mut out, 1); // cooked
        put_u32(&mut out, 0); // 32-bit sizes
        put_i32(&mut out, payload.len() as i32);
        put_i32(&mut out, payload.len() as i32);
        put_i64(&mut out, 0);
        out.extend_from_slice(payload);
        put_i32(&mut out, w);
        put_i32(&mut out, h);
        put_i32(&mut out, 1);
    }
    out
}

#[test]
fn byte_reader_reads_little_endian_values() {
    let data = [0x01u8, 0xff, 0xff, 0xff, 0xff, 0x02, 0, 0, 0, 0, 0, 0, 0x80];
    let mut r = ByteReader::new(&data);
    assert!(matches!(r.u8(), Ok(1)));
    assert!(matches!(r.i32(), Ok(-1)));
    assert_eq!(r.pos(), 5);
    assert!(matches!(r.i64(), Ok(v) if v == i64::MIN + 2));
    assert_eq!(r.pos(), 13);
    assert!(matches!(r.u8(), Err(AssetError::UnexpectedEof)));
}

#[test]
fn byte_reader_read_past_end_moves_to_end() {
    let data = [1u8, 2, 3];
    let mut r = ByteReader::new(&data);
    r.set_pos(1);
    assert!(matches!(r.u32(), Err(AssetError::UnexpectedEof)));
    assert_eq!(r.pos(), 3);
    r.set_pos(10);
    assert!(matches!(r.bytes(1), Err(AssetError::UnexpectedEof)));
    assert_eq!(r.pos(), 3);
    r.set_pos(10);
    assert!(matches!(r.bytes(0), Ok(ref v) if v.is_empty()));
    assert_eq!(r.pos(), 10);
}

#[test]
fn byte_reader_bool32_and_bytes() {
    let data = [0u8, 0, 0, 0, 7, 0, 0, 0, 9, 8];
    let mut r = ByteReader::new(&data);
    assert!(matches!(r.bool32(), Ok(false)));
    assert!(matches!(r.bool32(), Ok(true)));
    assert!(matches!(r.bytes(2), Ok(ref v) if v == &vec![9u8, 8]));
}

#[test]
fn fstring_decodes_utf8_and_utf16() {
    let mut data = Vec::new();
    put_fstring(&mut data, "Icon");
    // UTF-16 "Hé" plus NUL: length -3.
    put_i32(&mut data, -3);
    for u in [0x48u16, 0xe9, 0] {
        data.extend_from_slice(&u.to_le_bytes());
    }
    put_i32(&mut data, 0);
    let mut r = ByteReader::new(&data);
    assert!(matches!(r.fstring(), Ok(ref s) if s == "Icon"));
    assert!(matches!(r.fstring(), Ok(ref s) if s == "H\u{e9}"));
    assert!(matches!(r.fstring(), Ok(ref s) if s.is_empty()));
}

#[test]
fn fstring_replaces_invalid_utf8() {
    let mut data = Vec::new();
    put_i32(&mut data, 3);
    data.extend_from_slice(&[b'a', 0xff, 0]);
    let mut r = ByteReader::new(&data);
    assert!(matches!(r.fstring(), Ok(ref s) if s == "a\u{fffd}"));
}

#[test]
fn fstring_with_minimum_length_is_malformed() {
    let mut data = Vec::new();
    put_i32(&mut data, i32::MIN);
    let mut r = ByteReader::new(&data);
    assert!(matches!(r.fstring(), Err(AssetError::Malformed)));
}

#[test]
fn name_table_is_read() {
    let bytes = uasset_with_names(&["None", "PF_B8G8R8A8", "Texture2D"]);
    let names = match read_name_table(&bytes) {
        Ok(n) => n,
        Err(_) => panic!("name table should parse"),
    };
    assert_eq!(names, vec!["None".to_string(), "PF_B8G8R8A8".to_string(), "Texture2D".to_string()]);
}

#[test]
fn name_table_rejects_bad_magic() {
    let mut bytes = uasset_with_names(&["None"]);
    bytes[0] = 0;
    assert!(matches!(read_name_table(&bytes), Err(AssetError::BadMagic(t)) if t == PACKAGE_FILE_TAG & !0xff));
}

#[test]
fn name_table_reports_truncation() {
    let bytes = uasset_with_names(&["None", "Texture2D"]);
    let cut = &bytes[..bytes.len() - 6];
    assert!(matches!(read_name_table(cut), Err(AssetError::UnexpectedEof)));
    assert!(matches!(read_name_table(&bytes[..10]), Err(AssetError::UnexpectedEof)));
}

#[test]
fn uncompressed_texture_is_swizzled_to_rgba() {
    let uasset = uasset_with_names(&["None", "PF_B8G8R8A8"]);
    // Two pixels, BGRA: blue-ish then red-ish.
    let payload = [10u8, 20, 30, 40, 50, 60, 70, 80];
    let uexp = uexp_single_mip(1, "PF_B8G8R8A8", 2, 1, &payload, 1);
    let tex = match decode_texture2d(&uasset, &uexp) {
        Ok(t) => t,
        Err(_) => panic!("texture should decode"),
    };
    assert_eq!(tex.width, 2);
    assert_eq!(tex.height, 1);
    assert_eq!(tex.rgba, vec![30u8, 20, 10, 40, 70, 60, 50, 80]);
}

#[test]
fn texture_without_mips_is_refused() {
    let uasset = uasset_with_names(&["None", "PF_B8G8R8A8"]);
    let uexp = uexp_single_mip(1, "PF_B8G8R8A8", 1, 1, &[1, 2, 3, 4], 0);
    assert!(matches!(decode_texture2d(&uasset, &uexp), Err(AssetError::NoMips)));
}

#[test]
fn texture_without_platform_data_is_refused() {
    let uasset = uasset_with_names(&["None", "PF_B8G8R8A8"]);
    let uexp = uexp_single_mip(0, "PF_B8G8R8A8", 1, 1, &[1, 2, 3, 4], 1);
    assert!(matches!(decode_texture2d(&uasset, &uexp), Err(AssetError::NoPlatformData)));
}

#[test]
fn texture_with_bad_name_index_is_refused() {
    let uasset = uasset_with_names(&["None", "PF_B8G8R8A8"]);
    let uexp = uexp_single_mip(5, "PF_B8G8R8A8", 1, 1, &[1, 2, 3, 4], 1);
    assert!(matches!(
        decode_texture2d(&uasset, &uexp),
        Err(AssetError::NameIndexOutOfRange { index: 5, names: 2 })
    ));
}

#[test]
fn texture_properties_are_skipped_by_size() {
    let uasset = uasset_with_names(&["None", "PF_B8G8R8A8", "SRGB", "BoolProperty", "LODGroup", "ByteProperty"]);
    let mut uexp = Vec::new();
    // SRGB: BoolProperty, size 0, array index 0, inline value, no guid.
    fname(&mut uexp, 2, 0);
    fname(&mut uexp, 3, 0);
    put_i32(&mut uexp, 0);
    put_i32(&mut uexp, 0);
    uexp.push(1);
    uexp.push(0);
    // LODGroup: ByteProperty with an enum name and an 8-byte value.
    fname(&mut uexp, 4, 0);
    fname(&mut uexp, 5, 0);
    put_i32(&mut uexp, 8);
    put_i32(&mut uexp, 0);
    fname(&mut uexp, 0, 0);
    uexp.push(0);
    uexp.extend_from_slice(&[0xAAu8; 8]);
    let rest = uexp_single_mip(1, "PF_B8G8R8A8", 1, 1, &[1, 2, 3, 4], 1);
    uexp.extend_from_slice(&rest);
    let tex = match decode_texture2d(&uasset, &uexp) {
        Ok(t) => t,
        Err(_) => panic!("texture should decode"),
    };
    assert_eq!(tex.rgba, vec![3u8, 2, 1, 4]);
}

#[test]
fn bgra_payload_too_short_is_refused() {
    assert!(matches!(
        decode_block_compressed("PF_B8G8R8A8", 2, 2, &[0u8; 15]),
        Err(AssetError::PayloadTooShort)
    ));
}

#[test]
fn bc1_blocks_decode_through_the_decoder() {
    // One BC1 block: both endpoint colours white (0xFFFF), all indices 0.
    let block = [0xffu8, 0xff, 0xff, 0xff, 0, 0, 0, 0];
    let rgba = match decode_block_compressed("PF_DXT1", 4, 4, &block) {
        Ok(v) => v,
        Err(_) => panic!("BC1 should decode"),
    };
    assert_eq!(rgba.len(), 64);
    for px in rgba.chunks(4) {
        assert_eq!(px, &[255u8, 255, 255, 255]);
    }
}

#[test]
fn bc1_short_data_reports_the_decoder_message() {
    match decode_block_compressed("PF_DXT1", 8, 4, &[0u8; 8]) {
        Err(AssetError::Decode(m)) => assert_eq!(m, "Not enough data to decode image!"),
        _ => panic!("expected a decoder error"),
    }
}

#[test]
fn unknown_pixel_format_is_refused() {
    match decode_block_compressed("PF_ASTC_4x4", 4, 4, &[0u8; 16]) {
        Err(AssetError::UnsupportedFormat(f)) => assert_eq!(f, "PF_ASTC_4x4"),
        _ => panic!("expected an unsupported format"),
    }
}

#[test]
fn oversized_image_is_malformed() {
    assert!(matches!(
        decode_block_compressed("PF_B8G8R8A8", usize::MAX, 2, &[]),
        Err(AssetError::Malformed)
    ));
    assert!(matches!(decode_block_compressed("PF_DXT5", usize::MAX / 2, 3, &[]), Err(AssetError::Malformed)));
}
