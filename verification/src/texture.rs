//! Decodes an Unreal `Texture2D` asset (`.uasset` + `.uexp`, every icon
//! the game ships being small enough to be fully inline) into RGBA8 pixels.
//!
//! The asset's tagged properties are skipped by their declared sizes; the
//! cooked platform data that follows names the pixel format and holds the
//! mip chain, of which the first (largest) mip is decoded. Exactly 12 bytes
//! of strip-data flags and `bCooked` precede the pixel format name, a gap
//! found identical across every icon sampled.

use vstd::prelude::*;
use crate::json_fmt::{int_text, push_signed};
use crate::text::{push_char, push_str, str_eq};
use crate::uasset::{
    AssetError, ByteReader, Fault, as_u64, fstring_at, i32_at, i64_at, name_table,
    read_name_table, take_at, u32_at, u8_at,
};

verus! {

/// `n - 1` in 32-bit two's complement arithmetic: the least number wraps to
/// the greatest.
pub open spec fn wrapping_pred(n: int) -> int {
    if n == -0x8000_0000 {
        0x7fff_ffff
    } else {
        n - 1
    }
}

/// The `FName` at `p`: an index into the name table and a number; a
/// nonzero number `n` is written after the name as `_` and `n - 1`.
pub open spec fn fname_at(names: Seq<Seq<char>>, d: Seq<u8>, p: int) -> Result<(Seq<char>, int), Fault> {
    match (i32_at(d, p), i32_at(d, p + 4)) {
        (Some(idx), Some(number)) => if !(0 <= idx < names.len()) {
            Err(Fault::NameIndexOutOfRange(idx, names.len() as int))
        } else if number == 0 {
            Ok((names[idx], p + 8))
        } else {
            Ok((names[idx] + seq!['_'] + int_text(wrapping_pred(number)), p + 8))
        },
        _ => Err(Fault::UnexpectedEof),
    }
}

/// Where the type-specific part of a property tag of type `ty` ends, when
/// it starts at `p`: a struct's type name and GUID, a bool's inline value,
/// the enum or inner type name of byte, enum, array and set properties, the
/// key and value type names of a map.
pub open spec fn tag_extra_end(names: Seq<Seq<char>>, d: Seq<u8>, p: int, ty: Seq<char>) -> Result<int, Fault> {
    if ty == "StructProperty"@ {
        match fname_at(names, d, p) {
            Err(e) => Err(e),
            Ok((_, q)) => if take_at(d, q, 16) is Some {
                Ok(q + 16)
            } else {
                Err(Fault::UnexpectedEof)
            },
        }
    } else if ty == "BoolProperty"@ {
        if take_at(d, p, 1) is Some {
            Ok(p + 1)
        } else {
            Err(Fault::UnexpectedEof)
        }
    } else if ty == "ByteProperty"@ || ty == "EnumProperty"@ || ty == "ArrayProperty"@ || ty
        == "SetProperty"@ {
        match fname_at(names, d, p) {
            Err(e) => Err(e),
            Ok((_, q)) => Ok(q),
        }
    } else if ty == "MapProperty"@ {
        match fname_at(names, d, p) {
            Err(e) => Err(e),
            Ok((_, q)) => match fname_at(names, d, q) {
                Err(e) => Err(e),
                Ok((_, q2)) => Ok(q2),
            },
        }
    } else {
        Ok(p)
    }
}

/// One property tag at `p`: false with the position after the name at the
/// `None` terminator; otherwise true with the position after the value,
/// whose size the tag declares.
pub open spec fn property_at(names: Seq<Seq<char>>, d: Seq<u8>, p: int) -> Result<(bool, int), Fault> {
    match fname_at(names, d, p) {
        Err(e) => Err(e),
        Ok((name, p1)) => if name == "None"@ {
            Ok((false, p1))
        } else {
            match fname_at(names, d, p1) {
                Err(e) => Err(e),
                Ok((ty, p2)) => match (i32_at(d, p2), i32_at(d, p2 + 4)) {
                    (Some(size), Some(_)) => match tag_extra_end(names, d, p2 + 8, ty) {
                        Err(e) => Err(e),
                        Ok(p3) => match u8_at(d, p3) {
                            None => Err(Fault::UnexpectedEof),
                            Some(has_guid) => {
                                let value_start = if has_guid != 0 {
                                    p3 + 17
                                } else {
                                    p3 + 1
                                };
                                if value_start > d.len() {
                                    Err(Fault::UnexpectedEof)
                                } else if value_start + as_u64(size) > u64::MAX {
                                    Err(Fault::Malformed)
                                } else {
                                    Ok((true, value_start + as_u64(size)))
                                }
                            },
                        },
                    },
                    _ => Err(Fault::UnexpectedEof),
                },
            }
        },
    }
}

/// How far a position is from having read past the end.
pub open spec fn room(d: Seq<u8>, p: int) -> int {
    if 0 <= p <= d.len() {
        d.len() + 1 - p
    } else {
        0
    }
}

/// A property tag read from within the data moves the position forward.
pub proof fn lemma_property_advances(names: Seq<Seq<char>>, d: Seq<u8>, p: int)
    ensures
        property_at(names, d, p) matches Ok((more, q)) ==> room(d, q) < room(d, p),
{
}

/// The position after the tagged properties starting at `p`, up to and
/// including the `None` terminator.
pub open spec fn properties_end(names: Seq<Seq<char>>, d: Seq<u8>, p: int) -> Result<int, Fault>
    decreases room(d, p),
{
    match property_at(names, d, p) {
        Err(e) => Err(e),
        Ok((more, q)) => if more {
            proof {
                lemma_property_advances(names, d, p);
            }
            properties_end(names, d, q)
        } else {
            Ok(q)
        },
    }
}

/// A reader of a `.uexp` together with the name table its FNames index.
struct TexReader<'a> {
    r: ByteReader<'a>,
    names: &'a [String],
}

impl<'a> TexReader<'a> {
    spec fn names_view(&self) -> Seq<Seq<char>> {
        self.names@.map_values(|s: String| s@)
    }

    /// An `FName` (see `fname_at`).
    fn fname(&mut self) -> (res: Result<String, AssetError>)
        ensures
            final(self).names == old(self).names,
            final(self).r.data() == old(self).r.data(),
            match res {
                Ok(s) => fname_at(old(self).names_view(), old(self).r.data(), old(self).r.cursor()) == Ok::<
                    (Seq<char>, int),
                    Fault,
                >((s@, final(self).r.cursor())),
                Err(e) => fname_at(old(self).names_view(), old(self).r.data(), old(self).r.cursor())
                    == Err::<(Seq<char>, int), Fault>(e.fault()),
            },
    {
        let idx = self.r.i32()?;
        let number = self.r.i32()?;
        if idx < 0 || idx as usize >= self.names.len() {
            return Err(AssetError::NameIndexOutOfRange { index: idx, names: self.names.len() });
        }
        let mut base = self.names[idx as usize].clone();
        assert(self.names_view()[idx as int] == base@);
        if number == 0 {
            return Ok(base);
        }
        let pred: i32 = if number == i32::MIN {
            i32::MAX
        } else {
            number - 1
        };
        let ghost name = base@;
        push_char(&mut base, '_');
        push_signed(&mut base, pred as i64);
        assert(base@ =~= name + seq!['_'] + int_text(wrapping_pred(number as int)));
        Ok(base)
    }
}

/// Skips one property tag and its value; false at the `None` terminator.
fn skip_property(t: &mut TexReader) -> (res: Result<bool, AssetError>)
    ensures
        final(t).names == old(t).names,
        final(t).r.data() == old(t).r.data(),
        match res {
            Ok(more) => property_at(old(t).names_view(), old(t).r.data(), old(t).r.cursor()) == Ok::<
                (bool, int),
                Fault,
            >((more, final(t).r.cursor())),
            Err(e) => property_at(old(t).names_view(), old(t).r.data(), old(t).r.cursor()) == Err::<
                (bool, int),
                Fault,
            >(e.fault()),
        },
{
    let name = t.fname()?;
    if str_eq(name.as_str(), "None") {
        return Ok(false);
    }
    let prop_type = t.fname()?;
    let size = t.r.i32()?;
    let _array_index = t.r.i32()?;
    let ty = prop_type.as_str();
    if str_eq(ty, "StructProperty") {
        t.fname()?;
        t.r.bytes(16)?;
    } else if str_eq(ty, "BoolProperty") {
        t.r.u8()?;
    } else if str_eq(ty, "ByteProperty") || str_eq(ty, "EnumProperty") || str_eq(ty, "ArrayProperty")
        || str_eq(ty, "SetProperty") {
        t.fname()?;
    } else if str_eq(ty, "MapProperty") {
        t.fname()?;
        t.fname()?;
    }
    let has_guid = t.r.u8()? != 0;
    if has_guid {
        t.r.bytes(16)?;
    }
    let value_start = t.r.pos();
    let step: u64 = if size >= 0 {
        size as u64
    } else {
        u64::MAX - ((-(size + 1)) as u64)
    };
    assert(step as int == as_u64(size as int));
    match value_start.checked_add(step) {
        Some(end) => {
            t.r.set_pos(end);
            Ok(true)
        },
        None => Err(AssetError::Malformed),
    }
}

/// The pixels `texture2ddecoder::decode_bc1` decodes from `data`.
pub uninterp spec fn bc1_pixels(data: Seq<u8>, width: usize, height: usize) -> Seq<u32>;

/// The pixels `texture2ddecoder::decode_bc3` decodes from `data`.
pub uninterp spec fn bc3_pixels(data: Seq<u8>, width: usize, height: usize) -> Seq<u32>;

/// The pixels `texture2ddecoder::decode_bc4` decodes from `data`.
pub uninterp spec fn bc4_pixels(data: Seq<u8>, width: usize, height: usize) -> Seq<u32>;

/// The pixels `texture2ddecoder::decode_bc5` decodes from `data`.
pub uninterp spec fn bc5_pixels(data: Seq<u8>, width: usize, height: usize) -> Seq<u32>;

/// The pixels `texture2ddecoder::decode_bc7` decodes from `data`.
pub uninterp spec fn bc7_pixels(data: Seq<u8>, width: usize, height: usize) -> Seq<u32>;

/// The bytes a block decoder needs for a `width` x `height` image of 4x4
/// blocks of `block_size` bytes each.
pub open spec fn blocks_needed(width: int, height: int, block_size: int) -> int {
    ((width + 3) / 4) * ((height + 3) / 4) * block_size
}

/// The message the block decoders give when the data is too short.
pub open spec fn short_data_message() -> Seq<char> {
    "Not enough data to decode image!"@
}

/// Decodes BC1 blocks.
///
/// Trusted: calls `texture2ddecoder::decode_bc1` on a fresh buffer of
/// `width * height` pixels. Its source fails, with the message above, just
/// when `data` is shorter than 8 bytes per 4x4 block, and otherwise fills
/// the buffer; the contract names the pixels `bc1_pixels`.
#[verifier::external_body]
fn decode_bc1(data: &[u8], width: usize, height: usize) -> (r: Result<Vec<u32>, String>)
    requires
        width * height * 4 <= isize::MAX,
        blocks_needed(width as int, height as int, 8) <= usize::MAX,
    ensures
        match r {
            Ok(px) => data@.len() >= blocks_needed(width as int, height as int, 8) && px@ == bc1_pixels(
                data@,
                width,
                height,
            ) && px@.len() == width * height,
            Err(m) => data@.len() < blocks_needed(width as int, height as int, 8) && m@ == short_data_message(),
        },
{
    let mut image = vec![0u32; width * height];
    match texture2ddecoder::decode_bc1(data, width, height, &mut image) {
        Ok(()) => Ok(image),
        Err(e) => Err(e.to_string()),
    }
}

/// Decodes BC3 (DXT5) blocks.
///
/// Trusted: calls `texture2ddecoder::decode_bc3` on a fresh buffer of
/// `width * height` pixels. Its source fails, with the message above, just
/// when `data` is shorter than 16 bytes per 4x4 block, and otherwise fills
/// the buffer; the contract names the pixels `bc3_pixels`.
#[verifier::external_body]
fn decode_bc3(data: &[u8], width: usize, height: usize) -> (r: Result<Vec<u32>, String>)
    requires
        width * height * 4 <= isize::MAX,
        blocks_needed(width as int, height as int, 16) <= usize::MAX,
    ensures
        match r {
            Ok(px) => data@.len() >= blocks_needed(width as int, height as int, 16) && px@ == bc3_pixels(
                data@,
                width,
                height,
            ) && px@.len() == width * height,
            Err(m) => data@.len() < blocks_needed(width as int, height as int, 16) && m@ == short_data_message(),
        },
{
    let mut image = vec![0u32; width * height];
    match texture2ddecoder::decode_bc3(data, width, height, &mut image) {
        Ok(()) => Ok(image),
        Err(e) => Err(e.to_string()),
    }
}

/// Decodes BC4 blocks.
///
/// Trusted: calls `texture2ddecoder::decode_bc4` on a fresh buffer of
/// `width * height` pixels. Its source fails, with the message above, just
/// when `data` is shorter than 8 bytes per 4x4 block, and otherwise fills
/// the buffer; the contract names the pixels `bc4_pixels`.
#[verifier::external_body]
fn decode_bc4(data: &[u8], width: usize, height: usize) -> (r: Result<Vec<u32>, String>)
    requires
        width * height * 4 <= isize::MAX,
        blocks_needed(width as int, height as int, 8) <= usize::MAX,
    ensures
        match r {
            Ok(px) => data@.len() >= blocks_needed(width as int, height as int, 8) && px@ == bc4_pixels(
                data@,
                width,
                height,
            ) && px@.len() == width * height,
            Err(m) => data@.len() < blocks_needed(width as int, height as int, 8) && m@ == short_data_message(),
        },
{
    let mut image = vec![0u32; width * height];
    match texture2ddecoder::decode_bc4(data, width, height, &mut image) {
        Ok(()) => Ok(image),
        Err(e) => Err(e.to_string()),
    }
}

/// Decodes BC5 blocks.
///
/// Trusted: calls `texture2ddecoder::decode_bc5` on a fresh buffer of
/// `width * height` pixels. Its source fails, with the message above, just
/// when `data` is shorter than 16 bytes per 4x4 block, and otherwise fills
/// the buffer; the contract names the pixels `bc5_pixels`.
#[verifier::external_body]
fn decode_bc5(data: &[u8], width: usize, height: usize) -> (r: Result<Vec<u32>, String>)
    requires
        width * height * 4 <= isize::MAX,
        blocks_needed(width as int, height as int, 16) <= usize::MAX,
    ensures
        match r {
            Ok(px) => data@.len() >= blocks_needed(width as int, height as int, 16) && px@ == bc5_pixels(
                data@,
                width,
                height,
            ) && px@.len() == width * height,
            Err(m) => data@.len() < blocks_needed(width as int, height as int, 16) && m@ == short_data_message(),
        },
{
    let mut image = vec![0u32; width * height];
    match texture2ddecoder::decode_bc5(data, width, height, &mut image) {
        Ok(()) => Ok(image),
        Err(e) => Err(e.to_string()),
    }
}

/// Decodes BC7 blocks.
///
/// Trusted: calls `texture2ddecoder::decode_bc7` on a fresh buffer of
/// `width * height` pixels. Its source fails, with the message above, just
/// when `data` is shorter than 16 bytes per 4x4 block, and otherwise fills
/// the buffer; the contract names the pixels `bc7_pixels`.
#[verifier::external_body]
fn decode_bc7(data: &[u8], width: usize, height: usize) -> (r: Result<Vec<u32>, String>)
    requires
        width * height * 4 <= isize::MAX,
        blocks_needed(width as int, height as int, 16) <= usize::MAX,
    ensures
        match r {
            Ok(px) => data@.len() >= blocks_needed(width as int, height as int, 16) && px@ == bc7_pixels(
                data@,
                width,
                height,
            ) && px@.len() == width * height,
            Err(m) => data@.len() < blocks_needed(width as int, height as int, 16) && m@ == short_data_message(),
        },
{
    let mut image = vec![0u32; width * height];
    match texture2ddecoder::decode_bc7(data, width, height, &mut image) {
        Ok(()) => Ok(image),
        Err(e) => Err(e.to_string()),
    }
}

/// The block size of a block-compressed pixel format the builder decodes.
pub open spec fn block_size(fmt: Seq<char>) -> Option<int> {
    if fmt == "PF_DXT1"@ {
        Some(8)
    } else if fmt == "PF_DXT5"@ {
        Some(16)
    } else if fmt == "PF_BC7"@ {
        Some(16)
    } else if fmt == "PF_BC5"@ {
        Some(16)
    } else if fmt == "PF_BC4"@ {
        Some(8)
    } else {
        None
    }
}

/// The pixels the decoder for a block-compressed `fmt` gives.
pub open spec fn block_pixels(fmt: Seq<char>, data: Seq<u8>, width: usize, height: usize) -> Seq<u32> {
    if fmt == "PF_DXT1"@ {
        bc1_pixels(data, width, height)
    } else if fmt == "PF_DXT5"@ {
        bc3_pixels(data, width, height)
    } else if fmt == "PF_BC7"@ {
        bc7_pixels(data, width, height)
    } else if fmt == "PF_BC5"@ {
        bc5_pixels(data, width, height)
    } else {
        bc4_pixels(data, width, height)
    }
}

/// Which byte of a BGRA pixel holds channel `k` of RGBA.
pub open spec fn bgra_index(k: int) -> int {
    if k == 0 {
        2
    } else if k == 2 {
        0
    } else {
        k
    }
}

/// `n` BGRA pixels of `data` as RGBA.
pub open spec fn bgra_to_rgba(data: Seq<u8>, n: int) -> Seq<u8> {
    Seq::new((4 * n) as nat, |j: int| data[4 * (j / 4) + bgra_index(j % 4)])
}

/// Channel `k` (red, green, blue, alpha) of a pixel packed as `0xAARRGGBB`.
pub open spec fn argb_channel(v: u32, k: int) -> u8 {
    (if k == 0 {
        (v / 0x10000) % 0x100
    } else if k == 1 {
        (v / 0x100) % 0x100
    } else if k == 2 {
        v % 0x100
    } else {
        v / 0x100_0000
    }) as u8
}

/// Pixels packed as `0xAARRGGBB` as RGBA bytes.
pub open spec fn argb_to_rgba(px: Seq<u32>) -> Seq<u8> {
    Seq::new((4 * px.len()) as nat, |j: int| argb_channel(px[j / 4], j % 4))
}

/// The RGBA bytes of a `width` x `height` mip in `fmt`: uncompressed BGRA
/// swizzled to RGBA; BC1, BC3, BC4, BC5 or BC7 blocks through their
/// decoder. Sizes whose byte counts leave the machine's integers are
/// malformed.
pub open spec fn decoded(fmt: Seq<char>, width: usize, height: usize, data: Seq<u8>) -> Result<Seq<u8>, Fault> {
    let n = width * height;
    if fmt == "PF_B8G8R8A8"@ {
        if n * 4 > usize::MAX {
            Err(Fault::Malformed)
        } else if data.len() < n * 4 {
            Err(Fault::PayloadTooShort)
        } else {
            Ok(bgra_to_rgba(data, n))
        }
    } else if n * 4 > isize::MAX {
        Err(Fault::Malformed)
    } else {
        match block_size(fmt) {
            None => Err(Fault::UnsupportedFormat(fmt)),
            Some(bs) => if blocks_needed(width as int, height as int, bs) > usize::MAX {
                Err(Fault::Malformed)
            } else if data.len() < blocks_needed(width as int, height as int, bs) {
                Err(Fault::Decode(short_data_message()))
            } else {
                Ok(argb_to_rgba(block_pixels(fmt, data, width, height)))
            },
        }
    }
}

/// `width * height * factor`, if it fits.
fn checked_area(width: usize, height: usize, factor: usize) -> (r: Option<usize>)
    requires
        factor >= 1,
    ensures
        match r {
            Some(v) => v == width * height * factor,
            None => width * height * factor > usize::MAX,
        },
{
    match width.checked_mul(height) {
        Some(n) => match n.checked_mul(factor) {
            Some(v) => Some(v),
            None => None,
        },
        None => {
            assert(width * height * factor > usize::MAX) by (nonlinear_arith)
                requires
                    width * height > usize::MAX,
                    factor >= 1,
            ;
            None
        },
    }
}

/// The bytes a block decoder needs, if the count fits.
fn checked_blocks(width: usize, height: usize, block_size: usize) -> (r: Option<usize>)
    requires
        block_size >= 1,
    ensures
        match r {
            Some(v) => v == blocks_needed(width as int, height as int, block_size as int),
            None => blocks_needed(width as int, height as int, block_size as int) > usize::MAX,
        },
{
    let bx = width / 4 + if width % 4 != 0 { 1 } else { 0 };
    let by = height / 4 + if height % 4 != 0 { 1 } else { 0 };
    assert(bx == (width + 3) / 4);
    assert(by == (height + 3) / 4);
    checked_area(bx, by, block_size)
}

/// `n` BGRA pixels of `data` as RGBA.
fn swizzle_bgra(data: &[u8], n: usize) -> (r: Vec<u8>)
    requires
        4 * n <= data@.len(),
    ensures
        r@ == bgra_to_rgba(data@, n as int),
{
    let mut out: Vec<u8> = Vec::new();
    for i in 0..n
        invariant
            4 * n <= data@.len(),
            data@.len() == data.len(),
            out@.len() == 4 * i,
            forall|j: int| 0 <= j < 4 * i ==> out@[j] == data@[4 * (j / 4) + bgra_index(j % 4)],
    {
        out.push(data[4 * i + 2]);
        out.push(data[4 * i + 1]);
        out.push(data[4 * i]);
        out.push(data[4 * i + 3]);
        assert forall|j: int| 4 * i <= j < 4 * i + 4 implies out@[j] == data@[4 * (j / 4) + bgra_index(
            j % 4,
        )] by {
            assert(j / 4 == i);
        }
    }
    assert(out@ =~= bgra_to_rgba(data@, n as int));
    out
}

/// Pixels packed as `0xAARRGGBB` as RGBA bytes.
fn unpack_argb(px: &Vec<u32>) -> (r: Vec<u8>)
    requires
        4 * px@.len() <= usize::MAX,
    ensures
        r@ == argb_to_rgba(px@),
{
    let mut out: Vec<u8> = Vec::new();
    let n = px.len();
    for i in 0..n
        invariant
            n == px@.len(),
            out@.len() == 4 * i,
            forall|j: int| 0 <= j < 4 * i ==> out@[j] == argb_channel(px@[j / 4], j % 4),
    {
        let v = px[i];
        out.push(((v / 0x10000) % 0x100) as u8);
        out.push(((v / 0x100) % 0x100) as u8);
        out.push((v % 0x100) as u8);
        out.push((v / 0x100_0000) as u8);
        assert forall|j: int| 4 * i <= j < 4 * i + 4 implies out@[j] == argb_channel(px@[j / 4], j % 4) by {
            assert(j / 4 == i);
        }
    }
    assert(out@ =~= argb_to_rgba(px@));
    out
}

/// Decodes one mip's payload to RGBA8 (see `decoded`).
pub fn decode_block_compressed(pixel_format: &str, width: usize, height: usize, data: &[u8]) -> (r: Result<
    Vec<u8>,
    AssetError,
>)
    ensures
        match r {
            Ok(rgba) => decoded(pixel_format@, width, height, data@) == Ok::<Seq<u8>, Fault>(rgba@),
            Err(e) => decoded(pixel_format@, width, height, data@) == Err::<Seq<u8>, Fault>(e.fault()),
        },
        r matches Ok(rgba) ==> rgba@.len() == 4 * width * height && 4 * width * height <= usize::MAX,
{
    if str_eq(pixel_format, "PF_B8G8R8A8") {
        let need = match checked_area(width, height, 4) {
            Some(v) => v,
            None => {
                return Err(AssetError::Malformed);
            },
        };
        if data.len() < need {
            return Err(AssetError::PayloadTooShort);
        }
        assert(4 * (width * height) == 4 * width * height) by (nonlinear_arith);
        return Ok(swizzle_bgra(data, width * height));
    }
    match checked_area(width, height, 4) {
        Some(v) => {
            if v > isize::MAX as usize {
                return Err(AssetError::Malformed);
            }
        },
        None => {
            return Err(AssetError::Malformed);
        },
    }
    let kind: u8 = if str_eq(pixel_format, "PF_DXT1") {
        1
    } else if str_eq(pixel_format, "PF_DXT5") {
        3
    } else if str_eq(pixel_format, "PF_BC7") {
        7
    } else if str_eq(pixel_format, "PF_BC5") {
        5
    } else if str_eq(pixel_format, "PF_BC4") {
        4
    } else {
        return Err(AssetError::UnsupportedFormat(crate::text::to_string(pixel_format)));
    };
    let bs: usize = if kind == 1 || kind == 4 {
        8
    } else {
        16
    };
    match checked_blocks(width, height, bs) {
        Some(_) => {},
        None => {
            return Err(AssetError::Malformed);
        },
    }
    let decoded_px = if kind == 1 {
        decode_bc1(data, width, height)
    } else if kind == 3 {
        decode_bc3(data, width, height)
    } else if kind == 7 {
        decode_bc7(data, width, height)
    } else if kind == 5 {
        decode_bc5(data, width, height)
    } else {
        decode_bc4(data, width, height)
    };
    match decoded_px {
        Ok(px) => {
            assert(4 * (width * height) == 4 * width * height) by (nonlinear_arith);
            Ok(unpack_argb(&px))
        },
        Err(m) => Err(AssetError::Decode(m)),
    }
}

/// The pixel format of the cooked platform data at `p`, and where its
/// mips start: 12 bytes of strip flags and `bCooked`, the pixel format's
/// FName (`None` when there is no platform data), a skip offset, the
/// size, packed flags whose bit 30 announces 8 bytes of optional data, and
/// the pixel format string.
pub open spec fn platform_at(names: Seq<Seq<char>>, d: Seq<u8>, p: int) -> Result<(Seq<char>, int), Fault> {
    match take_at(d, p, 12) {
        None => Err(Fault::UnexpectedEof),
        Some(_) => match fname_at(names, d, p + 12) {
            Err(e) => Err(e),
            Ok((format_name, q)) => if format_name == "None"@ {
                Err(Fault::NoPlatformData)
            } else {
                match u32_at(d, q + 16) {
                    None => Err(Fault::UnexpectedEof),
                    Some(packed) => match fstring_at(d, q + 20) {
                        Err(e) => Err(e),
                        Ok((format, q2)) => if (packed / 0x4000_0000) % 2 == 1 {
                            if take_at(d, q2, 8) is Some {
                                Ok((format, q2 + 8))
                            } else {
                                Err(Fault::UnexpectedEof)
                            }
                        } else {
                            Ok((format, q2))
                        },
                    },
                }
            },
        },
    }
}

/// One mip at `p`: its width, height and payload, and where it ends. The
/// bulk data header's flags (bit 13) say whether its element count and
/// size on disk are 64 or 32 bits; the payload, as long as that size, is
/// followed by the mip's three dimensions.
pub open spec fn mip_at(d: Seq<u8>, p: int) -> Result<(int, int, Seq<u8>, int), Fault> {
    match (i32_at(d, p), u32_at(d, p + 4)) {
        (Some(_), Some(flags)) => {
            let wide = (flags / 0x2000) % 2 == 1;
            let w: int = if wide {
                8
            } else {
                4
            };
            let size = if wide {
                i64_at(d, p + 8 + w)
            } else {
                i32_at(d, p + 8 + w)
            };
            match size {
                None => Err(Fault::UnexpectedEof),
                Some(sz) => {
                    let q = p + 8 + 2 * w + 8;
                    let len = if sz > 0 {
                        sz
                    } else {
                        0
                    };
                    if take_at(d, q - 8, 8) is None {
                        Err(Fault::UnexpectedEof)
                    } else {
                        match take_at(d, q, len) {
                            None => Err(Fault::UnexpectedEof),
                            Some(payload) => match (
                                i32_at(d, q + len),
                                i32_at(d, q + len + 4),
                                i32_at(d, q + len + 8),
                            ) {
                                (Some(x), Some(y), Some(_)) => Ok((x, y, payload, q + len + 12)),
                                _ => Err(Fault::UnexpectedEof),
                            },
                        }
                    }
                },
            }
        },
        _ => Err(Fault::UnexpectedEof),
    }
}

/// The first of `count` mips starting at `p` (none for no mips), and where
/// the last ends.
pub open spec fn mips_at(d: Seq<u8>, p: int, count: nat) -> Result<(Option<(int, int, Seq<u8>)>, int), Fault>
    decreases count,
{
    if count == 0 {
        Ok((None, p))
    } else {
        match mips_at(d, p, (count - 1) as nat) {
            Err(e) => Err(e),
            Ok((first, q)) => match mip_at(d, q) {
                Err(e) => Err(e),
                Ok((x, y, payload, q2)) => Ok((
                    if count == 1 {
                        Some((x, y, payload))
                    } else {
                        first
                    },
                    q2,
                )),
            },
        }
    }
}

/// `v` converted to `usize` by two's complement.
pub open spec fn usize_of(v: int) -> usize {
    (if v >= 0 {
        v
    } else {
        v + usize::MAX + 1
    }) as usize
}

/// `v` converted to `u32` by two's complement.
pub open spec fn u32_of(v: int) -> int {
    if v >= 0 {
        v
    } else {
        v + 0x1_0000_0000
    }
}

/// A `Texture2D` decoded from its `.uasset` (for the name table) and its
/// `.uexp`: after the tagged properties and the platform data, the mip
/// count (after the first mip to serialize; none is an error), the mips,
/// and the first mip decoded in the platform data's pixel format. The
/// result is its width, height and RGBA bytes.
pub open spec fn texture(uasset: Seq<u8>, uexp: Seq<u8>) -> Result<(int, int, Seq<u8>), Fault> {
    match name_table(uasset) {
        Err(e) => Err(e),
        Ok(names) => match properties_end(names, uexp, 0) {
            Err(e) => Err(e),
            Ok(p) => match platform_at(names, uexp, p) {
                Err(e) => Err(e),
                Ok((format, q)) => match (i32_at(uexp, q), i32_at(uexp, q + 4)) {
                    (Some(_), Some(count)) => if count <= 0 {
                        Err(Fault::NoMips)
                    } else {
                        match mips_at(uexp, q + 8, count as nat) {
                            Err(e) => Err(e),
                            Ok((first, _)) => match first {
                                None => Err(Fault::NoMips),
                                Some((x, y, payload)) => match decoded(format, usize_of(x), usize_of(y), payload) {
                                    Err(e) => Err(e),
                                    Ok(rgba) => Ok((u32_of(x), u32_of(y), rgba)),
                                },
                            },
                        }
                    },
                    _ => Err(Fault::UnexpectedEof),
                },
            },
        },
    }
}

/// A decoded texture: its size and RGBA8 pixels, row by row.
pub struct DecodedTexture {
    pub width: u32,
    pub height: u32,
    pub rgba: Vec<u8>,
}

fn read_platform(t: &mut TexReader) -> (res: Result<String, AssetError>)
    ensures
        final(t).names == old(t).names,
        final(t).r.data() == old(t).r.data(),
        match res {
            Ok(f) => platform_at(old(t).names_view(), old(t).r.data(), old(t).r.cursor()) == Ok::<
                (Seq<char>, int),
                Fault,
            >((f@, final(t).r.cursor())),
            Err(e) => platform_at(old(t).names_view(), old(t).r.data(), old(t).r.cursor()) == Err::<
                (Seq<char>, int),
                Fault,
            >(e.fault()),
        },
{
    t.r.bytes(12)?;
    let format_name = t.fname()?;
    if str_eq(format_name.as_str(), "None") {
        return Err(AssetError::NoPlatformData);
    }
    t.r.i64()?;
    t.r.i32()?;
    t.r.i32()?;
    let packed = t.r.u32()?;
    let pixel_format = t.r.fstring()?;
    if (packed / 0x4000_0000) % 2 == 1 {
        t.r.bytes(8)?;
    }
    Ok(pixel_format)
}

fn read_mip(r: &mut ByteReader) -> (res: Result<(i32, i32, Vec<u8>), AssetError>)
    ensures
        final(r).data() == old(r).data(),
        match res {
            Ok((x, y, payload)) => mip_at(old(r).data(), old(r).cursor()) == Ok::<
                (int, int, Seq<u8>, int),
                Fault,
            >((x as int, y as int, payload@, final(r).cursor())),
            Err(e) => mip_at(old(r).data(), old(r).cursor()) == Err::<(int, int, Seq<u8>, int), Fault>(
                e.fault(),
            ),
        },
{
    r.bool32()?;
    let flags = r.u32()?;
    let wide = (flags / 0x2000) % 2 == 1;
    if wide {
        r.i64()?;
    } else {
        r.i32()?;
    }
    let size: i64 = if wide {
        r.i64()?
    } else {
        r.i32()? as i64
    };
    r.i64()?;
    let payload = if size > 0 {
        r.bytes64(size as u64)?
    } else {
        Vec::new()
    };
    let x = r.i32()?;
    let y = r.i32()?;
    r.i32()?;
    Ok((x, y, payload))
}

/// Once reading the first `k` mips fails, reading more fails the same way.
proof fn lemma_mips_fail_later(d: Seq<u8>, p: int, k: nat, count: nat)
    requires
        k <= count,
        mips_at(d, p, k) is Err,
    ensures
        mips_at(d, p, count) == mips_at(d, p, k),
    decreases count - k,
{
    if k < count {
        lemma_mips_fail_later(d, p, k, (count - 1) as nat);
    }
}

fn read_first_mip(r: &mut ByteReader, count: i32) -> (res: Result<(i32, i32, Vec<u8>), AssetError>)
    requires
        count > 0,
    ensures
        match res {
            Ok((x, y, payload)) => mips_at(old(r).data(), old(r).cursor(), count as nat) matches Ok(
                (Some(first), _),
            ) && first == (x as int, y as int, payload@),
            Err(e) => mips_at(old(r).data(), old(r).cursor(), count as nat) == Err::<
                (Option<(int, int, Seq<u8>)>, int),
                Fault,
            >(e.fault()),
        },
{
    let ghost d = r.data();
    let ghost p = r.cursor();
    let (x, y, payload) = match read_mip(r) {
        Ok(v) => v,
        Err(e) => {
            proof {
                lemma_mips_fail_later(d, p, 1, count as nat);
            }
            return Err(e);
        },
    };
    assert(mips_at(d, p, 0) == Ok::<(Option<(int, int, Seq<u8>)>, int), Fault>((None, p)));
    let mut m: i32 = 1;
    while m < count
        invariant
            1 <= m <= count,
            r.data() == d,
            d == old(r).data(),
            p == old(r).cursor(),
            mips_at(d, p, m as nat) == Ok::<(Option<(int, int, Seq<u8>)>, int), Fault>(
                (Some((x as int, y as int, payload@)), r.cursor()),
            ),
        decreases count - m,
    {
        match read_mip(r) {
            Ok(_) => {},
            Err(e) => {
                proof {
                    lemma_mips_fail_later(d, p, (m + 1) as nat, count as nat);
                }
                return Err(e);
            },
        }
        m = m + 1;
    }
    Ok((x, y, payload))
}

/// `v` converted to `usize` by two's complement, as `as` does.
fn to_usize(v: i32) -> (r: usize)
    ensures
        r == usize_of(v as int),
{
    if v >= 0 {
        v as usize
    } else {
        usize::MAX - ((-(v + 1)) as usize)
    }
}

/// `v` converted to `u32` by two's complement, as `as` does.
fn to_u32(v: i32) -> (r: u32)
    ensures
        r == u32_of(v as int),
{
    if v >= 0 {
        v as u32
    } else {
        u32::MAX - ((-(v + 1)) as u32)
    }
}

/// Dimensions read as `i32` whose `usize` forms give `len` bytes of RGBA
/// give as many through their `u32` forms: a negative dimension fits only
/// beside a zero one.
proof fn lemma_rgba_dims(x: i32, y: i32, len: int)
    requires
        len == 4 * usize_of(x as int) * usize_of(y as int),
        len <= usize::MAX,
    ensures
        len == 4 * u32_of(x as int) * u32_of(y as int),
{
    let a = usize_of(x as int) as int;
    let b = usize_of(y as int) as int;
    let m = usize::MAX as int;
    assert(m >= 0xffff_ffff);
    if x < 0 {
        assert(a == x + m + 1);
        assert(a >= m + 1 - 0x8000_0000);
        if b >= 1 {
            assert(4 * a * b >= 4 * a) by (nonlinear_arith)
                requires b >= 1, a >= 0;
            assert(false);
        }
        assert(b == 0);
        if y < 0 {
            assert(b == y + m + 1);
            assert(false);
        }
        assert(u32_of(y as int) == 0);
        assert(4 * u32_of(x as int) * u32_of(y as int) == 0) by (nonlinear_arith)
            requires u32_of(y as int) == 0;
        assert(4 * a * b == 0) by (nonlinear_arith)
            requires b == 0;
    } else if y < 0 {
        assert(b == y + m + 1);
        assert(b >= m + 1 - 0x8000_0000);
        if a >= 1 {
            assert(4 * a * b >= 4 * b) by (nonlinear_arith)
                requires a >= 1, b >= 0;
            assert(false);
        }
        assert(a == 0);
        assert(u32_of(x as int) == 0);
        assert(4 * u32_of(x as int) * u32_of(y as int) == 0) by (nonlinear_arith)
            requires u32_of(x as int) == 0;
        assert(4 * a * b == 0) by (nonlinear_arith)
            requires a == 0;
    }
}

/// Parses a `Texture2D`'s `.uexp` and decodes its largest (first) mip to
/// RGBA8; `uasset_bytes` is read only for its Name Table (see `texture`).
/// A decoded texture holds four bytes per pixel.
pub fn decode_texture2d(uasset_bytes: &[u8], uexp_bytes: &[u8]) -> (r: Result<DecodedTexture, AssetError>)
    ensures
        match r {
            Ok(tex) => texture(uasset_bytes@, uexp_bytes@) == Ok::<(int, int, Seq<u8>), Fault>(
                (tex.width as int, tex.height as int, tex.rgba@),
            ),
            Err(e) => texture(uasset_bytes@, uexp_bytes@) == Err::<(int, int, Seq<u8>), Fault>(e.fault()),
        },
        r matches Ok(tex) ==> tex.rgba@.len() == 4 * tex.width * tex.height,
{
    let names = read_name_table(uasset_bytes)?;
    let mut t = TexReader { r: ByteReader::new(uexp_bytes), names: names.as_slice() };
    let ghost nv = t.names_view();
    let ghost d = uexp_bytes@;
    let mut more = true;
    while more
        invariant
            t.names_view() == nv,
            t.r.data() == d,
            d == uexp_bytes@,
            name_table(uasset_bytes@) == Ok::<Seq<Seq<char>>, Fault>(nv),
            more ==> properties_end(nv, d, t.r.cursor()) == properties_end(nv, d, 0),
            !more ==> properties_end(nv, d, 0) == Ok::<int, Fault>(t.r.cursor()),
        decreases room(d, t.r.cursor()) + if more {
            1int
        } else {
            0
        },
    {
        let ghost p = t.r.cursor();
        proof {
            lemma_property_advances(nv, d, p);
        }
        match skip_property(&mut t) {
            Ok(m) => {
                more = m;
            },
            Err(e) => {
                return Err(e);
            },
        }
    }
    let pixel_format = read_platform(&mut t)?;
    t.r.i32()?;
    let mip_count = t.r.i32()?;
    if mip_count <= 0 {
        return Err(AssetError::NoMips);
    }
    let (x, y, payload) = read_first_mip(&mut t.r, mip_count)?;
    let rgba = decode_block_compressed(pixel_format.as_str(), to_usize(x), to_usize(y), payload.as_slice())?;
    proof {
        lemma_rgba_dims(x, y, rgba@.len() as int);
    }
    Ok(DecodedTexture { width: to_u32(x), height: to_u32(y), rgba })
}

} // verus!
