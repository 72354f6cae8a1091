//! A reader for the part of Unreal's `.uasset` package header that the
//! builder needs: the Name Table. Everything else in the header (custom
//! versions, package name, flags) is read just far enough to skip it.
//!
//! Icarus's cooked UE 4.25 packages are saved "unversioned" with zero
//! custom versions, which fixes the exact set of fields present. This is
//! not a general-purpose uasset reader.

use vstd::prelude::*;
use crate::text::to_string;

verus! {

/// What went wrong reading an asset.
pub enum AssetError {
    /// The data ended before a field could be read.
    UnexpectedEof,
    /// The file does not start with the package tag; the tag found.
    BadMagic(u32),
    /// An FName index outside the name table, and the table's length.
    NameIndexOutOfRange { index: i32, names: usize },
    /// The texture carries no cooked platform data.
    NoPlatformData,
    /// The texture declares no mips.
    NoMips,
    /// A pixel format that cannot be decoded.
    UnsupportedFormat(String),
    /// A `PF_B8G8R8A8` payload shorter than its image.
    PayloadTooShort,
    /// The block decoder's own message.
    Decode(String),
    /// A length or size whose arithmetic leaves the machine's integers: a
    /// string length of `i32::MIN`, a property whose end lies beyond the
    /// largest position, an image whose byte count does not fit.
    Malformed,
}

/// `AssetError` as a value of specifications.
pub enum Fault {
    UnexpectedEof,
    BadMagic(int),
    NameIndexOutOfRange(int, int),
    NoPlatformData,
    NoMips,
    UnsupportedFormat(Seq<char>),
    PayloadTooShort,
    Decode(Seq<char>),
    Malformed,
}

impl AssetError {
    pub open spec fn fault(&self) -> Fault {
        match self {
            AssetError::UnexpectedEof => Fault::UnexpectedEof,
            AssetError::BadMagic(t) => Fault::BadMagic(*t as int),
            AssetError::NameIndexOutOfRange { index, names } => Fault::NameIndexOutOfRange(
                *index as int,
                *names as int,
            ),
            AssetError::NoPlatformData => Fault::NoPlatformData,
            AssetError::NoMips => Fault::NoMips,
            AssetError::UnsupportedFormat(s) => Fault::UnsupportedFormat(s@),
            AssetError::PayloadTooShort => Fault::PayloadTooShort,
            AssetError::Decode(s) => Fault::Decode(s@),
            AssetError::Malformed => Fault::Malformed,
        }
    }
}

/// The `n` bytes of `d` at position `p`, if all of them are there. Reading
/// nothing always succeeds, wherever the position is.
pub open spec fn take_at(d: Seq<u8>, p: int, n: int) -> Option<Seq<u8>> {
    if n == 0 {
        Some(Seq::empty())
    } else if 0 <= p && 0 < n && p + n <= d.len() {
        Some(d.subrange(p, p + n))
    } else {
        None
    }
}

/// The unsigned little-endian value of `b`.
pub open spec fn le_value(b: Seq<u8>) -> nat
    decreases b.len(),
{
    if b.len() == 0 {
        0
    } else {
        b[0] as nat + 256 * le_value(b.drop_first())
    }
}

/// `v` read as a two's-complement 32-bit number.
pub open spec fn signed32(v: nat) -> int {
    if v < 0x8000_0000 {
        v as int
    } else {
        v - 0x1_0000_0000
    }
}

/// `v` read as a two's-complement 64-bit number.
pub open spec fn signed64(v: nat) -> int {
    if v < 0x8000_0000_0000_0000 {
        v as int
    } else {
        v - 0x1_0000_0000_0000_0000
    }
}

/// The byte at `p`.
pub open spec fn u8_at(d: Seq<u8>, p: int) -> Option<int> {
    match take_at(d, p, 1) {
        Some(b) => Some(b[0] as int),
        None => None,
    }
}

/// The little-endian `u32` at `p`.
pub open spec fn u32_at(d: Seq<u8>, p: int) -> Option<int> {
    match take_at(d, p, 4) {
        Some(b) => Some(le_value(b) as int),
        None => None,
    }
}

/// The little-endian `i32` at `p`.
pub open spec fn i32_at(d: Seq<u8>, p: int) -> Option<int> {
    match take_at(d, p, 4) {
        Some(b) => Some(signed32(le_value(b))),
        None => None,
    }
}

/// The little-endian `i64` at `p`.
pub open spec fn i64_at(d: Seq<u8>, p: int) -> Option<int> {
    match take_at(d, p, 8) {
        Some(b) => Some(signed64(le_value(b))),
        None => None,
    }
}

/// The text of UTF-8 bytes, each invalid sequence replaced by U+FFFD, as
/// `String::from_utf8_lossy` gives it.
pub uninterp spec fn utf8_lossy(b: Seq<u8>) -> Seq<char>;

/// The text of UTF-16 code units, each unpaired surrogate replaced by
/// U+FFFD, as `String::from_utf16_lossy` gives it.
pub uninterp spec fn utf16_lossy(u: Seq<u16>) -> Seq<char>;

/// Whether every byte is ASCII.
pub open spec fn all_ascii(b: Seq<u8>) -> bool {
    forall|i: int| 0 <= i < b.len() ==> #[trigger] b[i] < 128
}

/// Whether every code unit is ASCII.
pub open spec fn all_ascii_units(u: Seq<u16>) -> bool {
    forall|i: int| 0 <= i < u.len() ==> #[trigger] u[i] < 128
}

/// The little-endian code units of `b`, two bytes each.
pub open spec fn utf16_units(b: Seq<u8>) -> Seq<u16> {
    Seq::new(b.len() / 2, |i: int| (b[2 * i] + 256 * b[2 * i + 1]) as u16)
}

/// The text of UTF-8 bytes: ASCII bytes as the same characters, anything
/// else as `String::from_utf8_lossy` decodes it.
pub open spec fn utf8_text(b: Seq<u8>) -> Seq<char> {
    if all_ascii(b) {
        b.map_values(|x: u8| x as char)
    } else {
        utf8_lossy(b)
    }
}

/// The text of UTF-16 code units: ASCII units as the same characters,
/// anything else as `String::from_utf16_lossy` decodes it.
pub open spec fn utf16_text(u: Seq<u16>) -> Seq<char> {
    if all_ascii_units(u) {
        u.map_values(|x: u16| x as char)
    } else {
        utf16_lossy(u)
    }
}

/// The length-prefixed `FString` at `p`, and the position after it: a
/// positive length counts UTF-8 bytes, a negative one UTF-16 code units,
/// both including a trailing NUL that is dropped. ASCII text reads as the
/// same characters.
pub open spec fn fstring_at(d: Seq<u8>, p: int) -> Result<(Seq<char>, int), Fault> {
    match i32_at(d, p) {
        None => Err(Fault::UnexpectedEof),
        Some(len) => {
            let q = p + 4;
            if len == 0 {
                Ok((Seq::empty(), q))
            } else if len > 0 {
                match take_at(d, q, len) {
                    Some(b) => Ok((utf8_text(b.take(len - 1)), q + len)),
                    None => Err(Fault::UnexpectedEof),
                }
            } else if len == -0x8000_0000 {
                Err(Fault::Malformed)
            } else {
                match take_at(d, q, -2 * len) {
                    Some(b) => Ok((utf16_text(utf16_units(b).take(-len - 1)), q - 2 * len)),
                    None => Err(Fault::UnexpectedEof),
                }
            }
        },
    }
}

/// Decodes UTF-8 bytes, replacing invalid sequences.
///
/// Trusted: calls `String::from_utf8_lossy`, documented to decode valid
/// UTF-8 as it is and to replace each invalid sequence with U+FFFD. The
/// contract claims the result is a function of the bytes, named
/// `utf8_lossy`, and that ASCII bytes decode to the same characters.
#[verifier::external_body]
fn from_utf8_lossy(b: &[u8]) -> (r: String)
    ensures
        r@ == utf8_lossy(b@),
        all_ascii(b@) ==> r@ == b@.map_values(|x: u8| x as char),
{
    String::from_utf8_lossy(b).into_owned()
}

/// Decodes UTF-16 code units, replacing unpaired surrogates.
///
/// Trusted: calls `String::from_utf16_lossy`, documented to decode valid
/// UTF-16 as it is and to replace each unpaired surrogate with U+FFFD. The
/// contract claims the result is a function of the units, named
/// `utf16_lossy`, and that ASCII units decode to the same characters.
#[verifier::external_body]
fn from_utf16_lossy(u: &[u16]) -> (r: String)
    ensures
        r@ == utf16_lossy(u@),
        all_ascii_units(u@) ==> r@ == u@.map_values(|x: u16| x as char),
{
    String::from_utf16_lossy(u)
}

proof fn lemma_le_value_4(b: Seq<u8>)
    requires
        b.len() == 4,
    ensures
        le_value(b) == b[0] + 256 * b[1] + 65536 * b[2] + 16777216 * b[3],
{
    reveal_with_fuel(le_value, 5);
    assert(b.drop_first().drop_first().drop_first().drop_first().len() == 0);
}

proof fn lemma_le_value_8(b: Seq<u8>)
    requires
        b.len() == 8,
    ensures
        le_value(b) == le_value(seq![b[0], b[1], b[2], b[3]]) + 4294967296 * le_value(
            seq![b[4], b[5], b[6], b[7]],
        ),
{
    reveal_with_fuel(le_value, 9);
    lemma_le_value_4(seq![b[0], b[1], b[2], b[3]]);
    lemma_le_value_4(seq![b[4], b[5], b[6], b[7]]);
    let t = b.drop_first().drop_first().drop_first().drop_first();
    assert(t =~= seq![b[4], b[5], b[6], b[7]]);
    assert(t.drop_first().drop_first().drop_first().drop_first().len() == 0);
}

/// The unsigned value of four bytes, low byte first.
fn le_u32(b0: u8, b1: u8, b2: u8, b3: u8) -> (r: u32)
    ensures
        r == le_value(seq![b0, b1, b2, b3]),
{
    proof {
        lemma_le_value_4(seq![b0, b1, b2, b3]);
    }
    b0 as u32 + 256 * (b1 as u32) + 65536 * (b2 as u32) + 16777216 * (b3 as u32)
}

/// `v` as a two's-complement `i32`.
fn u32_to_i32(v: u32) -> (r: i32)
    ensures
        r == signed32(v as nat),
{
    if v < 0x8000_0000 {
        v as i32
    } else {
        (v as i64 - 0x1_0000_0000) as i32
    }
}

/// Sequential access to a byte buffer, as a cursor over it.
///
/// A read that runs past the end fails and leaves the cursor at the end; a
/// successful one moves it past what was read. The cursor may be set past
/// the end, where every read of at least one byte fails.
pub struct ByteReader<'a> {
    data: &'a [u8],
    pos: u64,
}

impl<'a> ByteReader<'a> {
    /// The bytes read from.
    pub closed spec fn data(&self) -> Seq<u8> {
        self.data@
    }

    /// The cursor.
    pub closed spec fn cursor(&self) -> int {
        self.pos as int
    }

    /// A reader at the start of `data`.
    pub fn new(data: &'a [u8]) -> (r: Self)
        ensures
            r.data() == data@,
            r.cursor() == 0,
    {
        ByteReader { data, pos: 0 }
    }

    /// The cursor.
    pub fn pos(&self) -> (r: u64)
        ensures
            r == self.cursor(),
    {
        self.pos
    }

    /// Moves the cursor, also past the end.
    pub fn set_pos(&mut self, pos: u64)
        ensures
            final(self).data() == old(self).data(),
            final(self).cursor() == pos,
    {
        self.pos = pos;
    }

    /// Takes `n` bytes (at least one): their start on success, with the
    /// cursor past them; nothing, with the cursor at the end, when they are
    /// not all there.
    fn take(&mut self, n: u64) -> (r: Option<usize>)
        requires
            n > 0,
        ensures
            final(self).data() == old(self).data(),
            match r {
                Some(s) => take_at(old(self).data(), old(self).cursor(), n as int) is Some
                    && s == old(self).cursor() && s + n <= old(self).data().len()
                    && final(self).cursor() == old(self).cursor() + n,
                None => take_at(old(self).data(), old(self).cursor(), n as int) is None
                    && final(self).cursor() == old(self).data().len(),
            },
    {
        let len = self.data.len();
        if self.pos <= len as u64 && n <= len as u64 - self.pos {
            let s = self.pos as usize;
            self.pos = self.pos + n;
            Some(s)
        } else {
            self.pos = len as u64;
            None
        }
    }

    /// One byte.
    pub fn u8(&mut self) -> (r: Result<u8, AssetError>)
        ensures
            final(self).data() == old(self).data(),
            match r {
                Ok(v) => u8_at(old(self).data(), old(self).cursor()) == Some(v as int)
                    && final(self).cursor() == old(self).cursor() + 1,
                Err(e) => u8_at(old(self).data(), old(self).cursor()) is None && e is UnexpectedEof
                    && final(self).cursor() == old(self).data().len(),
            },
    {
        match self.take(1) {
            Some(s) => {
                let v = self.data[s];
                assert(take_at(self.data@, s as int, 1).unwrap()[0] == v);
                Ok(v)
            },
            None => Err(AssetError::UnexpectedEof),
        }
    }

    fn word(&mut self) -> (r: Option<u32>)
        ensures
            final(self).data() == old(self).data(),
            match r {
                Some(v) => u32_at(old(self).data(), old(self).cursor()) == Some(v as int)
                    && final(self).cursor() == old(self).cursor() + 4,
                None => u32_at(old(self).data(), old(self).cursor()) is None
                    && final(self).cursor() == old(self).data().len(),
            },
    {
        match self.take(4) {
            Some(s) => {
                let v = le_u32(self.data[s], self.data[s + 1], self.data[s + 2], self.data[s + 3]);
                assert(self.data@.subrange(s as int, s + 4) =~= seq![
                    self.data@[s as int],
                    self.data@[s + 1],
                    self.data@[s + 2],
                    self.data@[s + 3],
                ]);
                Some(v)
            },
            None => None,
        }
    }

    /// A little-endian `i32`.
    pub fn i32(&mut self) -> (r: Result<i32, AssetError>)
        ensures
            final(self).data() == old(self).data(),
            match r {
                Ok(v) => i32_at(old(self).data(), old(self).cursor()) == Some(v as int)
                    && final(self).cursor() == old(self).cursor() + 4,
                Err(e) => i32_at(old(self).data(), old(self).cursor()) is None && e is UnexpectedEof
                    && final(self).cursor() == old(self).data().len(),
            },
    {
        match self.word() {
            Some(w) => Ok(u32_to_i32(w)),
            None => Err(AssetError::UnexpectedEof),
        }
    }

    /// A little-endian `u32`.
    pub fn u32(&mut self) -> (r: Result<u32, AssetError>)
        ensures
            final(self).data() == old(self).data(),
            match r {
                Ok(v) => u32_at(old(self).data(), old(self).cursor()) == Some(v as int)
                    && final(self).cursor() == old(self).cursor() + 4,
                Err(e) => u32_at(old(self).data(), old(self).cursor()) is None && e is UnexpectedEof
                    && final(self).cursor() == old(self).data().len(),
            },
    {
        match self.word() {
            Some(w) => Ok(w),
            None => Err(AssetError::UnexpectedEof),
        }
    }

    /// A little-endian `i64`.
    pub fn i64(&mut self) -> (r: Result<i64, AssetError>)
        ensures
            final(self).data() == old(self).data(),
            match r {
                Ok(v) => i64_at(old(self).data(), old(self).cursor()) == Some(v as int)
                    && final(self).cursor() == old(self).cursor() + 8,
                Err(e) => i64_at(old(self).data(), old(self).cursor()) is None && e is UnexpectedEof
                    && final(self).cursor() == old(self).data().len(),
            },
    {
        match self.take(8) {
            Some(s) => {
                let d = self.data;
                let lo = le_u32(d[s], d[s + 1], d[s + 2], d[s + 3]);
                let hi = le_u32(d[s + 4], d[s + 5], d[s + 6], d[s + 7]);
                let v: u64 = lo as u64 + 4294967296 * (hi as u64);
                proof {
                    let b = d@.subrange(s as int, s + 8);
                    lemma_le_value_8(b);
                }
                let r: i64 = if v < 0x8000_0000_0000_0000 {
                    v as i64
                } else {
                    (v as i128 - 0x1_0000_0000_0000_0000) as i64
                };
                Ok(r)
            },
            None => Err(AssetError::UnexpectedEof),
        }
    }

    /// `n` raw bytes.
    pub fn bytes(&mut self, n: usize) -> (r: Result<Vec<u8>, AssetError>)
        ensures
            final(self).data() == old(self).data(),
            match r {
                Ok(v) => take_at(old(self).data(), old(self).cursor(), n as int) == Some(v@)
                    && final(self).cursor() == old(self).cursor() + n,
                Err(e) => take_at(old(self).data(), old(self).cursor(), n as int) is None
                    && e is UnexpectedEof && final(self).cursor() == old(self).data().len(),
            },
    {
        self.bytes64(n as u64)
    }

    /// `n` raw bytes, the count given as a `u64`.
    pub(crate) fn bytes64(&mut self, n: u64) -> (r: Result<Vec<u8>, AssetError>)
        ensures
            final(self).data() == old(self).data(),
            match r {
                Ok(v) => take_at(old(self).data(), old(self).cursor(), n as int) == Some(v@)
                    && final(self).cursor() == old(self).cursor() + n,
                Err(e) => take_at(old(self).data(), old(self).cursor(), n as int) is None
                    && e is UnexpectedEof && final(self).cursor() == old(self).data().len(),
            },
    {
        if n == 0 {
            return Ok(Vec::new());
        }
        match self.take(n) {
            Some(s) => {
                let mut out: Vec<u8> = Vec::new();
                let d = self.data;
                let m = n as usize;
                for i in 0..m
                    invariant
                        s + m <= d@.len(),
                        d@.len() == d.len(),
                        out@ == d@.subrange(s as int, s + i),
                {
                    out.push(d[s + i]);
                    assert(d@.subrange(s as int, s + i + 1) =~= d@.subrange(s as int, s + i).push(
                        d@[s + i],
                    ));
                }
                Ok(out)
            },
            None => Err(AssetError::UnexpectedEof),
        }
    }

    /// A little-endian `i32` read as a flag: anything but zero is true.
    pub fn bool32(&mut self) -> (r: Result<bool, AssetError>)
        ensures
            final(self).data() == old(self).data(),
            match r {
                Ok(v) => i32_at(old(self).data(), old(self).cursor()) matches Some(x) && v == (x != 0)
                    && final(self).cursor() == old(self).cursor() + 4,
                Err(e) => i32_at(old(self).data(), old(self).cursor()) is None && e is UnexpectedEof
                    && final(self).cursor() == old(self).data().len(),
            },
    {
        let v = self.i32()?;
        Ok(v != 0)
    }

    /// A length-prefixed `FString` (see `fstring_at`).
    pub fn fstring(&mut self) -> (r: Result<String, AssetError>)
        ensures
            final(self).data() == old(self).data(),
            match r {
                Ok(s) => fstring_at(old(self).data(), old(self).cursor()) matches Ok((t, q)) && s@ == t
                    && final(self).cursor() == q,
                Err(e) => fstring_at(old(self).data(), old(self).cursor()) == Err::<(Seq<char>, int), Fault>(
                    e.fault(),
                ),
            },
    {
        let ghost d = self.data();
        let ghost p = self.cursor();
        let len = match self.i32() {
            Ok(v) => v,
            Err(e) => {
                return Err(e);
            },
        };
        if len == 0 {
            return Ok(String::new());
        }
        if len > 0 {
            let b = match self.bytes(len as usize) {
                Ok(b) => b,
                Err(e) => {
                    return Err(e);
                },
            };
            let mut b = b;
            let keep = b.len() - 1;
            b.truncate(keep);
            Ok(from_utf8_lossy(b.as_slice()))
        } else if len == i32::MIN {
            Err(AssetError::Malformed)
        } else {
            let n = (-len) as usize;
            let b = match self.bytes(n * 2) {
                Ok(b) => b,
                Err(e) => {
                    return Err(e);
                },
            };
            let mut units: Vec<u16> = Vec::new();
            for k in 0..n - 1
                invariant
                    b@.len() == 2 * n,
                    b.len() == 2 * n,
                    n >= 1,
                    units@ == utf16_units(b@).take(k as int),
            {
                let u = (b[2 * k] as u16) + 256 * (b[2 * k + 1] as u16);
                units.push(u);
                assert(units@ =~= utf16_units(b@).take(k + 1));
            }
            Ok(from_utf16_lossy(units.as_slice()))
        }
    }
}

/// The tag every package file starts with.
pub const PACKAGE_FILE_TAG: u32 = 0x9E2A83C1;

/// The names of the Name Table starting at `p`, `count` of them, each an
/// `FString` followed by two `u16` hashes, and the position after them.
pub open spec fn names_at(d: Seq<u8>, p: int, count: nat) -> Result<(Seq<Seq<char>>, int), Fault>
    decreases count,
{
    if count == 0 {
        Ok((Seq::empty(), p))
    } else {
        match names_at(d, p, (count - 1) as nat) {
            Err(e) => Err(e),
            Ok((ns, q)) => match fstring_at(d, q) {
                Err(e) => Err(e),
                Ok((s, q2)) => match take_at(d, q2, 4) {
                    None => Err(Fault::UnexpectedEof),
                    Some(_) => Ok((ns.push(s), q2 + 4)),
                },
            },
        }
    }
}

/// `v` read as a `u64`, two's complement for negatives.
pub open spec fn as_u64(v: int) -> int {
    if v >= 0 {
        v
    } else {
        v + 0x1_0000_0000_0000_0000
    }
}

/// Where the custom version count of a `.uasset` file stands: after the
/// tag and the legacy version come the version fields that the legacy
/// version implies (UE3 unless it is -4, UE4, UE5 from -8 on, licensee).
pub open spec fn versions_end(d: Seq<u8>) -> Result<int, Fault> {
    match u32_at(d, 0) {
        None => Err(Fault::UnexpectedEof),
        Some(tag) => if tag != PACKAGE_FILE_TAG {
            Err(Fault::BadMagic(tag))
        } else {
            match i32_at(d, 4) {
                None => Err(Fault::UnexpectedEof),
                Some(legacy) => {
                    let p_cv = (if legacy != -4 {
                        12int
                    } else {
                        8int
                    }) + 4 + (if legacy <= -8 {
                        4int
                    } else {
                        0int
                    }) + 4;
                    if p_cv > d.len() {
                        Err(Fault::UnexpectedEof)
                    } else {
                        Ok(p_cv)
                    }
                },
            }
        },
    }
}

/// Where the header size stands, after the custom versions counted at `p`
/// (a 16-byte GUID and a version each; none for a count below one).
pub open spec fn custom_versions_end(d: Seq<u8>, p: int) -> Option<int> {
    match i32_at(d, p) {
        None => None,
        Some(cv) => Some(p + 4 + 20 * (if cv > 0 {
            cv
        } else {
            0
        })),
    }
}

/// The name count and name offset of a `.uasset` file: after the custom
/// versions come the header size, the package name and the package flags.
pub open spec fn name_table_header(d: Seq<u8>) -> Result<(int, int), Fault> {
    match versions_end(d) {
        Err(e) => Err(e),
        Ok(p_cv) => match custom_versions_end(d, p_cv) {
            None => Err(Fault::UnexpectedEof),
            Some(p_size) => if p_size + 4 > d.len() {
                Err(Fault::UnexpectedEof)
            } else {
                match fstring_at(d, p_size + 4) {
                    Err(e) => Err(e),
                    Ok((_, q)) => match (i32_at(d, q + 4), i32_at(d, q + 8)) {
                        (Some(count), Some(offset)) => Ok((count, offset)),
                        _ => Err(Fault::UnexpectedEof),
                    },
                }
            },
        },
    }
}

/// The Name Table of a `.uasset` file: as many names as the header counts
/// (none for a count below one), read from the header's name offset.
pub open spec fn name_table(d: Seq<u8>) -> Result<Seq<Seq<char>>, Fault> {
    match name_table_header(d) {
        Err(e) => Err(e),
        Ok((count, offset)) => match names_at(
            d,
            as_u64(offset),
            if count > 0 {
                count as nat
            } else {
                0
            },
        ) {
            Ok((ns, _)) => Ok(ns),
            Err(e) => Err(e),
        },
    }
}

fn skip_versions(r: &mut ByteReader) -> (res: Result<(), AssetError>)
    requires
        old(r).cursor() == 0,
    ensures
        final(r).data() == old(r).data(),
        match res {
            Ok(_) => versions_end(old(r).data()) == Ok::<int, Fault>(final(r).cursor()),
            Err(e) => versions_end(old(r).data()) == Err::<int, Fault>(e.fault()),
        },
{
    let tag = r.u32()?;
    if tag != PACKAGE_FILE_TAG {
        return Err(AssetError::BadMagic(tag));
    }
    let legacy_version = r.i32()?;
    if legacy_version != -4 {
        r.i32()?;
    }
    r.i32()?;
    if legacy_version <= -8 {
        r.i32()?;
    }
    r.i32()?;
    Ok(())
}

fn skip_custom_versions(r: &mut ByteReader) -> (res: Result<(), AssetError>)
    ensures
        final(r).data() == old(r).data(),
        match res {
            Ok(_) => custom_versions_end(old(r).data(), old(r).cursor()) == Some(final(r).cursor())
                && final(r).cursor() <= old(r).data().len(),
            Err(e) => e is UnexpectedEof && match custom_versions_end(old(r).data(), old(r).cursor()) {
                None => true,
                Some(q) => q > old(r).data().len(),
            },
        },
{
    let ghost d = r.data();
    let ghost p = r.cursor();
    let cv_count = r.i32()?;
    let mut k: i32 = 0;
    while k < cv_count
        invariant
            r.data() == d,
            d == old(r).data(),
            p == old(r).cursor(),
            0 <= k,
            cv_count > 0 ==> k <= cv_count,
            cv_count <= 0 ==> k == 0,
            r.cursor() == p + 4 + 20 * k,
            r.cursor() <= d.len(),
            custom_versions_end(d, p) == Some(p + 4 + 20 * (if cv_count > 0 { cv_count as int } else { 0 })),
        decreases cv_count - k,
    {
        match r.bytes(16) {
            Ok(_) => {},
            Err(e) => {
                return Err(e);
            },
        }
        match r.i32() {
            Ok(_) => {},
            Err(e) => {
                return Err(e);
            },
        }
        k = k + 1;
    }
    Ok(())
}

fn read_header(r: &mut ByteReader) -> (res: Result<(i32, i32), AssetError>)
    requires
        old(r).cursor() == 0,
    ensures
        final(r).data() == old(r).data(),
        match res {
            Ok((count, offset)) => name_table_header(old(r).data()) == Ok::<(int, int), Fault>(
                (count as int, offset as int),
            ),
            Err(e) => name_table_header(old(r).data()) == Err::<(int, int), Fault>(e.fault()),
        },
{
    skip_versions(r)?;
    skip_custom_versions(r)?;
    r.i32()?;
    r.fstring()?;
    r.u32()?;
    let name_count = r.i32()?;
    let name_offset = r.i32()?;
    Ok((name_count, name_offset))
}

/// Reads just the Name Table out of a `.uasset` file's bytes.
pub fn read_name_table(uasset_bytes: &[u8]) -> (r: Result<Vec<String>, AssetError>)
    ensures
        match r {
            Ok(names) => name_table(uasset_bytes@) == Ok::<Seq<Seq<char>>, Fault>(
                names@.map_values(|s: String| s@),
            ),
            Err(e) => name_table(uasset_bytes@) == Err::<Seq<Seq<char>>, Fault>(e.fault()),
        },
{
    let ghost d = uasset_bytes@;
    let mut r = ByteReader::new(uasset_bytes);
    let (name_count, name_offset) = read_header(&mut r)?;
    let off: u64 = if name_offset >= 0 {
        name_offset as u64
    } else {
        u64::MAX - ((-(name_offset + 1)) as u64)
    };
    assert(off as int == as_u64(name_offset as int));
    r.set_pos(off);
    let ghost count: nat = if name_count > 0 {
        name_count as nat
    } else {
        0
    };
    let mut names: Vec<String> = Vec::new();
    assert(names@.map_values(|s: String| s@) =~= Seq::<Seq<char>>::empty());
    let mut i: i32 = 0;
    while i < name_count
        invariant
            r.data() == d,
            0 <= i,
            name_count > 0 ==> i <= name_count,
            name_count <= 0 ==> i == 0,
            count == (if name_count > 0 { name_count as nat } else { 0 }),
            d == uasset_bytes@,
            off as int == as_u64(name_offset as int),
            name_table_header(d) == Ok::<(int, int), Fault>((name_count as int, name_offset as int)),
            names_at(d, off as int, i as nat) == Ok::<(Seq<Seq<char>>, int), Fault>(
                (names@.map_values(|s: String| s@), r.cursor()),
            ),
        decreases name_count - i,
    {
        let s = match r.fstring() {
            Ok(s) => s,
            Err(e) => {
                assert(names_at(d, off as int, (i + 1) as nat) == Err::<(Seq<Seq<char>>, int), Fault>(
                    e.fault(),
                ));
                proof {
                    lemma_names_fail_later(d, off as int, (i + 1) as nat, count);
                }
                return Err(e);
            },
        };
        match r.bytes(4) {
            Ok(_) => {},
            Err(e) => {
                assert(names_at(d, off as int, (i + 1) as nat) == Err::<(Seq<Seq<char>>, int), Fault>(
                    e.fault(),
                ));
                proof {
                    lemma_names_fail_later(d, off as int, (i + 1) as nat, count);
                }
                return Err(e);
            },
        }
        let ghost old_names = names@;
        names.push(s);
        assert(names@.map_values(|s: String| s@) =~= old_names.map_values(|s: String| s@).push(s@));
        i = i + 1;
    }
    Ok(names)
}

/// Once reading the first `k` names fails, reading more fails the same way.
proof fn lemma_names_fail_later(d: Seq<u8>, p: int, k: nat, count: nat)
    requires
        k <= count,
        names_at(d, p, k) is Err,
    ensures
        names_at(d, p, count) == names_at(d, p, k),
    decreases count - k,
{
    if k < count {
        lemma_names_fail_later(d, p, k, (count - 1) as nat);
    }
}

} // verus!
