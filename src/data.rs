//! Big-endian primitives in the layout of Java's `DataInput` and
//! `DataOutput`: booleans, 32-bit integers, UTF-16 code units and
//! length-prefixed modified UTF-8 strings.
use vstd::prelude::*;

use byteorder::{BigEndian, ByteOrder};

verus! {

/// The byte stream is not a well-formed table: a short read, a negative
/// length, a bad code unit, bad modified UTF-8, or an invalid command.
#[derive(Clone, Copy, Debug, PartialEq, Eq, Structural)]
pub enum DataError {
    InvalidData,
}

/// The 16-bit big-endian value at `b[p..p + 2]`.
pub open spec fn be16_at(b: Seq<u8>, p: int) -> u16 {
    ((b[p] as u16) << 8u16) | (b[p + 1] as u16)
}

/// The 32-bit big-endian value at `b[p..p + 4]`.
pub open spec fn be32_at(b: Seq<u8>, p: int) -> u32 {
    ((b[p] as u32) << 24u32) | ((b[p + 1] as u32) << 16u32) | ((b[p + 2] as u32) << 8u32) | (b[p
        + 3] as u32)
}

/// The two bytes of `x`, most significant first.
pub open spec fn be16_bytes(x: u16) -> Seq<u8> {
    seq![(x >> 8u16) as u8, x as u8]
}

/// The four bytes of `x`, most significant first.
pub open spec fn be32_bytes(x: u32) -> Seq<u8> {
    seq![(x >> 24u32) as u8, (x >> 16u32) as u8, (x >> 8u32) as u8, x as u8]
}

/// The signed value of 32 bits in two's complement.
pub open spec fn signed32(x: u32) -> int {
    if x <= I32_MAX {
        x as int
    } else {
        x - 0x1_0000_0000
    }
}

/// The two's-complement bits of `v`.
pub open spec fn bits32(v: i32) -> u32 {
    if v >= 0 {
        v as u32
    } else {
        (v + 0x1_0000_0000) as u32
    }
}

/// The largest value of a non-negative Java `int`.
pub const I32_MAX: u32 = 0x7fff_ffff;

/// The bits of an absent index: Java's `-1`.
pub const ABSENT: u32 = 0xffff_ffff;

/// The text that Java's modified UTF-8 bytes `b` decode to, if they are well
/// formed.
pub uninterp spec fn java_cesu8_decode(b: Seq<u8>) -> Option<Seq<char>>;

/// The modified UTF-8 bytes of the text `s`.
pub uninterp spec fn java_cesu8_encode(s: Seq<char>) -> Seq<u8>;

/// Relies on byteorder's `BigEndian::read_u16`: the value of the first two
/// bytes of its argument, most significant first.
#[verifier::external_body]
fn read_be_u16(b: &[u8], at: usize) -> (r: u16)
    requires
        at + 2 <= b@.len(),
    ensures
        r == be16_at(b@, at as int),
{
    BigEndian::read_u16(&b[at..])
}

/// Relies on byteorder's `BigEndian::read_u32`: the value of the first four
/// bytes of its argument, most significant first.
#[verifier::external_body]
fn read_be_u32(b: &[u8], at: usize) -> (r: u32)
    requires
        at + 4 <= b@.len(),
    ensures
        r == be32_at(b@, at as int),
{
    BigEndian::read_u32(&b[at..])
}

/// Relies on byteorder's `BigEndian::write_u16`: the two bytes of `x`, most
/// significant first.
#[verifier::external_body]
fn be_u16_bytes(x: u16) -> (r: Vec<u8>)
    ensures
        r@ == be16_bytes(x),
{
    let mut b = vec![0u8; 2];
    BigEndian::write_u16(&mut b, x);
    b
}

/// Relies on byteorder's `BigEndian::write_u32`: the four bytes of `x`, most
/// significant first.
#[verifier::external_body]
fn be_u32_bytes(x: u32) -> (r: Vec<u8>)
    ensures
        r@ == be32_bytes(x),
{
    let mut b = vec![0u8; 4];
    BigEndian::write_u32(&mut b, x);
    b
}

/// Relies on `cesu8::from_java_cesu8`: the text that the bytes `b[from..to]`
/// decode to as Java's modified UTF-8, or `None` where they are not well
/// formed; the result depends on the bytes alone.
#[verifier::external_body]
fn decode_java_cesu8(b: &[u8], from: usize, to: usize) -> (r: Option<String>)
    requires
        from <= to <= b@.len(),
    ensures
        match r {
            Some(s) => java_cesu8_decode(b@.subrange(from as int, to as int)) == Some(s@),
            None => java_cesu8_decode(b@.subrange(from as int, to as int)) is None,
        },
{
    match cesu8::from_java_cesu8(&b[from..to]) {
        Ok(s) => Some(s.into_owned()),
        Err(_) => None,
    }
}

/// Relies on `cesu8::to_java_cesu8`: the modified UTF-8 bytes of `s`, at
/// least one per character, which `from_java_cesu8` decodes back to `s`.
#[verifier::external_body]
fn encode_java_cesu8(s: &str) -> (r: Vec<u8>)
    ensures
        r@ == java_cesu8_encode(s@),
        java_cesu8_decode(r@) == Some(s@),
        r@.len() >= s@.len(),
{
    cesu8::to_java_cesu8(s).into_owned()
}

/// Relies on `char::from_u32`: the character whose scalar value is `x`, or
/// `None` for a surrogate or a value above `0x10FFFF`.
#[verifier::external_body]
fn char_from_u32(x: u32) -> (r: Option<char>)
    ensures
        match r {
            Some(c) => c as u32 == x,
            None => (0xD800 <= x && x <= 0xDFFF) || x > 0x10FFFF,
        },
{
    char::from_u32(x)
}

/// A UTF-16 code unit that is a surrogate half.
pub open spec fn is_surrogate(u: u16) -> bool {
    0xD800 <= u && u <= 0xDFFF
}

/// The modified UTF-8 form of `s` decodes back to `s`, with at least one
/// byte per character.
pub open spec fn text_round_trips(s: Seq<char>) -> bool {
    &&& java_cesu8_decode(java_cesu8_encode(s)) == Some(s)
    &&& java_cesu8_encode(s).len() >= s.len()
}

/// The bytes of a string field: its modified UTF-8 length and bytes.
pub open spec fn string_bytes(s: Seq<char>) -> Seq<u8> {
    be16_bytes(java_cesu8_encode(s).len() as u16) + java_cesu8_encode(s)
}

/// The string field at `p`: a two-byte length, then that many bytes of
/// modified UTF-8.
pub open spec fn parse_string(b: Seq<u8>, p: int) -> Option<(Seq<char>, int)> {
    if 0 <= p && p + 2 <= b.len() {
        let n = be16_at(b, p) as int;
        if p + 2 + n > b.len() {
            None
        } else if n == 0 {
            Some((Seq::empty(), p + 2))
        } else {
            match java_cesu8_decode(b.subrange(p + 2, p + 2 + n)) {
                Some(s) => Some((s, p + 2 + n)),
                None => None,
            }
        }
    } else {
        None
    }
}

/// The 32-bit field at `p`, as raw bits.
pub open spec fn parse_raw32(b: Seq<u8>, p: int) -> Option<(u32, int)> {
    if 0 <= p && p + 4 <= b.len() {
        Some((be32_at(b, p), p + 4))
    } else {
        None
    }
}

/// A non-negative 32-bit field at `p`.
pub open spec fn parse_u32(b: Seq<u8>, p: int) -> Option<(u32, int)> {
    match parse_raw32(b, p) {
        Some((x, q)) => if x <= I32_MAX {
            Some((x, q))
        } else {
            None
        },
        None => None,
    }
}

/// An optional index at `p`: `-1` is absent, other negatives are invalid.
pub open spec fn parse_u32_opt(b: Seq<u8>, p: int) -> Option<(Option<u32>, int)> {
    match parse_raw32(b, p) {
        Some((x, q)) => if x == ABSENT {
            Some((None, q))
        } else if x <= I32_MAX {
            Some((Some(x), q))
        } else {
            None
        },
        None => None,
    }
}

/// The bytes of an optional index.
pub open spec fn u32_opt_bytes(x: Option<u32>) -> Seq<u8> {
    match x {
        Some(v) => be32_bytes(v),
        None => be32_bytes(ABSENT),
    }
}

/// A boolean at `p`: zero is false.
pub open spec fn parse_bool(b: Seq<u8>, p: int) -> Option<(bool, int)> {
    if 0 <= p < b.len() {
        Some((b[p] != 0, p + 1))
    } else {
        None
    }
}

pub open spec fn bool_bytes(x: bool) -> Seq<u8> {
    seq![if x { 1u8 } else { 0u8 }]
}

/// The character whose scalar value is the code unit `u`.
pub open spec fn char_of(u: u16) -> char {
    (u as u32) as char
}

/// A UTF-16 code unit at `p` that is not a surrogate half.
pub open spec fn parse_char(b: Seq<u8>, p: int) -> Option<(char, int)> {
    if 0 <= p && p + 2 <= b.len() {
        let u = be16_at(b, p);
        if is_surrogate(u) {
            None
        } else {
            Some((char_of(u), p + 2))
        }
    } else {
        None
    }
}

/// A character that one UTF-16 code unit can hold.
pub open spec fn char_fits_u16(c: char) -> bool {
    (c as u32) <= 0xFFFF
}

pub open spec fn char_bytes(c: char) -> Seq<u8> {
    be16_bytes((c as u32) as u16)
}

pub proof fn lemma_be16_round(x: u16)
    ensures
        be16_at(be16_bytes(x), 0) == x,
{
    let b = be16_bytes(x);
    let b0 = (x >> 8u16) as u8;
    let b1 = x as u8;
    assert(b[0] == b0 && b[1] == b1);
    assert((((b0 as u16) << 8u16) | (b1 as u16)) == x) by (bit_vector)
        requires
            b0 == (x >> 8u16) as u8,
            b1 == x as u8,
    ;
}

pub proof fn lemma_be32_round(x: u32)
    ensures
        be32_at(be32_bytes(x), 0) == x,
{
    let b = be32_bytes(x);
    let b0 = (x >> 24u32) as u8;
    let b1 = (x >> 16u32) as u8;
    let b2 = (x >> 8u32) as u8;
    let b3 = x as u8;
    assert(b[0] == b0 && b[1] == b1 && b[2] == b2 && b[3] == b3);
    assert((((b0 as u32) << 24u32) | ((b1 as u32) << 16u32) | ((b2 as u32) << 8u32) | (b3 as u32))
        == x) by (bit_vector)
        requires
            b0 == (x >> 24u32) as u8,
            b1 == (x >> 16u32) as u8,
            b2 == (x >> 8u32) as u8,
            b3 == x as u8,
    ;
}

/// Reads the primitives of the table format from a byte buffer.
pub struct DataInput {
    pub bytes: Vec<u8>,
    pub pos: usize,
}

/// Writes the primitives of the table format to a byte buffer.
pub struct DataOutput {
    pub bytes: Vec<u8>,
}

impl DataInput {
    /// A reader at the start of `bytes`.
    pub fn new(bytes: Vec<u8>) -> (r: DataInput)
        ensures
            r.bytes@ == bytes@,
            r.pos == 0,
    {
        DataInput { bytes, pos: 0 }
    }

    /// Reads one byte as a boolean.
    pub fn read_bool(&mut self) -> (r: Result<bool, DataError>)
        ensures
            final(self).bytes@ == old(self).bytes@,
            match parse_bool(old(self).bytes@, old(self).pos as int) {
                Some((v, q)) => r == Ok::<bool, DataError>(v) && final(self).pos == q,
                None => r is Err && final(self).pos == old(self).pos,
            },
    {
        if self.pos < self.bytes.len() {
            let v = self.bytes[self.pos] != 0;
            self.pos = self.pos + 1;
            Ok(v)
        } else {
            Err(DataError::InvalidData)
        }
    }

    fn read_raw32(&mut self) -> (r: Result<u32, DataError>)
        ensures
            final(self).bytes@ == old(self).bytes@,
            match parse_raw32(old(self).bytes@, old(self).pos as int) {
                Some((v, q)) => r == Ok::<u32, DataError>(v) && final(self).pos == q,
                None => r is Err && final(self).pos == old(self).pos,
            },
    {
        if self.bytes.len() >= 4 && self.pos <= self.bytes.len() - 4 {
            let v = read_be_u32(self.bytes.as_slice(), self.pos);
            self.pos = self.pos + 4;
            Ok(v)
        } else {
            Err(DataError::InvalidData)
        }
    }

    /// Reads a 32-bit integer that must not be negative.
    pub fn read_u32(&mut self) -> (r: Result<u32, DataError>)
        ensures
            final(self).bytes@ == old(self).bytes@,
            match parse_u32(old(self).bytes@, old(self).pos as int) {
                Some((v, q)) => r == Ok::<u32, DataError>(v) && final(self).pos == q,
                None => r is Err,
            },
    {
        let x = self.read_raw32()?;
        if x <= I32_MAX {
            Ok(x)
        } else {
            Err(DataError::InvalidData)
        }
    }

    /// Reads a signed 32-bit integer.
    pub fn read_i32(&mut self) -> (r: Result<i32, DataError>)
        ensures
            final(self).bytes@ == old(self).bytes@,
            match parse_raw32(old(self).bytes@, old(self).pos as int) {
                Some((v, q)) => r matches Ok(x) && x == signed32(v) && final(self).pos == q,
                None => r is Err,
            },
    {
        let x = self.read_raw32()?;
        let v: i32 = if x <= I32_MAX {
            x as i32
        } else {
            -((ABSENT - x) as i32) - 1
        };
        Ok(v)
    }

    /// Reads a non-negative 32-bit integer as an index.
    pub fn read_usize(&mut self) -> (r: Result<usize, DataError>)
        ensures
            final(self).bytes@ == old(self).bytes@,
            match parse_u32(old(self).bytes@, old(self).pos as int) {
                Some((v, q)) => r == Ok::<usize, DataError>(v as usize) && final(self).pos == q,
                None => r is Err,
            },
    {
        let x = self.read_u32()?;
        Ok(x as usize)
    }

    /// Reads an optional index: `-1` is absent, other negatives are invalid.
    pub fn read_u32_opt(&mut self) -> (r: Result<Option<u32>, DataError>)
        ensures
            final(self).bytes@ == old(self).bytes@,
            match parse_u32_opt(old(self).bytes@, old(self).pos as int) {
                Some((v, q)) => r == Ok::<Option<u32>, DataError>(v) && final(self).pos == q,
                None => r is Err,
            },
    {
        let x = self.read_raw32()?;
        if x == ABSENT {
            Ok(None)
        } else if x <= I32_MAX {
            Ok(Some(x))
        } else {
            Err(DataError::InvalidData)
        }
    }

    /// Reads one UTF-16 code unit as a character; a surrogate half is
    /// invalid.
    pub fn read_char(&mut self) -> (r: Result<char, DataError>)
        ensures
            final(self).bytes@ == old(self).bytes@,
            match parse_char(old(self).bytes@, old(self).pos as int) {
                Some((v, q)) => r == Ok::<char, DataError>(v) && final(self).pos == q,
                None => r is Err,
            },
    {
        if self.bytes.len() < 2 || self.pos > self.bytes.len() - 2 {
            return Err(DataError::InvalidData);
        }
        let u = read_be_u16(self.bytes.as_slice(), self.pos);
        if 0xD800 <= u && u <= 0xDFFF {
            return Err(DataError::InvalidData);
        }
        match char_from_u32(u as u32) {
            Some(c) => {
                proof {
                    vstd::utf8::char_u32_cast(c, u as u32);
                }
                self.pos = self.pos + 2;
                Ok(c)
            },
            None => Err(DataError::InvalidData),
        }
    }

    /// Reads a string: a two-byte length, then that many bytes of modified
    /// UTF-8.
    pub fn read_string(&mut self) -> (r: Result<String, DataError>)
        ensures
            final(self).bytes@ == old(self).bytes@,
            match parse_string(old(self).bytes@, old(self).pos as int) {
                Some((v, q)) => r matches Ok(s) && s@ == v && final(self).pos == q,
                None => r is Err,
            },
    {
        if self.bytes.len() < 2 || self.pos > self.bytes.len() - 2 {
            return Err(DataError::InvalidData);
        }
        let n = read_be_u16(self.bytes.as_slice(), self.pos) as usize;
        let start = self.pos + 2;
        if n > self.bytes.len() - start {
            return Err(DataError::InvalidData);
        }
        if n == 0 {
            self.pos = start;
            return Ok(String::new());
        }
        match decode_java_cesu8(self.bytes.as_slice(), start, start + n) {
            Some(s) => {
                self.pos = start + n;
                Ok(s)
            },
            None => Err(DataError::InvalidData),
        }
    }
}

impl DataOutput {
    /// An empty writer.
    pub fn new() -> (r: DataOutput)
        ensures
            r.bytes@ == Seq::<u8>::empty(),
    {
        DataOutput { bytes: Vec::new() }
    }

    fn put(&mut self, b: Vec<u8>)
        ensures
            final(self).bytes@ == old(self).bytes@ + b@,
    {
        let mut b = b;
        self.bytes.append(&mut b);
    }

    /// Writes a boolean as one byte.
    pub fn write_bool(&mut self, x: bool)
        ensures
            final(self).bytes@ == old(self).bytes@ + bool_bytes(x),
    {
        self.bytes.push(if x { 1u8 } else { 0u8 });
        assert(final(self).bytes@ =~= old(self).bytes@ + bool_bytes(x));
    }

    /// Writes a signed 32-bit integer.
    pub fn write_i32(&mut self, x: i32)
        ensures
            final(self).bytes@ == old(self).bytes@ + be32_bytes(bits32(x)),
    {
        let bits: u32 = if x >= 0 {
            x as u32
        } else {
            ABSENT - ((-(x + 1)) as u32)
        };
        self.put(be_u32_bytes(bits));
    }

    /// Writes a 32-bit integer; one above Java's `int` range is invalid.
    pub fn write_u32(&mut self, x: u32) -> (r: Result<(), DataError>)
        ensures
            x <= I32_MAX ==> r is Ok && final(self).bytes@ == old(self).bytes@ + be32_bytes(x),
            x > I32_MAX ==> r is Err && final(self).bytes@ == old(self).bytes@,
    {
        if x > I32_MAX {
            return Err(DataError::InvalidData);
        }
        self.put(be_u32_bytes(x));
        Ok(())
    }

    /// Writes an index; one above Java's `int` range is invalid.
    pub fn write_usize(&mut self, x: usize) -> (r: Result<(), DataError>)
        ensures
            x <= I32_MAX ==> r is Ok && final(self).bytes@ == old(self).bytes@ + be32_bytes(
                x as u32,
            ),
            x > I32_MAX ==> r is Err && final(self).bytes@ == old(self).bytes@,
    {
        if x > I32_MAX as usize {
            return Err(DataError::InvalidData);
        }
        self.put(be_u32_bytes(x as u32));
        Ok(())
    }

    /// Writes an optional index, `-1` when absent; one above Java's `int`
    /// range is invalid.
    pub fn write_u32_opt(&mut self, x: Option<u32>) -> (r: Result<(), DataError>)
        ensures
            (match x {
                Some(v) => v <= I32_MAX,
                None => true,
            }) ==> r is Ok && final(self).bytes@ == old(self).bytes@ + u32_opt_bytes(x),
            (match x {
                Some(v) => v > I32_MAX,
                None => false,
            }) ==> r is Err && final(self).bytes@ == old(self).bytes@,
    {
        match x {
            Some(v) => self.write_u32(v),
            None => {
                self.put(be_u32_bytes(ABSENT));
                Ok(())
            },
        }
    }

    /// Writes a character as one UTF-16 code unit; one that needs two is
    /// invalid.
    pub fn write_char(&mut self, c: char) -> (r: Result<(), DataError>)
        ensures
            char_fits_u16(c) ==> r is Ok && final(self).bytes@ == old(self).bytes@ + char_bytes(c),
            !char_fits_u16(c) ==> r is Err && final(self).bytes@ == old(self).bytes@,
    {
        let x = c as u32;
        if x > 0xFFFF {
            return Err(DataError::InvalidData);
        }
        let u = x as u16;
        self.put(be_u16_bytes(u));
        Ok(())
    }

    /// Writes a string as a two-byte length and its modified UTF-8 bytes; a
    /// string whose encoding is longer than 65535 bytes is invalid.
    pub fn write_string(&mut self, s: &str) -> (r: Result<(), DataError>)
        ensures
            java_cesu8_encode(s@).len() <= 0xFFFF ==> r is Ok && final(self).bytes@ == old(
                self,
            ).bytes@ + string_bytes(s@),
            java_cesu8_encode(s@).len() > 0xFFFF ==> r is Err && final(self).bytes@ == old(
                self,
            ).bytes@,
            text_round_trips(s@),
    {
        let enc = encode_java_cesu8(s);
        if enc.len() > 0xFFFF {
            return Err(DataError::InvalidData);
        }
        self.put(be_u16_bytes(enc.len() as u16));
        self.put(enc);
        assert(final(self).bytes@ =~= old(self).bytes@ + string_bytes(s@));
        Ok(())
    }
}

} // verus!
