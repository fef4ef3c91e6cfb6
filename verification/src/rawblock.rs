use vstd::prelude::*;

use crate::error::Error;

verus! {

/// The codec of a raw block's payload: stored as-is, or compressed by one
/// of three schemes, optionally with an explicit level.
#[derive(Clone, Copy, PartialEq, Eq, Structural, Debug)]
pub enum CompressionType {
    Uncompressed,
    Zlib,
    Brotli,
    Lzma,
    ZlibLevel(u32),
    BrotliLevel(u32),
    LzmaLevel(u32),
}

/// The decimal digit character for `d`.
pub open spec fn spec_digit_char(d: int) -> char {
    if d == 0 {
        '0'
    } else if d == 1 {
        '1'
    } else if d == 2 {
        '2'
    } else if d == 3 {
        '3'
    } else if d == 4 {
        '4'
    } else if d == 5 {
        '5'
    } else if d == 6 {
        '6'
    } else if d == 7 {
        '7'
    } else if d == 8 {
        '8'
    } else {
        '9'
    }
}

/// The decimal spelling of a non-negative number.
pub open spec fn spec_decimal(n: int) -> Seq<char>
    decreases n,
{
    if n < 10 {
        seq![spec_digit_char(n)]
    } else {
        spec_decimal(n / 10).push(spec_digit_char(n % 10))
    }
}

fn digit_str(d: u32) -> (r: &'static str)
    requires
        d < 10,
    ensures
        r@ == seq![spec_digit_char(d as int)],
{
    proof {
        reveal_strlit("0");
        reveal_strlit("1");
        reveal_strlit("2");
        reveal_strlit("3");
        reveal_strlit("4");
        reveal_strlit("5");
        reveal_strlit("6");
        reveal_strlit("7");
        reveal_strlit("8");
        reveal_strlit("9");
    }
    match d {
        0 => "0",
        1 => "1",
        2 => "2",
        3 => "3",
        4 => "4",
        5 => "5",
        6 => "6",
        7 => "7",
        8 => "8",
        _ => "9",
    }
}

/// Write a number in decimal.
pub fn u32_to_string(n: u32) -> (r: String)
    ensures
        r@ == spec_decimal(n as int),
    decreases n,
{
    if n < 10 {
        String::from_str(digit_str(n))
    } else {
        let mut s = u32_to_string(n / 10);
        s.append(digit_str(n % 10));
        s
    }
}

/// The display name of a codec; the levelled forms carry their level in
/// parentheses.
pub open spec fn spec_compression_name(ct: CompressionType) -> Seq<char> {
    match ct {
        CompressionType::Uncompressed => "Uncompressed"@,
        CompressionType::Zlib => "Zlib"@,
        CompressionType::Brotli => "Brotli"@,
        CompressionType::Lzma => "Lzma"@,
        CompressionType::ZlibLevel(l) => "ZlibLevel("@ + spec_decimal(l as int) + ")"@,
        CompressionType::BrotliLevel(l) => "BrotliLevel("@ + spec_decimal(l as int) + ")"@,
        CompressionType::LzmaLevel(l) => "LzmaLevel("@ + spec_decimal(l as int) + ")"@,
    }
}

pub fn compression_type_string(compression_type: CompressionType) -> (r: String)
    ensures
        r@ == spec_compression_name(compression_type),
{
    match compression_type {
        CompressionType::Uncompressed => String::from_str("Uncompressed"),
        CompressionType::Zlib => String::from_str("Zlib"),
        CompressionType::Brotli => String::from_str("Brotli"),
        CompressionType::Lzma => String::from_str("Lzma"),
        CompressionType::ZlibLevel(l) => {
            let mut s = String::from_str("ZlibLevel(");
            s.append(u32_to_string(l).as_str());
            s.append(")");
            s
        },
        CompressionType::BrotliLevel(l) => {
            let mut s = String::from_str("BrotliLevel(");
            s.append(u32_to_string(l).as_str());
            s.append(")");
            s
        },
        CompressionType::LzmaLevel(l) => {
            let mut s = String::from_str("LzmaLevel(");
            s.append(u32_to_string(l).as_str());
            s.append(")");
            s
        },
    }
}

/// The codec denoted by a (name, level) pair. Only the uncompressed codec
/// and the explicitly levelled forms can be named at the boundary.
pub open spec fn spec_compression_from(name: Seq<char>, level: u32) -> Option<CompressionType> {
    if name == "Uncompressed"@ {
        Some(CompressionType::Uncompressed)
    } else if name == "ZlibLevel"@ {
        Some(CompressionType::ZlibLevel(level))
    } else if name == "BrotliLevel"@ {
        Some(CompressionType::BrotliLevel(level))
    } else if name == "LzmaLevel"@ {
        Some(CompressionType::LzmaLevel(level))
    } else {
        None
    }
}

fn str_eq_exact(s: &str, t: &str) -> (r: bool)
    ensures
        r == (s@ == t@),
{
    let n = s.unicode_len();
    if n != t.unicode_len() {
        proof {
            assert(s@ != t@);
        }
        return false;
    }
    let mut i: usize = 0;
    while i < n
        invariant
            n == s@.len() == t@.len(),
            0 <= i <= n,
            forall|j: int| 0 <= j < i ==> s@[j] == t@[j],
        decreases n - i,
    {
        if s.get_char(i) != t.get_char(i) {
            return false;
        }
        i = i + 1;
    }
    proof {
        assert(s@ =~= t@);
    }
    true
}

pub fn compression_type_from_string(input: (&str, u32)) -> (r: Result<CompressionType, Error>)
    ensures
        match r {
            Ok(ct) => spec_compression_from(input.0@, input.1) == Some(ct),
            Err(e) => spec_compression_from(input.0@, input.1) is None && e == Error::ValueError,
        },
{
    let (name, level) = input;
    if str_eq_exact(name, "Uncompressed") {
        Ok(CompressionType::Uncompressed)
    } else if str_eq_exact(name, "ZlibLevel") {
        Ok(CompressionType::ZlibLevel(level))
    } else if str_eq_exact(name, "BrotliLevel") {
        Ok(CompressionType::BrotliLevel(level))
    } else if str_eq_exact(name, "LzmaLevel") {
        Ok(CompressionType::LzmaLevel(level))
    } else {
        Err(Error::ValueError)
    }
}

/// The smallest independently decodable unit of the container stream: its
/// byte extent, its type tag, its raw payload and the payload's codec. The
/// raw bytes are immutable once read.
pub struct RawBlock {
    pub pos: u64,
    pub len: u64,
    pub block_type: String,
    pub data_raw: Vec<u8>,
    pub compression_type: CompressionType,
}

impl RawBlock {
    pub fn new(
        pos: u64,
        len: u64,
        block_type: String,
        data_raw: Vec<u8>,
        compression_type: CompressionType,
    ) -> (r: RawBlock)
        ensures
            r.pos == pos,
            r.len == len,
            r.block_type == block_type,
            r.data_raw == data_raw,
            r.compression_type == compression_type,
    {
        RawBlock { pos, len, block_type, data_raw, compression_type }
    }

    /// A copy of the stored payload, exactly as it was read.
    pub fn raw_data(&self) -> (r: Vec<u8>)
        ensures
            r@ == self.data_raw@,
    {
        copy_bytes(&self.data_raw)
    }

    /// The decoded payload. The identity codec hands the stored bytes back;
    /// a compressed payload is a decode the library does not perform itself
    /// and is reported as a value error.
    pub fn data(&self) -> (r: Result<Vec<u8>, Error>)
        ensures
            match r {
                Ok(d) => self.compression_type is Uncompressed && d@ == self.data_raw@,
                Err(e) => !(self.compression_type is Uncompressed) && e == Error::ValueError,
            },
    {
        match self.compression_type {
            CompressionType::Uncompressed => Ok(copy_bytes(&self.data_raw)),
            _ => Err(Error::ValueError),
        }
    }

    /// Read the payload, optionally also decoding it. The raw bytes
    /// returned are the stored payload whatever the flag says: requesting
    /// decompression cannot change what was read at this offset and length.
    pub fn read_payload(&self, decompress: bool) -> (r: (Vec<u8>, Option<Vec<u8>>))
        ensures
            r.0@ == self.data_raw@,
            r.1 matches Some(d) ==> decompress && self.compression_type is Uncompressed && d@
                == self.data_raw@,
            decompress && self.compression_type is Uncompressed ==> r.1 is Some,
    {
        let raw = copy_bytes(&self.data_raw);
        if decompress {
            match self.data() {
                Ok(d) => (raw, Some(d)),
                Err(_) => (raw, None),
            }
        } else {
            (raw, None)
        }
    }
}

fn copy_bytes(v: &Vec<u8>) -> (r: Vec<u8>)
    ensures
        r@ == v@,
{
    let mut out: Vec<u8> = Vec::new();
    let mut i: usize = 0;
    while i < v.len()
        invariant
            0 <= i <= v@.len(),
            out@ == v@.take(i as int),
        decreases v@.len() - i,
    {
        out.push(v[i]);
        proof {
            assert(v@.take(i + 1) =~= v@.take(i as int).push(v@[i as int]));
        }
        i = i + 1;
    }
    proof {
        assert(v@.take(v@.len() as int) =~= v@);
    }
    out
}

} // verus!
