use vstd::prelude::*;

use crate::error::{ReadError, ReadErrorKind};
use crate::io::{le_bytes, lemma_le_value_bound, push_all, push_le, read_le, slice_from};
use crate::lemma_le_bytes_of_value;

verus! {

/// The kinds of checksum a FOOT chunk can hold.
#[derive(Debug, Clone, Copy, PartialEq, Eq, Structural)]
pub enum ChecksumType {
    Crc32,
    Sha1,
    Sha224,
    Sha256,
    Sha384,
    Sha512,
}

impl ChecksumType {
    /// The type byte stored in the chunk.
    pub open spec fn spec_byte(self) -> u8 {
        match self {
            ChecksumType::Crc32 => 1,
            ChecksumType::Sha1 => 2,
            ChecksumType::Sha224 => 3,
            ChecksumType::Sha256 => 4,
            ChecksumType::Sha384 => 5,
            ChecksumType::Sha512 => 6,
        }
    }

    /// Length of the checksum in bytes.
    pub open spec fn spec_size(self) -> nat {
        match self {
            ChecksumType::Crc32 => 4,
            ChecksumType::Sha1 => 20,
            ChecksumType::Sha224 => 28,
            ChecksumType::Sha256 => 32,
            ChecksumType::Sha384 => 48,
            ChecksumType::Sha512 => 64,
        }
    }

    pub open spec fn spec_new(b: u8) -> Option<ChecksumType> {
        if b == 1 {
            Some(ChecksumType::Crc32)
        } else if b == 2 {
            Some(ChecksumType::Sha1)
        } else if b == 3 {
            Some(ChecksumType::Sha224)
        } else if b == 4 {
            Some(ChecksumType::Sha256)
        } else if b == 5 {
            Some(ChecksumType::Sha384)
        } else if b == 6 {
            Some(ChecksumType::Sha512)
        } else {
            None
        }
    }

    pub fn new(checksum_type: u8) -> (r: Option<Self>)
        ensures
            r == Self::spec_new(checksum_type),
    {
        match checksum_type {
            1 => Some(ChecksumType::Crc32),
            2 => Some(ChecksumType::Sha1),
            3 => Some(ChecksumType::Sha224),
            4 => Some(ChecksumType::Sha256),
            5 => Some(ChecksumType::Sha384),
            6 => Some(ChecksumType::Sha512),
            _ => None,
        }
    }

    pub fn to_byte(self) -> (r: u8)
        ensures
            r == self.spec_byte(),
    {
        match self {
            ChecksumType::Crc32 => 1,
            ChecksumType::Sha1 => 2,
            ChecksumType::Sha224 => 3,
            ChecksumType::Sha256 => 4,
            ChecksumType::Sha384 => 5,
            ChecksumType::Sha512 => 6,
        }
    }

    /// The checksum's name as text.
    pub fn to_string(self) -> (r: &'static str) {
        match self {
            ChecksumType::Crc32 => "CRC32",
            ChecksumType::Sha1 => "SHA-1",
            ChecksumType::Sha224 => "SHA-224",
            ChecksumType::Sha256 => "SHA-256",
            ChecksumType::Sha384 => "SHA-384",
            ChecksumType::Sha512 => "SHA-512",
        }
    }
}

/// A content checksum; CRC32 is stored little-endian.
#[derive(Debug, Clone, PartialEq, Eq)]
pub enum Checksum {
    Crc32(u32),
    Sha1(Box<[u8; 20]>),
    Sha224(Box<[u8; 28]>),
    Sha256(Box<[u8; 32]>),
    Sha384(Box<[u8; 48]>),
    Sha512(Box<[u8; 64]>),
}

fn take_array<const N: usize>(b: &[u8], pos: usize) -> (r: [u8; N])
    requires
        pos + N <= b@.len(),
    ensures
        r@ == b@.subrange(pos as int, pos + N),
{
    let mut a = [0u8; N];
    let mut i: usize = 0;
    let len = b.len();
    while i < N
        invariant
            i <= N,
            len == b@.len(),
            pos + N <= b@.len(),
            a@.len() == N,
            forall|j: int| 0 <= j < i ==> #[trigger] a@[j] == b@[pos + j],
        decreases N - i,
    {
        a[i] = b[pos + i];
        i = i + 1;
    }
    assert(a@ =~= b@.subrange(pos as int, pos + N));
    a
}

impl Checksum {
    pub open spec fn spec_type(&self) -> ChecksumType {
        match self {
            Checksum::Crc32(_) => ChecksumType::Crc32,
            Checksum::Sha1(_) => ChecksumType::Sha1,
            Checksum::Sha224(_) => ChecksumType::Sha224,
            Checksum::Sha256(_) => ChecksumType::Sha256,
            Checksum::Sha384(_) => ChecksumType::Sha384,
            Checksum::Sha512(_) => ChecksumType::Sha512,
        }
    }

    /// The checksum's stored bytes.
    pub open spec fn spec_bytes(&self) -> Seq<u8> {
        match self {
            Checksum::Crc32(v) => le_bytes(*v as nat, 4),
            Checksum::Sha1(d) => d@,
            Checksum::Sha224(d) => d@,
            Checksum::Sha256(d) => d@,
            Checksum::Sha384(d) => d@,
            Checksum::Sha512(d) => d@,
        }
    }

    /// Reads a checksum of the given type from the start of `bytes`.
    pub fn from_bytes(checksum_type: ChecksumType, bytes: &[u8]) -> (r: Option<Self>)
        ensures
            r is Some <==> bytes@.len() >= checksum_type.spec_size(),
            r is Some ==> r->0.spec_type() == checksum_type
                && r->0.spec_bytes() == bytes@.subrange(0, checksum_type.spec_size() as int),
    {
        match checksum_type {
            ChecksumType::Crc32 => {
                if bytes.len() < 4 {
                    return None;
                }
                proof {
                    lemma_le_value_bound(bytes@.subrange(0, 4));
                    vstd::arithmetic::power2::lemma2_to64();
                    lemma_le_bytes_of_value(bytes@.subrange(0, 4));
                }
                Some(Checksum::Crc32(read_le(bytes, 0, 4) as u32))
            },
            ChecksumType::Sha1 => {
                if bytes.len() < 20 {
                    return None;
                }
                Some(Checksum::Sha1(Box::new(take_array::<20>(bytes, 0))))
            },
            ChecksumType::Sha224 => {
                if bytes.len() < 28 {
                    return None;
                }
                Some(Checksum::Sha224(Box::new(take_array::<28>(bytes, 0))))
            },
            ChecksumType::Sha256 => {
                if bytes.len() < 32 {
                    return None;
                }
                Some(Checksum::Sha256(Box::new(take_array::<32>(bytes, 0))))
            },
            ChecksumType::Sha384 => {
                if bytes.len() < 48 {
                    return None;
                }
                Some(Checksum::Sha384(Box::new(take_array::<48>(bytes, 0))))
            },
            ChecksumType::Sha512 => {
                if bytes.len() < 64 {
                    return None;
                }
                Some(Checksum::Sha512(Box::new(take_array::<64>(bytes, 0))))
            },
        }
    }

    pub fn checksum_type(&self) -> (r: ChecksumType)
        ensures
            r == self.spec_type(),
    {
        match self {
            Checksum::Crc32(_) => ChecksumType::Crc32,
            Checksum::Sha1(_) => ChecksumType::Sha1,
            Checksum::Sha224(_) => ChecksumType::Sha224,
            Checksum::Sha256(_) => ChecksumType::Sha256,
            Checksum::Sha384(_) => ChecksumType::Sha384,
            Checksum::Sha512(_) => ChecksumType::Sha512,
        }
    }

    pub fn byte_size(&self) -> (r: usize)
        ensures
            r == self.spec_type().spec_size(),
    {
        match self {
            Checksum::Crc32(_) => 4,
            Checksum::Sha1(_) => 20,
            Checksum::Sha224(_) => 28,
            Checksum::Sha256(_) => 32,
            Checksum::Sha384(_) => 48,
            Checksum::Sha512(_) => 64,
        }
    }
}

/// The FOOT chunk: a checksum of the file's content.
#[derive(Debug, Clone)]
pub struct Foot {
    pub checksum: Checksum,
}

/// The FOOT payload for a checksum: its type byte, then its bytes.
pub open spec fn foot_payload(c: Checksum) -> Seq<u8> {
    seq![c.spec_type().spec_byte()] + c.spec_bytes()
}

impl Foot {
    pub const FOURCC: [u8; 4] = [0x46, 0x4F, 0x4F, 0x54];

    pub fn new(checksum: Checksum) -> (r: Self)
        ensures
            r.checksum == checksum,
    {
        Foot { checksum }
    }

    pub fn checksum(&self) -> (r: &Checksum)
        ensures
            *r == self.checksum,
    {
        &self.checksum
    }

    pub fn checksum_mut(&mut self) -> (r: &mut Checksum)
        ensures
            *r == old(self).checksum,
            final(self).checksum == *final(r),
    {
        &mut self.checksum
    }

    /// Parses a FOOT payload: a type byte from 1 to 6, then that many
    /// checksum bytes. Bytes after the checksum are ignored.
    pub fn read(bytes: &[u8]) -> (r: Result<Self, ReadError>)
        ensures
            r is Ok <==> bytes@.len() >= 1 && ChecksumType::spec_new(bytes@[0]) is Some
                && bytes@.len() >= 1 + ChecksumType::spec_new(bytes@[0])->0.spec_size(),
            r is Err ==> r->Err_0.kind == ReadErrorKind::BrokenFile,
            r is Ok ==> foot_payload(r->Ok_0.checksum) == bytes@.subrange(
                0,
                (1 + r->Ok_0.checksum.spec_type().spec_size()) as int,
            ),
    {
        if bytes.len() < 1 {
            return Err(ReadError::with_message(ReadErrorKind::BrokenFile, "empty FOOT chunk"));
        }
        let checksum_type = match ChecksumType::new(bytes[0]) {
            Some(t) => t,
            None => {
                return Err(ReadError::with_message(ReadErrorKind::BrokenFile, "illegal checksum type"));
            },
        };
        let rest = slice_from(bytes, 1);
        let checksum = match Checksum::from_bytes(checksum_type, rest) {
            Some(c) => c,
            None => {
                return Err(ReadError::with_message(ReadErrorKind::BrokenFile, "truncated checksum"));
            },
        };
        assert(foot_payload(checksum) =~= bytes@.subrange(0, (1 + checksum.spec_type().spec_size()) as int));
        Ok(Foot { checksum })
    }

    /// Appends the FOOT payload.
    pub fn write(&self, writer: &mut Vec<u8>)
        ensures
            final(writer)@ == old(writer)@ + foot_payload(self.checksum),
    {
        let ghost start = writer@;
        writer.push(self.checksum.checksum_type().to_byte());
        match &self.checksum {
            Checksum::Crc32(value) => {
                push_le(writer, *value as u128, 4);
            },
            Checksum::Sha1(data) => {
                push_all(writer, data.as_slice());
            },
            Checksum::Sha224(data) => {
                push_all(writer, data.as_slice());
            },
            Checksum::Sha256(data) => {
                push_all(writer, data.as_slice());
            },
            Checksum::Sha384(data) => {
                push_all(writer, data.as_slice());
            },
            Checksum::Sha512(data) => {
                push_all(writer, data.as_slice());
            },
        }
        assert(writer@ =~= start + foot_payload(self.checksum));
    }
}

} // verus!
