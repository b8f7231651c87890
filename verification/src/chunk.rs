//! One chunk: type, payload and checksum.

use vstd::prelude::*;
use vstd::slice::*;
use vstd::string::*;
use vstd::utf8::*;
use crate::byte_order::{
    be_bytes, be_value, lemma_be_bytes_of_value, lemma_be_value_of_bytes, read_u32_be, u32_to_be,
};
use crate::checksum::{checksum, crc32_iso_hdlc};
use crate::chunk_type::{type_to_text, ChunkType};
use crate::text::{decimal, push_decimal};

verus! {

/// Why bytes are no chunk, or a payload no text.
#[derive(Debug, Clone, Copy, PartialEq, Eq, Structural)]
pub enum ChunkError {
    /// Fewer than twelve bytes: no room for length, type and checksum.
    InvalidInput,
    /// The length field does not agree with the number of bytes given.
    InvalidLength,
    /// The stored checksum is not the checksum of type and payload.
    InvalidCrcReceived,
    /// The payload is not well-formed UTF-8.
    InvalidUtf8,
}

/// The model of a chunk: its type's bytes and its payload. The checksum is no
/// part of it, being determined by the two.
pub ghost struct ChunkView {
    pub chunk_type: Seq<u8>,
    pub data: Seq<u8>,
}

impl ChunkView {
    /// The type has four bytes, and the payload's length fits the length field.
    pub open spec fn valid(self) -> bool {
        self.chunk_type.len() == 4 && self.data.len() <= u32::MAX
    }

    /// The checksum: CRC-32 over the type's bytes followed by the payload.
    pub open spec fn crc(self) -> u32 {
        crc32_iso_hdlc(self.chunk_type + self.data)
    }

    /// The chunk as it lies in a file: length, type, payload, checksum, the two
    /// numbers big-endian.
    pub open spec fn as_bytes(self) -> Seq<u8> {
        be_bytes(self.data.len() as u32) + self.chunk_type + self.data + be_bytes(self.crc())
    }
}

/// What is wrong with the frame of `bytes`, if anything: too short to hold a
/// chunk, or not of the length that its first four bytes declare. A chunk must
/// fill its buffer exactly; bytes after the checksum are not skipped.
pub open spec fn frame_error(bytes: Seq<u8>) -> Option<ChunkError> {
    if bytes.len() < 12 {
        Some(ChunkError::InvalidInput)
    } else if bytes.len() != be_value(bytes) + 12 {
        Some(ChunkError::InvalidLength)
    } else {
        None
    }
}

/// Type and payload of a well-framed buffer: bytes 4 to 8, and all that lies
/// between them and the last four.
pub open spec fn frame_chunk(bytes: Seq<u8>) -> ChunkView
    recommends
        bytes.len() >= 12,
{
    ChunkView { chunk_type: bytes.subrange(4, 8), data: bytes.subrange(8, bytes.len() - 4) }
}

/// The checksum that a well-framed buffer carries in its last four bytes.
pub open spec fn frame_checksum(bytes: Seq<u8>) -> u32
    recommends
        bytes.len() >= 12,
{
    be_value(bytes.subrange(bytes.len() - 4, bytes.len() as int))
}

/// What `bytes` are as a chunk: the chunk they frame, if the frame is sound and
/// the checksum they carry is the chunk's own; else the first thing wrong.
pub open spec fn parse_chunk(bytes: Seq<u8>) -> Result<ChunkView, ChunkError> {
    match frame_error(bytes) {
        Some(e) => Err(e),
        None => if frame_checksum(bytes) != frame_chunk(bytes).crc() {
            Err(ChunkError::InvalidCrcReceived)
        } else {
            Ok(frame_chunk(bytes))
        },
    }
}

/// The listing of a chunk: its length, its type, the size of its payload and
/// its checksum, a line each, between braces.
pub open spec fn chunk_text(c: ChunkView) -> Seq<char> {
    "Chunk {\n"@ + "  Length: "@ + decimal(c.data.len()) + "\n"@ + "  Type: "@ + type_to_text(
        c.chunk_type,
    ) + "\n"@ + "  Data: "@ + decimal(c.data.len()) + " bytes\n"@ + "  Crc: "@ + decimal(
        c.crc() as nat,
    ) + "\n"@ + "}\n"@
}

/// A chunk of a PNG file. Its checksum is always the CRC-32 of its type and
/// payload, and its payload is short enough for the length field.
#[derive(Debug)]
pub struct Chunk {
    chunk_type: ChunkType,
    chunk_data: Vec<u8>,
    chunk_checksum: u32,
}

impl View for Chunk {
    type V = ChunkView;

    closed spec fn view(&self) -> ChunkView {
        ChunkView { chunk_type: self.chunk_type@, data: self.chunk_data@ }
    }
}

impl Chunk {
    #[verifier::type_invariant]
    spec fn well_formed(self) -> bool {
        &&& self.chunk_data.len() <= u32::MAX
        &&& self.chunk_checksum == crc32_iso_hdlc(self.chunk_type@ + self.chunk_data@)
    }

    /// A chunk of the given type and payload, with the checksum of the two.
    pub fn new(chunk_type: ChunkType, data: Vec<u8>) -> (c: Chunk)
        requires
            data.len() <= u32::MAX,
        ensures
            c@ == (ChunkView { chunk_type: chunk_type@, data: data@ }),
            c@.valid(),
    {
        proof {
            chunk_type.lemma_four_bytes();
        }
        let type_bytes = chunk_type.bytes();
        let mut covered: Vec<u8> = Vec::new();
        covered.extend_from_slice(type_bytes.as_slice());
        covered.extend_from_slice(data.as_slice());
        assert(covered@ =~= chunk_type@ + data@);
        let sum = checksum(covered.as_slice());
        Chunk { chunk_type, chunk_data: data, chunk_checksum: sum }
    }

    /// The number of bytes in the payload.
    pub fn length(&self) -> (n: u32)
        ensures
            n == self@.data.len(),
            self@.valid(),
    {
        proof {
            use_type_invariant(self);
            self.chunk_type.lemma_four_bytes();
        }
        self.chunk_data.len() as u32
    }

    /// The chunk's type.
    pub fn chunk_type(&self) -> (t: &ChunkType)
        ensures
            t@ == self@.chunk_type,
    {
        &self.chunk_type
    }

    /// The payload.
    pub fn data(&self) -> (d: &[u8])
        ensures
            d@ == self@.data,
    {
        self.chunk_data.as_slice()
    }

    /// The checksum.
    pub fn crc(&self) -> (sum: u32)
        ensures
            sum == self@.crc(),
    {
        proof {
            use_type_invariant(self);
        }
        self.chunk_checksum
    }

    /// The payload as text, where it is well-formed UTF-8.
    pub fn data_as_string(&self) -> (r: Result<String, ChunkError>)
        ensures
            match r {
                Ok(s) => valid_utf8(self@.data) && s@ == decode_utf8(self@.data),
                Err(e) => !valid_utf8(self@.data) && e == ChunkError::InvalidUtf8,
            },
    {
        let copy = self.chunk_data.clone();
        assert(copy@ =~= self.chunk_data@);
        match String::from_utf8(copy) {
            Ok(s) => Ok(s),
            Err(_) => Err(ChunkError::InvalidUtf8),
        }
    }

    /// The chunk as it lies in a file: length, type, payload and checksum.
    pub fn as_bytes(&self) -> (bytes: Vec<u8>)
        ensures
            bytes@ == self@.as_bytes(),
            self@.valid(),
    {
        proof {
            use_type_invariant(self);
        }
        let length = u32_to_be(self.length());
        let type_bytes = self.chunk_type.bytes();
        let sum = u32_to_be(self.chunk_checksum);
        let mut bytes: Vec<u8> = Vec::new();
        bytes.extend_from_slice(length.as_slice());
        bytes.extend_from_slice(type_bytes.as_slice());
        bytes.extend_from_slice(self.chunk_data.as_slice());
        bytes.extend_from_slice(sum.as_slice());
        assert(bytes@ =~= self@.as_bytes());
        bytes
    }

    /// The chunk's listing, for a reader.
    pub fn to_string(&self) -> (s: String)
        ensures
            s@ == chunk_text(self@),
    {
        let mut s = String::new();
        s.append("Chunk {\n");
        s.append("  Length: ");
        push_decimal(&mut s, self.length());
        s.append("\n");
        s.append("  Type: ");
        let type_text = self.chunk_type.to_string();
        s.append(type_text.as_str());
        s.append("\n");
        s.append("  Data: ");
        push_decimal(&mut s, self.length());
        s.append(" bytes\n");
        s.append("  Crc: ");
        push_decimal(&mut s, self.crc());
        s.append("\n");
        s.append("}\n");
        assert(s@ =~= chunk_text(self@));
        s
    }

    /// Takes a buffer apart that holds one chunk and nothing else: the type,
    /// the payload, and the checksum that the buffer carries. The checksum is
    /// read, not judged.
    pub fn split_frame(bytes: &[u8]) -> (r: Result<(ChunkType, Vec<u8>, u32), ChunkError>)
        ensures
            match r {
                Ok((chunk_type, data, stored)) => {
                    &&& frame_error(bytes@) is None
                    &&& chunk_type@ == frame_chunk(bytes@).chunk_type
                    &&& data@ == frame_chunk(bytes@).data
                    &&& stored == frame_checksum(bytes@)
                },
                Err(e) => frame_error(bytes@) == Some(e),
            },
    {
        let len = bytes.len();
        if len < 12 {
            return Err(ChunkError::InvalidInput);
        }
        let declared = read_u32_be(bytes, 0);
        if len as u64 != declared as u64 + 12 {
            return Err(ChunkError::InvalidLength);
        }
        let chunk_type = ChunkType::from_bytes([bytes[4], bytes[5], bytes[6], bytes[7]]);
        let data = slice_to_vec(slice_subrange(bytes, 8, len - 4));
        let stored = read_u32_be(bytes, len - 4);
        assert(chunk_type@ =~= bytes@.subrange(4, 8));
        Ok((chunk_type, data, stored))
    }

    /// Judges a checksum read from a buffer against the one computed.
    pub fn check_crc(stored: u32, computed: u32) -> (r: Result<(), ChunkError>)
        ensures
            r is Ok <==> stored == computed,
            r matches Err(e) ==> e == ChunkError::InvalidCrcReceived,
    {
        if stored == computed {
            Ok(())
        } else {
            Err(ChunkError::InvalidCrcReceived)
        }
    }
}

/// The conversion is specified by the contract of `try_from` itself, over the
/// chunk's model: no chunk can be written down as a specification value.
impl<'a> vstd::std_specs::convert::TryFromSpecImpl<&'a [u8]> for Chunk {
    open spec fn obeys_try_from_spec() -> bool {
        false
    }

    open spec fn try_from_spec(bytes: &'a [u8]) -> Result<Chunk, ChunkError> {
        arbitrary()
    }
}

impl<'a> TryFrom<&'a [u8]> for Chunk {
    type Error = ChunkError;

    /// Reads one chunk from a buffer that holds it and nothing else. The
    /// checksum is computed anew over type and payload, and must be the one
    /// that the buffer carries.
    fn try_from(bytes: &'a [u8]) -> (r: Result<Chunk, ChunkError>)
        ensures
            match r {
                Ok(c) => parse_chunk(bytes@) == Ok::<ChunkView, ChunkError>(c@) && c@.valid(),
                Err(e) => parse_chunk(bytes@) == Err::<ChunkView, ChunkError>(e),
            },
    {
        match Chunk::split_frame(bytes) {
            Err(e) => Err(e),
            Ok((chunk_type, data, stored)) => {
                let computed = checksum(slice_subrange(bytes, 4, bytes.len() - 4));
                assert(bytes@.subrange(4, bytes.len() - 4) =~= chunk_type@ + data@);
                match Chunk::check_crc(stored, computed) {
                    Err(e) => Err(e),
                    Ok(()) => {
                        proof {
                            chunk_type.lemma_four_bytes();
                        }
                        Ok(Chunk { chunk_type, chunk_data: data, chunk_checksum: stored })
                    },
                }
            },
        }
    }
}

/// A chunk that is written and read again is the same chunk.
pub proof fn lemma_chunk_round_trip(c: ChunkView)
    requires
        c.valid(),
    ensures
        parse_chunk(c.as_bytes()) == Ok::<ChunkView, ChunkError>(c),
{
    let bytes = c.as_bytes();
    let n = c.data.len() as u32;
    lemma_be_value_of_bytes(n);
    lemma_be_value_of_bytes(c.crc());
    assert(bytes.len() == n + 12);
    assert(bytes.subrange(0, 4) =~= be_bytes(n));
    assert(be_value(bytes) == be_value(bytes.subrange(0, 4)));
    assert(bytes.subrange(bytes.len() - 4, bytes.len() as int) =~= be_bytes(c.crc()));
    assert(bytes.subrange(4, 8) =~= c.chunk_type);
    assert(bytes.subrange(8, bytes.len() - 4) =~= c.data);
}

/// Bytes that are read as a chunk are the bytes that the chunk is written as.
pub proof fn lemma_chunk_bytes_unique(bytes: Seq<u8>)
    requires
        parse_chunk(bytes) is Ok,
    ensures
        parse_chunk(bytes)->Ok_0.valid(),
        parse_chunk(bytes)->Ok_0.as_bytes() == bytes,
{
    let c = frame_chunk(bytes);
    let len = bytes.len() as int;
    lemma_be_bytes_of_value(bytes.subrange(0, 4));
    lemma_be_bytes_of_value(bytes.subrange(len - 4, len));
    assert(be_value(bytes) == be_value(bytes.subrange(0, 4)));
    assert(c.as_bytes() =~= bytes);
}

/// Where the type or the payload of a written chunk is altered in place, the
/// length and checksum fields left as they were, the bytes are read as a chunk
/// only if the altered type and payload have the checksum that was written;
/// otherwise they are refused for their checksum, and for nothing else.
pub proof fn lemma_altered_chunk(c: ChunkView, altered: Seq<u8>)
    requires
        c.valid(),
        altered.len() == c.as_bytes().len(),
        altered.subrange(0, 4) == c.as_bytes().subrange(0, 4),
        altered.subrange(altered.len() - 4, altered.len() as int) == c.as_bytes().subrange(
            altered.len() - 4,
            altered.len() as int,
        ),
    ensures
        frame_chunk(altered).crc() != c.crc() ==> parse_chunk(altered) == Err::<
            ChunkView,
            ChunkError,
        >(ChunkError::InvalidCrcReceived),
        frame_chunk(altered).crc() == c.crc() ==> parse_chunk(altered) == Ok::<
            ChunkView,
            ChunkError,
        >(frame_chunk(altered)),
{
    let bytes = c.as_bytes();
    let n = c.data.len() as u32;
    let len = bytes.len() as int;
    lemma_be_value_of_bytes(n);
    lemma_be_value_of_bytes(c.crc());
    assert(bytes.subrange(0, 4) =~= be_bytes(n));
    assert(bytes.subrange(len - 4, len) =~= be_bytes(c.crc()));
    assert(be_value(altered) == be_value(altered.subrange(0, 4)));
}

} // verus!
