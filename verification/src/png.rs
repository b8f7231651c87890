//! A PNG file: the signature and a sequence of chunks.

use vstd::prelude::*;
use vstd::slice::*;
use vstd::string::*;
use core::str::FromStr;
use crate::byte_order::{be_bytes, be_value, lemma_be_value_of_bytes, read_u32_be};
use crate::chunk::{
    chunk_text, lemma_chunk_bytes_unique, lemma_chunk_round_trip, parse_chunk, Chunk, ChunkError, ChunkView,
};
use crate::chunk_type::{type_from_text, ChunkType, ChunkTypeError};

verus! {

/// Why bytes are no PNG file, or why a chunk cannot be looked up.
#[derive(Debug, Clone, Copy, PartialEq, Eq, Structural)]
pub enum PngError {
    /// The bytes do not begin with the eight-byte signature.
    InvalidSignature,
    /// Some chunk after the signature cannot be read, for the given reason.
    ChunkParseError(ChunkError),
    /// The text given to look a chunk up by is no chunk type, for the given
    /// reason.
    InvalidChunkType(ChunkTypeError),
    /// No chunk has the type that was asked for.
    ChunkNotFound,
}

/// The eight bytes that every PNG file begins with, as a sequence.
pub open spec fn signature() -> Seq<u8> {
    seq![137u8, 80u8, 78u8, 71u8, 13u8, 10u8, 26u8, 10u8]
}

/// The chunks one after the other, each as it lies in a file.
pub open spec fn chunks_as_bytes(chunks: Seq<ChunkView>) -> Seq<u8>
    decreases chunks.len(),
{
    if chunks.len() == 0 {
        Seq::empty()
    } else {
        chunks[0].as_bytes() + chunks_as_bytes(chunks.drop_first())
    }
}

/// The file that holds the given chunks: the signature, then the chunks.
pub open spec fn png_as_bytes(chunks: Seq<ChunkView>) -> Seq<u8> {
    signature() + chunks_as_bytes(chunks)
}

/// What `bytes` are as a run of chunks. The first chunk takes as many bytes as
/// its length field declares and twelve more; the rest is read in the same way
/// until nothing is left. The first chunk that cannot be read decides the
/// error: too few bytes for a frame, fewer than the length field declares, or a
/// wrong checksum.
pub open spec fn parse_chunks(bytes: Seq<u8>) -> Result<Seq<ChunkView>, ChunkError>
    decreases bytes.len(),
{
    if bytes.len() == 0 {
        Ok(Seq::empty())
    } else if bytes.len() < 12 {
        Err(ChunkError::InvalidInput)
    } else if bytes.len() < be_value(bytes) + 12 {
        Err(ChunkError::InvalidLength)
    } else {
        let n = be_value(bytes) + 12;
        match parse_chunk(bytes.subrange(0, n)) {
            Err(e) => Err(e),
            Ok(c) => match parse_chunks(bytes.subrange(n, bytes.len() as int)) {
                Err(e) => Err(e),
                Ok(rest) => Ok(seq![c] + rest),
            },
        }
    }
}

/// What `bytes` are as a PNG file: the chunks that follow the signature.
pub open spec fn parse_png(bytes: Seq<u8>) -> Result<Seq<ChunkView>, PngError> {
    if bytes.len() < 8 || bytes.subrange(0, 8) != signature() {
        Err(PngError::InvalidSignature)
    } else {
        match parse_chunks(bytes.subrange(8, bytes.len() as int)) {
            Err(e) => Err(PngError::ChunkParseError(e)),
            Ok(chunks) => Ok(chunks),
        }
    }
}

/// The listings of the chunks, one after the other.
pub open spec fn chunks_text(chunks: Seq<ChunkView>) -> Seq<char>
    decreases chunks.len(),
{
    if chunks.len() == 0 {
        Seq::empty()
    } else {
        chunks_text(chunks.drop_last()) + chunk_text(chunks.last())
    }
}

/// The listing of a file: a line for the signature, then the listing of each
/// chunk, between braces.
pub open spec fn png_text(chunks: Seq<ChunkView>) -> Seq<char> {
    "Png {\n"@ + "  Signature: 137 80 78 71 13 10 26 10\n"@ + chunks_text(chunks) + "}\n"@
}

/// The models of the given chunks, in their order.
pub open spec fn chunk_views(chunks: Seq<Chunk>) -> Seq<ChunkView> {
    chunks.map_values(|c: Chunk| c@)
}

/// Every chunk of the sequence is valid.
pub open spec fn all_valid(chunks: Seq<ChunkView>) -> bool {
    forall|i: int| 0 <= i < chunks.len() ==> (#[trigger] chunks[i]).valid()
}

/// The index of the first chunk at or after `from` whose type has the bytes
/// `chunk_type`, if there is one.
pub open spec fn first_of_type(chunks: Seq<ChunkView>, chunk_type: Seq<u8>, from: int) -> Option<int>
    decreases chunks.len() - from,
{
    if from < 0 || from >= chunks.len() {
        None
    } else if chunks[from].chunk_type == chunk_type {
        Some(from)
    } else {
        first_of_type(chunks, chunk_type, from + 1)
    }
}

/// A PNG file in memory: its chunks, in the order in which they lie in the
/// file. The signature is the same for every file and is not stored. Chunks of
/// one type may occur more than once; a search by type finds the first.
#[derive(Debug)]
pub struct Png {
    chunks: Vec<Chunk>,
}

impl View for Png {
    type V = Seq<ChunkView>;

    closed spec fn view(&self) -> Seq<ChunkView> {
        chunk_views(self.chunks@)
    }
}

impl Png {
    /// The eight bytes that every PNG file begins with.
    pub const STANDARD_HEADER: [u8; 8] = [137, 80, 78, 71, 13, 10, 26, 10];

    /// The file that holds the given chunks, in the given order.
    pub fn from_chunks(chunks: Vec<Chunk>) -> (png: Png)
        ensures
            png@ == chunk_views(chunks@),
    {
        Png { chunks }
    }

    /// Adds a chunk after the last one.
    pub fn append_chunk(&mut self, chunk: Chunk)
        ensures
            final(self)@ == old(self)@.push(chunk@),
    {
        self.chunks.push(chunk);
        assert(self@ =~= old(self)@.push(chunk@));
    }

    /// The signature.
    pub fn header(&self) -> (h: &[u8; 8])
        ensures
            h@ == signature(),
    {
        let h = &Png::STANDARD_HEADER;
        assert(h@ =~= signature());
        h
    }

    /// The chunks, in their order.
    pub fn chunks(&self) -> (chunks: &[Chunk])
        ensures
            chunk_views(chunks@) == self@,
    {
        self.chunks.as_slice()
    }

    /// The index of the first chunk of the given type, if there is one.
    fn position(&self, chunk_type: &ChunkType) -> (r: Option<usize>)
        ensures
            match r {
                Some(i) => first_of_type(self@, chunk_type@, 0) == Some(i as int) && i
                    < self.chunks.len(),
                None => first_of_type(self@, chunk_type@, 0) is None,
            },
    {
        let mut i: usize = 0;
        while i < self.chunks.len()
            invariant
                i <= self.chunks.len(),
                self@.len() == self.chunks.len(),
                first_of_type(self@, chunk_type@, 0) == first_of_type(self@, chunk_type@, i as int),
            decreases self.chunks.len() - i,
        {
            assert(self@[i as int] == self.chunks[i as int]@);
            if self.chunks[i].chunk_type() == chunk_type {
                return Some(i);
            }
            i += 1;
        }
        None
    }

    /// The first chunk whose type is the one that `chunk_type` spells, if there
    /// is one. A text that is no chunk type is an error, not an absence.
    pub fn chunk_by_type(&self, chunk_type: &str) -> (r: Result<Option<&Chunk>, PngError>)
        ensures
            match type_from_text(chunk_type@) {
                Err(e) => r == Err::<Option<&Chunk>, PngError>(PngError::InvalidChunkType(e)),
                Ok(t) => match first_of_type(self@, t, 0) {
                    None => r == Ok::<Option<&Chunk>, PngError>(None),
                    Some(i) => r matches Ok(Some(c)) && c@ == self@[i],
                },
            },
    {
        match ChunkType::from_str(chunk_type) {
            Err(e) => Err(PngError::InvalidChunkType(e)),
            Ok(t) => match self.position(&t) {
                None => Ok(None),
                Some(i) => {
                    assert(self@[i as int] == self.chunks[i as int]@);
                    Ok(Some(&self.chunks[i]))
                },
            },
        }
    }

    /// Takes out the first chunk whose type is the one that `chunk_type`
    /// spells, and returns it. The chunks that remain keep their order. Where
    /// the text is no chunk type, or no chunk has the type, nothing changes.
    pub fn remove_chunk(&mut self, chunk_type: &str) -> (r: Result<Chunk, PngError>)
        ensures
            match type_from_text(chunk_type@) {
                Err(e) => {
                    &&& r == Err::<Chunk, PngError>(PngError::InvalidChunkType(e))
                    &&& final(self)@ == old(self)@
                },
                Ok(t) => match first_of_type(old(self)@, t, 0) {
                    None => {
                        &&& r == Err::<Chunk, PngError>(PngError::ChunkNotFound)
                        &&& final(self)@ == old(self)@
                    },
                    Some(i) => {
                        &&& r matches Ok(c) && c@ == old(self)@[i]
                        &&& final(self)@ == old(self)@.remove(i)
                    },
                },
            },
    {
        match ChunkType::from_str(chunk_type) {
            Err(e) => Err(PngError::InvalidChunkType(e)),
            Ok(t) => match self.position(&t) {
                None => Err(PngError::ChunkNotFound),
                Some(i) => {
                    assert(self@[i as int] == self.chunks[i as int]@);
                    let c = self.chunks.remove(i);
                    assert(self@ =~= old(self)@.remove(i as int));
                    Ok(c)
                },
            },
        }
    }

    /// The file's listing, for a reader.
    pub fn to_string(&self) -> (s: String)
        ensures
            s@ == png_text(self@),
    {
        let mut s = String::new();
        s.append("Png {\n");
        s.append("  Signature: 137 80 78 71 13 10 26 10\n");
        let ghost opening = s@;
        assert(opening =~= "Png {\n"@ + "  Signature: 137 80 78 71 13 10 26 10\n"@);
        assert(s@ =~= opening + chunks_text(self@.subrange(0, 0)));
        let mut i: usize = 0;
        while i < self.chunks.len()
            invariant
                i <= self.chunks.len(),
                self@.len() == self.chunks.len(),
                s@ == opening + chunks_text(self@.subrange(0, i as int)),
            decreases self.chunks.len() - i,
        {
            let listing = self.chunks[i].to_string();
            s.append(listing.as_str());
            i += 1;
            proof {
                let upto = self@.subrange(0, i as int);
                assert(upto.drop_last() =~= self@.subrange(0, i - 1));
                assert(upto.last() == self.chunks[i - 1]@);
                assert(s@ =~= opening + chunks_text(upto));
            }
        }
        assert(self@.subrange(0, i as int) =~= self@);
        s.append("}\n");
        s
    }

    /// The file's bytes: the signature, then each chunk as it lies in a file.
    pub fn as_bytes(&self) -> (bytes: Vec<u8>)
        ensures
            bytes@ == png_as_bytes(self@),
            all_valid(self@),
    {
        let mut bytes: Vec<u8> = Vec::new();
        bytes.extend_from_slice(Png::STANDARD_HEADER.as_slice());
        assert(bytes@ =~= signature());
        let mut i: usize = 0;
        while i < self.chunks.len()
            invariant
                i <= self.chunks.len(),
                self@.len() == self.chunks.len(),
                bytes@ == signature() + chunks_as_bytes(self@.subrange(0, i as int)),
                all_valid(self@.subrange(0, i as int)),
            decreases self.chunks.len() - i,
        {
            let ghost before = self@.subrange(0, i as int);
            let chunk = &self.chunks[i];
            let mut frame = chunk.as_bytes();
            bytes.append(&mut frame);
            i += 1;
            proof {
                assert(self@.subrange(0, i as int) =~= before.push(chunk@));
                lemma_chunks_as_bytes_push(before, chunk@);
                assert(bytes@ =~= signature() + chunks_as_bytes(self@.subrange(0, i as int)));
            }
        }
        assert(self@.subrange(0, i as int) =~= self@);
        bytes
    }
}

/// The result of reading on: the chunks already read, then those that the
/// rest of the bytes holds, or the error that the rest gives.
pub open spec fn read_on(done: Seq<ChunkView>, rest: Result<Seq<ChunkView>, ChunkError>) -> Result<
    Seq<ChunkView>,
    ChunkError,
> {
    match rest {
        Err(e) => Err(e),
        Ok(chunks) => Ok(done + chunks),
    }
}

/// The conversion is specified by the contract of `try_from` itself, over the
/// file's model: no file can be written down as a specification value.
impl<'a> vstd::std_specs::convert::TryFromSpecImpl<&'a [u8]> for Png {
    open spec fn obeys_try_from_spec() -> bool {
        false
    }

    open spec fn try_from_spec(bytes: &'a [u8]) -> Result<Png, PngError> {
        arbitrary()
    }
}

impl<'a> TryFrom<&'a [u8]> for Png {
    type Error = PngError;

    /// Reads a whole file: the signature, then chunk after chunk until the
    /// bytes are used up. One chunk that cannot be read fails the file.
    fn try_from(bytes: &'a [u8]) -> (r: Result<Png, PngError>)
        ensures
            match r {
                Ok(png) => parse_png(bytes@) == Ok::<Seq<ChunkView>, PngError>(png@) && all_valid(
                    png@,
                ),
                Err(e) => parse_png(bytes@) == Err::<Seq<ChunkView>, PngError>(e),
            },
    {
        let len = bytes.len();
        if len < 8 {
            return Err(PngError::InvalidSignature);
        }
        let mut k: usize = 0;
        while k < 8
            invariant
                k <= 8,
                len == bytes.len(),
                len >= 8,
                forall|j: int| 0 <= j < k ==> bytes@[j] == signature()[j],
            decreases 8 - k,
        {
            if bytes[k] != Png::STANDARD_HEADER[k] {
                assert(bytes@.subrange(0, 8)[k as int] != signature()[k as int]);
                return Err(PngError::InvalidSignature);
            }
            k += 1;
        }
        assert(bytes@.subrange(0, 8) =~= signature());
        match Png::read_chunks(slice_subrange(bytes, 8, len)) {
            Err(e) => Err(PngError::ChunkParseError(e)),
            Ok(chunks) => Ok(Png { chunks }),
        }
    }
}

impl Png {
    /// Reads the chunk that begins at `cursor`, and tells where it ends.
    fn read_one(bytes: &[u8], cursor: usize) -> (r: Result<(Chunk, usize), ChunkError>)
        requires
            cursor < bytes.len(),
        ensures
            match r {
                Ok((chunk, end)) => {
                    &&& cursor < end <= bytes.len()
                    &&& chunk@.valid()
                    &&& parse_chunks(bytes@.subrange(cursor as int, bytes.len() as int)) == read_on(
                        seq![chunk@],
                        parse_chunks(bytes@.subrange(end as int, bytes.len() as int)),
                    )
                },
                Err(e) => parse_chunks(bytes@.subrange(cursor as int, bytes.len() as int)) == Err::<
                    Seq<ChunkView>,
                    ChunkError,
                >(e),
            },
    {
        let len = bytes.len();
        if len - cursor < 12 {
            return Err(ChunkError::InvalidInput);
        }
        let declared = read_u32_be(bytes, cursor);
        proof {
            lemma_read_step(bytes@, cursor as int);
        }
        if ((len - cursor) as u64) < declared as u64 + 12 {
            return Err(ChunkError::InvalidLength);
        }
        let end: usize = cursor + (declared as usize + 12);
        match Chunk::try_from(slice_subrange(bytes, cursor, end)) {
            Err(e) => Err(e),
            Ok(chunk) => Ok((chunk, end)),
        }
    }

    /// Reads chunk after chunk until the bytes are used up.
    fn read_chunks(bytes: &[u8]) -> (r: Result<Vec<Chunk>, ChunkError>)
        ensures
            match r {
                Ok(chunks) => parse_chunks(bytes@) == Ok::<Seq<ChunkView>, ChunkError>(
                    chunk_views(chunks@),
                ) && all_valid(chunk_views(chunks@)),
                Err(e) => parse_chunks(bytes@) == Err::<Seq<ChunkView>, ChunkError>(e),
            },
    {
        let len = bytes.len();
        let mut chunks: Vec<Chunk> = Vec::new();
        let mut cursor: usize = 0;
        proof {
            lemma_cut(bytes@, 0);
            lemma_read_on_nothing(parse_chunks(bytes@));
        }
        while cursor < len
            invariant
                cursor <= len,
                len == bytes.len(),
                all_valid(chunk_views(chunks@)),
                parse_chunks(bytes@) == read_on(
                    chunk_views(chunks@),
                    parse_chunks(bytes@.subrange(cursor as int, len as int)),
                ),
            decreases len - cursor,
        {
            match Png::read_one(bytes, cursor) {
                Err(e) => {
                    return Err(e);
                },
                Ok((chunk, end)) => {
                    proof {
                        lemma_views_push(chunks@, chunk);
                        lemma_read_on_one_more(
                            chunk_views(chunks@),
                            chunk@,
                            parse_chunks(bytes@.subrange(end as int, len as int)),
                        );
                    }
                    chunks.push(chunk);
                    cursor = end;
                },
            }
        }
        proof {
            lemma_read_on_end(chunk_views(chunks@), bytes@.subrange(cursor as int, len as int));
        }
        Ok(chunks)
    }
}

/// How reading goes on at a place where twelve bytes or more are left: the
/// four bytes there declare how far the next chunk reaches.
proof fn lemma_read_step(bytes: Seq<u8>, cursor: int)
    requires
        0 <= cursor,
        cursor + 12 <= bytes.len(),
    ensures
        ({
            let len = bytes.len() as int;
            let rest = bytes.subrange(cursor, len);
            let declared = be_value(bytes.subrange(cursor, cursor + 4));
            let end = cursor + declared + 12;
            &&& end > len ==> parse_chunks(rest) == Err::<Seq<ChunkView>, ChunkError>(
                ChunkError::InvalidLength,
            )
            &&& end <= len ==> parse_chunks(rest) == match parse_chunk(bytes.subrange(cursor, end)) {
                Err(e) => Err(e),
                Ok(c) => read_on(seq![c], parse_chunks(bytes.subrange(end, len))),
            }
        }),
{
    let len = bytes.len() as int;
    let rest = bytes.subrange(cursor, len);
    let n = be_value(rest) + 12;
    if n <= rest.len() {
        assert(rest.subrange(0, n) =~= bytes.subrange(cursor, cursor + n));
        assert(rest.subrange(n, rest.len() as int) =~= bytes.subrange(cursor + n, len));
    }
}

/// The models of a sequence with one chunk more.
proof fn lemma_views_push(chunks: Seq<Chunk>, c: Chunk)
    ensures
        chunk_views(chunks.push(c)) == chunk_views(chunks).push(c@),
        all_valid(chunk_views(chunks)) && c@.valid() ==> all_valid(chunk_views(chunks.push(c))),
{
    assert(chunk_views(chunks.push(c)) =~= chunk_views(chunks).push(c@));
}

/// Where no bytes are left, what was read is all.
proof fn lemma_read_on_end(done: Seq<ChunkView>, rest: Seq<u8>)
    requires
        rest.len() == 0,
    ensures
        read_on(done, parse_chunks(rest)) == Ok::<Seq<ChunkView>, ChunkError>(done),
{
    assert(done + Seq::<ChunkView>::empty() =~= done);
}

/// Reading on from nothing is reading.
proof fn lemma_read_on_nothing(rest: Result<Seq<ChunkView>, ChunkError>)
    ensures
        read_on(Seq::empty(), rest) == rest,
{
    if let Ok(chunks) = rest {
        assert(Seq::<ChunkView>::empty() + chunks =~= chunks);
    }
}

/// Reading on after one chunk more.
proof fn lemma_read_on_one_more(
    done: Seq<ChunkView>,
    c: ChunkView,
    rest: Result<Seq<ChunkView>, ChunkError>,
)
    ensures
        read_on(done, read_on(seq![c], rest)) == read_on(done.push(c), rest),
{
    if let Ok(chunks) = rest {
        assert(done + (seq![c] + chunks) =~= done.push(c) + chunks);
    }
}

/// The bytes of a sequence with one chunk more end with that chunk's bytes.
pub proof fn lemma_chunks_as_bytes_push(chunks: Seq<ChunkView>, c: ChunkView)
    ensures
        chunks_as_bytes(chunks.push(c)) == chunks_as_bytes(chunks) + c.as_bytes(),
    decreases chunks.len(),
{
    if chunks.len() == 0 {
        assert(chunks.push(c).drop_first() =~= Seq::<ChunkView>::empty());
        assert(chunks_as_bytes(Seq::<ChunkView>::empty()) =~= Seq::<u8>::empty());
        assert(chunks.push(c)[0] == c);
        assert(chunks_as_bytes(chunks.push(c)) =~= c.as_bytes());
        assert(chunks_as_bytes(chunks) + c.as_bytes() =~= c.as_bytes());
    } else {
        assert(chunks.push(c).drop_first() =~= chunks.drop_first().push(c));
        lemma_chunks_as_bytes_push(chunks.drop_first(), c);
        assert(chunks_as_bytes(chunks.push(c)) =~= chunks_as_bytes(chunks) + c.as_bytes());
    }
}

/// The bytes of a chunk followed by a run of chunks are the chunk's bytes
/// followed by the run's; and the whole is valid where both are.
proof fn lemma_chunks_cons(c: ChunkView, rest: Seq<ChunkView>)
    ensures
        chunks_as_bytes(seq![c] + rest) == c.as_bytes() + chunks_as_bytes(rest),
        c.valid() && all_valid(rest) ==> all_valid(seq![c] + rest),
{
    let all = seq![c] + rest;
    assert(all.len() > 0);
    assert(all[0] == c);
    assert(all.drop_first() =~= rest);
    if c.valid() && all_valid(rest) {
        assert forall|i: int| 0 <= i < all.len() implies (#[trigger] all[i]).valid() by {
            if i > 0 {
                assert(all[i] == rest[i - 1]);
            }
        }
    }
}

/// Where the bytes of a valid chunk are followed by more bytes, the length
/// field tells where the chunk ends.
proof fn lemma_chunk_then_more(c: ChunkView, more: Seq<u8>)
    requires
        c.valid(),
    ensures
        ({
            let bytes = c.as_bytes() + more;
            let n = be_value(bytes) + 12;
            &&& 12 <= n <= bytes.len()
            &&& bytes.subrange(0, n) == c.as_bytes()
            &&& bytes.subrange(n, bytes.len() as int) == more
        }),
{
    let head = c.as_bytes();
    let bytes = head + more;
    lemma_be_value_of_bytes(c.data.len() as u32);
    assert(head.len() == c.data.len() + 12);
    assert(head.subrange(0, 4) =~= be_bytes(c.data.len() as u32));
    assert(be_value(bytes) == be_value(head.subrange(0, 4)));
    assert(bytes.subrange(0, head.len() as int) =~= head);
    assert(bytes.subrange(head.len() as int, bytes.len() as int) =~= more);
}

/// A run of valid chunks that is written and read again is the same run.
pub proof fn lemma_chunks_round_trip(chunks: Seq<ChunkView>)
    requires
        all_valid(chunks),
    ensures
        parse_chunks(chunks_as_bytes(chunks)) == Ok::<Seq<ChunkView>, ChunkError>(chunks),
    decreases chunks.len(),
{
    if chunks.len() == 0 {
        assert(chunks =~= Seq::<ChunkView>::empty());
    } else {
        let c = chunks[0];
        let rest = chunks.drop_first();
        assert(c.valid());
        assert forall|i: int| 0 <= i < rest.len() implies (#[trigger] rest[i]).valid() by {
            assert(rest[i] == chunks[i + 1]);
        }
        assert(seq![c] + rest =~= chunks);
        lemma_chunk_round_trip(c);
        lemma_chunks_round_trip(rest);
        lemma_chunk_then_more(c, chunks_as_bytes(rest));
    }
}

/// A file of valid chunks that is written and read again holds the same
/// chunks, in the same order.
pub proof fn lemma_png_round_trip(chunks: Seq<ChunkView>)
    requires
        all_valid(chunks),
    ensures
        parse_png(png_as_bytes(chunks)) == Ok::<Seq<ChunkView>, PngError>(chunks),
{
    let bytes = png_as_bytes(chunks);
    assert(bytes.subrange(0, 8) =~= signature());
    assert(bytes.subrange(8, bytes.len() as int) =~= chunks_as_bytes(chunks));
    lemma_chunks_round_trip(chunks);
}

/// Bytes that are read as a run of chunks are the bytes that those chunks are
/// written as, and every chunk read is valid.
pub proof fn lemma_chunks_bytes_unique(bytes: Seq<u8>)
    requires
        parse_chunks(bytes) is Ok,
    ensures
        all_valid(parse_chunks(bytes)->Ok_0),
        chunks_as_bytes(parse_chunks(bytes)->Ok_0) == bytes,
    decreases bytes.len(),
{
    if bytes.len() == 0 {
        assert(chunks_as_bytes(Seq::<ChunkView>::empty()) =~= bytes);
    } else {
        lemma_parse_chunks_unfold(bytes);
        let n = be_value(bytes) + 12;
        let head = bytes.subrange(0, n);
        let tail = bytes.subrange(n, bytes.len() as int);
        lemma_chunk_bytes_unique(head);
        lemma_chunks_bytes_unique(tail);
        lemma_chunks_cons(parse_chunk(head)->Ok_0, parse_chunks(tail)->Ok_0);
        lemma_cut(bytes, n);
    }
}

/// What it means that bytes which are not empty are read as a run of chunks.
proof fn lemma_parse_chunks_unfold(bytes: Seq<u8>)
    requires
        parse_chunks(bytes) is Ok,
        bytes.len() > 0,
    ensures
        ({
            let n = be_value(bytes) + 12;
            let head = bytes.subrange(0, n);
            let tail = bytes.subrange(n, bytes.len() as int);
            &&& 12 <= n <= bytes.len()
            &&& parse_chunk(head) is Ok
            &&& parse_chunks(tail) is Ok
            &&& parse_chunks(bytes)->Ok_0 == seq![parse_chunk(head)->Ok_0] + parse_chunks(
                tail,
            )->Ok_0
        }),
{
}

/// A sequence cut in two and put together again is the sequence.
proof fn lemma_cut(bytes: Seq<u8>, n: int)
    requires
        0 <= n <= bytes.len(),
    ensures
        bytes.subrange(0, n) + bytes.subrange(n, bytes.len() as int) == bytes,
{
    assert(bytes.subrange(0, n) + bytes.subrange(n, bytes.len() as int) =~= bytes);
}

/// Bytes that are read as a file are the bytes that the file is written as.
pub proof fn lemma_png_bytes_unique(bytes: Seq<u8>)
    requires
        parse_png(bytes) is Ok,
    ensures
        all_valid(parse_png(bytes)->Ok_0),
        png_as_bytes(parse_png(bytes)->Ok_0) == bytes,
{
    let head = bytes.subrange(0, 8);
    let body = bytes.subrange(8, bytes.len() as int);
    assert(bytes.len() >= 8 && head == signature());
    assert(parse_chunks(body) is Ok);
    let chunks = parse_chunks(body)->Ok_0;
    assert(parse_png(bytes)->Ok_0 == chunks);
    lemma_chunks_bytes_unique(body);
    assert(head + body =~= bytes);
    assert(png_as_bytes(chunks) == head + body);
}

/// What the first chunk of a type is: it has the type, and no chunk before it
/// has. Where there is none, no chunk has the type.
pub proof fn lemma_first_of_type(chunks: Seq<ChunkView>, chunk_type: Seq<u8>, from: int)
    requires
        0 <= from,
    ensures
        match first_of_type(chunks, chunk_type, from) {
            Some(i) => {
                &&& from <= i < chunks.len()
                &&& chunks[i].chunk_type == chunk_type
                &&& forall|j: int| from <= j < i ==> (#[trigger] chunks[j]).chunk_type != chunk_type
            },
            None => forall|j: int|
                from <= j < chunks.len() ==> (#[trigger] chunks[j]).chunk_type != chunk_type,
        },
    decreases chunks.len() - from,
{
    if from < chunks.len() && chunks[from].chunk_type != chunk_type {
        lemma_first_of_type(chunks, chunk_type, from + 1);
    }
}

/// Removing the first chunk of a type leaves one chunk fewer, and the others
/// as they were and in their order: those before it in place, those after it
/// one place earlier.
pub proof fn lemma_remove_keeps_order(chunks: Seq<ChunkView>, chunk_type: Seq<u8>)
    requires
        first_of_type(chunks, chunk_type, 0) is Some,
    ensures
        ({
            let i = first_of_type(chunks, chunk_type, 0)->Some_0;
            let left = chunks.remove(i);
            &&& left.len() == chunks.len() - 1
            &&& forall|j: int| 0 <= j < i ==> left[j] == chunks[j]
            &&& forall|j: int| i <= j < left.len() ==> left[j] == chunks[j + 1]
        }),
{
    lemma_first_of_type(chunks, chunk_type, 0);
}

} // verus!
