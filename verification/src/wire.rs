//! Wire format for the chunked datagram protocol.
//!
//! Every datagram carries a 12-byte big-endian header `(frame_id,
//! chunk_index, total_chunks)` followed by up to [`CHUNK_SIZE`] payload
//! bytes.  An encoded frame is split into `ceil(len / CHUNK_SIZE)` chunks;
//! concatenating the chunks in index order reproduces the frame exactly.

use vstd::prelude::*;

verus! {

/// Payload bytes carried by one datagram, excluding the 12-byte header.
/// Chosen to stay under a typical path MTU minus protocol headers.
pub const CHUNK_SIZE: usize = 8192;

/// Length of the `(frame_id, chunk_index, total_chunks)` datagram header.
pub const HEADER_LEN: usize = 12;

/// The four big-endian bytes of a 32-bit value, most significant first.
pub open spec fn u32_be_bytes(x: u32) -> Seq<u8> {
    seq![
        (x / 0x100_0000) as u8,
        ((x / 0x1_0000) % 0x100) as u8,
        ((x / 0x100) % 0x100) as u8,
        (x % 0x100) as u8,
    ]
}

/// The 32-bit value read from four big-endian bytes.
pub open spec fn u32_from_be(b: Seq<u8>) -> u32
    recommends
        b.len() == 4,
{
    (b[0] * 0x100_0000 + b[1] * 0x1_0000 + b[2] * 0x100 + b[3]) as u32
}

/// Reading back the big-endian bytes of a value yields that value.
pub proof fn lemma_u32_be_round_trip(x: u32)
    ensures
        u32_from_be(u32_be_bytes(x)) == x,
{
    assert((x / 0x100_0000) * 0x100_0000 + ((x / 0x1_0000) % 0x100) * 0x1_0000 + ((x / 0x100)
        % 0x100) * 0x100 + (x % 0x100) == x) by (bit_vector);
}

/// Appends the four big-endian bytes of `x` to `out`.
pub fn push_u32_be(out: &mut Vec<u8>, x: u32)
    ensures
        final(out)@ == old(out)@ + u32_be_bytes(x),
{
    out.push((x / 0x100_0000) as u8);
    out.push(((x / 0x1_0000) % 0x100) as u8);
    out.push(((x / 0x100) % 0x100) as u8);
    out.push((x % 0x100) as u8);
    assert(out@ =~= old(out)@ + u32_be_bytes(x));
}

/// Reads the big-endian 32-bit value at `offset`.
pub fn read_u32_be(data: &[u8], offset: usize) -> (r: u32)
    requires
        offset + 4 <= data@.len(),
    ensures
        r == u32_from_be(data@.subrange(offset as int, offset + 4)),
{
    let b0 = data[offset] as u32;
    let b1 = data[offset + 1] as u32;
    let b2 = data[offset + 2] as u32;
    let b3 = data[offset + 3] as u32;
    assert(b0 * 0x100_0000 + b1 * 0x1_0000 + b2 * 0x100 + b3 <= 0xFFFF_FFFF) by (bit_vector)
        requires
            b0 < 0x100 && b1 < 0x100 && b2 < 0x100 && b3 < 0x100,
    ;
    b0 * 0x100_0000 + b1 * 0x1_0000 + b2 * 0x100 + b3
}

/// The parsed header of one datagram.
#[derive(Clone, Copy, Debug, PartialEq, Eq, Structural)]
pub struct ChunkHeader {
    /// Identifier of the frame this chunk belongs to.
    pub frame_id: u32,
    /// Position of this chunk within the frame.
    pub chunk_index: u32,
    /// Number of chunks the frame was split into.
    pub total_chunks: u32,
}

/// The header encoded at the front of a well-formed datagram.
pub open spec fn header_of(d: Seq<u8>) -> ChunkHeader
    recommends
        d.len() >= HEADER_LEN,
{
    ChunkHeader {
        frame_id: u32_from_be(d.subrange(0, 4)),
        chunk_index: u32_from_be(d.subrange(4, 8)),
        total_chunks: u32_from_be(d.subrange(8, 12)),
    }
}

/// The payload bytes of a well-formed datagram: everything after the header.
pub open spec fn payload_of(d: Seq<u8>) -> Seq<u8>
    recommends
        d.len() >= HEADER_LEN,
{
    d.subrange(HEADER_LEN as int, d.len() as int)
}

/// Parses the 12-byte header of a datagram; `None` for undersized input.
pub fn parse_header(d: &[u8]) -> (r: Option<ChunkHeader>)
    ensures
        d@.len() >= HEADER_LEN ==> r == Some(header_of(d@)),
        d@.len() < HEADER_LEN ==> r is None,
{
    if d.len() < HEADER_LEN {
        return None;
    }
    let frame_id = read_u32_be(d, 0);
    let chunk_index = read_u32_be(d, 4);
    let total_chunks = read_u32_be(d, 8);
    Some(ChunkHeader { frame_id, chunk_index, total_chunks })
}

/// The full datagram for one chunk: header bytes, then the chunk payload.
pub open spec fn packet_bytes(frame_id: u32, chunk_index: u32, total_chunks: u32, payload: Seq<
    u8,
>) -> Seq<u8> {
    u32_be_bytes(frame_id) + u32_be_bytes(chunk_index) + u32_be_bytes(total_chunks) + payload
}

/// A built packet parses back to the fields it was built from.
pub proof fn lemma_packet_round_trip(frame_id: u32, chunk_index: u32, total_chunks: u32, payload: Seq<u8>)
    ensures
        packet_bytes(frame_id, chunk_index, total_chunks, payload).len() == HEADER_LEN
            + payload.len(),
        header_of(packet_bytes(frame_id, chunk_index, total_chunks, payload)) == (ChunkHeader {
            frame_id,
            chunk_index,
            total_chunks,
        }),
        payload_of(packet_bytes(frame_id, chunk_index, total_chunks, payload)) == payload,
{
    let p = packet_bytes(frame_id, chunk_index, total_chunks, payload);
    assert(p.subrange(0, 4) =~= u32_be_bytes(frame_id));
    assert(p.subrange(4, 8) =~= u32_be_bytes(chunk_index));
    assert(p.subrange(8, 12) =~= u32_be_bytes(total_chunks));
    assert(payload_of(p) =~= payload);
    lemma_u32_be_round_trip(frame_id);
    lemma_u32_be_round_trip(chunk_index);
    lemma_u32_be_round_trip(total_chunks);
}

/// Number of chunks a payload of `len` bytes is split into: `ceil(len / c)`.
pub open spec fn chunk_count(len: int, c: int) -> int
    recommends
        c >= 1,
{
    (len + c - 1) / c
}

/// The `i`-th chunk of `data` under chunk size `c`: bytes
/// `i*c .. min((i+1)*c, len)`.
pub open spec fn chunk_at(data: Seq<u8>, c: int, i: int) -> Seq<u8>
    recommends
        c >= 1,
        0 <= i < chunk_count(data.len() as int, c),
{
    data.subrange(
        i * c,
        if (i + 1) * c <= data.len() {
            (i + 1) * c
        } else {
            data.len() as int
        },
    )
}

/// All chunks of `data` in index order.
pub open spec fn chunks_of(data: Seq<u8>, c: int) -> Seq<Seq<u8>>
    recommends
        c >= 1,
{
    Seq::new(chunk_count(data.len() as int, c) as nat, |i: int| chunk_at(data, c, i))
}

/// Concatenation of a sequence of byte chunks, in order.
pub open spec fn concat_all(s: Seq<Seq<u8>>) -> Seq<u8>
    decreases s.len(),
{
    if s.len() == 0 {
        Seq::empty()
    } else {
        s[0] + concat_all(s.drop_first())
    }
}

proof fn lemma_chunk_index_bounds(len: int, c: int, i: int)
    requires
        c >= 1,
        len >= 0,
        0 <= i < chunk_count(len, c),
    ensures
        i * c < len,
        i * c + c == (i + 1) * c,
{
    assert(i * c < len) by (nonlinear_arith)
        requires
            c >= 1 && len >= 0 && 0 <= i && i < (len + c - 1) / c,
    ;
    assert(i * c + c == (i + 1) * c) by (nonlinear_arith);
}

/// Splitting a payload into chunks and concatenating them in index order
/// reproduces the payload exactly, for every payload length and every
/// positive chunk size.
pub proof fn lemma_chunking_round_trip(data: Seq<u8>, c: int)
    requires
        c >= 1,
    ensures
        chunks_of(data, c).len() == chunk_count(data.len() as int, c),
        concat_all(chunks_of(data, c)) == data,
    decreases data.len(),
{
    let cs = chunks_of(data, c);
    let len = data.len() as int;
    if data.len() == 0 {
        assert(chunk_count(0, c) == 0) by (nonlinear_arith)
            requires
                c >= 1,
        ;
        assert(concat_all(cs) =~= data);
    } else {
        let m: int = if c <= len {
            c
        } else {
            len
        };
        let rest = data.skip(m);
        lemma_chunking_round_trip(rest, c);
        assert(chunk_count(len, c) == 1 + chunk_count(len - m, c)) by (nonlinear_arith)
            requires
                c >= 1 && len >= 1 && m == (if c <= len {
                    c
                } else {
                    len
                }),
        ;
        assert(cs.drop_first() =~~= chunks_of(rest, c)) by {
            assert forall|i: int| 0 <= i < cs.drop_first().len() implies cs.drop_first()[i]
                =~= chunks_of(rest, c)[i] by {
                lemma_chunk_index_bounds(len, c, i + 1);
                assert((i + 1) * c == i * c + c) by (nonlinear_arith);
                assert((i + 2) * c == (i + 1) * c + c) by (nonlinear_arith);
            }
        }
        assert(chunk_count(len, c) >= 1) by (nonlinear_arith)
            requires
                c >= 1 && len >= 1,
        ;
        assert(cs.len() == chunk_count(len, c));
        assert(cs[0] == chunk_at(data, c, 0));
        assert(1 * c == c) by (nonlinear_arith);
        assert(0 * c == 0) by (nonlinear_arith);
        assert(chunk_at(data, c, 0) =~= data.take(m));
        assert(cs[0] =~= data.take(m));
        assert(concat_all(cs) == data.take(m) + concat_all(chunks_of(rest, c)));
        assert(data.take(m) + rest =~= data);
    }
}

/// Splits a payload into `ceil(len / CHUNK_SIZE)` chunks of at most
/// `CHUNK_SIZE` bytes each; only the final chunk may be shorter.
pub fn split_into_chunks(data: &[u8]) -> (chunks: Vec<Vec<u8>>)
    ensures
        chunks@.map_values(|v: Vec<u8>| v@) == chunks_of(data@, CHUNK_SIZE as int),
        chunks@.len() == chunk_count(data@.len() as int, CHUNK_SIZE as int),
{
    let n = data.len();
    let total = n / CHUNK_SIZE + (if n % CHUNK_SIZE != 0 {
        1
    } else {
        0
    });
    proof {
        let c = CHUNK_SIZE as int;
        let ni = n as int;
        let ti = total as int;
        assert(ti == chunk_count(ni, c)) by (nonlinear_arith)
            requires
                c >= 1 && ni >= 0 && ti == ni / c + (if ni % c != 0 {
                    1int
                } else {
                    0int
                }),
        ;
    }
    let mut chunks: Vec<Vec<u8>> = Vec::new();
    let mut i: usize = 0;
    while i < total
        invariant
            data@.len() == n,
            total == chunk_count(n as int, CHUNK_SIZE as int),
            0 <= i <= total,
            chunks@.len() == i,
            forall|j: int|
                0 <= j < i ==> chunks@[j]@ == chunk_at(data@, CHUNK_SIZE as int, j),
        decreases total - i,
    {
        proof {
            lemma_chunk_index_bounds(n as int, CHUNK_SIZE as int, i as int);
        }
        let start = i * CHUNK_SIZE;
        let end = if n - start >= CHUNK_SIZE {
            start + CHUNK_SIZE
        } else {
            n
        };
        let piece = vstd::slice::slice_to_vec(vstd::slice::slice_subrange(data, start, end));
        chunks.push(piece);
        i = i + 1;
    }
    proof {
        assert(chunks@.map_values(|v: Vec<u8>| v@) =~~= chunks_of(data@, CHUNK_SIZE as int));
    }
    chunks
}

/// Builds the datagram for one chunk.
pub fn build_packet(frame_id: u32, chunk_index: u32, total_chunks: u32, payload: &[u8]) -> (p: Vec<
    u8,
>)
    ensures
        p@ == packet_bytes(frame_id, chunk_index, total_chunks, payload@),
{
    let mut p: Vec<u8> = Vec::new();
    push_u32_be(&mut p, frame_id);
    push_u32_be(&mut p, chunk_index);
    push_u32_be(&mut p, total_chunks);
    p.extend_from_slice(payload);
    assert(p@ =~= packet_bytes(frame_id, chunk_index, total_chunks, payload@));
    p
}

} // verus!
