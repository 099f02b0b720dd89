//! The recursive chunk container: parsing and serialization.
//!
//! A file is one chunk.  An envelope chunk (`FORM` or `LIST`) holds a
//! content type id and a list of child chunks; a data chunk holds an opaque
//! payload.  Both spell their id and length in big- or little-endian order,
//! detected at the head of the file from the orientation of the envelope
//! marker.  Envelopes keep their children at even offsets by inserting a
//! single zero pad byte after a child of odd total size — except the one
//! legacy library container kind, which never pads.  Offsets are counted
//! from the start of the envelope itself, and serialization inserts pad
//! bytes exactly where parsing expects them, so parsing a serialized tree
//! gives the tree back (see `lemma_chunk_round_trip`).

use vstd::prelude::*;

use crate::error::Error;
use crate::types::TypeID;

verus! {

/// One node of the chunk tree.
#[derive(Debug)]
pub enum Chunk {
    Envelope {
        envelope_id: TypeID,
        id: TypeID,
        chunks: Vec<Chunk>,
        little_endian: bool,
        aligned: bool,
    },
    Data { id: TypeID, data: Vec<u8>, little_endian: bool },
}

/// The mathematical model of a chunk tree.
#[verifier::ext_equal]
pub enum ChunkV {
    Envelope {
        envelope_id: TypeID,
        id: TypeID,
        chunks: Seq<ChunkV>,
        little_endian: bool,
        aligned: bool,
    },
    Data { id: TypeID, data: Seq<u8>, little_endian: bool },
}

pub open spec fn chunks_view(cs: Seq<Chunk>) -> Seq<ChunkV>
    decreases cs,
{
    if cs.len() == 0 {
        Seq::empty()
    } else {
        chunks_view(cs.drop_last()).push(cs.last()@)
    }
}

impl View for Chunk {
    type V = ChunkV;

    open spec fn view(&self) -> ChunkV
        decreases self,
    {
        match self {
            Chunk::Envelope { envelope_id, id, chunks, little_endian, aligned } => {
                ChunkV::Envelope {
                    envelope_id: *envelope_id,
                    id: *id,
                    chunks: chunks_view(chunks@),
                    little_endian: *little_endian,
                    aligned: *aligned,
                }
            },
            Chunk::Data { id, data, little_endian } => {
                ChunkV::Data { id: *id, data: data@, little_endian: *little_endian }
            },
        }
    }
}

pub proof fn lemma_chunks_view_len(cs: Seq<Chunk>)
    ensures
        chunks_view(cs).len() == cs.len(),
    decreases cs,
{
    if cs.len() > 0 {
        lemma_chunks_view_len(cs.drop_last());
        assert(chunks_view(cs) == chunks_view(cs.drop_last()).push(cs.last()@));
    }
}

pub proof fn lemma_chunks_view_index(cs: Seq<Chunk>, i: int)
    requires
        0 <= i < cs.len(),
    ensures
        chunks_view(cs)[i] == cs[i]@,
    decreases cs,
{
    lemma_chunks_view_len(cs);
    if cs.len() > 0 {
        lemma_chunks_view_len(cs.drop_last());
        assert(chunks_view(cs) == chunks_view(cs.drop_last()).push(cs.last()@));
        if i < cs.len() - 1 {
            lemma_chunks_view_index(cs.drop_last(), i);
        }
    }
}

impl ChunkV {
    /// The byte order of this chunk.
    pub open spec fn endianness(self) -> bool {
        match self {
            ChunkV::Envelope { little_endian, .. } => little_endian,
            ChunkV::Data { little_endian, .. } => little_endian,
        }
    }

    /// The total serialized size of this chunk: an 8-byte header plus, for a
    /// data chunk, its payload, or, for an envelope, a 4-byte content type
    /// id plus its children, each padded to even size when aligned.
    pub open spec fn size(self) -> int
        decreases self, 0int,
    {
        match self {
            ChunkV::Envelope { chunks, aligned, .. } => 12 + body_size(chunks, aligned),
            ChunkV::Data { data, .. } => 8 + data.len() as int,
        }
    }

    /// The size of this chunk plus its pad byte, if one follows it.
    pub open spec fn padded_size(self, aligned: bool) -> int
        decreases self, 1int,
    {
        self.size() + if aligned && self.size() % 2 == 1 {
            1int
        } else {
            0int
        }
    }

    /// The serialized bytes of this chunk.
    pub open spec fn ser(self) -> Seq<u8>
        decreases self, 0int,
    {
        match self {
            ChunkV::Envelope { envelope_id, id, chunks, little_endian, aligned } => {
                id_bytes(envelope_id, little_endian) + u32_bytes(
                    (self.size() - 8) as u32,
                    little_endian,
                ) + id_bytes(id, little_endian) + ser_body(chunks, little_endian, aligned)
            },
            ChunkV::Data { id, data, little_endian } => {
                id_bytes(id, little_endian) + u32_bytes(data.len() as u32, little_endian) + data
            },
        }
    }

    /// A chunk tree that the format can represent: envelope markers are
    /// `FORM` or `LIST`, a data chunk's id is no envelope marker, alignment
    /// follows the content type id, every chunk of the tree shares one byte
    /// order, and every size fits the 32-bit length field.
    pub open spec fn wf(self) -> bool
        decreases self, 0int,
    {
        match self {
            ChunkV::Envelope { envelope_id, id, chunks, little_endian, aligned } => {
                &&& envelope_id.spec_is_envelope()
                &&& aligned == id.spec_is_aligned_kind()
                &&& self.size() <= u32::MAX
                &&& wf_children(chunks, little_endian)
            },
            ChunkV::Data { id, data, .. } => {
                &&& !id.spec_is_envelope()
                &&& data.len() <= u32::MAX - 8
            },
        }
    }
}

/// The combined size of a sequence of sibling chunks, with a pad byte after
/// each odd-sized one when the envelope is aligned.
pub open spec fn body_size(cs: Seq<ChunkV>, aligned: bool) -> int
    decreases cs, 1int,
{
    if cs.len() == 0 {
        0
    } else {
        cs[0].padded_size(aligned) + body_size(cs.drop_first(), aligned)
    }
}

/// The serialized bytes of a sequence of sibling chunks.
pub open spec fn ser_body(cs: Seq<ChunkV>, little_endian: bool, aligned: bool) -> Seq<u8>
    decreases cs, 1int,
{
    if cs.len() == 0 {
        Seq::empty()
    } else {
        ser_body_one(cs[0], aligned) + ser_body(cs.drop_first(), little_endian, aligned)
    }
}

/// One child's serialized bytes, with its pad byte if one follows it.
pub open spec fn ser_body_one(c: ChunkV, aligned: bool) -> Seq<u8>
    decreases c, 2int,
{
    c.ser() + if aligned && c.size() % 2 == 1 {
        seq![0u8]
    } else {
        Seq::<u8>::empty()
    }
}

/// Every chunk of the sequence is well-formed and has the given byte order.
pub open spec fn wf_children(cs: Seq<ChunkV>, little_endian: bool) -> bool
    decreases cs, 1int,
{
    if cs.len() == 0 {
        true
    } else {
        cs[0].wf() && cs[0].endianness() == little_endian && wf_children(
            cs.drop_first(),
            little_endian,
        )
    }
}

pub proof fn lemma_wf_children_index(cs: Seq<ChunkV>, little_endian: bool)
    requires
        wf_children(cs, little_endian),
    ensures
        forall|i: int|
            0 <= i < cs.len() ==> (#[trigger] cs[i]).wf() && cs[i].endianness() == little_endian,
    decreases cs,
{
    if cs.len() > 0 {
        lemma_wf_children_index(cs.drop_first(), little_endian);
        assert forall|i: int|
            0 <= i < cs.len() implies (#[trigger] cs[i]).wf() && cs[i].endianness()
            == little_endian by {
            if i > 0 {
                assert(cs.drop_first()[i - 1] == cs[i]);
            }
        }
    }
}

/// The four bytes of a type id, reversed when little-endian.
pub open spec fn id_bytes(t: TypeID, little_endian: bool) -> Seq<u8> {
    if little_endian {
        seq![t.3, t.2, t.1, t.0]
    } else {
        seq![t.0, t.1, t.2, t.3]
    }
}

/// The type id spelled by four bytes of the buffer.
pub open spec fn id_at(data: Seq<u8>, i: int, little_endian: bool) -> TypeID {
    if little_endian {
        TypeID(data[i + 3], data[i + 2], data[i + 1], data[i])
    } else {
        TypeID(data[i], data[i + 1], data[i + 2], data[i + 3])
    }
}

/// The four bytes of a 32-bit length field.
pub open spec fn u32_bytes(v: u32, little_endian: bool) -> Seq<u8> {
    if little_endian {
        seq![
            (v & 0xff) as u8,
            ((v >> 8) & 0xff) as u8,
            ((v >> 16) & 0xff) as u8,
            ((v >> 24) & 0xff) as u8,
        ]
    } else {
        seq![
            ((v >> 24) & 0xff) as u8,
            ((v >> 16) & 0xff) as u8,
            ((v >> 8) & 0xff) as u8,
            (v & 0xff) as u8,
        ]
    }
}

/// The 32-bit value spelled by four bytes of the buffer.
pub open spec fn u32_at(data: Seq<u8>, i: int, little_endian: bool) -> u32 {
    if little_endian {
        ((data[i] as u32) | ((data[i + 1] as u32) << 8) | ((data[i + 2] as u32) << 16) | ((data[i
            + 3] as u32) << 24)) as u32
    } else {
        (((data[i] as u32) << 24) | ((data[i + 1] as u32) << 16) | ((data[i + 2] as u32) << 8) | (
        data[i + 3] as u32)) as u32
    }
}

pub proof fn lemma_u32_bytes_roundtrip(v: u32, little_endian: bool)
    ensures
        u32_at(u32_bytes(v, little_endian), 0, little_endian) == v,
{
    assert(((((((v >> 24) & 0xff) as u8) as u32) << 24) | (((((v >> 16) & 0xff) as u8) as u32)
        << 16) | (((((v >> 8) & 0xff) as u8) as u32) << 8) | (((v & 0xff) as u8) as u32)) == v)
        by (bit_vector);
    assert((((v & 0xff) as u8) as u32) | (((((v >> 8) & 0xff) as u8) as u32) << 8) | (((((v >> 16)
        & 0xff) as u8) as u32) << 16) | (((((v >> 24) & 0xff) as u8) as u32) << 24) == v)
        by (bit_vector);
}

pub proof fn lemma_size_min(c: ChunkV)
    ensures
        c.size() >= 8,
        c matches ChunkV::Envelope { .. } ==> c.size() >= 12,
    decreases c, 1int,
{
    match c {
        ChunkV::Envelope { chunks, aligned, .. } => {
            lemma_body_size_nonneg(chunks, aligned);
        },
        ChunkV::Data { .. } => {},
    }
}

pub proof fn lemma_body_size_nonneg(cs: Seq<ChunkV>, aligned: bool)
    ensures
        body_size(cs, aligned) >= 0,
    decreases cs, 2int,
{
    if cs.len() > 0 {
        lemma_size_min(cs[0]);
        lemma_body_size_nonneg(cs.drop_first(), aligned);
        assert(body_size(cs, aligned) == cs[0].padded_size(aligned) + body_size(
            cs.drop_first(),
            aligned,
        ));
    }
}

/// In an aligned envelope every child occupies an even span, so the running
/// body size is always even there.
pub proof fn lemma_body_size_even(cs: Seq<ChunkV>)
    ensures
        body_size(cs, true) % 2 == 0,
    decreases cs,
{
    if cs.len() > 0 {
        lemma_body_size_even(cs.drop_first());
        assert(body_size(cs, true) == cs[0].padded_size(true) + body_size(cs.drop_first(), true));
    }
}

pub proof fn lemma_ser_len(c: ChunkV)
    ensures
        c.ser().len() == c.size(),
    decreases c, 0int,
{
    match c {
        ChunkV::Envelope { chunks, little_endian, aligned, .. } => {
            lemma_ser_body_len(chunks, little_endian, aligned);
        },
        ChunkV::Data { .. } => {},
    }
}

pub proof fn lemma_ser_body_len(cs: Seq<ChunkV>, little_endian: bool, aligned: bool)
    ensures
        ser_body(cs, little_endian, aligned).len() == body_size(cs, aligned),
    decreases cs, 1int,
{
    if cs.len() > 0 {
        lemma_ser_len(cs[0]);
        lemma_ser_body_len(cs.drop_first(), little_endian, aligned);
        assert(ser_body(cs, little_endian, aligned) == ser_body_one(cs[0], aligned) + ser_body(
            cs.drop_first(),
            little_endian,
            aligned,
        ));
        assert(body_size(cs, aligned) == cs[0].padded_size(aligned) + body_size(
            cs.drop_first(),
            aligned,
        ));
    }
}

pub proof fn lemma_body_size_push(cs: Seq<ChunkV>, c: ChunkV, aligned: bool)
    ensures
        body_size(cs.push(c), aligned) == body_size(cs, aligned) + c.padded_size(aligned),
    decreases cs,
{
    if cs.len() == 0 {
        assert(cs.push(c).drop_first() =~= Seq::<ChunkV>::empty());
        assert(body_size(cs.push(c), aligned) == cs.push(c)[0].padded_size(aligned) + body_size(
            cs.push(c).drop_first(),
            aligned,
        ));
    } else {
        assert(cs.push(c).drop_first() =~= cs.drop_first().push(c));
        assert(cs.push(c)[0] == cs[0]);
        lemma_body_size_push(cs.drop_first(), c, aligned);
        assert(body_size(cs.push(c), aligned) == cs.push(c)[0].padded_size(aligned) + body_size(
            cs.push(c).drop_first(),
            aligned,
        ));
        assert(body_size(cs, aligned) == cs[0].padded_size(aligned) + body_size(
            cs.drop_first(),
            aligned,
        ));
    }
}

pub proof fn lemma_ser_body_push(cs: Seq<ChunkV>, c: ChunkV, little_endian: bool, aligned: bool)
    ensures
        ser_body(cs.push(c), little_endian, aligned) == ser_body(cs, little_endian, aligned)
            + ser_body_one(c, aligned),
    decreases cs,
{
    if cs.len() == 0 {
        assert(cs.push(c).drop_first() =~= Seq::<ChunkV>::empty());
        assert(ser_body(cs.push(c), little_endian, aligned) == ser_body_one(cs.push(c)[0], aligned)
            + ser_body(cs.push(c).drop_first(), little_endian, aligned));
        assert(ser_body(cs.push(c), little_endian, aligned) =~= ser_body(cs, little_endian, aligned)
            + ser_body_one(c, aligned));
    } else {
        assert(cs.push(c).drop_first() =~= cs.drop_first().push(c));
        assert(cs.push(c)[0] == cs[0]);
        lemma_ser_body_push(cs.drop_first(), c, little_endian, aligned);
        assert(ser_body(cs.push(c), little_endian, aligned) == ser_body_one(cs.push(c)[0], aligned)
            + ser_body(cs.push(c).drop_first(), little_endian, aligned));
        assert(ser_body(cs, little_endian, aligned) == ser_body_one(cs[0], aligned) + ser_body(
            cs.drop_first(),
            little_endian,
            aligned,
        ));
        assert(ser_body(cs.push(c), little_endian, aligned) =~= ser_body(cs, little_endian, aligned)
            + ser_body_one(c, aligned));
    }
}

} // verus!


verus! {

/// Resolves the byte order and the leading type id of a chunk that starts
/// at `index`.  With a known order the id is read in that order; otherwise
/// a forward-spelled envelope marker fixes big-endian, a reverse-spelled
/// one fixes little-endian (un-reversing the id), and anything else leaves
/// the order unresolved.
pub open spec fn resolve_order(data: Seq<u8>, index: int, little_endian: Option<bool>) -> Option<
    (TypeID, bool),
> {
    match little_endian {
        Some(b) => Some((id_at(data, index, b), b)),
        None => {
            let id = id_at(data, index, false);
            if id.spec_is_envelope() {
                Some((id, false))
            } else if id.spec_is_le_envelope() {
                Some((id.spec_reverse(), true))
            } else {
                None
            }
        },
    }
}

/// What parsing one chunk from `data[index..last]` gives.  This is the
/// functional model of `Chunk::from_data_full`: the executable parser is
/// proved to return exactly this.
pub open spec fn spec_parse(
    data: Seq<u8>,
    index: int,
    last: int,
    little_endian: Option<bool>,
    size_override: Option<int>,
) -> Result<ChunkV, Error>
    decreases last - index, 0int,
{
    if last - index < 8 {
        Err(Error::Truncated)
    } else {
        match resolve_order(data, index, little_endian) {
            None => Err(Error::ByteOrderRequired),
            Some((id, le)) => {
                let size = match size_override {
                    Some(s) => s,
                    None => u32_at(data, index + 4, le) as int,
                };
                if size > last - index - 8 {
                    Err(Error::LengthOverrun)
                } else if id.spec_is_envelope() {
                    if size < 4 {
                        Err(Error::EnvelopeTooShort)
                    } else {
                        let data_id = id_at(data, index + 8, le);
                        let aligned = data_id.spec_is_aligned_kind();
                        match spec_parse_children(
                            data,
                            index + 12,
                            index + 8 + size,
                            le,
                            aligned,
                            index,
                        ) {
                            Err(e) => Err(e),
                            Ok(chunks) => Ok(
                                ChunkV::Envelope {
                                    envelope_id: id,
                                    id: data_id,
                                    chunks,
                                    little_endian: le,
                                    aligned,
                                },
                            ),
                        }
                    }
                } else {
                    Ok(
                        ChunkV::Data {
                            id,
                            data: data.subrange(index + 8, index + 8 + size),
                            little_endian: le,
                        },
                    )
                }
            },
        }
    }
}

/// What parsing the children of an envelope gives, walking `data[i..end]`:
/// each child is parsed with the now-known byte order, and the walk
/// advances by the child's total size plus a pad byte at odd offsets
/// (counted from `origin`, the envelope's own start) when aligned.
pub open spec fn spec_parse_children(
    data: Seq<u8>,
    i: int,
    end: int,
    little_endian: bool,
    aligned: bool,
    origin: int,
) -> Result<Seq<ChunkV>, Error>
    decreases end - i, 1int,
{
    if i >= end {
        Ok(Seq::empty())
    } else {
        match spec_parse(data, i, end, Some(little_endian), None) {
            Err(e) => Err(e),
            Ok(c) => {
                let stepped = i + c.size() + if aligned && (i + c.size() - origin) % 2 != 0 {
                    1int
                } else {
                    0int
                };
                let next = if stepped > end {
                    end
                } else {
                    stepped
                };
                proof {
                    lemma_size_min(c);
                }
                match spec_parse_children(data, next, end, little_endian, aligned, origin) {
                    Err(e) => Err(e),
                    Ok(rest) => Ok(seq![c] + rest),
                }
            },
        }
    }
}

} // verus!

verus! {

proof fn lemma_id_at_of_bytes(data: Seq<u8>, j: int, t: TypeID, little_endian: bool)
    requires
        0 <= j,
        j + 4 <= data.len(),
        forall|k: int| 0 <= k < 4 ==> data[j + k] == id_bytes(t, little_endian)[k],
    ensures
        id_at(data, j, little_endian) == t,
{
    assert(data[j + 0] == id_bytes(t, little_endian)[0]);
    assert(data[j + 1] == id_bytes(t, little_endian)[1]);
    assert(data[j + 2] == id_bytes(t, little_endian)[2]);
    assert(data[j + 3] == id_bytes(t, little_endian)[3]);
}

proof fn lemma_u32_at_of_bytes(data: Seq<u8>, j: int, v: u32, little_endian: bool)
    requires
        0 <= j,
        j + 4 <= data.len(),
        forall|k: int| 0 <= k < 4 ==> data[j + k] == u32_bytes(v, little_endian)[k],
    ensures
        u32_at(data, j, little_endian) == v,
{
    lemma_u32_bytes_roundtrip(v, little_endian);
    assert(data[j + 0] == u32_bytes(v, little_endian)[0]);
    assert(data[j + 1] == u32_bytes(v, little_endian)[1]);
    assert(data[j + 2] == u32_bytes(v, little_endian)[2]);
    assert(data[j + 3] == u32_bytes(v, little_endian)[3]);
    assert(u32_bytes(v, little_endian)[0] == u32_at(u32_bytes(v, little_endian), 0, little_endian)
        || true);
}

/// Parsing the serialization of a well-formed chunk, embedded at `index` in
/// a larger buffer, gives that chunk back.  The byte order may be passed
/// explicitly, or, for an envelope, left to be detected from the marker.
pub proof fn lemma_parse_of_ser(
    c: ChunkV,
    data: Seq<u8>,
    index: int,
    last: int,
    le_arg: Option<bool>,
)
    requires
        c.wf(),
        0 <= index,
        index + c.size() <= last,
        last <= data.len(),
        data.subrange(index, index + c.size()) == c.ser(),
        le_arg == Some(c.endianness()) || (le_arg is None && c is Envelope),
    ensures
        spec_parse(data, index, last, le_arg, None) == Ok::<ChunkV, Error>(c),
    decreases c, 0int,
{
    lemma_size_min(c);
    lemma_ser_len(c);
    let n = c.size();
    assert forall|k: int| 0 <= k < n implies data[index + k] == c.ser()[k] by {
        assert(data.subrange(index, index + n)[k] == data[index + k]);
    }
    match c {
        ChunkV::Data { id, data: payload, little_endian: le } => {
            assert(le_arg == Some(le));
            assert forall|k: int| 0 <= k < 4 implies data[index + k] == id_bytes(id, le)[k] by {
                assert(c.ser()[k] == id_bytes(id, le)[k]);
            }
            lemma_id_at_of_bytes(data, index, id, le);
            assert(resolve_order(data, index, le_arg) == Some((id, le)));
            let lenv = payload.len() as u32;
            assert forall|k: int| 0 <= k < 4 implies data[index + 4 + k] == u32_bytes(lenv, le)[k] by {
                assert(c.ser()[4 + k] == u32_bytes(lenv, le)[k]);
            }
            lemma_u32_at_of_bytes(data, index + 4, lenv, le);
            let size = lenv as int;
            assert(size == n - 8);
            assert(!id.spec_is_envelope());
            assert(data.subrange(index + 8, index + 8 + size) =~= payload) by {
                assert forall|k: int| 0 <= k < size implies data.subrange(
                    index + 8,
                    index + 8 + size,
                )[k] == payload[k] by {
                    assert(data[index + 8 + k] == c.ser()[8 + k]);
                    assert(c.ser()[8 + k] == payload[k]);
                }
            }
            assert(spec_parse(data, index, last, le_arg, None) == Ok::<ChunkV, Error>(c));
        },
        ChunkV::Envelope { envelope_id: eid, id: cid, chunks, little_endian: le, aligned } => {
            assert forall|k: int| 0 <= k < 4 implies data[index + k] == id_bytes(eid, le)[k] by {
                assert(c.ser()[k] == id_bytes(eid, le)[k]);
            }
            lemma_id_at_of_bytes(data, index, eid, le);
            if le_arg is Some {
                assert(resolve_order(data, index, le_arg) == Some((eid, le)));
            } else {
                if !le {
                    assert(id_at(data, index, false) == eid);
                    assert(resolve_order(data, index, le_arg) == Some((eid, false)));
                } else {
                    assert forall|k: int| 0 <= k < 4 implies data[index + k] == id_bytes(
                        eid.spec_reverse(),
                        false,
                    )[k] by {
                        assert(c.ser()[k] == id_bytes(eid, le)[k]);
                    }
                    lemma_id_at_of_bytes(data, index, eid.spec_reverse(), false);
                    assert(!eid.spec_reverse().spec_is_envelope());
                    assert(eid.spec_reverse().spec_is_le_envelope());
                    assert(resolve_order(data, index, le_arg) == Some((eid, true)));
                }
            }
            let szv = (n - 8) as u32;
            assert forall|k: int| 0 <= k < 4 implies data[index + 4 + k] == u32_bytes(szv, le)[k] by {
                assert(c.ser()[4 + k] == u32_bytes(szv, le)[k]);
            }
            lemma_u32_at_of_bytes(data, index + 4, szv, le);
            let size = szv as int;
            assert(size == n - 8);
            lemma_body_size_nonneg(chunks, aligned);
            assert(size >= 4);
            assert forall|k: int| 0 <= k < 4 implies data[index + 8 + k] == id_bytes(cid, le)[k] by {
                assert(c.ser()[8 + k] == id_bytes(cid, le)[k]);
            }
            lemma_id_at_of_bytes(data, index + 8, cid, le);
            let end = index + 8 + size;
            lemma_ser_body_len(chunks, le, aligned);
            assert(data.subrange(index + 12, end) =~= ser_body(chunks, le, aligned)) by {
                assert forall|k: int| 0 <= k < size - 4 implies data.subrange(index + 12, end)[k]
                    == ser_body(chunks, le, aligned)[k] by {
                    assert(data[index + 12 + k] == c.ser()[12 + k]);
                    assert(c.ser()[12 + k] == ser_body(chunks, le, aligned)[k]);
                }
            }
            lemma_parse_children_of_ser(chunks, data, index + 12, end, index, le, aligned);
            assert(spec_parse_children(data, index + 12, end, le, aligned, index) == Ok::<Seq<ChunkV>, Error>(chunks));
            assert(spec_parse(data, index, last, le_arg, None) == Ok::<ChunkV, Error>(c));
        },
    }
}

/// Parsing a window that holds exactly the serialized bytes of a sequence
/// of well-formed sibling chunks gives those chunks back.
pub proof fn lemma_parse_children_of_ser(
    cs: Seq<ChunkV>,
    data: Seq<u8>,
    i: int,
    end: int,
    origin: int,
    little_endian: bool,
    aligned: bool,
)
    requires
        wf_children(cs, little_endian),
        0 <= origin <= i,
        i + body_size(cs, aligned) == end,
        end <= data.len(),
        data.subrange(i, end) == ser_body(cs, little_endian, aligned),
        aligned ==> (i - origin) % 2 == 0,
    ensures
        spec_parse_children(data, i, end, little_endian, aligned, origin) == Ok::<Seq<ChunkV>, Error>(cs),
    decreases cs, 1int,
{
    if cs.len() == 0 {
        assert(i == end);
        assert(Ok::<Seq<ChunkV>, Error>(Seq::empty()) == Ok::<Seq<ChunkV>, Error>(cs)) by {
            assert(cs =~= Seq::<ChunkV>::empty());
        }
    } else {
        let c0 = cs[0];
        let rest = cs.drop_first();
        assert(body_size(cs, aligned) == c0.padded_size(aligned) + body_size(rest, aligned));
        assert(ser_body(cs, little_endian, aligned) == ser_body_one(c0, aligned) + ser_body(
            rest,
            little_endian,
            aligned,
        ));
        lemma_size_min(c0);
        lemma_ser_len(c0);
        lemma_body_size_nonneg(rest, aligned);
        lemma_ser_body_len(rest, little_endian, aligned);
        lemma_ser_body_len(cs, little_endian, aligned);
        assert(i < end);
        let sb = ser_body(cs, little_endian, aligned);
        assert forall|k: int| 0 <= k < end - i implies data[i + k] == sb[k] by {
            assert(data.subrange(i, end)[k] == data[i + k]);
        }
        let nsz = c0.size();
        assert(ser_body_one(c0, aligned).len() == c0.padded_size(aligned));
        assert(data.subrange(i, i + nsz) =~= c0.ser()) by {
            assert forall|k: int| 0 <= k < nsz implies data.subrange(i, i + nsz)[k]
                == c0.ser()[k] by {
                assert(data[i + k] == sb[k]);
                assert(sb[k] == ser_body_one(c0, aligned)[k]);
                assert(ser_body_one(c0, aligned)[k] == c0.ser()[k]);
            }
        }
        assert(c0.wf() && c0.endianness() == little_endian);
        lemma_parse_of_ser(c0, data, i, end, Some(little_endian));
        assert(spec_parse(data, i, end, Some(little_endian), None) == Ok::<ChunkV, Error>(c0));
        let stepped = i + nsz + if aligned && (i + nsz - origin) % 2 != 0 {
            1int
        } else {
            0int
        };
        assert(stepped == i + c0.padded_size(aligned)) by {
            if aligned {
                assert((i - origin) % 2 == 0);
                assert((i + nsz - origin) % 2 == nsz % 2) by {
                    let d = i - origin;
                    assert(d % 2 == 0);
                    assert((d + nsz) % 2 == nsz % 2) by (nonlinear_arith)
                        requires
                            d % 2 == 0,
                            nsz >= 0,
                            d >= 0,
                    ;
                }
            }
        }
        assert(stepped <= end);
        assert(data.subrange(stepped, end) =~= ser_body(rest, little_endian, aligned)) by {
            assert forall|k: int| 0 <= k < end - stepped implies data.subrange(stepped, end)[k]
                == ser_body(rest, little_endian, aligned)[k] by {
                assert(data[stepped + k] == sb[stepped - i + k]);
                assert(sb[stepped - i + k] == ser_body(rest, little_endian, aligned)[k]);
            }
        }
        if aligned {
            assert((stepped - origin) % 2 == 0) by {
                let d = i - origin;
                let p = c0.padded_size(aligned);
                assert(p % 2 == 0);
                assert(d % 2 == 0);
                assert((d + p) % 2 == 0) by (nonlinear_arith)
                    requires
                        d % 2 == 0,
                        p % 2 == 0,
                        d >= 0,
                        p >= 0,
                ;
            }
        }
        lemma_parse_children_of_ser(rest, data, stepped, end, origin, little_endian, aligned);
        assert(spec_parse_children(data, stepped, end, little_endian, aligned, origin) == Ok::<Seq<ChunkV>, Error>(rest));
        assert(seq![c0] + rest =~= cs);
        assert(spec_parse_children(data, i, end, little_endian, aligned, origin) == Ok::<Seq<ChunkV>, Error>(cs));
    }
}

/// Round trip: parsing the serialization of any well-formed chunk tree,
/// with its byte order given, yields the tree itself.
pub proof fn lemma_chunk_round_trip(c: ChunkV)
    requires
        c.wf(),
    ensures
        spec_parse(c.ser(), 0, c.ser().len() as int, Some(c.endianness()), None) == Ok::<ChunkV, Error>(c),
{
    lemma_ser_len(c);
    assert(c.ser().subrange(0, c.size()) =~= c.ser());
    lemma_parse_of_ser(c, c.ser(), 0, c.ser().len() as int, Some(c.endianness()));
}

/// Byte-order detection: a well-formed envelope serializes to a buffer that
/// parses back to the same envelope even when no byte order is given; in
/// particular a little-endian envelope, whose leading four bytes are the
/// reversed spelling of its marker, is detected as little-endian and its
/// marker un-reversed.
pub proof fn lemma_byte_order_detection(c: ChunkV)
    requires
        c.wf(),
        c is Envelope,
    ensures
        spec_parse(c.ser(), 0, c.ser().len() as int, None, None) == Ok::<ChunkV, Error>(c),
{
    lemma_ser_len(c);
    assert(c.ser().subrange(0, c.size()) =~= c.ser());
    lemma_parse_of_ser(c, c.ser(), 0, c.ser().len() as int, None);
}

} // verus!

verus! {

pub open spec fn opt_int(o: Option<usize>) -> Option<int> {
    match o {
        Some(s) => Some(s as int),
        None => None,
    }
}

/// An integer clamped to what a `usize` can hold.
pub open spec fn sat_usize(v: int) -> int {
    if v > usize::MAX as int {
        usize::MAX as int
    } else {
        v
    }
}

fn read_id(data: &[u8], index: usize, little_endian: bool) -> (r: TypeID)
    requires
        index + 4 <= data@.len(),
    ensures
        r == id_at(data@, index as int, little_endian),
{
    let n: usize = data.len();
    if little_endian {
        TypeID(data[index + 3], data[index + 2], data[index + 1], data[index])
    } else {
        TypeID(data[index], data[index + 1], data[index + 2], data[index + 3])
    }
}

fn read_u32_at(data: &[u8], index: usize, little_endian: bool) -> (r: u32)
    requires
        index + 4 <= data@.len(),
    ensures
        r == u32_at(data@, index as int, little_endian),
{
    let n: usize = data.len();
    if little_endian {
        (data[index] as u32) | ((data[index + 1] as u32) << 8) | ((data[index + 2] as u32) << 16)
            | ((data[index + 3] as u32) << 24)
    } else {
        ((data[index] as u32) << 24) | ((data[index + 1] as u32) << 16) | ((data[index + 2] as u32)
            << 8) | (data[index + 3] as u32)
    }
}

/// The loop invariant of the child-parsing walk: what remains to be parsed,
/// prepended with what has been parsed, gives the whole body's result.
pub open spec fn children_walk_inv(
    data: Seq<u8>,
    start: int,
    i: int,
    end: int,
    little_endian: bool,
    aligned: bool,
    origin: int,
    done: Seq<ChunkV>,
) -> bool {
    match spec_parse_children(data, i, end, little_endian, aligned, origin) {
        Ok(rest) => spec_parse_children(data, start, end, little_endian, aligned, origin) == Ok::<
            Seq<ChunkV>,
            Error,
        >(done + rest),
        Err(e) => spec_parse_children(data, start, end, little_endian, aligned, origin) == Err::<
            Seq<ChunkV>,
            Error,
        >(e),
    }
}


proof fn lemma_sat_usize_add(a: int, b: int)
    requires
        a >= 0,
        b >= 0,
    ensures
        (if sat_usize(a) + sat_usize(b) > usize::MAX as int {
            usize::MAX as int
        } else {
            sat_usize(a) + sat_usize(b)
        }) == sat_usize(a + b),
{
}

proof fn lemma_children_walk_step(
    data: Seq<u8>,
    start: int,
    i: int,
    end: int,
    little_endian: bool,
    aligned: bool,
    origin: int,
    done: Seq<ChunkV>,
    c: ChunkV,
    inext: int,
)
    requires
        children_walk_inv(data, start, i, end, little_endian, aligned, origin, done),
        i < end,
        spec_parse(data, i, end, Some(little_endian), None) == Ok::<ChunkV, Error>(c),
        inext == ({
            let stepped = i + c.size() + if aligned && (i + c.size() - origin) % 2 != 0 {
                1int
            } else {
                0int
            };
            if stepped > end {
                end
            } else {
                stepped
            }
        }),
    ensures
        children_walk_inv(data, start, inext, end, little_endian, aligned, origin, done.push(c)),
{
    assert(spec_parse_children(data, i, end, little_endian, aligned, origin) == match
        spec_parse_children(data, inext, end, little_endian, aligned, origin) {
        Ok(rest) => Ok::<Seq<ChunkV>, Error>(seq![c] + rest),
        Err(e) => Err::<Seq<ChunkV>, Error>(e),
    });
    match spec_parse_children(data, inext, end, little_endian, aligned, origin) {
        Ok(rest) => {
            assert(done + (seq![c] + rest) =~= done.push(c) + rest);
        },
        Err(e) => {},
    }
}

impl Chunk {
    /// Parses one chunk from the whole buffer.  With `little_endian` absent
    /// the byte order is detected from the leading envelope marker.
    pub fn from_data(data: &[u8], little_endian: Option<bool>) -> (r: Result<Chunk, Error>)
        ensures
            match r {
                Ok(c) => spec_parse(data@, 0, data@.len() as int, little_endian, None) == Ok::<
                    ChunkV,
                    Error,
                >(c@),
                Err(e) => spec_parse(data@, 0, data@.len() as int, little_endian, None) == Err::<
                    ChunkV,
                    Error,
                >(e),
            },
    {
        match Self::from_data_full(data, 0, data.len(), little_endian, None) {
            Ok((c, _)) => Ok(c),
            Err(e) => Err(e),
        }
    }

    /// Parses one chunk, overriding the declared length of the leading
    /// chunk.  One legacy producer hard-codes a length of 4 while the
    /// content fills the rest of the file; a caller that detects this calls
    /// here with the true length.
    pub fn from_data_with_size(data: &[u8], size_override: usize, little_endian: Option<bool>) -> (r:
        Result<Chunk, Error>)
        ensures
            match r {
                Ok(c) => spec_parse(
                    data@,
                    0,
                    data@.len() as int,
                    little_endian,
                    Some(size_override as int),
                ) == Ok::<ChunkV, Error>(c@),
                Err(e) => spec_parse(
                    data@,
                    0,
                    data@.len() as int,
                    little_endian,
                    Some(size_override as int),
                ) == Err::<ChunkV, Error>(e),
            },
    {
        match Self::from_data_full(data, 0, data.len(), little_endian, Some(size_override)) {
            Ok((c, _)) => Ok(c),
            Err(e) => Err(e),
        }
    }

    /// The byte order of this chunk.
    pub fn is_little_endian(&self) -> (r: bool)
        ensures
            r == self@.endianness(),
    {
        match self {
            Chunk::Envelope { little_endian, .. } => *little_endian,
            Chunk::Data { little_endian, .. } => *little_endian,
        }
    }

    fn from_data_full(
        data: &[u8],
        index: usize,
        last_index: usize,
        little_endian: Option<bool>,
        size_override: Option<usize>,
    ) -> (r: Result<(Chunk, usize), Error>)
        requires
            last_index <= data@.len(),
        ensures
            match r {
                Ok(p) => spec_parse(
                    data@,
                    index as int,
                    last_index as int,
                    little_endian,
                    opt_int(size_override),
                ) == Ok::<ChunkV, Error>(p.0@) && p.1 as int == sat_usize(p.0@.size()) && p.1 >= 8,
                Err(e) => spec_parse(
                    data@,
                    index as int,
                    last_index as int,
                    little_endian,
                    opt_int(size_override),
                ) == Err::<ChunkV, Error>(e),
            },
        decreases last_index - index,
    {
        if last_index < 8 || index > last_index - 8 {
            return Err(Error::Truncated);
        }
        let (id0, le2): (TypeID, bool) = match little_endian {
            Some(b) => (read_id(data, index, b), b),
            None => {
                let id = read_id(data, index, false);
                if id.is_envelope() {
                    (id, false)
                } else if id.is_le_envelope() {
                    (id.reverse(), true)
                } else {
                    return Err(Error::ByteOrderRequired);
                }
            },
        };
        assert(resolve_order(data@, index as int, little_endian) == Some((id0, le2)));
        let size: usize = match size_override {
            Some(s) => s,
            None => read_u32_at(data, index + 4, le2) as usize,
        };
        if size > last_index - index - 8 {
            return Err(Error::LengthOverrun);
        }
        if id0.is_envelope() {
            if size < 4 {
                return Err(Error::EnvelopeTooShort);
            }
            let data_id = read_id(data, index + 8, le2);
            let aligned = data_id.is_aligned_kind();
            let end = index + 8 + size;
            let ghost outer_children = spec_parse_children(
                data@,
                index + 12,
                end as int,
                le2,
                aligned,
                index as int,
            );
            proof {
                assert(spec_parse(
                    data@,
                    index as int,
                    last_index as int,
                    little_endian,
                    opt_int(size_override),
                ) == match outer_children {
                    Ok(cs) => Ok::<ChunkV, Error>(
                        ChunkV::Envelope {
                            envelope_id: id0,
                            id: data_id,
                            chunks: cs,
                            little_endian: le2,
                            aligned,
                        },
                    ),
                    Err(e) => Err::<ChunkV, Error>(e),
                });
            }
            let mut children: Vec<Chunk> = Vec::new();
            let mut i: usize = index + 12;
            let mut cons: usize = 12;
            proof {
                assert(chunks_view(children@) =~= Seq::<ChunkV>::empty());
                if outer_children is Ok {
                    assert(Seq::<ChunkV>::empty() + outer_children->Ok_0 =~= outer_children->Ok_0);
                }
            }
            while i < end
                invariant
                    index + 12 <= i <= end,
                    end == index + 8 + size,
                    index + 8 + size <= last_index <= data@.len(),
                    size >= 4,
                    cons as int == sat_usize(12 + body_size(chunks_view(children@), aligned)),
                    cons >= 12,
                    outer_children == spec_parse_children(
                        data@,
                        index + 12,
                        end as int,
                        le2,
                        aligned,
                        index as int,
                    ),
                    spec_parse(
                        data@,
                        index as int,
                        last_index as int,
                        little_endian,
                        opt_int(size_override),
                    ) == match outer_children {
                        Ok(cs) => Ok::<ChunkV, Error>(
                            ChunkV::Envelope {
                                envelope_id: id0,
                                id: data_id,
                                chunks: cs,
                                little_endian: le2,
                                aligned,
                            },
                        ),
                        Err(e) => Err::<ChunkV, Error>(e),
                    },
                    children_walk_inv(
                        data@,
                        index + 12,
                        i as int,
                        end as int,
                        le2,
                        aligned,
                        index as int,
                        chunks_view(children@),
                    ),
                decreases end - i,
            {
                let child = match Self::from_data_full(data, i, end, Some(le2), None) {
                    Ok(p) => p,
                    Err(e) => {
                        proof {
                            assert(spec_parse_children(
                                data@,
                                i as int,
                                end as int,
                                le2,
                                aligned,
                                index as int,
                            ) == Err::<Seq<ChunkV>, Error>(e));
                        }
                        return Err(e);
                    },
                };
                let (c, ccons) = child;
                let ghost cv = c@;
                let ghost prev_seq = children@;
                let ghost prev_done = chunks_view(children@);
                let ghost i_old = i as int;
                let ghost body_old = body_size(prev_done, aligned);
                proof {
                    lemma_size_min(cv);
                    lemma_body_size_nonneg(prev_done, aligned);
                }
                i = i.saturating_add(ccons);
                if i > end {
                    i = end;
                }
                proof {
                    lemma_sat_usize_add(i_old, cv.size());
                    assert(i as int == (if i_old + cv.size() > end {
                        end as int
                    } else {
                        i_old + cv.size()
                    }));
                }
                if aligned && i < end && (i - index) % 2 == 1 {
                    i = i + 1;
                }
                proof {
                    let stepped = i_old + cv.size() + if aligned && (i_old + cv.size() - index)
                        % 2 != 0 {
                        1int
                    } else {
                        0int
                    };
                    assert(i as int == (if stepped > end {
                        end as int
                    } else {
                        stepped
                    }));
                }
                cons = cons.saturating_add(ccons);
                proof {
                    lemma_sat_usize_add(12 + body_old, cv.size());
                    assert(cons as int == sat_usize(12 + body_old + cv.size()));
                }
                if aligned && cons % 2 == 1 {
                    cons = cons.saturating_add(1);
                }
                proof {
                    if aligned {
                        lemma_body_size_even(prev_done);
                        lemma_sat_usize_add(12 + body_old + cv.size(), 1);
                    }
                    assert(cons as int == sat_usize(12 + body_old + cv.padded_size(aligned)));
                }
                children.push(c);
                proof {
                    assert(chunks_view(children@) == prev_done.push(cv)) by {
                        assert(children@.drop_last() =~= prev_seq);
                        assert(chunks_view(children@) == chunks_view(children@.drop_last()).push(
                            children@.last()@,
                        ));
                    }
                    lemma_body_size_push(prev_done, cv, aligned);
                    lemma_children_walk_step(
                        data@,
                        index + 12,
                        i_old,
                        end as int,
                        le2,
                        aligned,
                        index as int,
                        prev_done,
                        cv,
                        i as int,
                    );
                }
            }
            proof {
                assert(spec_parse_children(data@, end as int, end as int, le2, aligned, index as int)
                    == Ok::<Seq<ChunkV>, Error>(Seq::empty()));
                assert(chunks_view(children@) + Seq::<ChunkV>::empty() =~= chunks_view(
                    children@,
                ));
                assert(outer_children == Ok::<Seq<ChunkV>, Error>(chunks_view(children@)));
            }
            let result = Chunk::Envelope {
                envelope_id: id0,
                id: data_id,
                chunks: children,
                little_endian: le2,
                aligned,
            };
            Ok((result, cons))
        } else {
            let mut payload: Vec<u8> = Vec::new();
            let mut k: usize = 0;
            while k < size
                invariant
                    k <= size,
                    index + 8 + size <= last_index <= data@.len(),
                    payload@ == data@.subrange(index + 8, index + 8 + k),
                decreases size - k,
            {
                payload.push(data[index + 8 + k]);
                k = k + 1;
                proof {
                    assert(payload@ =~= data@.subrange(index + 8, index + 8 + k));
                }
            }
            proof {
                assert(payload@ =~= data@.subrange(index + 8, index + 8 + size));
            }
            Ok((Chunk::Data { id: id0, data: payload, little_endian: le2 }, 8 + size))
        }
    }
}

} // verus!

verus! {

pub proof fn lemma_body_size_concat(a: Seq<ChunkV>, b: Seq<ChunkV>, aligned: bool)
    ensures
        body_size(a + b, aligned) == body_size(a, aligned) + body_size(b, aligned),
    decreases a,
{
    if a.len() == 0 {
        assert(a + b =~= b);
    } else {
        assert((a + b).drop_first() =~= a.drop_first() + b);
        assert((a + b)[0] == a[0]);
        lemma_body_size_concat(a.drop_first(), b, aligned);
        assert(body_size(a + b, aligned) == (a + b)[0].padded_size(aligned) + body_size(
            (a + b).drop_first(),
            aligned,
        ));
        assert(body_size(a, aligned) == a[0].padded_size(aligned) + body_size(
            a.drop_first(),
            aligned,
        ));
    }
}

fn push_id(out: &mut Vec<u8>, t: TypeID, little_endian: bool)
    ensures
        final(out)@ == old(out)@ + id_bytes(t, little_endian),
{
    if little_endian {
        out.push(t.3);
        out.push(t.2);
        out.push(t.1);
        out.push(t.0);
    } else {
        out.push(t.0);
        out.push(t.1);
        out.push(t.2);
        out.push(t.3);
    }
    proof {
        assert(out@ =~= old(out)@ + id_bytes(t, little_endian));
    }
}

fn push_u32(out: &mut Vec<u8>, v: u32, little_endian: bool)
    ensures
        final(out)@ == old(out)@ + u32_bytes(v, little_endian),
{
    if little_endian {
        out.push((v & 0xff) as u8);
        out.push(((v >> 8) & 0xff) as u8);
        out.push(((v >> 16) & 0xff) as u8);
        out.push(((v >> 24) & 0xff) as u8);
    } else {
        out.push(((v >> 24) & 0xff) as u8);
        out.push(((v >> 16) & 0xff) as u8);
        out.push(((v >> 8) & 0xff) as u8);
        out.push((v & 0xff) as u8);
    }
    proof {
        assert(out@ =~= old(out)@ + u32_bytes(v, little_endian));
    }
}

impl Chunk {
    /// Creates an empty envelope chunk; alignment follows the content id.
    pub fn create(envelope_id: TypeID, id: TypeID, little_endian: bool) -> (r: Chunk)
        ensures
            r@ == (ChunkV::Envelope {
                envelope_id,
                id,
                chunks: Seq::empty(),
                little_endian,
                aligned: id.spec_is_aligned_kind(),
            }),
    {
        let aligned = id.is_aligned_kind();
        let r = Chunk::Envelope { envelope_id, id, chunks: Vec::new(), little_endian, aligned };
        proof {
            assert(chunks_view(Seq::<Chunk>::empty()) =~= Seq::<ChunkV>::empty());
        }
        r
    }

    /// Appends a child to an envelope chunk.
    pub fn append_chunk(&mut self, chunk: Chunk)
        requires
            old(self)@ is Envelope,
        ensures
            final(self)@ == (ChunkV::Envelope {
                envelope_id: old(self)@->Envelope_envelope_id,
                id: old(self)@->Envelope_id,
                chunks: old(self)@->Envelope_chunks.push(chunk@),
                little_endian: old(self)@->Envelope_little_endian,
                aligned: old(self)@->Envelope_aligned,
            }),
    {
        match self {
            Chunk::Envelope { chunks, .. } => {
                let ghost prev = chunks@;
                chunks.push(chunk);
                proof {
                    assert(chunks@.drop_last() =~= prev);
                    assert(chunks_view(chunks@) == chunks_view(chunks@.drop_last()).push(
                        chunks@.last()@,
                    ));
                }
            },
            Chunk::Data { .. } => {
                proof {
                    assert(false);
                }
            },
        }
    }

    /// The content type id of an envelope, or the id of a data chunk.
    pub fn id(&self) -> (r: TypeID)
        ensures
            r == (match self@ {
                ChunkV::Envelope { id, .. } => id,
                ChunkV::Data { id, .. } => id,
            }),
    {
        match self {
            Chunk::Envelope { id, .. } => *id,
            Chunk::Data { id, .. } => *id,
        }
    }

    /// Whether this is an envelope chunk with the given envelope and content
    /// type ids.
    pub fn has_envelope_type(&self, envelope_type_id: TypeID, type_id: TypeID) -> (r: bool)
        ensures
            r == (self@ matches ChunkV::Envelope { envelope_id, id, .. } && envelope_id
                == envelope_type_id && id == type_id),
    {
        match self {
            Chunk::Envelope { envelope_id, id, .. } => *envelope_id == envelope_type_id && *id
                == type_id,
            _ => false,
        }
    }

    /// Whether this is a data chunk with the given type id.
    pub fn has_data_type(&self, type_id: TypeID) -> (r: bool)
        ensures
            r == (self@ matches ChunkV::Data { id, .. } && id == type_id),
    {
        match self {
            Chunk::Data { id, .. } => *id == type_id,
            _ => false,
        }
    }

    /// The total serialized size of this chunk.
    #[verifier::loop_isolation(false)]
    pub fn size(&self) -> (r: usize)
        requires
            self@.wf(),
        ensures
            r as int == self@.size(),
        decreases *self,
    {
        match self {
            Chunk::Data { data, .. } => 8 + data.len(),
            Chunk::Envelope { chunks, little_endian, aligned, .. } => {
                let ghost cvs = chunks_view(chunks@);
                proof {
                    lemma_chunks_view_len(chunks@);
                    lemma_wf_children_index(cvs, *little_endian);
                }
                let n = chunks.len();
                let mut acc: usize = 12;
                let mut j: usize = 0;
                proof {
                    assert(cvs.take(0) =~= Seq::<ChunkV>::empty());
                }
                while j < n
                    invariant
                        j <= n,
                        n == chunks@.len(),
                        cvs == chunks_view(chunks@),
                        cvs.len() == n,
                        self@.wf(),
                        self@ == (ChunkV::Envelope {
                            envelope_id: self@->Envelope_envelope_id,
                            id: self@->Envelope_id,
                            chunks: cvs,
                            little_endian: *little_endian,
                            aligned: *aligned,
                        }),
                        forall|k: int|
                            0 <= k < n ==> (#[trigger] cvs[k]).wf() && cvs[k].endianness()
                                == *little_endian,
                        acc as int == 12 + body_size(cvs.take(j as int), *aligned),
                        acc <= u32::MAX,
                    decreases n - j,
                {
                    proof {
                        lemma_chunks_view_index(chunks@, j as int);
                        assert(cvs.take(j + 1) =~= cvs.take(j as int).push(cvs[j as int]));
                        lemma_body_size_push(cvs.take(j as int), cvs[j as int], *aligned);
                        assert(cvs.take(n as int) =~= cvs);
                        lemma_body_size_concat(cvs.take(j + 1), cvs.skip(j + 1), *aligned);
                        assert(cvs.take(j + 1) + cvs.skip(j + 1) =~= cvs);
                        lemma_body_size_nonneg(cvs.skip(j + 1), *aligned);
                        lemma_size_min(cvs[j as int]);
                        if *aligned {
                            lemma_body_size_even(cvs.take(j as int));
                        }
                    }
                    proof {
                        assert(decreases_to!(*self => *chunks));
                        assert(decreases_to!(*chunks => chunks@));
                        assert(decreases_to!(chunks@ => chunks@[j as int]));
                    }
                    let csize = chunks[j].size();
                    acc = acc + csize;
                    if *aligned && acc % 2 == 1 {
                        acc = acc + 1;
                    }
                    j = j + 1;
                }
                proof {
                    assert(cvs.take(n as int) =~= cvs);
                }
                acc
            },
        }
    }

    /// Serializes this chunk tree to bytes.
    pub fn write(&self) -> (r: Vec<u8>)
        requires
            self@.wf(),
        ensures
            r@ == self@.ser(),
    {
        let mut out: Vec<u8> = Vec::new();
        self.write_into(&mut out);
        proof {
            assert(Seq::<u8>::empty() + self@.ser() =~= self@.ser());
        }
        out
    }

    #[verifier::loop_isolation(false)]
    #[verifier::rlimit(60)]
    fn write_into(&self, out: &mut Vec<u8>)
        requires
            self@.wf(),
        ensures
            final(out)@ == old(out)@ + self@.ser(),
        decreases *self,
    {
        match self {
            Chunk::Data { id, data, little_endian } => {
                push_id(out, *id, *little_endian);
                push_u32(out, data.len() as u32, *little_endian);
                let mut k: usize = 0;
                let ghost mid = out@;
                while k < data.len()
                    invariant
                        k <= data@.len(),
                        out@ == mid + data@.take(k as int),
                    decreases data@.len() - k,
                {
                    out.push(data[k]);
                    k = k + 1;
                    proof {
                        assert(out@ =~= mid + data@.take(k as int));
                    }
                }
                proof {
                    assert(data@.take(data@.len() as int) =~= data@);
                    assert(out@ =~= old(out)@ + self@.ser());
                }
            },
            Chunk::Envelope { envelope_id, id, chunks, little_endian, aligned } => {
                let ghost cvs = chunks_view(chunks@);
                proof {
                    lemma_chunks_view_len(chunks@);
                    lemma_wf_children_index(cvs, *little_endian);
                    lemma_body_size_nonneg(cvs, *aligned);
                }
                let mut body: Vec<u8> = Vec::new();
                let n = chunks.len();
                let mut j: usize = 0;
                proof {
                    assert(cvs.take(0) =~= Seq::<ChunkV>::empty());
                    assert(body@ =~= ser_body(cvs.take(0), *little_endian, *aligned));
                }
                while j < n
                    invariant
                        j <= n,
                        n == chunks@.len(),
                        cvs == chunks_view(chunks@),
                        cvs.len() == n,
                        self@.wf(),
                        self@ == (ChunkV::Envelope {
                            envelope_id: *envelope_id,
                            id: *id,
                            chunks: cvs,
                            little_endian: *little_endian,
                            aligned: *aligned,
                        }),
                        forall|k: int|
                            0 <= k < n ==> (#[trigger] cvs[k]).wf() && cvs[k].endianness()
                                == *little_endian,
                        body@ == ser_body(cvs.take(j as int), *little_endian, *aligned),
                    decreases n - j,
                {
                    proof {
                        lemma_chunks_view_index(chunks@, j as int);
                        lemma_ser_body_len(cvs.take(j as int), *little_endian, *aligned);
                        lemma_ser_len(cvs[j as int]);
                        if *aligned {
                            lemma_body_size_even(cvs.take(j as int));
                        }
                    }
                    proof {
                        assert(decreases_to!(*self => *chunks));
                        assert(decreases_to!(*chunks => chunks@));
                        assert(decreases_to!(chunks@ => chunks@[j as int]));
                    }
                    let ghost body_before = body@;
                    chunks[j].write_into(&mut body);
                    if *aligned && body.len() % 2 == 1 {
                        body.push(0u8);
                    }
                    proof {
                        assert(cvs.take(j + 1) =~= cvs.take(j as int).push(cvs[j as int]));
                        lemma_ser_body_push(
                            cvs.take(j as int),
                            cvs[j as int],
                            *little_endian,
                            *aligned,
                        );
                        lemma_body_size_nonneg(cvs.take(j as int), *aligned);
                        assert(body@ =~= ser_body(cvs.take(j + 1), *little_endian, *aligned));
                    }
                    j = j + 1;
                }
                proof {
                    assert(cvs.take(n as int) =~= cvs);
                    lemma_ser_body_len(cvs, *little_endian, *aligned);
                }
                push_id(out, *envelope_id, *little_endian);
                push_u32(out, (body.len() + 4) as u32, *little_endian);
                push_id(out, *id, *little_endian);
                let mut k: usize = 0;
                let ghost mid = out@;
                while k < body.len()
                    invariant
                        k <= body@.len(),
                        out@ == mid + body@.take(k as int),
                    decreases body@.len() - k,
                {
                    out.push(body[k]);
                    k = k + 1;
                    proof {
                        assert(out@ =~= mid + body@.take(k as int));
                    }
                }
                proof {
                    assert(body@.take(body@.len() as int) =~= body@);
                    assert((body@.len() + 4) as u32 == (self@.size() - 8) as u32);
                    assert(out@ =~= old(out)@ + self@.ser());
                }
            },
        }
    }
}

} // verus!

verus! {

/// The (id, payload) pairs of the data chunks among a sequence of children,
/// in order, skipping envelopes.
pub open spec fn spec_data_entries(cs: Seq<ChunkV>) -> Seq<(TypeID, Seq<u8>)>
    decreases cs,
{
    if cs.len() == 0 {
        Seq::empty()
    } else {
        let rest = spec_data_entries(cs.drop_first());
        match cs[0] {
            ChunkV::Data { id, data, .. } => seq![(id, data)] + rest,
            ChunkV::Envelope { .. } => rest,
        }
    }
}

/// The (content id, chunk) pairs of all children, in order.
pub open spec fn spec_entry_of(c: ChunkV) -> (TypeID, ChunkV) {
    match c {
        ChunkV::Data { id, .. } => (id, c),
        ChunkV::Envelope { id, .. } => (id, c),
    }
}

pub open spec fn spec_all_entries(cs: Seq<ChunkV>) -> Seq<(TypeID, ChunkV)>
    decreases cs,
{
    if cs.len() == 0 {
        Seq::empty()
    } else {
        seq![spec_entry_of(cs[0])] + spec_all_entries(cs.drop_first())
    }
}

proof fn lemma_data_entries_push(cs: Seq<ChunkV>, c: ChunkV)
    ensures
        spec_data_entries(cs.push(c)) == spec_data_entries(cs) + (match c {
            ChunkV::Data { id, data, .. } => seq![(id, data)],
            ChunkV::Envelope { .. } => Seq::<(TypeID, Seq<u8>)>::empty(),
        }),
    decreases cs,
{
    let tail = match c {
        ChunkV::Data { id, data, .. } => seq![(id, data)],
        ChunkV::Envelope { .. } => Seq::<(TypeID, Seq<u8>)>::empty(),
    };
    if cs.len() == 0 {
        assert(cs.push(c).drop_first() =~= Seq::<ChunkV>::empty());
        assert(spec_data_entries(Seq::<ChunkV>::empty()) =~= Seq::<(TypeID, Seq<u8>)>::empty());
        assert(cs.push(c)[0] == c);
        assert(spec_data_entries(cs.push(c)) =~= spec_data_entries(cs) + tail);
    } else {
        assert(cs.push(c).drop_first() =~= cs.drop_first().push(c));
        assert(cs.push(c)[0] == cs[0]);
        lemma_data_entries_push(cs.drop_first(), c);
        assert(spec_data_entries(cs.push(c)) == (match cs[0] {
            ChunkV::Data { id, data, .. } => seq![(id, data)] + spec_data_entries(
                cs.drop_first().push(c),
            ),
            ChunkV::Envelope { .. } => spec_data_entries(cs.drop_first().push(c)),
        }));
        assert(spec_data_entries(cs) == (match cs[0] {
            ChunkV::Data { id, data, .. } => seq![(id, data)] + spec_data_entries(cs.drop_first()),
            ChunkV::Envelope { .. } => spec_data_entries(cs.drop_first()),
        }));
        assert(spec_data_entries(cs.push(c)) =~= spec_data_entries(cs) + tail);
    }
}

proof fn lemma_all_entries_push(cs: Seq<ChunkV>, c: ChunkV)
    ensures
        spec_all_entries(cs.push(c)) == spec_all_entries(cs) + seq![spec_entry_of(c)],
    decreases cs,
{
    let tail = seq![spec_entry_of(c)];
    if cs.len() == 0 {
        assert(cs.push(c).drop_first() =~= Seq::<ChunkV>::empty());
        assert(spec_all_entries(Seq::<ChunkV>::empty()) =~= Seq::<(TypeID, ChunkV)>::empty());
        assert(cs.push(c)[0] == c);
        assert(spec_all_entries(cs.push(c)) =~= spec_all_entries(cs) + tail);
    } else {
        assert(cs.push(c).drop_first() =~= cs.drop_first().push(c));
        assert(cs.push(c)[0] == cs[0]);
        lemma_all_entries_push(cs.drop_first(), c);
        assert(spec_all_entries(cs.push(c)) =~= spec_all_entries(cs) + tail);
    }
}

impl Chunk {
    /// The (id, payload) pairs of this envelope's data chunk children, in
    /// order; empty for a data chunk.
    pub fn data_chunks(&self) -> (r: Vec<(TypeID, &Vec<u8>)>)
        ensures
            ({
                let entries = match self@ {
                    ChunkV::Envelope { chunks, .. } => spec_data_entries(chunks),
                    ChunkV::Data { .. } => Seq::empty(),
                };
                &&& r@.len() == entries.len()
                &&& forall|k: int|
                    0 <= k < entries.len() ==> (#[trigger] r@[k]).0 == entries[k].0 && r@[k].1@
                        == entries[k].1
            }),
    {
        let mut vec: Vec<(TypeID, &Vec<u8>)> = Vec::new();
        match self {
            Chunk::Envelope { chunks, .. } => {
                let ghost cvs = chunks_view(chunks@);
                proof {
                    lemma_chunks_view_len(chunks@);
                    assert(cvs.take(0) =~= Seq::<ChunkV>::empty());
                }
                let n = chunks.len();
                let mut j: usize = 0;
                while j < n
                    invariant
                        j <= n,
                        n == chunks@.len(),
                        cvs == chunks_view(chunks@),
                        cvs.len() == n,
                        ({
                            let entries = spec_data_entries(cvs.take(j as int));
                            &&& vec@.len() == entries.len()
                            &&& forall|k: int|
                                0 <= k < entries.len() ==> (#[trigger] vec@[k]).0 == entries[k].0
                                    && vec@[k].1@ == entries[k].1
                        }),
                    decreases n - j,
                {
                    proof {
                        lemma_chunks_view_index(chunks@, j as int);
                        assert(cvs.take(j + 1) =~= cvs.take(j as int).push(cvs[j as int]));
                        lemma_data_entries_push(cvs.take(j as int), cvs[j as int]);
                    }
                    match &chunks[j] {
                        Chunk::Data { id, data, .. } => {
                            vec.push((*id, data));
                        },
                        Chunk::Envelope { .. } => {},
                    }
                    j = j + 1;
                }
                proof {
                    assert(cvs.take(n as int) =~= cvs);
                }
            },
            Chunk::Data { .. } => {},
        }
        vec
    }

    /// The (content id, child) pairs of all this envelope's children, in
    /// order; empty for a data chunk.
    pub fn all_chunks(&self) -> (r: Vec<(TypeID, &Chunk)>)
        ensures
            ({
                let entries = match self@ {
                    ChunkV::Envelope { chunks, .. } => spec_all_entries(chunks),
                    ChunkV::Data { .. } => Seq::empty(),
                };
                &&& r@.len() == entries.len()
                &&& forall|k: int|
                    0 <= k < entries.len() ==> (#[trigger] r@[k]).0 == entries[k].0 && r@[k].1@
                        == entries[k].1
            }),
    {
        let mut vec: Vec<(TypeID, &Chunk)> = Vec::new();
        match self {
            Chunk::Envelope { chunks, .. } => {
                let ghost cvs = chunks_view(chunks@);
                proof {
                    lemma_chunks_view_len(chunks@);
                    assert(cvs.take(0) =~= Seq::<ChunkV>::empty());
                }
                let n = chunks.len();
                let mut j: usize = 0;
                while j < n
                    invariant
                        j <= n,
                        n == chunks@.len(),
                        cvs == chunks_view(chunks@),
                        cvs.len() == n,
                        ({
                            let entries = spec_all_entries(cvs.take(j as int));
                            &&& vec@.len() == entries.len()
                            &&& forall|k: int|
                                0 <= k < entries.len() ==> (#[trigger] vec@[k]).0 == entries[k].0
                                    && vec@[k].1@ == entries[k].1
                        }),
                    decreases n - j,
                {
                    proof {
                        lemma_chunks_view_index(chunks@, j as int);
                        assert(cvs.take(j + 1) =~= cvs.take(j as int).push(cvs[j as int]));
                        lemma_all_entries_push(cvs.take(j as int), cvs[j as int]);
                    }
                    let child = &chunks[j];
                    vec.push((child.id(), child));
                    j = j + 1;
                }
                proof {
                    assert(cvs.take(n as int) =~= cvs);
                }
            },
            Chunk::Data { .. } => {},
        }
        vec
    }
}

/// Alignment: inside an aligned envelope, a child of odd total size is
/// followed by exactly one zero pad byte before the next child's bytes.
pub proof fn lemma_alignment_pads(c1: ChunkV, c2: ChunkV, rest: Seq<ChunkV>, little_endian: bool)
    requires
        c1.size() % 2 == 1,
    ensures
        ser_body(seq![c1, c2] + rest, little_endian, true) == c1.ser() + seq![0u8] + ser_body(
            seq![c2] + rest,
            little_endian,
            true,
        ),
{
    let cs = seq![c1, c2] + rest;
    assert(cs[0] == c1);
    assert(cs.drop_first() =~= seq![c2] + rest);
    assert(ser_body(cs, little_endian, true) == ser_body_one(c1, true) + ser_body(
        seq![c2] + rest,
        little_endian,
        true,
    ));
    assert(ser_body_one(c1, true) =~= c1.ser() + seq![0u8]);
    assert((c1.ser() + seq![0u8]) + ser_body(seq![c2] + rest, little_endian, true) =~= c1.ser()
        + seq![0u8] + ser_body(seq![c2] + rest, little_endian, true));
}

/// The one unaligned envelope kind never pads: its body is exactly the
/// concatenation of its children's serializations.
pub proof fn lemma_unaligned_never_pads(cs: Seq<ChunkV>, little_endian: bool)
    ensures
        ser_body(cs, little_endian, false).len() == body_size(cs, false),
        body_size(cs, false) == (if cs.len() == 0 {
            0int
        } else {
            cs[0].size() + body_size(cs.drop_first(), false)
        }),
{
    lemma_ser_body_len(cs, little_endian, false);
    if cs.len() > 0 {
        assert(body_size(cs, false) == cs[0].padded_size(false) + body_size(
            cs.drop_first(),
            false,
        ));
    }
}

} // verus!

verus! {

/// An integer clamped to what a `u64` can hold.
pub open spec fn sat_u64(v: int) -> int {
    if v > u64::MAX as int {
        u64::MAX as int
    } else {
        v
    }
}

proof fn lemma_sat_u64_add(a: int, b: int)
    requires
        a >= 0,
        b >= 0,
    ensures
        (if sat_u64(a) + sat_u64(b) > u64::MAX as int {
            u64::MAX as int
        } else {
            sat_u64(a) + sat_u64(b)
        }) == sat_u64(a + b),
{
}

/// Structural well-formedness: everything `wf` asks except the size
/// bounds.  A structurally well-formed tree whose total size fits the
/// 32-bit length field is well-formed outright (`lemma_wf_of_swf`).
pub open spec fn swf(c: ChunkV) -> bool
    decreases c, 0int,
{
    match c {
        ChunkV::Envelope { envelope_id, id, chunks, little_endian, aligned } => {
            &&& envelope_id.spec_is_envelope()
            &&& aligned == id.spec_is_aligned_kind()
            &&& swf_children(chunks, little_endian)
        },
        ChunkV::Data { id, .. } => !id.spec_is_envelope(),
    }
}

pub open spec fn swf_children(cs: Seq<ChunkV>, little_endian: bool) -> bool
    decreases cs, 1int,
{
    if cs.len() == 0 {
        true
    } else {
        swf(cs[0]) && cs[0].endianness() == little_endian && swf_children(
            cs.drop_first(),
            little_endian,
        )
    }
}

pub proof fn lemma_swf_children_of_all(cs: Seq<ChunkV>, little_endian: bool)
    requires
        forall|i: int|
            0 <= i < cs.len() ==> swf(#[trigger] cs[i]) && cs[i].endianness() == little_endian,
    ensures
        swf_children(cs, little_endian),
    decreases cs,
{
    if cs.len() > 0 {
        assert(cs[0].endianness() == little_endian);
        assert(forall|i: int|
            0 <= i < cs.drop_first().len() ==> swf(#[trigger] cs.drop_first()[i])
                && cs.drop_first()[i].endianness() == little_endian) by {
            assert(forall|i: int|
                0 <= i < cs.drop_first().len() ==> (#[trigger] cs.drop_first()[i]) == cs[i + 1]);
        }
        lemma_swf_children_of_all(cs.drop_first(), little_endian);
        assert(swf_children(cs, little_endian) == (swf(cs[0]) && cs[0].endianness()
            == little_endian && swf_children(cs.drop_first(), little_endian)));
    }
}

pub proof fn lemma_wf_of_swf(c: ChunkV)
    requires
        swf(c),
        c.size() <= u32::MAX,
    ensures
        c.wf(),
    decreases c, 0int,
{
    match c {
        ChunkV::Envelope { chunks, little_endian, aligned, .. } => {
            lemma_body_size_nonneg(chunks, aligned);
            lemma_wf_children_of_swf(chunks, little_endian, aligned);
        },
        ChunkV::Data { .. } => {},
    }
}

proof fn lemma_wf_children_of_swf(cs: Seq<ChunkV>, little_endian: bool, aligned: bool)
    requires
        swf_children(cs, little_endian),
        body_size(cs, aligned) <= u32::MAX,
    ensures
        wf_children(cs, little_endian),
    decreases cs, 1int,
{
    if cs.len() > 0 {
        assert(body_size(cs, aligned) == cs[0].padded_size(aligned) + body_size(
            cs.drop_first(),
            aligned,
        ));
        assert(swf_children(cs, little_endian) == (swf(cs[0]) && cs[0].endianness()
            == little_endian && swf_children(cs.drop_first(), little_endian)));
        lemma_size_min(cs[0]);
        lemma_body_size_nonneg(cs.drop_first(), aligned);
        assert(cs[0].size() <= u32::MAX);
        match cs[0] {
            ChunkV::Envelope { chunks: inner, little_endian: le2, aligned: al2, .. } => {
                lemma_body_size_nonneg(inner, al2);
                assert(cs[0].size() == 12 + body_size(inner, al2));
                lemma_wf_children_of_swf(inner, le2, al2);
            },
            ChunkV::Data { .. } => {},
        }
        assert(cs[0].wf());
        lemma_wf_children_of_swf(cs.drop_first(), little_endian, aligned);
        assert(wf_children(cs, little_endian) == (cs[0].wf() && cs[0].endianness()
            == little_endian && wf_children(cs.drop_first(), little_endian)));
    }
}

impl Chunk {
    /// The total serialized size of this chunk, saturating at `u64::MAX`,
    /// computable for any tree.
    #[verifier::loop_isolation(false)]
    pub fn size_saturating(&self) -> (r: u64)
        ensures
            r as int == sat_u64(self@.size()),
        decreases *self,
    {
        match self {
            Chunk::Data { data, .. } => {
                let n: usize = data.len();
                if n as u64 > u64::MAX - 8 {
                    u64::MAX
                } else {
                    8 + (n as u64)
                }
            },
            Chunk::Envelope { chunks, little_endian, aligned, .. } => {
                let ghost cvs = chunks_view(chunks@);
                proof {
                    lemma_chunks_view_len(chunks@);
                }
                let n = chunks.len();
                let mut acc: u64 = 12;
                let mut j: usize = 0;
                proof {
                    assert(cvs.take(0) =~= Seq::<ChunkV>::empty());
                }
                while j < n
                    invariant
                        j <= n,
                        acc as int == sat_u64(12 + body_size(cvs.take(j as int), *aligned)),
                        acc >= 12,
                    decreases n - j,
                {
                    let ghost prev = cvs.take(j as int);
                    proof {
                        lemma_chunks_view_index(chunks@, j as int);
                        assert(cvs.take(j + 1) =~= prev.push(cvs[j as int]));
                        lemma_body_size_push(prev, cvs[j as int], *aligned);
                        lemma_body_size_nonneg(prev, *aligned);
                        lemma_size_min(cvs[j as int]);
                        assert(decreases_to!(*self => *chunks));
                        assert(decreases_to!(*chunks => chunks@));
                        assert(decreases_to!(chunks@ => chunks@[j as int]));
                    }
                    let csize = chunks[j].size_saturating();
                    proof {
                        lemma_sat_u64_add(12 + body_size(prev, *aligned), cvs[j as int].size());
                    }
                    acc = acc.saturating_add(csize);
                    if *aligned && acc % 2 == 1 {
                        proof {
                            if *aligned {
                                lemma_body_size_even(prev);
                            }
                            lemma_sat_u64_add(
                                12 + body_size(prev, *aligned) + cvs[j as int].size(),
                                1,
                            );
                        }
                        acc = acc.saturating_add(1);
                    } else {
                        proof {
                            if *aligned {
                                lemma_body_size_even(prev);
                            }
                        }
                    }
                    j = j + 1;
                }
                proof {
                    assert(cvs.take(n as int) =~= cvs);
                }
                acc
            },
        }
    }
}

} // verus!
