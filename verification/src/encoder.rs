//! Encoding patches back into chunk trees and bytes.

use vstd::prelude::*;
use vstd::string::StrSliceExecFns;

use crate::chunk::{swf, swf_children, u32_bytes, lemma_wf_of_swf, Chunk, ChunkV};
use crate::error::Error;
use crate::model::{
    L6Patch, L6PatchV, MetaTags, MetaTagsV, Model, ModelParam, ModelV, TargetDevice, TargetDeviceV,
    Value,
};
use crate::text::{
    dec_string, u16_bytes, units_to_bytes, utf16_encode, utf16_encode_char, format_decimal,
};
use crate::types::TypeID;

verus! {

/// The code units of the longest prefix of a string that fits the given
/// byte budget; a character whose units would cross the budget stops the
/// walk.
pub open spec fn utf16_fit(s: Seq<char>, budget: int) -> Seq<u16>
    decreases s.len(),
{
    if s.len() == 0 {
        Seq::empty()
    } else {
        let cu = utf16_encode_char(s[0]);
        if 2 * cu.len() > budget {
            Seq::empty()
        } else {
            cu + utf16_fit(s.drop_first(), budget - 2 * cu.len())
        }
    }
}

pub proof fn lemma_utf16_fit_bound(s: Seq<char>, budget: int)
    ensures
        2 * utf16_fit(s, budget).len() <= (if budget >= 0 {
            budget
        } else {
            0
        }),
    decreases s.len(),
{
    if s.len() > 0 {
        let cu = utf16_encode_char(s[0]);
        if 2 * cu.len() <= budget {
            lemma_utf16_fit_bound(s.drop_first(), budget - 2 * cu.len());
        }
    }
}

/// The bytes of a fixed-width UTF-16 field: the code units of what fits in
/// `len - pad` bytes, zero-filled to `len` bytes.
pub open spec fn spec_utf_pad(s: Seq<char>, len: int, pad: int, le: bool) -> Seq<u8> {
    let ub = units_to_bytes(utf16_fit(s, len - pad), le);
    ub + Seq::new((len - ub.len()) as nat, |i: int| 0u8)
}

proof fn lemma_units_to_bytes_len(units: Seq<u16>, le: bool)
    ensures
        units_to_bytes(units, le).len() == 2 * units.len(),
    decreases units.len(),
{
    if units.len() > 0 {
        lemma_units_to_bytes_len(units.drop_first(), le);
        assert(units_to_bytes(units, le) == u16_bytes(units[0], le) + units_to_bytes(
            units.drop_first(),
            le,
        ));
    }
}

proof fn lemma_units_to_bytes_push(units: Seq<u16>, u: u16, le: bool)
    ensures
        units_to_bytes(units.push(u), le) == units_to_bytes(units, le) + u16_bytes(u, le),
    decreases units.len(),
{
    if units.len() == 0 {
        assert(units.push(u).drop_first() =~= Seq::<u16>::empty());
        assert(units.push(u)[0] == u);
        assert(units_to_bytes(Seq::<u16>::empty(), le) =~= Seq::<u8>::empty());
        assert(units_to_bytes(units.push(u), le) == u16_bytes(units.push(u)[0], le)
            + units_to_bytes(units.push(u).drop_first(), le));
        assert(units_to_bytes(units.push(u), le) =~= units_to_bytes(units, le) + u16_bytes(u, le));
    } else {
        assert(units.push(u).drop_first() =~= units.drop_first().push(u));
        assert(units.push(u)[0] == units[0]);
        lemma_units_to_bytes_push(units.drop_first(), u, le);
        assert(units_to_bytes(units.push(u), le) =~= units_to_bytes(units, le) + u16_bytes(u, le));
    }
}

/// A byte writer accumulating output in one byte order.
pub struct Writer {
    pub buffer: Vec<u8>,
    pub little_endian: bool,
}

impl Writer {
    /// An empty writer.
    pub fn new(little_endian: bool) -> (r: Writer)
        ensures
            r.buffer@ == Seq::<u8>::empty(),
            r.little_endian == little_endian,
    {
        let r = Writer { buffer: Vec::new(), little_endian };
        proof {
            assert(r.buffer@ =~= Seq::<u8>::empty());
        }
        r
    }

    /// Appends one byte.
    pub fn write_u8(&mut self, value: u8)
        ensures
            final(self).buffer@ == old(self).buffer@ + seq![value],
            final(self).little_endian == old(self).little_endian,
    {
        self.buffer.push(value);
        proof {
            assert(self.buffer@ =~= old(self).buffer@ + seq![value]);
        }
    }

    /// Appends a 16-bit value in the writer's byte order.
    pub fn write_u16(&mut self, value: u16)
        ensures
            final(self).buffer@ == old(self).buffer@ + u16_bytes(value, old(self).little_endian),
            final(self).little_endian == old(self).little_endian,
    {
        if self.little_endian {
            self.buffer.push((value & 0xff) as u8);
            self.buffer.push(((value >> 8) & 0xff) as u8);
        } else {
            self.buffer.push(((value >> 8) & 0xff) as u8);
            self.buffer.push((value & 0xff) as u8);
        }
        proof {
            assert(self.buffer@ =~= old(self).buffer@ + u16_bytes(
                value,
                old(self).little_endian,
            ));
        }
    }

    /// Appends a 32-bit value in the writer's byte order.
    pub fn write_u32(&mut self, value: u32)
        ensures
            final(self).buffer@ == old(self).buffer@ + u32_bytes(value, old(self).little_endian),
            final(self).little_endian == old(self).little_endian,
    {
        if self.little_endian {
            self.buffer.push((value & 0xff) as u8);
            self.buffer.push(((value >> 8) & 0xff) as u8);
            self.buffer.push(((value >> 16) & 0xff) as u8);
            self.buffer.push(((value >> 24) & 0xff) as u8);
        } else {
            self.buffer.push(((value >> 24) & 0xff) as u8);
            self.buffer.push(((value >> 16) & 0xff) as u8);
            self.buffer.push(((value >> 8) & 0xff) as u8);
            self.buffer.push((value & 0xff) as u8);
        }
        proof {
            assert(self.buffer@ =~= old(self).buffer@ + u32_bytes(
                value,
                old(self).little_endian,
            ));
        }
    }

    fn write_utf_pad(&mut self, len: usize, pad: usize, value: &str) -> (r: usize)
        requires
            pad <= len,
            len % 2 == 0,
        ensures
            final(self).buffer@ == old(self).buffer@ + spec_utf_pad(
                value@,
                len as int,
                pad as int,
                old(self).little_endian,
            ),
            final(self).little_endian == old(self).little_endian,
            r == len,
    {
        let ghost le = self.little_endian;
        let nchars: usize = value.unicode_len();
        let mut n: usize = 0;
        let mut i: usize = 0;
        let ghost start = self.buffer@;
        proof {
            assert(value@.skip(0) =~= value@);
            assert(units_to_bytes(Seq::<u16>::empty(), le) =~= Seq::<u8>::empty());
            assert(self.buffer@ =~= start + units_to_bytes(Seq::<u16>::empty(), le));
            lemma_utf16_fit_bound(value@, (len - pad) as int);
            lemma_units_to_bytes_len(utf16_fit(value@, (len - pad) as int), le);
        }
        let mut stop = false;
        while i < nchars && !stop
            invariant
                i <= nchars,
                nchars == value@.len(),
                pad <= len,
                len % 2 == 0,
                n % 2 == 0,
                n <= len - pad,
                self.little_endian == le,
                self.buffer@.len() == start.len() + n,
                stop ==> utf16_fit(value@.skip(i as int), len - pad - n) == Seq::<u16>::empty(),
                ({
                    let done = utf16_fit(value@, (len - pad) as int);
                    let here = utf16_fit(value@.skip(i as int), len - pad - n);
                    self.buffer@ + units_to_bytes(here, le) == start + units_to_bytes(done, le)
                }),
            decreases nchars - i + (if stop {
                0int
            } else {
                1int
            }),
        {
            let c = value.get_char(i);
            let cu: u32 = c as u32;
            let l: usize = if cu < 0x10000 {
                2
            } else {
                4
            };
            proof {
                assert(value@.skip(i as int)[0] == value@[i as int]);
                assert(value@.skip(i as int).drop_first() =~= value@.skip(i + 1));
                assert(2 * utf16_encode_char(c).len() == l);
            }
            if l > len - pad - n {
                proof {
                    assert(utf16_fit(value@.skip(i as int), len - pad - n) =~= Seq::<u16>::empty());
                }
                stop = true;
            } else {
            if cu < 0x10000 {
                self.write_u16(c as u16);
            } else {
                self.write_u16((0xD800 + ((cu - 0x10000) / 0x400)) as u16);
                self.write_u16((0xDC00 + ((cu - 0x10000) % 0x400)) as u16);
            }
            proof {
                let here = utf16_fit(value@.skip(i as int), len - pad - n);
                let cuseq = utf16_encode_char(c);
                assert(here == cuseq + utf16_fit(value@.skip(i + 1), len - pad - n - l));
                assert(units_to_bytes(here, le) =~= units_to_bytes(cuseq, le) + units_to_bytes(
                    utf16_fit(value@.skip(i + 1), len - pad - n - l),
                    le,
                )) by {
                    lemma_units_to_bytes_concat(cuseq, utf16_fit(value@.skip(i + 1), len - pad - n
                        - l), le);
                }
                assert(units_to_bytes(Seq::<u16>::empty(), le) =~= Seq::<u8>::empty());
                if cu < 0x10000 {
                    assert(cuseq =~= seq![c as u16]);
                    assert(cuseq.drop_first() =~= Seq::<u16>::empty());
                    assert(units_to_bytes(cuseq, le) == u16_bytes(cuseq[0], le) + units_to_bytes(
                        cuseq.drop_first(),
                        le,
                    ));
                    assert(units_to_bytes(cuseq, le) =~= u16_bytes(c as u16, le));
                } else {
                    let u1 = (0xD800 + (((c as u32) - 0x10000) / 0x400)) as u16;
                    let u2 = (0xDC00 + (((c as u32) - 0x10000) % 0x400)) as u16;
                    assert(cuseq =~= seq![u1, u2]);
                    assert(cuseq.drop_first() =~= seq![u2]);
                    assert(cuseq.drop_first().drop_first() =~= Seq::<u16>::empty());
                    assert(units_to_bytes(cuseq, le) == u16_bytes(cuseq[0], le) + units_to_bytes(
                        cuseq.drop_first(),
                        le,
                    ));
                    assert(units_to_bytes(cuseq.drop_first(), le) == u16_bytes(
                        cuseq.drop_first()[0],
                        le,
                    ) + units_to_bytes(cuseq.drop_first().drop_first(), le));
                    assert(units_to_bytes(cuseq, le) =~= u16_bytes(u1, le) + u16_bytes(u2, le));
                }
            }
            n = n + l;
            i = i + 1;
            }
        }
        proof {
            if !stop {
                assert(value@.skip(nchars as int) =~= Seq::<char>::empty());
                assert(utf16_fit(value@.skip(i as int), len - pad - n) =~= Seq::<u16>::empty());
            }
            let done = utf16_fit(value@, (len - pad) as int);
            assert(units_to_bytes(Seq::<u16>::empty(), le) =~= Seq::<u8>::empty());
            assert(self.buffer@ =~= start + units_to_bytes(done, le));
            lemma_units_to_bytes_len(done, le);
            lemma_utf16_fit_bound(value@, (len - pad) as int);
        }
        let ghost mid = self.buffer@;
        while n < len
            invariant
                n % 2 == 0,
                len % 2 == 0,
                n <= len,
                self.little_endian == le,
                self.buffer@.len() == start.len() + n,
                mid.len() == start.len() + 2 * utf16_fit(value@, (len - pad) as int).len(),
                mid.len() <= self.buffer@.len(),
                self.buffer@ == mid + Seq::new((start.len() + n - mid.len()) as nat, |q: int| 0u8),
            decreases len - n,
        {
            self.write_u16(0u16);
            n = n + 2;
            proof {
                assert(((0u16 >> 8) & 0xff) as u8 == 0u8) by (bit_vector);
                assert((0u16 & 0xff) as u8 == 0u8) by (bit_vector);
                assert(u16_bytes(0u16, le) =~= seq![0u8, 0u8]);
                assert(self.buffer@ =~= mid + Seq::new(
                    (start.len() + n - mid.len()) as nat,
                    |q: int| 0u8,
                ));
            }
        }
        proof {
            let done = utf16_fit(value@, (len - pad) as int);
            let ub = units_to_bytes(done, le);
            lemma_units_to_bytes_len(done, le);
            assert(self.buffer@ =~= start + spec_utf_pad(
                value@,
                len as int,
                pad as int,
                le,
            ));
        }
        len
    }

    /// Writes a string as a fixed-width UTF-16 field, zero-filled.
    pub fn write_utf(&mut self, len: usize, value: &str) -> (r: usize)
        requires
            len % 2 == 0,
        ensures
            final(self).buffer@ == old(self).buffer@ + spec_utf_pad(
                value@,
                len as int,
                0,
                old(self).little_endian,
            ),
            final(self).little_endian == old(self).little_endian,
            r == len,
    {
        self.write_utf_pad(len, 0, value)
    }

    /// Writes a string as a fixed-width UTF-16 field, reserving a trailing
    /// NUL code unit.
    pub fn write_utf_z(&mut self, len: usize, value: &str) -> (r: usize)
        requires
            len % 2 == 0,
            len >= 2,
        ensures
            final(self).buffer@ == old(self).buffer@ + spec_utf_pad(
                value@,
                len as int,
                2,
                old(self).little_endian,
            ),
            final(self).little_endian == old(self).little_endian,
            r == len,
    {
        self.write_utf_pad(len, 2, value)
    }
}

proof fn lemma_units_to_bytes_concat(a: Seq<u16>, b: Seq<u16>, le: bool)
    ensures
        units_to_bytes(a + b, le) == units_to_bytes(a, le) + units_to_bytes(b, le),
    decreases a.len(),
{
    if a.len() == 0 {
        assert(a + b =~= b);
        assert(units_to_bytes(a, le) =~= Seq::<u8>::empty());
        assert(units_to_bytes(a + b, le) =~= units_to_bytes(a, le) + units_to_bytes(b, le));
    } else {
        assert((a + b).drop_first() =~= a.drop_first() + b);
        assert((a + b)[0] == a[0]);
        lemma_units_to_bytes_concat(a.drop_first(), b, le);
        assert(units_to_bytes(a + b, le) == u16_bytes((a + b)[0], le) + units_to_bytes(
            (a + b).drop_first(),
            le,
        ));
        assert(units_to_bytes(a, le) == u16_bytes(a[0], le) + units_to_bytes(a.drop_first(), le));
        assert(units_to_bytes(a + b, le) =~= units_to_bytes(a, le) + units_to_bytes(b, le));
    }
}

} // verus!

verus! {

/// The value words of a parameter record: word 0 tags the kind, word 1
/// carries the integer or the raw float bits.
pub open spec fn spec_value_words(v: Value) -> (u32, u32) {
    match v {
        Value::Int(x) => (0u32, x),
        Value::Float(bits) => (1u32, bits),
    }
}

/// The 12-byte parameter record chunk of one parameter.
pub open spec fn spec_param_chunk(p: ModelParam, le: bool) -> ChunkV {
    ChunkV::Data {
        id: crate::types::parm(),
        data: u32_bytes(0x3f000000 | (p.param_id & 0x00ffffff), le) + u32_bytes(
            spec_value_words(p.value).0,
            le,
        ) + u32_bytes(spec_value_words(p.value).1, le),
        little_endian: le,
    }
}

/// The 12-byte model info record chunk of one model.
pub open spec fn spec_model_info_chunk(m: ModelV, le: bool) -> ChunkV {
    ChunkV::Data {
        id: crate::types::minf(),
        data: u32_bytes(m.model_id, le) + u32_bytes(m.slot_id, le) + seq![
            m.ordinal,
            0u8,
            0u8,
            (if m.enabled {
                1u8
            } else {
                0u8
            }),
        ],
        little_endian: le,
    }
}

/// The model envelope of one model: its info record then its parameters.
pub open spec fn spec_model_chunk(m: ModelV, le: bool) -> ChunkV {
    ChunkV::Envelope {
        envelope_id: crate::types::list(),
        id: crate::types::modl(),
        chunks: seq![spec_model_info_chunk(m, le)] + m.params.map_values(
            |p: ModelParam| spec_param_chunk(p, le),
        ),
        little_endian: le,
        aligned: true,
    }
}

/// The model list envelope of a patch.
pub open spec fn spec_models_chunk(ms: Seq<ModelV>, le: bool) -> ChunkV {
    ChunkV::Envelope {
        envelope_id: crate::types::list(),
        id: crate::types::patc(),
        chunks: ms.map_values(|m: ModelV| spec_model_chunk(m, le)),
        little_endian: le,
        aligned: true,
    }
}

/// The 76-byte target device record chunk.
pub open spec fn spec_device_chunk(d: TargetDeviceV, le: bool) -> ChunkV {
    ChunkV::Data {
        id: crate::types::pinf(),
        data: u32_bytes(1, le) + u32_bytes(d.midi_id, le) + spec_utf_pad(d.name, 64, 2, le)
            + u32_bytes(d.version, le),
        little_endian: le,
    }
}

/// A text tag chunk, omitted when the field is empty.
pub open spec fn spec_utf_chunk(s: Seq<char>, id: TypeID, le: bool) -> Seq<ChunkV> {
    if s.len() == 0 {
        Seq::empty()
    } else {
        seq![
            ChunkV::Data { id, data: units_to_bytes(utf16_encode(s), le), little_endian: le },
        ]
    }
}

/// The date tag chunk: the whole seconds spelled in decimal, omitted when
/// the date is zero.
pub open spec fn spec_date_chunk(date: usize, id: TypeID, le: bool) -> Seq<ChunkV> {
    if date == 0 {
        Seq::empty()
    } else {
        spec_utf_chunk(dec_string(date as int / 1000), id, le)
    }
}

/// The tag chunk at one position of the meta tag envelope's fixed order.
pub open spec fn spec_meta_segment(t: MetaTagsV, le: bool, i: int) -> Seq<ChunkV> {
    if i == 0 {
        spec_utf_chunk(t.author, crate::types::iaut(), le)
    } else if i == 1 {
        spec_utf_chunk(t.guitarist, crate::types::igtr(), le)
    } else if i == 2 {
        spec_utf_chunk(t.band, crate::types::ibnd(), le)
    } else if i == 3 {
        spec_utf_chunk(t.song, crate::types::isng(), le)
    } else if i == 4 {
        spec_utf_chunk(t.style, crate::types::istl(), le)
    } else if i == 5 {
        spec_utf_chunk(t.pickup_style, crate::types::ipus(), le)
    } else if i == 6 {
        spec_utf_chunk(t.pickup_position, crate::types::ipup(), le)
    } else if i == 7 {
        spec_date_chunk(t.date, crate::types::idat(), le)
    } else if i == 8 {
        spec_utf_chunk(t.amp_name, crate::types::iamp(), le)
    } else if i == 9 {
        spec_utf_chunk(t.creator_app, crate::types::iapp(), le)
    } else if i == 10 {
        spec_utf_chunk(t.creator_app_version, crate::types::iapv(), le)
    } else if i == 11 {
        spec_utf_chunk(t.comments, crate::types::icmt(), le)
    } else {
        Seq::empty()
    }
}

/// The first `k` tag chunks of the meta tag envelope.
pub open spec fn spec_meta_children_up_to(t: MetaTagsV, le: bool, k: int) -> Seq<ChunkV>
    decreases k,
{
    if k <= 0 {
        Seq::empty()
    } else {
        spec_meta_children_up_to(t, le, k - 1) + spec_meta_segment(t, le, k - 1)
    }
}

/// The children of the meta tag envelope, in their fixed order.
pub open spec fn spec_meta_children(t: MetaTagsV, le: bool) -> Seq<ChunkV> {
    spec_meta_children_up_to(t, le, 12)
}

/// The meta tag envelope of a patch.
pub open spec fn spec_meta_chunk(t: MetaTagsV, le: bool) -> ChunkV {
    ChunkV::Envelope {
        envelope_id: crate::types::list(),
        id: crate::types::unfo(),
        chunks: spec_meta_children(t, le),
        little_endian: le,
        aligned: true,
    }
}

/// The whole chunk tree of an encoded patch.  Encoding always writes the
/// plain patch content type, whatever flavour the patch was decoded from.
pub open spec fn spec_patch_chunk(p: L6PatchV, le: bool) -> ChunkV {
    ChunkV::Envelope {
        envelope_id: crate::types::form(),
        id: crate::types::l6pa(),
        chunks: seq![
            spec_device_chunk(p.target_device, le),
            spec_models_chunk(p.models, le),
            spec_meta_chunk(p.meta, le),
        ],
        little_endian: le,
        aligned: true,
    }
}

fn write_target_device(dev: &TargetDevice, little_endian: bool) -> (r: Chunk)
    ensures
        r@ == spec_device_chunk(dev@, little_endian),
{
    let mut w = Writer::new(little_endian);
    w.write_u32(1);
    w.write_u32(dev.midi_id);
    w.write_utf_z(64, dev.name.as_str());
    w.write_u32(dev.version);
    let r = Chunk::Data { id: crate::types::pinf(), data: w.buffer, little_endian };
    proof {
        assert(r@->Data_data =~= spec_device_chunk(dev@, little_endian)->Data_data);
        assert(r@ =~= spec_device_chunk(dev@, little_endian));
    }
    r
}

fn encode_value(value: &Value) -> (r: (u32, u32))
    ensures
        r == spec_value_words(*value),
{
    match value {
        Value::Int(v) => (0, *v),
        Value::Float(bits) => (1, *bits),
    }
}

fn write_model_param(param: &ModelParam, little_endian: bool) -> (r: Chunk)
    ensures
        r@ == spec_param_chunk(*param, little_endian),
{
    let mut w = Writer::new(little_endian);
    w.write_u32(0x3f000000 | (param.param_id & 0x00ffffff));
    let words = encode_value(&param.value);
    w.write_u32(words.0);
    w.write_u32(words.1);
    let r = Chunk::Data { id: crate::types::parm(), data: w.buffer, little_endian };
    proof {
        assert(r@->Data_data =~= spec_param_chunk(*param, little_endian)->Data_data);
        assert(r@ =~= spec_param_chunk(*param, little_endian));
    }
    r
}

fn write_model_info(model: &Model, little_endian: bool) -> (r: Chunk)
    ensures
        r@ == spec_model_info_chunk(model@, little_endian),
{
    let mut w = Writer::new(little_endian);
    w.write_u32(model.model_id);
    w.write_u32(model.slot_id);
    w.write_u8(model.ordinal);
    w.write_u8(0);
    w.write_u8(0);
    w.write_u8(if model.enabled {
        1
    } else {
        0
    });
    let r = Chunk::Data { id: crate::types::minf(), data: w.buffer, little_endian };
    proof {
        assert(r@->Data_data =~= spec_model_info_chunk(model@, little_endian)->Data_data);
        assert(r@ =~= spec_model_info_chunk(model@, little_endian));
    }
    r
}

fn write_model(model: &Model, little_endian: bool) -> (r: Chunk)
    ensures
        r@ == spec_model_chunk(model@, little_endian),
{
    let mut envelope = Chunk::create(crate::types::list(), crate::types::modl(), little_endian);
    let info = write_model_info(model, little_endian);
    envelope.append_chunk(info);
    proof {
        assert(Seq::<ChunkV>::empty().push(spec_model_info_chunk(model@, little_endian)) =~= seq![
            spec_model_info_chunk(model@, little_endian),
        ] + model@.params.take(0).map_values(|p: ModelParam| spec_param_chunk(p, little_endian)));
    }
    let n = model.params.len();
    let mut j: usize = 0;
    while j < n
        invariant
            j <= n,
            n == model.params@.len(),
            envelope@ == (ChunkV::Envelope {
                envelope_id: crate::types::list(),
                id: crate::types::modl(),
                chunks: seq![spec_model_info_chunk(model@, little_endian)]
                    + model@.params.take(j as int).map_values(
                    |p: ModelParam| spec_param_chunk(p, little_endian),
                ),
                little_endian,
                aligned: true,
            }),
        decreases n - j,
    {
        let pc = write_model_param(&model.params[j], little_endian);
        envelope.append_chunk(pc);
        j = j + 1;
        proof {
            assert(model@.params.take(j as int) =~= model@.params.take(j - 1).push(
                model@.params[j - 1],
            ));
            assert(model@.params.take(j as int).map_values(
                |p: ModelParam| spec_param_chunk(p, little_endian),
            ) =~= model@.params.take(j - 1).map_values(
                |p: ModelParam| spec_param_chunk(p, little_endian),
            ).push(spec_param_chunk(model@.params[j - 1], little_endian)));
            assert(envelope@->Envelope_chunks =~= seq![
                spec_model_info_chunk(model@, little_endian),
            ] + model@.params.take(j as int).map_values(
                |p: ModelParam| spec_param_chunk(p, little_endian),
            ));
        }
    }
    proof {
        assert(model@.params.take(n as int) =~= model@.params);
        assert(envelope@ =~= spec_model_chunk(model@, little_endian));
    }
    envelope
}

fn write_models(models: &Vec<Model>, little_endian: bool) -> (r: Chunk)
    ensures
        r@ == spec_models_chunk(crate::model::models_view(models@), little_endian),
{
    let mut envelope = Chunk::create(crate::types::list(), crate::types::patc(), little_endian);
    let ghost ms = crate::model::models_view(models@);
    proof {
        assert(envelope@->Envelope_chunks =~= ms.take(0).map_values(
            |m: ModelV| spec_model_chunk(m, little_endian),
        ));
    }
    let n = models.len();
    let mut j: usize = 0;
    while j < n
        invariant
            j <= n,
            n == models@.len(),
            ms == crate::model::models_view(models@),
            ms.len() == n,
            envelope@ == (ChunkV::Envelope {
                envelope_id: crate::types::list(),
                id: crate::types::patc(),
                chunks: ms.take(j as int).map_values(
                    |m: ModelV| spec_model_chunk(m, little_endian),
                ),
                little_endian,
                aligned: true,
            }),
        decreases n - j,
    {
        let mc = write_model(&models[j], little_endian);
        envelope.append_chunk(mc);
        j = j + 1;
        proof {
            assert(ms[j - 1] == models@[j - 1]@);
            assert(ms.take(j as int) =~= ms.take(j - 1).push(ms[j - 1]));
            assert(ms.take(j as int).map_values(|m: ModelV| spec_model_chunk(m, little_endian))
                =~= ms.take(j - 1).map_values(|m: ModelV| spec_model_chunk(m, little_endian)).push(
                spec_model_chunk(ms[j - 1], little_endian),
            ));
            assert(envelope@->Envelope_chunks =~= ms.take(j as int).map_values(
                |m: ModelV| spec_model_chunk(m, little_endian),
            ));
        }
    }
    proof {
        assert(ms.take(n as int) =~= ms);
        assert(envelope@ =~= spec_models_chunk(ms, little_endian));
    }
    envelope
}

/// Encodes a string into a UTF-16 tag chunk, or nothing for an empty one.
fn encode_utf(value: &String, type_id: TypeID, little_endian: bool) -> (r: Option<Chunk>)
    ensures
        match r {
            Some(c) => seq![c@] == spec_utf_chunk(value@, type_id, little_endian),
            None => Seq::<ChunkV>::empty() == spec_utf_chunk(value@, type_id, little_endian)
                && value@.len() == 0,
        },
{
    if value.as_str().unicode_len() == 0 {
        return None;
    }
    let units = crate::text::utf16_encode_str(value.as_str());
    let mut w = Writer::new(little_endian);
    let n = units.len();
    let mut j: usize = 0;
    while j < n
        invariant
            j <= n,
            n == units@.len(),
            w.little_endian == little_endian,
            w.buffer@ == units_to_bytes(units@.take(j as int), little_endian),
        decreases n - j,
    {
        w.write_u16(units[j]);
        j = j + 1;
        proof {
            assert(units@.take(j as int) =~= units@.take(j - 1).push(units@[j - 1]));
            lemma_units_to_bytes_push(units@.take(j - 1), units@[j - 1], little_endian);
        }
    }
    proof {
        assert(units@.take(n as int) =~= units@);
    }
    let c = Chunk::Data { id: type_id, data: w.buffer, little_endian };
    proof {
        assert(seq![c@] =~= spec_utf_chunk(value@, type_id, little_endian));
    }
    Some(c)
}

/// Encodes the date tag, or nothing for a zero date.
fn encode_date(date: usize, type_id: TypeID, little_endian: bool) -> (r: Option<Chunk>)
    ensures
        match r {
            Some(c) => seq![c@] == spec_date_chunk(date, type_id, little_endian),
            None => Seq::<ChunkV>::empty() == spec_date_chunk(date, type_id, little_endian)
                && date == 0,
        },
{
    if date == 0 {
        return None;
    }
    let s = format_decimal(date / 1000);
    proof {
        assert(dec_string(date as int / 1000).len() > 0);
    }
    match encode_utf(&s, type_id, little_endian) {
        Some(c) => Some(c),
        None => {
            proof {
                assert(false);
            }
            None
        },
    }
}

fn write_meta_tags(tags: &MetaTags, little_endian: bool) -> (r: Chunk)
    ensures
        r@ == spec_meta_chunk(tags@, little_endian),
{
    let mut envelope = Chunk::create(crate::types::list(), crate::types::unfo(), little_endian);
    let ghost le = little_endian;
    let mut j: usize = 0;
    proof {
        assert(envelope@->Envelope_chunks =~= spec_meta_children_up_to(tags@, le, 0));
    }
    while j < 12
        invariant
            j <= 12,
            le == little_endian,
            envelope@ == (ChunkV::Envelope {
                envelope_id: crate::types::list(),
                id: crate::types::unfo(),
                chunks: spec_meta_children_up_to(tags@, le, j as int),
                little_endian: le,
                aligned: true,
            }),
        decreases 12 - j,
    {
        let item: Option<Chunk> = if j == 0 {
            {
                let it = encode_utf(&tags.author, crate::types::iaut(), little_endian);
                proof {
                    assert((match it {
                        Some(c) => seq![c@],
                        None => Seq::<ChunkV>::empty(),
                    }) =~= spec_meta_segment(tags@, le, j as int));
                }
                it
            }
        } else if j == 1 {
            {
                let it = encode_utf(&tags.guitarist, crate::types::igtr(), little_endian);
                proof {
                    assert((match it {
                        Some(c) => seq![c@],
                        None => Seq::<ChunkV>::empty(),
                    }) =~= spec_meta_segment(tags@, le, j as int));
                }
                it
            }
        } else if j == 2 {
            {
                let it = encode_utf(&tags.band, crate::types::ibnd(), little_endian);
                proof {
                    assert((match it {
                        Some(c) => seq![c@],
                        None => Seq::<ChunkV>::empty(),
                    }) =~= spec_meta_segment(tags@, le, j as int));
                }
                it
            }
        } else if j == 3 {
            {
                let it = encode_utf(&tags.song, crate::types::isng(), little_endian);
                proof {
                    assert((match it {
                        Some(c) => seq![c@],
                        None => Seq::<ChunkV>::empty(),
                    }) =~= spec_meta_segment(tags@, le, j as int));
                }
                it
            }
        } else if j == 4 {
            {
                let it = encode_utf(&tags.style, crate::types::istl(), little_endian);
                proof {
                    assert((match it {
                        Some(c) => seq![c@],
                        None => Seq::<ChunkV>::empty(),
                    }) =~= spec_meta_segment(tags@, le, j as int));
                }
                it
            }
        } else if j == 5 {
            {
                let it = encode_utf(&tags.pickup_style, crate::types::ipus(), little_endian);
                proof {
                    assert((match it {
                        Some(c) => seq![c@],
                        None => Seq::<ChunkV>::empty(),
                    }) =~= spec_meta_segment(tags@, le, j as int));
                }
                it
            }
        } else if j == 6 {
            {
                let it = encode_utf(&tags.pickup_position, crate::types::ipup(), little_endian);
                proof {
                    assert((match it {
                        Some(c) => seq![c@],
                        None => Seq::<ChunkV>::empty(),
                    }) =~= spec_meta_segment(tags@, le, j as int));
                }
                it
            }
        } else if j == 7 {
            {
                let it = encode_date(tags.date, crate::types::idat(), little_endian);
                proof {
                    assert((match it {
                        Some(c) => seq![c@],
                        None => Seq::<ChunkV>::empty(),
                    }) =~= spec_meta_segment(tags@, le, j as int));
                }
                it
            }
        } else if j == 8 {
            {
                let it = encode_utf(&tags.amp_name, crate::types::iamp(), little_endian);
                proof {
                    assert((match it {
                        Some(c) => seq![c@],
                        None => Seq::<ChunkV>::empty(),
                    }) =~= spec_meta_segment(tags@, le, j as int));
                }
                it
            }
        } else if j == 9 {
            {
                let it = encode_utf(&tags.creator_app, crate::types::iapp(), little_endian);
                proof {
                    assert((match it {
                        Some(c) => seq![c@],
                        None => Seq::<ChunkV>::empty(),
                    }) =~= spec_meta_segment(tags@, le, j as int));
                }
                it
            }
        } else if j == 10 {
            {
                let it = encode_utf(&tags.creator_app_version, crate::types::iapv(), little_endian);
                proof {
                    assert((match it {
                        Some(c) => seq![c@],
                        None => Seq::<ChunkV>::empty(),
                    }) =~= spec_meta_segment(tags@, le, j as int));
                }
                it
            }
        } else {
            {
                let it = encode_utf(&tags.comments, crate::types::icmt(), little_endian);
                proof {
                    assert((match it {
                        Some(c) => seq![c@],
                        None => Seq::<ChunkV>::empty(),
                    }) =~= spec_meta_segment(tags@, le, j as int));
                }
                it
            }
        };
        proof {
            assert((match item {
                Some(c) => seq![c@],
                None => Seq::<ChunkV>::empty(),
            }) == spec_meta_segment(tags@, le, j as int));
        }
        let ghost prev = envelope@->Envelope_chunks;
        match item {
            Some(c) => {
                envelope.append_chunk(c);
                proof {
                    assert(envelope@->Envelope_chunks =~= spec_meta_children_up_to(
                        tags@,
                        le,
                        j + 1,
                    ));
                }
            },
            None => {
                proof {
                    assert(prev + Seq::<ChunkV>::empty() =~= prev);
                    assert(envelope@->Envelope_chunks =~= spec_meta_children_up_to(
                        tags@,
                        le,
                        j + 1,
                    ));
                }
            },
        }
        j = j + 1;
    }
    proof {
        assert(envelope@ =~= spec_meta_chunk(tags@, le));
    }
    envelope
}

/// The encoder: a patch back to its serialized bytes.
pub struct Encoder {}

impl Encoder {
    /// Encodes a patch in big-endian byte order.
    pub fn write(patch: &L6Patch) -> (r: Result<Vec<u8>, Error>)
        ensures
            match r {
                Ok(bytes) => spec_patch_chunk(patch@, false).size() <= u32::MAX && bytes@
                    == spec_patch_chunk(patch@, false).ser(),
                Err(e) => e == Error::LengthOverrun && spec_patch_chunk(patch@, false).size()
                    > u32::MAX,
            },
    {
        Self::write_with_endian(patch, false)
    }

    /// Encodes a patch in the given byte order.  Fails only when the
    /// content is too large for the 32-bit length field.
    pub fn write_with_endian(patch: &L6Patch, little_endian: bool) -> (r: Result<Vec<u8>, Error>)
        ensures
            match r {
                Ok(bytes) => spec_patch_chunk(patch@, little_endian).size() <= u32::MAX && bytes@
                    == spec_patch_chunk(patch@, little_endian).ser(),
                Err(e) => e == Error::LengthOverrun && spec_patch_chunk(
                    patch@,
                    little_endian,
                ).size() > u32::MAX,
            },
    {
        let mut envelope = Chunk::create(crate::types::form(), crate::types::l6pa(), little_endian);
        let dev = write_target_device(&patch.target_device, little_endian);
        envelope.append_chunk(dev);
        let models = write_models(&patch.models, little_endian);
        envelope.append_chunk(models);
        let meta = write_meta_tags(&patch.meta, little_endian);
        envelope.append_chunk(meta);
        proof {
            assert(envelope@->Envelope_chunks =~= spec_patch_chunk(
                patch@,
                little_endian,
            )->Envelope_chunks);
            assert(envelope@ =~= spec_patch_chunk(patch@, little_endian));
        }
        let sz = envelope.size_saturating();
        if sz > 0xffff_ffffu64 {
            proof {
                assert(spec_patch_chunk(patch@, little_endian).size() > u32::MAX);
            }
            return Err(Error::LengthOverrun);
        }
        proof {
            assert(envelope@.size() <= u32::MAX);
            lemma_spec_patch_chunk_swf(patch@, little_endian);
            lemma_wf_of_swf(envelope@);
        }
        Ok(envelope.write())
    }
}

proof fn lemma_swf_children_concat(a: Seq<ChunkV>, b: Seq<ChunkV>, le: bool)
    requires
        swf_children(a, le),
        swf_children(b, le),
    ensures
        swf_children(a + b, le),
    decreases a,
{
    if a.len() == 0 {
        assert(a + b =~= b);
    } else {
        assert((a + b).drop_first() =~= a.drop_first() + b);
        assert((a + b)[0] == a[0]);
        assert(swf_children(a, le) == (swf(a[0]) && a[0].endianness() == le && swf_children(
            a.drop_first(),
            le,
        )));
        lemma_swf_children_concat(a.drop_first(), b, le);
        assert(swf_children(a + b, le) == (swf((a + b)[0]) && (a + b)[0].endianness() == le
            && swf_children((a + b).drop_first(), le)));
    }
}

proof fn lemma_utf_chunk_swf(s: Seq<char>, id: TypeID, le: bool)
    requires
        !id.spec_is_envelope(),
    ensures
        swf_children(spec_utf_chunk(s, id, le), le),
{
    let cs = spec_utf_chunk(s, id, le);
    if s.len() > 0 {
        assert(cs.drop_first() =~= Seq::<ChunkV>::empty());
        assert(swf_children(cs, le) == (swf(cs[0]) && cs[0].endianness() == le && swf_children(
            cs.drop_first(),
            le,
        )));
    }
}

proof fn lemma_meta_segment_swf(t: MetaTagsV, le: bool, i: int)
    ensures
        swf_children(spec_meta_segment(t, le, i), le),
{
    if i == 0 {
        lemma_utf_chunk_swf(t.author, crate::types::iaut(), le);
    } else if i == 1 {
        lemma_utf_chunk_swf(t.guitarist, crate::types::igtr(), le);
    } else if i == 2 {
        lemma_utf_chunk_swf(t.band, crate::types::ibnd(), le);
    } else if i == 3 {
        lemma_utf_chunk_swf(t.song, crate::types::isng(), le);
    } else if i == 4 {
        lemma_utf_chunk_swf(t.style, crate::types::istl(), le);
    } else if i == 5 {
        lemma_utf_chunk_swf(t.pickup_style, crate::types::ipus(), le);
    } else if i == 6 {
        lemma_utf_chunk_swf(t.pickup_position, crate::types::ipup(), le);
    } else if i == 7 {
        if t.date != 0 {
            lemma_utf_chunk_swf(dec_string(t.date as int / 1000), crate::types::idat(), le);
        }
    } else if i == 8 {
        lemma_utf_chunk_swf(t.amp_name, crate::types::iamp(), le);
    } else if i == 9 {
        lemma_utf_chunk_swf(t.creator_app, crate::types::iapp(), le);
    } else if i == 10 {
        lemma_utf_chunk_swf(t.creator_app_version, crate::types::iapv(), le);
    } else if i == 11 {
        lemma_utf_chunk_swf(t.comments, crate::types::icmt(), le);
    }
}

proof fn lemma_meta_up_to_swf(t: MetaTagsV, le: bool, k: int)
    ensures
        swf_children(spec_meta_children_up_to(t, le, k), le),
    decreases k,
{
    if k <= 0 {
    } else {
        lemma_meta_up_to_swf(t, le, k - 1);
        lemma_meta_segment_swf(t, le, k - 1);
        lemma_swf_children_concat(
            spec_meta_children_up_to(t, le, k - 1),
            spec_meta_segment(t, le, k - 1),
            le,
        );
    }
}

proof fn lemma_spec_patch_chunk_swf(p: L6PatchV, le: bool)
    ensures
        swf(spec_patch_chunk(p, le)),
{
    let dev = spec_device_chunk(p.target_device, le);
    assert(swf(dev));
    let ms = p.models.map_values(|m: ModelV| spec_model_chunk(m, le));
    assert forall|i: int| 0 <= i < ms.len() implies swf(#[trigger] ms[i]) && ms[i].endianness()
        == le by {
        let m = p.models[i];
        assert(ms[i] == spec_model_chunk(m, le));
        let inner = seq![spec_model_info_chunk(m, le)] + m.params.map_values(
            |q: ModelParam| spec_param_chunk(q, le),
        );
        assert forall|k: int| 0 <= k < inner.len() implies swf(#[trigger] inner[k])
            && inner[k].endianness() == le by {
            if k == 0 {
                assert(inner[0] == spec_model_info_chunk(m, le));
            } else {
                assert(inner[k] == spec_param_chunk(m.params[k - 1], le));
            }
        }
        crate::chunk::lemma_swf_children_of_all(inner, le);
    }
    crate::chunk::lemma_swf_children_of_all(ms, le);
    let mm = spec_models_chunk(p.models, le);
    assert(swf(mm));
    let t = p.meta;
    lemma_meta_up_to_swf(t, le, 12);
    assert(swf_children(spec_meta_children(t, le), le));
    let mt = spec_meta_chunk(t, le);
    assert(swf(mt));
    let top = seq![dev, mm, mt];
    assert forall|i: int| 0 <= i < top.len() implies swf(#[trigger] top[i]) && top[i].endianness()
        == le by {
        if i == 0 {
            assert(top[i] == dev);
        } else if i == 1 {
            assert(top[i] == mm);
        } else {
            assert(top[i] == mt);
        }
    }
    crate::chunk::lemma_swf_children_of_all(top, le);
}

} // verus!
