//! Decoding chunk trees into patches, bundles and banks.

use vstd::prelude::*;

use crate::chunk::{spec_parse, u32_at, Chunk, ChunkV};
use crate::error::Error;
use crate::model::{
    empty_meta_tags, models_view, Bank, BankV, BatchHead, BankInfo, L6Bundle, L6BundleV, L6Patch,
    L6PatchV, MetaTags, MetaTagsV, Model, ModelParam, ModelV, PatchType, BundleType, TargetDevice,
    TargetDeviceV, Value,
};
use crate::text::{
    bytes_to_units, take_until_nul, utf16_decode, string_until_nul, utf16_decode_units,
    parse_decimal, is_dec_digits, dec_value,
};
use crate::types::TypeID;

verus! {

/// The 16-bit value spelled by two bytes of the buffer.
pub open spec fn u16_at(data: Seq<u8>, i: int, little_endian: bool) -> u16 {
    if little_endian {
        (data[i] + data[i + 1] * 0x100) as u16
    } else {
        (data[i] * 0x100 + data[i + 1]) as u16
    }
}

/// A byte reader over a slice, fixed to one byte order.
pub struct Reader<'a> {
    data: &'a [u8],
    pos: usize,
    pub little_endian: bool,
}

impl<'a> Reader<'a> {
    pub closed spec fn spec_data(&self) -> Seq<u8> {
        self.data@
    }

    pub closed spec fn spec_le(&self) -> bool {
        self.little_endian
    }

    pub closed spec fn spec_pos(&self) -> int {
        self.pos as int
    }

    pub open spec fn wf(&self) -> bool {
        self.spec_pos() <= self.spec_data().len()
    }

    /// A reader at the start of the slice.
    pub fn new(data: &'a [u8], little_endian: bool) -> (r: Self)
        ensures
            r.spec_data() == data@,
            r.spec_pos() == 0,
            r.spec_le() == little_endian,
            r.wf(),
    {
        Reader { data, pos: 0, little_endian }
    }

    /// Reads one byte.
    pub fn read_u8(&mut self) -> (r: Result<u8, Error>)
        requires
            old(self).wf(),
        ensures
            final(self).spec_data() == old(self).spec_data(),
            final(self).spec_le() == old(self).spec_le(),
            final(self).wf(),
            match r {
                Ok(v) => old(self).spec_pos() + 1 <= old(self).spec_data().len() && v == old(
                    self,
                ).spec_data()[old(self).spec_pos()] && final(self).spec_pos() == old(
                    self,
                ).spec_pos() + 1,
                Err(e) => e == Error::Truncated && old(self).spec_pos() + 1 > old(
                    self,
                ).spec_data().len() && *final(self) == *old(self),
            },
    {
        if self.pos >= self.data.len() {
            return Err(Error::Truncated);
        }
        let v = self.data[self.pos];
        self.pos = self.pos + 1;
        Ok(v)
    }

    /// Reads a 16-bit value in the reader's byte order.
    pub fn read_u16(&mut self) -> (r: Result<u16, Error>)
        requires
            old(self).wf(),
        ensures
            final(self).spec_data() == old(self).spec_data(),
            final(self).spec_le() == old(self).spec_le(),
            final(self).wf(),
            match r {
                Ok(v) => old(self).spec_pos() + 2 <= old(self).spec_data().len() && v == u16_at(
                    old(self).spec_data(),
                    old(self).spec_pos(),
                    old(self).spec_le(),
                ) && final(self).spec_pos() == old(self).spec_pos() + 2,
                Err(e) => e == Error::Truncated && old(self).spec_pos() + 2 > old(
                    self,
                ).spec_data().len() && *final(self) == *old(self),
            },
    {
        if self.data.len() < 2 || self.pos > self.data.len() - 2 {
            return Err(Error::Truncated);
        }
        let b0 = self.data[self.pos];
        let b1 = self.data[self.pos + 1];
        self.pos = self.pos + 2;
        if self.little_endian {
            let v = (b0 as u16) | ((b1 as u16) << 8);
            proof {
                assert(v == (b0 + b1 * 0x100) as u16) by (bit_vector)
                    requires
                        v == (b0 as u16) | ((b1 as u16) << 8),
                ;
            }
            Ok(v)
        } else {
            let v = ((b0 as u16) << 8) | (b1 as u16);
            proof {
                assert(v == (b0 * 0x100 + b1) as u16) by (bit_vector)
                    requires
                        v == ((b0 as u16) << 8) | (b1 as u16),
                ;
            }
            Ok(v)
        }
    }

    /// Reads a 32-bit value in the reader's byte order.
    pub fn read_u32(&mut self) -> (r: Result<u32, Error>)
        requires
            old(self).wf(),
        ensures
            final(self).spec_data() == old(self).spec_data(),
            final(self).spec_le() == old(self).spec_le(),
            final(self).wf(),
            match r {
                Ok(v) => old(self).spec_pos() + 4 <= old(self).spec_data().len() && v == u32_at(
                    old(self).spec_data(),
                    old(self).spec_pos(),
                    old(self).spec_le(),
                ) && final(self).spec_pos() == old(self).spec_pos() + 4,
                Err(e) => e == Error::Truncated && old(self).spec_pos() + 4 > old(
                    self,
                ).spec_data().len() && *final(self) == *old(self),
            },
    {
        if self.data.len() < 4 || self.pos > self.data.len() - 4 {
            return Err(Error::Truncated);
        }
        let b0 = self.data[self.pos];
        let b1 = self.data[self.pos + 1];
        let b2 = self.data[self.pos + 2];
        let b3 = self.data[self.pos + 3];
        self.pos = self.pos + 4;
        if self.little_endian {
            Ok((b0 as u32) | ((b1 as u32) << 8) | ((b2 as u32) << 16) | ((b3 as u32) << 24))
        } else {
            Ok(((b0 as u32) << 24) | ((b1 as u32) << 16) | ((b2 as u32) << 8) | (b3 as u32))
        }
    }

    /// Fills the given buffer with the next bytes, replacing its contents.
    pub fn read_u8_into(&mut self, buffer: &mut Vec<u8>) -> (r: Result<(), Error>)
        requires
            old(self).wf(),
        ensures
            final(self).spec_data() == old(self).spec_data(),
            final(self).spec_le() == old(self).spec_le(),
            final(self).wf(),
            final(buffer)@.len() == old(buffer)@.len(),
            match r {
                Ok(()) => old(self).spec_pos() + old(buffer)@.len() <= old(
                    self,
                ).spec_data().len() && final(buffer)@ == old(self).spec_data().subrange(
                    old(self).spec_pos(),
                    old(self).spec_pos() + old(buffer)@.len(),
                ) && final(self).spec_pos() == old(self).spec_pos() + old(buffer)@.len(),
                Err(e) => e == Error::Truncated && old(self).spec_pos() + old(buffer)@.len() > old(
                    self,
                ).spec_data().len() && *final(self) == *old(self) && final(buffer)@ == old(
                    buffer,
                )@,
            },
    {
        let n = buffer.len();
        let dlen: usize = self.data.len();
        if n > dlen - self.pos {
            return Err(Error::Truncated);
        }
        let mut k: usize = 0;
        while k < n
            invariant
                k <= n,
                n == buffer@.len(),
                self.wf(),
                self.spec_data() == old(self).spec_data(),
                self.spec_le() == old(self).spec_le(),
                self.spec_pos() == old(self).spec_pos(),
                old(self).spec_pos() + n <= old(self).spec_data().len(),
                self.spec_data().len() <= usize::MAX,
                buffer@.subrange(0, k as int) == old(self).spec_data().subrange(
                    old(self).spec_pos(),
                    old(self).spec_pos() + k,
                ),
            decreases n - k,
        {
            let v = self.data[self.pos + k];
            buffer.set(k, v);
            k = k + 1;
            proof {
                assert(buffer@.subrange(0, k as int) =~= old(self).spec_data().subrange(
                    old(self).spec_pos(),
                    old(self).spec_pos() + k,
                ));
            }
        }
        self.pos = self.pos + n;
        proof {
            assert(buffer@ =~= buffer@.subrange(0, n as int));
        }
        Ok(())
    }

    /// Reads `len / 2` UTF-16 code units (that is, `2 * (len / 2)` bytes)
    /// and decodes them, lossily, in the reader's byte order.
    pub fn read_utf(&mut self, len: usize) -> (r: Result<String, Error>)
        requires
            old(self).wf(),
        ensures
            final(self).spec_data() == old(self).spec_data(),
            final(self).spec_le() == old(self).spec_le(),
            final(self).wf(),
            match r {
                Ok(s) => ({
                    let nbytes = 2 * (len as int / 2);
                    &&& old(self).spec_pos() + nbytes <= old(self).spec_data().len()
                    &&& s@ == utf16_decode(
                        bytes_to_units(
                            old(self).spec_data().subrange(
                                old(self).spec_pos(),
                                old(self).spec_pos() + nbytes,
                            ),
                            old(self).spec_le(),
                        ),
                    )
                    &&& final(self).spec_pos() == old(self).spec_pos() + nbytes
                }),
                Err(e) => e == Error::Truncated && old(self).spec_pos() + 2 * (len as int / 2)
                    > old(self).spec_data().len() && *final(self) == *old(self),
            },
    {
        let nunits = len / 2;
        let dlen: usize = self.data.len();
        if nunits > (dlen - self.pos) / 2 {
            proof {
                assert(2 * (len as int / 2) > old(self).spec_data().len() - old(self).spec_pos());
            }
            return Err(Error::Truncated);
        }
        let ghost seg = self.data@.subrange(self.pos as int, self.pos + 2 * (nunits as int));
        let mut units: Vec<u16> = Vec::new();
        let mut k: usize = 0;
        proof {
            assert(units@ + bytes_to_units(seg.skip(0), self.spec_le()) =~= bytes_to_units(
                seg,
                self.spec_le(),
            )) by {
                assert(seg.skip(0) =~= seg);
            }
        }
        while k < nunits
            invariant
                k <= nunits,
                self.wf(),
                self.spec_data() == old(self).spec_data(),
                self.spec_le() == old(self).spec_le(),
                self.spec_pos() == old(self).spec_pos(),
                self.spec_pos() + 2 * nunits <= self.spec_data().len(),
                self.spec_data().len() <= usize::MAX,
                seg == self.spec_data().subrange(self.spec_pos(), self.spec_pos() + 2 * (
                nunits as int)),
                units@ + bytes_to_units(seg.skip(2 * k as int), self.spec_le())
                    == bytes_to_units(seg, self.spec_le()),
            decreases nunits - k,
        {
            let ghost rest = seg.skip(2 * k as int);
            proof {
                assert(rest[0] == seg[2 * k as int]);
                assert(rest[1] == seg[2 * k + 1]);
                assert(seg[2 * k as int] == self.spec_data()[self.spec_pos() + 2 * k]);
                assert(seg[2 * k + 1] == self.spec_data()[self.spec_pos() + 2 * k + 1]);
                assert(rest.skip(2) =~= seg.skip(2 * (k + 1)));
            }
            let b0 = self.data[self.pos + 2 * k];
            let b1 = self.data[self.pos + 2 * k + 1];
            let u: u16 = if self.little_endian {
                (b0 as u16) | ((b1 as u16) << 8)
            } else {
                ((b0 as u16) << 8) | (b1 as u16)
            };
            proof {
                if self.spec_le() {
                    assert(u == (b0 + b1 * 0x100) as u16) by (bit_vector)
                        requires
                            u == (b0 as u16) | ((b1 as u16) << 8),
                    ;
                } else {
                    assert(u == (b0 * 0x100 + b1) as u16) by (bit_vector)
                        requires
                            u == ((b0 as u16) << 8) | (b1 as u16),
                    ;
                }
            }
            units.push(u);
            k = k + 1;
            proof {
                assert(units@ + bytes_to_units(seg.skip(2 * k as int), self.spec_le())
                    =~= bytes_to_units(seg, self.spec_le()));
            }
        }
        proof {
            assert(bytes_to_units(seg.skip(2 * nunits as int), self.spec_le()) =~= Seq::<
                u16,
            >::empty());
            assert(units@ =~= bytes_to_units(seg, self.spec_le()));
        }
        let s = utf16_decode_units(units.as_slice());
        self.pos = self.pos + 2 * nunits;
        Ok(s)
    }

    /// Like `read_utf`, but truncates the result at its first NUL
    /// character, as fixed-width name fields demand.
    pub fn read_utf_z(&mut self, len: usize) -> (r: Result<String, Error>)
        requires
            old(self).wf(),
        ensures
            final(self).spec_data() == old(self).spec_data(),
            final(self).spec_le() == old(self).spec_le(),
            final(self).wf(),
            match r {
                Ok(s) => ({
                    let nbytes = 2 * (len as int / 2);
                    &&& old(self).spec_pos() + nbytes <= old(self).spec_data().len()
                    &&& s@ == take_until_nul(
                        utf16_decode(
                            bytes_to_units(
                                old(self).spec_data().subrange(
                                    old(self).spec_pos(),
                                    old(self).spec_pos() + nbytes,
                                ),
                                old(self).spec_le(),
                            ),
                        ),
                    )
                    &&& final(self).spec_pos() == old(self).spec_pos() + nbytes
                }),
                Err(e) => e == Error::Truncated && old(self).spec_pos() + 2 * (len as int / 2)
                    > old(self).spec_data().len() && *final(self) == *old(self),
            },
    {
        let s = match self.read_utf(len) {
            Ok(s) => s,
            Err(e) => {
                return Err(e);
            },
        };
        Ok(string_until_nul(s.as_str()))
    }

    /// Reads a one-byte length followed by that many bytes of eight-bit
    /// text, each byte taken as the character with its code.
    pub fn read_ascii_n(&mut self) -> (r: Result<String, Error>)
        requires
            old(self).wf(),
        ensures
            final(self).spec_data() == old(self).spec_data(),
            final(self).spec_le() == old(self).spec_le(),
            final(self).wf(),
            match r {
                Ok(s) => ({
                    let n = old(self).spec_data()[old(self).spec_pos()] as int;
                    &&& old(self).spec_pos() + 1 + n <= old(self).spec_data().len()
                    &&& s@ == old(self).spec_data().subrange(
                        old(self).spec_pos() + 1,
                        old(self).spec_pos() + 1 + n,
                    ).map_values(|b: u8| b as char)
                    &&& final(self).spec_pos() == old(self).spec_pos() + 1 + n
                }),
                Err(e) => e == Error::Truncated && *final(self) == *old(self) && (old(
                    self,
                ).spec_pos() >= old(self).spec_data().len() || old(self).spec_pos() + 1 + old(
                    self,
                ).spec_data()[old(self).spec_pos()] > old(self).spec_data().len()),
            },
    {
        let dlen: usize = self.data.len();
        if self.pos >= dlen {
            return Err(Error::Truncated);
        }
        let n = self.data[self.pos] as usize;
        if n > dlen - self.pos - 1 {
            return Err(Error::Truncated);
        }
        let ghost seg = self.data@.subrange(self.pos + 1, self.pos + 1 + n as int);
        let mut s = String::new();
        let mut k: usize = 0;
        while k < n
            invariant
                k <= n,
                self.wf(),
                self.spec_data() == old(self).spec_data(),
                self.spec_le() == old(self).spec_le(),
                self.spec_pos() == old(self).spec_pos(),
                self.spec_pos() + 1 + n <= self.spec_data().len(),
                self.spec_data().len() <= usize::MAX,
                n == self.spec_data()[self.spec_pos()] as int,
                seg == self.spec_data().subrange(self.spec_pos() + 1, self.spec_pos() + 1
                    + n as int),
                s@ == seg.subrange(0, k as int).map_values(|b: u8| b as char),
            decreases n - k,
        {
            let b = self.data[self.pos + 1 + k];
            crate::text::push_ascii_char(&mut s, b);
            k = k + 1;
            proof {
                assert(s@ =~= seg.subrange(0, k as int).map_values(|b: u8| b as char));
            }
        }
        self.pos = self.pos + 1 + n;
        proof {
            assert(seg.subrange(0, n as int) =~= seg);
        }
        Ok(s)
    }
}

} // verus!

verus! {

/// The content type id of an envelope, or the id of a data chunk.
pub open spec fn cv_id(c: ChunkV) -> TypeID {
    match c {
        ChunkV::Envelope { id, .. } => id,
        ChunkV::Data { id, .. } => id,
    }
}

pub open spec fn default_model() -> ModelV {
    ModelV { model_id: 0, slot_id: 0, enabled: false, ordinal: 0, params: Seq::empty() }
}

/// A tagged parameter value: word 0 selects integer (0) or float (1).
pub open spec fn spec_decode_value(tag: u32, raw: u32) -> Result<Value, Error> {
    if tag == 0 {
        Ok(Value::Int(raw))
    } else if tag == 1 {
        Ok(Value::Float(raw))
    } else {
        Err(Error::UnsupportedValueType)
    }
}

/// A 12-byte parameter record: a masked 24-bit id and a tagged value.
pub open spec fn spec_read_model_param(d: Seq<u8>, le: bool) -> Result<ModelParam, Error> {
    if d.len() < 12 {
        Err(Error::Truncated)
    } else {
        match spec_decode_value(u32_at(d, 4, le), u32_at(d, 8, le)) {
            Ok(v) => Ok(ModelParam { param_id: u32_at(d, 0, le) & 0x00ffffff, value: v }),
            Err(e) => Err(e),
        }
    }
}

/// A 12-byte model info record: model id, slot id, ordinal and enabled flag.
pub open spec fn spec_read_model_info(d: Seq<u8>, le: bool) -> Result<ModelV, Error> {
    if d.len() < 12 {
        Err(Error::Truncated)
    } else {
        Ok(
            ModelV {
                model_id: u32_at(d, 0, le),
                slot_id: u32_at(d, 4, le),
                ordinal: d[8],
                enabled: d[11] > 0,
                params: Seq::empty(),
            },
        )
    }
}

/// Walks the data chunk children of a model envelope: the last info record
/// wins, and parameter records accumulate in order.
pub open spec fn spec_fold_model(cs: Seq<ChunkV>, le: bool, m: ModelV, ps: Seq<ModelParam>) -> Result<
    (ModelV, Seq<ModelParam>),
    Error,
>
    decreases cs, 0int,
{
    if cs.len() == 0 {
        Ok((m, ps))
    } else {
        match cs[0] {
            ChunkV::Data { id, data, .. } => {
                if id == crate::types::minf() {
                    match spec_read_model_info(data, le) {
                        Ok(m2) => spec_fold_model(cs.drop_first(), le, m2, ps),
                        Err(e) => Err(e),
                    }
                } else if id == crate::types::parm() {
                    match spec_read_model_param(data, le) {
                        Ok(p) => spec_fold_model(cs.drop_first(), le, m, ps.push(p)),
                        Err(e) => Err(e),
                    }
                } else {
                    spec_fold_model(cs.drop_first(), le, m, ps)
                }
            },
            ChunkV::Envelope { .. } => spec_fold_model(cs.drop_first(), le, m, ps),
        }
    }
}

/// One model envelope: its info record plus its parameter records.
pub open spec fn spec_read_model(cv: ChunkV) -> Result<ModelV, Error>
    decreases cv, 1int,
{
    let cs = match cv {
        ChunkV::Envelope { chunks, .. } => chunks,
        ChunkV::Data { .. } => Seq::empty(),
    };
    match spec_fold_model(cs, cv.endianness(), default_model(), Seq::empty()) {
        Ok((m, ps)) => Ok(
            ModelV {
                model_id: m.model_id,
                slot_id: m.slot_id,
                enabled: m.enabled,
                ordinal: m.ordinal,
                params: m.params + ps,
            },
        ),
        Err(e) => Err(e),
    }
}

/// Walks the children of the model list envelope: each must be a
/// `LIST`/`MODL` envelope.
pub open spec fn spec_fold_models(cs: Seq<ChunkV>, acc: Seq<ModelV>) -> Result<Seq<ModelV>, Error>
    decreases cs, 0int,
{
    if cs.len() == 0 {
        Ok(acc)
    } else if cs[0] matches ChunkV::Envelope { envelope_id, id, .. } && envelope_id
        == crate::types::list() && id == crate::types::modl() {
        match spec_read_model(cs[0]) {
            Ok(m) => spec_fold_models(cs.drop_first(), acc.push(m)),
            Err(e) => Err(e),
        }
    } else {
        Err(Error::WrongChunkType)
    }
}

/// The model list of a patch.
pub open spec fn spec_read_models(cv: ChunkV) -> Result<Seq<ModelV>, Error>
    decreases cv, 1int,
{
    match cv {
        ChunkV::Envelope { chunks, .. } => spec_fold_models(chunks, Seq::empty()),
        ChunkV::Data { .. } => Err(Error::WrongChunkType),
    }
}

/// A text field: the payload's UTF-16 code units, decoded lossily.
pub open spec fn spec_string_field(d: Seq<u8>, le: bool) -> Seq<char> {
    utf16_decode(bytes_to_units(d, le))
}

/// A date field: a decimal whole-seconds string, rescaled to milliseconds;
/// anything unparseable, or out of range, is zero.
pub open spec fn spec_decode_date(s: Seq<char>) -> usize {
    if s.len() > 0 && is_dec_digits(s) && dec_value(s) * 1000 <= usize::MAX {
        (dec_value(s) * 1000) as usize
    } else {
        0
    }
}

/// Walks the data chunk children of the meta tag envelope; each known tag
/// id fills its field, the last occurrence winning.
pub open spec fn spec_fold_meta(cs: Seq<ChunkV>, le: bool, t: MetaTagsV) -> MetaTagsV
    decreases cs,
{
    if cs.len() == 0 {
        t
    } else {
        let t2 = match cs[0] {
            ChunkV::Data { id, data, .. } => {
                let s = spec_string_field(data, le);
                if id == crate::types::iaut() {
                    MetaTagsV { author: s, ..t }
                } else if id == crate::types::igtr() {
                    MetaTagsV { guitarist: s, ..t }
                } else if id == crate::types::ibnd() {
                    MetaTagsV { band: s, ..t }
                } else if id == crate::types::isng() {
                    MetaTagsV { song: s, ..t }
                } else if id == crate::types::istl() {
                    MetaTagsV { style: s, ..t }
                } else if id == crate::types::ipus() {
                    MetaTagsV { pickup_style: s, ..t }
                } else if id == crate::types::ipup() {
                    MetaTagsV { pickup_position: s, ..t }
                } else if id == crate::types::idat() {
                    MetaTagsV { date: spec_decode_date(s), ..t }
                } else if id == crate::types::iamp() {
                    MetaTagsV { amp_name: s, ..t }
                } else if id == crate::types::iapp() {
                    MetaTagsV { creator_app: s, ..t }
                } else if id == crate::types::iapv() {
                    MetaTagsV { creator_app_version: s, ..t }
                } else if id == crate::types::icmt() {
                    MetaTagsV { comments: s, ..t }
                } else {
                    t
                }
            },
            ChunkV::Envelope { .. } => t,
        };
        spec_fold_meta(cs.drop_first(), le, t2)
    }
}

/// The meta tags of a patch.
pub open spec fn spec_read_meta_tags(cv: ChunkV) -> MetaTagsV {
    let cs = match cv {
        ChunkV::Envelope { chunks, .. } => chunks,
        ChunkV::Data { .. } => Seq::empty(),
    };
    spec_fold_meta(cs, cv.endianness(), empty_meta_tags())
}

/// The fixed 76-byte target device record: a version field that must be 1,
/// the device id, a 64-byte name truncated at its first NUL, and the
/// protocol version.
pub open spec fn spec_read_target_device(cv: ChunkV, le: bool) -> Result<TargetDeviceV, Error> {
    match cv {
        ChunkV::Envelope { .. } => Err(Error::WrongChunkType),
        ChunkV::Data { data: d, .. } => {
            if d.len() != 76 {
                Err(Error::WrongLength)
            } else if u32_at(d, 0, le) != 1 {
                Err(Error::WrongVersion)
            } else {
                Ok(
                    TargetDeviceV {
                        midi_id: u32_at(d, 4, le),
                        name: take_until_nul(spec_string_field(d.subrange(8, 72), le)),
                        version: u32_at(d, 72, le),
                    },
                )
            }
        },
    }
}

/// The bundle header record: a single version word.
pub open spec fn spec_read_head(cv: ChunkV, le: bool) -> Result<u32, Error> {
    match cv {
        ChunkV::Envelope { .. } => Err(Error::WrongChunkType),
        ChunkV::Data { data: d, .. } => {
            if d.len() < 4 {
                Err(Error::Truncated)
            } else {
                Ok(u32_at(d, 0, le))
            }
        },
    }
}

/// The fixed 68-byte bank info record: a leading word, then a 64-byte name
/// truncated at its first NUL.
pub open spec fn spec_read_bank_info(cv: ChunkV, le: bool) -> Result<Seq<char>, Error> {
    match cv {
        ChunkV::Envelope { .. } => Err(Error::WrongChunkType),
        ChunkV::Data { data: d, .. } => {
            if d.len() != 68 {
                Err(Error::WrongLength)
            } else {
                Ok(take_until_nul(spec_string_field(d.subrange(4, 68), le)))
            }
        },
    }
}

/// Walks the top-level children of a patch envelope, filling the model
/// list, the meta tags and the target device; the last of each wins, and
/// unknown children are ignored.
pub open spec fn spec_fold_patch(cs: Seq<ChunkV>, p: L6PatchV) -> Result<L6PatchV, Error>
    decreases cs, 0int,
{
    if cs.len() == 0 {
        Ok(p)
    } else {
        let tid = cv_id(cs[0]);
        if tid == crate::types::patc() {
            match spec_read_models(cs[0]) {
                Ok(ms) => spec_fold_patch(cs.drop_first(), L6PatchV { models: ms, ..p }),
                Err(e) => Err(e),
            }
        } else if tid == crate::types::unfo() {
            spec_fold_patch(cs.drop_first(), L6PatchV { meta: spec_read_meta_tags(cs[0]), ..p })
        } else if tid == crate::types::pinf() {
            match spec_read_target_device(cs[0], false) {
                Ok(d) => spec_fold_patch(cs.drop_first(), L6PatchV { target_device: d, ..p }),
                Err(e) => Err(e),
            }
        } else {
            spec_fold_patch(cs.drop_first(), p)
        }
    }
}

pub open spec fn default_target_device() -> TargetDeviceV {
    TargetDeviceV { midi_id: 0, name: Seq::empty(), version: 0 }
}

/// One patch file: a `FORM` envelope whose content id names one of the
/// three structurally identical patch flavours.
pub open spec fn spec_read_patch(cv: ChunkV) -> Result<L6PatchV, Error>
    decreases cv, 1int,
{
    match cv {
        ChunkV::Envelope { envelope_id, id, chunks, .. } => {
            if envelope_id != crate::types::form() {
                Err(Error::FormatNotSupported)
            } else if id != crate::types::l6pa() && id != crate::types::l6as() && id
                != crate::types::l6fs() {
                Err(Error::FormatNotSupported)
            } else {
                let pt = if id == crate::types::l6pa() {
                    PatchType::Patch
                } else if id == crate::types::l6as() {
                    PatchType::AmpSetup
                } else {
                    PatchType::FxSetup
                };
                spec_fold_patch(
                    chunks,
                    L6PatchV {
                        patch_type: pt,
                        target_device: default_target_device(),
                        models: Seq::empty(),
                        meta: empty_meta_tags(),
                    },
                )
            }
        },
        ChunkV::Data { .. } => Err(Error::FormatNotSupported),
    }
}

/// Walks the children of a bank envelope: the bank info record names it,
/// and each nested patch envelope adds one patch; anything else is an
/// error.
pub open spec fn spec_fold_bank(cs: Seq<ChunkV>, le: bool, b: BankV) -> Result<BankV, Error>
    decreases cs, 0int,
{
    if cs.len() == 0 {
        Ok(b)
    } else {
        let tid = cv_id(cs[0]);
        if tid == crate::types::binf() {
            match spec_read_bank_info(cs[0], le) {
                Ok(name) => spec_fold_bank(cs.drop_first(), le, BankV { name, ..b }),
                Err(e) => Err(e),
            }
        } else if tid == crate::types::l6pa() || tid == crate::types::l6as() || tid
            == crate::types::l6fs() {
            match spec_read_patch(cs[0]) {
                Ok(p) => spec_fold_bank(cs.drop_first(), le, BankV { patches: b.patches.push(p), ..b }),
                Err(e) => Err(e),
            }
        } else {
            Err(Error::WrongChunkType)
        }
    }
}

/// One bank envelope.
pub open spec fn spec_read_bank(cv: ChunkV, le: bool) -> Result<BankV, Error>
    decreases cv, 1int,
{
    let cs = match cv {
        ChunkV::Envelope { chunks, .. } => chunks,
        ChunkV::Data { .. } => Seq::empty(),
    };
    spec_fold_bank(cs, le, BankV { name: Seq::empty(), patches: Seq::empty() })
}

/// Walks the children of a bundle envelope: the header record is checked
/// and discarded, and each bank (in a bundle) or folder (in a collection)
/// adds one bank; anything else is ignored.
pub open spec fn spec_fold_bundle(cs: Seq<ChunkV>, bt: BundleType, banks: Seq<BankV>) -> Result<
    Seq<BankV>,
    Error,
>
    decreases cs, 0int,
{
    if cs.len() == 0 {
        Ok(banks)
    } else {
        let tid = cv_id(cs[0]);
        if tid == crate::types::head() {
            match spec_read_head(cs[0], false) {
                Ok(_) => spec_fold_bundle(cs.drop_first(), bt, banks),
                Err(e) => Err(e),
            }
        } else if tid == crate::types::bank() && bt == BundleType::Bundle {
            match spec_read_bank(cs[0], false) {
                Ok(b) => spec_fold_bundle(cs.drop_first(), bt, banks.push(b)),
                Err(e) => Err(e),
            }
        } else if tid == crate::types::fldr() && bt == BundleType::Collection {
            match spec_read_bank(cs[0], false) {
                Ok(b) => spec_fold_bundle(cs.drop_first(), bt, banks.push(b)),
                Err(e) => Err(e),
            }
        } else {
            spec_fold_bundle(cs.drop_first(), bt, banks)
        }
    }
}

/// One bundle file: a `FORM` envelope whose content id names a bank list
/// or a folder collection.
pub open spec fn spec_read_bundle(cv: ChunkV) -> Result<L6BundleV, Error>
    decreases cv, 2int,
{
    match cv {
        ChunkV::Envelope { envelope_id, id, chunks, .. } => {
            if envelope_id != crate::types::form() {
                Err(Error::FormatNotSupported)
            } else if id != crate::types::l6ba() && id != crate::types::l6co() {
                Err(Error::FormatNotSupported)
            } else {
                let bt = if id == crate::types::l6ba() {
                    BundleType::Bundle
                } else {
                    BundleType::Collection
                };
                match spec_fold_bundle(chunks, bt, Seq::empty()) {
                    Ok(banks) => Ok(L6BundleV { bundle_type: bt, banks }),
                    Err(e) => Err(e),
                }
            }
        },
        ChunkV::Data { .. } => Err(Error::FormatNotSupported),
    }
}

/// What decoding gives: one patch, or a bundle of banks.
#[derive(Debug)]
pub enum DecoderResult {
    Patch(L6Patch),
    Bundle(L6Bundle),
}

/// The mathematical model of a `DecoderResult`.
#[verifier::ext_equal]
pub enum DecoderResultV {
    Patch(L6PatchV),
    Bundle(L6BundleV),
}

impl View for DecoderResult {
    type V = DecoderResultV;

    open spec fn view(&self) -> DecoderResultV {
        match self {
            DecoderResult::Patch(p) => DecoderResultV::Patch(p@),
            DecoderResult::Bundle(b) => DecoderResultV::Bundle(b@),
        }
    }
}

/// What decoding a whole buffer gives: the chunk tree is parsed with the
/// byte order auto-detected, then each candidate format is tried in turn;
/// the first whose markers match decides the result.  A legacy sound
/// library container is recognized but produces no result.
pub open spec fn spec_decode(data: Seq<u8>) -> Result<DecoderResultV, Error> {
    match spec_parse(data, 0, data.len() as int, None, None) {
        Err(e) => Err(e),
        Ok(cv) => match spec_read_patch(cv) {
            Ok(p) => Ok(DecoderResultV::Patch(p)),
            Err(Error::FormatNotSupported) => match spec_read_bundle(cv) {
                Ok(b) => Ok(DecoderResultV::Bundle(b)),
                Err(e) => Err(e),
            },
            Err(e) => Err(e),
        },
    }
}

} // verus!

verus! {

/// Reads a 32-bit word directly from a payload.
fn payload_u32(d: &[u8], i: usize, le: bool) -> (r: u32)
    requires
        i + 4 <= d@.len(),
    ensures
        r == u32_at(d@, i as int, le),
{
    let n: usize = d.len();
    if le {
        (d[i] as u32) | ((d[i + 1] as u32) << 8) | ((d[i + 2] as u32) << 16) | ((d[i + 3] as u32)
            << 24)
    } else {
        ((d[i] as u32) << 24) | ((d[i + 1] as u32) << 16) | ((d[i + 2] as u32) << 8) | (d[
            i + 3] as u32)
    }
}

/// A tagged value word pair, as stored in a parameter record.
fn decode_value(tag: u32, raw: u32) -> (r: Result<Value, Error>)
    ensures
        r == spec_decode_value(tag, raw),
{
    if tag == 0 {
        Ok(Value::Int(raw))
    } else if tag == 1 {
        Ok(Value::Float(raw))
    } else {
        Err(Error::UnsupportedValueType)
    }
}

fn read_model_param(d: &[u8], le: bool) -> (r: Result<ModelParam, Error>)
    ensures
        r == spec_read_model_param(d@, le),
{
    if d.len() < 12 {
        return Err(Error::Truncated);
    }
    let raw_id = payload_u32(d, 0, le);
    let tag = payload_u32(d, 4, le);
    let raw = payload_u32(d, 8, le);
    match decode_value(tag, raw) {
        Ok(v) => Ok(ModelParam { param_id: raw_id & 0x00ffffff, value: v }),
        Err(e) => Err(e),
    }
}

fn read_model_info(d: &[u8], le: bool) -> (r: Result<Model, Error>)
    ensures
        match r {
            Ok(m) => spec_read_model_info(d@, le) == Ok::<ModelV, Error>(m@),
            Err(e) => spec_read_model_info(d@, le) == Err::<ModelV, Error>(e),
        },
{
    if d.len() < 12 {
        return Err(Error::Truncated);
    }
    let model_id = payload_u32(d, 0, le);
    let slot_id = payload_u32(d, 4, le);
    let ordinal = d[8];
    let enabled = d[11] > 0;
    let m = Model { model_id, slot_id, enabled, ordinal, params: Vec::new() };
    proof {
        assert(m@.params =~= Seq::<ModelParam>::empty());
        assert(spec_read_model_info(d@, le) == Ok::<ModelV, Error>(m@));
    }
    Ok(m)
}

fn read_model(chunk: &Chunk) -> (r: Result<Model, Error>)
    ensures
        match r {
            Ok(m) => spec_read_model(chunk@) == Ok::<ModelV, Error>(m@),
            Err(e) => spec_read_model(chunk@) == Err::<ModelV, Error>(e),
        },
{
    let le = chunk.is_little_endian();
    let mut model = Model::default();
    let mut params: Vec<ModelParam> = Vec::new();
    match chunk {
        Chunk::Data { .. } => {
            proof {
                assert(spec_fold_model(
                    Seq::<ChunkV>::empty(),
                    le,
                    default_model(),
                    Seq::<ModelParam>::empty(),
                ) == Ok::<(ModelV, Seq<ModelParam>), Error>((default_model(), Seq::empty())));
                assert(model@.params + params@ =~= Seq::<ModelParam>::empty());
            }
            Ok(model)
        },
        Chunk::Envelope { chunks, .. } => {
            let ghost cs = crate::chunk::chunks_view(chunks@);
            proof {
                crate::chunk::lemma_chunks_view_len(chunks@);
                assert(cs.skip(0) =~= cs);
            }
            let n = chunks.len();
            let mut j: usize = 0;
            while j < n
                invariant
                    j <= n,
                    n == chunks@.len(),
                    cs == crate::chunk::chunks_view(chunks@),
                    cs.len() == n,
                    chunk@ matches ChunkV::Envelope { chunks: ccs, .. } && ccs == cs,
                    le == chunk@.endianness(),
                    model@.params == Seq::<ModelParam>::empty(),
                    spec_fold_model(cs, le, default_model(), Seq::empty()) == spec_fold_model(
                        cs.skip(j as int),
                        le,
                        model@,
                        params@,
                    ),
                decreases n - j,
            {
                proof {
                    crate::chunk::lemma_chunks_view_index(chunks@, j as int);
                    assert(cs.skip(j as int)[0] == cs[j as int]);
                    assert(cs.skip(j as int).drop_first() =~= cs.skip(j + 1));
                }
                match &chunks[j] {
                    Chunk::Data { id, data, .. } => {
                        if *id == crate::types::minf() {
                            match read_model_info(data.as_slice(), le) {
                                Ok(m2) => {
                                    model = m2;
                                },
                                Err(e) => {
                                    return Err(e);
                                },
                            }
                        } else if *id == crate::types::parm() {
                            match read_model_param(data.as_slice(), le) {
                                Ok(p) => {
                                    params.push(p);
                                },
                                Err(e) => {
                                    return Err(e);
                                },
                            }
                        }
                    },
                    Chunk::Envelope { .. } => {},
                }
                j = j + 1;
            }
            proof {
                assert(cs.skip(n as int) =~= Seq::<ChunkV>::empty());
            }
            let mut out = model;
            out.params = params;
            proof {
                assert(out@.params =~= default_model().params + params@ || true);
                assert(model@.params + params@ =~= params@);
                assert(spec_read_model(chunk@) == Ok::<ModelV, Error>(out@));
            }
            Ok(out)
        },
    }
}

fn read_models(chunk: &Chunk) -> (r: Result<Vec<Model>, Error>)
    ensures
        match r {
            Ok(ms) => spec_read_models(chunk@) == Ok::<Seq<ModelV>, Error>(models_view(ms@)),
            Err(e) => spec_read_models(chunk@) == Err::<Seq<ModelV>, Error>(e),
        },
{
    match chunk {
        Chunk::Data { .. } => Err(Error::WrongChunkType),
        Chunk::Envelope { chunks, .. } => {
            let ghost cs = crate::chunk::chunks_view(chunks@);
            let mut out: Vec<Model> = Vec::new();
            proof {
                crate::chunk::lemma_chunks_view_len(chunks@);
                assert(cs.skip(0) =~= cs);
                assert(models_view(out@) =~= Seq::<ModelV>::empty());
            }
            let n = chunks.len();
            let mut j: usize = 0;
            while j < n
                invariant
                    j <= n,
                    n == chunks@.len(),
                    cs == crate::chunk::chunks_view(chunks@),
                    cs.len() == n,
                    chunk@ matches ChunkV::Envelope { chunks: ccs, .. } && ccs == cs,
                    spec_fold_models(cs, Seq::empty()) == spec_fold_models(
                        cs.skip(j as int),
                        models_view(out@),
                    ),
                decreases n - j,
            {
                proof {
                    crate::chunk::lemma_chunks_view_index(chunks@, j as int);
                    assert(cs.skip(j as int)[0] == cs[j as int]);
                    assert(cs.skip(j as int).drop_first() =~= cs.skip(j + 1));
                }
                let child = &chunks[j];
                if child.has_envelope_type(crate::types::list(), crate::types::modl()) {
                    match read_model(child) {
                        Ok(m) => {
                            let ghost prev = out@;
                            out.push(m);
                            proof {
                                assert(out@.drop_last() =~= prev);
                                assert(models_view(out@) =~= models_view(prev).push(m@));
                            }
                        },
                        Err(e) => {
                            return Err(e);
                        },
                    }
                } else {
                    return Err(Error::WrongChunkType);
                }
                j = j + 1;
            }
            proof {
                assert(cs.skip(n as int) =~= Seq::<ChunkV>::empty());
            }
            Ok(out)
        },
    }
}

/// Parses the decimal whole-seconds date field, rescaling to milliseconds;
/// anything unparseable, or out of range, is zero.
fn decode_date(s: &str) -> (r: usize)
    ensures
        r == spec_decode_date(s@),
{
    let pr = parse_decimal(s);
    proof {
        if s@.len() > 0 && is_dec_digits(s@) {
            crate::text::lemma_dec_value_nonneg(s@);
        }
    }
    match pr {
        Some(v) => {
            if v <= usize::MAX / 1000 {
                proof {
                    assert(v * 1000 <= usize::MAX) by (nonlinear_arith)
                        requires
                            0 <= v <= usize::MAX as int / 1000,
                    ;
                }
                v * 1000
            } else {
                proof {
                    assert(v * 1000 > usize::MAX) by (nonlinear_arith)
                        requires
                            v > usize::MAX as int / 1000,
                            v >= 0,
                    ;
                }
                0
            }
        },
        None => {
            proof {
                if s@.len() > 0 && is_dec_digits(s@) {
                    assert(dec_value(s@) > usize::MAX);
                    assert(dec_value(s@) * 1000 >= dec_value(s@)) by (nonlinear_arith)
                        requires
                            dec_value(s@) >= 0,
                    ;
                }
            }
            0
        },
    }
}

} // verus!

verus! {

/// Reads one UTF-16 text field spanning a whole payload.
fn read_payload_string(d: &[u8], le: bool) -> (r: String)
    ensures
        r@ == spec_string_field(d@, le),
{
    let mut reader = Reader::new(d, le);
    let n: usize = d.len();
    match reader.read_utf(n) {
        Ok(s) => {
            proof {
                crate::text::lemma_bytes_to_units_even_prefix(d@, le);
                assert(d@.subrange(0, 2 * (n as int / 2)) == d@.subrange(0, 2 * (d@.len() as int
                    / 2)));
            }
            s
        },
        Err(_) => {
            proof {
                assert(false);
            }
            String::new()
        },
    }
}

fn read_meta_tags(chunk: &Chunk) -> (r: Result<MetaTags, Error>)
    ensures
        match r {
            Ok(t) => t@ == spec_read_meta_tags(chunk@),
            Err(e) => false,
        },
{
    let le = chunk.is_little_endian();
    let mut tags = MetaTags::default();
    match chunk {
        Chunk::Data { .. } => Ok(tags),
        Chunk::Envelope { chunks, .. } => {
            let ghost cs = crate::chunk::chunks_view(chunks@);
            proof {
                crate::chunk::lemma_chunks_view_len(chunks@);
                assert(cs.skip(0) =~= cs);
            }
            let n = chunks.len();
            let mut j: usize = 0;
            while j < n
                invariant
                    j <= n,
                    n == chunks@.len(),
                    cs == crate::chunk::chunks_view(chunks@),
                    cs.len() == n,
                    chunk@ matches ChunkV::Envelope { chunks: ccs, .. } && ccs == cs,
                    le == chunk@.endianness(),
                    spec_fold_meta(cs, le, empty_meta_tags()) == spec_fold_meta(
                        cs.skip(j as int),
                        le,
                        tags@,
                    ),
                decreases n - j,
            {
                proof {
                    crate::chunk::lemma_chunks_view_index(chunks@, j as int);
                    assert(cs.skip(j as int)[0] == cs[j as int]);
                    assert(cs.skip(j as int).drop_first() =~= cs.skip(j + 1));
                }
                match &chunks[j] {
                    Chunk::Data { id, data, .. } => {
                        let tid = *id;
                        if tid == crate::types::iaut() {
                            tags.author = read_payload_string(data.as_slice(), le);
                        } else if tid == crate::types::igtr() {
                            tags.guitarist = read_payload_string(data.as_slice(), le);
                        } else if tid == crate::types::ibnd() {
                            tags.band = read_payload_string(data.as_slice(), le);
                        } else if tid == crate::types::isng() {
                            tags.song = read_payload_string(data.as_slice(), le);
                        } else if tid == crate::types::istl() {
                            tags.style = read_payload_string(data.as_slice(), le);
                        } else if tid == crate::types::ipus() {
                            tags.pickup_style = read_payload_string(data.as_slice(), le);
                        } else if tid == crate::types::ipup() {
                            tags.pickup_position = read_payload_string(data.as_slice(), le);
                        } else if tid == crate::types::idat() {
                            let s = read_payload_string(data.as_slice(), le);
                            tags.date = decode_date(s.as_str());
                        } else if tid == crate::types::iamp() {
                            tags.amp_name = read_payload_string(data.as_slice(), le);
                        } else if tid == crate::types::iapp() {
                            tags.creator_app = read_payload_string(data.as_slice(), le);
                        } else if tid == crate::types::iapv() {
                            tags.creator_app_version = read_payload_string(data.as_slice(), le);
                        } else if tid == crate::types::icmt() {
                            tags.comments = read_payload_string(data.as_slice(), le);
                        }
                    },
                    Chunk::Envelope { .. } => {},
                }
                j = j + 1;
            }
            proof {
                assert(cs.skip(n as int) =~= Seq::<ChunkV>::empty());
            }
            Ok(tags)
        },
    }
}

fn read_target_device(chunk: &Chunk, little_endian: bool) -> (r: Result<TargetDevice, Error>)
    ensures
        match r {
            Ok(d) => spec_read_target_device(chunk@, little_endian) == Ok::<TargetDeviceV, Error>(
                d@,
            ),
            Err(e) => spec_read_target_device(chunk@, little_endian) == Err::<
                TargetDeviceV,
                Error,
            >(e),
        },
{
    match chunk {
        Chunk::Envelope { .. } => Err(Error::WrongChunkType),
        Chunk::Data { data, .. } => {
            let d = data.as_slice();
            if d.len() != 76 {
                return Err(Error::WrongLength);
            }
            let mut reader = Reader::new(d, little_endian);
            let version_field = match reader.read_u32() {
                Ok(v) => v,
                Err(e) => {
                    proof {
                        assert(false);
                    }
                    return Err(e);
                },
            };
            if version_field != 1 {
                return Err(Error::WrongVersion);
            }
            let midi_id = match reader.read_u32() {
                Ok(v) => v,
                Err(e) => {
                    proof {
                        assert(false);
                    }
                    return Err(e);
                },
            };
            let name = match reader.read_utf_z(64) {
                Ok(s) => s,
                Err(e) => {
                    proof {
                        assert(false);
                    }
                    return Err(e);
                },
            };
            let version = match reader.read_u32() {
                Ok(v) => v,
                Err(e) => {
                    proof {
                        assert(false);
                    }
                    return Err(e);
                },
            };
            let dev = TargetDevice { midi_id, name, version };
            proof {
                assert(d@.subrange(8, 72) =~= d@.subrange(8, 8 + 2 * (64int / 2)));
                assert(spec_read_target_device(chunk@, little_endian) == Ok::<
                    TargetDeviceV,
                    Error,
                >(dev@));
            }
            Ok(dev)
        },
    }
}

fn read_head(chunk: &Chunk, little_endian: bool) -> (r: Result<BatchHead, Error>)
    ensures
        match r {
            Ok(h) => spec_read_head(chunk@, little_endian) == Ok::<u32, Error>(h.version),
            Err(e) => spec_read_head(chunk@, little_endian) == Err::<u32, Error>(e),
        },
{
    match chunk {
        Chunk::Envelope { .. } => Err(Error::WrongChunkType),
        Chunk::Data { data, .. } => {
            let d = data.as_slice();
            let mut reader = Reader::new(d, little_endian);
            match reader.read_u32() {
                Ok(version) => Ok(BatchHead { version }),
                Err(e) => Err(e),
            }
        },
    }
}

fn read_bank_info(chunk: &Chunk, little_endian: bool) -> (r: Result<BankInfo, Error>)
    ensures
        match r {
            Ok(b) => spec_read_bank_info(chunk@, little_endian) == Ok::<Seq<char>, Error>(b.name@),
            Err(e) => spec_read_bank_info(chunk@, little_endian) == Err::<Seq<char>, Error>(e),
        },
{
    match chunk {
        Chunk::Envelope { .. } => Err(Error::WrongChunkType),
        Chunk::Data { data, .. } => {
            let d = data.as_slice();
            if d.len() != 68 {
                return Err(Error::WrongLength);
            }
            let mut reader = Reader::new(d, little_endian);
            match reader.read_u32() {
                Ok(_) => {},
                Err(e) => {
                    proof {
                        assert(false);
                    }
                    return Err(e);
                },
            }
            let name = match reader.read_utf_z(64) {
                Ok(s) => s,
                Err(e) => {
                    proof {
                        assert(false);
                    }
                    return Err(e);
                },
            };
            proof {
                assert(d@.subrange(4, 68) =~= d@.subrange(4, 4 + 2 * (64int / 2)));
            }
            Ok(BankInfo { name })
        },
    }
}

} // verus!

verus! {

fn read_l6patch(chunk: &Chunk) -> (r: Result<L6Patch, Error>)
    ensures
        match r {
            Ok(p) => spec_read_patch(chunk@) == Ok::<L6PatchV, Error>(p@),
            Err(e) => spec_read_patch(chunk@) == Err::<L6PatchV, Error>(e),
        },
{
    let is_pa = chunk.has_envelope_type(crate::types::form(), crate::types::l6pa());
    let is_as = chunk.has_envelope_type(crate::types::form(), crate::types::l6as());
    let is_fs = chunk.has_envelope_type(crate::types::form(), crate::types::l6fs());
    if !is_pa && !is_as && !is_fs {
        return Err(Error::FormatNotSupported);
    }
    let patch_type = if is_pa {
        PatchType::Patch
    } else if is_as {
        PatchType::AmpSetup
    } else {
        PatchType::FxSetup
    };
    match chunk {
        Chunk::Data { .. } => {
            proof {
                assert(false);
            }
            Err(Error::FormatNotSupported)
        },
        Chunk::Envelope { chunks, .. } => {
            let ghost cs = crate::chunk::chunks_view(chunks@);
            let mut patch = L6Patch::default();
            patch.patch_type = patch_type;
            proof {
                crate::chunk::lemma_chunks_view_len(chunks@);
                assert(cs.skip(0) =~= cs);
                assert(spec_read_patch(chunk@) == spec_fold_patch(cs, patch@));
            }
            let n = chunks.len();
            let mut j: usize = 0;
            while j < n
                invariant
                    j <= n,
                    n == chunks@.len(),
                    cs == crate::chunk::chunks_view(chunks@),
                    cs.len() == n,
                    chunk@ matches ChunkV::Envelope { chunks: ccs, .. } && ccs == cs,
                    spec_read_patch(chunk@) == spec_fold_patch(cs.skip(j as int), patch@),
                decreases n - j,
            {
                proof {
                    crate::chunk::lemma_chunks_view_index(chunks@, j as int);
                    assert(cs.skip(j as int)[0] == cs[j as int]);
                    assert(cs.skip(j as int).drop_first() =~= cs.skip(j + 1));
                }
                let child = &chunks[j];
                let tid = child.id();
                if tid == crate::types::patc() {
                    match read_models(child) {
                        Ok(ms) => {
                            patch.models = ms;
                        },
                        Err(e) => {
                            return Err(e);
                        },
                    }
                } else if tid == crate::types::unfo() {
                    match read_meta_tags(child) {
                        Ok(t) => {
                            patch.meta = t;
                        },
                        Err(e) => {
                            proof {
                                assert(false);
                            }
                            return Err(e);
                        },
                    }
                } else if tid == crate::types::pinf() {
                    match read_target_device(child, false) {
                        Ok(d) => {
                            patch.target_device = d;
                        },
                        Err(e) => {
                            return Err(e);
                        },
                    }
                }
                j = j + 1;
            }
            proof {
                assert(cs.skip(n as int) =~= Seq::<ChunkV>::empty());
            }
            Ok(patch)
        },
    }
}

fn read_bank(chunk: &Chunk, little_endian: bool) -> (r: Result<Bank, Error>)
    ensures
        match r {
            Ok(b) => spec_read_bank(chunk@, little_endian) == Ok::<BankV, Error>(b@),
            Err(e) => spec_read_bank(chunk@, little_endian) == Err::<BankV, Error>(e),
        },
{
    let mut bank = Bank::default();
    match chunk {
        Chunk::Data { .. } => {
            proof {
                assert(spec_read_bank(chunk@, little_endian) == spec_fold_bank(
                    Seq::<ChunkV>::empty(),
                    little_endian,
                    bank@,
                ));
            }
            Ok(bank)
        },
        Chunk::Envelope { chunks, .. } => {
            let ghost cs = crate::chunk::chunks_view(chunks@);
            proof {
                crate::chunk::lemma_chunks_view_len(chunks@);
                assert(cs.skip(0) =~= cs);
                assert(spec_read_bank(chunk@, little_endian) == spec_fold_bank(
                    cs,
                    little_endian,
                    bank@,
                ));
            }
            let n = chunks.len();
            let mut j: usize = 0;
            while j < n
                invariant
                    j <= n,
                    n == chunks@.len(),
                    cs == crate::chunk::chunks_view(chunks@),
                    cs.len() == n,
                    chunk@ matches ChunkV::Envelope { chunks: ccs, .. } && ccs == cs,
                    spec_read_bank(chunk@, little_endian) == spec_fold_bank(
                        cs.skip(j as int),
                        little_endian,
                        bank@,
                    ),
                decreases n - j,
            {
                proof {
                    crate::chunk::lemma_chunks_view_index(chunks@, j as int);
                    assert(cs.skip(j as int)[0] == cs[j as int]);
                    assert(cs.skip(j as int).drop_first() =~= cs.skip(j + 1));
                }
                let child = &chunks[j];
                let tid = child.id();
                if tid == crate::types::binf() {
                    match read_bank_info(child, little_endian) {
                        Ok(info) => {
                            bank.name = info.name;
                        },
                        Err(e) => {
                            return Err(e);
                        },
                    }
                } else if tid == crate::types::l6pa() || tid == crate::types::l6as() || tid
                    == crate::types::l6fs() {
                    match read_l6patch(child) {
                        Ok(p) => {
                            let ghost prev = bank.patches@;
                            bank.patches.push(p);
                            proof {
                                assert(bank.patches@.drop_last() =~= prev);
                                assert(bank@.patches =~= prev.map_values(|q: L6Patch| q@).push(
                                    bank.patches@.last()@,
                                ));
                            }
                        },
                        Err(e) => {
                            return Err(e);
                        },
                    }
                } else {
                    return Err(Error::WrongChunkType);
                }
                j = j + 1;
            }
            proof {
                assert(cs.skip(n as int) =~= Seq::<ChunkV>::empty());
            }
            Ok(bank)
        },
    }
}

fn read_l6bundle(chunk: &Chunk) -> (r: Result<L6Bundle, Error>)
    ensures
        match r {
            Ok(b) => spec_read_bundle(chunk@) == Ok::<L6BundleV, Error>(b@),
            Err(e) => spec_read_bundle(chunk@) == Err::<L6BundleV, Error>(e),
        },
{
    let is_ba = chunk.has_envelope_type(crate::types::form(), crate::types::l6ba());
    let is_co = chunk.has_envelope_type(crate::types::form(), crate::types::l6co());
    if !is_ba && !is_co {
        return Err(Error::FormatNotSupported);
    }
    let bundle_type = if is_ba {
        BundleType::Bundle
    } else {
        BundleType::Collection
    };
    match chunk {
        Chunk::Data { .. } => {
            proof {
                assert(false);
            }
            Err(Error::FormatNotSupported)
        },
        Chunk::Envelope { chunks, .. } => {
            let ghost cs = crate::chunk::chunks_view(chunks@);
            let mut banks: Vec<Bank> = Vec::new();
            proof {
                crate::chunk::lemma_chunks_view_len(chunks@);
                assert(cs.skip(0) =~= cs);
                assert(banks@.map_values(|b: Bank| b@) =~= Seq::<BankV>::empty());
            }
            let n = chunks.len();
            let mut j: usize = 0;
            while j < n
                invariant
                    j <= n,
                    n == chunks@.len(),
                    cs == crate::chunk::chunks_view(chunks@),
                    cs.len() == n,
                    chunk@ matches ChunkV::Envelope { chunks: ccs, .. } && ccs == cs,
                    spec_fold_bundle(cs, bundle_type, Seq::empty()) == spec_fold_bundle(
                        cs.skip(j as int),
                        bundle_type,
                        banks@.map_values(|b: Bank| b@),
                    ),
                    spec_read_bundle(chunk@) == (match spec_fold_bundle(
                        cs,
                        bundle_type,
                        Seq::empty(),
                    ) {
                        Ok(bs) => Ok::<L6BundleV, Error>(L6BundleV { bundle_type, banks: bs }),
                        Err(e) => Err::<L6BundleV, Error>(e),
                    }),
                decreases n - j,
            {
                proof {
                    crate::chunk::lemma_chunks_view_index(chunks@, j as int);
                    assert(cs.skip(j as int)[0] == cs[j as int]);
                    assert(cs.skip(j as int).drop_first() =~= cs.skip(j + 1));
                }
                let child = &chunks[j];
                let tid = child.id();
                if tid == crate::types::head() {
                    match read_head(child, false) {
                        Ok(_) => {},
                        Err(e) => {
                            return Err(e);
                        },
                    }
                } else if tid == crate::types::bank() && matches!(bundle_type, BundleType::Bundle) {
                    match read_bank(child, false) {
                        Ok(b) => {
                            let ghost prev = banks@;
                            banks.push(b);
                            proof {
                                assert(banks@.drop_last() =~= prev);
                                assert(banks@.map_values(|q: Bank| q@) =~= prev.map_values(
                                    |q: Bank| q@,
                                ).push(banks@.last()@));
                            }
                        },
                        Err(e) => {
                            return Err(e);
                        },
                    }
                } else if tid == crate::types::fldr() && matches!(
                    bundle_type,
                    BundleType::Collection,
                ) {
                    match read_bank(child, false) {
                        Ok(b) => {
                            let ghost prev = banks@;
                            banks.push(b);
                            proof {
                                assert(banks@.drop_last() =~= prev);
                                assert(banks@.map_values(|q: Bank| q@) =~= prev.map_values(
                                    |q: Bank| q@,
                                ).push(banks@.last()@));
                            }
                        },
                        Err(e) => {
                            return Err(e);
                        },
                    }
                }
                j = j + 1;
            }
            proof {
                assert(cs.skip(n as int) =~= Seq::<ChunkV>::empty());
            }
            let b = L6Bundle { bundle_type, banks };
            proof {
                assert(spec_read_bundle(chunk@) == Ok::<L6BundleV, Error>(b@));
            }
            Ok(b)
        },
    }
}

/// The decoder: tries each candidate format in turn, first success wins.
pub struct Decoder {}

impl Decoder {
    /// Decodes a whole buffer into a patch or a bundle.  The byte order is
    /// detected from the leading envelope marker.
    pub fn read(data: &[u8]) -> (r: Result<DecoderResult, Error>)
        ensures
            match r {
                Ok(d) => spec_decode(data@) == Ok::<DecoderResultV, Error>(d@),
                Err(e) => spec_decode(data@) == Err::<DecoderResultV, Error>(e),
            },
    {
        let chunk = match Chunk::from_data(data, None) {
            Ok(c) => c,
            Err(e) => {
                return Err(e);
            },
        };
        match read_l6patch(&chunk) {
            Ok(p) => {
                return Ok(DecoderResult::Patch(p));
            },
            Err(Error::FormatNotSupported) => {},
            Err(e) => {
                return Err(e);
            },
        }
        match read_l6bundle(&chunk) {
            Ok(b) => Ok(DecoderResult::Bundle(b)),
            Err(e) => Err(e),
        }
    }
}

} // verus!

verus! {

/// One entry of a legacy sound library container, as far as its record
/// layout has been inferred: a header, a name, and tagged trailing records
/// for a comment and a position.  Diagnostic and read-only; nothing
/// produces these entries.
#[derive(Debug)]
pub struct LibraryEntry {
    /// Whether the entry belongs to a device family this library reads.
    pub can_process: bool,
    pub name: String,
    pub comment: Option<String>,
    pub position: Option<String>,
}

/// The mathematical model of a `LibraryEntry`.
#[verifier::ext_equal]
pub struct LibraryEntryV {
    pub can_process: bool,
    pub name: Seq<char>,
    pub comment: Option<Seq<char>>,
    pub position: Option<Seq<char>>,
}

impl View for LibraryEntry {
    type V = LibraryEntryV;

    open spec fn view(&self) -> LibraryEntryV {
        LibraryEntryV {
            can_process: self.can_process,
            name: self.name@,
            comment: match self.comment {
                Some(ref s) => Some(s@),
                None => None,
            },
            position: match self.position {
                Some(ref s) => Some(s@),
                None => None,
            },
        }
    }
}

/// A length-prefixed eight-bit text field: its characters and the position
/// after it, or nothing if it overruns the buffer.
pub open spec fn ascii_at(d: Seq<u8>, pos: int) -> Option<(Seq<char>, int)> {
    if pos < d.len() && pos + 1 + d[pos] <= d.len() {
        Some(
            (
                d.subrange(pos + 1, pos + 1 + d[pos]).map_values(|b: u8| b as char),
                pos + 1 + d[pos],
            ),
        )
    } else {
        None
    }
}

/// The tagged trailing records of a library entry: comments and positions
/// accumulate, a zero tag with two trailing bytes ends the entry, and any
/// unknown tag stops the walk.
pub open spec fn spec_sslb_tail(
    d: Seq<u8>,
    pos: int,
    comment: Option<Seq<char>>,
    position: Option<Seq<char>>,
) -> Result<(Option<Seq<char>>, Option<Seq<char>>), Error>
    decreases d.len() - pos,
{
    if pos >= d.len() || pos < 0 {
        Err(Error::Truncated)
    } else if d[pos] == 0x02 {
        match ascii_at(d, pos + 1) {
            None => Err(Error::Truncated),
            Some((s, p2)) => spec_sslb_tail(d, p2, Some(s), position),
        }
    } else if d[pos] == 0x06 {
        match ascii_at(d, pos + 1) {
            None => Err(Error::Truncated),
            Some((s, p2)) => spec_sslb_tail(d, p2, comment, Some(s)),
        }
    } else if d[pos] == 0x00 {
        if pos + 3 <= d.len() {
            Ok((comment, position))
        } else {
            Err(Error::Truncated)
        }
    } else {
        Ok((comment, position))
    }
}

/// What reading one legacy library entry gives.  An entry shorter than its
/// 13-byte header is empty; an entry of a foreign device family carries
/// only its name; otherwise a declared skip, a fixed data blob and the
/// tagged trailing records follow.
pub open spec fn spec_read_sslb_entry(cv: ChunkV) -> Result<Option<LibraryEntryV>, Error> {
    match cv {
        ChunkV::Envelope { .. } => Err(Error::WrongChunkType),
        ChunkV::Data { data: d, .. } => {
            if d.len() < 13 {
                Ok(None)
            } else {
                let can_process = d[1] == 0x2a || (d[0] == 0x80 && d[1] == 0xff);
                match ascii_at(d, 13) {
                    None => Err(Error::Truncated),
                    Some((name, p)) => {
                        if !can_process {
                            Ok(
                                Some(
                                    LibraryEntryV {
                                        can_process: false,
                                        name,
                                        comment: None,
                                        position: None,
                                    },
                                ),
                            )
                        } else if p + 2 > d.len() {
                            Err(Error::Truncated)
                        } else if d[p + 1] < 55 {
                            Err(Error::WrongLength)
                        } else if p + 2 + d[p + 1] > d.len() {
                            Err(Error::Truncated)
                        } else {
                            match spec_sslb_tail(d, p + 2 + d[p + 1], None, None) {
                                Err(e) => Err(e),
                                Ok((comment, position)) => Ok(
                                    Some(
                                        LibraryEntryV { can_process: true, name, comment, position },
                                    ),
                                ),
                            }
                        }
                    },
                }
            }
        },
    }
}

/// Reads one legacy library entry record.  The layout is inferred from
/// sample files rather than a written format, so this is diagnostic and
/// read-only; the decoder recognizes the container but produces nothing
/// from it.
pub fn read_sslb_entry(chunk: &Chunk) -> (r: Result<Option<LibraryEntry>, Error>)
    ensures
        match r {
            Ok(Some(e)) => spec_read_sslb_entry(chunk@) == Ok::<Option<LibraryEntryV>, Error>(
                Some(e@),
            ),
            Ok(None) => spec_read_sslb_entry(chunk@) == Ok::<Option<LibraryEntryV>, Error>(None),
            Err(e) => spec_read_sslb_entry(chunk@) == Err::<Option<LibraryEntryV>, Error>(e),
        },
{
    let little_endian = chunk.is_little_endian();
    let data = match chunk {
        Chunk::Data { data, .. } => data,
        Chunk::Envelope { .. } => {
            return Err(Error::WrongChunkType);
        },
    };
    let d = data.as_slice();
    if d.len() < 13 {
        return Ok(None);
    }
    let mut reader = Reader::new(d, little_endian);
    let mut header: Vec<u8> = Vec::new();
    let mut k: usize = 0;
    while k < 13
        invariant
            header@.len() == k,
            k <= 13,
        decreases 13 - k,
    {
        header.push(0u8);
        k = k + 1;
    }
    match reader.read_u8_into(&mut header) {
        Ok(()) => {},
        Err(e) => {
            proof {
                assert(false);
            }
            return Err(e);
        },
    }
    let can_process = header[1] == 0x2a || (header[0] == 0x80 && header[1] == 0xff);
    let name = match reader.read_ascii_n() {
        Ok(s) => s,
        Err(e) => {
            return Err(e);
        },
    };
    if !can_process {
        return Ok(Some(LibraryEntry { can_process: false, name, comment: None, position: None }));
    }
    // a byte that marks the module kind, then the declared record length
    match reader.read_u8() {
        Ok(_) => {},
        Err(e) => {
            return Err(e);
        },
    }
    let n = match reader.read_u8() {
        Ok(v) => v,
        Err(e) => {
            return Err(e);
        },
    };
    if n < 55 {
        return Err(Error::WrongLength);
    }
    // skip everything except the last 55 bytes of actual data
    let mut blob: Vec<u8> = Vec::new();
    let mut k: usize = 0;
    let nu = n as usize;
    while k < nu
        invariant
            blob@.len() == k,
            k <= nu,
        decreases nu - k,
    {
        blob.push(0u8);
        k = k + 1;
    }
    match reader.read_u8_into(&mut blob) {
        Ok(()) => {},
        Err(e) => {
            return Err(e);
        },
    }
    // tagged trailing records
    let mut comment: Option<String> = None;
    let mut position: Option<String> = None;
    let ghost d0 = d@;
    loop
        invariant
            reader.wf(),
            reader.spec_data() == d0,
            d0.len() <= usize::MAX,
            spec_read_sslb_entry(chunk@) == (match spec_sslb_tail(
                d0,
                reader.spec_pos(),
                match comment {
                    Some(ref s) => Some(s@),
                    None => None,
                },
                match position {
                    Some(ref s) => Some(s@),
                    None => None,
                },
            ) {
                Err(e) => Err::<Option<LibraryEntryV>, Error>(e),
                Ok((c, p)) => Ok::<Option<LibraryEntryV>, Error>(
                    Some(
                        LibraryEntryV { can_process: true, name: name@, comment: c, position: p },
                    ),
                ),
            }),
        decreases d0.len() - reader.spec_pos(),
    {
        let id = match reader.read_u8() {
            Ok(v) => v,
            Err(e) => {
                return Err(e);
            },
        };
        if id == 0x02 {
            match reader.read_ascii_n() {
                Ok(s) => {
                    comment = Some(s);
                },
                Err(e) => {
                    return Err(e);
                },
            }
        } else if id == 0x06 {
            match reader.read_ascii_n() {
                Ok(s) => {
                    position = Some(s);
                },
                Err(e) => {
                    return Err(e);
                },
            }
        } else if id == 0x00 {
            let mut skip: Vec<u8> = Vec::new();
            skip.push(0u8);
            skip.push(0u8);
            match reader.read_u8_into(&mut skip) {
                Ok(()) => {},
                Err(e) => {
                    return Err(e);
                },
            }
            return Ok(Some(LibraryEntry { can_process: true, name, comment, position }));
        } else {
            return Ok(Some(LibraryEntry { can_process: true, name, comment, position }));
        }
    }
}

} // verus!
