//! The value engine: matching physical models against a schema, reading
//! named values out and writing them back.

use vstd::prelude::*;

use crate::model::{L6Patch, L6PatchV, Model, ModelParam, ModelV, Value as L6Value};
use crate::schema::{DataModel, Group, Param, ParamType, Slot};

verus! {

/// A named logical value.  Floats are carried as raw IEEE-754 bit
/// patterns; conversions never mutate stored values.
#[derive(Debug)]
pub enum Value {
    Bool(bool),
    Int(u32),
    Float(u32),
    String(String),
}

/// The mathematical model of a `Value`.
#[verifier::ext_equal]
pub enum ValueV {
    Bool(bool),
    Int(u32),
    Float(u32),
    String(Seq<char>),
}

impl View for Value {
    type V = ValueV;

    open spec fn view(&self) -> ValueV {
        match self {
            Value::Bool(b) => ValueV::Bool(*b),
            Value::Int(v) => ValueV::Int(*v),
            Value::Float(bits) => ValueV::Float(*bits),
            Value::String(s) => ValueV::String(s@),
        }
    }
}

/// The type of a logical value.
#[derive(Clone, Copy, Debug, PartialEq, Eq, Structural)]
pub enum ValueType {
    Bool,
    Int,
    Float,
    String,
}

impl ValueV {
    pub open spec fn spec_get_type(self) -> ValueType {
        match self {
            ValueV::Bool(_) => ValueType::Bool,
            ValueV::Int(_) => ValueType::Int,
            ValueV::Float(_) => ValueType::Float,
            ValueV::String(_) => ValueType::String,
        }
    }

    /// The canonical bit pattern of a value, if it has one.
    pub open spec fn spec_to_bits(self) -> Option<u32> {
        match self {
            ValueV::Bool(b) => Some(
                if b {
                    1u32
                } else {
                    0u32
                },
            ),
            ValueV::Int(v) => Some(v),
            ValueV::Float(bits) => Some(bits),
            ValueV::String(_) => None,
        }
    }

    /// The unsigned integer reading of a value, if it has one.
    pub open spec fn spec_to_u32(self) -> Option<u32> {
        match self {
            ValueV::Bool(b) => Some(
                if b {
                    1u32
                } else {
                    0u32
                },
            ),
            ValueV::Int(v) => Some(v),
            ValueV::Float(_) => None,
            ValueV::String(_) => None,
        }
    }

    /// The boolean reading of a value, if it has one.
    pub open spec fn spec_to_bool(self) -> Option<bool> {
        match self {
            ValueV::Bool(b) => Some(b),
            _ => None,
        }
    }
}

impl Value {
    /// The type of this value.
    pub fn get_type(&self) -> (r: ValueType)
        ensures
            r == self@.spec_get_type(),
    {
        match self {
            Value::Bool(_) => ValueType::Bool,
            Value::Int(_) => ValueType::Int,
            Value::Float(_) => ValueType::Float,
            Value::String(_) => ValueType::String,
        }
    }

    /// The canonical bit pattern of this value: booleans as 0 or 1,
    /// integers as themselves, floats as their raw bits; strings have
    /// none.
    pub fn to_bits(&self) -> (r: Option<u32>)
        ensures
            r == self@.spec_to_bits(),
    {
        match self {
            Value::Bool(b) => Some(
                if *b {
                    1
                } else {
                    0
                },
            ),
            Value::Int(v) => Some(*v),
            Value::Float(bits) => Some(*bits),
            Value::String(_) => None,
        }
    }

    /// The unsigned integer reading of this value, if it has one.
    pub fn to_u32(&self) -> (r: Option<u32>)
        ensures
            r == self@.spec_to_u32(),
    {
        match self {
            Value::Bool(b) => Some(
                if *b {
                    1
                } else {
                    0
                },
            ),
            Value::Int(v) => Some(*v),
            Value::Float(_) => None,
            Value::String(_) => None,
        }
    }

    /// The boolean reading of this value, if it has one.
    pub fn to_bool(&self) -> (r: Option<bool>)
        ensures
            r == self@.spec_to_bool(),
    {
        match self {
            Value::Bool(b) => Some(*b),
            _ => None,
        }
    }

    /// A copy of this value.
    pub fn dup(&self) -> (r: Value)
        ensures
            r@ == self@,
    {
        match self {
            Value::Bool(b) => Value::Bool(*b),
            Value::Int(v) => Value::Int(*v),
            Value::Float(bits) => Value::Float(*bits),
            Value::String(s) => Value::String(s.clone()),
        }
    }
}

pub open spec fn entries_map(s: Seq<(String, Value)>) -> Map<Seq<char>, ValueV>
    decreases s.len(),
{
    if s.len() == 0 {
        Map::empty()
    } else {
        entries_map(s.drop_last()).insert(s.last().0@, s.last().1@)
    }
}

pub open spec fn entries_unique(s: Seq<(String, Value)>) -> bool {
    forall|i: int, j: int| 0 <= i < j < s.len() ==> (#[trigger] s[i]).0@ != (#[trigger] s[j]).0@
}

/// A map from logical names to values, ordered by first insertion.
pub struct ValueMap {
    entries: Vec<(String, Value)>,
}

impl View for ValueMap {
    type V = Map<Seq<char>, ValueV>;

    closed spec fn view(&self) -> Map<Seq<char>, ValueV> {
        entries_map(self.entries@)
    }
}

proof fn lemma_entries_map_lookup(s: Seq<(String, Value)>, i: int)
    requires
        entries_unique(s),
        0 <= i < s.len(),
    ensures
        entries_map(s).dom().contains(s[i].0@),
        entries_map(s)[s[i].0@] == s[i].1@,
    decreases s.len(),
{
    if i < s.len() - 1 {
        assert(s.drop_last()[i] == s[i]);
        assert(entries_unique(s.drop_last())) by {
            assert(forall|x: int, y: int|
                0 <= x < y < s.len() - 1 ==> (#[trigger] s.drop_last()[x]) == s[x]
                    && (#[trigger] s.drop_last()[y]) == s[y]);
        }
        lemma_entries_map_lookup(s.drop_last(), i);
        assert(s[i].0@ != s.last().0@);
    }
}

proof fn lemma_entries_map_dom(s: Seq<(String, Value)>, k: Seq<char>)
    requires
        entries_map(s).dom().contains(k),
    ensures
        exists|i: int| 0 <= i < s.len() && (#[trigger] s[i]).0@ == k,
    decreases s.len(),
{
    if s.len() > 0 {
        if s.last().0@ == k {
            assert(s[s.len() - 1].0@ == k);
        } else {
            lemma_entries_map_dom(s.drop_last(), k);
            let i = choose|i: int| 0 <= i < s.drop_last().len() && (#[trigger] s.drop_last()[i]).0@
                == k;
            assert(s[i].0@ == k);
        }
    }
}

impl ValueMap {
    pub closed spec fn wf(&self) -> bool {
        entries_unique(self.entries@)
    }

    /// An empty map.
    pub fn new() -> (r: ValueMap)
        ensures
            r@ == Map::<Seq<char>, ValueV>::empty(),
            r.wf(),
    {
        ValueMap { entries: Vec::new() }
    }

    /// How many names the map holds.
    pub fn len(&self) -> (r: usize)
        requires
            self.wf(),
        ensures
            r == self@.dom().len(),
    {
        proof {
            lemma_entries_len(self.entries@);
        }
        self.entries.len()
    }

    /// Binds a name to a value, replacing any earlier binding.
    pub fn insert(&mut self, name: String, value: Value)
        requires
            old(self).wf(),
        ensures
            final(self).wf(),
            final(self)@ == old(self)@.insert(name@, value@),
    {
        let n = self.entries.len();
        let mut i: usize = 0;
        while i < n
            invariant
                i <= n,
                n == self.entries@.len(),
                *self == *old(self),
                self.wf(),
                forall|j: int| 0 <= j < i ==> (#[trigger] self.entries@[j]).0@ != name@,
            decreases n - i,
        {
            let hit = {
                let e = &self.entries[i];
                string_eq(&e.0, &name)
            };
            if hit {
                let ghost prev = self.entries@;
                self.entries.set(i, (name, value));
                proof {
                    assert(entries_unique(self.entries@)) by {
                        assert(forall|x: int|
                            0 <= x < prev.len() && x != i ==> (#[trigger] self.entries@[x])
                                == prev[x]);
                    }
                    lemma_entries_map_update(prev, self.entries@, i as int);
                    assert(self@ =~= old(self)@.insert(
                        self.entries@[i as int].0@,
                        self.entries@[i as int].1@,
                    ));
                }
                return ;
            }
            i = i + 1;
        }
        let ghost prev = self.entries@;
        self.entries.push((name, value));
        proof {
            assert(self.entries@.drop_last() =~= prev);
            assert(entries_unique(self.entries@)) by {
                assert(forall|x: int|
                    0 <= x < prev.len() ==> (#[trigger] self.entries@[x]) == prev[x]);
            }
        }
    }

    /// The value bound to a name, if any.
    pub fn get(&self, name: &str) -> (r: Option<&Value>)
        requires
            self.wf(),
        ensures
            match r {
                Some(v) => self@.dom().contains(name@) && v@ == self@[name@],
                None => !self@.dom().contains(name@),
            },
    {
        let n = self.entries.len();
        let mut i: usize = 0;
        while i < n
            invariant
                i <= n,
                n == self.entries@.len(),
                self.wf(),
                forall|j: int| 0 <= j < i ==> (#[trigger] self.entries@[j]).0@ != name@,
            decreases n - i,
        {
            let hit = {
                let e = &self.entries[i];
                str_eq_string(name, &e.0)
            };
            if hit {
                proof {
                    lemma_entries_map_lookup(self.entries@, i as int);
                }
                return Some(&self.entries[i].1);
            }
            i = i + 1;
        }
        proof {
            if self@.dom().contains(name@) {
                lemma_entries_map_dom(self.entries@, name@);
            }
        }
        None
    }

    /// Whether a name is bound.
    pub fn contains_key(&self, name: &str) -> (r: bool)
        requires
            self.wf(),
        ensures
            r == self@.dom().contains(name@),
    {
        match self.get(name) {
            Some(_) => true,
            None => false,
        }
    }

    /// The entries in insertion order.
    pub fn entries(&self) -> (r: &Vec<(String, Value)>)
        requires
            self.wf(),
        ensures
            entries_map(r@) == self@,
            entries_unique(r@),
            forall|i: int|
                0 <= i < r@.len() ==> self@.dom().contains((#[trigger] r@[i]).0@)
                    && self@[r@[i].0@] == r@[i].1@,
    {
        proof {
            assert forall|i: int|
                0 <= i < self.entries@.len() implies self@.dom().contains(
                (#[trigger] self.entries@[i]).0@,
            ) && self@[self.entries@[i].0@] == self.entries@[i].1@ by {
                lemma_entries_map_lookup(self.entries@, i);
            }
        }
        &self.entries
    }
}

proof fn lemma_entries_len(s: Seq<(String, Value)>)
    requires
        entries_unique(s),
    ensures
        entries_map(s).dom().finite(),
        entries_map(s).dom().len() == s.len(),
    decreases s.len(),
{
    if s.len() > 0 {
        assert(entries_unique(s.drop_last())) by {
            assert(forall|x: int, y: int|
                0 <= x < y < s.len() - 1 ==> (#[trigger] s.drop_last()[x]) == s[x]
                    && (#[trigger] s.drop_last()[y]) == s[y]);
        }
        lemma_entries_len(s.drop_last());
        if entries_map(s.drop_last()).dom().contains(s.last().0@) {
            lemma_entries_map_dom(s.drop_last(), s.last().0@);
            let i = choose|i: int|
                0 <= i < s.drop_last().len() && (#[trigger] s.drop_last()[i]).0@ == s.last().0@;
            assert(s[i].0@ == s[s.len() - 1].0@);
            assert(false);
        }
        vstd::set::axiom_set_insert_len(entries_map(s.drop_last()).dom(), s.last().0@);
    }
}

proof fn lemma_entries_map_update(prev: Seq<(String, Value)>, cur: Seq<(String, Value)>, i: int)
    requires
        entries_unique(prev),
        0 <= i < prev.len(),
        cur.len() == prev.len(),
        cur[i].0@ == prev[i].0@,
        forall|x: int| 0 <= x < prev.len() && x != i ==> (#[trigger] cur[x]) == prev[x],
    ensures
        entries_map(cur) == entries_map(prev).insert(cur[i].0@, cur[i].1@),
    decreases prev.len(),
{
    if i == prev.len() - 1 {
        assert(cur.drop_last() =~= prev.drop_last());
        assert(entries_map(cur) =~= entries_map(prev).insert(cur[i].0@, cur[i].1@));
    } else {
        assert(entries_unique(prev.drop_last())) by {
            assert(forall|x: int, y: int|
                0 <= x < y < prev.len() - 1 ==> (#[trigger] prev.drop_last()[x]) == prev[x]
                    && (#[trigger] prev.drop_last()[y]) == prev[y]);
        }
        assert(forall|x: int|
            0 <= x < prev.len() - 1 && x != i ==> (#[trigger] cur.drop_last()[x])
                == prev.drop_last()[x]);
        assert(cur.drop_last()[i] == cur[i]);
        assert(prev.drop_last()[i] == prev[i]);
        lemma_entries_map_update(prev.drop_last(), cur.drop_last(), i);
        assert(cur.last() == prev.last());
        assert(prev[i].0@ != prev.last().0@);
        assert(entries_map(cur) =~= entries_map(prev).insert(cur[i].0@, cur[i].1@));
    }
}

/// Whether two strings spell the same characters.
pub fn string_eq(a: &String, b: &String) -> (r: bool)
    ensures
        r == (a@ == b@),
{
    a.eq(b)
}

/// Whether a string slice and a string spell the same characters.
pub fn str_eq_string(a: &str, b: &String) -> (r: bool)
    ensures
        r == (a@ == b@),
{
    let sa = String::from_str(a);
    sa.eq(b)
}

} // verus!

verus! {

/// Whether a physical model matches a logical slot: its slot id equals the
/// slot's fixed slot id or, absent one, some slot id named by the slot's
/// fixed-constant descriptors; and its model id and enabled flag equal the
/// slot's fixed ones where declared.
pub open spec fn spec_model_matches_slot(m: ModelV, slot: Slot) -> bool {
    let slot_matched = match slot.fixed_slot {
        Some(v) => m.slot_id == v,
        None => exists|i: int|
            0 <= i < slot.params@.len() && ((#[trigger] slot.params@[i]) matches Param::FixedParam {
                slot_id: Some(v),
                ..
            } && m.slot_id == v),
    };
    let model_matched = match slot.fixed_model {
        Some(v) => m.model_id == v,
        None => true,
    };
    let enable_matched = match slot.fixed_enable {
        Some(v) => m.enabled == v,
        None => true,
    };
    slot_matched && model_matched && enable_matched
}

/// Whether a physical model matches a logical slot.
pub fn model_matches_slot(model: &Model, slot: &Slot) -> (r: bool)
    ensures
        r == spec_model_matches_slot(model@, *slot),
{
    let slot_matched = match slot.fixed_slot {
        Some(v) => model.slot_id == v,
        None => {
            let n = slot.params.len();
            let mut found = false;
            let mut i: usize = 0;
            while i < n
                invariant
                    i <= n,
                    n == slot.params@.len(),
                    found == exists|j: int|
                        0 <= j < i && ((#[trigger] slot.params@[j]) matches Param::FixedParam {
                            slot_id: Some(v),
                            ..
                        } && model@.slot_id == v),
                decreases n - i,
            {
                match &slot.params[i] {
                    Param::FixedParam { slot_id: Some(v), .. } => {
                        if model.slot_id == *v {
                            proof {
                                assert(slot.params@[i as int] matches Param::FixedParam {
                                    slot_id: Some(vv),
                                    ..
                                } && model@.slot_id == vv);
                            }
                            found = true;
                        }
                    },
                    _ => {},
                }
                i = i + 1;
            }
            found
        },
    };
    let model_matched = match slot.fixed_model {
        Some(v) => model.model_id == v,
        None => true,
    };
    let enable_matched = match slot.fixed_enable {
        Some(v) => model.enabled == v,
        None => true,
    };
    slot_matched && model_matched && enable_matched
}

/// The index of the first model of the patch matching the slot.
pub open spec fn spec_find_model(ms: Seq<ModelV>, slot: Slot) -> Option<int>
    decreases ms.len(),
{
    if ms.len() == 0 {
        None
    } else if spec_model_matches_slot(ms[0], slot) {
        Some(0)
    } else {
        match spec_find_model(ms.drop_first(), slot) {
            Some(i) => Some(i + 1),
            None => None,
        }
    }
}

pub proof fn lemma_find_model(ms: Seq<ModelV>, slot: Slot)
    ensures
        match spec_find_model(ms, slot) {
            Some(i) => 0 <= i < ms.len() && spec_model_matches_slot(ms[i], slot) && forall|j: int|
                0 <= j < i ==> !spec_model_matches_slot(#[trigger] ms[j], slot),
            None => forall|j: int|
                0 <= j < ms.len() ==> !spec_model_matches_slot(#[trigger] ms[j], slot),
        },
    decreases ms.len(),
{
    if ms.len() > 0 {
        lemma_find_model(ms.drop_first(), slot);
        if !spec_model_matches_slot(ms[0], slot) {
            assert(forall|j: int|
                1 <= j < ms.len() ==> (#[trigger] ms[j]) == ms.drop_first()[j - 1]);
        }
    }
}

/// Converts a raw physical value to a logical one by the declared type.
/// Integers pass through; booleans demand exactly 0 or 1; floats use the
/// raw bits directly or, on floats-as-ints devices, reinterpret an
/// integer's bits — and a literal integer 0 always converts to float 0.0,
/// tolerating legacy zero-fill.
pub open spec fn spec_value_from_l6(v: L6Value, pt: ParamType, floats_as_ints: bool) -> Option<
    ValueV,
> {
    match pt {
        ParamType::Int => match v {
            L6Value::Int(x) => Some(ValueV::Int(x)),
            _ => None,
        },
        ParamType::Float => match v {
            L6Value::Int(bits) => if floats_as_ints {
                Some(ValueV::Float(bits))
            } else if bits == 0 {
                Some(ValueV::Float(0))
            } else {
                None
            },
            L6Value::Float(bits) => Some(ValueV::Float(bits)),
        },
        ParamType::Bool => match v {
            L6Value::Int(x) => if x == 0 {
                Some(ValueV::Bool(false))
            } else if x == 1 {
                Some(ValueV::Bool(true))
            } else {
                None
            },
            _ => None,
        },
    }
}

fn value_from_l6(v: &L6Value, pt: &ParamType, floats_as_ints: bool) -> (r: Option<Value>)
    ensures
        match r {
            Some(val) => spec_value_from_l6(*v, *pt, floats_as_ints) == Some(val@),
            None => spec_value_from_l6(*v, *pt, floats_as_ints) is None,
        },
{
    match pt {
        ParamType::Int => match v {
            L6Value::Int(x) => Some(Value::Int(*x)),
            _ => None,
        },
        ParamType::Float => match v {
            L6Value::Int(bits) => if floats_as_ints {
                Some(Value::Float(*bits))
            } else if *bits == 0 {
                Some(Value::Float(0))
            } else {
                None
            },
            L6Value::Float(bits) => Some(Value::Float(*bits)),
        },
        ParamType::Bool => match v {
            L6Value::Int(x) => if *x == 0 {
                Some(Value::Bool(false))
            } else if *x == 1 {
                Some(Value::Bool(true))
            } else {
                None
            },
            _ => None,
        },
    }
}

/// Converts a logical value back to a raw physical one: the inverse of the
/// read-side rule.  A float on a floats-as-ints device emits its raw bit
/// pattern as an integer.
pub open spec fn spec_value_to_l6(v: ValueV, pt: ParamType, floats_as_ints: bool) -> Option<
    L6Value,
> {
    match pt {
        ParamType::Int => match v {
            ValueV::Int(x) => Some(L6Value::Int(x)),
            _ => None,
        },
        ParamType::Float => match v {
            ValueV::Float(bits) => if floats_as_ints {
                Some(L6Value::Int(bits))
            } else {
                Some(L6Value::Float(bits))
            },
            _ => None,
        },
        ParamType::Bool => match v {
            ValueV::Bool(b) => Some(
                L6Value::Int(
                    if b {
                        1
                    } else {
                        0
                    },
                ),
            ),
            _ => None,
        },
    }
}

fn value_to_l6(v: &Value, pt: &ParamType, floats_as_ints: bool) -> (r: Option<L6Value>)
    ensures
        r == spec_value_to_l6(v@, *pt, floats_as_ints),
{
    match pt {
        ParamType::Int => match v {
            Value::Int(x) => Some(L6Value::Int(*x)),
            _ => None,
        },
        ParamType::Float => match v {
            Value::Float(bits) => if floats_as_ints {
                Some(L6Value::Int(*bits))
            } else {
                Some(L6Value::Float(*bits))
            },
            _ => None,
        },
        ParamType::Bool => match v {
            Value::Bool(b) => Some(
                L6Value::Int(
                    if *b {
                        1
                    } else {
                        0
                    },
                ),
            ),
            _ => None,
        },
    }
}

/// The first parameter record with the given id.
pub open spec fn spec_find_param(ps: Seq<ModelParam>, id: u32) -> Option<ModelParam>
    decreases ps.len(),
{
    if ps.len() == 0 {
        None
    } else if ps[0].param_id == id {
        Some(ps[0])
    } else {
        spec_find_param(ps.drop_first(), id)
    }
}

fn find_param<'a>(ps: &'a Vec<ModelParam>, id: u32) -> (r: Option<&'a ModelParam>)
    ensures
        match r {
            Some(p) => spec_find_param(ps@, id) == Some(*p),
            None => spec_find_param(ps@, id) is None,
        },
{
    let n = ps.len();
    let mut i: usize = 0;
    proof {
        assert(ps@.skip(0) =~= ps@);
    }
    while i < n
        invariant
            i <= n,
            n == ps@.len(),
            spec_find_param(ps@, id) == spec_find_param(ps@.skip(i as int), id),
        decreases n - i,
    {
        proof {
            assert(ps@.skip(i as int)[0] == ps@[i as int]);
            assert(ps@.skip(i as int).drop_first() =~= ps@.skip(i + 1));
        }
        if ps[i].param_id == id {
            return Some(&ps[i]);
        }
        i = i + 1;
    }
    proof {
        assert(ps@.skip(n as int) =~= Seq::<ModelParam>::empty());
    }
    None
}

} // verus!

verus! {

/// An advisory discrepancy between a patch and a schema, collected during
/// a read; none aborts the traversal.
#[derive(Debug)]
pub enum ReadError {
    /// The slot declares parameters the matched model lacks.
    MissingParams { slot_id: u32, model_id: u32, ordinal: u8, params: Vec<u32> },
    /// The matched model carries values of the wrong physical kind.
    InvalidParams { slot_id: u32, model_id: u32, ordinal: u8, params: Vec<u32> },
    /// The matched model carries parameters no descriptor consumes.
    UnprocessedParams { slot_id: u32, model_id: u32, ordinal: u8, params: Vec<u32> },
    /// A physical model matched no slot at all.
    UnprocessedModel { slot_id: u32, model_id: u32, ordinal: u8 },
}

/// The mathematical model of a `ReadError`.
#[verifier::ext_equal]
pub enum ReadErrorV {
    MissingParams { slot_id: u32, model_id: u32, ordinal: u8, params: Seq<u32> },
    InvalidParams { slot_id: u32, model_id: u32, ordinal: u8, params: Seq<u32> },
    UnprocessedParams { slot_id: u32, model_id: u32, ordinal: u8, params: Seq<u32> },
    UnprocessedModel { slot_id: u32, model_id: u32, ordinal: u8 },
}

impl View for ReadError {
    type V = ReadErrorV;

    open spec fn view(&self) -> ReadErrorV {
        match self {
            ReadError::MissingParams { slot_id, model_id, ordinal, params } => {
                ReadErrorV::MissingParams {
                    slot_id: *slot_id,
                    model_id: *model_id,
                    ordinal: *ordinal,
                    params: params@,
                }
            },
            ReadError::InvalidParams { slot_id, model_id, ordinal, params } => {
                ReadErrorV::InvalidParams {
                    slot_id: *slot_id,
                    model_id: *model_id,
                    ordinal: *ordinal,
                    params: params@,
                }
            },
            ReadError::UnprocessedParams { slot_id, model_id, ordinal, params } => {
                ReadErrorV::UnprocessedParams {
                    slot_id: *slot_id,
                    model_id: *model_id,
                    ordinal: *ordinal,
                    params: params@,
                }
            },
            ReadError::UnprocessedModel { slot_id, model_id, ordinal } => {
                ReadErrorV::UnprocessedModel {
                    slot_id: *slot_id,
                    model_id: *model_id,
                    ordinal: *ordinal,
                }
            },
        }
    }
}

pub open spec fn errors_view(es: Seq<ReadError>) -> Seq<ReadErrorV> {
    es.map_values(|e: ReadError| e@)
}

/// The state of a walk over one slot's parameter descriptors.
#[verifier::ext_equal]
pub struct ParamFold {
    pub map: Map<Seq<char>, ValueV>,
    pub missing: Seq<u32>,
    pub invalid: Seq<u32>,
    pub processed: Seq<u32>,
}

/// One step of the parameter walk: synthetic descriptors read the model's
/// own fields, named parameters read and convert the physical value,
/// fixed constants write gated constants, and ignored ids are consumed.
pub open spec fn spec_param_step(p: Param, m: ModelV, fai: bool, st: ParamFold) -> ParamFold {
    match p {
        Param::SlotModel { name } => ParamFold {
            map: st.map.insert(name@, ValueV::Int(m.model_id)),
            ..st
        },
        Param::SlotEnable { name } => ParamFold {
            map: st.map.insert(name@, ValueV::Bool(m.enabled)),
            ..st
        },
        Param::Param { name, param_id, param_type } => {
            match spec_find_param(m.params, param_id) {
                None => ParamFold { missing: st.missing.push(param_id), ..st },
                Some(pp) => {
                    let st2 = ParamFold { processed: st.processed.push(param_id), ..st };
                    match spec_value_from_l6(pp.value, param_type, fai) {
                        Some(v) => ParamFold { map: st2.map.insert(name@, v), ..st2 },
                        None => ParamFold { invalid: st2.invalid.push(param_id), ..st2 },
                    }
                },
            }
        },
        Param::FixedParam { name, param_value, slot_id, .. } => {
            match slot_id {
                None => ParamFold { map: st.map.insert(name@, ValueV::Int(param_value)), ..st },
                Some(sid) => if sid == m.slot_id {
                    ParamFold { map: st.map.insert(name@, ValueV::Int(param_value)), ..st }
                } else {
                    st
                },
            }
        },
        Param::IgnoreParam { param_id, .. } => ParamFold {
            processed: st.processed.push(param_id),
            ..st
        },
    }
}

pub open spec fn spec_fold_params(ps: Seq<Param>, m: ModelV, fai: bool, st: ParamFold) -> ParamFold
    decreases ps.len(),
{
    if ps.len() == 0 {
        st
    } else {
        spec_fold_params(ps.drop_first(), m, fai, spec_param_step(ps[0], m, fai, st))
    }
}

/// The physical ids the model carries that no descriptor consumed, in
/// order.
pub open spec fn spec_unprocessed(ps: Seq<ModelParam>, processed: Seq<u32>) -> Seq<u32>
    decreases ps.len(),
{
    if ps.len() == 0 {
        Seq::empty()
    } else {
        let rest = spec_unprocessed(ps.drop_first(), processed);
        if !processed.contains(ps[0].param_id) {
            seq![ps[0].param_id] + rest
        } else {
            rest
        }
    }
}

/// The advisory errors one matched slot contributes.
pub open spec fn spec_slot_errors(m: ModelV, st: ParamFold, ups: Seq<u32>) -> Seq<ReadErrorV> {
    (if st.missing.len() > 0 {
        seq![
            ReadErrorV::MissingParams {
                slot_id: m.slot_id,
                model_id: m.model_id,
                ordinal: m.ordinal,
                params: st.missing,
            },
        ]
    } else {
        Seq::empty()
    }) + (if st.invalid.len() > 0 {
        seq![
            ReadErrorV::InvalidParams {
                slot_id: m.slot_id,
                model_id: m.model_id,
                ordinal: m.ordinal,
                params: st.invalid,
            },
        ]
    } else {
        Seq::empty()
    }) + (if ups.len() > 0 {
        seq![
            ReadErrorV::UnprocessedParams {
                slot_id: m.slot_id,
                model_id: m.model_id,
                ordinal: m.ordinal,
                params: ups,
            },
        ]
    } else {
        Seq::empty()
    })
}

/// The state of the walk over a schema's slots.
#[verifier::ext_equal]
pub struct ReadFold {
    pub map: Map<Seq<char>, ValueV>,
    pub errors: Seq<ReadErrorV>,
    pub processed_models: Seq<ModelV>,
}

pub open spec fn empty_param_fold(map: Map<Seq<char>, ValueV>) -> ParamFold {
    ParamFold { map, missing: Seq::empty(), invalid: Seq::empty(), processed: Seq::empty() }
}

/// One slot of the walk: the first matching model, if any, is read by the
/// slot's descriptors; no match is no error.
pub open spec fn spec_fold_slot(slot: Slot, models: Seq<ModelV>, fai: bool, st: ReadFold) -> ReadFold {
    match spec_find_model(models, slot) {
        None => st,
        Some(i) => {
            let m = models[i];
            let pf = spec_fold_params(slot.params@, m, fai, empty_param_fold(st.map));
            let ups = spec_unprocessed(m.params, pf.processed);
            ReadFold {
                map: pf.map,
                errors: st.errors + spec_slot_errors(m, pf, ups),
                processed_models: st.processed_models.push(m),
            }
        },
    }
}

pub open spec fn spec_fold_slots(ss: Seq<Slot>, models: Seq<ModelV>, fai: bool, st: ReadFold) -> ReadFold
    decreases ss.len(),
{
    if ss.len() == 0 {
        st
    } else {
        spec_fold_slots(ss.drop_first(), models, fai, spec_fold_slot(ss[0], models, fai, st))
    }
}

pub open spec fn spec_fold_groups(gs: Seq<Group>, models: Seq<ModelV>, fai: bool, st: ReadFold) -> ReadFold
    decreases gs.len(),
{
    if gs.len() == 0 {
        st
    } else {
        spec_fold_groups(
            gs.drop_first(),
            models,
            fai,
            spec_fold_slots(gs[0].slots@, models, fai, st),
        )
    }
}

/// Whether two models share their identity: slot id, model id and ordinal.
pub open spec fn mv_same_identity(a: ModelV, b: ModelV) -> bool {
    a.slot_id == b.slot_id && a.model_id == b.model_id && a.ordinal == b.ordinal
}

pub open spec fn contains_identity(s: Seq<ModelV>, m: ModelV) -> bool {
    exists|i: int| 0 <= i < s.len() && mv_same_identity(#[trigger] s[i], m)
}

/// One advisory error per physical model no slot claimed, in order.
pub open spec fn spec_unmatched_models(models: Seq<ModelV>, processed: Seq<ModelV>) -> Seq<
    ReadErrorV,
>
    decreases models.len(),
{
    if models.len() == 0 {
        Seq::empty()
    } else {
        let rest = spec_unmatched_models(models.drop_first(), processed);
        if !contains_identity(processed, models[0]) {
            seq![
                ReadErrorV::UnprocessedModel {
                    slot_id: models[0].slot_id,
                    model_id: models[0].model_id,
                    ordinal: models[0].ordinal,
                },
            ] + rest
        } else {
            rest
        }
    }
}

pub open spec fn empty_read_fold() -> ReadFold {
    ReadFold { map: Map::empty(), errors: Seq::empty(), processed_models: Seq::empty() }
}

/// What reading a patch against a schema gives: the named value map and
/// the advisory error list, walking slots in schema order, first matching
/// model winning, then reporting models no slot claimed.
pub open spec fn spec_read_values(models: Seq<ModelV>, gs: Seq<Group>, fai: bool) -> (
    Map<Seq<char>, ValueV>,
    Seq<ReadErrorV>,
) {
    let st = spec_fold_groups(gs, models, fai, empty_read_fold());
    (st.map, st.errors + spec_unmatched_models(models, st.processed_models))
}

} // verus!

verus! {

fn contains_u32(v: &Vec<u32>, x: u32) -> (r: bool)
    ensures
        r == v@.contains(x),
{
    let n = v.len();
    let mut i: usize = 0;
    while i < n
        invariant
            i <= n,
            n == v@.len(),
            forall|j: int| 0 <= j < i ==> v@[j] != x,
        decreases n - i,
    {
        if v[i] == x {
            return true;
        }
        i = i + 1;
    }
    proof {
        if v@.contains(x) {
            let j = choose|j: int| 0 <= j < v@.len() && v@[j] == x;
            assert(false);
        }
    }
    false
}

/// Reads a patch against a schema: for each slot, in schema order, the
/// first matching physical model is read by the slot's descriptors into
/// the named value map; discrepancies are collected as advisory errors and
/// never abort the walk.
pub fn read_values(patch: &L6Patch, model: &DataModel) -> (r: (ValueMap, Vec<ReadError>))
    ensures
        r.0.wf(),
        ({
            let (m, e) = spec_read_values(
                crate::model::models_view(patch.models@),
                model.groups@,
                model.floats_as_ints,
            );
            r.0@ == m && errors_view(r.1@) == e
        }),
{
    let ghost models_v = crate::model::models_view(patch.models@);
    let ghost gs = model.groups@;
    let fai = model.floats_as_ints;
    let ghost goal = spec_fold_groups(gs, models_v, fai, empty_read_fold());
    let mut vmap = ValueMap::new();
    let mut errors: Vec<ReadError> = Vec::new();
    let mut pm_ids: Vec<(u32, u32, u8)> = Vec::new();
    let ghost mut pm_seq = Seq::<ModelV>::empty();
    proof {
        assert(gs.skip(0) =~= gs);
        assert(errors_view(errors@) =~= Seq::<ReadErrorV>::empty());
        assert((ReadFold { map: vmap@, errors: errors_view(errors@), processed_models: pm_seq })
            =~= empty_read_fold());
    }
    let ngroups = model.groups.len();
    let mut g: usize = 0;
    while g < ngroups
        invariant
            g <= ngroups,
            ngroups == gs.len(),
            gs == model.groups@,
            models_v == crate::model::models_view(patch.models@),
            models_v.len() == patch.models@.len(),
            fai == model.floats_as_ints,
            vmap.wf(),
            pm_ids@.len() == pm_seq.len(),
            forall|k: int|
                0 <= k < pm_seq.len() ==> (#[trigger] pm_ids@[k]) == (
                    pm_seq[k].slot_id,
                    pm_seq[k].model_id,
                    pm_seq[k].ordinal,
                ),
            goal == spec_fold_groups(
                gs.skip(g as int),
                models_v,
                fai,
                ReadFold { map: vmap@, errors: errors_view(errors@), processed_models: pm_seq },
            ),
        decreases ngroups - g,
    {
        proof {
            assert(gs.skip(g as int)[0] == gs[g as int]);
            assert(gs.skip(g as int).drop_first() =~= gs.skip(g + 1));
        }
        let group = &model.groups[g];
        let ghost ss = group.slots@;
        let nslots = group.slots.len();
        let mut s: usize = 0;
        proof {
            assert(ss.skip(0) =~= ss);
        }
        while s < nslots
            invariant
                s <= nslots,
                nslots == ss.len(),
                ss == model.groups@[g as int].slots@,
                ss == group.slots@,
                g < gs.len(),
                gs == model.groups@,
                models_v == crate::model::models_view(patch.models@),
                models_v.len() == patch.models@.len(),
                fai == model.floats_as_ints,
                vmap.wf(),
                pm_ids@.len() == pm_seq.len(),
                forall|k: int|
                    0 <= k < pm_seq.len() ==> (#[trigger] pm_ids@[k]) == (
                        pm_seq[k].slot_id,
                        pm_seq[k].model_id,
                        pm_seq[k].ordinal,
                    ),
                goal == spec_fold_groups(
                    gs.skip(g + 1),
                    models_v,
                    fai,
                    spec_fold_slots(
                        ss.skip(s as int),
                        models_v,
                        fai,
                        ReadFold {
                            map: vmap@,
                            errors: errors_view(errors@),
                            processed_models: pm_seq,
                        },
                    ),
                ),
            decreases nslots - s,
        {
            proof {
                assert(ss.skip(s as int)[0] == ss[s as int]);
                assert(ss.skip(s as int).drop_first() =~= ss.skip(s + 1));
            }
            let slot = &group.slots[s];
            let ghost st_in = ReadFold {
                map: vmap@,
                errors: errors_view(errors@),
                processed_models: pm_seq,
            };
            // find the first matching physical model, schema order winning
            let nmodels = patch.models.len();
            let mut mi: usize = 0;
            let mut found = false;
            while mi < nmodels && !found
                invariant
                    mi <= nmodels,
                    nmodels == models_v.len(),
                    models_v == crate::model::models_view(patch.models@),
                    models_v.len() == patch.models@.len(),
                    ss == model.groups@[g as int].slots@,
                    s < ss.len(),
                    *slot == ss[s as int],
                    !found ==> forall|j: int|
                        0 <= j < mi ==> !spec_model_matches_slot(
                            #[trigger] models_v[j],
                            ss[s as int],
                        ),
                    found ==> mi < nmodels && spec_model_matches_slot(
                        models_v[mi as int],
                        ss[s as int],
                    ) && forall|j: int|
                        0 <= j < mi ==> !spec_model_matches_slot(
                            #[trigger] models_v[j],
                            ss[s as int],
                        ),
                decreases nmodels - mi + (if found {
                    0int
                } else {
                    1int
                }),
            {
                if model_matches_slot(&patch.models[mi], slot) {
                    found = true;
                } else {
                    mi = mi + 1;
                }
            }
            proof {
                lemma_find_model(models_v, ss[s as int]);
                if found {
                    assert(spec_find_model(models_v, ss[s as int]) == Some(mi as int));
                } else {
                    assert(spec_find_model(models_v, ss[s as int]) is None);
                    assert(spec_fold_slot(ss[s as int], models_v, fai, st_in) == st_in);
                }
            }
            if found {
                let m = &patch.models[mi];
                let ghost mv = models_v[mi as int];
                let ghost ps = slot.params@;
                let ghost map0 = vmap@;
                let mut missing: Vec<u32> = Vec::new();
                let mut invalid: Vec<u32> = Vec::new();
                let mut processed: Vec<u32> = Vec::new();
                let nparams = slot.params.len();
                let mut p: usize = 0;
                proof {
                    assert(ps.skip(0) =~= ps);
                    assert((ParamFold {
                        map: vmap@,
                        missing: missing@,
                        invalid: invalid@,
                        processed: processed@,
                    }) =~= empty_param_fold(map0));
                }
                while p < nparams
                    invariant
                        p <= nparams,
                        nparams == ps.len(),
                        ps == model.groups@[g as int].slots@[s as int].params@,
                        ps == slot.params@,
                        *slot == ss[s as int],
                        s < ss.len(),
                        ss == model.groups@[g as int].slots@,
                        g < gs.len(),
                        gs == model.groups@,
                        mi < patch.models@.len(),
                        models_v == crate::model::models_view(patch.models@),
                        models_v.len() == patch.models@.len(),
                        mv == models_v[mi as int],
                        *m == patch.models@[mi as int],
                        fai == model.floats_as_ints,
                        vmap.wf(),
                        spec_fold_params(ps, mv, fai, empty_param_fold(map0)) == spec_fold_params(
                            ps.skip(p as int),
                            mv,
                            fai,
                            ParamFold {
                                map: vmap@,
                                missing: missing@,
                                invalid: invalid@,
                                processed: processed@,
                            },
                        ),
                    decreases nparams - p,
                {
                    proof {
                        assert(ps.skip(p as int)[0] == ps[p as int]);
                        assert(ps.skip(p as int).drop_first() =~= ps.skip(p + 1));
                    }
                    let ghost stp = ParamFold {
                        map: vmap@,
                        missing: missing@,
                        invalid: invalid@,
                        processed: processed@,
                    };
                    match &slot.params[p] {
                        Param::SlotModel { name } => {
                            vmap.insert(name.clone(), Value::Int(m.model_id));
                        },
                        Param::SlotEnable { name } => {
                            vmap.insert(name.clone(), Value::Bool(m.enabled));
                        },
                        Param::Param { name, param_id, param_type } => {
                            match find_param(&m.params, *param_id) {
                                None => {
                                    missing.push(*param_id);
                                    proof {
                                        assert(missing@ =~= stp.missing.push(ps[p as int]->Param_param_id));
                                    }
                                },
                                Some(pp) => {
                                    processed.push(*param_id);
                                    match value_from_l6(&pp.value, param_type, fai) {
                                        Some(v) => {
                                            vmap.insert(name.clone(), v);
                                        },
                                        None => {
                                            invalid.push(*param_id);
                                        },
                                    }
                                },
                            }
                        },
                        Param::FixedParam { name, param_value, slot_id, .. } => {
                            match slot_id {
                                None => {
                                    vmap.insert(name.clone(), Value::Int(*param_value));
                                },
                                Some(sid) => {
                                    if *sid == m.slot_id {
                                        vmap.insert(name.clone(), Value::Int(*param_value));
                                    }
                                },
                            }
                        },
                        Param::IgnoreParam { param_id, .. } => {
                            processed.push(*param_id);
                        },
                    }
                    proof {
                        assert((ParamFold {
                            map: vmap@,
                            missing: missing@,
                            invalid: invalid@,
                            processed: processed@,
                        }) =~= spec_param_step(ps[p as int], mv, fai, stp));
                    }
                    p = p + 1;
                }
                proof {
                    assert(ps.skip(nparams as int) =~= Seq::<Param>::empty());
                }
                let ghost pf = ParamFold {
                    map: vmap@,
                    missing: missing@,
                    invalid: invalid@,
                    processed: processed@,
                };
                // the model's parameters no descriptor consumed
                let mut ups: Vec<u32> = Vec::new();
                let nmp = m.params.len();
                let mut u: usize = 0;
                proof {
                    assert(mv.params.skip(0) =~= mv.params);
                    assert(ups@ + spec_unprocessed(mv.params, processed@) =~= spec_unprocessed(
                        mv.params,
                        processed@,
                    ));
                }
                while u < nmp
                    invariant
                        u <= nmp,
                        nmp == mv.params.len(),
                        mi < patch.models@.len(),
                        models_v == crate::model::models_view(patch.models@),
                        mv == models_v[mi as int],
                        *m == patch.models@[mi as int],
                        mv.params == patch.models@[mi as int]@.params,
                        ups@ + spec_unprocessed(mv.params.skip(u as int), processed@)
                            == spec_unprocessed(mv.params, processed@),
                    decreases nmp - u,
                {
                    proof {
                        assert(mv.params.skip(u as int)[0] == mv.params[u as int]);
                        assert(mv.params.skip(u as int).drop_first() =~= mv.params.skip(u + 1));
                    }
                    let id = m.params[u].param_id;
                    if !contains_u32(&processed, id) {
                        ups.push(id);
                    }
                    proof {
                        assert(ups@ + spec_unprocessed(mv.params.skip(u + 1), processed@)
                            =~= spec_unprocessed(mv.params, processed@));
                    }
                    u = u + 1;
                }
                proof {
                    assert(spec_unprocessed(mv.params.skip(nmp as int), processed@) =~= Seq::<
                        u32,
                    >::empty());
                    assert(ups@ =~= spec_unprocessed(mv.params, processed@));
                }
                // advisory errors for this slot
                let ghost errs0 = errors_view(errors@);
                if missing.len() > 0 {
                    let e = ReadError::MissingParams {
                        slot_id: m.slot_id,
                        model_id: m.model_id,
                        ordinal: m.ordinal,
                        params: missing,
                    };
                    errors.push(e);
                    proof {
                        assert(errors_view(errors@) =~= errs0.push(errors@.last()@));
                    }
                }
                let ghost errs1 = errors_view(errors@);
                if invalid.len() > 0 {
                    let e = ReadError::InvalidParams {
                        slot_id: m.slot_id,
                        model_id: m.model_id,
                        ordinal: m.ordinal,
                        params: invalid,
                    };
                    errors.push(e);
                    proof {
                        assert(errors_view(errors@) =~= errs1.push(errors@.last()@));
                    }
                }
                let ghost errs2 = errors_view(errors@);
                if ups.len() > 0 {
                    let e = ReadError::UnprocessedParams {
                        slot_id: m.slot_id,
                        model_id: m.model_id,
                        ordinal: m.ordinal,
                        params: ups,
                    };
                    errors.push(e);
                    proof {
                        assert(errors_view(errors@) =~= errs2.push(errors@.last()@));
                    }
                }
                pm_ids.push((m.slot_id, m.model_id, m.ordinal));
                proof {
                    pm_seq = pm_seq.push(mv);
                    assert(errors_view(errors@) =~= st_in.errors + spec_slot_errors(
                        mv,
                        pf,
                        spec_unprocessed(mv.params, pf.processed),
                    ));
                    assert((ReadFold {
                        map: vmap@,
                        errors: errors_view(errors@),
                        processed_models: pm_seq,
                    }) =~= spec_fold_slot(ss[s as int], models_v, fai, st_in));
                }
            }
            s = s + 1;
        }
        proof {
            assert(ss.skip(nslots as int) =~= Seq::<Slot>::empty());
        }
        g = g + 1;
    }
    proof {
        assert(gs.skip(ngroups as int) =~= Seq::<Group>::empty());
    }
    // physical models no slot claimed
    let ghost errs_before = errors_view(errors@);
    let nmodels = patch.models.len();
    let mut k: usize = 0;
    proof {
        assert(models_v.skip(0) =~= models_v);
        assert(errors_view(errors@) + spec_unmatched_models(models_v, pm_seq) =~= errs_before
            + spec_unmatched_models(models_v, pm_seq));
    }
    while k < nmodels
        invariant
            k <= nmodels,
            nmodels == models_v.len(),
            models_v == crate::model::models_view(patch.models@),
            models_v.len() == patch.models@.len(),
            vmap.wf(),
            pm_ids@.len() == pm_seq.len(),
            forall|j: int|
                0 <= j < pm_seq.len() ==> (#[trigger] pm_ids@[j]) == (
                    pm_seq[j].slot_id,
                    pm_seq[j].model_id,
                    pm_seq[j].ordinal,
                ),
            errors_view(errors@) + spec_unmatched_models(models_v.skip(k as int), pm_seq)
                == errs_before + spec_unmatched_models(models_v, pm_seq),
        decreases nmodels - k,
    {
        proof {
            assert(models_v.skip(k as int)[0] == models_v[k as int]);
            assert(models_v.skip(k as int).drop_first() =~= models_v.skip(k + 1));
        }
        let m = &patch.models[k];
        let npm = pm_ids.len();
        let mut q: usize = 0;
        let mut seen = false;
        while q < npm
            invariant
                q <= npm,
                npm == pm_seq.len(),
                pm_ids@.len() == pm_seq.len(),
                k < patch.models@.len(),
                models_v == crate::model::models_view(patch.models@),
                models_v.len() == patch.models@.len(),
                *m == patch.models@[k as int],
                forall|j: int|
                    0 <= j < pm_seq.len() ==> (#[trigger] pm_ids@[j]) == (
                        pm_seq[j].slot_id,
                        pm_seq[j].model_id,
                        pm_seq[j].ordinal,
                    ),
                seen ==> contains_identity(pm_seq, models_v[k as int]),
                !seen ==> forall|j: int|
                    0 <= j < q ==> !mv_same_identity(#[trigger] pm_seq[j], models_v[k as int]),
            decreases npm - q,
        {
            let t = pm_ids[q];
            if t.0 == m.slot_id && t.1 == m.model_id && t.2 == m.ordinal {
                proof {
                    assert(mv_same_identity(pm_seq[q as int], models_v[k as int]));
                }
                seen = true;
            }
            q = q + 1;
        }
        if !seen {
            let e = ReadError::UnprocessedModel {
                slot_id: m.slot_id,
                model_id: m.model_id,
                ordinal: m.ordinal,
            };
            let ghost errs_k = errors_view(errors@);
            errors.push(e);
            proof {
                assert(!contains_identity(pm_seq, models_v[k as int]));
                assert(errors_view(errors@) =~= errs_k.push(errors@.last()@));
                assert(errors_view(errors@) + spec_unmatched_models(
                    models_v.skip(k + 1),
                    pm_seq,
                ) =~= errs_before + spec_unmatched_models(models_v, pm_seq));
            }
        } else {
            proof {
                assert(errors_view(errors@) + spec_unmatched_models(
                    models_v.skip(k + 1),
                    pm_seq,
                ) =~= errs_before + spec_unmatched_models(models_v, pm_seq));
            }
        }
        k = k + 1;
    }
    proof {
        assert(spec_unmatched_models(models_v.skip(nmodels as int), pm_seq) =~= Seq::<
            ReadErrorV,
        >::empty());
        assert(errors_view(errors@) =~= errs_before + spec_unmatched_models(models_v, pm_seq));
    }
    (vmap, errors)
}

} // verus!

verus! {

/// A fatal encode error: a corrupt write is worse than none.
#[derive(Debug)]
pub enum WriteError {
    /// A fixed-constant descriptor with a stored value is declared with a
    /// type other than integer.
    FixedParamNotInt,
    /// A slot was selected but its identity could not be resolved.
    UnresolvedSlot,
    /// A declared parameter has no stored value.
    MissingValue { name: String },
    /// A stored value does not fit its declared type.
    TypeMismatch { name: String },
}

/// The mathematical model of a `WriteError`.
#[verifier::ext_equal]
pub enum WriteErrorV {
    FixedParamNotInt,
    UnresolvedSlot,
    MissingValue { name: Seq<char> },
    TypeMismatch { name: Seq<char> },
}

impl View for WriteError {
    type V = WriteErrorV;

    open spec fn view(&self) -> WriteErrorV {
        match self {
            WriteError::FixedParamNotInt => WriteErrorV::FixedParamNotInt,
            WriteError::UnresolvedSlot => WriteErrorV::UnresolvedSlot,
            WriteError::MissingValue { name } => WriteErrorV::MissingValue { name: name@ },
            WriteError::TypeMismatch { name } => WriteErrorV::TypeMismatch { name: name@ },
        }
    }
}

/// The first fixed-constant descriptor whose stored value equals its
/// declared constant; this selects which physical slot an aliasing
/// logical slot targets.  A stored value on a non-integer constant is a
/// fatal error.
pub open spec fn spec_find_fixed(ps: Seq<Param>, values: Map<Seq<char>, ValueV>) -> Result<
    Option<Option<u32>>,
    WriteErrorV,
>
    decreases ps.len(),
{
    if ps.len() == 0 {
        Ok(None)
    } else {
        match ps[0] {
            Param::FixedParam { name, param_value, param_type, slot_id } => {
                if !values.dom().contains(name@) {
                    spec_find_fixed(ps.drop_first(), values)
                } else if param_type != ParamType::Int {
                    Err(WriteErrorV::FixedParamNotInt)
                } else {
                    match values[name@].spec_to_u32() {
                        Some(v) => if v == param_value {
                            Ok(Some(slot_id))
                        } else {
                            spec_find_fixed(ps.drop_first(), values)
                        },
                        None => spec_find_fixed(ps.drop_first(), values),
                    }
                }
            },
            _ => spec_find_fixed(ps.drop_first(), values),
        }
    }
}

/// The model id named by the first resolvable synthetic model descriptor.
pub open spec fn spec_resolve_model(ps: Seq<Param>, values: Map<Seq<char>, ValueV>) -> Option<u32>
    decreases ps.len(),
{
    if ps.len() == 0 {
        None
    } else {
        match ps[0] {
            Param::SlotModel { name } => {
                if values.dom().contains(name@) && values[name@].spec_to_u32() is Some {
                    values[name@].spec_to_u32()
                } else {
                    spec_resolve_model(ps.drop_first(), values)
                }
            },
            _ => spec_resolve_model(ps.drop_first(), values),
        }
    }
}

/// The enabled flag named by the first resolvable synthetic enable
/// descriptor.
pub open spec fn spec_resolve_enable(ps: Seq<Param>, values: Map<Seq<char>, ValueV>) -> Option<
    bool,
>
    decreases ps.len(),
{
    if ps.len() == 0 {
        None
    } else {
        match ps[0] {
            Param::SlotEnable { name } => {
                if values.dom().contains(name@) && values[name@].spec_to_bool() is Some {
                    values[name@].spec_to_bool()
                } else {
                    spec_resolve_enable(ps.drop_first(), values)
                }
            },
            _ => spec_resolve_enable(ps.drop_first(), values),
        }
    }
}

/// The type-appropriate placeholder for an ignored parameter.
pub open spec fn spec_zero_of(pt: ParamType) -> L6Value {
    match pt {
        ParamType::Float => L6Value::Float(0),
        _ => L6Value::Int(0),
    }
}

/// The physical parameter records a slot emits: placeholders for ignored
/// ids, and each declared parameter's stored value converted by the
/// write-side rule; an absent or ill-typed value is a fatal error.
pub open spec fn spec_build_params(
    ps: Seq<Param>,
    values: Map<Seq<char>, ValueV>,
    fai: bool,
    acc: Seq<ModelParam>,
) -> Result<Seq<ModelParam>, WriteErrorV>
    decreases ps.len(),
{
    if ps.len() == 0 {
        Ok(acc)
    } else {
        match ps[0] {
            Param::IgnoreParam { param_id, param_type } => spec_build_params(
                ps.drop_first(),
                values,
                fai,
                acc.push(ModelParam { param_id, value: spec_zero_of(param_type) }),
            ),
            Param::Param { name, param_id, param_type } => {
                if !values.dom().contains(name@) {
                    Err(WriteErrorV::MissingValue { name: name@ })
                } else {
                    match spec_value_to_l6(values[name@], param_type, fai) {
                        Some(v) => spec_build_params(
                            ps.drop_first(),
                            values,
                            fai,
                            acc.push(ModelParam { param_id, value: v }),
                        ),
                        None => Err(WriteErrorV::TypeMismatch { name: name@ }),
                    }
                }
            },
            _ => spec_build_params(ps.drop_first(), values, fai, acc),
        }
    }
}

/// What one slot contributes on write: nothing when its identity does not
/// resolve from any stored value, a physical model when it does, and a
/// fatal error when it was selected but left without a slot or model id.
pub open spec fn spec_write_slot(slot: Slot, values: Map<Seq<char>, ValueV>, fai: bool) -> Result<
    Option<ModelV>,
    WriteErrorV,
> {
    match spec_find_fixed(slot.params@, values) {
        Err(e) => Err(e),
        Ok(fp) => {
            let slot_id = match slot.fixed_slot {
                Some(v) => Some(v),
                None => match fp {
                    Some(sid) => sid,
                    None => None,
                },
            };
            let model = match slot.fixed_model {
                Some(v) => Some(v),
                None => spec_resolve_model(slot.params@, values),
            };
            let enable = match slot.fixed_enable {
                Some(v) => Some(v),
                None => spec_resolve_enable(slot.params@, values),
            };
            let have_all = slot_id is Some && model is Some;
            if !(fp is Some || have_all) {
                Ok(None)
            } else if !have_all {
                Err(WriteErrorV::UnresolvedSlot)
            } else {
                match spec_build_params(slot.params@, values, fai, Seq::empty()) {
                    Err(e) => Err(e),
                    Ok(params) => Ok(
                        Some(
                            ModelV {
                                model_id: model->0,
                                slot_id: slot_id->0,
                                enabled: match enable {
                                    Some(b) => b,
                                    None => false,
                                },
                                ordinal: 0,
                                params,
                            },
                        ),
                    ),
                }
            }
        },
    }
}

pub open spec fn spec_write_slots(
    ss: Seq<Slot>,
    values: Map<Seq<char>, ValueV>,
    fai: bool,
    acc: Seq<ModelV>,
) -> Result<Seq<ModelV>, WriteErrorV>
    decreases ss.len(),
{
    if ss.len() == 0 {
        Ok(acc)
    } else {
        match spec_write_slot(ss[0], values, fai) {
            Err(e) => Err(e),
            Ok(None) => spec_write_slots(ss.drop_first(), values, fai, acc),
            Ok(Some(m)) => spec_write_slots(ss.drop_first(), values, fai, acc.push(m)),
        }
    }
}

pub open spec fn spec_write_groups(
    gs: Seq<Group>,
    values: Map<Seq<char>, ValueV>,
    fai: bool,
    acc: Seq<ModelV>,
) -> Result<Seq<ModelV>, WriteErrorV>
    decreases gs.len(),
{
    if gs.len() == 0 {
        Ok(acc)
    } else {
        match spec_write_slots(gs[0].slots@, values, fai, acc) {
            Err(e) => Err(e),
            Ok(acc2) => spec_write_groups(gs.drop_first(), values, fai, acc2),
        }
    }
}

/// What writing a named value map against a schema gives: the physical
/// models of every slot whose identity resolves, in schema order.
pub open spec fn spec_write_values(
    values: Map<Seq<char>, ValueV>,
    gs: Seq<Group>,
    fai: bool,
) -> Result<Seq<ModelV>, WriteErrorV> {
    spec_write_groups(gs, values, fai, Seq::empty())
}

/// What one slot contributes on write, executably.
#[verifier::loop_isolation(false)]
#[verifier::rlimit(60)]
fn write_slot(slot: &Slot, values: &ValueMap, fai: bool) -> (r: Result<Option<Model>, WriteError>)
    requires
        values.wf(),
    ensures
        match r {
            Ok(None) => spec_write_slot(*slot, values@, fai) == Ok::<Option<ModelV>, WriteErrorV>(
                None,
            ),
            Ok(Some(m)) => spec_write_slot(*slot, values@, fai) == Ok::<
                Option<ModelV>,
                WriteErrorV,
            >(Some(m@)),
            Err(e) => spec_write_slot(*slot, values@, fai) == Err::<Option<ModelV>, WriteErrorV>(
                e@,
            ),
        },
{
    let ghost vm = values@;
    let ghost ps = slot.params@;
    let nparams = slot.params.len();
    // the first fixed constant whose stored value matches
    let mut fp_found = false;
    let mut fp_slot_id: Option<u32> = None;
    let mut i: usize = 0;
    proof {
        assert(ps.skip(0) =~= ps);
    }
    while i < nparams && !fp_found
        invariant
            i <= nparams,
            !fp_found ==> fp_slot_id is None && spec_find_fixed(ps, vm) == spec_find_fixed(
                ps.skip(i as int),
                vm,
            ),
            fp_found ==> spec_find_fixed(ps, vm) == Ok::<Option<Option<u32>>, WriteErrorV>(
                Some(fp_slot_id),
            ),
        decreases nparams - i + (if fp_found {
            0int
        } else {
            1int
        }),
    {
        proof {
            assert(ps.skip(i as int)[0] == ps[i as int]);
            assert(ps.skip(i as int).drop_first() =~= ps.skip(i + 1));
        }
        match &slot.params[i] {
            Param::FixedParam { name, param_value, param_type, slot_id } => {
                match values.get(name.as_str()) {
                    None => {},
                    Some(v) => {
                        let is_int = match param_type {
                            ParamType::Int => true,
                            _ => false,
                        };
                        if !is_int {
                            return Err(WriteError::FixedParamNotInt);
                        }
                        match v.to_u32() {
                            Some(x) => {
                                if x == *param_value {
                                    fp_found = true;
                                    fp_slot_id = *slot_id;
                                }
                            },
                            None => {},
                        }
                    },
                }
            },
            _ => {},
        }
        if !fp_found {
            i = i + 1;
        }
    }
    proof {
        if !fp_found {
            assert(ps.skip(nparams as int) =~= Seq::<Param>::empty());
        }
    }
    let ghost fp_spec: Option<Option<u32>> = if fp_found {
        Some(fp_slot_id)
    } else {
        None
    };
    proof {
        assert(spec_find_fixed(ps, vm) == Ok::<Option<Option<u32>>, WriteErrorV>(fp_spec));
    }
    // resolve the slot id, model id and enabled flag
    let slot_id: Option<u32> = match slot.fixed_slot {
        Some(v) => Some(v),
        None => {
            if fp_found {
                fp_slot_id
            } else {
                None
            }
        },
    };
    let mut model_id: Option<u32> = match slot.fixed_model {
        Some(v) => Some(v),
        None => None,
    };
    if slot.fixed_model.is_none() {
        let mut j: usize = 0;
        proof {
            assert(ps.skip(0) =~= ps);
        }
        while j < nparams && model_id.is_none()
            invariant
                j <= nparams,
                model_id is None ==> spec_resolve_model(ps, vm) == spec_resolve_model(
                    ps.skip(j as int),
                    vm,
                ),
                model_id is Some ==> spec_resolve_model(ps, vm) == model_id,
            decreases nparams - j + (if model_id is Some {
                0int
            } else {
                1int
            }),
        {
            proof {
                assert(ps.skip(j as int)[0] == ps[j as int]);
                assert(ps.skip(j as int).drop_first() =~= ps.skip(j + 1));
            }
            match &slot.params[j] {
                Param::SlotModel { name } => {
                    match values.get(name.as_str()) {
                        Some(v) => {
                            match v.to_u32() {
                                Some(x) => {
                                    model_id = Some(x);
                                },
                                None => {},
                            }
                        },
                        None => {},
                    }
                },
                _ => {},
            }
            if model_id.is_none() {
                j = j + 1;
            }
        }
        proof {
            if model_id is None {
                assert(ps.skip(nparams as int) =~= Seq::<Param>::empty());
            }
        }
    }
    let mut enable: Option<bool> = match slot.fixed_enable {
        Some(v) => Some(v),
        None => None,
    };
    if slot.fixed_enable.is_none() {
        let mut j: usize = 0;
        proof {
            assert(ps.skip(0) =~= ps);
        }
        while j < nparams && enable.is_none()
            invariant
                j <= nparams,
                enable is None ==> spec_resolve_enable(ps, vm) == spec_resolve_enable(
                    ps.skip(j as int),
                    vm,
                ),
                enable is Some ==> spec_resolve_enable(ps, vm) == enable,
            decreases nparams - j + (if enable is Some {
                0int
            } else {
                1int
            }),
        {
            proof {
                assert(ps.skip(j as int)[0] == ps[j as int]);
                assert(ps.skip(j as int).drop_first() =~= ps.skip(j + 1));
            }
            match &slot.params[j] {
                Param::SlotEnable { name } => {
                    match values.get(name.as_str()) {
                        Some(v) => {
                            match v.to_bool() {
                                Some(b) => {
                                    enable = Some(b);
                                },
                                None => {},
                            }
                        },
                        None => {},
                    }
                },
                _ => {},
            }
            if enable.is_none() {
                j = j + 1;
            }
        }
        proof {
            if enable is None {
                assert(ps.skip(nparams as int) =~= Seq::<Param>::empty());
            }
        }
    }
    let have_all = slot_id.is_some() && model_id.is_some();
    let slot_found = fp_found || have_all;
    if !slot_found {
        return Ok(None);
    }
    if !have_all {
        return Err(WriteError::UnresolvedSlot);
    }
    // build the slot's physical parameter records
    let mut params: Vec<ModelParam> = Vec::new();
    let mut p: usize = 0;
    proof {
        assert(ps.skip(0) =~= ps);
        assert(params@ =~= Seq::<ModelParam>::empty());
    }
    while p < nparams
        invariant
            p <= nparams,
            spec_build_params(ps, vm, fai, Seq::empty()) == spec_build_params(
                ps.skip(p as int),
                vm,
                fai,
                params@,
            ),
        decreases nparams - p,
    {
        proof {
            assert(ps.skip(p as int)[0] == ps[p as int]);
            assert(ps.skip(p as int).drop_first() =~= ps.skip(p + 1));
        }
        match &slot.params[p] {
            Param::IgnoreParam { param_id, param_type } => {
                let zero = match param_type {
                    ParamType::Float => L6Value::Float(0),
                    _ => L6Value::Int(0),
                };
                params.push(ModelParam { param_id: *param_id, value: zero });
            },
            Param::Param { name, param_id, param_type } => {
                match values.get(name.as_str()) {
                    None => {
                        return Err(WriteError::MissingValue { name: name.clone() });
                    },
                    Some(v) => {
                        match value_to_l6(v, param_type, fai) {
                            Some(lv) => {
                                params.push(ModelParam { param_id: *param_id, value: lv });
                            },
                            None => {
                                return Err(WriteError::TypeMismatch { name: name.clone() });
                            },
                        }
                    },
                }
            },
            _ => {},
        }
        p = p + 1;
    }
    proof {
        assert(ps.skip(nparams as int) =~= Seq::<Param>::empty());
    }
    let m = Model {
        model_id: match model_id {
            Some(v) => v,
            None => 0,
        },
        slot_id: match slot_id {
            Some(v) => v,
            None => 0,
        },
        enabled: match enable {
            Some(b) => b,
            None => false,
        },
        ordinal: 0,
        params,
    };
    proof {
        assert(spec_write_slot(*slot, vm, fai) == Ok::<Option<ModelV>, WriteErrorV>(Some(m@)));
    }
    Ok(Some(m))
}

/// Writes a named value map back into a patch: for each slot whose
/// identity resolves from fixed declarations or stored values, one
/// physical model is emitted; an absent required value, an unresolved
/// identity or an ill-typed value is a fatal error.
pub fn write_values(values: ValueMap, model: &DataModel) -> (r: Result<L6Patch, WriteError>)
    requires
        values.wf(),
    ensures
        match r {
            Ok(p) => spec_write_values(values@, model.groups@, model.floats_as_ints) == Ok::<
                Seq<ModelV>,
                WriteErrorV,
            >(crate::model::models_view(p.models@)) && p@.patch_type
                == crate::model::PatchType::Patch && p@.target_device
                == crate::decoder::default_target_device() && p@.meta
                == crate::model::empty_meta_tags(),
            Err(e) => spec_write_values(values@, model.groups@, model.floats_as_ints) == Err::<
                Seq<ModelV>,
                WriteErrorV,
            >(e@),
        },
{
    let fai = model.floats_as_ints;
    let ghost vm = values@;
    let ghost gs = model.groups@;
    let mut models: Vec<Model> = Vec::new();
    proof {
        assert(gs.skip(0) =~= gs);
        assert(crate::model::models_view(models@) =~= Seq::<ModelV>::empty());
    }
    let ngroups = model.groups.len();
    let mut g: usize = 0;
    while g < ngroups
        invariant
            g <= ngroups,
            ngroups == gs.len(),
            gs == model.groups@,
            fai == model.floats_as_ints,
            values.wf(),
            vm == values@,
            spec_write_values(vm, gs, fai) == spec_write_groups(
                gs.skip(g as int),
                vm,
                fai,
                crate::model::models_view(models@),
            ),
        decreases ngroups - g,
    {
        proof {
            assert(gs.skip(g as int)[0] == gs[g as int]);
            assert(gs.skip(g as int).drop_first() =~= gs.skip(g + 1));
        }
        let group = &model.groups[g];
        let ghost ss = group.slots@;
        let nslots = group.slots.len();
        let mut s: usize = 0;
        proof {
            assert(ss.skip(0) =~= ss);
        }
        while s < nslots
            invariant
                s <= nslots,
                nslots == ss.len(),
                ss == model.groups@[g as int].slots@,
                ss == group.slots@,
                g < gs.len(),
                gs == model.groups@,
                fai == model.floats_as_ints,
                values.wf(),
                vm == values@,
                spec_write_values(vm, gs, fai) == (match spec_write_slots(
                    ss.skip(s as int),
                    vm,
                    fai,
                    crate::model::models_view(models@),
                ) {
                    Ok(acc) => spec_write_groups(gs.skip(g + 1), vm, fai, acc),
                    Err(e) => Err::<Seq<ModelV>, WriteErrorV>(e),
                }),
            decreases nslots - s,
        {
            proof {
                assert(ss.skip(s as int)[0] == ss[s as int]);
                assert(ss.skip(s as int).drop_first() =~= ss.skip(s + 1));
            }
            let slot = &group.slots[s];
            match write_slot(slot, &values, fai) {
                Err(e) => {
                    return Err(e);
                },
                Ok(None) => {},
                Ok(Some(m)) => {
                    let ghost prev = models@;
                    models.push(m);
                    proof {
                        assert(models@.drop_last() =~= prev);
                        assert(crate::model::models_view(models@) =~= crate::model::models_view(
                            prev,
                        ).push(models@.last()@));
                    }
                },
            }
            s = s + 1;
        }
        proof {
            assert(ss.skip(nslots as int) =~= Seq::<Slot>::empty());
        }
        g = g + 1;
    }
    proof {
        assert(gs.skip(ngroups as int) =~= Seq::<Group>::empty());
    }
    let patch = L6Patch {
        patch_type: crate::model::PatchType::Patch,
        target_device: crate::model::TargetDevice::default(),
        models,
        meta: crate::model::MetaTags::default(),
    };
    Ok(patch)
}

} // verus!

verus! {

/// The logical name a descriptor declares, if any.
pub open spec fn descriptor_name(p: Param) -> Option<Seq<char>> {
    match p {
        Param::SlotModel { name } => Some(name@),
        Param::SlotEnable { name } => Some(name@),
        Param::Param { name, .. } => Some(name@),
        Param::FixedParam { name, .. } => Some(name@),
        Param::IgnoreParam { .. } => None,
    }
}

/// The physical id a descriptor consumes, if any.
pub open spec fn descriptor_id(p: Param) -> Option<u32> {
    match p {
        Param::Param { param_id, .. } => Some(param_id),
        Param::IgnoreParam { param_id, .. } => Some(param_id),
        _ => None,
    }
}

/// No two descriptors declare the same name.
pub open spec fn names_distinct(ps: Seq<Param>) -> bool {
    forall|i: int, j: int|
        0 <= i < j < ps.len() && descriptor_name(#[trigger] ps[i]) is Some && descriptor_name(
            #[trigger] ps[j],
        ) is Some ==> descriptor_name(ps[i]) != descriptor_name(ps[j])
}

/// No two descriptors consume the same physical id.
pub open spec fn ids_distinct(ps: Seq<Param>) -> bool {
    forall|i: int, j: int|
        0 <= i < j < ps.len() && descriptor_id(#[trigger] ps[i]) is Some && descriptor_id(
            #[trigger] ps[j],
        ) is Some ==> descriptor_id(ps[i]) != descriptor_id(ps[j])
}

/// A model written for a slot matches that slot: its identity was resolved
/// from the slot's own fixed declarations or constants.
pub proof fn lemma_written_model_matches(slot: Slot, values: Map<Seq<char>, ValueV>, fai: bool, m: ModelV)
    requires
        spec_write_slot(slot, values, fai) == Ok::<Option<ModelV>, WriteErrorV>(Some(m)),
    ensures
        spec_model_matches_slot(m, slot),
{
    let fp = spec_find_fixed(slot.params@, values);
    match slot.fixed_slot {
        Some(v) => {},
        None => {
            let sid = fp->Ok_0->Some_0;
            lemma_find_fixed_witness(slot.params@, values);
            assert(m.slot_id == sid->Some_0);
        },
    }
}

/// A found fixed constant names a descriptor of the slot, so its slot id
/// gate is one of the slot's own.
proof fn lemma_find_fixed_witness(ps: Seq<Param>, values: Map<Seq<char>, ValueV>)
    ensures
        spec_find_fixed(ps, values) matches Ok(Some(sid)) ==> exists|i: int|
            0 <= i < ps.len() && ((#[trigger] ps[i]) matches Param::FixedParam {
                slot_id: s,
                ..
            } && s == sid),
    decreases ps.len(),
{
    if ps.len() > 0 {
        lemma_find_fixed_witness(ps.drop_first(), values);
        let r = spec_find_fixed(ps, values);
        if r is Ok && r->Ok_0 is Some {
            let sid = r->Ok_0->Some_0;
            if ps[0] matches Param::FixedParam { name, param_value, param_type, slot_id }
                && values.dom().contains(name@) && param_type == ParamType::Int
                && values[name@].spec_to_u32() == Some(param_value) {
                assert(ps[0] matches Param::FixedParam { slot_id: s, .. } && s == sid);
            } else {
                assert(spec_find_fixed(ps.drop_first(), values) == spec_find_fixed(ps, values));
                let i = choose|i: int|
                    0 <= i < ps.drop_first().len() && ((#[trigger] ps.drop_first()[i]) matches
                    Param::FixedParam { slot_id: s, .. } && s == sid);
                assert(ps[i + 1] == ps.drop_first()[i]);
            }
        }
    }
}

/// The write-side conversion round-trips through the read-side rule
/// exactly: every representable value comes back as itself.
pub proof fn lemma_value_conversion_round_trip(v: ValueV, pt: ParamType, fai: bool)
    requires
        spec_value_to_l6(v, pt, fai) is Some,
    ensures
        spec_value_from_l6(spec_value_to_l6(v, pt, fai)->Some_0, pt, fai) == Some(v),
{
}

/// Building parameters only appends: the result is the accumulator plus
/// what an empty start would build.
proof fn lemma_build_params_acc(ps: Seq<Param>, values: Map<Seq<char>, ValueV>, fai: bool, acc: Seq<ModelParam>)
    ensures
        spec_build_params(ps, values, fai, acc) matches Ok(out) ==> (spec_build_params(
            ps,
            values,
            fai,
            Seq::empty(),
        ) matches Ok(tail) && out == acc + tail),
        spec_build_params(ps, values, fai, acc) is Err ==> spec_build_params(
            ps,
            values,
            fai,
            Seq::empty(),
        ) == spec_build_params(ps, values, fai, acc),
    decreases ps.len(),
{
    if ps.len() == 0 {
        if spec_build_params(ps, values, fai, acc) is Ok {
            let out = spec_build_params(ps, values, fai, acc)->Ok_0;
            assert(out =~= acc + Seq::<ModelParam>::empty());
        }
    } else {
        match ps[0] {
            Param::IgnoreParam { param_id, param_type } => {
                let e = ModelParam { param_id, value: spec_zero_of(param_type) };
                assert(Seq::<ModelParam>::empty().push(e) =~= seq![e]);
                lemma_build_params_acc(ps.drop_first(), values, fai, acc.push(e));
                lemma_build_params_acc(ps.drop_first(), values, fai, seq![e]);
                lemma_build_params_acc(ps.drop_first(), values, fai, Seq::empty());
                if spec_build_params(ps.drop_first(), values, fai, acc.push(e)) is Ok {
                    let out = spec_build_params(ps.drop_first(), values, fai, acc.push(e))->Ok_0;
                    let tail0 = spec_build_params(ps.drop_first(), values, fai, Seq::empty())->Ok_0;
                    assert(out == acc.push(e) + tail0);
                    assert(seq![e] + tail0 =~= Seq::<ModelParam>::empty() + (seq![e] + tail0));
                    assert(acc.push(e) + tail0 =~= acc + (seq![e] + tail0));
                    assert(spec_build_params(ps, values, fai, Seq::empty()) == Ok::<
                        Seq<ModelParam>,
                        WriteErrorV,
                    >(Seq::<ModelParam>::empty().push(e) + tail0));
                    assert(Seq::<ModelParam>::empty().push(e) + tail0 =~= seq![e] + tail0);
                }
            },
            Param::Param { name, param_id, param_type } => {
                if values.dom().contains(name@) && spec_value_to_l6(values[name@], param_type, fai)
                    is Some {
                    let e = ModelParam {
                        param_id,
                        value: spec_value_to_l6(values[name@], param_type, fai)->Some_0,
                    };
                    assert(Seq::<ModelParam>::empty().push(e) =~= seq![e]);
                    lemma_build_params_acc(ps.drop_first(), values, fai, acc.push(e));
                    lemma_build_params_acc(ps.drop_first(), values, fai, seq![e]);
                    lemma_build_params_acc(ps.drop_first(), values, fai, Seq::empty());
                    if spec_build_params(ps.drop_first(), values, fai, acc.push(e)) is Ok {
                        let out = spec_build_params(ps.drop_first(), values, fai, acc.push(e))->Ok_0;
                        let tail0 = spec_build_params(
                            ps.drop_first(),
                            values,
                            fai,
                            Seq::empty(),
                        )->Ok_0;
                        assert(out == acc.push(e) + tail0);
                        assert(acc.push(e) + tail0 =~= acc + (seq![e] + tail0));
                        assert(spec_build_params(ps, values, fai, Seq::empty()) == Ok::<
                            Seq<ModelParam>,
                            WriteErrorV,
                        >(Seq::<ModelParam>::empty().push(e) + tail0));
                        assert(Seq::<ModelParam>::empty().push(e) + tail0 =~= seq![e] + tail0);
                    }
                }
            },
            _ => {
                lemma_build_params_acc(ps.drop_first(), values, fai, acc);
            },
        }
    }
}

/// Finding an id in a concatenation searches the halves in order.
proof fn lemma_find_param_concat(a: Seq<ModelParam>, b: Seq<ModelParam>, id: u32)
    ensures
        spec_find_param(a + b, id) == (match spec_find_param(a, id) {
            Some(e) => Some(e),
            None => spec_find_param(b, id),
        }),
    decreases a.len(),
{
    if a.len() == 0 {
        assert(a + b =~= b);
    } else {
        assert((a + b)[0] == a[0]);
        assert((a + b).drop_first() =~= a.drop_first() + b);
        lemma_find_param_concat(a.drop_first(), b, id);
    }
}

/// The entry built for one declared parameter is the one its id finds
/// back: with distinct ids, the first record with that id carries the
/// converted stored value.
proof fn lemma_build_params_find(
    ps: Seq<Param>,
    values: Map<Seq<char>, ValueV>,
    fai: bool,
    t: int,
)
    requires
        0 <= t < ps.len(),
        ps[t] is Param,
        ids_distinct(ps),
        spec_build_params(ps, values, fai, Seq::empty()) is Ok,
    ensures
        ({
            let name = ps[t]->Param_name;
            let id = ps[t]->Param_param_id;
            let pt = ps[t]->Param_param_type;
            let out = spec_build_params(ps, values, fai, Seq::empty())->Ok_0;
            &&& values.dom().contains(name@)
            &&& spec_value_to_l6(values[name@], pt, fai) is Some
            &&& spec_find_param(out, id) == Some(
                ModelParam { param_id: id, value: spec_value_to_l6(values[name@], pt, fai)->Some_0 },
            )
        }),
    decreases ps.len(),
{
    let name = ps[t]->Param_name;
    let id = ps[t]->Param_param_id;
    let pt = ps[t]->Param_param_type;
    let rest = ps.drop_first();
    assert(ids_distinct(rest)) by {
        assert(forall|i: int| 0 <= i < rest.len() ==> (#[trigger] rest[i]) == ps[i + 1]);
    }
    if t == 0 {
        assert(values.dom().contains(name@));
        assert(spec_value_to_l6(values[name@], pt, fai) is Some);
        let e = ModelParam { param_id: id, value: spec_value_to_l6(values[name@], pt, fai)->Some_0 };
        lemma_build_params_acc(rest, values, fai, seq![e]);
        let tail0 = spec_build_params(rest, values, fai, Seq::empty())->Ok_0;
        let out = spec_build_params(ps, values, fai, Seq::empty())->Ok_0;
        assert(out == seq![e] + tail0);
        lemma_find_param_concat(seq![e], tail0, id);
        assert(seq![e].drop_first() =~= Seq::<ModelParam>::empty());
        assert(spec_find_param(seq![e], id) == Some(e));
    } else {
        match ps[0] {
            Param::IgnoreParam { param_id: id0, param_type: pt0 } => {
                let e0 = ModelParam { param_id: id0, value: spec_zero_of(pt0) };
                lemma_build_params_acc(rest, values, fai, seq![e0]);
                assert(rest[t - 1] == ps[t]);
                lemma_build_params_find(rest, values, fai, t - 1);
                let tail0 = spec_build_params(rest, values, fai, Seq::empty())->Ok_0;
                let out = spec_build_params(ps, values, fai, Seq::empty())->Ok_0;
                assert(out == seq![e0] + tail0);
                lemma_find_param_concat(seq![e0], tail0, id);
                assert(descriptor_id(ps[0]) != descriptor_id(ps[t]));
                assert(id0 != id);
                assert(seq![e0].drop_first() =~= Seq::<ModelParam>::empty());
                assert(seq![e0][0] == e0);
                assert(spec_find_param(Seq::<ModelParam>::empty(), id) is None);
                assert(spec_find_param(seq![e0], id) is None);
            },
            Param::Param { name: n0, param_id: id0, param_type: pt0 } => {
                assert(values.dom().contains(n0@));
                assert(spec_value_to_l6(values[n0@], pt0, fai) is Some);
                let e0 = ModelParam {
                    param_id: id0,
                    value: spec_value_to_l6(values[n0@], pt0, fai)->Some_0,
                };
                lemma_build_params_acc(rest, values, fai, seq![e0]);
                assert(rest[t - 1] == ps[t]);
                lemma_build_params_find(rest, values, fai, t - 1);
                let tail0 = spec_build_params(rest, values, fai, Seq::empty())->Ok_0;
                let out = spec_build_params(ps, values, fai, Seq::empty())->Ok_0;
                assert(out == seq![e0] + tail0);
                lemma_find_param_concat(seq![e0], tail0, id);
                assert(descriptor_id(ps[0]) != descriptor_id(ps[t]));
                assert(id0 != id);
                assert(seq![e0].drop_first() =~= Seq::<ModelParam>::empty());
                assert(seq![e0][0] == e0);
                assert(spec_find_param(Seq::<ModelParam>::empty(), id) is None);
                assert(spec_find_param(seq![e0], id) is None);
            },
            _ => {
                assert(rest[t - 1] == ps[t]);
                lemma_build_params_find(rest, values, fai, t - 1);
            },
        }
    }
}

/// Reading descriptors composes over concatenation.
proof fn lemma_fold_params_concat(
    a: Seq<Param>,
    b: Seq<Param>,
    m: ModelV,
    fai: bool,
    st: ParamFold,
)
    ensures
        spec_fold_params(a + b, m, fai, st) == spec_fold_params(
            b,
            m,
            fai,
            spec_fold_params(a, m, fai, st),
        ),
    decreases a.len(),
{
    if a.len() == 0 {
        assert(a + b =~= b);
    } else {
        assert((a + b)[0] == a[0]);
        assert((a + b).drop_first() =~= a.drop_first() + b);
        lemma_fold_params_concat(a.drop_first(), b, m, fai, spec_param_step(a[0], m, fai, st));
    }
}

/// A name no descriptor declares keeps its binding through the walk.
proof fn lemma_fold_params_preserves(
    ps: Seq<Param>,
    m: ModelV,
    fai: bool,
    st: ParamFold,
    n: Seq<char>,
)
    requires
        forall|i: int| 0 <= i < ps.len() ==> descriptor_name(#[trigger] ps[i]) != Some(n),
        st.map.dom().contains(n),
    ensures
        spec_fold_params(ps, m, fai, st).map.dom().contains(n),
        spec_fold_params(ps, m, fai, st).map[n] == st.map[n],
    decreases ps.len(),
{
    if ps.len() > 0 {
        let st2 = spec_param_step(ps[0], m, fai, st);
        assert(descriptor_name(ps[0]) != Some(n));
        assert(st2.map.dom().contains(n) && st2.map[n] == st.map[n]);
        assert(forall|i: int|
            0 <= i < ps.drop_first().len() ==> descriptor_name(#[trigger] ps.drop_first()[i])
                != Some(n)) by {
            assert(forall|i: int|
                0 <= i < ps.drop_first().len() ==> (#[trigger] ps.drop_first()[i]) == ps[i + 1]);
        }
        lemma_fold_params_preserves(ps.drop_first(), m, fai, st2, n);
    }
}

/// Write-read round trip for one slot: a model written from stored values
/// gives every declared parameter's value back when read by the same
/// slot, for any map the read starts from, as long as the slot's
/// descriptors declare distinct names and distinct physical ids.
pub proof fn lemma_slot_write_read_round_trip(
    slot: Slot,
    values: Map<Seq<char>, ValueV>,
    fai: bool,
    m: ModelV,
    map0: Map<Seq<char>, ValueV>,
    t: int,
)
    requires
        spec_write_slot(slot, values, fai) == Ok::<Option<ModelV>, WriteErrorV>(Some(m)),
        names_distinct(slot.params@),
        ids_distinct(slot.params@),
        0 <= t < slot.params@.len(),
        slot.params@[t] is Param,
    ensures
        spec_model_matches_slot(m, slot),
        ({
            let n = slot.params@[t]->Param_name@;
            let pf = spec_fold_params(slot.params@, m, fai, empty_param_fold(map0));
            &&& values.dom().contains(n)
            &&& pf.map.dom().contains(n)
            &&& pf.map[n] == values[n]
        }),
{
    lemma_written_model_matches(slot, values, fai, m);
    let ps = slot.params@;
    let n = ps[t]->Param_name@;
    let id = ps[t]->Param_param_id;
    let pt = ps[t]->Param_param_type;
    lemma_build_params_find(ps, values, fai, t);
    let lv = spec_value_to_l6(values[n], pt, fai)->Some_0;
    assert(m.params == spec_build_params(ps, values, fai, Seq::empty())->Ok_0);
    assert(spec_find_param(m.params, id) == Some(ModelParam { param_id: id, value: lv }));
    lemma_value_conversion_round_trip(values[n], pt, fai);
    // split the walk at the declared parameter
    let prefix = ps.take(t);
    let pivot = seq![ps[t]];
    let suffix = ps.skip(t + 1);
    assert(prefix + pivot =~= ps.take(t + 1));
    assert(ps.take(t + 1) + suffix =~= ps);
    let st1 = spec_fold_params(prefix, m, fai, empty_param_fold(map0));
    lemma_fold_params_concat(ps.take(t + 1), suffix, m, fai, empty_param_fold(map0));
    lemma_fold_params_concat(prefix, pivot, m, fai, empty_param_fold(map0));
    let st2 = spec_fold_params(pivot, m, fai, st1);
    assert(pivot.drop_first() =~= Seq::<Param>::empty());
    assert(pivot[0] == ps[t]);
    assert(spec_fold_params(
        Seq::<Param>::empty(),
        m,
        fai,
        spec_param_step(ps[t], m, fai, st1),
    ) == spec_param_step(ps[t], m, fai, st1));
    assert(st2 == spec_param_step(ps[t], m, fai, st1));
    assert(st2.map.dom().contains(n) && st2.map[n] == values[n]);
    assert(forall|i: int|
        0 <= i < suffix.len() ==> descriptor_name(#[trigger] suffix[i]) != Some(n)) by {
        assert(forall|i: int| 0 <= i < suffix.len() ==> (#[trigger] suffix[i]) == ps[i + t + 1]);
        assert forall|i: int|
            0 <= i < suffix.len() implies descriptor_name(#[trigger] suffix[i]) != Some(n) by {
            assert(suffix[i] == ps[i + t + 1]);
            if descriptor_name(ps[i + t + 1]) is Some {
                assert(descriptor_name(ps[t]) != descriptor_name(ps[i + t + 1]));
            }
        }
    }
    lemma_fold_params_preserves(suffix, m, fai, st2, n);
    assert(spec_fold_params(ps, m, fai, empty_param_fold(map0)) == spec_fold_params(
        suffix,
        m,
        fai,
        st2,
    ));
}

} // verus!

verus! {

/// Write-read round trip through the whole engine, for a schema of one
/// slot: a patch written from stored values reads back to a map that
/// agrees with the stored values on every name the schema declares as a
/// parameter.  The slot's descriptors must declare distinct names and
/// distinct physical ids, as every shipped schema does.
pub proof fn lemma_write_read_values_round_trip(
    gs: Seq<Group>,
    values: Map<Seq<char>, ValueV>,
    fai: bool,
    m: ModelV,
    t: int,
)
    requires
        gs.len() == 1,
        gs[0].slots@.len() == 1,
        spec_write_slot(gs[0].slots@[0], values, fai) == Ok::<Option<ModelV>, WriteErrorV>(
            Some(m),
        ),
        names_distinct(gs[0].slots@[0].params@),
        ids_distinct(gs[0].slots@[0].params@),
        0 <= t < gs[0].slots@[0].params@.len(),
        gs[0].slots@[0].params@[t] is Param,
    ensures
        spec_write_values(values, gs, fai) == Ok::<Seq<ModelV>, WriteErrorV>(seq![m]),
        ({
            let n = gs[0].slots@[0].params@[t]->Param_name@;
            let read = spec_read_values(seq![m], gs, fai).0;
            &&& values.dom().contains(n)
            &&& read.dom().contains(n)
            &&& read[n] == values[n]
        }),
{
    let slot = gs[0].slots@[0];
    let ss = gs[0].slots@;
    // the write side emits exactly the one model
    assert(ss =~= seq![slot]);
    assert(ss.drop_first() =~= Seq::<Slot>::empty());
    assert(spec_write_slots(Seq::<Slot>::empty(), values, fai, seq![m]) == Ok::<
        Seq<ModelV>,
        WriteErrorV,
    >(seq![m]));
    assert(Seq::<ModelV>::empty().push(m) =~= seq![m]);
    assert(spec_write_slots(ss, values, fai, Seq::empty()) == Ok::<Seq<ModelV>, WriteErrorV>(
        seq![m],
    ));
    assert(gs.drop_first() =~= Seq::<Group>::empty());
    assert(spec_write_groups(Seq::<Group>::empty(), values, fai, seq![m]) == Ok::<
        Seq<ModelV>,
        WriteErrorV,
    >(seq![m]));
    assert(spec_write_values(values, gs, fai) == Ok::<Seq<ModelV>, WriteErrorV>(seq![m]));
    // the written model matches its own slot, so the read walk finds it
    lemma_slot_write_read_round_trip(slot, values, fai, m, Map::empty(), t);
    assert(seq![m][0] == m);
    assert(spec_find_model(seq![m], slot) == Some(0int));
    let st0 = empty_read_fold();
    let st1 = spec_fold_slot(slot, seq![m], fai, st0);
    let pf = spec_fold_params(slot.params@, m, fai, empty_param_fold(st0.map));
    assert(st1.map == pf.map);
    assert(spec_fold_slots(ss.drop_first(), seq![m], fai, st1) == st1);
    assert(spec_fold_slots(ss, seq![m], fai, st0) == st1);
    assert(spec_fold_groups(gs.drop_first(), seq![m], fai, st1) == st1);
    assert(spec_fold_groups(gs, seq![m], fai, st0) == st1);
    assert(spec_read_values(seq![m], gs, fai).0 == st1.map);
}

} // verus!

verus! {

/// A list of physical ids, each spelled `0x` and hexadecimal, joined with
/// a comma and a space.
pub open spec fn spec_hex_id_list(ids: Seq<u32>) -> Seq<char>
    decreases ids.len(),
{
    if ids.len() == 0 {
        Seq::empty()
    } else if ids.len() == 1 {
        "0x"@ + crate::text::hex_string(ids[0] as int)
    } else {
        "0x"@ + crate::text::hex_string(ids[0] as int) + ", "@ + spec_hex_id_list(
            ids.drop_first(),
        )
    }
}

/// The error line's common head: the slot id, model id and ordinal of the
/// model in question.
pub open spec fn spec_error_head(slot_id: u32, model_id: u32, ordinal: u8) -> Seq<char> {
    "Slot 0x"@ + crate::text::hex_padded(slot_id as int, 2) + " model=0x"@
        + crate::text::hex_padded(model_id as int, 6) + " ordinal="@ + crate::text::dec_string(
        ordinal as int,
    )
}

/// What `ReadError::message` spells.
pub open spec fn spec_error_message(e: ReadErrorV) -> Seq<char> {
    match e {
        ReadErrorV::MissingParams { slot_id, model_id, ordinal, params } => spec_error_head(
            slot_id,
            model_id,
            ordinal,
        ) + " missing params: "@ + spec_hex_id_list(params),
        ReadErrorV::InvalidParams { slot_id, model_id, ordinal, params } => spec_error_head(
            slot_id,
            model_id,
            ordinal,
        ) + " params with invalid format: "@ + spec_hex_id_list(params),
        ReadErrorV::UnprocessedParams { slot_id, model_id, ordinal, params } => spec_error_head(
            slot_id,
            model_id,
            ordinal,
        ) + " unprocessed params: "@ + spec_hex_id_list(params),
        ReadErrorV::UnprocessedModel { slot_id, model_id, ordinal } => spec_error_head(
            slot_id,
            model_id,
            ordinal,
        ) + " unprocessed"@,
    }
}

proof fn lemma_hex_id_list_push(ids: Seq<u32>, x: u32)
    ensures
        spec_hex_id_list(ids.push(x)) == (if ids.len() == 0 {
            "0x"@ + crate::text::hex_string(x as int)
        } else {
            spec_hex_id_list(ids) + ", "@ + "0x"@ + crate::text::hex_string(x as int)
        }),
    decreases ids.len(),
{
    if ids.len() == 0 {
        assert(ids.push(x)[0] == x);
        assert(spec_hex_id_list(ids.push(x)) =~= "0x"@ + crate::text::hex_string(x as int));
    } else {
        assert(ids.push(x).drop_first() =~= ids.drop_first().push(x));
        assert(ids.push(x)[0] == ids[0]);
        lemma_hex_id_list_push(ids.drop_first(), x);
        if ids.len() == 1 {
            assert(ids.drop_first().len() == 0);
            assert(spec_hex_id_list(ids.push(x)) =~= spec_hex_id_list(ids) + ", "@ + "0x"@
                + crate::text::hex_string(x as int));
        } else {
            assert(spec_hex_id_list(ids.push(x)) =~= spec_hex_id_list(ids) + ", "@ + "0x"@
                + crate::text::hex_string(x as int));
        }
    }
}

fn format_hex_id_list(ids: &Vec<u32>) -> (r: String)
    ensures
        r@ == spec_hex_id_list(ids@),
{
    let mut s = String::new();
    let n = ids.len();
    let mut i: usize = 0;
    proof {
        assert(ids@.take(0) =~= Seq::<u32>::empty());
        assert(s@ =~= spec_hex_id_list(ids@.take(0)));
    }
    while i < n
        invariant
            i <= n,
            n == ids@.len(),
            s@ == spec_hex_id_list(ids@.take(i as int)),
        decreases n - i,
    {
        if i > 0 {
            s.append(", ");
        }
        s.append("0x");
        let h = crate::text::format_hex(ids[i] as usize);
        s.append(h.as_str());
        proof {
            assert(ids@.take(i + 1) =~= ids@.take(i as int).push(ids@[i as int]));
            lemma_hex_id_list_push(ids@.take(i as int), ids@[i as int]);
            assert(s@ =~= spec_hex_id_list(ids@.take(i + 1)));
        }
        i = i + 1;
    }
    proof {
        assert(ids@.take(n as int) =~= ids@);
    }
    s
}

fn format_error_head(slot_id: u32, model_id: u32, ordinal: u8) -> (r: String)
    ensures
        r@ == spec_error_head(slot_id, model_id, ordinal),
{
    let mut s = String::new();
    s.append("Slot 0x");
    let h = crate::text::format_hex_padded(slot_id as usize, 2);
    s.append(h.as_str());
    s.append(" model=0x");
    let h = crate::text::format_hex_padded(model_id as usize, 6);
    s.append(h.as_str());
    s.append(" ordinal=");
    let d = crate::text::format_decimal(ordinal as usize);
    s.append(d.as_str());
    proof {
        assert(s@ =~= spec_error_head(slot_id, model_id, ordinal));
    }
    s
}

impl ReadError {
    /// The error as one line of text, naming the model and the ids in
    /// question.
    pub fn message(&self) -> (r: String)
        ensures
            r@ == spec_error_message(self@),
    {
        match self {
            ReadError::MissingParams { slot_id, model_id, ordinal, params } => {
                let mut s = format_error_head(*slot_id, *model_id, *ordinal);
                s.append(" missing params: ");
                let l = format_hex_id_list(params);
                s.append(l.as_str());
                proof {
                    assert(s@ =~= spec_error_message(self@));
                }
                s
            },
            ReadError::InvalidParams { slot_id, model_id, ordinal, params } => {
                let mut s = format_error_head(*slot_id, *model_id, *ordinal);
                s.append(" params with invalid format: ");
                let l = format_hex_id_list(params);
                s.append(l.as_str());
                proof {
                    assert(s@ =~= spec_error_message(self@));
                }
                s
            },
            ReadError::UnprocessedParams { slot_id, model_id, ordinal, params } => {
                let mut s = format_error_head(*slot_id, *model_id, *ordinal);
                s.append(" unprocessed params: ");
                let l = format_hex_id_list(params);
                s.append(l.as_str());
                proof {
                    assert(s@ =~= spec_error_message(self@));
                }
                s
            },
            ReadError::UnprocessedModel { slot_id, model_id, ordinal } => {
                let mut s = format_error_head(*slot_id, *model_id, *ordinal);
                s.append(" unprocessed");
                proof {
                    assert(s@ =~= spec_error_message(self@));
                }
                s
            },
        }
    }
}

} // verus!
