//! Display conversion and formatting rules paired with raw values.
//!
//! A rich value is a raw value plus a declared conversion (linear or
//! piecewise-linear) and a formatting rule.  Conversions are declared over
//! IEEE-754 bit patterns and computed by the presentation layer; the
//! integer lookup tables, which need no float arithmetic, are rendered
//! here and verified exactly.

use vstd::prelude::*;

use crate::value::{Value, ValueMap, ValueType, ValueV};

verus! {

/// How a converted value is rendered.  Lookup tables map numeric keys to
/// labels.
#[derive(Debug)]
pub enum FormattingType {
    Simple,
    IntLookup(Vec<(u32, String)>),
    FloatLookup(Vec<(u32, String)>),
    Percent,
    Millis(usize),
    Hertz,
    Decibel(usize),
    BPM,
}

/// The mathematical model of a `FormattingType`.
#[verifier::ext_equal]
pub enum FormattingTypeV {
    Simple,
    IntLookup(Seq<(u32, Seq<char>)>),
    FloatLookup(Seq<(u32, Seq<char>)>),
    Percent,
    Millis(usize),
    Hertz,
    Decibel(usize),
    BPM,
}

pub open spec fn table_view(t: Seq<(u32, String)>) -> Seq<(u32, Seq<char>)> {
    t.map_values(|e: (u32, String)| (e.0, e.1@))
}

impl View for FormattingType {
    type V = FormattingTypeV;

    open spec fn view(&self) -> FormattingTypeV {
        match self {
            FormattingType::Simple => FormattingTypeV::Simple,
            FormattingType::IntLookup(t) => FormattingTypeV::IntLookup(table_view(t@)),
            FormattingType::FloatLookup(t) => FormattingTypeV::FloatLookup(table_view(t@)),
            FormattingType::Percent => FormattingTypeV::Percent,
            FormattingType::Millis(d) => FormattingTypeV::Millis(*d),
            FormattingType::Hertz => FormattingTypeV::Hertz,
            FormattingType::Decibel(d) => FormattingTypeV::Decibel(*d),
            FormattingType::BPM => FormattingTypeV::BPM,
        }
    }
}

impl FormattingType {
    /// A copy of this rule.
    pub fn dup(&self) -> (r: FormattingType)
        ensures
            r@ == self@,
    {
        match self {
            FormattingType::Simple => FormattingType::Simple,
            FormattingType::IntLookup(t) => FormattingType::IntLookup(dup_table(t)),
            FormattingType::FloatLookup(t) => FormattingType::FloatLookup(dup_table(t)),
            FormattingType::Percent => FormattingType::Percent,
            FormattingType::Millis(d) => FormattingType::Millis(*d),
            FormattingType::Hertz => FormattingType::Hertz,
            FormattingType::Decibel(d) => FormattingType::Decibel(*d),
            FormattingType::BPM => FormattingType::BPM,
        }
    }
}

fn dup_table(t: &Vec<(u32, String)>) -> (r: Vec<(u32, String)>)
    ensures
        table_view(r@) == table_view(t@),
{
    let mut out: Vec<(u32, String)> = Vec::new();
    let n = t.len();
    let mut i: usize = 0;
    while i < n
        invariant
            i <= n,
            n == t@.len(),
            out@.len() == i,
            forall|j: int|
                0 <= j < i ==> (#[trigger] out@[j]).0 == t@[j].0 && out@[j].1@ == t@[j].1@,
        decreases n - i,
    {
        let e = &t[i];
        out.push((e.0, e.1.clone()));
        i = i + 1;
    }
    proof {
        assert(table_view(out@) =~= table_view(t@));
    }
    out
}

/// The declared range of a value, as raw IEEE-754 bit patterns.
#[derive(Clone, Copy, Debug, PartialEq, Eq, Structural)]
pub struct Range {
    pub min: u32,
    pub max: u32,
}

/// A declared unit conversion, over raw IEEE-754 bit patterns: linear
/// `k * (a + x) + b`, or piecewise-linear interpolation over break points.
#[derive(Debug)]
pub enum Conversion {
    Linear { k: u32, a: u32, b: u32 },
    Interpolate { points: Vec<(u32, u32)> },
}

/// The mathematical model of a `Conversion`.
#[verifier::ext_equal]
pub enum ConversionV {
    Linear { k: u32, a: u32, b: u32 },
    Interpolate { points: Seq<(u32, u32)> },
}

impl View for Conversion {
    type V = ConversionV;

    open spec fn view(&self) -> ConversionV {
        match self {
            Conversion::Linear { k, a, b } => ConversionV::Linear { k: *k, a: *a, b: *b },
            Conversion::Interpolate { points } => ConversionV::Interpolate { points: points@ },
        }
    }
}

impl Conversion {
    /// A copy of this conversion.
    pub fn dup(&self) -> (r: Conversion)
        ensures
            r@ == self@,
    {
        match self {
            Conversion::Linear { k, a, b } => Conversion::Linear { k: *k, a: *a, b: *b },
            Conversion::Interpolate { points } => {
                let mut out: Vec<(u32, u32)> = Vec::new();
                let n = points.len();
                let mut i: usize = 0;
                while i < n
                    invariant
                        i <= n,
                        n == points@.len(),
                        out@ == points@.take(i as int),
                    decreases n - i,
                {
                    out.push(points[i]);
                    proof {
                        assert(out@ =~= points@.take(i + 1));
                    }
                    i = i + 1;
                }
                proof {
                    assert(points@.take(n as int) =~= points@);
                }
                Conversion::Interpolate { points: out }
            },
        }
    }
}

/// The declared display rule of one named value.
#[derive(Debug)]
pub struct ValueInfo {
    pub formatting_type: FormattingType,
    pub range: Option<Range>,
    pub conversion: Option<Conversion>,
}

/// The mathematical model of a `ValueInfo`.
#[verifier::ext_equal]
pub struct ValueInfoV {
    pub formatting_type: FormattingTypeV,
    pub range: Option<Range>,
    pub conversion: Option<ConversionV>,
}

impl View for ValueInfo {
    type V = ValueInfoV;

    open spec fn view(&self) -> ValueInfoV {
        ValueInfoV {
            formatting_type: self.formatting_type@,
            range: self.range,
            conversion: match self.conversion {
                Some(ref c) => Some(c@),
                None => None,
            },
        }
    }
}

impl ValueInfo {
    /// A copy of this rule.
    pub fn dup(&self) -> (r: ValueInfo)
        ensures
            r@ == self@,
    {
        ValueInfo {
            formatting_type: self.formatting_type.dup(),
            range: self.range,
            conversion: match &self.conversion {
                Some(c) => Some(c.dup()),
                None => None,
            },
        }
    }
}

/// A map from logical names to display rules.
pub struct ValueInfoMap {
    entries: Vec<(String, ValueInfo)>,
}

pub open spec fn info_entries_map(s: Seq<(String, ValueInfo)>) -> Map<Seq<char>, ValueInfoV>
    decreases s.len(),
{
    if s.len() == 0 {
        Map::empty()
    } else {
        info_entries_map(s.drop_last()).insert(s.last().0@, s.last().1@)
    }
}

pub open spec fn info_entries_unique(s: Seq<(String, ValueInfo)>) -> bool {
    forall|i: int, j: int| 0 <= i < j < s.len() ==> (#[trigger] s[i]).0@ != (#[trigger] s[j]).0@
}

impl View for ValueInfoMap {
    type V = Map<Seq<char>, ValueInfoV>;

    closed spec fn view(&self) -> Map<Seq<char>, ValueInfoV> {
        info_entries_map(self.entries@)
    }
}

proof fn lemma_info_entries_map_lookup(s: Seq<(String, ValueInfo)>, i: int)
    requires
        info_entries_unique(s),
        0 <= i < s.len(),
    ensures
        info_entries_map(s).dom().contains(s[i].0@),
        info_entries_map(s)[s[i].0@] == s[i].1@,
    decreases s.len(),
{
    if i < s.len() - 1 {
        assert(s.drop_last()[i] == s[i]);
        assert(info_entries_unique(s.drop_last())) by {
            assert(forall|x: int, y: int|
                0 <= x < y < s.len() - 1 ==> (#[trigger] s.drop_last()[x]) == s[x]
                    && (#[trigger] s.drop_last()[y]) == s[y]);
        }
        lemma_info_entries_map_lookup(s.drop_last(), i);
        assert(s[i].0@ != s.last().0@);
    }
}

proof fn lemma_info_entries_map_dom(s: Seq<(String, ValueInfo)>, k: Seq<char>)
    requires
        info_entries_map(s).dom().contains(k),
    ensures
        exists|i: int| 0 <= i < s.len() && (#[trigger] s[i]).0@ == k,
    decreases s.len(),
{
    if s.len() > 0 {
        if s.last().0@ == k {
            assert(s[s.len() - 1].0@ == k);
        } else {
            lemma_info_entries_map_dom(s.drop_last(), k);
            let i = choose|i: int|
                0 <= i < s.drop_last().len() && (#[trigger] s.drop_last()[i]).0@ == k;
            assert(s[i].0@ == k);
        }
    }
}

impl ValueInfoMap {
    pub closed spec fn wf(&self) -> bool {
        info_entries_unique(self.entries@)
    }

    /// An empty map.
    pub fn new() -> (r: ValueInfoMap)
        ensures
            r@ == Map::<Seq<char>, ValueInfoV>::empty(),
            r.wf(),
    {
        ValueInfoMap { entries: Vec::new() }
    }

    /// Binds a name to a display rule; an existing binding stays.
    pub fn insert(&mut self, name: String, info: ValueInfo)
        requires
            old(self).wf(),
        ensures
            final(self).wf(),
            final(self)@ == (if old(self)@.dom().contains(name@) {
                old(self)@
            } else {
                old(self)@.insert(name@, info@)
            }),
    {
        let n = self.entries.len();
        let mut i: usize = 0;
        while i < n
            invariant
                i <= n,
                n == self.entries@.len(),
                *self == *old(self),
                self.wf(),
                forall|j: int| 0 <= j < i ==> (#[trigger] self.entries@[j]).0@ != name@,
            decreases n - i,
        {
            let hit = {
                let e = &self.entries[i];
                crate::value::string_eq(&e.0, &name)
            };
            if hit {
                proof {
                    lemma_info_entries_map_lookup(self.entries@, i as int);
                }
                return ;
            }
            i = i + 1;
        }
        proof {
            if self@.dom().contains(name@) {
                lemma_info_entries_map_dom(self.entries@, name@);
            }
        }
        let ghost prev = self.entries@;
        self.entries.push((name, info));
        proof {
            assert(self.entries@.drop_last() =~= prev);
            assert(info_entries_unique(self.entries@)) by {
                assert(forall|x: int|
                    0 <= x < prev.len() ==> (#[trigger] self.entries@[x]) == prev[x]);
            }
        }
    }

    /// The display rule bound to a name, if any.
    pub fn get(&self, name: &str) -> (r: Option<&ValueInfo>)
        requires
            self.wf(),
        ensures
            match r {
                Some(v) => self@.dom().contains(name@) && v@ == self@[name@],
                None => !self@.dom().contains(name@),
            },
    {
        let n = self.entries.len();
        let mut i: usize = 0;
        while i < n
            invariant
                i <= n,
                n == self.entries@.len(),
                self.wf(),
                forall|j: int| 0 <= j < i ==> (#[trigger] self.entries@[j]).0@ != name@,
            decreases n - i,
        {
            let hit = {
                let e = &self.entries[i];
                crate::value::str_eq_string(name, &e.0)
            };
            if hit {
                proof {
                    lemma_info_entries_map_lookup(self.entries@, i as int);
                }
                return Some(&self.entries[i].1);
            }
            i = i + 1;
        }
        proof {
            if self@.dom().contains(name@) {
                lemma_info_entries_map_dom(self.entries@, name@);
            }
        }
        None
    }
}

/// A raw value paired with its display rule.
#[derive(Debug)]
pub struct RichValue {
    value: Value,
    formatting_type: FormattingType,
    range: Option<Range>,
    pub conversion: Option<Conversion>,
}

/// The mathematical model of a `RichValue`.
#[verifier::ext_equal]
pub struct RichValueV {
    pub value: ValueV,
    pub formatting_type: FormattingTypeV,
    pub range: Option<Range>,
    pub conversion: Option<ConversionV>,
}

impl View for RichValue {
    type V = RichValueV;

    closed spec fn view(&self) -> RichValueV {
        RichValueV {
            value: self.value@,
            formatting_type: self.formatting_type@,
            range: self.range,
            conversion: match self.conversion {
                Some(ref c) => Some(c@),
                None => None,
            },
        }
    }
}

impl RichValue {
    /// The raw value inside.
    pub fn get_simple(&self) -> (r: &Value)
        ensures
            r@ == self@.value,
    {
        &self.value
    }

    /// The declared formatting rule.
    pub fn get_format(&self) -> (r: &FormattingType)
        ensures
            r@ == self@.formatting_type,
    {
        &self.formatting_type
    }

    /// The declared range, as raw IEEE-754 bit patterns.
    pub fn get_range(&self) -> (r: Option<Range>)
        ensures
            r == self@.range,
    {
        self.range
    }

    /// The type of the raw value inside.
    pub fn get_simple_type(&self) -> (r: ValueType)
        ensures
            r == self@.value.spec_get_type(),
    {
        self.value.get_type()
    }

    /// Renders this value where no float arithmetic is involved: plain
    /// formatting of booleans, integers and strings, and integer lookup
    /// with no declared conversion.  Everything else — float formatting
    /// and converted lookups — needs float arithmetic and is left to the
    /// presentation layer, which returns `None` here.
    pub fn render_plain(&self) -> (r: Option<String>)
        ensures
            match r {
                Some(s) => spec_render_plain(self@) == Some(s@),
                None => spec_render_plain(self@) is None,
            },
    {
        match &self.formatting_type {
            FormattingType::Simple => match &self.value {
                Value::Bool(b) => {
                    let mut s = String::new();
                    if *b {
                        s.append("true");
                    } else {
                        s.append("false");
                    }
                    proof {
                        if self@.value matches ValueV::Bool(bb) && bb {
                            assert(Seq::<char>::empty() + "true"@ =~= "true"@);
                        } else {
                            assert(Seq::<char>::empty() + "false"@ =~= "false"@);
                        }
                    }
                    Some(s)
                },
                Value::Int(v) => Some(crate::text::format_decimal(*v as usize)),
                Value::Float(_) => None,
                Value::String(s) => Some(s.clone()),
            },
            FormattingType::IntLookup(table) => {
                if self.conversion.is_none() {
                    match &self.value {
                        Value::Int(v) => Some(lookup_int(table, *v)),
                        _ => None,
                    }
                } else {
                    None
                }
            },
            _ => None,
        }
    }
}

/// What `render_plain` gives: the cases a verified renderer can cover
/// without float arithmetic.
pub open spec fn spec_render_plain(r: RichValueV) -> Option<Seq<char>> {
    match r.formatting_type {
        FormattingTypeV::Simple => match r.value {
            ValueV::Bool(b) => Some(
                if b {
                    "true"@
                } else {
                    "false"@
                },
            ),
            ValueV::Int(v) => Some(crate::text::dec_string(v as int)),
            ValueV::Float(_) => None,
            ValueV::String(s) => Some(s),
        },
        FormattingTypeV::IntLookup(table) => {
            if r.conversion is None {
                match r.value {
                    ValueV::Int(v) => Some(spec_lookup_int(table, v)),
                    _ => None,
                }
            } else {
                None
            }
        },
        _ => None,
    }
}

/// Exact-match integer lookup: the label of the first entry whose key
/// equals the value, or a literal placeholder.
pub open spec fn spec_lookup_int(table: Seq<(u32, Seq<char>)>, key: u32) -> Seq<char>
    decreases table.len(),
{
    if table.len() == 0 {
        "???"@
    } else if table[0].0 == key {
        table[0].1
    } else {
        spec_lookup_int(table.drop_first(), key)
    }
}

/// Exact-match integer lookup over a label table.
pub fn lookup_int(table: &Vec<(u32, String)>, key: u32) -> (r: String)
    ensures
        r@ == spec_lookup_int(table_view(table@), key),
{
    let ghost tv = table_view(table@);
    let n = table.len();
    let mut i: usize = 0;
    proof {
        assert(tv.skip(0) =~= tv);
    }
    while i < n
        invariant
            i <= n,
            n == table@.len(),
            tv == table_view(table@),
            tv.len() == n,
            spec_lookup_int(tv, key) == spec_lookup_int(tv.skip(i as int), key),
        decreases n - i,
    {
        proof {
            assert(tv.skip(i as int)[0] == tv[i as int]);
            assert(tv.skip(i as int).drop_first() =~= tv.skip(i + 1));
        }
        if table[i].0 == key {
            return table[i].1.clone();
        }
        i = i + 1;
    }
    proof {
        assert(tv.skip(n as int) =~= Seq::<(u32, Seq<char>)>::empty());
    }
    let mut s = String::new();
    s.append("???");
    proof {
        assert(Seq::<char>::empty() + "???"@ =~= "???"@);
    }
    s
}

/// Tiered lookup: the label of the last entry before the first key above
/// the value, or a literal placeholder — rendering continuous ranges as
/// discrete tiers.
pub open spec fn spec_lookup_tier(table: Seq<(u32, Seq<char>)>, key: u32, cur: Seq<char>) -> Seq<
    char,
>
    decreases table.len(),
{
    if table.len() == 0 {
        cur
    } else if table[0].0 > key {
        cur
    } else {
        spec_lookup_tier(table.drop_first(), key, table[0].1)
    }
}

/// Tiered lookup over a label table.
pub fn lookup_tier(table: &Vec<(u32, String)>, key: u32) -> (r: String)
    ensures
        r@ == spec_lookup_tier(table_view(table@), key, "???"@),
{
    let ghost tv = table_view(table@);
    let mut cur = String::new();
    cur.append("???");
    proof {
        assert(Seq::<char>::empty() + "???"@ =~= "???"@);
        assert(tv.skip(0) =~= tv);
    }
    let n = table.len();
    let mut i: usize = 0;
    while i < n
        invariant
            i <= n,
            n == table@.len(),
            tv == table_view(table@),
            tv.len() == n,
            spec_lookup_tier(tv, key, "???"@) == spec_lookup_tier(
                tv.skip(i as int),
                key,
                cur@,
            ),
        decreases n - i,
    {
        proof {
            assert(tv.skip(i as int)[0] == tv[i as int]);
            assert(tv.skip(i as int).drop_first() =~= tv.skip(i + 1));
        }
        if table[i].0 > key {
            return cur;
        }
        cur = table[i].1.clone();
        i = i + 1;
    }
    proof {
        assert(tv.skip(n as int) =~= Seq::<(u32, Seq<char>)>::empty());
    }
    cur
}

/// A map from logical names to rich values, in insertion order.
pub struct RichValueMap {
    entries: Vec<(String, RichValue)>,
}

pub open spec fn rich_entries_map(s: Seq<(String, RichValue)>) -> Map<Seq<char>, RichValueV>
    decreases s.len(),
{
    if s.len() == 0 {
        Map::empty()
    } else {
        rich_entries_map(s.drop_last()).insert(s.last().0@, s.last().1@)
    }
}

impl View for RichValueMap {
    type V = Map<Seq<char>, RichValueV>;

    closed spec fn view(&self) -> Map<Seq<char>, RichValueV> {
        rich_entries_map(self.entries@)
    }
}

impl RichValueMap {
    /// The entries in insertion order.
    pub fn entries(&self) -> (r: &Vec<(String, RichValue)>)
        ensures
            rich_entries_map(r@) == self@,
    {
        &self.entries
    }

    /// The rich value bound to a name, if any.
    pub fn get(&self, name: &str) -> (r: Option<&RichValue>)
        ensures
            r matches Some(v) ==> self@.dom().contains(name@) && v@ == self@[name@],
            r is None ==> !self@.dom().contains(name@),
    {
        let n = self.entries.len();
        let mut i: usize = n;
        while i > 0
            invariant
                i <= n,
                n == self.entries@.len(),
                forall|j: int| i <= j < n ==> (#[trigger] self.entries@[j]).0@ != name@,
            decreases i,
        {
            i = i - 1;
            let hit = {
                let e = &self.entries[i];
                crate::value::str_eq_string(name, &e.0)
            };
            if hit {
                proof {
                    lemma_rich_entries_lookup(self.entries@, i as int, name@);
                }
                return Some(&self.entries[i].1);
            }
        }
        proof {
            if self@.dom().contains(name@) {
                lemma_rich_entries_dom(self.entries@, name@);
            }
        }
        None
    }
}

proof fn lemma_rich_entries_dom(s: Seq<(String, RichValue)>, k: Seq<char>)
    requires
        rich_entries_map(s).dom().contains(k),
    ensures
        exists|i: int| 0 <= i < s.len() && (#[trigger] s[i]).0@ == k,
    decreases s.len(),
{
    if s.len() > 0 {
        if s.last().0@ == k {
            assert(s[s.len() - 1].0@ == k);
        } else {
            lemma_rich_entries_dom(s.drop_last(), k);
            let i = choose|i: int|
                0 <= i < s.drop_last().len() && (#[trigger] s.drop_last()[i]).0@ == k;
            assert(s[i].0@ == k);
        }
    }
}

proof fn lemma_rich_entries_lookup(s: Seq<(String, RichValue)>, i: int, k: Seq<char>)
    requires
        0 <= i < s.len(),
        s[i].0@ == k,
        forall|j: int| i < j < s.len() ==> (#[trigger] s[j]).0@ != k,
    ensures
        rich_entries_map(s).dom().contains(k),
        rich_entries_map(s)[k] == s[i].1@,
    decreases s.len(),
{
    if i < s.len() - 1 {
        assert(s.drop_last()[i] == s[i]);
        assert(forall|j: int|
            i < j < s.len() - 1 ==> (#[trigger] s.drop_last()[j]) == s[j]);
        lemma_rich_entries_lookup(s.drop_last(), i, k);
        assert(s[s.len() - 1].0@ != k);
    }
}

/// Pairs every named value with its declared display rule; a name with no
/// rule falls back to plain formatting.
pub fn enrich_values(map: ValueMap, rich_type_map: &ValueInfoMap) -> (r: RichValueMap)
    requires
        map.wf(),
        rich_type_map.wf(),
    ensures
        r@.dom() == map@.dom(),
        forall|k: Seq<char>|
            map@.dom().contains(k) ==> {
                let rv = #[trigger] r@[k];
                &&& rv.value == map@[k]
                &&& (if rich_type_map@.dom().contains(k) {
                    rv.formatting_type == rich_type_map@[k].formatting_type && rv.range
                        == rich_type_map@[k].range && rv.conversion == rich_type_map@[k].conversion
                } else {
                    rv.formatting_type == FormattingTypeV::Simple && rv.range is None
                        && rv.conversion is None
                })
            },
{
    let src = map.entries();
    let mut out: Vec<(String, RichValue)> = Vec::new();
    let n = src.len();
    let mut i: usize = 0;
    while i < n
        invariant
            i <= n,
            n == src@.len(),
            entries_ok(src@, out@, rich_type_map@),
            out@.len() == i,
            map.wf(),
            rich_type_map.wf(),
            entries_map_of(src@) == map@,
            crate::value::entries_unique(src@),
            forall|j: int|
                0 <= j < src@.len() ==> map@.dom().contains((#[trigger] src@[j]).0@)
                    && map@[src@[j].0@] == src@[j].1@,
            forall|j: int| 0 <= j < i ==> (#[trigger] out@[j]).0@ == src@[j].0@,
        decreases n - i,
    {
        let e = &src[i];
        let v2 = match rich_type_map.get(e.0.as_str()) {
            None => RichValue {
                value: e.1.dup(),
                formatting_type: FormattingType::Simple,
                range: None,
                conversion: None,
            },
            Some(info) => {
                let d = info.dup();
                RichValue {
                    value: e.1.dup(),
                    formatting_type: d.formatting_type,
                    range: d.range,
                    conversion: d.conversion,
                }
            },
        };
        out.push((e.0.clone(), v2));
        i = i + 1;
    }
    let r = RichValueMap { entries: out };
    proof {
        lemma_enrich_entries(src@, r.entries@, rich_type_map@);
    }
    r
}

/// Entry-wise correctness of the enriched prefix.
pub open spec fn entries_ok(
    src: Seq<(String, Value)>,
    out: Seq<(String, RichValue)>,
    infos: Map<Seq<char>, crate::rich::ValueInfoV>,
) -> bool {
    forall|j: int|
        0 <= j < out.len() ==> j < src.len() && {
            let rv = (#[trigger] out[j]).1@;
            &&& out[j].0@ == src[j].0@
            &&& rv.value == src[j].1@
            &&& (if infos.dom().contains(src[j].0@) {
                rv.formatting_type == infos[src[j].0@].formatting_type && rv.range
                    == infos[src[j].0@].range && rv.conversion == infos[src[j].0@].conversion
            } else {
                rv.formatting_type == FormattingTypeV::Simple && rv.range is None && rv.conversion
                    is None
            })
        }
}

pub open spec fn entries_map_of(s: Seq<(String, Value)>) -> Map<Seq<char>, ValueV> {
    crate::value::entries_map(s)
}

proof fn lemma_enrich_entries(
    src: Seq<(String, Value)>,
    out: Seq<(String, RichValue)>,
    infos: Map<Seq<char>, ValueInfoV>,
)
    requires
        entries_ok(src, out, infos),
        out.len() == src.len(),
        crate::value::entries_unique(src),
    ensures
        rich_entries_map(out).dom() == entries_map_of(src).dom(),
        forall|k: Seq<char>|
            entries_map_of(src).dom().contains(k) ==> {
                let rv = #[trigger] rich_entries_map(out)[k];
                &&& rv.value == entries_map_of(src)[k]
                &&& (if infos.dom().contains(k) {
                    rv.formatting_type == infos[k].formatting_type && rv.range == infos[k].range
                        && rv.conversion == infos[k].conversion
                } else {
                    rv.formatting_type == FormattingTypeV::Simple && rv.range is None
                        && rv.conversion is None
                })
            },
    decreases src.len(),
{
    if src.len() > 0 {
        assert(crate::value::entries_unique(src.drop_last())) by {
            assert(forall|x: int, y: int|
                0 <= x < y < src.len() - 1 ==> (#[trigger] src.drop_last()[x]) == src[x]
                    && (#[trigger] src.drop_last()[y]) == src[y]);
        }
        assert(entries_ok(src.drop_last(), out.drop_last(), infos)) by {
            assert(forall|j: int|
                0 <= j < out.len() - 1 ==> (#[trigger] out.drop_last()[j]) == out[j]
                    && src.drop_last()[j] == src[j]);
        }
        lemma_enrich_entries(src.drop_last(), out.drop_last(), infos);
        assert(out[out.len() - 1].0@ == src[src.len() - 1].0@);
        assert(rich_entries_map(out) == rich_entries_map(out.drop_last()).insert(
            out.last().0@,
            out.last().1@,
        ));
        assert(entries_map_of(src) == entries_map_of(src.drop_last()).insert(
            src.last().0@,
            src.last().1@,
        ));
        assert(rich_entries_map(out).dom() =~= entries_map_of(src).dom());
    } else {
        assert(rich_entries_map(out).dom() =~= entries_map_of(src).dom());
    }
}

} // verus!
