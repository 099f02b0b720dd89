//! Shorthand constructors for schema descriptors and display rules, used
//! when writing per-device parameter tables down.

use vstd::prelude::*;

use crate::rich::{Conversion, FormattingType, Range, ValueInfo};
use crate::schema::{Param, ParamType};

verus! {

/// The IEEE-754 bit pattern of 0.0.
pub const BITS_ZERO: u32 = 0x0000_0000;

/// The IEEE-754 bit pattern of 1.0.
pub const BITS_ONE: u32 = 0x3f80_0000;

/// The IEEE-754 bit pattern of 30.0.
pub const BITS_THIRTY: u32 = 0x41f0_0000;

/// The IEEE-754 bit pattern of 240.0.
pub const BITS_240: u32 = 0x4370_0000;

/// The IEEE-754 bit pattern of positive infinity.
pub const BITS_INF: u32 = 0x7f80_0000;

/// The IEEE-754 bit pattern of negative infinity.
pub const BITS_NEG_INF: u32 = 0xff80_0000;

/// A synthetic descriptor naming the slot's model id.
pub fn slot(name: &str) -> (r: Param)
    ensures
        r matches Param::SlotModel { name: n } && n@ == name@,
{
    Param::SlotModel { name: String::from_str(name) }
}

/// A synthetic descriptor naming the slot's enabled flag.
pub fn slot_enable(name: &str) -> (r: Param)
    ensures
        r matches Param::SlotEnable { name: n } && n@ == name@,
{
    Param::SlotEnable { name: String::from_str(name) }
}

/// A named boolean parameter.
pub fn bool(id: u32, name: &str) -> (r: Param)
    ensures
        r matches Param::Param { name: n, param_id, param_type } && n@ == name@ && param_id == id
            && param_type == ParamType::Bool,
{
    Param::Param { name: String::from_str(name), param_id: id, param_type: ParamType::Bool }
}

/// A named integer parameter.
pub fn int_param(id: u32, name: &str) -> (r: Param)
    ensures
        r matches Param::Param { name: n, param_id, param_type } && n@ == name@ && param_id == id
            && param_type == ParamType::Int,
{
    Param::Param { name: String::from_str(name), param_id: id, param_type: ParamType::Int }
}

/// A named float parameter.
pub fn float(id: u32, name: &str) -> (r: Param)
    ensures
        r matches Param::Param { name: n, param_id, param_type } && n@ == name@ && param_id == id
            && param_type == ParamType::Float,
{
    Param::Param { name: String::from_str(name), param_id: id, param_type: ParamType::Float }
}

/// A named integer constant with no slot gate.
pub fn fixed_int(name: &str, value: u32) -> (r: Param)
    ensures
        r matches Param::FixedParam { name: n, param_value, param_type, slot_id } && n@ == name@
            && param_value == value && param_type == ParamType::Int && slot_id is None,
{
    Param::FixedParam {
        name: String::from_str(name),
        param_value: value,
        param_type: ParamType::Int,
        slot_id: None,
    }
}

/// A named integer constant gated on a specific physical slot id.
pub fn fixed_int_for_slot_id(name: &str, value: u32, slot_id: u32) -> (r: Param)
    ensures
        r matches Param::FixedParam { name: n, param_value, param_type, slot_id: sid } && n@
            == name@ && param_value == value && param_type == ParamType::Int && sid == Some(
            slot_id,
        ),
{
    Param::FixedParam {
        name: String::from_str(name),
        param_value: value,
        param_type: ParamType::Int,
        slot_id: Some(slot_id),
    }
}

/// An integer id that must exist but carries no name.
pub fn ignore(id: u32) -> (r: Param)
    ensures
        r matches Param::IgnoreParam { param_id, param_type } && param_id == id && param_type
            == ParamType::Int,
{
    Param::IgnoreParam { param_id: id, param_type: ParamType::Int }
}

/// A float id that must exist but carries no name.
pub fn ignore_f(id: u32) -> (r: Param)
    ensures
        r matches Param::IgnoreParam { param_id, param_type } && param_id == id && param_type
            == ParamType::Float,
{
    Param::IgnoreParam { param_id: id, param_type: ParamType::Float }
}

/// A builder for one name's display rule.
pub struct ValueInfoBuilder {
    formatting_type: FormattingType,
    range: Option<Range>,
    conversion: Option<Conversion>,
}

impl ValueInfoBuilder {
    pub closed spec fn spec_parts(&self) -> (
        crate::rich::FormattingTypeV,
        Option<Range>,
        Option<crate::rich::ConversionV>,
    ) {
        (
            self.formatting_type@,
            self.range,
            match self.conversion {
                Some(ref c) => Some(c@),
                None => None,
            },
        )
    }

    /// A plain rule: no conversion, no range, simple formatting.
    pub fn new() -> (r: ValueInfoBuilder)
        ensures
            r.spec_parts() == (
                crate::rich::FormattingTypeV::Simple,
                None::<Range>,
                None::<crate::rich::ConversionV>,
            ),
    {
        ValueInfoBuilder { formatting_type: FormattingType::Simple, range: None, conversion: None }
    }

    /// Replaces the formatting rule.
    pub fn formatting_type(self, formatting_type: FormattingType) -> (r: ValueInfoBuilder)
        ensures
            r.spec_parts() == (formatting_type@, self.spec_parts().1, self.spec_parts().2),
    {
        ValueInfoBuilder { formatting_type, range: self.range, conversion: self.conversion }
    }

    /// Sets the lower bound, keeping an upper bound already set and
    /// defaulting the other to positive infinity.
    pub fn min(self, min: u32) -> (r: ValueInfoBuilder)
        ensures
            r.spec_parts().0 == self.spec_parts().0,
            r.spec_parts().2 == self.spec_parts().2,
            r.spec_parts().1 == Some(
                Range {
                    min,
                    max: (match self.spec_parts().1 {
                        Some(rg) => rg.max,
                        None => BITS_INF,
                    }),
                },
            ),
    {
        let max = match self.range {
            Some(r) => r.max,
            None => BITS_INF,
        };
        ValueInfoBuilder {
            formatting_type: self.formatting_type,
            range: Some(Range { min, max }),
            conversion: self.conversion,
        }
    }

    /// Sets the upper bound, keeping a lower bound already set and
    /// defaulting the other to negative infinity.
    pub fn max(self, max: u32) -> (r: ValueInfoBuilder)
        ensures
            r.spec_parts().0 == self.spec_parts().0,
            r.spec_parts().2 == self.spec_parts().2,
            r.spec_parts().1 == Some(
                Range {
                    min: (match self.spec_parts().1 {
                        Some(rg) => rg.min,
                        None => BITS_NEG_INF,
                    }),
                    max,
                },
            ),
    {
        let min = match self.range {
            Some(r) => r.min,
            None => BITS_NEG_INF,
        };
        ValueInfoBuilder {
            formatting_type: self.formatting_type,
            range: Some(Range { min, max }),
            conversion: self.conversion,
        }
    }

    /// Sets both bounds.
    pub fn range(self, min: u32, max: u32) -> (r: ValueInfoBuilder)
        ensures
            r.spec_parts().0 == self.spec_parts().0,
            r.spec_parts().2 == self.spec_parts().2,
            r.spec_parts().1 == Some(Range { min, max }),
    {
        self.min(min).max(max)
    }

    /// Declares a linear conversion `k * (a + x) + b`, over bit patterns.
    pub fn convert(self, k: u32, a: u32, b: u32) -> (r: ValueInfoBuilder)
        ensures
            r.spec_parts().0 == self.spec_parts().0,
            r.spec_parts().1 == self.spec_parts().1,
            r.spec_parts().2 == Some(crate::rich::ConversionV::Linear { k, a, b }),
    {
        ValueInfoBuilder {
            formatting_type: self.formatting_type,
            range: self.range,
            conversion: Some(Conversion::Linear { k, a, b }),
        }
    }

    /// Declares a piecewise-linear conversion over break points, as bit
    /// patterns.
    pub fn points(self, points: Vec<(u32, u32)>) -> (r: ValueInfoBuilder)
        ensures
            r.spec_parts().0 == self.spec_parts().0,
            r.spec_parts().1 == self.spec_parts().1,
            r.spec_parts().2 == Some(
                crate::rich::ConversionV::Interpolate { points: points@ },
            ),
    {
        ValueInfoBuilder {
            formatting_type: self.formatting_type,
            range: self.range,
            conversion: Some(Conversion::Interpolate { points }),
        }
    }

    /// Finishes the rule.
    pub fn build(self) -> (r: ValueInfo)
        ensures
            r@.formatting_type == self.spec_parts().0,
            r@.range == self.spec_parts().1,
            r@.conversion == self.spec_parts().2,
    {
        ValueInfo {
            formatting_type: self.formatting_type,
            range: self.range,
            conversion: self.conversion,
        }
    }
}

/// An exact-match lookup rule over a label table.
pub fn lookup(map: Vec<(u32, String)>) -> (r: ValueInfoBuilder)
    ensures
        r.spec_parts().0 == crate::rich::FormattingTypeV::IntLookup(crate::rich::table_view(map@)),
        r.spec_parts().1 is None,
        r.spec_parts().2 is None,
{
    ValueInfoBuilder::new().formatting_type(FormattingType::IntLookup(map))
}

/// A tiered lookup rule over a label table.
pub fn lookup_f(map: Vec<(u32, String)>) -> (r: ValueInfoBuilder)
    ensures
        r.spec_parts().0 == crate::rich::FormattingTypeV::FloatLookup(
            crate::rich::table_view(map@),
        ),
        r.spec_parts().1 is None,
        r.spec_parts().2 is None,
{
    ValueInfoBuilder::new().formatting_type(FormattingType::FloatLookup(map))
}

/// A percent rule over the unit range.
pub fn percent() -> (r: ValueInfoBuilder)
    ensures
        r.spec_parts().0 == crate::rich::FormattingTypeV::Percent,
        r.spec_parts().1 == Some(Range { min: BITS_ZERO, max: BITS_ONE }),
        r.spec_parts().2 is None,
{
    ValueInfoBuilder::new().formatting_type(FormattingType::Percent).range(BITS_ZERO, BITS_ONE)
}

/// A milliseconds rule with no decimals.
pub fn millis() -> (r: ValueInfoBuilder)
    ensures
        r.spec_parts().0 == crate::rich::FormattingTypeV::Millis(0),
        r.spec_parts().1 == Some(Range { min: BITS_ZERO, max: BITS_INF }),
        r.spec_parts().2 is None,
{
    ValueInfoBuilder::new().formatting_type(FormattingType::Millis(0)).range(BITS_ZERO, BITS_INF)
}

/// A milliseconds rule with one decimal.
pub fn millis1() -> (r: ValueInfoBuilder)
    ensures
        r.spec_parts().0 == crate::rich::FormattingTypeV::Millis(1),
        r.spec_parts().1 == Some(Range { min: BITS_ZERO, max: BITS_INF }),
        r.spec_parts().2 is None,
{
    ValueInfoBuilder::new().formatting_type(FormattingType::Millis(1)).range(BITS_ZERO, BITS_INF)
}

/// A hertz rule.
pub fn hz() -> (r: ValueInfoBuilder)
    ensures
        r.spec_parts().0 == crate::rich::FormattingTypeV::Hertz,
        r.spec_parts().1 == Some(Range { min: BITS_ZERO, max: BITS_INF }),
        r.spec_parts().2 is None,
{
    ValueInfoBuilder::new().formatting_type(FormattingType::Hertz).range(BITS_ZERO, BITS_INF)
}

/// A beats-per-minute rule over the usual tempo range.
pub fn bpm() -> (r: ValueInfoBuilder)
    ensures
        r.spec_parts().0 == crate::rich::FormattingTypeV::BPM,
        r.spec_parts().1 == Some(Range { min: BITS_THIRTY, max: BITS_240 }),
        r.spec_parts().2 is None,
{
    ValueInfoBuilder::new().formatting_type(FormattingType::BPM).range(BITS_THIRTY, BITS_240)
}

/// A decibel rule with no decimals.
pub fn db() -> (r: ValueInfoBuilder)
    ensures
        r.spec_parts().0 == crate::rich::FormattingTypeV::Decibel(0),
        r.spec_parts().1 is None,
        r.spec_parts().2 is None,
{
    ValueInfoBuilder::new().formatting_type(FormattingType::Decibel(0))
}

/// A decibel rule with one decimal.
pub fn db1() -> (r: ValueInfoBuilder)
    ensures
        r.spec_parts().0 == crate::rich::FormattingTypeV::Decibel(1),
        r.spec_parts().1 is None,
        r.spec_parts().2 is None,
{
    ValueInfoBuilder::new().formatting_type(FormattingType::Decibel(1))
}

} // verus!
