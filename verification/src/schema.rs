//! The symbolic data model: how physical parameter blocks map to named,
//! typed logical parameters, per hardware variant.

use vstd::prelude::*;

use crate::rich::ValueInfoMap;

verus! {

/// The logical type a named parameter is declared with.  The writer-chosen
/// physical tag is independent of it.
#[derive(Clone, Debug, PartialEq, Eq, Structural)]
pub enum ParamType {
    Int,
    Float,
    Bool,
}

/// One parameter descriptor of a slot.
#[derive(Clone, Debug)]
pub enum Param {
    /// Names the slot's model id as a logical value.
    SlotModel { name: String },
    /// Names the slot's enabled flag as a logical value.
    SlotEnable { name: String },
    /// Names a physical parameter id with a declared logical type.
    Param { name: String, param_id: u32, param_type: ParamType },
    /// A named constant, optionally gated on a specific physical slot id;
    /// this disambiguates logical slots aliasing one physical slot.
    FixedParam { name: String, param_value: u32, param_type: ParamType, slot_id: Option<u32> },
    /// A physical id that must exist but carries no logical name.
    IgnoreParam { param_id: u32, param_type: ParamType },
}

impl Param {
    /// The physical parameter id this descriptor consumes, if any.
    pub fn get_id(&self) -> (r: Option<u32>)
        ensures
            r == (match self {
                Param::Param { param_id, .. } => Some(*param_id),
                Param::IgnoreParam { param_id, .. } => Some(*param_id),
                _ => None::<u32>,
            }),
    {
        match self {
            Param::Param { param_id, .. } => Some(*param_id),
            Param::IgnoreParam { param_id, .. } => Some(*param_id),
            _ => None,
        }
    }

    /// The logical name this descriptor declares, if any.
    pub fn get_name(&self) -> (r: Option<&String>)
        ensures
            r matches Some(n) ==> (match self {
                Param::SlotModel { name } => n@ == name@,
                Param::SlotEnable { name } => n@ == name@,
                Param::Param { name, .. } => n@ == name@,
                Param::FixedParam { name, .. } => n@ == name@,
                Param::IgnoreParam { .. } => false,
            }),
            (r is None) == (self matches Param::IgnoreParam { .. }),
    {
        match self {
            Param::SlotModel { name } => Some(name),
            Param::SlotEnable { name } => Some(name),
            Param::Param { name, .. } => Some(name),
            Param::FixedParam { name, .. } => Some(name),
            Param::IgnoreParam { .. } => None,
        }
    }
}

/// One logical slot: optional fixed identity fields plus its ordered
/// parameter descriptors.  Identity fields left unset are derived at match
/// time from the descriptors themselves.
#[derive(Clone, Debug)]
pub struct Slot {
    pub fixed_slot: Option<u32>,
    pub fixed_model: Option<u32>,
    pub fixed_enable: Option<bool>,
    pub params: Vec<Param>,
}

/// A display grouping of slots.
#[derive(Clone, Debug)]
pub struct Group {
    pub name: String,
    pub slots: Vec<Slot>,
}

/// A per-device schema: its slot groups, a flag for devices that pack
/// float bits into integer-tagged parameters, and display info per name.
pub struct DataModel {
    pub floats_as_ints: bool,
    pub groups: Vec<Group>,
    pub info_map: ValueInfoMap,
}

} // verus!
