//! The decoded patch data model: device, meta tags, and parameter models.

use vstd::prelude::*;

verus! {

/// A raw parameter value: an unsigned 32-bit integer or a 32-bit float.
/// The float is carried as its raw IEEE-754 bit pattern, exactly as it
/// stands in the file; interpreting the bits is display work and stays
/// outside this crate's logic.
#[derive(Clone, Copy, Debug, PartialEq, Eq, Structural)]
pub enum Value {
    Int(u32),
    Float(u32),
}

/// One physical parameter record: a 24-bit parameter id and a tagged value.
#[derive(Clone, Copy, Debug, PartialEq, Eq, Structural)]
pub struct ModelParam {
    pub param_id: u32,
    pub value: Value,
}

impl Default for ModelParam {
    fn default() -> (r: Self)
        ensures
            r == (ModelParam { param_id: 0, value: Value::Int(0) }),
    {
        ModelParam { param_id: 0, value: Value::Int(0) }
    }
}

/// One physical parameter block: slot, model, ordinal, enabled flag and its
/// ordered parameter records.
#[derive(Debug)]
pub struct Model {
    pub model_id: u32,
    pub slot_id: u32,
    pub enabled: bool,
    pub ordinal: u8,
    pub params: Vec<ModelParam>,
}

/// The mathematical model of a `Model`.
#[verifier::ext_equal]
pub struct ModelV {
    pub model_id: u32,
    pub slot_id: u32,
    pub enabled: bool,
    pub ordinal: u8,
    pub params: Seq<ModelParam>,
}

impl View for Model {
    type V = ModelV;

    open spec fn view(&self) -> ModelV {
        ModelV {
            model_id: self.model_id,
            slot_id: self.slot_id,
            enabled: self.enabled,
            ordinal: self.ordinal,
            params: self.params@,
        }
    }
}

impl Model {
    /// The identity of a model for membership tests: slot id, model id and
    /// ordinal; the enabled flag and the parameters do not take part.
    pub open spec fn same_identity(self, other: Model) -> bool {
        self.slot_id == other.slot_id && self.model_id == other.model_id && self.ordinal
            == other.ordinal
    }
}

impl PartialEq for Model {
    fn eq(&self, other: &Self) -> (r: bool) {
        self.slot_id == other.slot_id && self.model_id == other.model_id && self.ordinal
            == other.ordinal
    }
}

impl vstd::std_specs::cmp::PartialEqSpecImpl for Model {
    open spec fn obeys_eq_spec() -> bool {
        true
    }

    open spec fn eq_spec(&self, other: &Model) -> bool {
        self.same_identity(*other)
    }
}

impl Default for Model {
    fn default() -> (r: Self)
        ensures
            r@ == (ModelV {
                model_id: 0,
                slot_id: 0,
                enabled: false,
                ordinal: 0,
                params: Seq::empty(),
            }),
    {
        let r = Model { model_id: 0, slot_id: 0, enabled: false, ordinal: 0, params: Vec::new() };
        proof {
            assert(r@.params =~= Seq::<ModelParam>::empty());
        }
        r
    }
}

/// The device a patch targets: a numeric id, a fixed-width name and a
/// protocol version.
#[derive(Debug)]
pub struct TargetDevice {
    pub midi_id: u32,
    pub name: String,
    pub version: u32,
}

/// The mathematical model of a `TargetDevice`.
#[verifier::ext_equal]
pub struct TargetDeviceV {
    pub midi_id: u32,
    pub name: Seq<char>,
    pub version: u32,
}

impl View for TargetDevice {
    type V = TargetDeviceV;

    open spec fn view(&self) -> TargetDeviceV {
        TargetDeviceV { midi_id: self.midi_id, name: self.name@, version: self.version }
    }
}

impl Default for TargetDevice {
    fn default() -> (r: Self)
        ensures
            r@ == (TargetDeviceV { midi_id: 0, name: Seq::empty(), version: 0 }),
    {
        let r = TargetDevice { midi_id: 0, name: String::new(), version: 0 };
        proof {
            assert(r@.name =~= Seq::<char>::empty());
        }
        r
    }
}

/// The free-text tags of a patch, plus a date held in milliseconds and
/// serialized as whole seconds.  Empty fields are omitted on write.
#[derive(Debug)]
pub struct MetaTags {
    pub author: String,
    pub guitarist: String,
    pub band: String,
    pub song: String,
    pub style: String,
    pub pickup_style: String,
    pub pickup_position: String,
    pub date: usize,
    pub amp_name: String,
    pub creator_app: String,
    pub creator_app_version: String,
    pub comments: String,
}

/// The mathematical model of `MetaTags`.
#[verifier::ext_equal]
pub struct MetaTagsV {
    pub author: Seq<char>,
    pub guitarist: Seq<char>,
    pub band: Seq<char>,
    pub song: Seq<char>,
    pub style: Seq<char>,
    pub pickup_style: Seq<char>,
    pub pickup_position: Seq<char>,
    pub date: usize,
    pub amp_name: Seq<char>,
    pub creator_app: Seq<char>,
    pub creator_app_version: Seq<char>,
    pub comments: Seq<char>,
}

impl View for MetaTags {
    type V = MetaTagsV;

    open spec fn view(&self) -> MetaTagsV {
        MetaTagsV {
            author: self.author@,
            guitarist: self.guitarist@,
            band: self.band@,
            song: self.song@,
            style: self.style@,
            pickup_style: self.pickup_style@,
            pickup_position: self.pickup_position@,
            date: self.date,
            amp_name: self.amp_name@,
            creator_app: self.creator_app@,
            creator_app_version: self.creator_app_version@,
            comments: self.comments@,
        }
    }
}

pub open spec fn empty_meta_tags() -> MetaTagsV {
    MetaTagsV {
        author: Seq::empty(),
        guitarist: Seq::empty(),
        band: Seq::empty(),
        song: Seq::empty(),
        style: Seq::empty(),
        pickup_style: Seq::empty(),
        pickup_position: Seq::empty(),
        date: 0,
        amp_name: Seq::empty(),
        creator_app: Seq::empty(),
        creator_app_version: Seq::empty(),
        comments: Seq::empty(),
    }
}

impl Default for MetaTags {
    fn default() -> (r: Self)
        ensures
            r@ == empty_meta_tags(),
    {
        let r = MetaTags {
            author: String::new(),
            guitarist: String::new(),
            band: String::new(),
            song: String::new(),
            style: String::new(),
            pickup_style: String::new(),
            pickup_position: String::new(),
            date: 0,
            amp_name: String::new(),
            creator_app: String::new(),
            creator_app_version: String::new(),
            comments: String::new(),
        };
        proof {
            assert(r@ =~= empty_meta_tags());
        }
        r
    }
}

/// The three structurally identical patch flavours, told apart only by
/// their content type id.
#[derive(Clone, Copy, Debug, PartialEq, Eq, Structural)]
pub enum PatchType {
    Patch,
    AmpSetup,
    FxSetup,
}

/// One patch: its target device, meta tags and ordered parameter models.
#[derive(Debug)]
pub struct L6Patch {
    pub patch_type: PatchType,
    pub target_device: TargetDevice,
    pub models: Vec<Model>,
    pub meta: MetaTags,
}

/// The mathematical model of an `L6Patch`.
#[verifier::ext_equal]
pub struct L6PatchV {
    pub patch_type: PatchType,
    pub target_device: TargetDeviceV,
    pub models: Seq<ModelV>,
    pub meta: MetaTagsV,
}

pub open spec fn models_view(ms: Seq<Model>) -> Seq<ModelV> {
    ms.map_values(|m: Model| m@)
}

impl View for L6Patch {
    type V = L6PatchV;

    open spec fn view(&self) -> L6PatchV {
        L6PatchV {
            patch_type: self.patch_type,
            target_device: self.target_device@,
            models: models_view(self.models@),
            meta: self.meta@,
        }
    }
}

impl Default for L6Patch {
    fn default() -> (r: Self)
        ensures
            r@.patch_type == PatchType::Patch,
            r@.target_device == (TargetDeviceV { midi_id: 0, name: Seq::empty(), version: 0 }),
            r@.models == Seq::<ModelV>::empty(),
            r@.meta == empty_meta_tags(),
    {
        let r = L6Patch {
            patch_type: PatchType::Patch,
            target_device: TargetDevice::default(),
            models: Vec::new(),
            meta: MetaTags::default(),
        };
        proof {
            assert(r@.models =~= Seq::<ModelV>::empty());
        }
        r
    }
}

/// The two bundle flavours: a bank list or a folder collection.
#[derive(Clone, Copy, Debug, PartialEq, Eq, Structural)]
pub enum BundleType {
    Bundle,
    Collection,
}

/// A named bank of patches inside a bundle.
#[derive(Debug)]
pub struct Bank {
    pub name: String,
    pub patches: Vec<L6Patch>,
}

/// The mathematical model of a `Bank`.
#[verifier::ext_equal]
pub struct BankV {
    pub name: Seq<char>,
    pub patches: Seq<L6PatchV>,
}

impl View for Bank {
    type V = BankV;

    open spec fn view(&self) -> BankV {
        BankV { name: self.name@, patches: self.patches@.map_values(|p: L6Patch| p@) }
    }
}

impl Default for Bank {
    fn default() -> (r: Self)
        ensures
            r@.name == Seq::<char>::empty(),
            r@.patches == Seq::<L6PatchV>::empty(),
    {
        let r = Bank { name: String::new(), patches: Vec::new() };
        proof {
            assert(r@.name =~= Seq::<char>::empty());
            assert(r@.patches =~= Seq::<L6PatchV>::empty());
        }
        r
    }
}

/// A bundle: ordered banks of patches.
#[derive(Debug)]
pub struct L6Bundle {
    pub bundle_type: BundleType,
    pub banks: Vec<Bank>,
}

/// The mathematical model of an `L6Bundle`.
#[verifier::ext_equal]
pub struct L6BundleV {
    pub bundle_type: BundleType,
    pub banks: Seq<BankV>,
}

impl View for L6Bundle {
    type V = L6BundleV;

    open spec fn view(&self) -> L6BundleV {
        L6BundleV {
            bundle_type: self.bundle_type,
            banks: self.banks@.map_values(|b: Bank| b@),
        }
    }
}

/// The version record at the head of a bundle.
pub struct BatchHead {
    pub version: u32,
}

/// The name record of a bank.
pub struct BankInfo {
    pub name: String,
}

} // verus!
