//! Four-byte chunk type identifiers and their classification.

use vstd::prelude::*;

verus! {

/// The type ID of a chunk: four raw bytes, most often printable ASCII.
#[derive(Clone, Copy, Debug, Hash, PartialEq, Eq, Structural)]
pub struct TypeID(pub u8, pub u8, pub u8, pub u8);

impl TypeID {
    pub open spec fn spec_reverse(&self) -> TypeID {
        TypeID(self.3, self.2, self.1, self.0)
    }

    /// The same four bytes in the opposite order.
    #[verifier::when_used_as_spec(spec_reverse)]
    pub fn reverse(&self) -> (r: TypeID)
        ensures
            r == self.spec_reverse(),
    {
        TypeID(self.3, self.2, self.1, self.0)
    }

    pub open spec fn spec_is_envelope(self) -> bool {
        self == form() || self == list()
    }

    /// Whether this id marks an envelope chunk (`FORM` or `LIST`).
    #[verifier::when_used_as_spec(spec_is_envelope)]
    pub fn is_envelope(self) -> (r: bool)
        ensures
            r == self.spec_is_envelope(),
    {
        self == form() || self == list()
    }

    pub open spec fn spec_is_le_envelope(self) -> bool {
        self == form().spec_reverse() || self == list().spec_reverse()
    }

    /// Whether this id is the reversed spelling of an envelope marker,
    /// which betrays a little-endian file.
    #[verifier::when_used_as_spec(spec_is_le_envelope)]
    pub fn is_le_envelope(self) -> (r: bool)
        ensures
            r == self.spec_is_le_envelope(),
    {
        self == form().reverse() || self == list().reverse()
    }

    /// Whether an envelope with this content type id aligns its children to
    /// even offsets.  A single legacy library container kind does not.
    pub open spec fn spec_is_aligned_kind(self) -> bool {
        self != sslb()
    }

    #[verifier::when_used_as_spec(spec_is_aligned_kind)]
    pub fn is_aligned_kind(self) -> (r: bool)
        ensures
            r == self.spec_is_aligned_kind(),
    {
        !(self == sslb())
    }
}

pub open spec fn spec_form() -> TypeID {
    TypeID(0x46, 0x4f, 0x52, 0x4d)
}

/// `FORM`, the big-endian envelope marker.
#[verifier::when_used_as_spec(spec_form)]
pub fn form() -> (r: TypeID)
    ensures
        r == spec_form(),
{
    TypeID(0x46, 0x4f, 0x52, 0x4d)
}

pub open spec fn spec_list() -> TypeID {
    TypeID(0x4c, 0x49, 0x53, 0x54)
}

/// `LIST`, the nested envelope marker.
#[verifier::when_used_as_spec(spec_list)]
pub fn list() -> (r: TypeID)
    ensures
        r == spec_list(),
{
    TypeID(0x4c, 0x49, 0x53, 0x54)
}

pub open spec fn spec_sslb() -> TypeID {
    TypeID(0x53, 0x53, 0x4c, 0x42)
}

/// `SSLB`, the legacy sound library container; the one unaligned envelope kind.
#[verifier::when_used_as_spec(spec_sslb)]
pub fn sslb() -> (r: TypeID)
    ensures
        r == spec_sslb(),
{
    TypeID(0x53, 0x53, 0x4c, 0x42)
}

pub open spec fn spec_l6pa() -> TypeID {
    TypeID(0x4c, 0x36, 0x50, 0x41)
}

/// `L6PA`, the patch content type.
#[verifier::when_used_as_spec(spec_l6pa)]
pub fn l6pa() -> (r: TypeID)
    ensures
        r == spec_l6pa(),
{
    TypeID(0x4c, 0x36, 0x50, 0x41)
}

pub open spec fn spec_l6as() -> TypeID {
    TypeID(0x4c, 0x36, 0x41, 0x53)
}

/// `L6AS`, the amp-setup content type, structurally a patch.
#[verifier::when_used_as_spec(spec_l6as)]
pub fn l6as() -> (r: TypeID)
    ensures
        r == spec_l6as(),
{
    TypeID(0x4c, 0x36, 0x41, 0x53)
}

pub open spec fn spec_l6fs() -> TypeID {
    TypeID(0x4c, 0x36, 0x46, 0x53)
}

/// `L6FS`, the effects-setup content type, structurally a patch.
#[verifier::when_used_as_spec(spec_l6fs)]
pub fn l6fs() -> (r: TypeID)
    ensures
        r == spec_l6fs(),
{
    TypeID(0x4c, 0x36, 0x46, 0x53)
}

pub open spec fn spec_l6ba() -> TypeID {
    TypeID(0x4c, 0x36, 0x42, 0x41)
}

/// `L6BA`, the bundle content type.
#[verifier::when_used_as_spec(spec_l6ba)]
pub fn l6ba() -> (r: TypeID)
    ensures
        r == spec_l6ba(),
{
    TypeID(0x4c, 0x36, 0x42, 0x41)
}

pub open spec fn spec_l6co() -> TypeID {
    TypeID(0x4c, 0x36, 0x43, 0x4f)
}

/// `L6CO`, the collection content type.
#[verifier::when_used_as_spec(spec_l6co)]
pub fn l6co() -> (r: TypeID)
    ensures
        r == spec_l6co(),
{
    TypeID(0x4c, 0x36, 0x43, 0x4f)
}

pub open spec fn spec_head() -> TypeID {
    TypeID(0x48, 0x45, 0x41, 0x44)
}

/// `HEAD`, the bundle header record.
#[verifier::when_used_as_spec(spec_head)]
pub fn head() -> (r: TypeID)
    ensures
        r == spec_head(),
{
    TypeID(0x48, 0x45, 0x41, 0x44)
}

pub open spec fn spec_bank() -> TypeID {
    TypeID(0x42, 0x41, 0x4e, 0x4b)
}

/// `BANK`, a bank envelope inside a bundle.
#[verifier::when_used_as_spec(spec_bank)]
pub fn bank() -> (r: TypeID)
    ensures
        r == spec_bank(),
{
    TypeID(0x42, 0x41, 0x4e, 0x4b)
}

pub open spec fn spec_fldr() -> TypeID {
    TypeID(0x46, 0x4c, 0x44, 0x52)
}

/// `FLDR`, a folder envelope inside a collection.
#[verifier::when_used_as_spec(spec_fldr)]
pub fn fldr() -> (r: TypeID)
    ensures
        r == spec_fldr(),
{
    TypeID(0x46, 0x4c, 0x44, 0x52)
}

pub open spec fn spec_binf() -> TypeID {
    TypeID(0x42, 0x49, 0x4e, 0x46)
}

/// `BINF`, the bank info record.
#[verifier::when_used_as_spec(spec_binf)]
pub fn binf() -> (r: TypeID)
    ensures
        r == spec_binf(),
{
    TypeID(0x42, 0x49, 0x4e, 0x46)
}

pub open spec fn spec_pinf() -> TypeID {
    TypeID(0x50, 0x49, 0x4e, 0x46)
}

/// `PINF`, the target device record.
#[verifier::when_used_as_spec(spec_pinf)]
pub fn pinf() -> (r: TypeID)
    ensures
        r == spec_pinf(),
{
    TypeID(0x50, 0x49, 0x4e, 0x46)
}

pub open spec fn spec_minf() -> TypeID {
    TypeID(0x4d, 0x49, 0x4e, 0x46)
}

/// `MINF`, the model info record.
#[verifier::when_used_as_spec(spec_minf)]
pub fn minf() -> (r: TypeID)
    ensures
        r == spec_minf(),
{
    TypeID(0x4d, 0x49, 0x4e, 0x46)
}

pub open spec fn spec_modl() -> TypeID {
    TypeID(0x4d, 0x4f, 0x44, 0x4c)
}

/// `MODL`, a model envelope.
#[verifier::when_used_as_spec(spec_modl)]
pub fn modl() -> (r: TypeID)
    ensures
        r == spec_modl(),
{
    TypeID(0x4d, 0x4f, 0x44, 0x4c)
}

pub open spec fn spec_parm() -> TypeID {
    TypeID(0x50, 0x41, 0x52, 0x4d)
}

/// `PARM`, a model parameter record.
#[verifier::when_used_as_spec(spec_parm)]
pub fn parm() -> (r: TypeID)
    ensures
        r == spec_parm(),
{
    TypeID(0x50, 0x41, 0x52, 0x4d)
}

pub open spec fn spec_patc() -> TypeID {
    TypeID(0x50, 0x41, 0x54, 0x43)
}

/// `PATC`, the envelope holding a patch's models.
#[verifier::when_used_as_spec(spec_patc)]
pub fn patc() -> (r: TypeID)
    ensures
        r == spec_patc(),
{
    TypeID(0x50, 0x41, 0x54, 0x43)
}

pub open spec fn spec_unfo() -> TypeID {
    TypeID(0x55, 0x4e, 0x46, 0x4f)
}

/// `UNFO`, the envelope holding a patch's meta tags.
#[verifier::when_used_as_spec(spec_unfo)]
pub fn unfo() -> (r: TypeID)
    ensures
        r == spec_unfo(),
{
    TypeID(0x55, 0x4e, 0x46, 0x4f)
}

pub open spec fn spec_lent() -> TypeID {
    TypeID(0x4c, 0x45, 0x4e, 0x54)
}

/// `LENT`, a legacy library entry record.
#[verifier::when_used_as_spec(spec_lent)]
pub fn lent() -> (r: TypeID)
    ensures
        r == spec_lent(),
{
    TypeID(0x4c, 0x45, 0x4e, 0x54)
}

pub open spec fn spec_iaut() -> TypeID {
    TypeID(0x49, 0x41, 0x55, 0x54)
}

/// `IAUT`, the author meta tag.
#[verifier::when_used_as_spec(spec_iaut)]
pub fn iaut() -> (r: TypeID)
    ensures
        r == spec_iaut(),
{
    TypeID(0x49, 0x41, 0x55, 0x54)
}

pub open spec fn spec_igtr() -> TypeID {
    TypeID(0x49, 0x47, 0x54, 0x52)
}

/// `IGTR`, the guitarist meta tag.
#[verifier::when_used_as_spec(spec_igtr)]
pub fn igtr() -> (r: TypeID)
    ensures
        r == spec_igtr(),
{
    TypeID(0x49, 0x47, 0x54, 0x52)
}

pub open spec fn spec_ibnd() -> TypeID {
    TypeID(0x49, 0x42, 0x4e, 0x44)
}

/// `IBND`, the band meta tag.
#[verifier::when_used_as_spec(spec_ibnd)]
pub fn ibnd() -> (r: TypeID)
    ensures
        r == spec_ibnd(),
{
    TypeID(0x49, 0x42, 0x4e, 0x44)
}

pub open spec fn spec_isng() -> TypeID {
    TypeID(0x49, 0x53, 0x4e, 0x47)
}

/// `ISNG`, the song meta tag.
#[verifier::when_used_as_spec(spec_isng)]
pub fn isng() -> (r: TypeID)
    ensures
        r == spec_isng(),
{
    TypeID(0x49, 0x53, 0x4e, 0x47)
}

pub open spec fn spec_istl() -> TypeID {
    TypeID(0x49, 0x53, 0x54, 0x4c)
}

/// `ISTL`, the style meta tag.
#[verifier::when_used_as_spec(spec_istl)]
pub fn istl() -> (r: TypeID)
    ensures
        r == spec_istl(),
{
    TypeID(0x49, 0x53, 0x54, 0x4c)
}

pub open spec fn spec_ipus() -> TypeID {
    TypeID(0x49, 0x50, 0x55, 0x53)
}

/// `IPUS`, the pickup style meta tag.
#[verifier::when_used_as_spec(spec_ipus)]
pub fn ipus() -> (r: TypeID)
    ensures
        r == spec_ipus(),
{
    TypeID(0x49, 0x50, 0x55, 0x53)
}

pub open spec fn spec_ipup() -> TypeID {
    TypeID(0x49, 0x50, 0x55, 0x50)
}

/// `IPUP`, the pickup position meta tag.
#[verifier::when_used_as_spec(spec_ipup)]
pub fn ipup() -> (r: TypeID)
    ensures
        r == spec_ipup(),
{
    TypeID(0x49, 0x50, 0x55, 0x50)
}

pub open spec fn spec_idat() -> TypeID {
    TypeID(0x49, 0x44, 0x41, 0x54)
}

/// `IDAT`, the date meta tag.
#[verifier::when_used_as_spec(spec_idat)]
pub fn idat() -> (r: TypeID)
    ensures
        r == spec_idat(),
{
    TypeID(0x49, 0x44, 0x41, 0x54)
}

pub open spec fn spec_iamp() -> TypeID {
    TypeID(0x49, 0x41, 0x4d, 0x50)
}

/// `IAMP`, the amp name meta tag.
#[verifier::when_used_as_spec(spec_iamp)]
pub fn iamp() -> (r: TypeID)
    ensures
        r == spec_iamp(),
{
    TypeID(0x49, 0x41, 0x4d, 0x50)
}

pub open spec fn spec_iapp() -> TypeID {
    TypeID(0x49, 0x41, 0x50, 0x50)
}

/// `IAPP`, the creator application meta tag.
#[verifier::when_used_as_spec(spec_iapp)]
pub fn iapp() -> (r: TypeID)
    ensures
        r == spec_iapp(),
{
    TypeID(0x49, 0x41, 0x50, 0x50)
}

pub open spec fn spec_iapv() -> TypeID {
    TypeID(0x49, 0x41, 0x50, 0x56)
}

/// `IAPV`, the creator application version meta tag.
#[verifier::when_used_as_spec(spec_iapv)]
pub fn iapv() -> (r: TypeID)
    ensures
        r == spec_iapv(),
{
    TypeID(0x49, 0x41, 0x50, 0x56)
}

pub open spec fn spec_icmt() -> TypeID {
    TypeID(0x49, 0x43, 0x4d, 0x54)
}

/// `ICMT`, the comments meta tag.
#[verifier::when_used_as_spec(spec_icmt)]
pub fn icmt() -> (r: TypeID)
    ensures
        r == spec_icmt(),
{
    TypeID(0x49, 0x43, 0x4d, 0x54)
}

} // verus!
