//! Per-position field metadata and per-position parse/edit state.

use vstd::prelude::*;

verus! {

/// Permitted alphabet of a field's payload. The two bitmap classes also
/// select the bitmap's wire form: raw octets or uppercase ASCII-hex text.
#[allow(non_camel_case_types)]
#[derive(Clone, Copy, Debug, PartialEq, Eq, Structural)]
pub enum FieldCharType {
    /// Numeric, with special characters.
    Iso8583_ns,
    /// Alphanumeric.
    Iso8583_an,
    /// Alphanumeric, with special characters.
    Iso8583_ans,
    /// Alphanumeric, with pad characters.
    Iso8583_anp,
    /// Numeric, with a leading credit or debit sign.
    Iso8583_xn,
    /// Track data.
    ISO8583_z,
    /// Opaque binary octets.
    Iso8583_b,
    /// Bitmap carried as raw binary octets.
    Iso8583_bmp,
    /// Bitmap carried as ASCII-hex text.
    Iso8583_bmps,
}

/// How the parser computes a field's on-wire length.
#[derive(Clone, Copy, Debug, PartialEq, Eq, Structural)]
pub enum FieldSizeType {
    /// The payload always occupies exactly the declared length.
    Fixed,
    /// A 2-digit ASCII decimal prefix gives the payload length.
    LlVar,
    /// A 3-digit ASCII decimal prefix gives the payload length.
    LllVar,
    /// A 4-digit ASCII decimal prefix gives the payload length.
    LlllVar,
    /// The field is the bitmap; its width follows from its character class.
    BitMap,
}

/// Width in bytes of the ASCII decimal length prefix of a field.
pub open spec fn prefix_width(t: FieldSizeType) -> int {
    match t {
        FieldSizeType::LlVar => 2,
        FieldSizeType::LllVar => 3,
        FieldSizeType::LlllVar => 4,
        _ => 0,
    }
}

/// True of the character classes that mark the bitmap position.
pub open spec fn is_bitmap_kind(c: FieldCharType) -> bool {
    c == FieldCharType::Iso8583_bmp || c == FieldCharType::Iso8583_bmps
}

/// Immutable per-position metadata of a message specification.
#[derive(Clone, Copy, Debug)]
pub struct IsoField {
    /// Human label; diagnostic only.
    pub label: &'static str,
    /// Permitted alphabet.
    pub char_type: FieldCharType,
    /// Upper bound on payload bytes, excluding any length prefix.
    pub length: usize,
    /// Size discipline: fixed width, length-prefixed, or bitmap.
    pub size_type: FieldSizeType,
}

impl IsoField {
    pub fn new(label: &'static str, char_type: FieldCharType, length: usize, size_type: FieldSizeType) -> (r:
        IsoField)
        ensures
            r == (IsoField { label, char_type, length, size_type }),
    {
        IsoField { label, char_type, length, size_type }
    }
}

/// Mathematical model of a `FieldPayload`.
pub ghost struct SlotModel {
    /// Presence flag.
    pub exist: bool,
    /// Offset of the field's on-wire bytes in the source buffer.
    pub index: int,
    /// Total on-wire byte count, length prefix included.
    pub len: int,
    /// Caller-supplied override, length prefix included.
    pub over: Option<Seq<u8>>,
}

/// Per-position parse/edit state: presence, position in the source buffer,
/// and an optional caller-supplied override payload.
#[derive(Clone, Debug)]
pub struct FieldPayload {
    /// Presence flag.
    pub exist: bool,
    /// Offset of the field's on-wire bytes in the source buffer.
    pub index: usize,
    /// Total on-wire byte count, length prefix included.
    pub len: usize,
    /// Caller-supplied override, length prefix included; emitted in place of
    /// the source slice.
    pub new_payload: Option<Vec<u8>>,
}

impl View for FieldPayload {
    type V = SlotModel;

    open spec fn view(&self) -> SlotModel {
        SlotModel {
            exist: self.exist,
            index: self.index as int,
            len: self.len as int,
            over: match self.new_payload {
                Some(v) => Some(v@),
                None => None,
            },
        }
    }
}

/// The model of an absent, untouched slot.
pub open spec fn empty_slot() -> SlotModel {
    SlotModel { exist: false, index: 0, len: 0, over: None }
}

impl Default for FieldPayload {
    /// An absent slot: no presence, no position, no override.
    fn default() -> (r: FieldPayload)
        ensures
            r@ == empty_slot(),
    {
        FieldPayload { exist: false, index: 0, len: 0, new_payload: None }
    }
}

/// The models of a run of slots, in order.
pub open spec fn slots_view(s: Seq<FieldPayload>) -> Seq<SlotModel> {
    s.map_values(|f: FieldPayload| f@)
}

} // verus!
