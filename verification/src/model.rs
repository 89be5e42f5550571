//! The mathematical model of the codec: a specification-level interpreter
//! for the parser and a specification-level emitter for the serializer. The
//! executable code in `iso_msg` is verified against these functions.

use vstd::prelude::*;

use crate::bits::bit_at;
use crate::bits::octet_of_bits;
use crate::bits::pad16;
use crate::error::IsoError;
use crate::hex::hex_decode;
use crate::hex::hex_encode;
use crate::hex::hex_ok;
use crate::iso_field::FieldCharType;
use crate::iso_field::FieldSizeType;
use crate::iso_field::IsoField;
use crate::iso_field::SlotModel;
use crate::iso_field::empty_slot;
use crate::iso_field::is_bitmap_kind;
use crate::iso_field::prefix_width;

verus! {

/// ASCII decimal digit.
pub open spec fn is_digit(c: u8) -> bool {
    48 <= c <= 57
}

/// Every byte of `s` is an ASCII decimal digit.
pub open spec fn digits_ok(s: Seq<u8>) -> bool {
    forall|i: int| 0 <= i < s.len() ==> is_digit(#[trigger] s[i])
}

/// Value of a run of ASCII decimal digits, most significant first.
pub open spec fn dec_value(s: Seq<u8>) -> int
    decreases s.len(),
{
    if s.len() == 0 {
        0
    } else {
        dec_value(s.drop_last()) * 10 + (s.last() - 48)
    }
}

/// The `width`-digit zero-padded ASCII decimal form of `n`.
pub open spec fn dec_digits(width: int, n: int) -> Seq<u8>
    decreases width,
{
    if width <= 0 {
        Seq::empty()
    } else {
        dec_digits(width - 1, n / 10).push((48 + n % 10) as u8)
    }
}

/// 16 zero octets.
pub open spec fn zero16() -> Seq<u8> {
    Seq::new(16, |j: int| 0u8)
}

/// The parser's running state after some prefix of the field table.
pub ghost struct ParseState {
    /// One slot per visited position.
    pub slots: Seq<SlotModel>,
    /// Next unread offset in the source buffer.
    pub cursor: int,
    /// Whether the bitmap position has been passed.
    pub found: bool,
    /// The bitmap position, once found.
    pub bitpos: int,
    /// The decoded bitmap octets, padded with zeros to 16.
    pub bits: Seq<u8>,
    /// The first failure, if any; once set the state no longer changes.
    pub err: Option<IsoError>,
}

/// The state before any position has been visited.
pub open spec fn init_state() -> ParseState {
    ParseState {
        slots: Seq::empty(),
        cursor: 0,
        found: false,
        bitpos: 0,
        bits: zero16(),
        err: None,
    }
}

/// The failed state reached from `st` by error `e`.
pub open spec fn fail_state(st: ParseState, e: IsoError) -> ParseState {
    ParseState { err: Some(e), ..st }
}

/// One step of the parser: visits position `i` of the field table, reading
/// the bitmap or one field at the cursor.
pub open spec fn parse_step(h: Seq<IsoField>, buf: Seq<u8>, st: ParseState, i: int) -> ParseState {
    if st.err is Some {
        st
    } else {
        let f = h[i];
        if !st.found && is_bitmap_kind(f.char_type) {
            parse_bitmap_step(buf, st, i, f.char_type)
        } else {
            let present = if !st.found {
                true
            } else {
                0 <= i - st.bitpos < 128 && bit_at(st.bits, i - st.bitpos)
            };
            if !present {
                ParseState { slots: st.slots.push(empty_slot()), ..st }
            } else if f.size_type == FieldSizeType::BitMap {
                fail_state(st, IsoError::UnsupportedCharClass { position: i as usize })
            } else {
                let w = prefix_width(f.size_type);
                if w > 0 {
                    if st.cursor + w > buf.len() {
                        fail_state(st, IsoError::TruncatedMessage { position: i as usize })
                    } else if !digits_ok(buf.subrange(st.cursor, st.cursor + w)) {
                        fail_state(st, IsoError::MalformedLengthPrefix { position: i as usize })
                    } else {
                        let total = dec_value(buf.subrange(st.cursor, st.cursor + w)) + w;
                        take_field_step(buf, st, i, total)
                    }
                } else {
                    take_field_step(buf, st, i, f.length as int)
                }
            }
        }
    }
}

/// Records a present field of `total` on-wire bytes at the cursor.
pub open spec fn take_field_step(buf: Seq<u8>, st: ParseState, i: int, total: int) -> ParseState {
    if st.cursor + total > buf.len() {
        fail_state(st, IsoError::TruncatedMessage { position: i as usize })
    } else {
        ParseState {
            slots: st.slots.push(
                SlotModel { exist: true, index: st.cursor, len: total, over: None },
            ),
            cursor: st.cursor + total,
            ..st
        }
    }
}

/// Decodes the bitmap at the cursor: 8 octets, then 8 more when bit 0
/// announces the secondary segment; in the ASCII-hex form, two text bytes
/// stand for each octet.
pub open spec fn parse_bitmap_step(
    buf: Seq<u8>,
    st: ParseState,
    i: int,
    class: FieldCharType,
) -> ParseState {
    if class == FieldCharType::Iso8583_bmps {
        if st.cursor + 16 > buf.len() {
            fail_state(st, IsoError::TruncatedMessage { position: i as usize })
        } else if !hex_ok(buf.subrange(st.cursor, st.cursor + 16)) {
            fail_state(st, IsoError::MalformedLengthPrefix { position: i as usize })
        } else {
            let first = hex_decode(buf.subrange(st.cursor, st.cursor + 16));
            if bit_at(first, 0) {
                if st.cursor + 32 > buf.len() {
                    fail_state(st, IsoError::TruncatedMessage { position: i as usize })
                } else if !hex_ok(buf.subrange(st.cursor, st.cursor + 32)) {
                    fail_state(st, IsoError::MalformedLengthPrefix { position: i as usize })
                } else {
                    found_bitmap_step(
                        st,
                        i,
                        32,
                        pad16(hex_decode(buf.subrange(st.cursor, st.cursor + 32))),
                    )
                }
            } else {
                found_bitmap_step(st, i, 16, pad16(first))
            }
        }
    } else {
        if st.cursor + 8 > buf.len() {
            fail_state(st, IsoError::TruncatedMessage { position: i as usize })
        } else {
            let first = buf.subrange(st.cursor, st.cursor + 8);
            if bit_at(first, 0) {
                if st.cursor + 16 > buf.len() {
                    fail_state(st, IsoError::TruncatedMessage { position: i as usize })
                } else {
                    found_bitmap_step(st, i, 16, pad16(buf.subrange(st.cursor, st.cursor + 16)))
                }
            } else {
                found_bitmap_step(st, i, 8, pad16(first))
            }
        }
    }
}

/// Records the bitmap slot of `width` on-wire bytes and the decoded octets.
pub open spec fn found_bitmap_step(st: ParseState, i: int, width: int, bits: Seq<u8>) -> ParseState {
    ParseState {
        slots: st.slots.push(SlotModel { exist: true, index: st.cursor, len: width, over: None }),
        cursor: st.cursor + width,
        found: true,
        bitpos: i,
        bits: bits,
        err: st.err,
    }
}

/// A run of decimal digits denotes a nonnegative value.
pub proof fn lemma_dec_value_nonneg(s: Seq<u8>)
    requires
        digits_ok(s),
    ensures
        0 <= dec_value(s),
    decreases s.len(),
{
    if s.len() > 0 {
        assert forall|i: int| 0 <= i < s.drop_last().len() implies is_digit(
            #[trigger] s.drop_last()[i],
        ) by {
            assert(s.drop_last()[i] == s[i]);
        }
        lemma_dec_value_nonneg(s.drop_last());
        assert(is_digit(s.last()));
    }
}

/// The parser's state after the first `n` positions of the field table.
pub open spec fn parse_upto(h: Seq<IsoField>, buf: Seq<u8>, n: int) -> ParseState
    decreases n,
{
    if n <= 0 {
        init_state()
    } else {
        parse_step(h, buf, parse_upto(h, buf, n - 1), n - 1)
    }
}

/// The parser's denotation: the state after the whole field table.
pub open spec fn parse_msg(h: Seq<IsoField>, buf: Seq<u8>) -> ParseState {
    parse_upto(h, buf, h.len() as int)
}

/// Once a step fails, every later state reports the same failure.
pub proof fn lemma_parse_err_sticky(h: Seq<IsoField>, buf: Seq<u8>, n: int, m: int)
    requires
        0 <= n <= m,
        parse_upto(h, buf, n).err is Some,
    ensures
        parse_upto(h, buf, m) == parse_upto(h, buf, n),
    decreases m - n,
{
    if m > n {
        lemma_parse_err_sticky(h, buf, n, m - 1);
    }
}

/// First bitmap-kind position at or after `i`, or -1 when there is none.
pub open spec fn bitmap_pos_from(h: Seq<IsoField>, i: int) -> int
    decreases h.len() - i,
{
    if i < 0 || i >= h.len() {
        -1
    } else if is_bitmap_kind(h[i].char_type) {
        i
    } else {
        bitmap_pos_from(h, i + 1)
    }
}

/// The bitmap position of a field table, or -1 when it has none.
pub open spec fn bitmap_pos(h: Seq<IsoField>) -> int {
    bitmap_pos_from(h, 0)
}

pub proof fn lemma_bitmap_pos_first(h: Seq<IsoField>, p: int)
    requires
        0 <= p < h.len(),
        is_bitmap_kind(h[p].char_type),
        forall|j: int| 0 <= j < p ==> !is_bitmap_kind(#[trigger] h[j].char_type),
    ensures
        bitmap_pos(h) == p,
{
    lemma_bitmap_pos_from_first(h, 0, p);
}

proof fn lemma_bitmap_pos_from_first(h: Seq<IsoField>, i: int, p: int)
    requires
        0 <= i <= p < h.len(),
        is_bitmap_kind(h[p].char_type),
        forall|j: int| i <= j < p ==> !is_bitmap_kind(#[trigger] h[j].char_type),
    ensures
        bitmap_pos_from(h, i) == p,
    decreases p - i,
{
    if i < p {
        lemma_bitmap_pos_from_first(h, i + 1, p);
    }
}

pub proof fn lemma_bitmap_pos_none(h: Seq<IsoField>)
    requires
        forall|j: int| 0 <= j < h.len() ==> !is_bitmap_kind(#[trigger] h[j].char_type),
    ensures
        bitmap_pos(h) == -1,
{
    lemma_bitmap_pos_from_none(h, 0);
}

proof fn lemma_bitmap_pos_from_none(h: Seq<IsoField>, i: int)
    requires
        0 <= i,
        forall|j: int| i <= j < h.len() ==> !is_bitmap_kind(#[trigger] h[j].char_type),
    ensures
        bitmap_pos_from(h, i) == -1,
    decreases h.len() - i,
{
    if i < h.len() {
        lemma_bitmap_pos_from_none(h, i + 1);
    }
}

/// What holds of one parsed slot: overrides only come from callers, and a
/// present slot points at real bytes of the buffer, at least as many as its
/// length prefix.
pub open spec fn slot_ok(h: Seq<IsoField>, buf: Seq<u8>, i: int, s: SlotModel) -> bool {
    &&& s.over is None
    &&& (s.exist ==> 0 <= s.index && s.index + s.len <= buf.len() && prefix_width(h[i].size_type)
        <= s.len)
    &&& (!s.exist ==> s == empty_slot())
}

/// What holds of every error-free parser state: one slot per visited
/// position, a cursor inside the buffer, and a sound record of the bitmap.
pub open spec fn state_inv(h: Seq<IsoField>, buf: Seq<u8>, n: int, st: ParseState) -> bool {
    st.err is None ==> {
        &&& st.slots.len() == n
        &&& 0 <= st.cursor <= buf.len()
        &&& st.bits.len() == 16
        &&& (st.found ==> 0 <= st.bitpos < n && is_bitmap_kind(h[st.bitpos].char_type)
            && bitmap_pos(h) == st.bitpos && st.slots[st.bitpos].exist)
        &&& (st.found ==> forall|j: int| 0 <= j < st.bitpos ==> (#[trigger] st.slots[j]).exist)
        &&& (st.found ==> forall|j: int|
            st.bitpos < j < n ==> (#[trigger] st.slots[j]).exist == (j - st.bitpos < 128 && bit_at(
                st.bits,
                j - st.bitpos,
            )))
        &&& (!st.found ==> forall|j: int|
            0 <= j < n ==> !is_bitmap_kind(#[trigger] h[j].char_type))
        &&& (!st.found ==> forall|j: int| 0 <= j < n ==> (#[trigger] st.slots[j]).exist)
        &&& (forall|j: int| 0 <= j < n ==> slot_ok(h, buf, j, #[trigger] st.slots[j]))
    }
}

pub proof fn lemma_parse_state_inv(h: Seq<IsoField>, buf: Seq<u8>, n: int)
    requires
        0 <= n <= h.len(),
    ensures
        state_inv(h, buf, n, parse_upto(h, buf, n)),
    decreases n,
{
    if n > 0 {
        lemma_parse_state_inv(h, buf, n - 1);
        let st = parse_upto(h, buf, n - 1);
        let st2 = parse_upto(h, buf, n);
        assert(st2 == parse_step(h, buf, st, n - 1));
        if st.err is None && st2.err is None {
            let f = h[n - 1];
            if !st.found && is_bitmap_kind(f.char_type) {
                lemma_bitmap_pos_first(h, n - 1);
            } else {
                let present = if !st.found {
                    true
                } else {
                    0 <= n - 1 - st.bitpos < 128 && bit_at(st.bits, n - 1 - st.bitpos)
                };
                if present && f.size_type != FieldSizeType::BitMap {
                    let w = prefix_width(f.size_type);
                    if w > 0 {
                        lemma_dec_value_nonneg(buf.subrange(st.cursor, st.cursor + w));
                    }
                }
            }
            assert forall|j: int| 0 <= j < n implies slot_ok(h, buf, j, #[trigger] st2.slots[j]) by {
                if j < n - 1 {
                    assert(st2.slots[j] == st.slots[j]);
                }
            }
        }
    }
}

/// What an earlier parser state settles, later states keep: its slots, its
/// bitmap record once found, and a cursor that only grows.
pub proof fn lemma_parse_prefix_stable(h: Seq<IsoField>, buf: Seq<u8>, n: int, m: int)
    requires
        0 <= n <= m <= h.len(),
        parse_upto(h, buf, m).err is None,
    ensures
        parse_upto(h, buf, n).err is None,
        parse_upto(h, buf, m).slots.take(n) == parse_upto(h, buf, n).slots,
        parse_upto(h, buf, n).found ==> parse_upto(h, buf, m).found && parse_upto(
            h,
            buf,
            m,
        ).bitpos == parse_upto(h, buf, n).bitpos && parse_upto(h, buf, m).bits == parse_upto(
            h,
            buf,
            n,
        ).bits,
        parse_upto(h, buf, n).cursor <= parse_upto(h, buf, m).cursor,
    decreases m - n,
{
    let stn = parse_upto(h, buf, n);
    let stm = parse_upto(h, buf, m);
    if n == m {
        lemma_parse_state_inv(h, buf, n);
        assert(stm.slots.take(n) =~= stn.slots);
    } else {
        let stp = parse_upto(h, buf, m - 1);
        if stp.err is Some {
            lemma_parse_err_sticky(h, buf, m - 1, m);
        }
        lemma_parse_prefix_stable(h, buf, n, m - 1);
        lemma_parse_state_inv(h, buf, n);
        lemma_parse_state_inv(h, buf, m - 1);
        let f = h[m - 1];
        if stp.err is None && !(!stp.found && is_bitmap_kind(f.char_type)) {
            let present = if !stp.found {
                true
            } else {
                0 <= m - 1 - stp.bitpos < 128 && bit_at(stp.bits, m - 1 - stp.bitpos)
            };
            if present && f.size_type != FieldSizeType::BitMap {
                let w = prefix_width(f.size_type);
                if w > 0 && stp.cursor + w <= buf.len() && digits_ok(
                    buf.subrange(stp.cursor, stp.cursor + w),
                ) {
                    lemma_dec_value_nonneg(buf.subrange(stp.cursor, stp.cursor + w));
                }
            }
        }
        assert(stm.slots.take(n) =~= stn.slots);
    }
}

/// True when position `i` holds a present slot.
pub open spec fn slot_exists_at(slots: Seq<SlotModel>, i: int) -> bool {
    0 <= i < slots.len() && slots[i].exist
}

/// Whether the emitted bitmap needs its secondary segment: some position
/// more than 64 places past the bitmap is present.
pub open spec fn secondary_needed(slots: Seq<SlotModel>, bitpos: int) -> bool {
    exists|i: int| bitpos + 64 <= i < bitpos + 128 && #[trigger] slot_exists_at(slots, i)
}

/// Bit `k` of the emitted bitmap: bit 0 announces the secondary segment,
/// bit `k` the presence of position `bitpos + k`.
pub open spec fn emit_bit(slots: Seq<SlotModel>, bitpos: int, sec: bool, k: int) -> bool {
    if k == 0 {
        sec
    } else {
        slot_exists_at(slots, bitpos + k)
    }
}

/// Octet `j` of the emitted bitmap.
pub open spec fn emit_bitmap_octet(slots: Seq<SlotModel>, bitpos: int, sec: bool, j: int) -> u8 {
    octet_of_bits(
        emit_bit(slots, bitpos, sec, 8 * j),
        emit_bit(slots, bitpos, sec, 8 * j + 1),
        emit_bit(slots, bitpos, sec, 8 * j + 2),
        emit_bit(slots, bitpos, sec, 8 * j + 3),
        emit_bit(slots, bitpos, sec, 8 * j + 4),
        emit_bit(slots, bitpos, sec, 8 * j + 5),
        emit_bit(slots, bitpos, sec, 8 * j + 6),
        emit_bit(slots, bitpos, sec, 8 * j + 7),
    )
}

/// The emitted bitmap octets: both segments when the secondary is needed,
/// the primary segment alone otherwise.
pub open spec fn emit_bitmap_octets(slots: Seq<SlotModel>, bitpos: int) -> Seq<u8> {
    let sec = secondary_needed(slots, bitpos);
    Seq::new(
        if sec {
            16
        } else {
            8
        },
        |j: int| emit_bitmap_octet(slots, bitpos, sec, j),
    )
}

/// The emitted bitmap in its wire form, per the bitmap field's class.
pub open spec fn bitmap_wire(h: Seq<IsoField>, slots: Seq<SlotModel>, bitpos: int) -> Seq<u8> {
    if h[bitpos].char_type == FieldCharType::Iso8583_bmps {
        hex_encode(emit_bitmap_octets(slots, bitpos))
    } else {
        emit_bitmap_octets(slots, bitpos)
    }
}

/// The on-wire bytes of one slot: the caller's override when set, else the
/// slot's slice of the source buffer.
pub open spec fn slot_wire(payload: Seq<u8>, s: SlotModel) -> Seq<u8> {
    match s.over {
        Some(v) => v,
        None => payload.subrange(s.index, s.index + s.len),
    }
}

/// What position `i` contributes to the wire image.
pub open spec fn field_wire(
    h: Seq<IsoField>,
    payload: Seq<u8>,
    slots: Seq<SlotModel>,
    i: int,
) -> Seq<u8> {
    if i == bitmap_pos(h) {
        bitmap_wire(h, slots, i)
    } else if slot_exists_at(slots, i) {
        slot_wire(payload, slots[i])
    } else {
        Seq::empty()
    }
}

/// The wire image of the first `n` positions.
pub open spec fn emit_upto(
    h: Seq<IsoField>,
    payload: Seq<u8>,
    slots: Seq<SlotModel>,
    n: int,
) -> Seq<u8>
    decreases n,
{
    if n <= 0 {
        Seq::empty()
    } else {
        emit_upto(h, payload, slots, n - 1) + field_wire(h, payload, slots, n - 1)
    }
}

/// The serializer's denotation: the full wire image of a message.
pub open spec fn emit_msg(h: Seq<IsoField>, payload: Seq<u8>, slots: Seq<SlotModel>) -> Seq<u8> {
    emit_upto(h, payload, slots, h.len() as int)
}

/// The logical payload of a slot: its on-wire bytes minus the length prefix.
pub open spec fn logical_payload(payload: Seq<u8>, f: IsoField, s: SlotModel) -> Seq<u8> {
    slot_wire(payload, s).skip(prefix_width(f.size_type))
}

/// The override stored by a set operation: the zero-padded decimal length
/// prefix, then the caller's payload.
pub open spec fn override_bytes(f: IsoField, p: Seq<u8>) -> Seq<u8> {
    dec_digits(prefix_width(f.size_type), p.len() as int) + p
}

/// Powers of ten.
pub open spec fn pow10(n: int) -> int
    decreases n,
{
    if n <= 0 {
        1
    } else {
        10 * pow10(n - 1)
    }
}

/// The small powers of ten the length prefixes can need.
pub proof fn lemma_pow10_small()
    ensures
        pow10(0) == 1,
        pow10(1) == 10,
        pow10(2) == 100,
        pow10(3) == 1000,
        pow10(4) == 10000,
{
    assert(pow10(0) == 1);
    assert(pow10(1) == 10);
    assert(pow10(2) == 100);
    assert(pow10(3) == 1000);
    assert(pow10(4) == 10000);
}

/// What the message's own operations keep true of one slot: a present
/// unedited slot points at real bytes of the buffer, and any override is at
/// least as long as the field's length prefix.
pub open spec fn msg_slot_ok(h: Seq<IsoField>, buf: Seq<u8>, i: int, s: SlotModel) -> bool {
    &&& (s.exist && s.over is None ==> 0 <= s.index && s.index + s.len <= buf.len()
        && prefix_width(h[i].size_type) <= s.len)
    &&& (s.over matches Some(v) ==> prefix_width(h[i].size_type) <= v.len())
}

/// Well-formedness of a message: one slot per specification position, each
/// slot sound for its field.
pub open spec fn msg_wf(h: Seq<IsoField>, buf: Seq<u8>, slots: Seq<SlotModel>) -> bool {
    &&& slots.len() == h.len()
    &&& forall|i: int| 0 <= i < h.len() ==> msg_slot_ok(h, buf, i, #[trigger] slots[i])
}

/// What a read of position `i` returns: the slot's logical payload, written
/// into a destination of `dst_len` bytes, or the error owed on that input.
pub open spec fn get_spec(
    h: Seq<IsoField>,
    buf: Seq<u8>,
    slots: Seq<SlotModel>,
    i: int,
    dst_len: int,
) -> Result<Seq<u8>, IsoError> {
    if !(0 <= i < h.len() && i < slots.len()) {
        Err(IsoError::PositionOutOfRange)
    } else {
        let s = slots[i];
        if !s.exist {
            Err(IsoError::FieldNotSet)
        } else if s.over is None && s.len == 0 {
            Err(IsoError::FieldNotSet)
        } else {
            let data = logical_payload(buf, h[i], s);
            if dst_len < data.len() {
                Err(IsoError::BufferTooSmall)
            } else {
                Ok(data)
            }
        }
    }
}

/// What a write of payload `p` to position `i` does: marks the slot present
/// with an override of length prefix plus payload, or the error owed.
pub open spec fn set_spec(h: Seq<IsoField>, slots: Seq<SlotModel>, i: int, p: Seq<u8>) -> Result<
    Seq<SlotModel>,
    IsoError,
> {
    if !(0 <= i < h.len() && i < slots.len()) {
        Err(IsoError::PositionOutOfRange)
    } else if p.len() > h[i].length {
        Err(IsoError::PayloadTooLong)
    } else if prefix_width(h[i].size_type) > 0 && p.len() >= pow10(prefix_width(h[i].size_type)) {
        Err(IsoError::PayloadTooLong)
    } else {
        Ok(
            slots.update(
                i,
                SlotModel {
                    exist: true,
                    index: slots[i].index,
                    len: slots[i].len,
                    over: Some(override_bytes(h[i], p)),
                },
            ),
        )
    }
}

/// What removing position `i` does: clears the presence flag, retaining the
/// slot's position and override, or the error owed.
pub open spec fn remove_spec(h: Seq<IsoField>, slots: Seq<SlotModel>, i: int) -> Result<
    Seq<SlotModel>,
    IsoError,
> {
    if !(0 <= i < h.len() && i < slots.len()) {
        Err(IsoError::PositionOutOfRange)
    } else {
        Ok(slots.update(i, SlotModel { exist: false, ..slots[i] }))
    }
}

/// Total on-wire length of a field whose bytes start the buffer: the fixed
/// length, or the prefixed length plus the prefix itself.
pub open spec fn field_total_len(f: IsoField, s: Seq<u8>) -> int {
    let w = prefix_width(f.size_type);
    if f.size_type == FieldSizeType::BitMap {
        0
    } else if w > 0 {
        dec_value(s.take(w)) + w
    } else {
        f.length as int
    }
}

pub proof fn lemma_slots_view_push(s: Seq<crate::iso_field::FieldPayload>, f: crate::iso_field::FieldPayload)
    ensures
        crate::iso_field::slots_view(s.push(f)) == crate::iso_field::slots_view(s).push(f@),
{
    assert(crate::iso_field::slots_view(s.push(f)) =~= crate::iso_field::slots_view(s).push(f@));
}

pub proof fn lemma_slots_view_update(
    s: Seq<crate::iso_field::FieldPayload>,
    i: int,
    f: crate::iso_field::FieldPayload,
)
    requires
        0 <= i < s.len(),
    ensures
        crate::iso_field::slots_view(s.update(i, f)) == crate::iso_field::slots_view(s).update(
            i,
            f@,
        ),
{
    assert(crate::iso_field::slots_view(s.update(i, f)) =~= crate::iso_field::slots_view(s).update(
        i,
        f@,
    ));
}

pub proof fn lemma_slots_view_concat(
    a: Seq<crate::iso_field::FieldPayload>,
    b: Seq<crate::iso_field::FieldPayload>,
)
    ensures
        crate::iso_field::slots_view(a + b) == crate::iso_field::slots_view(a)
            + crate::iso_field::slots_view(b),
{
    assert(crate::iso_field::slots_view(a + b) =~= crate::iso_field::slots_view(a)
        + crate::iso_field::slots_view(b));
}

pub proof fn lemma_dec_digits_len(width: int, n: int)
    ensures
        dec_digits(width, n).len() == if width <= 0 {
            0
        } else {
            width
        },
    decreases width,
{
    if width > 0 {
        lemma_dec_digits_len(width - 1, n / 10);
    }
}

pub proof fn lemma_dec_digits_ok(width: int, n: int)
    requires
        0 <= n,
    ensures
        digits_ok(dec_digits(width, n)),
    decreases width,
{
    if width > 0 {
        lemma_dec_digits_ok(width - 1, n / 10);
        let s = dec_digits(width, n);
        let s0 = dec_digits(width - 1, n / 10);
        assert forall|i: int| 0 <= i < s.len() implies is_digit(#[trigger] s[i]) by {
            if i < s.len() - 1 {
                assert(s[i] == s0[i]);
            } else {
                assert(0 <= n % 10 < 10);
            }
        }
    }
}

} // verus!
