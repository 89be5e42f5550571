//! The library's laws: properties relating several operations, stated over
//! the mathematical model and proved once for every message.

use vstd::prelude::*;

use crate::bits::bit_at;
use crate::bits::lemma_octet_from_own_bits;
use crate::bits::lemma_octet_of_bits;
use crate::bits::nth_bit;
use crate::error::IsoError;
use crate::hex::hex_decode;
use crate::iso_field::FieldCharType;
use crate::iso_field::IsoField;
use crate::iso_field::SlotModel;
use crate::iso_field::prefix_width;
use crate::model::bitmap_pos;
use crate::model::bitmap_wire;
use crate::model::emit_bit;
use crate::model::emit_bitmap_octet;
use crate::model::emit_bitmap_octets;
use crate::model::emit_msg;
use crate::model::get_spec;
use crate::model::lemma_dec_digits_len;
use crate::model::msg_wf;
use crate::model::pow10;
use crate::model::remove_spec;
use crate::model::secondary_needed;
use crate::model::set_spec;
use crate::model::slot_exists_at;

verus! {

/// Law: serialization depends on the message alone, so emitting one message
/// twice yields identical bytes.
pub proof fn lemma_idempotent_emit(
    h: Seq<IsoField>,
    payload: Seq<u8>,
    slots: Seq<SlotModel>,
    r1: Seq<u8>,
    r2: Seq<u8>,
)
    requires
        r1 == emit_msg(h, payload, slots),
        r2 == emit_msg(h, payload, slots),
    ensures
        r1 == r2,
{
}

/// Law: setting a field and then reading it yields exactly the payload that
/// was set, whenever the payload respects the field's declared bounds and
/// the destination holds it.
pub proof fn lemma_get_after_set(
    h: Seq<IsoField>,
    buf: Seq<u8>,
    slots: Seq<SlotModel>,
    i: int,
    p: Seq<u8>,
    dst_len: int,
)
    requires
        msg_wf(h, buf, slots),
        0 <= i < h.len(),
        p.len() <= h[i].length,
        prefix_width(h[i].size_type) > 0 ==> p.len() < pow10(prefix_width(h[i].size_type)),
        p.len() <= dst_len,
    ensures
        set_spec(h, slots, i, p) matches Ok(slots2) && get_spec(h, buf, slots2, i, dst_len) == Ok::<
            Seq<u8>,
            IsoError,
        >(p),
{
    let slots2 = set_spec(h, slots, i, p)->Ok_0;
    let w = prefix_width(h[i].size_type);
    lemma_dec_digits_len(w, p.len() as int);
    assert(crate::model::override_bytes(h[i], p).skip(w) =~= p);
}

/// Law: removing a field and then reading it reports the field not set.
pub proof fn lemma_remove_then_get(
    h: Seq<IsoField>,
    buf: Seq<u8>,
    slots: Seq<SlotModel>,
    i: int,
    dst_len: int,
)
    requires
        msg_wf(h, buf, slots),
        0 <= i < h.len(),
    ensures
        remove_spec(h, slots, i) matches Ok(slots2) && get_spec(h, buf, slots2, i, dst_len)
            == Err::<Seq<u8>, IsoError>(IsoError::FieldNotSet),
{
}

/// Law: in the emitted bitmap, bit `k` is set exactly when position
/// `bitmap_position + k` is present, for every data position other than the
/// bitmap itself; bits past the emitted segments stand for absent positions.
pub proof fn lemma_bitmap_consistency(h: Seq<IsoField>, slots: Seq<SlotModel>, k: int)
    requires
        slots.len() == h.len(),
        bitmap_pos(h) >= 0,
        1 <= k < 128,
    ensures
        ({
            let bp = bitmap_pos(h);
            let octs = emit_bitmap_octets(slots, bp);
            &&& (k < 8 * octs.len() ==> bit_at(octs, k) == slot_exists_at(slots, bp + k))
            &&& (k >= 8 * octs.len() ==> !slot_exists_at(slots, bp + k))
        }),
{
    let bp = bitmap_pos(h);
    let sec = secondary_needed(slots, bp);
    let octs = emit_bitmap_octets(slots, bp);
    if k < 8 * octs.len() {
        let j = k / 8;
        let l = k % 8;
        assert(octs[j] == emit_bitmap_octet(slots, bp, sec, j));
        lemma_octet_of_bits(
            emit_bit(slots, bp, sec, 8 * j),
            emit_bit(slots, bp, sec, 8 * j + 1),
            emit_bit(slots, bp, sec, 8 * j + 2),
            emit_bit(slots, bp, sec, 8 * j + 3),
            emit_bit(slots, bp, sec, 8 * j + 4),
            emit_bit(slots, bp, sec, 8 * j + 5),
            emit_bit(slots, bp, sec, 8 * j + 6),
            emit_bit(slots, bp, sec, 8 * j + 7),
        );
        assert(8 * j + l == k);
        assert(nth_bit(octs[j], l) == emit_bit(slots, bp, sec, k));
    } else {
        assert(!sec);
        assert(k >= 64);
        if slot_exists_at(slots, bp + k) {
            assert(secondary_needed(slots, bp));
        }
    }
}

/// Law: the emitted bitmap carries both segments, with its first bit set,
/// exactly when some position more than 64 places past the bitmap is
/// present; otherwise the first bit is clear and only the primary segment
/// is emitted.
pub proof fn lemma_bitmap_extension(h: Seq<IsoField>, slots: Seq<SlotModel>)
    requires
        slots.len() == h.len(),
        bitmap_pos(h) >= 0,
    ensures
        ({
            let bp = bitmap_pos(h);
            let octs = emit_bitmap_octets(slots, bp);
            if secondary_needed(slots, bp) {
                octs.len() == 16 && bit_at(octs, 0)
            } else {
                octs.len() == 8 && !bit_at(octs, 0)
            }
        }),
{
    let bp = bitmap_pos(h);
    let sec = secondary_needed(slots, bp);
    let octs = emit_bitmap_octets(slots, bp);
    assert(octs[0] == emit_bitmap_octet(slots, bp, sec, 0));
    lemma_octet_of_bits(
        emit_bit(slots, bp, sec, 0),
        emit_bit(slots, bp, sec, 1),
        emit_bit(slots, bp, sec, 2),
        emit_bit(slots, bp, sec, 3),
        emit_bit(slots, bp, sec, 4),
        emit_bit(slots, bp, sec, 5),
        emit_bit(slots, bp, sec, 6),
        emit_bit(slots, bp, sec, 7),
    );
    assert(bit_at(octs, 0) == nth_bit(octs[0], 0));
}

/// The bitmap section of a parsed buffer is canonical: it announces the
/// secondary segment exactly when the secondary half carries a bit, sets no
/// presence bit beyond the field table, and, in the ASCII-hex form, is
/// written in uppercase. A serializer run re-creates exactly such a bitmap,
/// so only such buffers can reproduce themselves.
pub open spec fn bitmap_canonical(h: Seq<IsoField>, buf: Seq<u8>) -> bool {
    let f = crate::model::parse_msg(h, buf);
    f.found ==> {
        &&& (forall|k: int| 1 <= k < 128 && f.bitpos + k >= h.len() ==> !(#[trigger] bit_at(
            f.bits,
            k,
        )))
        &&& bit_at(f.bits, 0) == (exists|k: int| 64 <= k < 128 && #[trigger] bit_at(f.bits, k))
        &&& (h[f.bitpos].char_type == FieldCharType::Iso8583_bmps ==> crate::hex::upper_hex_ok(
            buf.subrange(
                f.slots[f.bitpos].index,
                f.slots[f.bitpos].index + f.slots[f.bitpos].len,
            ),
        ))
    }
}

/// The emitted bitmap octets equal the decoded octets `d` whenever slot
/// presence agrees with the decoded bits and the secondary announcement is
/// consistent.
proof fn lemma_octets_match(slots: Seq<SlotModel>, bp: int, sec: bool, bits: Seq<u8>, d: Seq<u8>)
    requires
        bits == crate::bits::pad16(d),
        d.len() == 8 || d.len() == 16,
        forall|k: int| 1 <= k < 128 ==> slot_exists_at(slots, bp + k) == #[trigger] bit_at(bits, k),
        sec == bit_at(bits, 0),
        secondary_needed(slots, bp) == sec,
        d.len() == if sec {
            16int
        } else {
            8int
        },
    ensures
        emit_bitmap_octets(slots, bp) == d,
{
    let octs = emit_bitmap_octets(slots, bp);
    assert(octs.len() == d.len());
    assert forall|j: int| 0 <= j < d.len() implies octs[j] == d[j] by {
        lemma_octet_from_own_bits(d[j]);
        assert forall|l: int| 0 <= l < 8 implies nth_bit(d[j], l) == emit_bit(
            slots,
            bp,
            sec,
            8 * j + l,
        ) by {
            let k = 8 * j + l;
            assert(k / 8 == j && k % 8 == l);
            assert(bits[j] == d[j]);
            assert(bit_at(bits, k) == nth_bit(d[j], l));
            if k != 0 {
                assert(slot_exists_at(slots, bp + k) == bit_at(bits, k));
            }
        }
        assert(octs[j] == emit_bitmap_octet(slots, bp, sec, j));
    }
    assert(octs =~= d);
}

/// For a canonical buffer, the serializer's bitmap reproduces the buffer's
/// own bitmap section byte for byte.
proof fn lemma_emitted_bitmap_matches(h: Seq<IsoField>, buf: Seq<u8>)
    requires
        crate::model::parse_msg(h, buf).err is None,
        crate::model::parse_msg(h, buf).found,
        bitmap_canonical(h, buf),
    ensures
        ({
            let f = crate::model::parse_msg(h, buf);
            let s = f.slots[f.bitpos];
            bitmap_wire(h, f.slots, f.bitpos) == buf.subrange(s.index, s.index + s.len)
        }),
{
    let f = crate::model::parse_msg(h, buf);
    let n = h.len() as int;
    crate::model::lemma_parse_state_inv(h, buf, n);
    let bp = f.bitpos;
    crate::model::lemma_parse_prefix_stable(h, buf, bp, n);
    crate::model::lemma_parse_prefix_stable(h, buf, bp + 1, n);
    let st0 = crate::model::parse_upto(h, buf, bp);
    let st1 = crate::model::parse_upto(h, buf, bp + 1);
    crate::model::lemma_parse_state_inv(h, buf, bp);
    crate::model::lemma_parse_state_inv(h, buf, bp + 1);
    if st0.found {
        assert(f.bitpos == st0.bitpos);
        assert(st0.bitpos < bp);
        assert(false);
    }
    assert(crate::iso_field::is_bitmap_kind(h[bp].char_type));
    assert(st1 == crate::model::parse_step(h, buf, st0, bp));
    assert(f.slots.take(bp + 1) == st1.slots);
    let s = f.slots[bp];
    assert(s == st1.slots[bp]);
    assert(st1.found && st1.bitpos == bp);
    assert(f.bits == st1.bits);
    // Presence of positions past the bitmap agrees with the decoded bits.
    assert forall|k: int| 1 <= k < 128 implies slot_exists_at(f.slots, bp + k) == #[trigger] bit_at(
        f.bits,
        k,
    ) by {
        if bp + k < n {
            assert(f.slots[bp + k].exist == (k < 128 && bit_at(f.bits, k)));
        } else {
            assert(!slot_exists_at(f.slots, bp + k));
            assert(!bit_at(f.bits, k));
        }
    }
    // The secondary announcement agrees with the secondary contents.
    let sec = secondary_needed(f.slots, bp);
    assert(sec == bit_at(f.bits, 0)) by {
        if sec {
            let i = choose|i: int|
                bp + 64 <= i < bp + 128 && #[trigger] slot_exists_at(f.slots, i);
            assert(bit_at(f.bits, i - bp));
        }
        if bit_at(f.bits, 0) {
            let k = choose|k: int| 64 <= k < 128 && #[trigger] bit_at(f.bits, k);
            assert(slot_exists_at(f.slots, bp + k));
        }
    }
    let c0 = st0.cursor;
    if h[bp].char_type == FieldCharType::Iso8583_bmps {
        let first = hex_decode(buf.subrange(c0, c0 + 16));
        assert(c0 + 16 <= buf.len() && crate::hex::hex_ok(buf.subrange(c0, c0 + 16)));
        if bit_at(first, 0) {
            let region = buf.subrange(c0, c0 + 32);
            assert(c0 + 32 <= buf.len() && crate::hex::hex_ok(region));
            let d = hex_decode(region);
            assert(f.bits == crate::bits::pad16(d));
            assert(s.index == c0 && s.len == 32);
            assert(d.len() == 16);
            assert(d[0] == first[0]) by {
                assert(region[0] == buf[c0] && region[1] == buf[c0 + 1]);
                assert(buf.subrange(c0, c0 + 16)[0] == buf[c0] && buf.subrange(c0, c0 + 16)[1]
                    == buf[c0 + 1]);
            }
            assert(bit_at(f.bits, 0) == nth_bit(d[0], 0));
            assert(bit_at(f.bits, 0));
            assert(sec);
            lemma_octets_match(f.slots, bp, sec, f.bits, d);
            crate::hex::lemma_encode_of_decode(region);
            assert(bitmap_wire(h, f.slots, bp) == region);
            assert(region == buf.subrange(s.index, s.index + s.len));
        } else {
            let region = buf.subrange(c0, c0 + 16);
            let d = first;
            assert(f.bits == crate::bits::pad16(d));
            assert(s.index == c0 && s.len == 16);
            assert(d.len() == 8);
            assert(bit_at(f.bits, 0) == nth_bit(d[0], 0));
            assert(!bit_at(f.bits, 0));
            assert(!sec);
            lemma_octets_match(f.slots, bp, sec, f.bits, d);
            crate::hex::lemma_encode_of_decode(region);
            assert(bitmap_wire(h, f.slots, bp) == region);
            assert(region == buf.subrange(s.index, s.index + s.len));
        }
    } else {
        let first = buf.subrange(c0, c0 + 8);
        assert(c0 + 8 <= buf.len());
        if bit_at(first, 0) {
            let region = buf.subrange(c0, c0 + 16);
            assert(c0 + 16 <= buf.len());
            let d = region;
            assert(f.bits == crate::bits::pad16(d));
            assert(s.index == c0 && s.len == 16);
            assert(d[0] == first[0]) by {
                assert(region[0] == buf[c0] && first[0] == buf[c0]);
            }
            assert(bit_at(f.bits, 0) == nth_bit(d[0], 0));
            assert(sec);
            lemma_octets_match(f.slots, bp, sec, f.bits, d);
            assert(bitmap_wire(h, f.slots, bp) == region);
            assert(region == buf.subrange(s.index, s.index + s.len));
        } else {
            let d = first;
            assert(f.bits == crate::bits::pad16(d));
            assert(s.index == c0 && s.len == 8);
            assert(bit_at(f.bits, 0) == nth_bit(d[0], 0));
            assert(!sec);
            lemma_octets_match(f.slots, bp, sec, f.bits, d);
            assert(bitmap_wire(h, f.slots, bp) == first);
            assert(first == buf.subrange(s.index, s.index + s.len));
        }
    }
}

/// The wire image of the first `n` positions of an unedited parse equals
/// the bytes the parser consumed for them.
proof fn lemma_round_trip_upto(h: Seq<IsoField>, buf: Seq<u8>, n: int)
    requires
        0 <= n <= h.len(),
        crate::model::parse_msg(h, buf).err is None,
        bitmap_canonical(h, buf),
    ensures
        crate::model::emit_upto(h, buf, crate::model::parse_msg(h, buf).slots, n) == buf.take(
            crate::model::parse_upto(h, buf, n).cursor,
        ),
    decreases n,
{
    let f = crate::model::parse_msg(h, buf);
    let hn = h.len() as int;
    crate::model::lemma_parse_state_inv(h, buf, hn);
    if n == 0 {
        assert(crate::model::emit_upto(h, buf, f.slots, 0) =~= buf.take(0));
    } else {
        lemma_round_trip_upto(h, buf, n - 1);
        crate::model::lemma_parse_prefix_stable(h, buf, n - 1, hn);
        crate::model::lemma_parse_prefix_stable(h, buf, n, hn);
        crate::model::lemma_parse_prefix_stable(h, buf, n - 1, n);
        crate::model::lemma_parse_state_inv(h, buf, n - 1);
        crate::model::lemma_parse_state_inv(h, buf, n);
        let st0 = crate::model::parse_upto(h, buf, n - 1);
        let st1 = crate::model::parse_upto(h, buf, n);
        assert(st1 == crate::model::parse_step(h, buf, st0, n - 1));
        let s = f.slots[n - 1];
        assert(f.slots.take(n) == st1.slots);
        assert(s == st1.slots[n - 1]);
        let c0 = st0.cursor;
        let fw = crate::model::field_wire(h, buf, f.slots, n - 1);
        if !st0.found && crate::iso_field::is_bitmap_kind(h[n - 1].char_type) {
            // The bitmap position.
            assert(f.found) by {
                assert(st1.found);
            }
            assert(f.bitpos == n - 1) by {
                assert(st1.bitpos == n - 1);
            }
            assert(bitmap_pos(h) == n - 1);
            lemma_emitted_bitmap_matches(h, buf);
            assert(fw == bitmap_wire(h, f.slots, n - 1));
            assert(fw == buf.subrange(s.index, s.index + s.len));
            assert(s.index == c0 && st1.cursor == c0 + s.len);
            assert(buf.take(st1.cursor) =~= buf.take(c0) + buf.subrange(c0, c0 + s.len));
        } else {
            // An ordinary position: the bitmap, if any, lies elsewhere.
            assert(n - 1 != bitmap_pos(h)) by {
                if f.found {
                    if st0.found {
                        assert(f.bitpos == st0.bitpos);
                        assert(st0.bitpos < n - 1);
                    } else {
                        // the bitmap is found at or after position n - 1,
                        // and position n - 1 itself is not bitmap-kind
                        assert(f.bitpos >= n - 1);
                        if f.bitpos == n - 1 {
                            assert(crate::iso_field::is_bitmap_kind(h[n - 1].char_type));
                            assert(false);
                        }
                    }
                    assert(bitmap_pos(h) == f.bitpos);
                } else {
                    crate::model::lemma_bitmap_pos_none(h);
                }
            }
            let present = if !st0.found {
                true
            } else {
                0 <= n - 1 - st0.bitpos < 128 && bit_at(st0.bits, n - 1 - st0.bitpos)
            };
            if present {
                assert(s.exist && s.over is None && s.index == c0 && st1.cursor == c0 + s.len);
                assert(fw == crate::model::slot_wire(buf, s));
                assert(fw == buf.subrange(c0, c0 + s.len));
                assert(buf.take(st1.cursor) =~= buf.take(c0) + buf.subrange(c0, c0 + s.len));
            } else {
                assert(s == crate::iso_field::empty_slot());
                assert(!slot_exists_at(f.slots, n - 1));
                assert(fw =~= Seq::<u8>::empty());
                assert(st1.cursor == c0);
                assert(buf.take(st1.cursor) + fw =~= buf.take(st1.cursor));
            }
        }
        assert(crate::model::emit_upto(h, buf, f.slots, n) == crate::model::emit_upto(
            h,
            buf,
            f.slots,
            n - 1,
        ) + fw);
    }
}

/// Law: a buffer that parses successfully and is serialized without any
/// edit reproduces the bytes the parser consumed, byte for byte — provided
/// its bitmap section is canonical (see `bitmap_canonical`; a buffer whose
/// bitmap announces an all-zero secondary segment, sets a bit past the field
/// table, or writes its hexadecimal text in lowercase re-serializes to the
/// canonical form instead).
pub proof fn lemma_round_trip(h: Seq<IsoField>, buf: Seq<u8>)
    requires
        crate::model::parse_msg(h, buf).err is None,
        bitmap_canonical(h, buf),
    ensures
        crate::model::emit_msg(h, buf, crate::model::parse_msg(h, buf).slots) == buf.take(
            crate::model::parse_msg(h, buf).cursor,
        ),
{
    lemma_round_trip_upto(h, buf, h.len() as int);
}

/// The emitted bitmap's wire form decodes back to its octets: the ASCII-hex
/// form through hexadecimal decoding, the binary form as it stands.
pub proof fn lemma_bitmap_wire_decodes(h: Seq<IsoField>, slots: Seq<SlotModel>)
    requires
        bitmap_pos(h) >= 0,
    ensures
        ({
            let bp = bitmap_pos(h);
            let octs = emit_bitmap_octets(slots, bp);
            if h[bp].char_type == FieldCharType::Iso8583_bmps {
                hex_decode(bitmap_wire(h, slots, bp)) == octs
            } else {
                bitmap_wire(h, slots, bp) == octs
            }
        }),
{
    let bp = bitmap_pos(h);
    let octs = emit_bitmap_octets(slots, bp);
    if h[bp].char_type == FieldCharType::Iso8583_bmps {
        crate::hex::lemma_decode_of_encode(octs);
    }
}

} // verus!
