//! The caller-facing message object: parsing, field access and mutation,
//! and serialization back to the wire layout.

use vstd::prelude::*;

use crate::bits::BitArray128;
use crate::bits::bit_at;
use crate::bits::pad16;
use crate::error::IsoError;
use crate::hex::decode_hex_region;
use crate::hex::hex_decode;
use crate::iso_field::FieldPayload;
use crate::iso_field::FieldSizeType;
use crate::iso_field::IsoField;
use crate::iso_field::SlotModel;
use crate::iso_field::empty_slot;
use crate::iso_field::is_bitmap_kind;
use crate::iso_field::prefix_width;
use crate::iso_field::slots_view;
use crate::model::dec_value;
use crate::model::dec_digits;
use crate::model::digits_ok;
use crate::model::field_total_len;
use crate::model::get_spec;
use crate::model::lemma_dec_digits_len;
use crate::model::lemma_parse_err_sticky;
use crate::model::lemma_parse_state_inv;
use crate::model::lemma_slots_view_concat;
use crate::model::lemma_slots_view_push;
use crate::model::lemma_slots_view_update;
use crate::model::msg_slot_ok;
use crate::model::msg_wf;
use crate::model::parse_msg;
use crate::model::parse_step;
use crate::model::parse_upto;
use crate::model::pow10;
use crate::model::remove_spec;
use crate::model::set_spec;
use crate::model::slot_ok;

verus! {

/// The read-only capability through which the codec consumes a message
/// specification: an ordered field table, indexed by ISO position. How the
/// table is built — hand-coded, generated, or loaded — is the caller's
/// concern.
pub trait IsoSpecs {
    /// The field table as the contracts see it. An implementation that
    /// leaves the default in place gives the contracts an unspecified
    /// table; nothing is then promised of what `get_handle` returns.
    open spec fn spec_handle(&self) -> Seq<IsoField> {
        vstd::pervasive::arbitrary()
    }

    /// The field table.
    fn get_handle(&self) -> (r: &Vec<IsoField>)
        ensures
            r@ == self.spec_handle(),
    ;
}

/// A parsed ISO 8583 message: the source bytes, the specification it was
/// parsed under, and one slot per specification position.
pub struct IsoMsg<'a, S: IsoSpecs> {
    payload: Vec<u8>,
    iso_spec: &'a S,
    fields: Vec<FieldPayload>,
}

/// Width in bytes of the ASCII decimal length prefix of a size discipline.
fn prefix_width_of(t: FieldSizeType) -> (r: usize)
    ensures
        r as int == prefix_width(t),
{
    match t {
        FieldSizeType::LlVar => 2,
        FieldSizeType::LllVar => 3,
        FieldSizeType::LlllVar => 4,
        _ => 0,
    }
}

/// Reads the `w`-digit ASCII decimal value at `buf[cursor..cursor + w]`, or
/// reports a non-digit byte in that range.
fn read_prefix(buf: &[u8], cursor: usize, w: usize) -> (r: Option<usize>)
    requires
        1 <= w <= 4,
        cursor + w <= buf@.len(),
    ensures
        r is Some <==> digits_ok(buf@.subrange(cursor as int, cursor + w)),
        r is Some ==> r->Some_0 == dec_value(buf@.subrange(cursor as int, cursor + w))
            && r->Some_0 <= 9999,
{
    let ghost region = buf@.subrange(cursor as int, cursor + w);
    let bl = buf.len();
    let mut v: usize = 0;
    let mut j: usize = 0;
    while j < w
        invariant
            j <= w <= 4,
            cursor + w <= bl == buf@.len(),
            region == buf@.subrange(cursor as int, cursor + w),
            digits_ok(region.take(j as int)),
            v == dec_value(region.take(j as int)),
            v < pow10(j as int),
        decreases w - j,
    {
        let c = *vstd::slice::slice_index_get(buf, cursor + j);
        assert(c == region[j as int]);
        if c < 48 || c > 57 {
            return None;
        }
        proof {
            crate::model::lemma_pow10_small();
            assert(j as int == 0 || j as int == 1 || j as int == 2 || j as int == 3);
            assert(v < 1000);
            let t = region.take(j + 1);
            assert(t.drop_last() =~= region.take(j as int));
            assert(t.last() == c);
        }
        v = v * 10 + (c - 48) as usize;
        j = j + 1;
        proof {
            assert forall|k: int| 0 <= k < j implies crate::model::is_digit(
                #[trigger] region.take(j as int)[k],
            ) by {
                if k < j - 1 {
                    assert(region.take(j as int)[k] == region.take(j - 1)[k]);
                } else {
                    assert(region.take(j as int)[k] == c);
                }
            }
        }
    }
    proof {
        assert(region.take(w as int) =~= region);
        crate::model::lemma_pow10_small();
        assert(w as int == 1 || w as int == 2 || w as int == 3 || w as int == 4);
    }
    Some(v)
}

/// The `w`-digit zero-padded ASCII decimal form of `n`.
fn make_prefix(w: usize, n: usize) -> (r: Vec<u8>)
    requires
        w == 0 || w == 2 || w == 3 || w == 4,
    ensures
        r@ == dec_digits(w as int, n as int),
{
    let mut r: Vec<u8> = Vec::new();
    if w == 0 {
        proof {
            assert(r@ =~= dec_digits(0, n as int));
        }
        return r;
    }
    if w == 4 {
        r.push(48 + ((n / 1000) % 10) as u8);
    }
    if w >= 3 {
        r.push(48 + ((n / 100) % 10) as u8);
    }
    r.push(48 + ((n / 10) % 10) as u8);
    r.push(48 + (n % 10) as u8);
    proof {
        let ni = n as int;
        assert(ni / 10 / 10 == ni / 100) by (nonlinear_arith);
        assert(ni / 100 / 10 == ni / 1000) by (nonlinear_arith);
        assert(dec_digits(2, ni) == dec_digits(1, ni / 10).push((48 + ni % 10) as u8));
        assert(dec_digits(1, ni / 10) == dec_digits(0, ni / 10 / 10).push(
            (48 + (ni / 10) % 10) as u8,
        ));
        assert(dec_digits(0, ni / 100) =~= Seq::<u8>::empty());
        if w >= 3 {
            assert(dec_digits(3, ni) == dec_digits(2, ni).drop_last().insert(
                0,
                (48 + (ni / 100) % 10) as u8,
            ).push((48 + ni % 10) as u8)) by {
                assert(dec_digits(2, ni / 10) == dec_digits(1, ni / 10 / 10).push(
                    (48 + (ni / 10) % 10) as u8,
                ));
                assert(dec_digits(1, ni / 100) == dec_digits(0, ni / 100 / 10).push(
                    (48 + (ni / 100) % 10) as u8,
                ));
                assert(dec_digits(3, ni) =~= dec_digits(2, ni).drop_last().insert(
                    0,
                    (48 + (ni / 100) % 10) as u8,
                ).push((48 + ni % 10) as u8));
            }
        }
        if w == 4 {
            assert(dec_digits(2, ni / 100) == dec_digits(1, ni / 100 / 10).push(
                (48 + (ni / 100) % 10) as u8,
            ));
            assert(dec_digits(1, ni / 1000) == dec_digits(0, ni / 1000 / 10).push(
                (48 + (ni / 1000) % 10) as u8,
            ));
            assert(dec_digits(3, ni / 10) == dec_digits(2, ni / 10 / 10).push(
                (48 + (ni / 10) % 10) as u8,
            ));
            assert(ni / 10 / 100 == ni / 1000) by (nonlinear_arith);
            assert(dec_digits(4, ni) == dec_digits(3, ni / 10).push((48 + ni % 10) as u8));
        }
        assert(r@ =~= dec_digits(w as int, ni));
    }
    r
}

/// Appends `src[from..to]` to `out`.
fn push_slice(out: &mut Vec<u8>, src: &[u8], from: usize, to: usize)
    requires
        from <= to <= src@.len(),
    ensures
        final(out)@ == old(out)@ + src@.subrange(from as int, to as int),
{
    let mut j: usize = from;
    while j < to
        invariant
            from <= j <= to <= src@.len(),
            out@ == old(out)@ + src@.subrange(from as int, j as int),
        decreases to - j,
    {
        out.push(*vstd::slice::slice_index_get(src, j));
        j = j + 1;
        proof {
            assert(out@ =~= old(out)@ + src@.subrange(from as int, j as int));
        }
    }
    proof {
        assert(out@ =~= old(out)@ + src@.subrange(from as int, to as int));
    }
}

/// Overwrites `buffer[0 .. to - from]` with `src[from..to]`, leaving the
/// rest of `buffer` as it was.
fn copy_into(buffer: &mut Vec<u8>, src: &[u8], from: usize, to: usize)
    requires
        from <= to <= src@.len(),
        to - from <= old(buffer)@.len(),
    ensures
        final(buffer)@ == src@.subrange(from as int, to as int) + old(buffer)@.skip(
            to - from,
        ),
        final(buffer)@.len() == old(buffer)@.len(),
{
    let n = to - from;
    let mut j: usize = 0;
    while j < n
        invariant
            j <= n == to - from,
            from <= to <= src@.len(),
            n <= buffer@.len() == old(buffer)@.len(),
            forall|k: int| 0 <= k < j ==> buffer@[k] == src@[from + k],
            forall|k: int| j <= k < buffer@.len() ==> buffer@[k] == old(buffer)@[k],
        decreases n - j,
    {
        buffer[j] = *vstd::slice::slice_index_get(src, from + j);
        j = j + 1;
    }
    proof {
        assert(buffer@ =~= src@.subrange(from as int, to as int) + old(buffer)@.skip(to - from));
    }
}

impl<'a, S: IsoSpecs> IsoMsg<'a, S> {
    /// The field table the message was parsed under.
    pub closed spec fn handle(&self) -> Seq<IsoField> {
        self.iso_spec.spec_handle()
    }

    /// The source bytes the message was parsed from.
    pub closed spec fn buf(&self) -> Seq<u8> {
        self.payload@
    }

    /// The message's slots, one per specification position.
    pub closed spec fn slots(&self) -> Seq<SlotModel> {
        slots_view(self.fields@)
    }

    /// Well-formedness: one slot per position, each sound for its field.
    pub open spec fn wf(&self) -> bool {
        msg_wf(self.handle(), self.buf(), self.slots())
    }

    /// Parses `payload` under `iso_spec` into a message, or reports the
    /// first parse failure; no message is produced then.
    pub fn new(iso_spec: &'a S, payload: &[u8]) -> (r: Result<IsoMsg<'a, S>, IsoError>)
        ensures
            match r {
                Ok(m) => {
                    &&& parse_msg(iso_spec.spec_handle(), payload@).err is None
                    &&& m.wf()
                    &&& m.handle() == iso_spec.spec_handle()
                    &&& m.buf() == payload@
                    &&& m.slots() == parse_msg(iso_spec.spec_handle(), payload@).slots
                },
                Err(e) => parse_msg(iso_spec.spec_handle(), payload@).err == Some(e),
            },
    {
        let ghost h = iso_spec.spec_handle();
        let mut fields: Vec<FieldPayload> = Vec::new();
        match Self::from_byte_array(iso_spec, &mut fields, payload) {
            Ok(_) => {
                proof {
                    lemma_parse_state_inv(h, payload@, h.len() as int);
                    assert(slots_view(Seq::<FieldPayload>::empty()) =~= Seq::<SlotModel>::empty());
                    assert(slots_view(fields@) =~= parse_msg(h, payload@).slots);
                }
                let owned = vstd::slice::slice_to_vec(payload);
                let m = IsoMsg { payload: owned, iso_spec, fields };
                proof {
                    let st = parse_msg(h, payload@);
                    assert forall|i: int| 0 <= i < h.len() implies msg_slot_ok(
                        h,
                        payload@,
                        i,
                        #[trigger] m.slots()[i],
                    ) by {
                        assert(slot_ok(h, payload@, i, st.slots[i]));
                    }
                }
                Ok(m)
            },
            Err(e) => Err(e),
        }
    }

    /// Runs the parser under `iso_spec` over `input_buffer`, appending one
    /// slot per specification position to `fields`; on failure `fields` is
    /// left as it was.
    pub fn from_byte_array(
        iso_spec: &S,
        fields: &mut Vec<FieldPayload>,
        input_buffer: &[u8],
    ) -> (r: Result<(), IsoError>)
        ensures
            match r {
                Ok(_) => {
                    &&& parse_msg(iso_spec.spec_handle(), input_buffer@).err is None
                    &&& slots_view(final(fields)@) == slots_view(old(fields)@) + parse_msg(
                        iso_spec.spec_handle(),
                        input_buffer@,
                    ).slots
                    &&& final(fields)@.len() == old(fields)@.len() + iso_spec.spec_handle().len()
                },
                Err(e) => {
                    &&& parse_msg(iso_spec.spec_handle(), input_buffer@).err == Some(e)
                    &&& final(fields)@ == old(fields)@
                },
            },
    {
        let ghost h = iso_spec.spec_handle();
        let ghost bufs = input_buffer@;
        let handle = iso_spec.get_handle();
        let n = handle.len();
        let buf_len = input_buffer.len();
        let mut out: Vec<FieldPayload> = Vec::new();
        let mut cursor: usize = 0;
        let mut found = false;
        let mut bitpos: usize = 0;
        let mut decoded = BitArray128::new();
        let mut i: usize = 0;
        while i < n
            invariant
                i <= n,
                n == h.len(),
                handle@ == h,
                bufs == input_buffer@,
                buf_len == bufs.len(),
                fields@ == old(fields)@,
                h == iso_spec.spec_handle(),
                parse_upto(h, bufs, i as int).err is None,
                slots_view(out@) == parse_upto(h, bufs, i as int).slots,
                cursor == parse_upto(h, bufs, i as int).cursor,
                found == parse_upto(h, bufs, i as int).found,
                found ==> bitpos == parse_upto(h, bufs, i as int).bitpos && bitpos < i,
                decoded.wf(),
                found ==> decoded@ == parse_upto(h, bufs, i as int).bits,
                cursor <= buf_len,
            decreases n - i,
        {
            let ghost st = parse_upto(h, bufs, i as int);
            proof {
                lemma_parse_state_inv(h, bufs, i as int);
                assert(parse_upto(h, bufs, i + 1) == parse_step(h, bufs, st, i as int));
            }
            let f = handle[i];
            assert(f == h[i as int]);
            if !found && (f.char_type == crate::iso_field::FieldCharType::Iso8583_bmp
                || f.char_type == crate::iso_field::FieldCharType::Iso8583_bmps) {
                // The bitmap position: decode 8 octets, then 8 more when bit
                // 0 announces the secondary segment.
                let hex = f.char_type == crate::iso_field::FieldCharType::Iso8583_bmps;
                let unit: usize = if hex {
                    2
                } else {
                    1
                };
                if buf_len - cursor < 8 * unit {
                    proof {
                        lemma_parse_err_sticky(h, bufs, i + 1, n as int);
                    }
                    return Err(IsoError::TruncatedMessage { position: i });
                }
                let first: BitArray128;
                if hex {
                    match decode_hex_region(input_buffer, cursor, 8) {
                        Some(oct) => {
                            first = BitArray128::from_bytes(oct.as_slice(), 8);
                        },
                        None => {
                            proof {
                                lemma_parse_err_sticky(h, bufs, i + 1, n as int);
                            }
                            return Err(IsoError::MalformedLengthPrefix { position: i });
                        },
                    }
                } else {
                    let seg = vstd::slice::slice_subrange(input_buffer, cursor, cursor + 8);
                    first = BitArray128::from_bytes(seg, 8);
                }
                proof {
                    let fo = if hex {
                        hex_decode(bufs.subrange(cursor as int, cursor as int + 16))
                    } else {
                        bufs.subrange(cursor as int, cursor as int + 8)
                    };
                    assert(first@ == pad16(fo));
                    assert(first@[0] == fo[0]);
                    assert(bit_at(first@, 0) == bit_at(fo, 0));
                }
                let width: usize;
                if first.get_bit(0) {
                    if buf_len - cursor < 16 * unit {
                        proof {
                            lemma_parse_err_sticky(h, bufs, i + 1, n as int);
                        }
                        return Err(IsoError::TruncatedMessage { position: i });
                    }
                    if hex {
                        match decode_hex_region(input_buffer, cursor, 16) {
                            Some(oct) => {
                                decoded = BitArray128::from_bytes(oct.as_slice(), 16);
                            },
                            None => {
                                proof {
                                    lemma_parse_err_sticky(h, bufs, i + 1, n as int);
                                }
                                return Err(IsoError::MalformedLengthPrefix { position: i });
                            },
                        }
                    } else {
                        let seg = vstd::slice::slice_subrange(input_buffer, cursor, cursor + 16);
                        decoded = BitArray128::from_bytes(seg, 16);
                    }
                    width = 16 * unit;
                } else {
                    decoded = first;
                    width = 8 * unit;
                }
                out.push(FieldPayload { exist: true, index: cursor, len: width, new_payload: None });
                proof {
                    lemma_slots_view_push(
                        out@.drop_last(),
                        FieldPayload { exist: true, index: cursor, len: width, new_payload: None },
                    );
                    assert(out@.drop_last().push(
                        FieldPayload { exist: true, index: cursor, len: width, new_payload: None },
                    ) =~= out@);
                }
                found = true;
                bitpos = i;
                cursor = cursor + width;
            } else {
                let present: bool;
                if !found {
                    present = true;
                } else {
                    let k = i - bitpos;
                    if k < 128 {
                        present = decoded.get_bit(k);
                    } else {
                        present = false;
                    }
                }
                if !present {
                    let fp = FieldPayload::default();
                    out.push(fp);
                    proof {
                        lemma_slots_view_push(out@.drop_last(), fp);
                        assert(out@.drop_last().push(fp) =~= out@);
                        assert(slots_view(out@) =~= st.slots.push(empty_slot()));
                    }
                } else if f.size_type == FieldSizeType::BitMap {
                    proof {
                        lemma_parse_err_sticky(h, bufs, i + 1, n as int);
                    }
                    return Err(IsoError::UnsupportedCharClass { position: i });
                } else {
                    let w = prefix_width_of(f.size_type);
                    let total: usize;
                    if w > 0 {
                        if buf_len - cursor < w {
                            proof {
                                lemma_parse_err_sticky(h, bufs, i + 1, n as int);
                            }
                            return Err(IsoError::TruncatedMessage { position: i });
                        }
                        match read_prefix(input_buffer, cursor, w) {
                            Some(v) => {
                                total = v + w;
                            },
                            None => {
                                proof {
                                    lemma_parse_err_sticky(h, bufs, i + 1, n as int);
                                }
                                return Err(IsoError::MalformedLengthPrefix { position: i });
                            },
                        }
                    } else {
                        total = f.length;
                    }
                    if buf_len - cursor < total {
                        proof {
                            lemma_parse_err_sticky(h, bufs, i + 1, n as int);
                        }
                        return Err(IsoError::TruncatedMessage { position: i });
                    }
                    out.push(
                        FieldPayload { exist: true, index: cursor, len: total, new_payload: None },
                    );
                    proof {
                        lemma_slots_view_push(out@.drop_last(), out@.last());
                        assert(out@.drop_last().push(out@.last()) =~= out@);
                    }
                    cursor = cursor + total;
                }
            }
            i = i + 1;
        }
        let ghost out_snap = out@;
        proof {
            lemma_slots_view_concat(old(fields)@, out_snap);
        }
        fields.append(&mut out);
        proof {
            lemma_parse_state_inv(h, bufs, h.len() as int);
            assert(fields@ == old(fields)@ + out_snap);
            assert(slots_view(out_snap) == parse_msg(h, bufs).slots);
            assert(out_snap.len() == slots_view(out_snap).len());
            assert(slots_view(fields@) == slots_view(old(fields)@) + parse_msg(h, bufs).slots);
            assert(fields@.len() == old(fields)@.len() + h.len());
        }
        Ok(())
    }

    /// Writes the logical payload of the field at `index` — the override if
    /// one was set, else the source slice, in both cases without the length
    /// prefix — into the front of `buffer`, returning the byte count.
    pub fn get_field(&self, index: usize, buffer: &mut Vec<u8>) -> (r: Result<usize, IsoError>)
        requires
            self.wf(),
        ensures
            final(buffer)@.len() == old(buffer)@.len(),
            match get_spec(
                self.handle(),
                self.buf(),
                self.slots(),
                index as int,
                old(buffer)@.len() as int,
            ) {
                Ok(data) => r == Ok::<usize, IsoError>(data.len() as usize) && final(buffer)@
                    == data + old(buffer)@.skip(data.len() as int),
                Err(e) => r == Err::<usize, IsoError>(e) && final(buffer)@ == old(buffer)@,
            },
    {
        let handle = self.iso_spec.get_handle();
        if index >= self.fields.len() || index >= handle.len() {
            return Err(IsoError::PositionOutOfRange);
        }
        proof {
            assert(msg_slot_ok(self.handle(), self.buf(), index as int, self.slots()[index as int]));
        }
        let w = prefix_width_of(handle[index].size_type);
        let f = &self.fields[index];
        if !f.exist {
            return Err(IsoError::FieldNotSet);
        }
        match &f.new_payload {
            Some(v) => {
                let n = v.len() - w;
                if buffer.len() < n {
                    return Err(IsoError::BufferTooSmall);
                }
                copy_into(buffer, v.as_slice(), w, v.len());
                proof {
                    assert(v@.skip(w as int) =~= v@.subrange(w as int, v@.len() as int));
                }
                Ok(n)
            },
            None => {
                if f.len == 0 {
                    return Err(IsoError::FieldNotSet);
                }
                let pl = self.payload.len();
                assert(f.index + f.len <= pl);
                let n = f.len - w;
                if buffer.len() < n {
                    return Err(IsoError::BufferTooSmall);
                }
                copy_into(buffer, self.payload.as_slice(), f.index + w, f.index + f.len);
                proof {
                    let s = self.slots()[index as int];
                    assert(self.buf().subrange(s.index, s.index + s.len).skip(w as int)
                        =~= self.buf().subrange(s.index + w, s.index + s.len));
                }
                Ok(n)
            },
        }
    }

    /// Marks the field at `index` present and stores an override of the
    /// zero-padded decimal length prefix followed by `buffer`; rejects a
    /// payload over the field's declared bounds before touching the slot.
    pub fn set_field(&mut self, index: usize, buffer: &[u8]) -> (r: Result<(), IsoError>)
        requires
            old(self).wf(),
        ensures
            final(self).wf(),
            final(self).handle() == old(self).handle(),
            final(self).buf() == old(self).buf(),
            match set_spec(old(self).handle(), old(self).slots(), index as int, buffer@) {
                Ok(slots2) => r is Ok && final(self).slots() == slots2,
                Err(e) => r == Err::<(), IsoError>(e) && final(self).slots() == old(self).slots(),
            },
    {
        let ghost h = self.handle();
        let handle = self.iso_spec.get_handle();
        if index >= self.fields.len() || index >= handle.len() {
            return Err(IsoError::PositionOutOfRange);
        }
        let fspec = handle[index];
        if buffer.len() > fspec.length {
            return Err(IsoError::PayloadTooLong);
        }
        let w = prefix_width_of(fspec.size_type);
        proof {
            crate::model::lemma_pow10_small();
        }
        if w > 0 {
            let limit: usize = if w == 2 {
                100
            } else if w == 3 {
                1000
            } else {
                10000
            };
            if buffer.len() >= limit {
                return Err(IsoError::PayloadTooLong);
            }
        }
        let mut v = make_prefix(w, buffer.len());
        push_slice(&mut v, buffer, 0, buffer.len());
        proof {
            assert(buffer@.subrange(0, buffer@.len() as int) =~= buffer@);
            lemma_dec_digits_len(w as int, buffer@.len() as int);
            assert(v@ == crate::model::override_bytes(h[index as int], buffer@));
        }
        let old_index = self.fields[index].index;
        let old_len = self.fields[index].len;
        let fp = FieldPayload { exist: true, index: old_index, len: old_len, new_payload: Some(v) };
        let ghost fpv = fp@;
        proof {
            lemma_slots_view_update(self.fields@, index as int, fp);
        }
        self.fields[index] = fp;
        proof {
            assert(self.slots() == old(self).slots().update(index as int, fpv));
            assert forall|i: int| 0 <= i < h.len() implies msg_slot_ok(
                h,
                self.buf(),
                i,
                #[trigger] self.slots()[i],
            ) by {
                assert(msg_slot_ok(h, old(self).buf(), i, old(self).slots()[i]));
            }
        }
        Ok(())
    }

    /// Clears the presence flag of the field at `index`; the slot's position
    /// and any override are retained but no longer emitted.
    pub fn remove_field(&mut self, index: usize) -> (r: Result<(), IsoError>)
        requires
            old(self).wf(),
        ensures
            final(self).wf(),
            final(self).handle() == old(self).handle(),
            final(self).buf() == old(self).buf(),
            match remove_spec(old(self).handle(), old(self).slots(), index as int) {
                Ok(slots2) => r is Ok && final(self).slots() == slots2,
                Err(e) => r == Err::<(), IsoError>(e) && final(self).slots() == old(self).slots(),
            },
    {
        let ghost h = self.handle();
        let handle = self.iso_spec.get_handle();
        if index >= self.fields.len() || index >= handle.len() {
            return Err(IsoError::PositionOutOfRange);
        }
        let slot = &mut self.fields[index];
        slot.exist = false;
        proof {
            assert(self.fields@ == old(self).fields@.update(
                index as int,
                self.fields@[index as int],
            ));
            lemma_slots_view_update(old(self).fields@, index as int, self.fields@[index as int]);
            assert(self.slots() == old(self).slots().update(
                index as int,
                SlotModel { exist: false, ..old(self).slots()[index as int] },
            ));
            assert forall|i: int| 0 <= i < h.len() implies msg_slot_ok(
                h,
                self.buf(),
                i,
                #[trigger] self.slots()[i],
            ) by {
                assert(msg_slot_ok(h, old(self).buf(), i, old(self).slots()[i]));
            }
        }
        Ok(())
    }

    /// The positions whose slots are present, in ascending order.
    pub fn present_fields(&self) -> (r: Vec<usize>)
        ensures
            forall|j: int|
                0 <= j < r@.len() ==> (#[trigger] r@[j]) < self.slots().len()
                    && self.slots()[r@[j] as int].exist,
            forall|j1: int, j2: int| 0 <= j1 < j2 < r@.len() ==> r@[j1] < r@[j2],
            forall|i: int|
                0 <= i < self.slots().len() && (#[trigger] self.slots()[i]).exist ==> r@.contains(
                    i as usize,
                ),
    {
        let mut r: Vec<usize> = Vec::new();
        let n = self.fields.len();
        let mut i: usize = 0;
        while i < n
            invariant
                i <= n == self.fields@.len(),
                forall|j: int|
                    0 <= j < r@.len() ==> (#[trigger] r@[j]) < i && self.slots()[r@[j] as int].exist,
                forall|j1: int, j2: int| 0 <= j1 < j2 < r@.len() ==> r@[j1] < r@[j2],
                forall|k: int|
                    0 <= k < i && (#[trigger] self.slots()[k]).exist ==> r@.contains(k as usize),
            decreases n - i,
        {
            if self.fields[i].exist {
                let ghost r_old = r@;
                r.push(i);
                proof {
                    assert(r@[r@.len() - 1] == i as usize);
                    assert forall|k: int|
                        0 <= k < i + 1 && (#[trigger] self.slots()[k]).exist implies r@.contains(
                        k as usize,
                    ) by {
                        if k < i {
                            assert(r_old.contains(k as usize));
                            let jj = choose|jj: int|
                                0 <= jj < r_old.len() && r_old[jj] == k as usize;
                            assert(r@[jj] == k as usize);
                        } else {
                            assert(r@[r@.len() - 1] == k as usize);
                        }
                    }
                }
            }
            i = i + 1;
        }
        r
    }

    /// Width of the ASCII decimal length prefix of the field at `index`:
    /// two, three or four digits for the three variable disciplines, zero
    /// otherwise.
    pub fn get_field_length_prefix(&self, index: usize) -> (r: usize)
        requires
            index < self.handle().len(),
        ensures
            r as int == prefix_width(self.handle()[index as int].size_type),
    {
        let handle = self.iso_spec.get_handle();
        prefix_width_of(handle[index].size_type)
    }

    /// Total on-wire length of a field whose bytes start `input_buffer`: the
    /// declared length for a fixed field, the prefixed length plus the
    /// prefix itself for a variable one, zero for a bitmap discipline.
    pub fn get_field_length(iso_field: &IsoField, input_buffer: &[u8]) -> (r: usize)
        requires
            iso_field.size_type != FieldSizeType::BitMap && prefix_width(iso_field.size_type) > 0
                ==> prefix_width(iso_field.size_type) <= input_buffer@.len() && digits_ok(
                input_buffer@.take(prefix_width(iso_field.size_type)),
            ),
        ensures
            r as int == field_total_len(*iso_field, input_buffer@),
    {
        match iso_field.size_type {
            FieldSizeType::BitMap => 0,
            FieldSizeType::Fixed => iso_field.length,
            _ => {
                let w = prefix_width_of(iso_field.size_type);
                proof {
                    assert(input_buffer@.take(w as int) =~= input_buffer@.subrange(0, w as int));
                }
                match read_prefix(input_buffer, 0, w) {
                    Some(v) => v + w,
                    None => {
                        proof {
                            assert(false);
                        }
                        0
                    },
                }
            },
        }
    }

    /// Whether bit `n` of `input` is set, counting from the least
    /// significant bit; false for `n` past the width of the word.
    pub fn is_bit_set(input: u32, n: u8) -> (r: bool)
        ensures
            r == (n < 32 && (input >> (n as u32)) & 1 == 1),
    {
        if n < 32 {
            (input >> (n as u32)) & 1 == 1
        } else {
            false
        }
    }

    /// The big-endian 32-bit value of four octets.
    pub fn convert_u32_be(array: &[u8]) -> (r: u32)
        requires
            array@.len() == 4,
        ensures
            r == array@[0] as u32 * 0x1000000 + array@[1] as u32 * 0x10000 + array@[2] as u32
                * 0x100 + array@[3] as u32,
    {
        let a0 = *vstd::slice::slice_index_get(array, 0) as u32;
        let a1 = *vstd::slice::slice_index_get(array, 1) as u32;
        let a2 = *vstd::slice::slice_index_get(array, 2) as u32;
        let a3 = *vstd::slice::slice_index_get(array, 3) as u32;
        a0 * 0x1000000 + a1 * 0x10000 + a2 * 0x100 + a3
    }

    /// The little-endian 32-bit value of four octets.
    pub fn convert_u32_le(array: &[u8]) -> (r: u32)
        requires
            array@.len() == 4,
        ensures
            r == array@[3] as u32 * 0x1000000 + array@[2] as u32 * 0x10000 + array@[1] as u32
                * 0x100 + array@[0] as u32,
    {
        let a0 = *vstd::slice::slice_index_get(array, 0) as u32;
        let a1 = *vstd::slice::slice_index_get(array, 1) as u32;
        let a2 = *vstd::slice::slice_index_get(array, 2) as u32;
        let a3 = *vstd::slice::slice_index_get(array, 3) as u32;
        a3 * 0x1000000 + a2 * 0x10000 + a1 * 0x100 + a0
    }

    /// Reads the first 16 octets as one combined 128-bit bitmap.
    pub fn process_bitmap(bitmap_bytes: &[u8]) -> (r: Vec<BitArray128>)
        requires
            bitmap_bytes@.len() >= 16,
        ensures
            r@.len() == 1,
            r@[0].wf(),
            r@[0]@ == bitmap_bytes@.take(16),
    {
        let ba = BitArray128::from_bytes(bitmap_bytes, 16);
        proof {
            assert(pad16(bitmap_bytes@.take(16)) =~= bitmap_bytes@.take(16));
        }
        let mut r: Vec<BitArray128> = Vec::new();
        r.push(ba);
        r
    }

    /// Whether any position more than 64 places past the bitmap is present,
    /// so that the emitted bitmap needs its secondary segment.
    fn has_secondary(&self, bitpos: usize) -> (r: bool)
        requires
            self.wf(),
            bitpos < self.handle().len(),
        ensures
            r == crate::model::secondary_needed(self.slots(), bitpos as int),
    {
        let n = self.fields.len();
        if n - bitpos <= 64 {
            proof {
                assert forall|i: int|
                    bitpos + 64 <= i < bitpos + 128 implies !crate::model::slot_exists_at(
                    self.slots(),
                    i,
                ) by {}
            }
            return false;
        }
        let stop: usize = if n - bitpos < 128 {
            n
        } else {
            bitpos + 128
        };
        let mut i: usize = bitpos + 64;
        while i < stop
            invariant
                bitpos + 64 <= i <= stop,
                stop <= n == self.fields@.len(),
                n == self.slots().len(),
                stop == if n - bitpos < 128 {
                    n as int
                } else {
                    bitpos + 128
                },
                forall|j: int|
                    bitpos + 64 <= j < i ==> !crate::model::slot_exists_at(self.slots(), j),
            decreases stop - i,
        {
            if self.fields[i].exist {
                proof {
                    assert(crate::model::slot_exists_at(self.slots(), i as int));
                }
                return true;
            }
            i = i + 1;
        }
        proof {
            assert forall|j: int|
                bitpos + 64 <= j < bitpos + 128 implies !crate::model::slot_exists_at(
                self.slots(),
                j,
            ) by {}
        }
        false
    }

    /// The octets of the bitmap the serializer emits: bit 0 announces the
    /// secondary segment, bit `k` the presence of position `bitpos + k`.
    fn build_bitmap(&self, bitpos: usize, sec: bool) -> (r: Vec<u8>)
        requires
            self.wf(),
            bitpos < self.handle().len(),
            sec == crate::model::secondary_needed(self.slots(), bitpos as int),
        ensures
            r@ == crate::model::emit_bitmap_octets(self.slots(), bitpos as int),
    {
        let n = self.fields.len();
        proof {
            assert(n == self.slots().len());
        }
        let mut ba = BitArray128::new();
        ba.set_bit(0, sec);
        let mut k: usize = 1;
        while k < 128
            invariant
                1 <= k <= 128,
                ba.wf(),
                bitpos < n == self.fields@.len(),
                n == self.slots().len(),
                sec == crate::model::secondary_needed(self.slots(), bitpos as int),
                bit_at(ba@, 0) == sec,
                forall|j: int|
                    1 <= j < k ==> bit_at(ba@, j) == crate::model::emit_bit(
                        self.slots(),
                        bitpos as int,
                        sec,
                        j,
                    ),
            decreases 128 - k,
        {
            let b: bool = if k < n - bitpos {
                self.fields[bitpos + k].exist
            } else {
                false
            };
            proof {
                assert(b == crate::model::slot_exists_at(self.slots(), bitpos + k));
            }
            ba.set_bit(k, b);
            k = k + 1;
        }
        let count: usize = if sec {
            16
        } else {
            8
        };
        let bytes = ba.to_bytes(count);
        proof {
            ba.lemma_wf_len();
            let slots = self.slots();
            let bp = bitpos as int;
            assert(bytes@.len() == count);
            assert forall|j: int| 0 <= j < count implies bytes@[j]
                == crate::model::emit_bitmap_octet(slots, bp, sec, j) by {
                assert(bytes@[j] == ba@[j]);
                crate::bits::lemma_octet_from_own_bits(ba@[j]);
                assert forall|l: int| 0 <= l < 8 implies crate::bits::nth_bit(ba@[j], l)
                    == crate::model::emit_bit(slots, bp, sec, 8 * j + l) by {
                    assert((8 * j + l) / 8 == j && (8 * j + l) % 8 == l);
                    assert(bit_at(ba@, 8 * j + l) == crate::bits::nth_bit(ba@[j], l));
                }
            }
            assert(bytes@ =~= crate::model::emit_bitmap_octets(slots, bp));
        }
        bytes
    }

    /// Emits the message's wire image into the front of `buffer`: each
    /// present field's bytes in position order — override or source slice —
    /// with the bitmap recomputed from slot presence; returns the byte
    /// count, and fails without touching `buffer` when it is too small.
    pub fn to_byte_array(&self, buffer: &mut Vec<u8>) -> (r: Result<usize, IsoError>)
        requires
            self.wf(),
        ensures
            final(buffer)@.len() == old(buffer)@.len(),
            ({
                let image = crate::model::emit_msg(self.handle(), self.buf(), self.slots());
                if image.len() <= old(buffer)@.len() {
                    r == Ok::<usize, IsoError>(image.len() as usize) && final(buffer)@ == image
                        + old(buffer)@.skip(image.len() as int)
                } else {
                    r == Err::<usize, IsoError>(IsoError::BufferTooSmall) && final(buffer)@ == old(
                        buffer,
                    )@
                }
            }),
    {
        let ghost h = self.handle();
        let handle = self.iso_spec.get_handle();
        let n = handle.len();
        proof {
            assert(n == self.fields@.len());
        }
        let mut found = false;
        let mut bitpos: usize = 0;
        let mut i: usize = 0;
        while i < n
            invariant
                i <= n == h.len(),
                handle@ == h,
                found ==> bitpos < i && is_bitmap_kind(h[bitpos as int].char_type) && forall|j: int|
                    0 <= j < bitpos ==> !is_bitmap_kind(#[trigger] h[j].char_type),
                !found ==> forall|j: int| 0 <= j < i ==> !is_bitmap_kind(#[trigger] h[j].char_type),
            decreases n - i,
        {
            let f = handle[i];
            if !found && (f.char_type == crate::iso_field::FieldCharType::Iso8583_bmp
                || f.char_type == crate::iso_field::FieldCharType::Iso8583_bmps) {
                found = true;
                bitpos = i;
            }
            i = i + 1;
        }
        proof {
            if found {
                crate::model::lemma_bitmap_pos_first(h, bitpos as int);
            } else {
                crate::model::lemma_bitmap_pos_none(h);
            }
        }
        let mut bm: Vec<u8> = Vec::new();
        if found {
            let sec = self.has_secondary(bitpos);
            let octs = self.build_bitmap(bitpos, sec);
            if handle[bitpos].char_type == crate::iso_field::FieldCharType::Iso8583_bmps {
                crate::hex::push_hex(&mut bm, &octs);
                proof {
                    assert(bm@ =~= crate::hex::hex_encode(octs@));
                }
            } else {
                bm = octs;
            }
            proof {
                assert(bm@ == crate::model::bitmap_wire(h, self.slots(), bitpos as int));
            }
        }
        let mut out: Vec<u8> = Vec::new();
        let mut i: usize = 0;
        while i < n
            invariant
                i <= n == h.len(),
                handle@ == h,
                self.wf(),
                h == self.handle(),
                n == self.fields@.len(),
                found ==> bitpos as int == crate::model::bitmap_pos(h),
                !found ==> crate::model::bitmap_pos(h) == -1,
                found ==> bm@ == crate::model::bitmap_wire(h, self.slots(), bitpos as int),
                out@ == crate::model::emit_upto(h, self.buf(), self.slots(), i as int),
            decreases n - i,
        {
            let ghost pre = out@;
            if found && i == bitpos {
                push_slice(&mut out, bm.as_slice(), 0, bm.len());
                proof {
                    assert(bm@.subrange(0, bm@.len() as int) =~= bm@);
                    assert(crate::model::field_wire(h, self.buf(), self.slots(), i as int)
                        == bm@);
                }
            } else {
                proof {
                    assert(i as int != crate::model::bitmap_pos(h));
                    assert(msg_slot_ok(h, self.buf(), i as int, self.slots()[i as int]));
                }
                let f = &self.fields[i];
                if f.exist {
                    match &f.new_payload {
                        Some(v) => {
                            push_slice(&mut out, v.as_slice(), 0, v.len());
                            proof {
                                assert(v@.subrange(0, v@.len() as int) =~= v@);
                            }
                        },
                        None => {
                            let pl = self.payload.len();
                            assert(f.index + f.len <= pl);
                            push_slice(&mut out, self.payload.as_slice(), f.index, f.index + f.len);
                        },
                    }
                }
            }
            i = i + 1;
            proof {
                assert(out@ =~= pre + crate::model::field_wire(
                    h,
                    self.buf(),
                    self.slots(),
                    i - 1,
                ));
            }
        }
        let img_len = out.len();
        if img_len > buffer.len() {
            return Err(IsoError::BufferTooSmall);
        }
        copy_into(buffer, out.as_slice(), 0, img_len);
        proof {
            assert(out@.subrange(0, img_len as int) =~= out@);
        }
        Ok(img_len)
    }
}

} // verus!
