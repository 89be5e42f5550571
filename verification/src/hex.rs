//! Hexadecimal text <-> octets, as used by the ASCII-hex bitmap form.

use vstd::prelude::*;

verus! {

/// The ASCII bytes accepted as one hexadecimal digit: `0..9`, `A..F`, `a..f`.
pub open spec fn is_hex_digit(c: u8) -> bool {
    (48 <= c <= 57) || (65 <= c <= 70) || (97 <= c <= 102)
}

/// The ASCII bytes the codec itself emits: digits and uppercase letters only.
pub open spec fn is_upper_hex_digit(c: u8) -> bool {
    (48 <= c <= 57) || (65 <= c <= 70)
}

/// Numeric value of one hexadecimal digit (meaningful when `is_hex_digit(c)`).
pub open spec fn hex_val(c: u8) -> u8 {
    if 48 <= c <= 57 {
        (c - 48) as u8
    } else if 65 <= c <= 70 {
        (c - 55) as u8
    } else {
        (c - 87) as u8
    }
}

/// Uppercase hexadecimal digit for a nibble value (meaningful when `v < 16`).
pub open spec fn hex_digit_upper(v: u8) -> u8 {
    if v < 10 {
        (48 + v) as u8
    } else {
        (55 + v) as u8
    }
}

/// Every byte of `s` is a hexadecimal digit.
pub open spec fn hex_ok(s: Seq<u8>) -> bool {
    forall|i: int| 0 <= i < s.len() ==> is_hex_digit(#[trigger] s[i])
}

/// Every byte of `s` is a digit or an uppercase hexadecimal letter.
pub open spec fn upper_hex_ok(s: Seq<u8>) -> bool {
    forall|i: int| 0 <= i < s.len() ==> is_upper_hex_digit(#[trigger] s[i])
}

/// The octets denoted by a run of hexadecimal digits, two digits per octet,
/// high nibble first.
pub open spec fn hex_decode(s: Seq<u8>) -> Seq<u8> {
    Seq::new((s.len() / 2) as nat, |j: int| (hex_val(s[2 * j]) * 16 + hex_val(s[2 * j + 1])) as u8)
}

/// Uppercase hexadecimal text for a run of octets, two digits per octet.
pub open spec fn hex_encode(o: Seq<u8>) -> Seq<u8> {
    Seq::new(
        (o.len() * 2) as nat,
        |i: int|
            if i % 2 == 0 {
                hex_digit_upper(o[i / 2] / 16)
            } else {
                hex_digit_upper(o[i / 2] % 16)
            },
    )
}

pub proof fn lemma_hex_val_bound(c: u8)
    requires
        is_hex_digit(c),
    ensures
        hex_val(c) < 16,
{
}

/// Re-encoding the octets denoted by uppercase hexadecimal text gives the
/// text back.
pub proof fn lemma_encode_of_decode(s: Seq<u8>)
    requires
        upper_hex_ok(s),
        s.len() % 2 == 0,
    ensures
        hex_encode(hex_decode(s)) == s,
{
    let o = hex_decode(s);
    assert forall|i: int| 0 <= i < s.len() implies hex_encode(o)[i] == s[i] by {
        let j = i / 2;
        assert(0 <= j < o.len());
        let a = hex_val(s[2 * j]);
        let b = hex_val(s[2 * j + 1]);
        assert(a < 16 && b < 16);
        assert((a * 16 + b) / 16 == a && (a * 16 + b) % 16 == b) by (nonlinear_arith)
            requires
                a < 16 && b < 16,
        ;
        assert(i == 2 * j || i == 2 * j + 1);
    }
    assert(hex_encode(o) =~= s);
}

/// Decoding the text that encodes a run of octets gives the octets back.
pub proof fn lemma_decode_of_encode(o: Seq<u8>)
    ensures
        hex_decode(hex_encode(o)) == o,
        upper_hex_ok(hex_encode(o)),
        hex_ok(hex_encode(o)),
{
    let s = hex_encode(o);
    assert(s.len() == o.len() * 2);
    assert forall|j: int| 0 <= j < o.len() implies hex_decode(s)[j] == o[j] by {
        assert((2 * j) / 2 == j && (2 * j + 1) / 2 == j && (2 * j) % 2 == 0 && (2 * j + 1) % 2
            == 1);
        let v = o[j];
        assert(v / 16 < 16 && v % 16 < 16);
        assert(hex_val(hex_digit_upper(v / 16)) == v / 16);
        assert(hex_val(hex_digit_upper((v % 16) as u8)) == v % 16);
        assert((v / 16) * 16 + v % 16 == v) by (nonlinear_arith);
    }
    assert(hex_decode(s) =~= o);
    assert forall|i: int| 0 <= i < s.len() implies is_upper_hex_digit(#[trigger] s[i]) by {
        let j = i / 2;
        assert(o[j] / 16 < 16 && o[j] % 16 < 16);
    }
}

/// Value of one hexadecimal digit, or `None` for any other byte.
pub fn hex_val_of(c: u8) -> (r: Option<u8>)
    ensures
        r is Some <==> is_hex_digit(c),
        r is Some ==> r->Some_0 == hex_val(c),
{
    if 48 <= c && c <= 57 {
        Some(c - 48)
    } else if 65 <= c && c <= 70 {
        Some(c - 55)
    } else if 97 <= c && c <= 102 {
        Some(c - 87)
    } else {
        None
    }
}

/// Reads `octets` octets out of the hexadecimal text at
/// `buf[start .. start + 2 * octets]`, or reports the region not hexadecimal.
pub fn decode_hex_region(buf: &[u8], start: usize, octets: usize) -> (r: Option<Vec<u8>>)
    requires
        start + 2 * octets <= buf@.len(),
    ensures
        r is Some <==> hex_ok(buf@.subrange(start as int, start + 2 * octets)),
        r is Some ==> r->Some_0@ == hex_decode(buf@.subrange(start as int, start + 2 * octets)),
{
    let ghost region = buf@.subrange(start as int, start + 2 * octets);
    let buf_len: usize = buf.len();
    let mut out: Vec<u8> = Vec::new();
    let mut j: usize = 0;
    while j < octets
        invariant
            j <= octets,
            start + 2 * octets <= buf_len == buf@.len(),
            region == buf@.subrange(start as int, start + 2 * octets),
            out@ == hex_decode(region.take(2 * j)),
            forall|i: int| 0 <= i < 2 * j ==> is_hex_digit(#[trigger] region[i]),
        decreases octets - j,
    {
        let hi = *vstd::slice::slice_index_get(buf, start + 2 * j);
        let lo = *vstd::slice::slice_index_get(buf, start + 2 * j + 1);
        assert(hi == region[2 * j as int] && lo == region[2 * j + 1]);
        let hv = match hex_val_of(hi) {
            Some(v) => v,
            None => {
                return None;
            },
        };
        let lv = match hex_val_of(lo) {
            Some(v) => v,
            None => {
                return None;
            },
        };
        proof {
            lemma_hex_val_bound(hi);
            lemma_hex_val_bound(lo);
        }
        out.push(hv * 16 + lv);
        j = j + 1;
        proof {
            let t = region.take(2 * j as int);
            assert forall|k: int| 0 <= k < t.len() / 2 implies hex_decode(t)[k] == out@[k] by {
                assert(t[2 * k] == region[2 * k] && t[2 * k + 1] == region[2 * k + 1]);
                if k < j - 1 {
                    let t0 = region.take(2 * (j - 1) as int);
                    assert(t0[2 * k] == region[2 * k] && t0[2 * k + 1] == region[2 * k + 1]);
                    assert(hex_decode(t0)[k] == out@[k]);
                }
            }
            assert(out@ =~= hex_decode(region.take(2 * j as int)));
        }
    }
    proof {
        assert(region.take(2 * octets as int) =~= region);
    }
    Some(out)
}

/// Appends the uppercase hexadecimal text for `o` to `out`.
pub fn push_hex(out: &mut Vec<u8>, o: &Vec<u8>)
    ensures
        final(out)@ == old(out)@ + hex_encode(o@),
{
    let mut j: usize = 0;
    while j < o.len()
        invariant
            j <= o@.len(),
            out@ == old(out)@ + hex_encode(o@.take(j as int)),
        decreases o@.len() - j,
    {
        let v = o[j];
        let hi = v / 16;
        let lo = v % 16;
        let hi_c = if hi < 10 {
            48 + hi
        } else {
            55 + hi
        };
        let lo_c = if lo < 10 {
            48 + lo
        } else {
            55 + lo
        };
        assert(hi_c == hex_digit_upper(v / 16) && lo_c == hex_digit_upper(v % 16));
        out.push(hi_c);
        out.push(lo_c);
        j = j + 1;
        proof {
            let t = o@.take(j as int);
            let t0 = o@.take(j - 1);
            assert forall|i: int| 0 <= i < hex_encode(t).len() implies #[trigger] hex_encode(t)[i]
                == (hex_encode(t0) + seq![hi_c, lo_c])[i] by {
                assert(t[i / 2] == o@[i / 2]);
                if i < 2 * (j - 1) {
                    assert(t0[i / 2] == o@[i / 2]);
                    assert(hex_encode(t0)[i] == hex_encode(t)[i]);
                } else {
                    assert(i / 2 == j - 1);
                }
            }
            assert(hex_encode(t) =~= hex_encode(t0) + seq![hi_c, lo_c]);
            assert(out@ =~= old(out)@ + hex_encode(t));
        }
    }
    proof {
        assert(o@.take(o@.len() as int) =~= o@);
    }
}

} // verus!
