//! The CBOR framing this crate uses for content identifiers, identifier
//! preimages, and wire parameters.
//!
//! Only the handful of shapes the protocol needs are implemented:
//! unsigned integers, byte strings, booleans, and array and map headers,
//! always in canonical (minimal-length) form. Encoders and the decoder
//! are verified against each other: parsing an encoding yields the
//! encoded value.

use vstd::prelude::*;

verus! {

/// Major type of unsigned integers.
pub const MAJOR_UINT: u8 = 0;

/// Major type of byte strings.
pub const MAJOR_BYTES: u8 = 2;

/// Major type of arrays.
pub const MAJOR_ARRAY: u8 = 4;

/// Major type of maps.
pub const MAJOR_MAP: u8 = 5;

/// A canonical CBOR item header: the major type in the three top bits,
/// and the argument in minimal-length big-endian form.
pub open spec fn cbor_header(major: u8, n: u64) -> Seq<u8>
    recommends
        major < 8,
{
    let m = (major as int) * 0x20;
    if n < 24 {
        seq![(m + n) as u8]
    } else if n <= 0xff {
        seq![(m + 24) as u8, n as u8]
    } else if n <= 0xffff {
        seq![(m + 25) as u8, (n as int / 0x100) as u8, (n as int % 0x100) as u8]
    } else if n <= 0xffff_ffff {
        seq![
            (m + 26) as u8,
            (n as int / 0x100_0000) as u8,
            ((n as int / 0x1_0000) % 0x100) as u8,
            ((n as int / 0x100) % 0x100) as u8,
            (n as int % 0x100) as u8,
        ]
    } else {
        seq![
            (m + 27) as u8,
            (n as int / 0x100_0000_0000_0000) as u8,
            ((n as int / 0x1_0000_0000_0000) % 0x100) as u8,
            ((n as int / 0x100_0000_0000) % 0x100) as u8,
            ((n as int / 0x1_0000_0000) % 0x100) as u8,
            ((n as int / 0x100_0000) % 0x100) as u8,
            ((n as int / 0x1_0000) % 0x100) as u8,
            ((n as int / 0x100) % 0x100) as u8,
            (n as int % 0x100) as u8,
        ]
    }
}

/// A canonical CBOR unsigned integer.
pub open spec fn cbor_u64(n: u64) -> Seq<u8> {
    cbor_header(MAJOR_UINT, n)
}

/// A canonical CBOR byte string.
pub open spec fn cbor_bytes(b: Seq<u8>) -> Seq<u8> {
    cbor_header(MAJOR_BYTES, b.len() as u64) + b
}

/// A CBOR boolean.
pub open spec fn cbor_bool(v: bool) -> Seq<u8> {
    if v {
        seq![0xf5u8]
    } else {
        seq![0xf4u8]
    }
}

/// Appends a canonical CBOR header to `out`.
pub fn encode_header(out: &mut Vec<u8>, major: u8, n: u64)
    requires
        major < 8,
    ensures
        final(out)@ == old(out)@ + cbor_header(major, n),
{
    let m: u8 = major * 0x20;
    if n < 24 {
        out.push(m + (n as u8));
    } else if n <= 0xff {
        out.push(m + 24);
        out.push(n as u8);
    } else if n <= 0xffff {
        out.push(m + 25);
        out.push((n / 0x100) as u8);
        out.push((n % 0x100) as u8);
    } else if n <= 0xffff_ffff {
        out.push(m + 26);
        out.push((n / 0x100_0000) as u8);
        out.push(((n / 0x1_0000) % 0x100) as u8);
        out.push(((n / 0x100) % 0x100) as u8);
        out.push((n % 0x100) as u8);
    } else {
        out.push(m + 27);
        out.push((n / 0x100_0000_0000_0000) as u8);
        out.push(((n / 0x1_0000_0000_0000) % 0x100) as u8);
        out.push(((n / 0x100_0000_0000) % 0x100) as u8);
        out.push(((n / 0x1_0000_0000) % 0x100) as u8);
        out.push(((n / 0x100_0000) % 0x100) as u8);
        out.push(((n / 0x1_0000) % 0x100) as u8);
        out.push(((n / 0x100) % 0x100) as u8);
        out.push((n % 0x100) as u8);
    }
    proof {
        assert(final(out)@ =~= old(out)@ + cbor_header(major, n));
    }
}

/// Appends a canonical CBOR unsigned integer to `out`.
pub fn encode_u64(out: &mut Vec<u8>, n: u64)
    ensures
        final(out)@ == old(out)@ + cbor_u64(n),
{
    encode_header(out, MAJOR_UINT, n);
}

/// Appends a canonical CBOR byte string to `out`.
pub fn encode_bytes(out: &mut Vec<u8>, b: &Vec<u8>)
    ensures
        final(out)@ == old(out)@ + cbor_bytes(b@),
{
    encode_header(out, MAJOR_BYTES, b.len() as u64);
    out.extend_from_slice(b.as_slice());
    proof {
        assert(final(out)@ =~= old(out)@ + cbor_bytes(b@));
    }
}

/// Appends a CBOR boolean to `out`.
pub fn encode_bool(out: &mut Vec<u8>, v: bool)
    ensures
        final(out)@ == old(out)@ + cbor_bool(v),
{
    if v {
        out.push(0xf5);
    } else {
        out.push(0xf4);
    }
    proof {
        assert(final(out)@ =~= old(out)@ + cbor_bool(v));
    }
}

/// Length in bytes of a canonical header with argument `n`.
pub open spec fn header_len(n: u64) -> int {
    if n < 24 {
        1
    } else if n <= 0xff {
        2
    } else if n <= 0xffff {
        3
    } else if n <= 0xffff_ffff {
        5
    } else {
        9
    }
}

/// A canonical header has exactly `header_len` bytes.
pub proof fn lemma_header_len(major: u8, n: u64)
    ensures
        cbor_header(major, n).len() == header_len(n),
{
}

/// Parses a canonical CBOR header at `pos`: the major type, the
/// argument, and the position of the first byte after the header.
/// Non-canonical and reserved forms parse to `None`.
pub open spec fn header_at(buf: Seq<u8>, pos: int) -> Option<(u8, u64, int)> {
    if pos < 0 || pos >= buf.len() {
        None
    } else {
        let b0 = buf[pos] as int;
        let major = (b0 / 0x20) as u8;
        let ai = b0 % 0x20;
        if ai < 24 {
            Some((major, ai as u64, pos + 1))
        } else if ai == 24 {
            if pos + 2 <= buf.len() && buf[pos + 1] >= 24 {
                Some((major, buf[pos + 1] as u64, pos + 2))
            } else {
                None
            }
        } else if ai == 25 {
            if pos + 3 <= buf.len() {
                let n = (buf[pos + 1] as int) * 0x100 + (buf[pos + 2] as int);
                if n > 0xff {
                    Some((major, n as u64, pos + 3))
                } else {
                    None
                }
            } else {
                None
            }
        } else if ai == 26 {
            if pos + 5 <= buf.len() {
                let n = (((buf[pos + 1] as int) * 0x100 + (buf[pos + 2] as int)) * 0x100 + (buf[pos
                    + 3] as int)) * 0x100 + (buf[pos + 4] as int);
                if n > 0xffff {
                    Some((major, n as u64, pos + 5))
                } else {
                    None
                }
            } else {
                None
            }
        } else if ai == 27 {
            if pos + 9 <= buf.len() {
                let n = (((((((buf[pos + 1] as int) * 0x100 + (buf[pos + 2] as int)) * 0x100 + (
                buf[pos + 3] as int)) * 0x100 + (buf[pos + 4] as int)) * 0x100 + (buf[pos
                    + 5] as int)) * 0x100 + (buf[pos + 6] as int)) * 0x100 + (buf[pos
                    + 7] as int)) * 0x100 + (buf[pos + 8] as int);
                if n > 0xffff_ffff {
                    Some((major, n as u64, pos + 9))
                } else {
                    None
                }
            } else {
                None
            }
        } else {
            None
        }
    }
}

/// One step of big-endian reconstruction: the next lower byte extends
/// the quotient by one factor of 0x100.
proof fn lemma_be_step(n: int, d: int)
    requires
        0 <= n,
        1 <= d,
    ensures
        (n / (d * 0x100)) * 0x100 + (n / d) % 0x100 == n / d,
{
    vstd::arithmetic::div_mod::lemma_div_denominator(n, d, 0x100);
    vstd::arithmetic::div_mod::lemma_fundamental_div_mod(n / d, 0x100);
}

/// Parsing inverts encoding: wherever the bytes of a canonical header
/// stand in a buffer, `header_at` returns its major type and argument.
pub proof fn lemma_header_at(buf: Seq<u8>, pos: int, major: u8, n: u64)
    requires
        major < 8,
        0 <= pos,
        pos + header_len(n) <= buf.len(),
        buf.subrange(pos, pos + header_len(n)) == cbor_header(major, n),
    ensures
        header_at(buf, pos) == Some((major, n, pos + header_len(n))),
{
    let h = cbor_header(major, n);
    let m = (major as int) * 0x20;
    lemma_header_len(major, n);
    let sub = buf.subrange(pos, pos + header_len(n));
    assert(sub[0] == buf[pos]);
    if header_len(n) >= 2 {
        assert(sub[1] == buf[pos + 1]);
    }
    if header_len(n) >= 3 {
        assert(sub[2] == buf[pos + 2]);
    }
    if header_len(n) >= 5 {
        assert(sub[3] == buf[pos + 3]);
        assert(sub[4] == buf[pos + 4]);
    }
    if header_len(n) >= 9 {
        assert(sub[5] == buf[pos + 5]);
        assert(sub[6] == buf[pos + 6]);
        assert(sub[7] == buf[pos + 7]);
        assert(sub[8] == buf[pos + 8]);
    }
    let ni = n as int;
    if n < 24 {
        assert(buf[pos] == (m + ni) as u8);
        assert((m + ni) / 0x20 == major as int && (m + ni) % 0x20 == ni) by (nonlinear_arith)
            requires
                0 <= major < 8,
                0 <= ni < 24,
                m == (major as int) * 0x20,
        ;
    } else if n <= 0xff {
        assert(buf[pos] == (m + 24) as u8);
        assert((m + 24) / 0x20 == major as int && (m + 24) % 0x20 == 24) by (nonlinear_arith)
            requires
                0 <= major < 8,
                m == (major as int) * 0x20,
        ;
        assert(buf[pos + 1] == n as u8);
    } else if n <= 0xffff {
        assert(buf[pos] == (m + 25) as u8);
        assert((m + 25) / 0x20 == major as int && (m + 25) % 0x20 == 25) by (nonlinear_arith)
            requires
                0 <= major < 8,
                m == (major as int) * 0x20,
        ;
        lemma_be_step(ni, 1);
        assert((buf[pos + 1] as int) * 0x100 + (buf[pos + 2] as int) == ni);
    } else if n <= 0xffff_ffff {
        assert(buf[pos] == (m + 26) as u8);
        assert((m + 26) / 0x20 == major as int && (m + 26) % 0x20 == 26) by (nonlinear_arith)
            requires
                0 <= major < 8,
                m == (major as int) * 0x20,
        ;
        lemma_be_step(ni, 0x1_0000);
        lemma_be_step(ni, 0x100);
        lemma_be_step(ni, 1);
    } else {
        assert(buf[pos] == (m + 27) as u8);
        assert((m + 27) / 0x20 == major as int && (m + 27) % 0x20 == 27) by (nonlinear_arith)
            requires
                0 <= major < 8,
                m == (major as int) * 0x20,
        ;
        lemma_be_step(ni, 0x100_0000_0000_0000);
        lemma_be_step(ni, 0x1_0000_0000_0000);
        lemma_be_step(ni, 0x100_0000_0000);
        lemma_be_step(ni, 0x1_0000_0000);
        lemma_be_step(ni, 0x100_0000);
        lemma_be_step(ni, 0x1_0000);
        lemma_be_step(ni, 0x100);
        lemma_be_step(ni, 1);
    }
}

/// Parses a CBOR byte string at `pos`: its contents and the position of
/// the first byte after them.
pub open spec fn bytes_at(buf: Seq<u8>, pos: int) -> Option<(Seq<u8>, int)> {
    match header_at(buf, pos) {
        Some((major, n, p)) => if major == MAJOR_BYTES && p + n <= buf.len() {
            Some((buf.subrange(p, p + n), p + n))
        } else {
            None
        },
        None => None,
    }
}

/// Parses a CBOR unsigned integer at `pos`.
pub open spec fn u64_at(buf: Seq<u8>, pos: int) -> Option<(u64, int)> {
    match header_at(buf, pos) {
        Some((major, n, p)) => if major == MAJOR_UINT {
            Some((n, p))
        } else {
            None
        },
        None => None,
    }
}

/// Parses a CBOR boolean at `pos`.
pub open spec fn bool_at(buf: Seq<u8>, pos: int) -> Option<(bool, int)> {
    if 0 <= pos < buf.len() && buf[pos] == 0xf4u8 {
        Some((false, pos + 1))
    } else if 0 <= pos < buf.len() && buf[pos] == 0xf5u8 {
        Some((true, pos + 1))
    } else {
        None
    }
}

/// Parsing inverts encoding for byte strings.
pub proof fn lemma_bytes_at(buf: Seq<u8>, pos: int, b: Seq<u8>)
    requires
        0 <= pos,
        b.len() <= u64::MAX,
        pos + cbor_bytes(b).len() <= buf.len(),
        buf.subrange(pos, pos + cbor_bytes(b).len()) == cbor_bytes(b),
    ensures
        bytes_at(buf, pos) == Some((b, pos + cbor_bytes(b).len())),
{
    let n = b.len() as u64;
    let hl = header_len(n);
    lemma_header_len(MAJOR_BYTES, n);
    assert(buf.subrange(pos, pos + hl) =~= cbor_header(MAJOR_BYTES, n)) by {
        let sub = buf.subrange(pos, pos + cbor_bytes(b).len());
        assert forall|k: int| 0 <= k < hl implies buf.subrange(pos, pos + hl)[k] == cbor_header(
            MAJOR_BYTES,
            n,
        )[k] by {
            assert(buf.subrange(pos, pos + hl)[k] == buf[pos + k]);
            assert(sub[k] == buf[pos + k]);
            assert(sub[k] == cbor_bytes(b)[k]);
        }
    }
    lemma_header_at(buf, pos, MAJOR_BYTES, n);
    assert(buf.subrange(pos + hl, pos + hl + n) =~= b) by {
        let sub = buf.subrange(pos, pos + cbor_bytes(b).len());
        assert forall|k: int| 0 <= k < n implies buf.subrange(pos + hl, pos + hl + n)[k] == b[k] by {
            assert(buf.subrange(pos + hl, pos + hl + n)[k] == buf[pos + hl + k]);
            assert(sub[hl + k] == buf[pos + hl + k]);
            assert(sub[hl + k] == cbor_bytes(b)[hl + k]);
            assert(cbor_bytes(b)[hl + k] == b[k]);
        }
    }
}

/// Parsing inverts encoding for unsigned integers.
pub proof fn lemma_u64_at(buf: Seq<u8>, pos: int, n: u64)
    requires
        0 <= pos,
        pos + cbor_u64(n).len() <= buf.len(),
        buf.subrange(pos, pos + cbor_u64(n).len()) == cbor_u64(n),
    ensures
        u64_at(buf, pos) == Some((n, pos + cbor_u64(n).len())),
{
    lemma_header_len(MAJOR_UINT, n);
    lemma_header_at(buf, pos, MAJOR_UINT, n);
}

/// Parsing inverts encoding for booleans.
pub proof fn lemma_bool_at(buf: Seq<u8>, pos: int, v: bool)
    requires
        0 <= pos,
        pos + 1 <= buf.len(),
        buf.subrange(pos, pos + 1) == cbor_bool(v),
    ensures
        bool_at(buf, pos) == Some((v, pos + 1)),
{
    assert(buf.subrange(pos, pos + 1)[0] == buf[pos]);
}

/// Reads a canonical CBOR header from `buf` at `pos`.
pub fn decode_header(buf: &Vec<u8>, pos: usize) -> (r: Option<(u8, u64, usize)>)
    ensures
        match r {
            Some((major, n, end)) => header_at(buf@, pos as int) == Some(
                (major, n, end as int),
            ) && pos < end <= buf@.len() && major < 8,
            None => header_at(buf@, pos as int) is None,
        },
{
    if pos >= buf.len() {
        return None;
    }
    let b0 = buf[pos];
    let major = b0 / 0x20;
    let ai = b0 % 0x20;
    if ai < 24 {
        Some((major, ai as u64, pos + 1))
    } else if ai == 24 {
        if buf.len() - pos >= 2 && buf[pos + 1] >= 24 {
            Some((major, buf[pos + 1] as u64, pos + 2))
        } else {
            None
        }
    } else if ai == 25 {
        if buf.len() - pos >= 3 {
            let n: u64 = (buf[pos + 1] as u64) * 0x100 + (buf[pos + 2] as u64);
            if n > 0xff {
                Some((major, n, pos + 3))
            } else {
                None
            }
        } else {
            None
        }
    } else if ai == 26 {
        if buf.len() - pos >= 5 {
            let n: u64 = (((buf[pos + 1] as u64) * 0x100 + (buf[pos + 2] as u64)) * 0x100 + (buf[pos
                + 3] as u64)) * 0x100 + (buf[pos + 4] as u64);
            if n > 0xffff {
                Some((major, n, pos + 5))
            } else {
                None
            }
        } else {
            None
        }
    } else if ai == 27 {
        if buf.len() - pos >= 9 {
            let n: u64 = (((((((buf[pos + 1] as u64) * 0x100 + (buf[pos + 2] as u64)) * 0x100 + (
            buf[pos + 3] as u64)) * 0x100 + (buf[pos + 4] as u64)) * 0x100 + (buf[pos
                + 5] as u64)) * 0x100 + (buf[pos + 6] as u64)) * 0x100 + (buf[pos + 7] as u64))
                * 0x100 + (buf[pos + 8] as u64);
            if n > 0xffff_ffff {
                Some((major, n, pos + 9))
            } else {
                None
            }
        } else {
            None
        }
    } else {
        None
    }
}

/// Reads a CBOR byte string from `buf` at `pos`.
pub fn decode_bytes(buf: &Vec<u8>, pos: usize) -> (r: Option<(Vec<u8>, usize)>)
    ensures
        match r {
            Some((b, end)) => bytes_at(buf@, pos as int) == Some((b@, end as int)) && pos < end
                <= buf@.len(),
            None => bytes_at(buf@, pos as int) is None,
        },
{
    match decode_header(buf, pos) {
        Some((major, n, p)) => {
            if major == MAJOR_BYTES && n <= (buf.len() - p) as u64 {
                let end = p + (n as usize);
                let mut b: Vec<u8> = Vec::new();
                let mut i = p;
                while i < end
                    invariant
                        p <= i <= end <= buf@.len(),
                        b@ =~= buf@.subrange(p as int, i as int),
                    decreases end - i,
                {
                    b.push(buf[i]);
                    proof {
                        assert(b@ =~= buf@.subrange(p as int, i + 1));
                    }
                    i = i + 1;
                }
                Some((b, end))
            } else {
                None
            }
        },
        None => None,
    }
}

/// Reads a CBOR unsigned integer from `buf` at `pos`.
pub fn decode_u64(buf: &Vec<u8>, pos: usize) -> (r: Option<(u64, usize)>)
    ensures
        match r {
            Some((n, end)) => u64_at(buf@, pos as int) == Some((n, end as int)) && pos < end
                <= buf@.len(),
            None => u64_at(buf@, pos as int) is None,
        },
{
    match decode_header(buf, pos) {
        Some((major, n, p)) => {
            if major == MAJOR_UINT {
                Some((n, p))
            } else {
                None
            }
        },
        None => None,
    }
}

/// Reads a CBOR boolean from `buf` at `pos`.
pub fn decode_bool(buf: &Vec<u8>, pos: usize) -> (r: Option<(bool, usize)>)
    ensures
        match r {
            Some((v, end)) => bool_at(buf@, pos as int) == Some((v, end as int)) && pos < end
                <= buf@.len(),
            None => bool_at(buf@, pos as int) is None,
        },
{
    if pos < buf.len() {
        let b = buf[pos];
        if b == 0xf4 {
            Some((false, pos + 1))
        } else if b == 0xf5 {
            Some((true, pos + 1))
        } else {
            None
        }
    } else {
        None
    }
}

/// Two equal byte strings that both start with a canonical header carry
/// the same major type and argument; in particular `cbor_u64` is
/// injective, also as a prefix.
pub proof fn lemma_header_prefix_injective(major: u8, a: u64, ra: Seq<u8>, b: u64, rb: Seq<u8>)
    requires
        major < 8,
        cbor_header(major, a) + ra == cbor_header(major, b) + rb,
    ensures
        a == b,
        ra == rb,
{
    let bufa = cbor_header(major, a) + ra;
    let bufb = cbor_header(major, b) + rb;
    assert(bufa.subrange(0, header_len(a)) =~= cbor_header(major, a));
    assert(bufb.subrange(0, header_len(b)) =~= cbor_header(major, b));
    lemma_header_at(bufa, 0, major, a);
    lemma_header_at(bufb, 0, major, b);
    assert(a == b);
    assert(ra =~= rb) by {
        assert forall|i: int| 0 <= i < ra.len() implies ra[i] == rb[i] by {
            assert(bufa[header_len(a) + i] == ra[i]);
            assert(bufb[header_len(b) + i] == rb[i]);
        }
        assert(ra.len() == rb.len());
    }
}

} // verus!
