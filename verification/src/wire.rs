//! The route descriptor's wire form: a compact, explicitly tagged
//! encoding — one tag byte per layer, length-prefixed UTF-8 strings,
//! little-endian integers — that a separate dialing component decodes.
//! Encoding and decoding are exact inverses: the decoder accepts
//! precisely the encodings and nothing else, and the encoding is
//! injective, so a route survives the round trip layer for layer.
//! Decoding caps the nesting depth defensively against malformed input.

use vstd::prelude::*;
use vstd::bytes::{
    lemma_auto_spec_u32_to_from_le_bytes, spec_u32_from_le_bytes, spec_u32_to_le_bytes,
    u32_from_le_bytes, u32_to_le_bytes,
};
use vstd::slice::{slice_subrange, slice_to_vec};

use crate::crypto::bytes_to_string;
use crate::routes::RouteDescriptor;

verus! {

use vstd::utf8::{
    decode_utf8, decode_utf8_encode_utf8, encode_utf8, encode_utf8_decode_utf8,
    encode_utf8_valid_utf8,
};

/// Decoding rejects routes with this many wrapping layers or more; no
/// well-formed route comes anywhere near it.
pub const MAX_ROUTE_DEPTH: u32 = 64;

/// Nesting depth: the number of wrapping layers above the terminal TCP
/// hop.
pub open spec fn route_depth(r: RouteDescriptor) -> nat
    decreases r,
{
    match r {
        RouteDescriptor::Tcp(_) => 0,
        RouteDescriptor::Sosistab3 { lower, .. } => 1 + route_depth(*lower),
        RouteDescriptor::Delay { lower, .. } => 1 + route_depth(*lower),
    }
}

/// A route the wire form can carry: every address and cookie fits its
/// 32-bit length prefix.
pub open spec fn wire_ok(r: RouteDescriptor) -> bool
    decreases r,
{
    match r {
        RouteDescriptor::Tcp(a) => encode_utf8(a@).len() < 0x1_0000_0000,
        RouteDescriptor::Sosistab3 { cookie, lower } => encode_utf8(cookie@).len()
            < 0x1_0000_0000 && wire_ok(*lower),
        RouteDescriptor::Delay { lower, .. } => wire_ok(*lower),
    }
}

/// A length-prefixed string: four little-endian length bytes, then the
/// UTF-8 text itself.
pub open spec fn str_bytes(s: Seq<char>) -> Seq<u8> {
    spec_u32_to_le_bytes(encode_utf8(s).len() as u32) + encode_utf8(s)
}

/// The wire form: a tag byte — 0 terminal TCP, 1 obfuscated, 2 delayed —
/// then the layer's fields, then the wrapped layer.
pub open spec fn route_bytes(r: RouteDescriptor) -> Seq<u8>
    decreases r,
{
    match r {
        RouteDescriptor::Tcp(a) => seq![0u8] + str_bytes(a@),
        RouteDescriptor::Sosistab3 { cookie, lower } => seq![1u8] + str_bytes(cookie@)
            + route_bytes(*lower),
        RouteDescriptor::Delay { milliseconds, lower } => seq![2u8] + spec_u32_to_le_bytes(
            milliseconds,
        ) + route_bytes(*lower),
    }
}

/// Two routes spell the same path: the same layers in the same order,
/// strings equal character for character, delays equal.
pub open spec fn route_view_eq(a: RouteDescriptor, b: RouteDescriptor) -> bool
    decreases a,
{
    match (a, b) {
        (RouteDescriptor::Tcp(x), RouteDescriptor::Tcp(y)) => x@ == y@,
        (
            RouteDescriptor::Sosistab3 { cookie: c1, lower: l1 },
            RouteDescriptor::Sosistab3 { cookie: c2, lower: l2 },
        ) => c1@ == c2@ && route_view_eq(*l1, *l2),
        (
            RouteDescriptor::Delay { milliseconds: m1, lower: l1 },
            RouteDescriptor::Delay { milliseconds: m2, lower: l2 },
        ) => m1 == m2 && route_view_eq(*l1, *l2),
        _ => false,
    }
}

/// Why a byte string was rejected.
#[derive(Clone, Copy, Debug, PartialEq, Eq, Structural)]
pub enum WireError {
    /// More wrapping layers than the decoder accepts.
    TooDeep,
    /// The input ends before the encoding does.
    Truncated,
    /// A tag byte names no layer.
    BadTag,
    /// A string's bytes are not valid UTF-8.
    BadText,
    /// Bytes follow a complete encoding.
    TrailingBytes,
}

/// Writes the wire form of a route.
pub fn encode_route(r: &RouteDescriptor) -> (out: Vec<u8>)
    requires
        wire_ok(*r),
    ensures
        out@ == route_bytes(*r),
    decreases *r,
{
    match r {
        RouteDescriptor::Tcp(a) => {
            let mut out: Vec<u8> = Vec::new();
            out.push(0u8);
            push_str_bytes(&mut out, a);
            proof {
                assert(out@ =~= seq![0u8] + str_bytes(a@));
            }
            out
        },
        RouteDescriptor::Sosistab3 { cookie, lower } => {
            let mut out: Vec<u8> = Vec::new();
            out.push(1u8);
            push_str_bytes(&mut out, cookie);
            let mut tail = encode_route(&**lower);
            out.append(&mut tail);
            proof {
                assert(out@ =~= seq![1u8] + str_bytes(cookie@) + route_bytes(**lower));
            }
            out
        },
        RouteDescriptor::Delay { milliseconds, lower } => {
            let mut out: Vec<u8> = Vec::new();
            out.push(2u8);
            let mut ms = u32_to_le_bytes(*milliseconds);
            out.append(&mut ms);
            let mut tail = encode_route(&**lower);
            out.append(&mut tail);
            proof {
                assert(out@ =~= seq![2u8] + spec_u32_to_le_bytes(*milliseconds) + route_bytes(
                    **lower,
                ));
            }
            out
        },
    }
}

/// Appends a length-prefixed string to the output.
fn push_str_bytes(out: &mut Vec<u8>, s: &String)
    requires
        encode_utf8(s@).len() < 0x1_0000_0000,
    ensures
        final(out)@ == old(out)@ + str_bytes(s@),
{
    let mut b = s.as_str().as_bytes_vec();
    let mut lenb = u32_to_le_bytes(b.len() as u32);
    out.append(&mut lenb);
    out.append(&mut b);
    proof {
        assert(out@ =~= old(out)@ + str_bytes(s@));
    }
}

/// Where a route encoding begins at `pos` in `bytes`.
pub open spec fn encodes_at(bytes: Seq<u8>, pos: int, d: RouteDescriptor) -> bool {
    &&& pos + route_bytes(d).len() <= bytes.len()
    &&& bytes.subrange(pos, pos + route_bytes(d).len() as int) == route_bytes(d)
}

/// Where a length-prefixed string begins at `pos` in `bytes`.
pub open spec fn str_encodes_at(bytes: Seq<u8>, pos: int, s: Seq<char>) -> bool {
    &&& pos + str_bytes(s).len() <= bytes.len()
    &&& bytes.subrange(pos, pos + str_bytes(s).len() as int) == str_bytes(s)
}

/// Reads the wire form back. Accepted are exactly the encodings of
/// well-formed routes within the depth cap, nothing else; what comes
/// back encodes to the very bytes that went in.
pub fn decode_route(bytes: &Vec<u8>) -> (r: Result<RouteDescriptor, WireError>)
    ensures
        r matches Ok(d) ==> route_bytes(d) == bytes@ && wire_ok(d) && route_depth(d)
            < MAX_ROUTE_DEPTH,
        (exists|d0: RouteDescriptor|
            wire_ok(d0) && route_depth(d0) < MAX_ROUTE_DEPTH && #[trigger] route_bytes(d0)
                == bytes@) ==> r is Ok,
{
    proof {
        if exists|d0: RouteDescriptor|
            wire_ok(d0) && route_depth(d0) < MAX_ROUTE_DEPTH && #[trigger] route_bytes(d0)
                == bytes@ {
            let d0 = choose|d0: RouteDescriptor|
                wire_ok(d0) && route_depth(d0) < MAX_ROUTE_DEPTH && #[trigger] route_bytes(d0)
                    == bytes@;
            assert(bytes@.subrange(0, route_bytes(d0).len() as int) =~= route_bytes(d0));
            assert(encodes_at(bytes@, 0, d0));
        }
    }
    match decode_at(bytes, 0, MAX_ROUTE_DEPTH) {
        Ok((d, end)) => {
            if end == bytes.len() {
                proof {
                    assert(route_bytes(d) =~= bytes@);
                }
                Ok(d)
            } else {
                Err(WireError::TrailingBytes)
            }
        },
        Err(e) => Err(e),
    }
}

/// One layer of decoding, bounded by the remaining depth budget.
fn decode_at(bytes: &Vec<u8>, pos: usize, budget: u32) -> (r: Result<
    (RouteDescriptor, usize),
    WireError,
>)
    requires
        pos <= bytes@.len(),
    ensures
        r matches Ok(p) ==> ({
            &&& pos <= p.1 <= bytes@.len()
            &&& route_bytes(p.0) == bytes@.subrange(pos as int, p.1 as int)
            &&& wire_ok(p.0)
            &&& route_depth(p.0) < budget
        }),
        forall|d0: RouteDescriptor|
            wire_ok(d0) && route_depth(d0) < budget && #[trigger] encodes_at(
                bytes@,
                pos as int,
                d0,
            ) ==> (r matches Ok(p) && p.1 == pos + route_bytes(d0).len()),
    decreases budget,
{
    if budget == 0 {
        return Err(WireError::TooDeep);
    }
    if pos == bytes.len() {
        proof {
            assert forall|d0: RouteDescriptor|
                wire_ok(d0) && route_depth(d0) < budget && #[trigger] encodes_at(
                    bytes@,
                    pos as int,
                    d0,
                ) implies false by {
                lemma_route_bytes_shape(d0);
            }
        }
        return Err(WireError::Truncated);
    }
    let tag = bytes[pos];
    proof {
        assert forall|d0: RouteDescriptor|
            wire_ok(d0) && route_depth(d0) < budget && #[trigger] encodes_at(
                bytes@,
                pos as int,
                d0,
            ) implies bytes@[pos as int] == spec_tag_of(d0) by {
            lemma_route_bytes_shape(d0);
            assert(bytes@.subrange(pos as int, pos + route_bytes(d0).len() as int)[0]
                == bytes@[pos as int]);
        }
    }
    if tag == 0 {
        match read_str_at(bytes, pos + 1) {
            Option::Some((s, end)) => {
                let d = RouteDescriptor::Tcp(s);
                proof {
                    lemma_route_bytes_shape(d);
                    assert(bytes@.subrange(pos as int, end as int) =~= seq![0u8]
                        + bytes@.subrange(pos + 1, end as int));
                    assert forall|d0: RouteDescriptor|
                        wire_ok(d0) && route_depth(d0) < budget && #[trigger] encodes_at(
                            bytes@,
                            pos as int,
                            d0,
                        ) implies end == pos + route_bytes(d0).len() by {
                        lemma_route_bytes_shape(d0);
                        match d0 {
                            RouteDescriptor::Tcp(a0) => {
                                lemma_str_after_tag(bytes@, pos as int, d0, a0@);
                            },
                            _ => {},
                        }
                    }
                }
                Ok((d, end))
            },
            Option::None => {
                proof {
                    assert forall|d0: RouteDescriptor|
                        wire_ok(d0) && route_depth(d0) < budget && #[trigger] encodes_at(
                            bytes@,
                            pos as int,
                            d0,
                        ) implies false by {
                        lemma_route_bytes_shape(d0);
                        match d0 {
                            RouteDescriptor::Tcp(a0) => {
                                lemma_str_after_tag(bytes@, pos as int, d0, a0@);
                            },
                            _ => {},
                        }
                    }
                }
                Err(WireError::BadText)
            },
        }
    } else if tag == 1 {
        match read_str_at(bytes, pos + 1) {
            Option::Some((cookie, mid)) => {
                match decode_at(bytes, mid, budget - 1) {
                    Ok((lower, end)) => {
                        let d = RouteDescriptor::Sosistab3 { cookie, lower: Box::new(lower) };
                        proof {
                            lemma_route_bytes_shape(d);
                            assert(bytes@.subrange(pos as int, end as int) =~= seq![1u8]
                                + bytes@.subrange(pos + 1, mid as int) + bytes@.subrange(
                                mid as int,
                                end as int,
                            ));
                            assert forall|d0: RouteDescriptor|
                                wire_ok(d0) && route_depth(d0) < budget && #[trigger] encodes_at(
                                    bytes@,
                                    pos as int,
                                    d0,
                                ) implies end == pos + route_bytes(d0).len() by {
                                lemma_route_bytes_shape(d0);
                                match d0 {
                                    RouteDescriptor::Sosistab3 { cookie: c0, lower: l0 } => {
                                        lemma_str_after_tag(bytes@, pos as int, d0, c0@);
                                        lemma_tail_encodes(bytes@, pos as int, d0, c0@, *l0);
                                        assert(encodes_at(bytes@, mid as int, *l0));
                                    },
                                    _ => {},
                                }
                            }
                        }
                        Ok((d, end))
                    },
                    Err(e) => {
                        proof {
                            assert forall|d0: RouteDescriptor|
                                wire_ok(d0) && route_depth(d0) < budget && #[trigger] encodes_at(
                                    bytes@,
                                    pos as int,
                                    d0,
                                ) implies false by {
                                lemma_route_bytes_shape(d0);
                                match d0 {
                                    RouteDescriptor::Sosistab3 { cookie: c0, lower: l0 } => {
                                        lemma_str_after_tag(bytes@, pos as int, d0, c0@);
                                        lemma_tail_encodes(bytes@, pos as int, d0, c0@, *l0);
                                        assert(encodes_at(bytes@, mid as int, *l0));
                                    },
                                    _ => {},
                                }
                            }
                        }
                        Err(e)
                    },
                }
            },
            Option::None => {
                proof {
                    assert forall|d0: RouteDescriptor|
                        wire_ok(d0) && route_depth(d0) < budget && #[trigger] encodes_at(
                            bytes@,
                            pos as int,
                            d0,
                        ) implies false by {
                        lemma_route_bytes_shape(d0);
                        match d0 {
                            RouteDescriptor::Sosistab3 { cookie: c0, lower: l0 } => {
                                lemma_str_after_tag(bytes@, pos as int, d0, c0@);
                            },
                            _ => {},
                        }
                    }
                }
                Err(WireError::BadText)
            },
        }
    } else if tag == 2 {
        match read_u32_at(bytes, pos + 1) {
            Option::Some(ms) => {
                let mid = pos + 5;
                match decode_at(bytes, mid, budget - 1) {
                    Ok((lower, end)) => {
                        let d = RouteDescriptor::Delay { milliseconds: ms, lower: Box::new(lower) };
                        proof {
                            lemma_route_bytes_shape(d);
                            assert(bytes@.subrange(pos as int, end as int) =~= seq![2u8]
                                + bytes@.subrange(pos + 1, pos + 5) + bytes@.subrange(
                                mid as int,
                                end as int,
                            ));
                            lemma_auto_spec_u32_to_from_le_bytes();
                            assert forall|d0: RouteDescriptor|
                                wire_ok(d0) && route_depth(d0) < budget && #[trigger] encodes_at(
                                    bytes@,
                                    pos as int,
                                    d0,
                                ) implies end == pos + route_bytes(d0).len() by {
                                lemma_route_bytes_shape(d0);
                                match d0 {
                                    RouteDescriptor::Delay { milliseconds: m0, lower: l0 } => {
                                        lemma_delay_parts(bytes@, pos as int, d0, m0, *l0);
                                        assert(encodes_at(bytes@, mid as int, *l0));
                                    },
                                    _ => {},
                                }
                            }
                        }
                        Ok((d, end))
                    },
                    Err(e) => {
                        proof {
                            assert forall|d0: RouteDescriptor|
                                wire_ok(d0) && route_depth(d0) < budget && #[trigger] encodes_at(
                                    bytes@,
                                    pos as int,
                                    d0,
                                ) implies false by {
                                lemma_route_bytes_shape(d0);
                                match d0 {
                                    RouteDescriptor::Delay { milliseconds: m0, lower: l0 } => {
                                        lemma_delay_parts(bytes@, pos as int, d0, m0, *l0);
                                        assert(encodes_at(bytes@, mid as int, *l0));
                                    },
                                    _ => {},
                                }
                            }
                        }
                        Err(e)
                    },
                }
            },
            Option::None => {
                proof {
                    assert forall|d0: RouteDescriptor|
                        wire_ok(d0) && route_depth(d0) < budget && #[trigger] encodes_at(
                            bytes@,
                            pos as int,
                            d0,
                        ) implies false by {
                        lemma_route_bytes_shape(d0);
                        lemma_auto_spec_u32_to_from_le_bytes();
                        match d0 {
                            RouteDescriptor::Delay { milliseconds: m0, lower: l0 } => {
                                assert(spec_u32_to_le_bytes(m0).len() == 4);
                                lemma_route_bytes_shape(*l0);
                                assert(route_bytes(d0).len() >= 6);
                            },
                            _ => {},
                        }
                    }
                }
                Err(WireError::Truncated)
            },
        }
    } else {
        proof {
            assert forall|d0: RouteDescriptor|
                wire_ok(d0) && route_depth(d0) < budget && #[trigger] encodes_at(
                    bytes@,
                    pos as int,
                    d0,
                ) implies false by {
                lemma_route_bytes_shape(d0);
            }
        }
        Err(WireError::BadTag)
    }
}

/// The tag byte of a route's outermost layer.
pub open spec fn spec_tag_of(d: RouteDescriptor) -> u8 {
    match d {
        RouteDescriptor::Tcp(_) => 0,
        RouteDescriptor::Sosistab3 { .. } => 1,
        RouteDescriptor::Delay { .. } => 2,
    }
}

/// Reads the four little-endian length bytes at `pos`.
fn read_u32_at(bytes: &Vec<u8>, pos: usize) -> (r: Option<u32>)
    ensures
        r matches Some(v) ==> pos + 4 <= bytes@.len() && v == spec_u32_from_le_bytes(
            bytes@.subrange(pos as int, pos + 4),
        ),
        r is None ==> pos + 4 > bytes@.len(),
{
    if bytes.len() >= 4 && pos <= bytes.len() - 4 {
        let s = slice_subrange(bytes.as_slice(), pos, pos + 4);
        Some(u32_from_le_bytes(s))
    } else {
        None
    }
}

/// Reads one length-prefixed string at `pos`: exactly the byte strings
/// `str_bytes` produces are accepted.
fn read_str_at(bytes: &Vec<u8>, pos: usize) -> (r: Option<(String, usize)>)
    requires
        pos <= bytes@.len(),
    ensures
        r matches Some(p) ==> ({
            &&& pos + 4 <= p.1 <= bytes@.len()
            &&& str_bytes(p.0@) == bytes@.subrange(pos as int, p.1 as int)
            &&& encode_utf8(p.0@).len() < 0x1_0000_0000
        }),
        forall|s0: Seq<char>|
            encode_utf8(s0).len() < 0x1_0000_0000 && #[trigger] str_encodes_at(
                bytes@,
                pos as int,
                s0,
            ) ==> (r matches Some(p) && p.1 == pos + str_bytes(s0).len()),
{
    proof {
        lemma_auto_spec_u32_to_from_le_bytes();
    }
    match read_u32_at(bytes, pos) {
        Option::Some(la) => {
            let n = bytes.len();
            proof {
                assert(pos + 4 <= n);
            }
            let body = pos + 4;
            let la_us = la as usize;
            if la_us > bytes.len() - body {
                proof {
                    assert forall|s0: Seq<char>|
                        encode_utf8(s0).len() < 0x1_0000_0000 && #[trigger] str_encodes_at(
                            bytes@,
                            pos as int,
                            s0,
                        ) implies false by {
                        lemma_str_prefix_reads(bytes@, pos as int, s0, la);
                    }
                }
                return None;
            }
            let end = body + la_us;
            let sub = subvec(bytes, body, end);
            match bytes_to_string(sub) {
                Option::Some(s) => {
                    proof {
                        assert(bytes@.subrange(body as int, end as int)
                            == encode_utf8(decode_utf8(bytes@.subrange(body as int, end as int))))
                            by {
                            decode_utf8_encode_utf8(bytes@.subrange(body as int, end as int));
                        }
                        assert(encode_utf8(s@) == bytes@.subrange(body as int, end as int));
                        assert(encode_utf8(s@).len() == la);
                        assert(str_bytes(s@) =~= bytes@.subrange(pos as int, end as int)) by {
                            assert(spec_u32_to_le_bytes(la) =~= bytes@.subrange(
                                pos as int,
                                pos + 4,
                            ));
                            assert(bytes@.subrange(pos as int, end as int) =~= bytes@.subrange(
                                pos as int,
                                pos + 4,
                            ) + bytes@.subrange(body as int, end as int));
                        }
                        assert forall|s0: Seq<char>|
                            encode_utf8(s0).len() < 0x1_0000_0000 && #[trigger] str_encodes_at(
                                bytes@,
                                pos as int,
                                s0,
                            ) implies end == pos + str_bytes(s0).len() by {
                            lemma_str_prefix_reads(bytes@, pos as int, s0, la);
                        }
                    }
                    Some((s, end))
                },
                Option::None => {
                    proof {
                        assert forall|s0: Seq<char>|
                            encode_utf8(s0).len() < 0x1_0000_0000 && #[trigger] str_encodes_at(
                                bytes@,
                                pos as int,
                                s0,
                            ) implies false by {
                            lemma_str_prefix_reads(bytes@, pos as int, s0, la);
                            assert(bytes@.subrange(body as int, end as int) == encode_utf8(s0));
                            encode_utf8_valid_utf8(s0);
                        }
                    }
                    None
                },
            }
        },
        Option::None => {
            proof {
                assert forall|s0: Seq<char>|
                    encode_utf8(s0).len() < 0x1_0000_0000 && #[trigger] str_encodes_at(
                        bytes@,
                        pos as int,
                        s0,
                    ) implies false by {
                    assert(str_bytes(s0).len() >= 4);
                }
            }
            None
        },
    }
}

/// Copies `bytes[from..to]`.
fn subvec(bytes: &Vec<u8>, from: usize, to: usize) -> (r: Vec<u8>)
    requires
        from <= to <= bytes@.len(),
    ensures
        r@ == bytes@.subrange(from as int, to as int),
{
    slice_to_vec(slice_subrange(bytes.as_slice(), from, to))
}


/// The length-prefixed form of a string, laid out byte for byte.
proof fn lemma_str_bytes_parts(s: Seq<char>)
    ensures
        spec_u32_to_le_bytes(encode_utf8(s).len() as u32).len() == 4,
        str_bytes(s).len() == 4 + encode_utf8(s).len(),
        str_bytes(s).subrange(0, 4) == spec_u32_to_le_bytes(encode_utf8(s).len() as u32),
        forall|i: int|
            0 <= i < encode_utf8(s).len() ==> #[trigger] str_bytes(s)[i + 4] == encode_utf8(
                s,
            )[i],
{
    lemma_auto_spec_u32_to_from_le_bytes();
    assert(spec_u32_to_le_bytes(encode_utf8(s).len() as u32).len() == 4);
    assert(str_bytes(s).subrange(0, 4) =~= spec_u32_to_le_bytes(encode_utf8(s).len() as u32));
}

/// If a string of known byte length `la0` is length-prefixed at `pos`
/// and the prefix read there says `la`, the two agree and the text sits
/// at `pos + 4`.
proof fn lemma_str_prefix_reads(bytes: Seq<u8>, pos: int, s0: Seq<char>, la: u32)
    requires
        0 <= pos,
        encode_utf8(s0).len() < 0x1_0000_0000,
        str_encodes_at(bytes, pos, s0),
        pos + 4 <= bytes.len(),
        la == spec_u32_from_le_bytes(bytes.subrange(pos, pos + 4)),
    ensures
        la == encode_utf8(s0).len(),
        pos + 4 + la <= bytes.len(),
        bytes.subrange(pos + 4, pos + 4 + la as int) == encode_utf8(s0),
{
    lemma_auto_spec_u32_to_from_le_bytes();
    lemma_str_bytes_parts(s0);
    let sb = str_bytes(s0);
    let la0 = encode_utf8(s0).len() as u32;
    assert(sb == spec_u32_to_le_bytes(la0) + encode_utf8(s0));
    assert(sb.len() == 4 + encode_utf8(s0).len());
    assert(bytes.subrange(pos, pos + 4) =~= sb.subrange(0, 4)) by {
        assert(bytes.subrange(pos, pos + sb.len() as int) == sb);
        assert forall|i: int| 0 <= i < 4 implies bytes.subrange(pos, pos + 4)[i] == sb[i] by {
            assert(bytes.subrange(pos, pos + sb.len() as int)[i] == sb[i]);
        }
    }
    assert(sb.subrange(0, 4) =~= spec_u32_to_le_bytes(la0));
    assert(la == la0);
    assert(bytes.subrange(pos + 4, pos + 4 + la as int) =~= encode_utf8(s0)) by {
        assert forall|i: int| 0 <= i < la0 implies bytes.subrange(
            pos + 4,
            pos + 4 + la0 as int,
        )[i] == encode_utf8(s0)[i] by {
            assert(bytes.subrange(pos, pos + sb.len() as int)[i + 4] == sb[i + 4]);
            assert(sb[i + 4] == encode_utf8(s0)[i]);
        }
    }
}

/// The head of every route encoding: one tag byte naming the layer, and
/// the body laid out behind it.
proof fn lemma_route_bytes_shape(d: RouteDescriptor)
    ensures
        route_bytes(d).len() >= 1,
        route_bytes(d)[0] == spec_tag_of(d),
        d matches RouteDescriptor::Tcp(a) ==> route_bytes(d) == seq![0u8] + str_bytes(a@),
        (d matches RouteDescriptor::Sosistab3 { cookie, lower } ==> route_bytes(d) == seq![1u8]
            + str_bytes(cookie@) + route_bytes(*lower)),
        (d matches RouteDescriptor::Delay { milliseconds, lower } ==> route_bytes(d)
            == seq![2u8] + spec_u32_to_le_bytes(milliseconds) + route_bytes(*lower)),
{
    match d {
        RouteDescriptor::Tcp(a) => {
            assert(route_bytes(d) == seq![0u8] + str_bytes(a@));
        },
        RouteDescriptor::Sosistab3 { cookie, lower } => {
            assert(route_bytes(d) == seq![1u8] + str_bytes(cookie@) + route_bytes(*lower));
        },
        RouteDescriptor::Delay { milliseconds, lower } => {
            assert(route_bytes(d) == seq![2u8] + spec_u32_to_le_bytes(milliseconds)
                + route_bytes(*lower));
        },
    }
}

/// Behind the tag of a `Tcp` or `Sosistab3` encoding sits its string.
proof fn lemma_str_after_tag(bytes: Seq<u8>, pos: int, d0: RouteDescriptor, s0: Seq<char>)
    requires
        0 <= pos,
        encodes_at(bytes, pos, d0),
        wire_ok(d0),
        (d0 matches RouteDescriptor::Tcp(a) && a@ == s0) || (d0
            matches RouteDescriptor::Sosistab3 { cookie, .. } && cookie@ == s0),
    ensures
        str_encodes_at(bytes, pos + 1, s0),
        encode_utf8(s0).len() < 0x1_0000_0000,
{
    lemma_route_bytes_shape(d0);
    lemma_str_bytes_parts(s0);
    let rb = route_bytes(d0);
    let sb = str_bytes(s0);
    assert(sb.len() <= rb.len() - 1);
    assert(bytes.subrange(pos + 1, pos + 1 + sb.len() as int) =~= sb) by {
        assert forall|i: int| 0 <= i < sb.len() implies bytes.subrange(
            pos + 1,
            pos + 1 + sb.len() as int,
        )[i] == sb[i] by {
            assert(bytes.subrange(pos, pos + rb.len() as int)[i + 1] == rb[i + 1]);
            assert(rb[i + 1] == sb[i]);
        }
    }
}

/// Behind a `Sosistab3` encoding's cookie sits its wrapped layer.
proof fn lemma_tail_encodes(
    bytes: Seq<u8>,
    pos: int,
    d0: RouteDescriptor,
    s0: Seq<char>,
    l0: RouteDescriptor,
)
    requires
        0 <= pos,
        encodes_at(bytes, pos, d0),
        wire_ok(d0),
        d0 matches RouteDescriptor::Sosistab3 { cookie, lower } && cookie@ == s0 && *lower == l0,
    ensures
        encodes_at(bytes, pos + 1 + str_bytes(s0).len(), l0),
        route_bytes(d0).len() == 1 + str_bytes(s0).len() + route_bytes(l0).len(),
{
    lemma_route_bytes_shape(d0);
    lemma_str_bytes_parts(s0);
    let rb = route_bytes(d0);
    let sb = str_bytes(s0);
    let lb = route_bytes(l0);
    let mid = pos + 1 + sb.len();
    assert(bytes.subrange(mid, mid + lb.len() as int) =~= lb) by {
        assert forall|i: int| 0 <= i < lb.len() implies bytes.subrange(
            mid,
            mid + lb.len() as int,
        )[i] == lb[i] by {
            assert(bytes.subrange(pos, pos + rb.len() as int)[i + 1 + sb.len()] == rb[i + 1
                + sb.len()]);
            assert(rb[i + 1 + sb.len()] == lb[i]);
        }
    }
}

/// Behind a `Delay` encoding's tag sit its four delay bytes, then its
/// wrapped layer.
proof fn lemma_delay_parts(bytes: Seq<u8>, pos: int, d0: RouteDescriptor, m0: u32, l0: RouteDescriptor)
    requires
        0 <= pos,
        encodes_at(bytes, pos, d0),
        wire_ok(d0),
        d0 matches RouteDescriptor::Delay { milliseconds, lower } && milliseconds == m0 && *lower
            == l0,
        pos + 5 <= bytes.len(),
    ensures
        bytes.subrange(pos + 1, pos + 5) == spec_u32_to_le_bytes(m0),
        encodes_at(bytes, pos + 5, l0),
        route_bytes(d0).len() == 5 + route_bytes(l0).len(),
        spec_u32_from_le_bytes(bytes.subrange(pos + 1, pos + 5)) == m0,
{
    lemma_auto_spec_u32_to_from_le_bytes();
    lemma_route_bytes_shape(d0);
    let rb = route_bytes(d0);
    let mb = spec_u32_to_le_bytes(m0);
    let lb = route_bytes(l0);
    assert(mb.len() == 4);
    assert(bytes.subrange(pos + 1, pos + 5) =~= mb) by {
        assert forall|i: int| 0 <= i < 4 implies bytes.subrange(pos + 1, pos + 5)[i]
            == mb[i] by {
            assert(bytes.subrange(pos, pos + rb.len() as int)[i + 1] == rb[i + 1]);
            assert(rb[i + 1] == mb[i]);
        }
    }
    assert(bytes.subrange(pos + 5, pos + 5 + lb.len() as int) =~= lb) by {
        assert forall|i: int| 0 <= i < lb.len() implies bytes.subrange(
            pos + 5,
            pos + 5 + lb.len() as int,
        )[i] == lb[i] by {
            assert(bytes.subrange(pos, pos + rb.len() as int)[i + 5] == rb[i + 5]);
            assert(rb[i + 5] == lb[i]);
        }
    }
}

/// The wire form is injective: two well-formed routes with one encoding
/// spell the same path, layer for layer and character for character.
/// With the decoder's contract this is the round trip: decoding an
/// encoded route yields that route back.
pub proof fn lemma_route_bytes_injective(a: RouteDescriptor, b: RouteDescriptor)
    requires
        wire_ok(a),
        wire_ok(b),
        route_bytes(a) == route_bytes(b),
    ensures
        route_view_eq(a, b),
    decreases a,
{
    lemma_route_bytes_shape(a);
    lemma_route_bytes_shape(b);
    let x = route_bytes(a);
    assert(encodes_at(x, 0, a)) by {
        assert(x.subrange(0, x.len() as int) =~= x);
    }
    assert(encodes_at(x, 0, b)) by {
        assert(x.subrange(0, x.len() as int) =~= x);
    }
    match a {
        RouteDescriptor::Tcp(a1) => {
            assert(b is Tcp);
            let b1 = b->Tcp_0;
            lemma_str_after_tag(x, 0, a, a1@);
            lemma_str_after_tag(x, 0, b, b1@);
            lemma_str_bytes_same_prefix(x, 1, a1@, b1@);
            lemma_str_bytes_injective(a1@, b1@);
        },
        RouteDescriptor::Sosistab3 { cookie: c1, lower: l1 } => {
            assert(b is Sosistab3);
            let c2 = b->Sosistab3_cookie;
            let l2 = b->Sosistab3_lower;
            lemma_str_after_tag(x, 0, a, c1@);
            lemma_str_after_tag(x, 0, b, c2@);
            lemma_str_bytes_same_prefix(x, 1, c1@, c2@);
            lemma_str_bytes_injective(c1@, c2@);
            lemma_tail_encodes(x, 0, a, c1@, *l1);
            lemma_tail_encodes(x, 0, b, c2@, *l2);
            let mid: int = 1 + str_bytes(c1@).len() as int;
            assert(route_bytes(*l1).len() == route_bytes(*l2).len());
            assert(route_bytes(*l1) == x.subrange(mid, mid + route_bytes(*l1).len() as int));
            assert(route_bytes(*l2) == x.subrange(mid, mid + route_bytes(*l2).len() as int));
            lemma_route_bytes_injective(*l1, *l2);
        },
        RouteDescriptor::Delay { milliseconds: m1, lower: l1 } => {
            assert(b is Delay);
            let m2 = b->Delay_milliseconds;
            let l2 = b->Delay_lower;
            lemma_auto_spec_u32_to_from_le_bytes();
            assert(spec_u32_to_le_bytes(m1).len() == 4);
            assert(spec_u32_to_le_bytes(m2).len() == 4);
            assert(x.len() >= 5);
            lemma_delay_parts(x, 0, a, m1, *l1);
            lemma_delay_parts(x, 0, b, m2, *l2);
            assert(m1 == m2);
            assert(route_bytes(*l1) == x.subrange(5, 5 + route_bytes(*l1).len() as int));
            assert(route_bytes(*l2) == x.subrange(5, 5 + route_bytes(*l2).len() as int));
            assert(route_bytes(*l1).len() == route_bytes(*l2).len());
            lemma_route_bytes_injective(*l1, *l2);
        },
    }
}

/// Two strings length-prefixed at one position have equal wire forms.
proof fn lemma_str_bytes_same_prefix(bytes: Seq<u8>, pos: int, s1: Seq<char>, s2: Seq<char>)
    requires
        0 <= pos,
        encode_utf8(s1).len() < 0x1_0000_0000,
        encode_utf8(s2).len() < 0x1_0000_0000,
        str_encodes_at(bytes, pos, s1),
        str_encodes_at(bytes, pos, s2),
    ensures
        str_bytes(s1) == str_bytes(s2),
{
    lemma_auto_spec_u32_to_from_le_bytes();
    lemma_str_bytes_parts(s1);
    lemma_str_bytes_parts(s2);
    let b1 = str_bytes(s1);
    let b2 = str_bytes(s2);
    assert(b1.subrange(0, 4) =~= spec_u32_to_le_bytes(encode_utf8(s1).len() as u32));
    assert(b2.subrange(0, 4) =~= spec_u32_to_le_bytes(encode_utf8(s2).len() as u32));
    assert(b1.subrange(0, 4) =~= b2.subrange(0, 4)) by {
        assert forall|i: int| 0 <= i < 4 implies b1.subrange(0, 4)[i] == b2.subrange(
            0,
            4,
        )[i] by {
            assert(bytes.subrange(pos, pos + b1.len() as int)[i] == b1[i]);
            assert(bytes.subrange(pos, pos + b2.len() as int)[i] == b2[i]);
            assert(bytes[pos + i] == b1[i] && bytes[pos + i] == b2[i]);
        }
    }
    assert((encode_utf8(s1).len() as u32) == (encode_utf8(s2).len() as u32));
    assert(encode_utf8(s1).len() == encode_utf8(s2).len());
    assert(b1.len() == b2.len());
    assert(b1 =~= b2) by {
        assert forall|i: int| 0 <= i < b1.len() implies b1[i] == b2[i] by {
            assert(bytes.subrange(pos, pos + b1.len() as int)[i] == b1[i]);
            assert(bytes.subrange(pos, pos + b2.len() as int)[i] == b2[i]);
        }
    }
}

/// The length-prefixed wire form of a string pins its characters.
proof fn lemma_str_bytes_injective(s1: Seq<char>, s2: Seq<char>)
    requires
        str_bytes(s1) == str_bytes(s2),
    ensures
        s1 == s2,
{
    lemma_str_bytes_parts(s1);
    lemma_str_bytes_parts(s2);
    let u1 = encode_utf8(s1);
    let u2 = encode_utf8(s2);
    assert(u1.len() == u2.len()) by {
        assert(str_bytes(s1).len() == 4 + u1.len());
        assert(str_bytes(s2).len() == 4 + u2.len());
    }
    assert(u1 =~= u2) by {
        assert forall|i: int| 0 <= i < u1.len() implies u1[i] == u2[i] by {
            assert(str_bytes(s1)[i + 4] == u1[i]);
            assert(str_bytes(s2)[i + 4] == u2[i]);
        }
    }
    encode_utf8_decode_utf8(s1);
    encode_utf8_decode_utf8(s2);
}

} // verus!
