//! The wire format, as mathematics: the exact byte sequence every term
//! encodes to, the terms a byte sequence decodes to, and the conditions under
//! which a term is representable at all. The executable decoder and encoder
//! are specified against these functions, and the round-trip laws are stated
//! over them.

use crate::term::{BigNumV, BitBinaryV, ErlTermTag, Error, ExportV, FunV, NewFunV, PidV, PortV, RefV, TermV};
use vstd::prelude::*;
use vstd::utf8::{decode_utf8, encode_utf8, valid_utf8};

verus! {

/// The one-byte marker that precedes every top-level term on the wire.
pub const PRELUDE_BYTE: u8 = 131;

/// The three independent choices an encoder is configured with: which atom
/// tag family to use, whether atoms of length at most 255 use the short
/// tags, and whether the size field of a current-format closure is computed
/// honestly (by encoding the body first) or written as a placeholder zero.
#[derive(Debug, Clone, Copy, PartialEq, Eq, Structural)]
pub struct EncodeFlags {
    pub utf8_atoms: bool,
    pub small_atoms: bool,
    pub fair_new_fun: bool,
}

/// The tag byte of each term tag.
pub open spec fn tag_byte(t: ErlTermTag) -> u8 {
    match t {
        ErlTermTag::SMALL_INTEGER_EXT => 97,
        ErlTermTag::INTEGER_EXT => 98,
        ErlTermTag::FLOAT_EXT => 99,
        ErlTermTag::ATOM_EXT => 100,
        ErlTermTag::REFERENCE_EXT => 101,
        ErlTermTag::PORT_EXT => 102,
        ErlTermTag::PID_EXT => 103,
        ErlTermTag::SMALL_TUPLE_EXT => 104,
        ErlTermTag::LARGE_TUPLE_EXT => 105,
        ErlTermTag::MAP_EXT => 116,
        ErlTermTag::NIL_EXT => 106,
        ErlTermTag::STRING_EXT => 107,
        ErlTermTag::LIST_EXT => 108,
        ErlTermTag::BINARY_EXT => 109,
        ErlTermTag::SMALL_BIG_EXT => 110,
        ErlTermTag::LARGE_BIG_EXT => 111,
        ErlTermTag::NEW_REFERENCE_EXT => 114,
        ErlTermTag::SMALL_ATOM_EXT => 115,
        ErlTermTag::FUN_EXT => 117,
        ErlTermTag::NEW_FUN_EXT => 112,
        ErlTermTag::EXPORT_EXT => 113,
        ErlTermTag::BIT_BINARY_EXT => 77,
        ErlTermTag::NEW_FLOAT_EXT => 70,
        ErlTermTag::ATOM_UTF8_EXT => 118,
        ErlTermTag::SMALL_ATOM_UTF8_EXT => 119,
    }
}

/// The term tag of a byte, if any: the closed tag table of the format.
pub open spec fn tag_of_byte(b: u8) -> Option<ErlTermTag> {
    match b {
        97u8 => Some(ErlTermTag::SMALL_INTEGER_EXT),
        98u8 => Some(ErlTermTag::INTEGER_EXT),
        99u8 => Some(ErlTermTag::FLOAT_EXT),
        100u8 => Some(ErlTermTag::ATOM_EXT),
        101u8 => Some(ErlTermTag::REFERENCE_EXT),
        102u8 => Some(ErlTermTag::PORT_EXT),
        103u8 => Some(ErlTermTag::PID_EXT),
        104u8 => Some(ErlTermTag::SMALL_TUPLE_EXT),
        105u8 => Some(ErlTermTag::LARGE_TUPLE_EXT),
        116u8 => Some(ErlTermTag::MAP_EXT),
        106u8 => Some(ErlTermTag::NIL_EXT),
        107u8 => Some(ErlTermTag::STRING_EXT),
        108u8 => Some(ErlTermTag::LIST_EXT),
        109u8 => Some(ErlTermTag::BINARY_EXT),
        110u8 => Some(ErlTermTag::SMALL_BIG_EXT),
        111u8 => Some(ErlTermTag::LARGE_BIG_EXT),
        114u8 => Some(ErlTermTag::NEW_REFERENCE_EXT),
        115u8 => Some(ErlTermTag::SMALL_ATOM_EXT),
        117u8 => Some(ErlTermTag::FUN_EXT),
        112u8 => Some(ErlTermTag::NEW_FUN_EXT),
        113u8 => Some(ErlTermTag::EXPORT_EXT),
        77u8 => Some(ErlTermTag::BIT_BINARY_EXT),
        70u8 => Some(ErlTermTag::NEW_FLOAT_EXT),
        118u8 => Some(ErlTermTag::ATOM_UTF8_EXT),
        119u8 => Some(ErlTermTag::SMALL_ATOM_UTF8_EXT),
        _ => None,
    }
}

/// The tag table is a bijection between tags and their bytes.
pub proof fn lemma_tag_byte_of_byte(t: ErlTermTag, b: u8)
    ensures
        tag_of_byte(tag_byte(t)) == Some(t),
        tag_of_byte(b) matches Some(t2) ==> tag_byte(t2) == b,
{
}

/// The valid tag bytes are exactly 70, 77 and 97 through 119.
pub proof fn lemma_valid_tag_bytes(b: u8)
    ensures
        (tag_of_byte(b) is Some) <==> (b == 70 || b == 77 || (97 <= b && b <= 119)),
{
}

/// A `u16` as two big-endian bytes.
pub open spec fn be16(x: u16) -> Seq<u8> {
    seq![(x / 0x100) as u8, (x % 0x100) as u8]
}

/// A `u16` read from two big-endian bytes.
pub open spec fn from_be16(b1: u8, b0: u8) -> u16 {
    ((b1 as u16) * 0x100 + (b0 as u16)) as u16
}

/// A `u32` as four big-endian bytes: the two 16-bit halves, each big-endian.
pub open spec fn be32(x: u32) -> Seq<u8> {
    be16((x / 0x1_0000) as u16) + be16((x % 0x1_0000) as u16)
}

/// A `u32` assembled from its 16-bit halves.
pub open spec fn u32_from_halves(hi: u16, lo: u16) -> u32 {
    ((hi as u32) * 0x1_0000 + (lo as u32)) as u32
}

/// A `u32` read from four big-endian bytes.
pub open spec fn from_be32(b3: u8, b2: u8, b1: u8, b0: u8) -> u32 {
    u32_from_halves(from_be16(b3, b2), from_be16(b1, b0))
}

/// A `u64` as eight big-endian bytes: the two 32-bit halves, each big-endian.
pub open spec fn be64(x: u64) -> Seq<u8> {
    be32((x / 0x1_0000_0000) as u32) + be32((x % 0x1_0000_0000) as u32)
}

/// A `u64` assembled from its 32-bit halves.
pub open spec fn u64_from_halves(hi: u32, lo: u32) -> u64 {
    ((hi as u64) * 0x1_0000_0000 + (lo as u64)) as u64
}

/// A `u64` read from eight big-endian bytes.
pub open spec fn from_be64(
    b7: u8,
    b6: u8,
    b5: u8,
    b4: u8,
    b3: u8,
    b2: u8,
    b1: u8,
    b0: u8,
) -> u64 {
    u64_from_halves(from_be32(b7, b6, b5, b4), from_be32(b3, b2, b1, b0))
}

/// The unsigned 32-bit value with the same two's-complement bit pattern as a
/// signed 32-bit value: how an `i32` travels on the wire.
pub open spec fn u32_of_i32(x: i32) -> u32 {
    if x >= 0 {
        x as u32
    } else {
        (x + 0x1_0000_0000) as u32
    }
}

/// The signed 32-bit value with the same two's-complement bit pattern as an
/// unsigned 32-bit value: how an `i32` is read back from the wire.
pub open spec fn i32_of_u32(x: u32) -> i32 {
    if x < 0x8000_0000 {
        x as i32
    } else {
        (x - 0x1_0000_0000) as i32
    }
}

/// Reading back two big-endian bytes gives the value they were made from,
/// and writing the value a pair of bytes was read as gives those bytes.
pub proof fn lemma_be16_round_trip(x: u16, b1: u8, b0: u8)
    ensures
        from_be16(be16(x)[0], be16(x)[1]) == x,
        be16(from_be16(b1, b0)) == seq![b1, b0],
{
    assert(be16(from_be16(b1, b0)) =~= seq![b1, b0]);
}

/// As `lemma_be16_round_trip`, for four-byte values.
pub proof fn lemma_be32_round_trip(x: u32, b3: u8, b2: u8, b1: u8, b0: u8)
    ensures
        from_be32(be32(x)[0], be32(x)[1], be32(x)[2], be32(x)[3]) == x,
        be32(from_be32(b3, b2, b1, b0)) == seq![b3, b2, b1, b0],
{
    let hi = (x / 0x1_0000) as u16;
    let lo = (x % 0x1_0000) as u16;
    assert(be32(x)[0] == be16(hi)[0] && be32(x)[1] == be16(hi)[1]);
    assert(be32(x)[2] == be16(lo)[0] && be32(x)[3] == be16(lo)[1]);
    lemma_be16_round_trip(hi, b3, b2);
    lemma_be16_round_trip(lo, b1, b0);
    let h2 = from_be16(b3, b2);
    let l2 = from_be16(b1, b0);
    assert(u32_from_halves(h2, l2) / 0x1_0000 == h2);
    assert(u32_from_halves(h2, l2) % 0x1_0000 == l2);
    lemma_be16_round_trip(h2, b3, b2);
    lemma_be16_round_trip(l2, b1, b0);
    assert(be32(from_be32(b3, b2, b1, b0)) =~= seq![b3, b2, b1, b0]);
}

/// As `lemma_be16_round_trip`, for eight-byte values.
pub proof fn lemma_be64_round_trip(x: u64, b7: u8, b6: u8, b5: u8, b4: u8, b3: u8, b2: u8, b1: u8, b0: u8)
    ensures
        from_be64(
            be64(x)[0],
            be64(x)[1],
            be64(x)[2],
            be64(x)[3],
            be64(x)[4],
            be64(x)[5],
            be64(x)[6],
            be64(x)[7],
        ) == x,
        be64(from_be64(b7, b6, b5, b4, b3, b2, b1, b0)) == seq![b7, b6, b5, b4, b3, b2, b1, b0],
{
    let hi = (x / 0x1_0000_0000) as u32;
    let lo = (x % 0x1_0000_0000) as u32;
    assert(be64(x)[0] == be32(hi)[0] && be64(x)[1] == be32(hi)[1] && be64(x)[2] == be32(hi)[2]
        && be64(x)[3] == be32(hi)[3]);
    assert(be64(x)[4] == be32(lo)[0] && be64(x)[5] == be32(lo)[1] && be64(x)[6] == be32(lo)[2]
        && be64(x)[7] == be32(lo)[3]);
    lemma_be32_round_trip(hi, b7, b6, b5, b4);
    lemma_be32_round_trip(lo, b3, b2, b1, b0);
    let h2 = from_be32(b7, b6, b5, b4);
    let l2 = from_be32(b3, b2, b1, b0);
    assert(u64_from_halves(h2, l2) / 0x1_0000_0000 == h2);
    assert(u64_from_halves(h2, l2) % 0x1_0000_0000 == l2);
    lemma_be32_round_trip(h2, b7, b6, b5, b4);
    lemma_be32_round_trip(l2, b3, b2, b1, b0);
    assert(be64(from_be64(b7, b6, b5, b4, b3, b2, b1, b0)) =~= seq![b7, b6, b5, b4, b3, b2, b1, b0]);
}

/// The two's-complement views of a 32-bit value invert each other.
pub proof fn lemma_i32_u32_round_trip(x: i32, u: u32)
    ensures
        i32_of_u32(u32_of_i32(x)) == x,
        u32_of_i32(i32_of_u32(u)) == u,
{
}

/// A two-byte big-endian length field.
pub open spec fn len16(n: nat) -> Seq<u8> {
    be16((n % 0x1_0000) as u16)
}

/// A four-byte big-endian length field.
pub open spec fn len32(n: nat) -> Seq<u8> {
    be32((n % 0x1_0000_0000) as u32)
}

/// The bytes of an atom record: the tag chosen by the flags and the text's
/// byte length, then the text's UTF-8 bytes. The short tag family is used
/// only when asked for and only when the text fits one length byte.
pub open spec fn enc_atom(cs: Seq<char>, f: EncodeFlags) -> Seq<u8> {
    let bs = encode_utf8(cs);
    if f.small_atoms && bs.len() <= 255 {
        seq![if f.utf8_atoms { 119u8 } else { 115u8 }, bs.len() as u8] + bs
    } else {
        seq![if f.utf8_atoms { 118u8 } else { 100u8 }] + len16(bs.len()) + bs
    }
}

/// The bytes of a process-identifier record, tag included.
pub open spec fn enc_pid(p: PidV, f: EncodeFlags) -> Seq<u8> {
    seq![103u8] + enc_atom(p.node, f) + be32(p.id) + be32(p.serial) + seq![p.creation]
}

/// A `u32` written the way closure index fields travel: as a one-byte
/// integer record when it fits, else as a four-byte integer record.
pub open spec fn enc_compact_u32(n: u32) -> Seq<u8> {
    if n <= 255 {
        seq![97u8, n as u8]
    } else {
        seq![98u8] + be32(n)
    }
}

/// The bytes of a sequence of term records, in order.
pub open spec fn enc_terms(ts: Seq<TermV>, f: EncodeFlags) -> Seq<u8>
    decreases ts,
{
    if ts.len() == 0 {
        Seq::empty()
    } else {
        enc_term(ts[0], f) + enc_terms(ts.subrange(1, ts.len() as int), f)
    }
}

/// The bytes of one key-value pair: the key's record, then the value's.
pub open spec fn enc_pair(p: (TermV, TermV), f: EncodeFlags) -> Seq<u8>
    decreases p,
{
    enc_term(p.0, f) + enc_term(p.1, f)
}

/// The bytes of a sequence of key-value pairs, in order.
pub open spec fn enc_pairs(ps: Seq<(TermV, TermV)>, f: EncodeFlags) -> Seq<u8>
    decreases ps,
{
    if ps.len() == 0 {
        Seq::empty()
    } else {
        enc_pair(ps[0], f) + enc_pairs(ps.subrange(1, ps.len() as int), f)
    }
}

/// The body of a current-format closure record: everything after the tag and
/// the four-byte size field.
pub open spec fn enc_new_fun_body(nf: NewFunV, f: EncodeFlags) -> Seq<u8>
    decreases nf,
{
    seq![nf.arity] + nf.uniq + be32(nf.index) + len32(nf.free_vars.len()) + enc_atom(nf.module, f)
        + enc_compact_u32(nf.old_index) + enc_compact_u32(nf.old_uniq) + enc_pid(nf.pid, f)
        + enc_terms(nf.free_vars, f)
}

/// The bytes a term encodes to, tag byte included.
///
/// Lists carry their trailing tail element in the sequence, so the length
/// field on the wire is one less than the sequence's length. Closures written
/// with `fair_new_fun` carry the true size of their record; otherwise the
/// size field is zero, which readers of the format ignore.
pub open spec fn enc_term(t: TermV, f: EncodeFlags) -> Seq<u8>
    decreases t,
{
    match t {
        TermV::SmallInteger(n) => seq![97u8, n],
        TermV::Integer(n) => seq![98u8] + be32(u32_of_i32(n)),
        TermV::Float(bits) => seq![70u8] + be64(bits),
        TermV::Atom(cs) => enc_atom(cs, f),
        TermV::Reference(r) => seq![114u8] + len16(r.id.len() / 4) + enc_atom(r.node, f)
            + seq![r.creation] + r.id,
        TermV::Port(p) => seq![102u8] + enc_atom(p.node, f) + be32(p.id) + seq![p.creation],
        TermV::Pid(p) => enc_pid(p, f),
        TermV::Tuple(ts) => (if ts.len() <= 255 {
            seq![104u8, ts.len() as u8]
        } else {
            seq![105u8] + len32(ts.len())
        }) + enc_terms(ts, f),
        TermV::EMap(ps) => seq![116u8] + len32(ps.len()) + enc_pairs(ps, f),
        TermV::Nil => seq![106u8],
        TermV::String(bs) => seq![107u8] + len16(bs.len()) + bs,
        TermV::List(ts) => seq![108u8] + len32(if ts.len() == 0 {
            0
        } else {
            (ts.len() - 1) as nat
        }) + enc_terms(ts, f),
        TermV::Binary(bs) => seq![109u8] + len32(bs.len()) + bs,
        TermV::BigNum(b) => (if b.magnitude.len() <= 255 {
            seq![110u8, b.magnitude.len() as u8]
        } else {
            seq![111u8] + len32(b.magnitude.len())
        }) + seq![if b.negative { 1u8 } else { 0u8 }] + b.magnitude,
        TermV::Fun(fv) => seq![117u8] + len32(fv.free_vars.len()) + enc_pid(fv.pid, f)
            + enc_atom(fv.module, f) + enc_compact_u32(fv.index) + enc_compact_u32(fv.uniq)
            + enc_terms(fv.free_vars, f),
        TermV::NewFun(nf) => {
            let body = enc_new_fun_body(nf, f);
            seq![112u8] + (if f.fair_new_fun {
                len32((body.len() + 4) as nat)
            } else {
                be32(0)
            }) + body
        },
        TermV::Export(e) => seq![113u8] + enc_atom(e.module, f) + enc_atom(e.function, f)
            + seq![97u8, e.arity],
        TermV::BitBinary(bb) => seq![77u8] + len32(bb.data.len()) + seq![bb.bits] + bb.data,
    }
}

/// Whether an atom's text is representable: its UTF-8 form must fit the
/// two-byte length field.
pub open spec fn wf_atom(cs: Seq<char>) -> bool {
    encode_utf8(cs).len() <= 0xFFFF
}

/// Whether every term of a sequence is representable.
pub open spec fn wf_terms(ts: Seq<TermV>, f: EncodeFlags) -> bool
    decreases ts,
{
    forall|i: int| 0 <= i < ts.len() ==> wf_term(#[trigger] ts[i], f)
}

/// Whether both members of one key-value pair are representable.
pub open spec fn wf_pair(p: (TermV, TermV), f: EncodeFlags) -> bool
    decreases p,
{
    wf_term(p.0, f) && wf_term(p.1, f)
}

/// Whether every key and value of a sequence of pairs is representable.
pub open spec fn wf_pairs(ps: Seq<(TermV, TermV)>, f: EncodeFlags) -> bool
    decreases ps,
{
    forall|i: int| 0 <= i < ps.len() ==> wf_pair(#[trigger] ps[i], f)
}

/// Whether the body of a current-format closure is representable: the digest
/// is exactly 16 bytes, the module atom and the process identifier's node
/// atom fit, the free-variable count fits its field, and every free
/// variable is representable.
pub open spec fn wf_new_fun_body(nf: NewFunV, f: EncodeFlags) -> bool
    decreases nf,
{
    nf.uniq.len() == 16 && wf_atom(nf.module) && wf_atom(nf.pid.node) && nf.free_vars.len()
        <= 0xFFFF_FFFF && wf_terms(nf.free_vars, f)
}

/// Whether a term is representable on the wire: every length fits the width
/// of its field, a closure digest is exactly 16 bytes, a list is not empty,
/// a reference id is whole 32-bit words, and the same holds in every
/// sub-term. Encoding succeeds exactly on such terms.
pub open spec fn wf_term(t: TermV, f: EncodeFlags) -> bool
    decreases t,
{
    match t {
        TermV::SmallInteger(_) => true,
        TermV::Integer(_) => true,
        TermV::Float(_) => true,
        TermV::Atom(cs) => wf_atom(cs),
        TermV::Reference(r) => wf_atom(r.node) && r.id.len() % 4 == 0 && r.id.len() / 4 <= 0xFFFF,
        TermV::Port(p) => wf_atom(p.node),
        TermV::Pid(p) => wf_atom(p.node),
        TermV::Tuple(ts) => ts.len() <= 0xFFFF_FFFF && wf_terms(ts, f),
        TermV::EMap(ps) => ps.len() <= 0xFFFF_FFFF && wf_pairs(ps, f),
        TermV::Nil => true,
        TermV::String(bs) => bs.len() <= 0xFFFF,
        TermV::List(ts) => 1 <= ts.len() && ts.len() <= 0x1_0000_0000 && wf_terms(ts, f),
        TermV::Binary(bs) => bs.len() <= 0xFFFF_FFFF,
        TermV::BigNum(b) => b.magnitude.len() <= 0xFFFF_FFFF,
        TermV::Fun(fv) => wf_atom(fv.pid.node) && wf_atom(fv.module) && fv.free_vars.len()
            <= 0xFFFF_FFFF && wf_terms(fv.free_vars, f),
        TermV::NewFun(nf) => wf_new_fun_body(nf, f) && (f.fair_new_fun ==> enc_new_fun_body(
            nf,
            f,
        ).len() + 4 <= 0xFFFF_FFFF),
        TermV::Export(e) => wf_atom(e.module) && wf_atom(e.function),
        TermV::BitBinary(bb) => bb.data.len() <= 0xFFFF_FFFF,
    }
}

/// The bytes that remain after `k` of them were consumed (everything is
/// consumed if fewer than `k` remain, which real parses never do).
pub open spec fn after(b: Seq<u8>, k: nat) -> Seq<u8> {
    if k <= b.len() {
        b.subrange(k as int, b.len() as int)
    } else {
        Seq::empty()
    }
}

/// One atom body with a two-byte length field: the text's byte length, then
/// that many bytes, which must be valid UTF-8.
#[verifier::opaque]
pub open spec fn dec_atom_long(b: Seq<u8>) -> Result<(Seq<char>, nat), Error> {
    if b.len() < 2 {
        Err(Error::ByteorderUnexpectedEOF)
    } else {
        let n = from_be16(b[0], b[1]) as nat;
        if b.len() < 2 + n {
            Err(Error::ByteorderUnexpectedEOF)
        } else {
            let bs = b.subrange(2, (2 + n) as int);
            if valid_utf8(bs) {
                Ok((decode_utf8(bs), (2 + n) as nat))
            } else {
                Err(Error::Io)
            }
        }
    }
}

/// One atom body with a one-byte length field.
#[verifier::opaque]
pub open spec fn dec_atom_short(b: Seq<u8>) -> Result<(Seq<char>, nat), Error> {
    if b.len() < 1 {
        Err(Error::ByteorderUnexpectedEOF)
    } else {
        let n = b[0] as nat;
        if b.len() < 1 + n {
            Err(Error::ByteorderUnexpectedEOF)
        } else {
            let bs = b.subrange(1, (1 + n) as int);
            if valid_utf8(bs) {
                Ok((decode_utf8(bs), (1 + n) as nat))
            } else {
                Err(Error::Io)
            }
        }
    }
}

/// One full atom record, tag included; any of the four atom tags is
/// accepted, any other tag is a structural error.
#[verifier::opaque]
pub open spec fn dec_any_atom(b: Seq<u8>) -> Result<(Seq<char>, nat), Error> {
    if b.len() < 1 {
        Err(Error::ByteorderUnexpectedEOF)
    } else {
        match tag_of_byte(b[0]) {
            Option::None => Err(Error::UnknownTag(b[0])),
            Option::Some(ErlTermTag::ATOM_EXT) | Option::Some(ErlTermTag::ATOM_UTF8_EXT) => match
                dec_atom_long(after(b, 1)) {
                Ok((cs, k)) => Ok((cs, (1 + k) as nat)),
                Err(e) => Err(e),
            },
            Option::Some(ErlTermTag::SMALL_ATOM_EXT) | Option::Some(
                ErlTermTag::SMALL_ATOM_UTF8_EXT,
            ) => match dec_atom_short(after(b, 1)) {
                Ok((cs, k)) => Ok((cs, (1 + k) as nat)),
                Err(e) => Err(e),
            },
            Option::Some(tag) => Err(Error::UnexpectedTerm(tag)),
        }
    }
}

/// The body of a process-identifier record: node atom, id, serial, creation.
#[verifier::opaque]
pub open spec fn dec_pid_body(b: Seq<u8>) -> Result<(PidV, nat), Error> {
    match dec_any_atom(b) {
        Err(e) => Err(e),
        Ok((node, k)) => {
            let r = after(b, k);
            if r.len() < 9 {
                Err(Error::ByteorderUnexpectedEOF)
            } else {
                Ok(
                    (
                        PidV {
                            node,
                            id: from_be32(r[0], r[1], r[2], r[3]),
                            serial: from_be32(r[4], r[5], r[6], r[7]),
                            creation: r[8],
                        },
                        (k + 9) as nat,
                    ),
                )
            }
        },
    }
}

/// One full term record that is structurally required to be a
/// process identifier.
#[verifier::opaque]
pub open spec fn dec_required_pid(b: Seq<u8>) -> Result<(PidV, nat), Error> {
    if b.len() < 1 {
        Err(Error::ByteorderUnexpectedEOF)
    } else {
        match tag_of_byte(b[0]) {
            Option::None => Err(Error::UnknownTag(b[0])),
            Option::Some(ErlTermTag::PID_EXT) => match dec_pid_body(after(b, 1)) {
                Ok((p, k)) => Ok((p, (1 + k) as nat)),
                Err(e) => Err(e),
            },
            Option::Some(tag) => Err(Error::UnexpectedTerm(tag)),
        }
    }
}

/// One full term record that is structurally required to be a one-byte or
/// four-byte integer, read as an unsigned 32-bit value.
#[verifier::opaque]
pub open spec fn dec_compact_u32(b: Seq<u8>) -> Result<(u32, nat), Error> {
    if b.len() < 1 {
        Err(Error::ByteorderUnexpectedEOF)
    } else {
        match tag_of_byte(b[0]) {
            Option::None => Err(Error::UnknownTag(b[0])),
            Option::Some(ErlTermTag::SMALL_INTEGER_EXT) => if b.len() < 2 {
                Err(Error::ByteorderUnexpectedEOF)
            } else {
                Ok((b[1] as u32, 2))
            },
            Option::Some(ErlTermTag::INTEGER_EXT) => if b.len() < 5 {
                Err(Error::ByteorderUnexpectedEOF)
            } else {
                Ok((from_be32(b[1], b[2], b[3], b[4]), 5))
            },
            Option::Some(tag) => Err(Error::UnexpectedTerm(tag)),
        }
    }
}

/// One full term record that is structurally required to be a one-byte
/// integer.
#[verifier::opaque]
pub open spec fn dec_required_small_integer(b: Seq<u8>) -> Result<(u8, nat), Error> {
    if b.len() < 1 {
        Err(Error::ByteorderUnexpectedEOF)
    } else {
        match tag_of_byte(b[0]) {
            Option::None => Err(Error::UnknownTag(b[0])),
            Option::Some(ErlTermTag::SMALL_INTEGER_EXT) => if b.len() < 2 {
                Err(Error::ByteorderUnexpectedEOF)
            } else {
                Ok((b[1], 2))
            },
            Option::Some(tag) => Err(Error::UnexpectedTerm(tag)),
        }
    }
}

/// The body of a big-integer record of `n` magnitude bytes: a sign byte,
/// then the magnitude, little-endian.
#[verifier::opaque]
pub open spec fn dec_big(b: Seq<u8>, n: nat) -> Result<(BigNumV, nat), Error> {
    if b.len() < 1 + n {
        Err(Error::ByteorderUnexpectedEOF)
    } else {
        Ok(
            (
                BigNumV { negative: b[0] != 0, magnitude: b.subrange(1, (1 + n) as int) },
                (1 + n) as nat,
            ),
        )
    }
}

/// One full term record: a tag byte, then the tag's body.
pub open spec fn dec_term(b: Seq<u8>) -> Result<(TermV, nat), Error>
    decreases b.len(), 2int, 0int,
{
    if b.len() < 1 {
        Err(Error::ByteorderUnexpectedEOF)
    } else {
        match tag_of_byte(b[0]) {
            Option::None => Err(Error::UnknownTag(b[0])),
            Option::Some(tag) => match dec_body(tag, after(b, 1)) {
                Ok((t, k)) => Ok((t, (1 + k) as nat)),
                Err(e) => Err(e),
            },
        }
    }
}

/// `n` consecutive term records.
pub open spec fn dec_terms(b: Seq<u8>, n: nat) -> Result<(Seq<TermV>, nat), Error>
    decreases b.len(), 3int, n,
{
    if n == 0 {
        Ok((Seq::empty(), 0))
    } else {
        match dec_term(b) {
            Err(e) => Err(e),
            Ok((t, k)) => match dec_terms(after(b, k), (n - 1) as nat) {
                Err(e) => Err(e),
                Ok((ts, m)) => Ok((seq![t] + ts, (k + m) as nat)),
            },
        }
    }
}

/// `n` consecutive key-value pairs of term records.
pub open spec fn dec_pairs(b: Seq<u8>, n: nat) -> Result<(Seq<(TermV, TermV)>, nat), Error>
    decreases b.len(), 3int, n,
{
    if n == 0 {
        Ok((Seq::empty(), 0))
    } else {
        match dec_term(b) {
            Err(e) => Err(e),
            Ok((key, k1)) => match dec_term(after(b, k1)) {
                Err(e) => Err(e),
                Ok((val, k2)) => match dec_pairs(after(b, (k1 + k2) as nat), (n - 1) as nat) {
                    Err(e) => Err(e),
                    Ok((ps, m)) => Ok((seq![(key, val)] + ps, (k1 + k2 + m) as nat)),
                },
            },
        }
    }
}

/// The body of a legacy reference record: node atom, four id bytes, creation.
#[verifier::opaque]
pub open spec fn dec_reference(b: Seq<u8>) -> Result<(TermV, nat), Error>
{
    match dec_any_atom(b) {
        Err(e) => Err(e),
        Ok((node, k)) => {
            let r = after(b, k);
            if r.len() < 5 {
                Err(Error::ByteorderUnexpectedEOF)
            } else {
                Ok(
                    (
                        TermV::Reference(
                            RefV { node, id: r.subrange(0, 4), creation: r[4] },
                        ),
                        (k + 5) as nat,
                    ),
                )
            }
        },
    }
}

/// The body of a port record: node atom, id, creation.
#[verifier::opaque]
pub open spec fn dec_port(b: Seq<u8>) -> Result<(TermV, nat), Error>
{
    match dec_any_atom(b) {
        Err(e) => Err(e),
        Ok((node, k)) => {
            let r = after(b, k);
            if r.len() < 5 {
                Err(Error::ByteorderUnexpectedEOF)
            } else {
                Ok(
                    (
                        TermV::Port(
                            PortV {
                                node,
                                id: from_be32(r[0], r[1], r[2], r[3]),
                                creation: r[4],
                            },
                        ),
                        (k + 5) as nat,
                    ),
                )
            }
        },
    }
}

/// The body of a tuple record with a one-byte arity.
#[verifier::opaque]
pub open spec fn dec_small_tuple(b: Seq<u8>) -> Result<(TermV, nat), Error>
    decreases b.len(), 0int, 0int,
{
    if b.len() < 1 {
        Err(Error::ByteorderUnexpectedEOF)
    } else {
        match dec_terms(after(b, 1), b[0] as nat) {
            Ok((ts, m)) => Ok((TermV::Tuple(ts), (1 + m) as nat)),
            Err(e) => Err(e),
        }
    }
}

/// The body of a tuple record with a four-byte arity.
#[verifier::opaque]
pub open spec fn dec_large_tuple(b: Seq<u8>) -> Result<(TermV, nat), Error>
    decreases b.len(), 0int, 0int,
{
    if b.len() < 4 {
        Err(Error::ByteorderUnexpectedEOF)
    } else {
        match dec_terms(after(b, 4), from_be32(b[0], b[1], b[2], b[3]) as nat) {
            Ok((ts, m)) => Ok((TermV::Tuple(ts), (4 + m) as nat)),
            Err(e) => Err(e),
        }
    }
}

/// The body of a map record: a pair count, then the pairs.
#[verifier::opaque]
pub open spec fn dec_map(b: Seq<u8>) -> Result<(TermV, nat), Error>
    decreases b.len(), 0int, 0int,
{
    if b.len() < 4 {
        Err(Error::ByteorderUnexpectedEOF)
    } else {
        match dec_pairs(after(b, 4), from_be32(b[0], b[1], b[2], b[3]) as nat) {
            Ok((ps, m)) => Ok((TermV::EMap(ps), (4 + m) as nat)),
            Err(e) => Err(e),
        }
    }
}

/// The body of a byte-string record: a two-byte length, then the bytes.
#[verifier::opaque]
pub open spec fn dec_string_bytes(b: Seq<u8>) -> Result<(TermV, nat), Error>
{
    if b.len() < 2 {
        Err(Error::ByteorderUnexpectedEOF)
    } else {
        let n = from_be16(b[0], b[1]) as nat;
        if b.len() < 2 + n {
            Err(Error::ByteorderUnexpectedEOF)
        } else {
            Ok((TermV::String(b.subrange(2, (2 + n) as int)), (2 + n) as nat))
        }
    }
}

/// The body of a list record: the proper-element count, then that many terms plus the tail term.
#[verifier::opaque]
pub open spec fn dec_list(b: Seq<u8>) -> Result<(TermV, nat), Error>
    decreases b.len(), 0int, 0int,
{
    if b.len() < 4 {
        Err(Error::ByteorderUnexpectedEOF)
    } else {
        match dec_terms(after(b, 4), (from_be32(b[0], b[1], b[2], b[3]) + 1) as nat) {
            Ok((ts, m)) => Ok((TermV::List(ts), (4 + m) as nat)),
            Err(e) => Err(e),
        }
    }
}

/// The body of a binary record: a four-byte length, then the bytes.
#[verifier::opaque]
pub open spec fn dec_binary(b: Seq<u8>) -> Result<(TermV, nat), Error>
{
    if b.len() < 4 {
        Err(Error::ByteorderUnexpectedEOF)
    } else {
        let n = from_be32(b[0], b[1], b[2], b[3]) as nat;
        if b.len() < 4 + n {
            Err(Error::ByteorderUnexpectedEOF)
        } else {
            Ok((TermV::Binary(b.subrange(4, (4 + n) as int)), (4 + n) as nat))
        }
    }
}

/// The body of a multi-word reference record: a word count, node atom, creation, id bytes.
#[verifier::opaque]
pub open spec fn dec_new_reference(b: Seq<u8>) -> Result<(TermV, nat), Error>
{
    if b.len() < 2 {
        Err(Error::ByteorderUnexpectedEOF)
    } else {
        let l = from_be16(b[0], b[1]) as nat;
        match dec_any_atom(after(b, 2)) {
            Err(e) => Err(e),
            Ok((node, k)) => {
                let r = after(b, (2 + k) as nat);
                if r.len() < 1 + 4 * l {
                    Err(Error::ByteorderUnexpectedEOF)
                } else {
                    Ok(
                        (
                            TermV::Reference(
                                RefV {
                                    node,
                                    id: r.subrange(1, (1 + 4 * l) as int),
                                    creation: r[0],
                                },
                            ),
                            (2 + k + 1 + 4 * l) as nat,
                        ),
                    )
                }
            },
        }
    }
}

/// The body of an export record: module atom, function atom, one-byte arity.
#[verifier::opaque]
pub open spec fn dec_export(b: Seq<u8>) -> Result<(TermV, nat), Error>
{
    match dec_any_atom(b) {
        Err(e) => Err(e),
        Ok((module, k1)) => match dec_any_atom(after(b, k1)) {
            Err(e) => Err(e),
            Ok((function, k2)) => match dec_required_small_integer(
                after(b, (k1 + k2) as nat),
            ) {
                Err(e) => Err(e),
                Ok((arity, k3)) => Ok(
                    (
                        TermV::Export(ExportV { module, function, arity }),
                        (k1 + k2 + k3) as nat,
                    ),
                ),
            },
        },
    }
}

/// The body of a bit-string record: a four-byte length, the trailing-bit count, then the bytes.
#[verifier::opaque]
pub open spec fn dec_bit_binary(b: Seq<u8>) -> Result<(TermV, nat), Error>
{
    if b.len() < 4 {
        Err(Error::ByteorderUnexpectedEOF)
    } else {
        let n = from_be32(b[0], b[1], b[2], b[3]) as nat;
        if b.len() < 5 + n {
            Err(Error::ByteorderUnexpectedEOF)
        } else {
            Ok(
                (
                    TermV::BitBinary(
                        BitBinaryV { bits: b[4], data: b.subrange(5, (5 + n) as int) },
                    ),
                    (5 + n) as nat,
                ),
            )
        }
    }
}

/// The body of a legacy closure record: the free-variable count, the
/// process identifier, the module atom, the index and uniq fields, then the
/// free variables.
#[verifier::opaque]
pub open spec fn dec_fun(b: Seq<u8>) -> Result<(TermV, nat), Error>
    decreases b.len(), 0int, 0int,
{
    if b.len() < 4 {
        Err(Error::ByteorderUnexpectedEOF)
    } else {
        match dec_fun_tail(after(b, 4), from_be32(b[0], b[1], b[2], b[3]) as nat) {
            Ok((t, k)) => Ok((t, (4 + k) as nat)),
            Err(e) => Err(e),
        }
    }
}

/// The fields of a legacy closure record after the free-variable count: the
/// process identifier, the module atom, the index and uniq fields, then the
/// `nfree` free variables.
#[verifier::opaque]
pub open spec fn dec_fun_tail(b: Seq<u8>, nfree: nat) -> Result<(TermV, nat), Error>
    decreases b.len(), 4int, 0int,
{
    match dec_required_pid(b) {
        Err(e) => Err(e),
        Ok((pid, k1)) => match dec_any_atom(after(b, k1)) {
            Err(e) => Err(e),
            Ok((module, k2)) => match dec_compact_u32(after(b, (k1 + k2) as nat)) {
                Err(e) => Err(e),
                Ok((index, k3)) => match dec_compact_u32(after(b, (k1 + k2 + k3) as nat)) {
                    Err(e) => Err(e),
                    Ok((uniq, k4)) => match dec_terms(
                        after(b, (k1 + k2 + k3 + k4) as nat),
                        nfree,
                    ) {
                        Err(e) => Err(e),
                        Ok((vars, k5)) => Ok(
                            (
                                TermV::Fun(FunV { pid, module, index, uniq, free_vars: vars }),
                                (k1 + k2 + k3 + k4 + k5) as nat,
                            ),
                        ),
                    },
                },
            },
        },
    }
}

/// The body of a current-format closure record: the ignored size field, the
/// arity, the 16 digest bytes, the index, the free-variable count, the
/// module atom, the old index and old uniq fields, the process identifier,
/// then the free variables.
#[verifier::opaque]
pub open spec fn dec_new_fun(b: Seq<u8>) -> Result<(TermV, nat), Error>
    decreases b.len(), 0int, 0int,
{
    if b.len() < 29 {
        Err(Error::ByteorderUnexpectedEOF)
    } else {
        match dec_new_fun_tail(
            after(b, 29),
            b[4],
            b.subrange(5, 21),
            from_be32(b[21], b[22], b[23], b[24]),
            from_be32(b[25], b[26], b[27], b[28]) as nat,
        ) {
            Ok((t, k)) => Ok((t, (29 + k) as nat)),
            Err(e) => Err(e),
        }
    }
}

/// The fields of a current-format closure record after its fixed-width
/// head: the module atom, the old index and old uniq fields, the process
/// identifier, then the `nfree` free variables.
#[verifier::opaque]
pub open spec fn dec_new_fun_tail(
    b: Seq<u8>,
    arity: u8,
    uniq: Seq<u8>,
    index: u32,
    nfree: nat,
) -> Result<(TermV, nat), Error>
    decreases b.len(), 4int, 0int,
{
    match dec_any_atom(b) {
        Err(e) => Err(e),
        Ok((module, k1)) => match dec_compact_u32(after(b, k1)) {
            Err(e) => Err(e),
            Ok((old_index, k2)) => match dec_compact_u32(after(b, (k1 + k2) as nat)) {
                Err(e) => Err(e),
                Ok((old_uniq, k3)) => match dec_required_pid(after(b, (k1 + k2 + k3) as nat)) {
                    Err(e) => Err(e),
                    Ok((pid, k4)) => match dec_terms(
                        after(b, (k1 + k2 + k3 + k4) as nat),
                        nfree,
                    ) {
                        Err(e) => Err(e),
                        Ok((vars, k5)) => Ok(
                            (
                                TermV::NewFun(
                                    NewFunV {
                                        arity,
                                        uniq,
                                        index,
                                        module,
                                        old_index,
                                        old_uniq,
                                        pid,
                                        free_vars: vars,
                                    },
                                ),
                                (k1 + k2 + k3 + k4 + k5) as nat,
                            ),
                        ),
                    },
                },
            },
        },
    }
}

/// The body of one term record, given its tag; `b` holds the bytes after the
/// tag byte. This is the full per-tag layout of the format.
pub open spec fn dec_body(tag: ErlTermTag, b: Seq<u8>) -> Result<(TermV, nat), Error>
    decreases b.len(), 1int, 0int,
{
    match tag {
        ErlTermTag::SMALL_INTEGER_EXT => if b.len() < 1 {
            Err(Error::ByteorderUnexpectedEOF)
        } else {
            Ok((TermV::SmallInteger(b[0]), 1))
        },
        ErlTermTag::INTEGER_EXT => if b.len() < 4 {
            Err(Error::ByteorderUnexpectedEOF)
        } else {
            Ok((TermV::Integer(i32_of_u32(from_be32(b[0], b[1], b[2], b[3]))), 4))
        },
        ErlTermTag::FLOAT_EXT => if b.len() < 31 {
            Err(Error::ByteorderUnexpectedEOF)
        } else {
            Err(Error::BadFloat)
        },
        ErlTermTag::ATOM_EXT | ErlTermTag::ATOM_UTF8_EXT => match dec_atom_long(b) {
            Ok((cs, k)) => Ok((TermV::Atom(cs), k)),
            Err(e) => Err(e),
        },
        ErlTermTag::REFERENCE_EXT => dec_reference(b),
        ErlTermTag::PORT_EXT => dec_port(b),
        ErlTermTag::PID_EXT => match dec_pid_body(b) {
            Ok((p, k)) => Ok((TermV::Pid(p), k)),
            Err(e) => Err(e),
        },
        ErlTermTag::SMALL_TUPLE_EXT => dec_small_tuple(b),
        ErlTermTag::LARGE_TUPLE_EXT => dec_large_tuple(b),
        ErlTermTag::MAP_EXT => dec_map(b),
        ErlTermTag::NIL_EXT => Ok((TermV::Nil, 0)),
        ErlTermTag::STRING_EXT => dec_string_bytes(b),
        ErlTermTag::LIST_EXT => dec_list(b),
        ErlTermTag::BINARY_EXT => dec_binary(b),
        ErlTermTag::SMALL_BIG_EXT => if b.len() < 1 {
            Err(Error::ByteorderUnexpectedEOF)
        } else {
            match dec_big(after(b, 1), b[0] as nat) {
                Ok((big, k)) => Ok((TermV::BigNum(big), (1 + k) as nat)),
                Err(e) => Err(e),
            }
        },
        ErlTermTag::LARGE_BIG_EXT => if b.len() < 4 {
            Err(Error::ByteorderUnexpectedEOF)
        } else {
            match dec_big(after(b, 4), from_be32(b[0], b[1], b[2], b[3]) as nat) {
                Ok((big, k)) => Ok((TermV::BigNum(big), (4 + k) as nat)),
                Err(e) => Err(e),
            }
        },
        ErlTermTag::NEW_REFERENCE_EXT => dec_new_reference(b),
        ErlTermTag::SMALL_ATOM_EXT | ErlTermTag::SMALL_ATOM_UTF8_EXT => match dec_atom_short(b) {
            Ok((cs, k)) => Ok((TermV::Atom(cs), k)),
            Err(e) => Err(e),
        },
        ErlTermTag::FUN_EXT => dec_fun(b),
        ErlTermTag::NEW_FUN_EXT => dec_new_fun(b),
        ErlTermTag::EXPORT_EXT => dec_export(b),
        ErlTermTag::BIT_BINARY_EXT => dec_bit_binary(b),
        ErlTermTag::NEW_FLOAT_EXT => if b.len() < 8 {
            Err(Error::ByteorderUnexpectedEOF)
        } else {
            Ok(
                (
                    TermV::Float(from_be64(b[0], b[1], b[2], b[3], b[4], b[5], b[6], b[7])),
                    8,
                ),
            )
        },
    }
}

/// Consuming `j` bytes and then `k` more is consuming `j + k` bytes.
pub proof fn lemma_after_after(b: Seq<u8>, j: nat, k: nat)
    ensures
        after(after(b, j), k) == after(b, (j + k) as nat),
{
    assert(after(after(b, j), k) =~= after(b, (j + k) as nat));
}

/// Consuming nothing consumes nothing.
pub proof fn lemma_after_zero(b: Seq<u8>)
    ensures
        after(b, 0) == b,
{
    assert(after(b, 0) =~= b);
}

/// Parsing one more term after `n` parsed terms appends its value and adds
/// its consumed bytes.
#[verifier::rlimit(50)]
pub proof fn lemma_dec_terms_snoc(b: Seq<u8>, n: nat, vs: Seq<TermV>, c: nat, t: TermV, k: nat)
    requires
        dec_terms(b, n) == Ok::<(Seq<TermV>, nat), Error>((vs, c)),
        dec_term(after(b, c)) == Ok::<(TermV, nat), Error>((t, k)),
    ensures
        dec_terms(b, (n + 1) as nat) == Ok::<(Seq<TermV>, nat), Error>(
            (vs.push(t), (c + k) as nat),
        ),
    decreases n,
{
    if n == 0 {
        lemma_after_zero(b);
        assert(vs =~= Seq::<TermV>::empty());
        assert(dec_term(b) == Ok::<(TermV, nat), Error>((t, k)));
        assert(dec_terms(after(b, k), 0) == Ok::<(Seq<TermV>, nat), Error>(
            (Seq::<TermV>::empty(), 0nat),
        ));
        assert(seq![t] + Seq::<TermV>::empty() =~= vs.push(t));
        assert(dec_terms(b, 1) == Ok::<(Seq<TermV>, nat), Error>((vs.push(t), (c + k) as nat)));
    } else {
        match dec_term(b) {
            Ok((t0, k0)) => {
                match dec_terms(after(b, k0), (n - 1) as nat) {
                    Ok((vs1, m1)) => {
                        assert(vs == seq![t0] + vs1);
                        assert(c == k0 + m1);
                        lemma_after_after(b, k0, m1);
                        lemma_dec_terms_snoc(after(b, k0), (n - 1) as nat, vs1, m1, t, k);
                        assert(seq![t0] + vs1.push(t) =~= (seq![t0] + vs1).push(t));
                        assert(dec_terms(after(b, k0), ((n + 1) - 1) as nat)
                            == Ok::<(Seq<TermV>, nat), Error>((vs1.push(t), (m1 + k) as nat)));
                        assert(dec_terms(b, (n + 1) as nat) == Ok::<(Seq<TermV>, nat), Error>(
                            (seq![t0] + vs1.push(t), (k0 + (m1 + k)) as nat),
                        ));
                    },
                    Err(_) => {
                        assert(false);
                    },
                }
            },
            Err(_) => {
                assert(false);
            },
        }
    }
}

/// If the term after `n` parsed terms fails to parse, parsing any larger
/// count fails the same way.
pub proof fn lemma_dec_terms_stuck(b: Seq<u8>, n: nat, vs: Seq<TermV>, c: nat, m: nat, e: Error)
    requires
        dec_terms(b, n) == Ok::<(Seq<TermV>, nat), Error>((vs, c)),
        dec_term(after(b, c)) == Err::<(TermV, nat), Error>(e),
        n < m,
    ensures
        dec_terms(b, m) == Err::<(Seq<TermV>, nat), Error>(e),
    decreases n,
{
    if n == 0 {
        lemma_after_zero(b);
    } else {
        match dec_term(b) {
            Ok((t0, k0)) => {
                match dec_terms(after(b, k0), (n - 1) as nat) {
                    Ok((vs1, m1)) => {
                        lemma_after_after(b, k0, m1);
                        lemma_dec_terms_stuck(
                            after(b, k0),
                            (n - 1) as nat,
                            vs1,
                            m1,
                            (m - 1) as nat,
                            e,
                        );
                    },
                    Err(_) => {
                        assert(false);
                    },
                }
            },
            Err(_) => {
                assert(false);
            },
        }
    }
}

/// As `lemma_dec_terms_snoc`, for key-value pairs.
#[verifier::rlimit(50)]
pub proof fn lemma_dec_pairs_snoc(
    b: Seq<u8>,
    n: nat,
    ps: Seq<(TermV, TermV)>,
    c: nat,
    key: TermV,
    k1: nat,
    val: TermV,
    k2: nat,
)
    requires
        dec_pairs(b, n) == Ok::<(Seq<(TermV, TermV)>, nat), Error>((ps, c)),
        dec_term(after(b, c)) == Ok::<(TermV, nat), Error>((key, k1)),
        dec_term(after(b, (c + k1) as nat)) == Ok::<(TermV, nat), Error>((val, k2)),
    ensures
        dec_pairs(b, (n + 1) as nat) == Ok::<(Seq<(TermV, TermV)>, nat), Error>(
            (ps.push((key, val)), (c + k1 + k2) as nat),
        ),
    decreases n,
{
    if n == 0 {
        lemma_after_zero(b);
        assert(ps =~= Seq::<(TermV, TermV)>::empty());
        assert(dec_term(b) == Ok::<(TermV, nat), Error>((key, k1)));
        assert(dec_term(after(b, k1)) == Ok::<(TermV, nat), Error>((val, k2)));
        assert(dec_pairs(after(b, (k1 + k2) as nat), 0) == Ok::<(Seq<(TermV, TermV)>, nat), Error>(
            (Seq::<(TermV, TermV)>::empty(), 0nat),
        ));
        assert(seq![(key, val)] + Seq::<(TermV, TermV)>::empty() =~= ps.push((key, val)));
        assert(dec_pairs(b, 1) == Ok::<(Seq<(TermV, TermV)>, nat), Error>(
            (ps.push((key, val)), (c + k1 + k2) as nat),
        ));
    } else {
        match dec_term(b) {
            Ok((key0, j1)) => {
                match dec_term(after(b, j1)) {
                    Ok((val0, j2)) => {
                        match dec_pairs(after(b, (j1 + j2) as nat), (n - 1) as nat) {
                            Ok((ps1, m1)) => {
                                assert(ps == seq![(key0, val0)] + ps1);
                                assert(c == j1 + j2 + m1);
                                lemma_after_after(b, (j1 + j2) as nat, m1);
                                lemma_after_after(b, (j1 + j2) as nat, (m1 + k1) as nat);
                                lemma_dec_pairs_snoc(
                                    after(b, (j1 + j2) as nat),
                                    (n - 1) as nat,
                                    ps1,
                                    m1,
                                    key,
                                    k1,
                                    val,
                                    k2,
                                );
                                assert(seq![(key0, val0)] + ps1.push((key, val)) =~= (seq![
                                    (key0, val0),
                                ] + ps1).push((key, val)));
                                assert(dec_pairs(after(b, (j1 + j2) as nat), ((n + 1) - 1) as nat)
                                    == Ok::<(Seq<(TermV, TermV)>, nat), Error>(
                                    (ps1.push((key, val)), (m1 + k1 + k2) as nat),
                                ));
                                assert(dec_pairs(b, (n + 1) as nat) == Ok::<
                                    (Seq<(TermV, TermV)>, nat),
                                    Error,
                                >((seq![(key0, val0)] + ps1.push((key, val)), (j1 + j2 + (m1 + k1
                                    + k2)) as nat)));
                            },
                            Err(_) => {
                                assert(false);
                            },
                        }
                    },
                    Err(_) => {
                        assert(false);
                    },
                }
            },
            Err(_) => {
                assert(false);
            },
        }
    }
}

/// As `lemma_dec_terms_stuck`, for a failure while parsing the key of the
/// pair after `n` parsed pairs.
pub proof fn lemma_dec_pairs_stuck_key(
    b: Seq<u8>,
    n: nat,
    ps: Seq<(TermV, TermV)>,
    c: nat,
    m: nat,
    e: Error,
)
    requires
        dec_pairs(b, n) == Ok::<(Seq<(TermV, TermV)>, nat), Error>((ps, c)),
        dec_term(after(b, c)) == Err::<(TermV, nat), Error>(e),
        n < m,
    ensures
        dec_pairs(b, m) == Err::<(Seq<(TermV, TermV)>, nat), Error>(e),
    decreases n,
{
    if n == 0 {
        lemma_after_zero(b);
    } else {
        match dec_term(b) {
            Ok((key0, j1)) => {
                match dec_term(after(b, j1)) {
                    Ok((val0, j2)) => {
                        match dec_pairs(after(b, (j1 + j2) as nat), (n - 1) as nat) {
                            Ok((ps1, m1)) => {
                                lemma_after_after(b, (j1 + j2) as nat, m1);
                                lemma_dec_pairs_stuck_key(
                                    after(b, (j1 + j2) as nat),
                                    (n - 1) as nat,
                                    ps1,
                                    m1,
                                    (m - 1) as nat,
                                    e,
                                );
                            },
                            Err(_) => {
                                assert(false);
                            },
                        }
                    },
                    Err(_) => {
                        assert(false);
                    },
                }
            },
            Err(_) => {
                assert(false);
            },
        }
    }
}

/// As `lemma_dec_terms_stuck`, for a failure while parsing the value of the
/// pair after `n` parsed pairs.
pub proof fn lemma_dec_pairs_stuck_val(
    b: Seq<u8>,
    n: nat,
    ps: Seq<(TermV, TermV)>,
    c: nat,
    key: TermV,
    k1: nat,
    m: nat,
    e: Error,
)
    requires
        dec_pairs(b, n) == Ok::<(Seq<(TermV, TermV)>, nat), Error>((ps, c)),
        dec_term(after(b, c)) == Ok::<(TermV, nat), Error>((key, k1)),
        dec_term(after(b, (c + k1) as nat)) == Err::<(TermV, nat), Error>(e),
        n < m,
    ensures
        dec_pairs(b, m) == Err::<(Seq<(TermV, TermV)>, nat), Error>(e),
    decreases n,
{
    if n == 0 {
        lemma_after_zero(b);
        lemma_after_after(b, k1, 0);
    } else {
        match dec_term(b) {
            Ok((key0, j1)) => {
                match dec_term(after(b, j1)) {
                    Ok((val0, j2)) => {
                        match dec_pairs(after(b, (j1 + j2) as nat), (n - 1) as nat) {
                            Ok((ps1, m1)) => {
                                lemma_after_after(b, (j1 + j2) as nat, m1);
                                lemma_after_after(b, (j1 + j2) as nat, (m1 + k1) as nat);
                                lemma_dec_pairs_stuck_val(
                                    after(b, (j1 + j2) as nat),
                                    (n - 1) as nat,
                                    ps1,
                                    m1,
                                    key,
                                    k1,
                                    (m - 1) as nat,
                                    e,
                                );
                            },
                            Err(_) => {
                                assert(false);
                            },
                        }
                    },
                    Err(_) => {
                        assert(false);
                    },
                }
            },
            Err(_) => {
                assert(false);
            },
        }
    }
}

/// Encoding one more term appends its bytes.
pub proof fn lemma_enc_terms_snoc(ts: Seq<TermV>, f: EncodeFlags, i: int)
    requires
        0 <= i < ts.len(),
    ensures
        enc_terms(ts.subrange(0, i + 1), f) == enc_terms(ts.subrange(0, i), f) + enc_term(
            ts[i],
            f,
        ),
    decreases i,
{
    if i == 0 {
        assert(ts.subrange(0, 0) =~= Seq::<TermV>::empty());
        let one = ts.subrange(0, 1);
        assert(one[0] == ts[0]);
        assert(one.subrange(1, 1) =~= Seq::<TermV>::empty());
        assert(enc_terms(one, f) =~= enc_terms(ts.subrange(0, 0), f) + enc_term(ts[0], f));
    } else {
        let tl = ts.subrange(1, ts.len() as int);
        lemma_enc_terms_snoc(tl, f, i - 1);
        let a = ts.subrange(0, i + 1);
        let b = ts.subrange(0, i);
        assert(a[0] == ts[0] && b[0] == ts[0]);
        assert(a.subrange(1, a.len() as int) =~= tl.subrange(0, i));
        assert(b.subrange(1, b.len() as int) =~= tl.subrange(0, i - 1));
        assert(tl[i - 1] == ts[i]);
        assert(enc_terms(a, f) =~= enc_terms(b, f) + enc_term(ts[i], f));
    }
}

/// A sequence's encoding is that of its prefix of full length.
pub proof fn lemma_enc_terms_whole(ts: Seq<TermV>, f: EncodeFlags)
    ensures
        enc_terms(ts.subrange(0, ts.len() as int), f) == enc_terms(ts, f),
{
    assert(ts.subrange(0, ts.len() as int) =~= ts);
}

/// Encoding one more key-value pair appends both records.
pub proof fn lemma_enc_pairs_snoc(ps: Seq<(TermV, TermV)>, f: EncodeFlags, i: int)
    requires
        0 <= i < ps.len(),
    ensures
        enc_pairs(ps.subrange(0, i + 1), f) == enc_pairs(ps.subrange(0, i), f) + enc_pair(
            ps[i],
            f,
        ),
    decreases i,
{
    if i == 0 {
        assert(ps.subrange(0, 0) =~= Seq::<(TermV, TermV)>::empty());
        let one = ps.subrange(0, 1);
        assert(one[0] == ps[0]);
        assert(one.subrange(1, 1) =~= Seq::<(TermV, TermV)>::empty());
        assert(enc_pairs(one, f) =~= enc_pairs(ps.subrange(0, 0), f) + enc_pair(ps[0], f));
    } else {
        let tl = ps.subrange(1, ps.len() as int);
        lemma_enc_pairs_snoc(tl, f, i - 1);
        let a = ps.subrange(0, i + 1);
        let b = ps.subrange(0, i);
        assert(a[0] == ps[0] && b[0] == ps[0]);
        assert(a.subrange(1, a.len() as int) =~= tl.subrange(0, i));
        assert(b.subrange(1, b.len() as int) =~= tl.subrange(0, i - 1));
        assert(tl[i - 1] == ps[i]);
        assert(enc_pairs(a, f) =~= enc_pairs(b, f) + enc_pair(ps[i], f));
    }
}

/// A sequence's pair encoding is that of its prefix of full length.
pub proof fn lemma_enc_pairs_whole(ps: Seq<(TermV, TermV)>, f: EncodeFlags)
    ensures
        enc_pairs(ps.subrange(0, ps.len() as int), f) == enc_pairs(ps, f),
{
    assert(ps.subrange(0, ps.len() as int) =~= ps);
}

/// A successful parse of `n` term records yields exactly `n` terms.
pub proof fn lemma_dec_terms_len(b: Seq<u8>, n: nat)
    requires
        dec_terms(b, n) is Ok,
    ensures
        dec_terms(b, n) matches Ok((vs, c)) && vs.len() == n,
    decreases n,
{
    if n != 0 {
        match dec_term(b) {
            Ok((t, k)) => {
                lemma_dec_terms_len(after(b, k), (n - 1) as nat);
            },
            Err(_) => {
                assert(false);
            },
        }
    }
}

/// Splitting the last parsed record off a successful multi-record parse:
/// the first `n - 1` records parse on their own, and the last record parses
/// from what they leave, to exactly the sequence's last element.
pub proof fn lemma_dec_terms_unsnoc(b: Seq<u8>, n: nat, vs: Seq<TermV>, c: nat)
    requires
        n >= 1,
        dec_terms(b, n) == Ok::<(Seq<TermV>, nat), Error>((vs, c)),
    ensures
        dec_terms(b, (n - 1) as nat) matches Ok((front, c1)) && front == vs.subrange(
            0,
            n - 1,
        ) && (dec_term(after(b, c1)) matches Ok((t, k)) && t == vs[n - 1] && c == c1 + k),
    decreases n,
{
    if n == 1 {
        match dec_term(b) {
            Ok((t0, k0)) => {
                lemma_after_zero(b);
                assert(dec_terms(after(b, k0), 0) == Ok::<(Seq<TermV>, nat), Error>(
                    (Seq::<TermV>::empty(), 0nat),
                ));
                assert(vs == seq![t0] + Seq::<TermV>::empty());
                assert(vs =~= seq![t0]);
                assert(vs.subrange(0, 0) =~= Seq::<TermV>::empty());
                assert(dec_terms(b, 0) == Ok::<(Seq<TermV>, nat), Error>(
                    (Seq::<TermV>::empty(), 0nat),
                ));
            },
            Err(_) => {
                assert(false);
            },
        }
    } else {
        match dec_term(b) {
            Ok((t0, k0)) => {
                match dec_terms(after(b, k0), (n - 1) as nat) {
                    Ok((vs1, m1)) => {
                        assert(vs == seq![t0] + vs1);
                        assert(c == k0 + m1);
                        lemma_dec_terms_len(after(b, k0), (n - 1) as nat);
                        lemma_dec_terms_unsnoc(after(b, k0), (n - 1) as nat, vs1, m1);
                        match dec_terms(after(b, k0), (n - 2) as nat) {
                            Ok((front1, c1)) => {
                                lemma_after_after(b, k0, c1);
                                assert(seq![t0] + vs1.subrange(0, n - 2) =~= vs.subrange(
                                    0,
                                    n - 1,
                                ));
                                assert(vs[n - 1] == vs1[n - 2]);
                                assert(dec_terms(b, (n - 1) as nat) == Ok::<
                                    (Seq<TermV>, nat),
                                    Error,
                                >((seq![t0] + front1, (k0 + c1) as nat)));
                            },
                            Err(_) => {
                                assert(false);
                            },
                        }
                    },
                    Err(_) => {
                        assert(false);
                    },
                }
            },
            Err(_) => {
                assert(false);
            },
        }
    }
}

/// The decoder reads and ignores the four-byte size field of a
/// current-format closure record: two records that differ only there decode
/// alike.
pub proof fn lemma_new_fun_size_ignored(s1: Seq<u8>, s2: Seq<u8>, tail: Seq<u8>)
    requires
        s1.len() == 4,
        s2.len() == 4,
    ensures
        dec_new_fun(s1 + tail) == dec_new_fun(s2 + tail),
{
    reveal(dec_new_fun);
    let b1 = s1 + tail;
    let b2 = s2 + tail;
    if b1.len() >= 29 {
        assert(b1[4] == b2[4]);
        assert(b1.subrange(5, 21) =~= b2.subrange(5, 21));
        assert(b1[21] == b2[21] && b1[22] == b2[22] && b1[23] == b2[23] && b1[24] == b2[24]);
        assert(b1[25] == b2[25] && b1[26] == b2[26] && b1[27] == b2[27] && b1[28] == b2[28]);
        assert(after(b1, 29) =~= after(b2, 29));
    }
}

} // verus!
