//! The laws of the codec: decoding what the encoder wrote gives the original
//! term back, and re-encoding what the decoder read gives the original bytes
//! back. Everything is stated over the wire-format functions of the `wire`
//! module, which both the executable decoder and the executable encoder are
//! specified against.

use crate::term::{BigNumV, BitBinaryV, ErlTermTag, Error, ExportV, FunV, NewFunV, PidV, PortV, RefV, TermV};
use crate::wire::{dec_big, dec_fun, dec_fun_tail, dec_new_fun, dec_new_fun_tail, dec_required_small_integer, enc_new_fun_body, lemma_dec_terms_len, lemma_dec_terms_unsnoc, lemma_new_fun_size_ignored, lemma_valid_tag_bytes, wf_new_fun_body};
use crate::wire::{
    after, be32, dec_any_atom, dec_body, dec_compact_u32, dec_pairs, dec_required_pid, dec_term,
    dec_terms, enc_atom, enc_compact_u32, enc_pair, enc_pairs, enc_pid, enc_term, enc_terms,
    from_be16, from_be32, lemma_after_after, lemma_be16_round_trip, lemma_be32_round_trip,
    lemma_be64_round_trip, lemma_i32_u32_round_trip, len16, len32, tag_of_byte, u32_of_i32,
    wf_atom, wf_pair, wf_pairs, wf_term, wf_terms, EncodeFlags,
};
use vstd::prelude::*;
use vstd::utf8::{encode_utf8, encode_utf8_decode_utf8, encode_utf8_valid_utf8};

verus! {

/// A two-byte length field reads back as the length it was made from.
proof fn lemma_len16(n: nat)
    requires
        n <= 0xFFFF,
    ensures
        len16(n).len() == 2,
        from_be16(len16(n)[0], len16(n)[1]) == n,
{
    lemma_be16_round_trip((n % 0x1_0000) as u16, 0, 0);
}

/// A four-byte length field reads back as the length it was made from.
proof fn lemma_len32(n: nat)
    requires
        n <= 0xFFFF_FFFF,
    ensures
        len32(n).len() == 4,
        from_be32(len32(n)[0], len32(n)[1], len32(n)[2], len32(n)[3]) == n,
{
    lemma_be32_round_trip((n % 0x1_0000_0000) as u32, 0, 0, 0, 0);
}

/// An encoded atom record parses back to its text, as a required atom and
/// as a full term, whatever follows it.
proof fn lemma_rt_atom(cs: Seq<char>, f: EncodeFlags, rest: Seq<u8>)
    requires
        wf_atom(cs),
    ensures
        enc_atom(cs, f).len() >= 2,
        dec_any_atom(enc_atom(cs, f) + rest) == Ok::<(Seq<char>, nat), Error>(
            (cs, enc_atom(cs, f).len() as nat),
        ),
        dec_term(enc_atom(cs, f) + rest) == Ok::<(TermV, nat), Error>(
            (TermV::Atom(cs), enc_atom(cs, f).len() as nat),
        ),
{
    reveal(crate::wire::dec_any_atom);
    reveal(crate::wire::dec_atom_long);
    reveal(crate::wire::dec_atom_short);
    let bs = encode_utf8(cs);
    encode_utf8_valid_utf8(cs);
    encode_utf8_decode_utf8(cs);
    let b = enc_atom(cs, f) + rest;
    let body = after(b, 1);
    if f.small_atoms && bs.len() <= 255 {
        assert(b[0] == if f.utf8_atoms { 119u8 } else { 115u8 });
        assert(body =~= seq![bs.len() as u8] + bs + rest);
        assert(body[0] == bs.len() as u8);
        assert(body.subrange(1, (1 + bs.len()) as int) =~= bs);
    } else {
        assert(b[0] == if f.utf8_atoms { 118u8 } else { 100u8 });
        assert(body =~= len16(bs.len()) + bs + rest);
        lemma_len16(bs.len());
        assert(body[0] == len16(bs.len())[0] && body[1] == len16(bs.len())[1]);
        assert(body.subrange(2, (2 + bs.len()) as int) =~= bs);
    }
}

/// An encoded process-identifier record parses back to its fields, as a
/// required identifier and as a full term, whatever follows it.
#[verifier::rlimit(100)]
#[verifier::spinoff_prover]
proof fn lemma_rt_pid(p: PidV, f: EncodeFlags, rest: Seq<u8>)
    requires
        wf_atom(p.node),
    ensures
        enc_pid(p, f).len() >= 1,
        dec_required_pid(enc_pid(p, f) + rest) == Ok::<(PidV, nat), Error>(
            (p, enc_pid(p, f).len() as nat),
        ),
        dec_term(enc_pid(p, f) + rest) == Ok::<(TermV, nat), Error>(
            (TermV::Pid(p), enc_pid(p, f).len() as nat),
        ),
{
    reveal(crate::wire::dec_pid_body);
    reveal(crate::wire::dec_required_pid);
    let b = enc_pid(p, f) + rest;
    assert(b[0] == 103u8);
    let body = after(b, 1);
    let a = enc_atom(p.node, f);
    assert(body =~= a + (be32(p.id) + be32(p.serial) + seq![p.creation] + rest));
    lemma_rt_atom(p.node, f, be32(p.id) + be32(p.serial) + seq![p.creation] + rest);
    let r = after(body, a.len() as nat);
    assert(r =~= be32(p.id) + be32(p.serial) + seq![p.creation] + rest);
    lemma_be32_round_trip(p.id, 0, 0, 0, 0);
    lemma_be32_round_trip(p.serial, 0, 0, 0, 0);
    assert(r[0] == be32(p.id)[0] && r[1] == be32(p.id)[1] && r[2] == be32(p.id)[2] && r[3]
        == be32(p.id)[3]);
    assert(r[4] == be32(p.serial)[0] && r[5] == be32(p.serial)[1] && r[6] == be32(p.serial)[2]
        && r[7] == be32(p.serial)[3]);
    assert(r[8] == p.creation);
}

/// An encoded closure index field parses back to its value, whatever
/// follows it.
proof fn lemma_rt_compact(n: u32, rest: Seq<u8>)
    ensures
        enc_compact_u32(n).len() >= 2,
        dec_compact_u32(enc_compact_u32(n) + rest) == Ok::<(u32, nat), Error>(
            (n, enc_compact_u32(n).len() as nat),
        ),
{
    reveal(crate::wire::dec_compact_u32);
    let b = enc_compact_u32(n) + rest;
    if n <= 255 {
        assert(b[0] == 97u8);
        assert(b[1] == n as u8);
    } else {
        assert(b[0] == 98u8);
        lemma_be32_round_trip(n, 0, 0, 0, 0);
        assert(b[1] == be32(n)[0] && b[2] == be32(n)[1] && b[3] == be32(n)[2] && b[4] == be32(
            n,
        )[3]);
    }
}

/// Parsing the records of an encoded sequence of terms gives the sequence
/// back, whatever follows it.
proof fn lemma_rt_terms(ts: Seq<TermV>, f: EncodeFlags, rest: Seq<u8>)
    requires
        wf_terms(ts, f),
    ensures
        dec_terms(enc_terms(ts, f) + rest, ts.len()) == Ok::<(Seq<TermV>, nat), Error>(
            (ts, enc_terms(ts, f).len() as nat),
        ),
    decreases ts, 1int,
{
    if ts.len() == 0 {
        assert(enc_terms(ts, f) =~= Seq::<u8>::empty());
        assert(ts =~= Seq::<TermV>::empty());
    } else {
        let tl = ts.subrange(1, ts.len() as int);
        let b = enc_terms(ts, f) + rest;
        assert(b =~= enc_term(ts[0], f) + (enc_terms(tl, f) + rest));
        assert(wf_term(ts[0], f));
        lemma_rt_term(ts[0], f, enc_terms(tl, f) + rest);
        let k0 = enc_term(ts[0], f).len() as nat;
        assert(after(b, k0) =~= enc_terms(tl, f) + rest);
        assert(wf_terms(tl, f)) by {
            assert(forall|i: int| 0 <= i < tl.len() ==> #[trigger] tl[i] == ts[i + 1]);
        }
        lemma_rt_terms(tl, f, rest);
        assert(seq![ts[0]] + tl =~= ts);
    }
}

/// Parsing the two records of an encoded key-value pair gives the pair
/// back, whatever follows them.
#[verifier::rlimit(100)]
#[verifier::spinoff_prover]
proof fn lemma_rt_pair(p: (TermV, TermV), f: EncodeFlags, rest: Seq<u8>)
    requires
        wf_pair(p, f),
    ensures
        dec_term(enc_pair(p, f) + rest) == Ok::<(TermV, nat), Error>(
            (p.0, enc_term(p.0, f).len() as nat),
        ),
        dec_term(after(enc_pair(p, f) + rest, enc_term(p.0, f).len() as nat)) == Ok::<
            (TermV, nat),
            Error,
        >((p.1, enc_term(p.1, f).len() as nat)),
        enc_pair(p, f).len() == enc_term(p.0, f).len() + enc_term(p.1, f).len(),
    decreases p, 0int,
{
    let b = enc_pair(p, f) + rest;
    assert(b =~= enc_term(p.0, f) + (enc_term(p.1, f) + rest));
    lemma_rt_term(p.0, f, enc_term(p.1, f) + rest);
    assert(after(b, enc_term(p.0, f).len() as nat) =~= enc_term(p.1, f) + rest);
    lemma_rt_term(p.1, f, rest);
}

/// Parsing the records of an encoded sequence of key-value pairs gives the
/// sequence back, whatever follows it.
#[verifier::rlimit(100)]
#[verifier::spinoff_prover]
proof fn lemma_rt_pairs(ps: Seq<(TermV, TermV)>, f: EncodeFlags, rest: Seq<u8>)
    requires
        wf_pairs(ps, f),
    ensures
        dec_pairs(enc_pairs(ps, f) + rest, ps.len()) == Ok::<(Seq<(TermV, TermV)>, nat), Error>(
            (ps, enc_pairs(ps, f).len() as nat),
        ),
    decreases ps, 1int,
{
    if ps.len() == 0 {
        assert(enc_pairs(ps, f) =~= Seq::<u8>::empty());
        assert(ps =~= Seq::<(TermV, TermV)>::empty());
    } else {
        let tl = ps.subrange(1, ps.len() as int);
        let b = enc_pairs(ps, f) + rest;
        assert(b =~= enc_pair(ps[0], f) + (enc_pairs(tl, f) + rest));
        assert(wf_pair(ps[0], f));
        lemma_rt_pair(ps[0], f, enc_pairs(tl, f) + rest);
        let k0 = enc_term(ps[0].0, f).len() as nat;
        let k1 = enc_term(ps[0].1, f).len() as nat;
        lemma_after_after(b, k0, k1);
        assert(after(b, (k0 + k1) as nat) =~= enc_pairs(tl, f) + rest);
        assert(wf_pairs(tl, f)) by {
            assert(forall|i: int| 0 <= i < tl.len() ==> #[trigger] tl[i] == ps[i + 1]);
        }
        lemma_rt_pairs(tl, f, rest);
        assert(seq![ps[0]] + tl =~= ps);
    }
}

/// As `lemma_rt_term`, for a multi-word reference.
#[verifier::rlimit(100)]
#[verifier::spinoff_prover]
proof fn lemma_rt_v_reference(rv: RefV, f: EncodeFlags, rest: Seq<u8>)
    requires
        wf_term(TermV::Reference(rv), f),
    ensures
        dec_term(enc_term(TermV::Reference(rv), f) + rest) == Ok::<(TermV, nat), Error>(
            (TermV::Reference(rv), enc_term(TermV::Reference(rv), f).len() as nat),
        ),
{
    reveal(crate::wire::dec_new_reference);
    let t = TermV::Reference(rv);
    let b = enc_term(t, f) + rest;
    let a = enc_atom(rv.node, f);
    let body = after(b, 1);
    assert(body =~= len16((rv.id.len() / 4) as nat) + (a + (seq![rv.creation] + rv.id + rest)));
    lemma_len16((rv.id.len() / 4) as nat);
    assert(body[0] == len16((rv.id.len() / 4) as nat)[0] && body[1] == len16(
        (rv.id.len() / 4) as nat,
    )[1]);
    assert(after(body, 2) =~= a + (seq![rv.creation] + rv.id + rest));
    lemma_rt_atom(rv.node, f, seq![rv.creation] + rv.id + rest);
    let r = after(body, (2 + a.len()) as nat);
    assert(r =~= seq![rv.creation] + rv.id + rest);
    assert(r[0] == rv.creation);
    assert(4 * ((rv.id.len() / 4) as nat) == rv.id.len());
    assert(r.subrange(1, (1 + rv.id.len()) as int) =~= rv.id);
}

/// As `lemma_rt_term`, for a port.
#[verifier::rlimit(100)]
#[verifier::spinoff_prover]
proof fn lemma_rt_v_port(pv: PortV, f: EncodeFlags, rest: Seq<u8>)
    requires
        wf_term(TermV::Port(pv), f),
    ensures
        dec_term(enc_term(TermV::Port(pv), f) + rest) == Ok::<(TermV, nat), Error>(
            (TermV::Port(pv), enc_term(TermV::Port(pv), f).len() as nat),
        ),
{
    reveal(crate::wire::dec_port);
    let t = TermV::Port(pv);
    let b = enc_term(t, f) + rest;
    let a = enc_atom(pv.node, f);
    let body = after(b, 1);
    assert(body =~= a + (be32(pv.id) + seq![pv.creation] + rest));
    lemma_rt_atom(pv.node, f, be32(pv.id) + seq![pv.creation] + rest);
    let r = after(body, a.len() as nat);
    assert(r =~= be32(pv.id) + seq![pv.creation] + rest);
    lemma_be32_round_trip(pv.id, 0, 0, 0, 0);
    assert(r[0] == be32(pv.id)[0] && r[1] == be32(pv.id)[1] && r[2] == be32(pv.id)[2] && r[3]
        == be32(pv.id)[3]);
    assert(r[4] == pv.creation);
}

/// As `lemma_rt_term`, for a tuple.
#[verifier::rlimit(100)]
#[verifier::spinoff_prover]
proof fn lemma_rt_v_tuple(ts: Seq<TermV>, f: EncodeFlags, rest: Seq<u8>)
    requires
        wf_term(TermV::Tuple(ts), f),
    ensures
        dec_term(enc_term(TermV::Tuple(ts), f) + rest) == Ok::<(TermV, nat), Error>(
            (TermV::Tuple(ts), enc_term(TermV::Tuple(ts), f).len() as nat),
        ),
    decreases ts, 2int,
{
    reveal(crate::wire::dec_small_tuple);
    reveal(crate::wire::dec_large_tuple);
    let t = TermV::Tuple(ts);
    let b = enc_term(t, f) + rest;
    let body = after(b, 1);
    if ts.len() <= 255 {
        assert(body =~= seq![ts.len() as u8] + (enc_terms(ts, f) + rest));
        assert(after(body, 1) =~= enc_terms(ts, f) + rest);
        lemma_rt_terms(ts, f, rest);
    } else {
        assert(body =~= len32(ts.len()) + (enc_terms(ts, f) + rest));
        lemma_len32(ts.len());
        assert(body[0] == len32(ts.len())[0] && body[1] == len32(ts.len())[1] && body[2]
            == len32(ts.len())[2] && body[3] == len32(ts.len())[3]);
        assert(after(body, 4) =~= enc_terms(ts, f) + rest);
        lemma_rt_terms(ts, f, rest);
    }
}

/// As `lemma_rt_term`, for a map.
#[verifier::rlimit(100)]
#[verifier::spinoff_prover]
proof fn lemma_rt_v_emap(ps: Seq<(TermV, TermV)>, f: EncodeFlags, rest: Seq<u8>)
    requires
        wf_term(TermV::EMap(ps), f),
    ensures
        dec_term(enc_term(TermV::EMap(ps), f) + rest) == Ok::<(TermV, nat), Error>(
            (TermV::EMap(ps), enc_term(TermV::EMap(ps), f).len() as nat),
        ),
    decreases ps, 2int,
{
    reveal(crate::wire::dec_map);
    let t = TermV::EMap(ps);
    let b = enc_term(t, f) + rest;
    let body = after(b, 1);
    assert(body =~= len32(ps.len()) + (enc_pairs(ps, f) + rest));
    lemma_len32(ps.len());
    assert(body[0] == len32(ps.len())[0] && body[1] == len32(ps.len())[1] && body[2] == len32(
        ps.len(),
    )[2] && body[3] == len32(ps.len())[3]);
    assert(after(body, 4) =~= enc_pairs(ps, f) + rest);
    lemma_rt_pairs(ps, f, rest);
}

/// As `lemma_rt_term`, for a byte string.
#[verifier::rlimit(100)]
#[verifier::spinoff_prover]
proof fn lemma_rt_v_string(bs: Seq<u8>, f: EncodeFlags, rest: Seq<u8>)
    requires
        wf_term(TermV::String(bs), f),
    ensures
        dec_term(enc_term(TermV::String(bs), f) + rest) == Ok::<(TermV, nat), Error>(
            (TermV::String(bs), enc_term(TermV::String(bs), f).len() as nat),
        ),
{
    reveal(crate::wire::dec_string_bytes);
    let t = TermV::String(bs);
    let b = enc_term(t, f) + rest;
    let body = after(b, 1);
    assert(body =~= len16(bs.len()) + (bs + rest));
    lemma_len16(bs.len());
    assert(body[0] == len16(bs.len())[0] && body[1] == len16(bs.len())[1]);
    assert(body.subrange(2, (2 + bs.len()) as int) =~= bs);
}

/// As `lemma_rt_term`, for a list. The length field counts one less than
/// the sequence, and the decoder reads that count plus one: the sequence
/// with its trailing tail element comes back whole.
#[verifier::rlimit(100)]
#[verifier::spinoff_prover]
proof fn lemma_rt_v_list(ts: Seq<TermV>, f: EncodeFlags, rest: Seq<u8>)
    requires
        wf_term(TermV::List(ts), f),
    ensures
        dec_term(enc_term(TermV::List(ts), f) + rest) == Ok::<(TermV, nat), Error>(
            (TermV::List(ts), enc_term(TermV::List(ts), f).len() as nat),
        ),
    decreases ts, 2int,
{
    reveal(crate::wire::dec_list);
    let t = TermV::List(ts);
    let b = enc_term(t, f) + rest;
    let body = after(b, 1);
    let n = (ts.len() - 1) as nat;
    assert(body =~= len32(n) + (enc_terms(ts, f) + rest));
    lemma_len32(n);
    assert(body[0] == len32(n)[0] && body[1] == len32(n)[1] && body[2] == len32(n)[2] && body[3]
        == len32(n)[3]);
    assert(after(body, 4) =~= enc_terms(ts, f) + rest);
    lemma_rt_terms(ts, f, rest);
    assert((n + 1) as nat == ts.len());
}

/// As `lemma_rt_term`, for a binary.
#[verifier::rlimit(100)]
#[verifier::spinoff_prover]
proof fn lemma_rt_v_binary(bs: Seq<u8>, f: EncodeFlags, rest: Seq<u8>)
    requires
        wf_term(TermV::Binary(bs), f),
    ensures
        dec_term(enc_term(TermV::Binary(bs), f) + rest) == Ok::<(TermV, nat), Error>(
            (TermV::Binary(bs), enc_term(TermV::Binary(bs), f).len() as nat),
        ),
{
    reveal(crate::wire::dec_binary);
    let t = TermV::Binary(bs);
    let b = enc_term(t, f) + rest;
    let body = after(b, 1);
    assert(body =~= len32(bs.len()) + (bs + rest));
    lemma_len32(bs.len());
    assert(body[0] == len32(bs.len())[0] && body[1] == len32(bs.len())[1] && body[2] == len32(
        bs.len(),
    )[2] && body[3] == len32(bs.len())[3]);
    assert(body.subrange(4, (4 + bs.len()) as int) =~= bs);
}

/// As `lemma_rt_term`, for a big integer with a one-byte magnitude length.
#[verifier::rlimit(100)]
#[verifier::spinoff_prover]
proof fn lemma_rt_v_small_big(bv: BigNumV, f: EncodeFlags, rest: Seq<u8>)
    requires
        bv.magnitude.len() <= 255,
    ensures
        dec_term(enc_term(TermV::BigNum(bv), f) + rest) == Ok::<(TermV, nat), Error>(
            (TermV::BigNum(bv), enc_term(TermV::BigNum(bv), f).len() as nat),
        ),
{
    reveal(crate::wire::dec_big);
    let t = TermV::BigNum(bv);
    let b = enc_term(t, f) + rest;
    let body = after(b, 1);
    let sign = seq![
        if bv.negative {
            1u8
        } else {
            0u8
        },
    ];
    assert(body =~= seq![bv.magnitude.len() as u8] + (sign + bv.magnitude + rest));
    assert(after(body, 1) =~= sign + bv.magnitude + rest);
    let r = after(body, 1);
    assert(r[0] == sign[0]);
    assert(r.subrange(1, (1 + bv.magnitude.len()) as int) =~= bv.magnitude);
    assert((r[0] != 0) == bv.negative);
}

/// As `lemma_rt_term`, for a big integer with a four-byte magnitude length.
#[verifier::rlimit(100)]
#[verifier::spinoff_prover]
proof fn lemma_rt_v_large_big(bv: BigNumV, f: EncodeFlags, rest: Seq<u8>)
    requires
        bv.magnitude.len() > 255,
        bv.magnitude.len() <= 0xFFFF_FFFF,
    ensures
        dec_term(enc_term(TermV::BigNum(bv), f) + rest) == Ok::<(TermV, nat), Error>(
            (TermV::BigNum(bv), enc_term(TermV::BigNum(bv), f).len() as nat),
        ),
{
    reveal(crate::wire::dec_big);
    let t = TermV::BigNum(bv);
    let b = enc_term(t, f) + rest;
    let body = after(b, 1);
    let sign = seq![
        if bv.negative {
            1u8
        } else {
            0u8
        },
    ];
    assert(body =~= len32(bv.magnitude.len()) + (sign + bv.magnitude + rest));
    lemma_len32(bv.magnitude.len());
    assert(body[0] == len32(bv.magnitude.len())[0] && body[1] == len32(bv.magnitude.len())[1]
        && body[2] == len32(bv.magnitude.len())[2] && body[3] == len32(bv.magnitude.len())[3]);
    assert(after(body, 4) =~= sign + bv.magnitude + rest);
    let r = after(body, 4);
    assert(r[0] == sign[0]);
    assert(r.subrange(1, (1 + bv.magnitude.len()) as int) =~= bv.magnitude);
    assert((r[0] != 0) == bv.negative);
}

/// As `lemma_rt_term`, for a big integer.
proof fn lemma_rt_v_big_num(bv: BigNumV, f: EncodeFlags, rest: Seq<u8>)
    requires
        wf_term(TermV::BigNum(bv), f),
    ensures
        dec_term(enc_term(TermV::BigNum(bv), f) + rest) == Ok::<(TermV, nat), Error>(
            (TermV::BigNum(bv), enc_term(TermV::BigNum(bv), f).len() as nat),
        ),
{
    if bv.magnitude.len() <= 255 {
        lemma_rt_v_small_big(bv, f, rest);
    } else {
        lemma_rt_v_large_big(bv, f, rest);
    }
}

/// The atom, index and free-variable records of an encoded legacy closure
/// parse back, whatever follows them.
#[verifier::rlimit(100)]
#[verifier::spinoff_prover]
proof fn lemma_rt_fun_tail_inner(fv: FunV, f: EncodeFlags, rest: Seq<u8>)
    requires
        wf_term(TermV::Fun(fv), f),
    ensures
        ({
            let b2 = enc_atom(fv.module, f) + enc_compact_u32(fv.index) + enc_compact_u32(
                fv.uniq,
            ) + enc_terms(fv.free_vars, f) + rest;
            let ka = enc_atom(fv.module, f).len() as nat;
            let k1 = enc_compact_u32(fv.index).len() as nat;
            let k2 = enc_compact_u32(fv.uniq).len() as nat;
            &&& dec_any_atom(b2) == Ok::<(Seq<char>, nat), Error>((fv.module, ka))
            &&& dec_compact_u32(after(b2, ka)) == Ok::<(u32, nat), Error>((fv.index, k1))
            &&& dec_compact_u32(after(b2, (ka + k1) as nat)) == Ok::<(u32, nat), Error>(
                (fv.uniq, k2),
            )
            &&& dec_terms(after(b2, (ka + k1 + k2) as nat), fv.free_vars.len()) == Ok::<
                (Seq<TermV>, nat),
                Error,
            >((fv.free_vars, enc_terms(fv.free_vars, f).len() as nat))
        }),
    decreases fv, 1int,
{
    let a = enc_atom(fv.module, f);
    let c1 = enc_compact_u32(fv.index);
    let c2 = enc_compact_u32(fv.uniq);
    let tt = enc_terms(fv.free_vars, f);
    let b2 = a + c1 + c2 + tt + rest;
    assert(b2 =~= a + (c1 + c2 + tt + rest));
    lemma_rt_atom(fv.module, f, c1 + c2 + tt + rest);
    let ka = a.len() as nat;
    assert(after(b2, ka) =~= c1 + (c2 + tt + rest));
    lemma_rt_compact(fv.index, c2 + tt + rest);
    let k1 = c1.len() as nat;
    assert(after(b2, (ka + k1) as nat) =~= c2 + (tt + rest));
    lemma_rt_compact(fv.uniq, tt + rest);
    let k2 = c2.len() as nat;
    assert(after(b2, (ka + k1 + k2) as nat) =~= tt + rest);
    lemma_rt_terms(fv.free_vars, f, rest);
}

/// The fields of an encoded legacy closure after its free-variable count
/// parse back, whatever follows them.
#[verifier::rlimit(100)]
#[verifier::spinoff_prover]
proof fn lemma_rt_fun_tail(fv: FunV, f: EncodeFlags, rest: Seq<u8>)
    requires
        wf_term(TermV::Fun(fv), f),
    ensures
        ({
            let tail = enc_pid(fv.pid, f) + enc_atom(fv.module, f) + enc_compact_u32(fv.index)
                + enc_compact_u32(fv.uniq) + enc_terms(fv.free_vars, f);
            dec_fun_tail(tail + rest, fv.free_vars.len()) == Ok::<(TermV, nat), Error>(
                (TermV::Fun(fv), tail.len() as nat),
            )
        }),
    decreases fv, 2int,
{
    reveal(crate::wire::dec_fun_tail);
    let pp = enc_pid(fv.pid, f);
    let a = enc_atom(fv.module, f);
    let c1 = enc_compact_u32(fv.index);
    let c2 = enc_compact_u32(fv.uniq);
    let tt = enc_terms(fv.free_vars, f);
    let b = (pp + a + c1 + c2 + tt) + rest;
    let b2 = a + c1 + c2 + tt + rest;
    assert(b =~= pp + (a + c1 + c2 + tt + rest));
    lemma_rt_pid(fv.pid, f, a + c1 + c2 + tt + rest);
    let kp = pp.len() as nat;
    assert(after(b, kp) =~= b2);
    lemma_rt_fun_tail_inner(fv, f, rest);
    let ka = a.len() as nat;
    let k1 = c1.len() as nat;
    let k2 = c2.len() as nat;
    lemma_after_after(b, kp, ka);
    lemma_after_after(b, kp, (ka + k1) as nat);
    lemma_after_after(b, kp, (ka + k1 + k2) as nat);
    assert(after(b, (kp + ka) as nat) == after(b2, ka));
    assert(after(b, (kp + ka + k1) as nat) == after(b2, (ka + k1) as nat));
    assert(after(b, (kp + ka + k1 + k2) as nat) == after(b2, (ka + k1 + k2) as nat));
}

/// As `lemma_rt_term`, for a legacy closure.
#[verifier::rlimit(100)]
#[verifier::spinoff_prover]
proof fn lemma_rt_v_fun(fv: FunV, f: EncodeFlags, rest: Seq<u8>)
    requires
        wf_term(TermV::Fun(fv), f),
    ensures
        dec_term(enc_term(TermV::Fun(fv), f) + rest) == Ok::<(TermV, nat), Error>(
            (TermV::Fun(fv), enc_term(TermV::Fun(fv), f).len() as nat),
        ),
    decreases fv, 3int,
{
    reveal(crate::wire::dec_fun);
    let t = TermV::Fun(fv);
    let b = enc_term(t, f) + rest;
    let body = after(b, 1);
    let tail = enc_pid(fv.pid, f) + enc_atom(fv.module, f) + enc_compact_u32(fv.index)
        + enc_compact_u32(fv.uniq) + enc_terms(fv.free_vars, f);
    assert(b[0] == 117u8);
    assert(body =~= len32(fv.free_vars.len()) + (tail + rest));
    lemma_len32(fv.free_vars.len());
    assert(body[0] == len32(fv.free_vars.len())[0] && body[1] == len32(fv.free_vars.len())[1]
        && body[2] == len32(fv.free_vars.len())[2] && body[3] == len32(fv.free_vars.len())[3]);
    assert(after(body, 4) =~= tail + rest);
    lemma_rt_fun_tail(fv, f, rest);
    assert(dec_fun_tail(after(body, 4), fv.free_vars.len()) == Ok::<(TermV, nat), Error>(
        (t, tail.len() as nat),
    ));
    assert(dec_fun(body) == Ok::<(TermV, nat), Error>((t, (4 + tail.len()) as nat)));
    assert(enc_term(t, f).len() == 5 + tail.len());
}

/// As `lemma_rt_term`, for an export.
#[verifier::rlimit(100)]
#[verifier::spinoff_prover]
proof fn lemma_rt_v_export(ev: ExportV, f: EncodeFlags, rest: Seq<u8>)
    requires
        wf_term(TermV::Export(ev), f),
    ensures
        dec_term(enc_term(TermV::Export(ev), f) + rest) == Ok::<(TermV, nat), Error>(
            (TermV::Export(ev), enc_term(TermV::Export(ev), f).len() as nat),
        ),
{
    reveal(crate::wire::dec_export);
    reveal(crate::wire::dec_required_small_integer);
    let t = TermV::Export(ev);
    let b = enc_term(t, f) + rest;
    let body = after(b, 1);
    let a1 = enc_atom(ev.module, f);
    let a2 = enc_atom(ev.function, f);
    assert(body =~= a1 + (a2 + (seq![97u8, ev.arity] + rest)));
    lemma_rt_atom(ev.module, f, a2 + (seq![97u8, ev.arity] + rest));
    let k1 = a1.len() as nat;
    assert(after(body, k1) =~= a2 + (seq![97u8, ev.arity] + rest));
    lemma_rt_atom(ev.function, f, seq![97u8, ev.arity] + rest);
    let k2 = a2.len() as nat;
    assert(after(body, (k1 + k2) as nat) =~= seq![97u8, ev.arity] + rest);
    let r = after(body, (k1 + k2) as nat);
    assert(r[0] == 97u8 && r[1] == ev.arity);
}

/// As `lemma_rt_term`, for a bit string.
#[verifier::rlimit(100)]
#[verifier::spinoff_prover]
proof fn lemma_rt_v_bit_binary(bb: BitBinaryV, f: EncodeFlags, rest: Seq<u8>)
    requires
        wf_term(TermV::BitBinary(bb), f),
    ensures
        dec_term(enc_term(TermV::BitBinary(bb), f) + rest) == Ok::<(TermV, nat), Error>(
            (TermV::BitBinary(bb), enc_term(TermV::BitBinary(bb), f).len() as nat),
        ),
{
    reveal(crate::wire::dec_bit_binary);
    let t = TermV::BitBinary(bb);
    let b = enc_term(t, f) + rest;
    let body = after(b, 1);
    assert(body =~= len32(bb.data.len()) + (seq![bb.bits] + bb.data + rest));
    lemma_len32(bb.data.len());
    assert(body[0] == len32(bb.data.len())[0] && body[1] == len32(bb.data.len())[1] && body[2]
        == len32(bb.data.len())[2] && body[3] == len32(bb.data.len())[3]);
    assert(body[4] == bb.bits);
    assert(body.subrange(5, (5 + bb.data.len()) as int) =~= bb.data);
}

/// The fields of an encoded current-format closure after its fixed-width
/// head parse back, whatever follows them.
#[verifier::rlimit(100)]
#[verifier::spinoff_prover]
proof fn lemma_rt_new_fun_tail(nf: NewFunV, f: EncodeFlags, rest: Seq<u8>)
    requires
        wf_new_fun_body(nf, f),
    ensures
        ({
            let tail = enc_atom(nf.module, f) + enc_compact_u32(nf.old_index) + enc_compact_u32(
                nf.old_uniq,
            ) + enc_pid(nf.pid, f) + enc_terms(nf.free_vars, f);
            dec_new_fun_tail(tail + rest, nf.arity, nf.uniq, nf.index, nf.free_vars.len())
                == Ok::<(TermV, nat), Error>((TermV::NewFun(nf), tail.len() as nat))
        }),
    decreases nf, 2int,
{
    reveal(crate::wire::dec_new_fun_tail);
    let a = enc_atom(nf.module, f);
    let c1 = enc_compact_u32(nf.old_index);
    let c2 = enc_compact_u32(nf.old_uniq);
    let pp = enc_pid(nf.pid, f);
    let tt = enc_terms(nf.free_vars, f);
    let b = (a + c1 + c2 + pp + tt) + rest;
    assert(b =~= a + (c1 + c2 + pp + tt + rest));
    lemma_rt_atom(nf.module, f, c1 + c2 + pp + tt + rest);
    let ka = a.len() as nat;
    assert(after(b, ka) =~= c1 + (c2 + pp + tt + rest));
    lemma_rt_compact(nf.old_index, c2 + pp + tt + rest);
    let k1 = c1.len() as nat;
    assert(after(b, (ka + k1) as nat) =~= c2 + (pp + tt + rest));
    lemma_rt_compact(nf.old_uniq, pp + tt + rest);
    let k2 = c2.len() as nat;
    assert(after(b, (ka + k1 + k2) as nat) =~= pp + (tt + rest));
    lemma_rt_pid(nf.pid, f, tt + rest);
    let kp = pp.len() as nat;
    assert(after(b, (ka + k1 + k2 + kp) as nat) =~= tt + rest);
    lemma_rt_terms(nf.free_vars, f, rest);
}

/// Parsing an encoded current-format closure record gives the closure back,
/// whatever follows it.
#[verifier::rlimit(100)]
#[verifier::spinoff_prover]
proof fn lemma_rt_new_fun(nf: NewFunV, f: EncodeFlags, rest: Seq<u8>)
    requires
        wf_new_fun_body(nf, f),
        f.fair_new_fun ==> enc_new_fun_body(nf, f).len() + 4 <= 0xFFFF_FFFF,
    ensures
        dec_new_fun(
            (if f.fair_new_fun {
                len32((enc_new_fun_body(nf, f).len() + 4) as nat)
            } else {
                be32(0)
            }) + enc_new_fun_body(nf, f) + rest,
        ) == Ok::<(TermV, nat), Error>(
            (TermV::NewFun(nf), (4 + enc_new_fun_body(nf, f).len()) as nat),
        ),
    decreases nf, 3int,
{
    reveal(crate::wire::dec_new_fun);
    let body = enc_new_fun_body(nf, f);
    let size = if f.fair_new_fun {
        len32((body.len() + 4) as nat)
    } else {
        be32(0)
    };
    assert(size.len() == 4);
    let b = size + body + rest;
    let a = enc_atom(nf.module, f);
    let c1 = enc_compact_u32(nf.old_index);
    let c2 = enc_compact_u32(nf.old_uniq);
    let pp = enc_pid(nf.pid, f);
    let tt = enc_terms(nf.free_vars, f);
    let tail = a + c1 + c2 + pp + tt;
    assert(b =~= size + (seq![nf.arity] + nf.uniq + be32(nf.index) + len32(nf.free_vars.len()))
        + (tail + rest));
    assert(b.len() >= 29);
    assert(b[4] == nf.arity);
    assert(b.subrange(5, 21) =~= nf.uniq);
    lemma_be32_round_trip(nf.index, 0, 0, 0, 0);
    assert(b[21] == be32(nf.index)[0] && b[22] == be32(nf.index)[1] && b[23] == be32(
        nf.index,
    )[2] && b[24] == be32(nf.index)[3]);
    lemma_len32(nf.free_vars.len());
    assert(b[25] == len32(nf.free_vars.len())[0] && b[26] == len32(nf.free_vars.len())[1]
        && b[27] == len32(nf.free_vars.len())[2] && b[28] == len32(nf.free_vars.len())[3]);
    assert(after(b, 29) =~= tail + rest);
    lemma_rt_new_fun_tail(nf, f, rest);
    assert(from_be32(b[21], b[22], b[23], b[24]) == nf.index);
    assert(from_be32(b[25], b[26], b[27], b[28]) as nat == nf.free_vars.len());
    assert(dec_new_fun_tail(after(b, 29), b[4], b.subrange(5, 21), nf.index, nf.free_vars.len())
        == Ok::<(TermV, nat), Error>((TermV::NewFun(nf), tail.len() as nat)));
    assert(29 + tail.len() == 4 + body.len());
}

/// As `lemma_rt_term`, for a one-byte integer.
proof fn lemma_rt_v_small_integer(n: u8, f: EncodeFlags, rest: Seq<u8>)
    ensures
        dec_term(enc_term(TermV::SmallInteger(n), f) + rest) == Ok::<(TermV, nat), Error>(
            (TermV::SmallInteger(n), 2nat),
        ),
{
    let b = enc_term(TermV::SmallInteger(n), f) + rest;
    assert(after(b, 1) =~= seq![n] + rest);
}

/// As `lemma_rt_term`, for a four-byte signed integer.
#[verifier::rlimit(100)]
#[verifier::spinoff_prover]
proof fn lemma_rt_v_integer(n: i32, f: EncodeFlags, rest: Seq<u8>)
    ensures
        dec_term(enc_term(TermV::Integer(n), f) + rest) == Ok::<(TermV, nat), Error>(
            (TermV::Integer(n), 5nat),
        ),
{
    let b = enc_term(TermV::Integer(n), f) + rest;
    assert(after(b, 1) =~= be32(u32_of_i32(n)) + rest);
    lemma_be32_round_trip(u32_of_i32(n), 0, 0, 0, 0);
    lemma_i32_u32_round_trip(n, 0);
    let r = after(b, 1);
    assert(r[0] == be32(u32_of_i32(n))[0] && r[1] == be32(u32_of_i32(n))[1] && r[2] == be32(
        u32_of_i32(n),
    )[2] && r[3] == be32(u32_of_i32(n))[3]);
}

/// As `lemma_rt_term`, for an eight-byte float bit pattern.
#[verifier::rlimit(100)]
#[verifier::spinoff_prover]
proof fn lemma_rt_v_float(bits: u64, f: EncodeFlags, rest: Seq<u8>)
    ensures
        dec_term(enc_term(TermV::Float(bits), f) + rest) == Ok::<(TermV, nat), Error>(
            (TermV::Float(bits), 9nat),
        ),
{
    let b = enc_term(TermV::Float(bits), f) + rest;
    assert(after(b, 1) =~= crate::wire::be64(bits) + rest);
    lemma_be64_round_trip(bits, 0, 0, 0, 0, 0, 0, 0, 0);
    let r = after(b, 1);
    let e = crate::wire::be64(bits);
    assert(r[0] == e[0] && r[1] == e[1] && r[2] == e[2] && r[3] == e[3] && r[4] == e[4] && r[5]
        == e[5] && r[6] == e[6] && r[7] == e[7]);
}

/// As `lemma_rt_term`, for the identifier-bearing variants.
#[verifier::rlimit(100)]
#[verifier::spinoff_prover]
proof fn lemma_rt_term_idents(t: TermV, f: EncodeFlags, rest: Seq<u8>)
    requires
        wf_term(t, f),
        t matches TermV::Reference(_) || t matches TermV::Port(_) || t matches TermV::Pid(_)
            || t matches TermV::Export(_),
    ensures
        enc_term(t, f).len() >= 1,
        dec_term(enc_term(t, f) + rest) == Ok::<(TermV, nat), Error>(
            (t, enc_term(t, f).len() as nat),
        ),
    decreases t, 2int,
{
    match t {
        TermV::Reference(rv) => {
            lemma_rt_v_reference(rv, f, rest);
        },
        TermV::Port(pv) => {
            lemma_rt_v_port(pv, f, rest);
        },
        TermV::Pid(pv) => {
            lemma_rt_pid(pv, f, rest);
            assert(enc_term(t, f) + rest =~= enc_pid(pv, f) + rest);
        },
        TermV::Export(ev) => {
            lemma_rt_v_export(ev, f, rest);
        },
        _ => {
            assert(false);
        },
    }
}

/// As `lemma_rt_term`, for the variants whose records carry nested terms
/// or identifier fields.
#[verifier::rlimit(100)]
#[verifier::spinoff_prover]
proof fn lemma_rt_term_deep(t: TermV, f: EncodeFlags, rest: Seq<u8>)
    requires
        wf_term(t, f),
        t matches TermV::Tuple(_) || t matches TermV::EMap(_) || t matches TermV::List(_)
            || t matches TermV::Fun(_) || t matches TermV::NewFun(_),
    ensures
        enc_term(t, f).len() >= 1,
        dec_term(enc_term(t, f) + rest) == Ok::<(TermV, nat), Error>(
            (t, enc_term(t, f).len() as nat),
        ),
    decreases t, 2int,
{
    let b = enc_term(t, f) + rest;
    match t {
        TermV::Tuple(ts) => {
            lemma_rt_v_tuple(ts, f, rest);
        },
        TermV::EMap(ps) => {
            lemma_rt_v_emap(ps, f, rest);
        },
        TermV::List(ts) => {
            lemma_rt_v_list(ts, f, rest);
        },
        TermV::Fun(fv) => {
            lemma_rt_v_fun(fv, f, rest);
        },
        TermV::NewFun(nf) => {
            let body = after(b, 1);
            lemma_rt_new_fun(nf, f, rest);
            assert(body =~= (if f.fair_new_fun {
                len32((enc_new_fun_body(nf, f).len() + 4) as nat)
            } else {
                be32(0)
            }) + enc_new_fun_body(nf, f) + rest);
        },
        _ => {
            assert(false);
        },
    }
}

/// Parsing an encoded term record gives the term back, whatever follows it:
/// the encoder and decoder invert each other at every well-formed term.
#[verifier::rlimit(100)]
#[verifier::spinoff_prover]
proof fn lemma_rt_term(t: TermV, f: EncodeFlags, rest: Seq<u8>)
    requires
        wf_term(t, f),
    ensures
        enc_term(t, f).len() >= 1,
        dec_term(enc_term(t, f) + rest) == Ok::<(TermV, nat), Error>(
            (t, enc_term(t, f).len() as nat),
        ),
    decreases t, 3int,
{
    let b = enc_term(t, f) + rest;
    match t {
        TermV::SmallInteger(n) => {
            lemma_rt_v_small_integer(n, f, rest);
        },
        TermV::Integer(n) => {
            lemma_rt_v_integer(n, f, rest);
        },
        TermV::Float(bits) => {
            lemma_rt_v_float(bits, f, rest);
        },
        TermV::Atom(cs) => {
            lemma_rt_atom(cs, f, rest);
            assert(enc_term(t, f) + rest =~= enc_atom(cs, f) + rest);
        },
        TermV::Nil => {
            assert(b[0] == 106u8);
        },
        TermV::String(bs) => {
            lemma_rt_v_string(bs, f, rest);
        },
        TermV::Binary(bs) => {
            lemma_rt_v_binary(bs, f, rest);
        },
        TermV::BigNum(bv) => {
            lemma_rt_v_big_num(bv, f, rest);
        },
        TermV::BitBinary(bb) => {
            lemma_rt_v_bit_binary(bb, f, rest);
        },
        TermV::Reference(_) | TermV::Port(_) | TermV::Pid(_) | TermV::Export(_) => {
            lemma_rt_term_idents(t, f, rest);
        },
        TermV::Tuple(_) | TermV::EMap(_) | TermV::List(_) | TermV::Fun(_) | TermV::NewFun(_) => {
            lemma_rt_term_deep(t, f, rest);
        },
    }
}

/// Round-trip identity: a term the wire format can represent decodes, from
/// exactly the bytes it encodes to, back to itself — under every
/// configuration, the placeholder-size closure policy included.
pub proof fn lemma_round_trip(t: TermV, f: EncodeFlags)
    requires
        wf_term(t, f),
    ensures
        dec_term(enc_term(t, f)) == Ok::<(TermV, nat), Error>(
            (t, enc_term(t, f).len() as nat),
        ),
{
    assert(enc_term(t, f) + Seq::<u8>::empty() =~= enc_term(t, f));
    lemma_rt_term(t, f, Seq::empty());
}

/// Byte-exact round trip: bytes produced by a conformant encoder decode to
/// a term whose encoding, under the same configuration, is exactly those
/// bytes.
pub proof fn lemma_byte_exact_round_trip(t: TermV, f: EncodeFlags)
    requires
        wf_term(t, f),
    ensures
        dec_term(enc_term(t, f)) matches Ok((v, n)) && enc_term(v, f) == enc_term(t, f) && n
            == enc_term(t, f).len(),
{
    lemma_round_trip(t, f);
}

/// A list wire record always decodes to one term more than its length field
/// says, so the decoded sequence is never empty: its last element is the
/// list's tail term, `Nil` for every proper list.
pub proof fn lemma_list_decode_shape(b: Seq<u8>)
    requires
        b.len() >= 5,
        b[0] == 108,
        dec_term(b) is Ok,
    ensures
        dec_term(b) matches Ok((t, n)) && t matches TermV::List(ts) && ts.len() == 1 + from_be32(
            b[1],
            b[2],
            b[3],
            b[4],
        ) && ts.len() >= 1,
{
    reveal(crate::wire::dec_list);
    let body = after(b, 1);
    assert(body[0] == b[1] && body[1] == b[2] && body[2] == b[3] && body[3] == b[4]);
    let n = (from_be32(b[1], b[2], b[3], b[4]) + 1) as nat;
    match dec_terms(after(body, 4), n) {
        Ok((ts, m)) => {
            lemma_dec_terms_len(after(body, 4), n);
        },
        Err(_) => {
            assert(false);
        },
    }
}

/// Encoding a well-formed list writes a length field of exactly the
/// sequence's length minus one: the trailing tail element is not counted.
pub proof fn lemma_list_length_field(ts: Seq<TermV>, f: EncodeFlags)
    requires
        wf_term(TermV::List(ts), f),
    ensures
        from_be32(
            enc_term(TermV::List(ts), f)[1],
            enc_term(TermV::List(ts), f)[2],
            enc_term(TermV::List(ts), f)[3],
            enc_term(TermV::List(ts), f)[4],
        ) == ts.len() - 1,
{
    let e = enc_term(TermV::List(ts), f);
    let n = (ts.len() - 1) as nat;
    assert(e =~= seq![108u8] + (len32(n) + enc_terms(ts, f)));
    lemma_len32(n);
    assert(e[1] == len32(n)[0] && e[2] == len32(n)[1] && e[3] == len32(n)[2] && e[4] == len32(
        n,
    )[3]);
}

/// A list encoded with its trailing `Nil` decodes back to a sequence whose
/// last element is that `Nil`.
pub proof fn lemma_list_trailing_nil(ts: Seq<TermV>, f: EncodeFlags)
    requires
        wf_term(TermV::List(ts), f),
        ts.last() == TermV::Nil,
    ensures
        dec_term(enc_term(TermV::List(ts), f)) matches Ok((t, n)) && t matches TermV::List(ts2)
            && ts2 == ts && ts2.last() == TermV::Nil,
{
    lemma_round_trip(TermV::List(ts), f);
}

/// Tag rejection: a first byte outside the closed tag table — anything but
/// 70, 77 and 97 through 119 — is rejected as `UnknownTag` of that byte.
pub proof fn lemma_unknown_tag(b: Seq<u8>)
    requires
        b.len() >= 1,
        !(b[0] == 70 || b[0] == 77 || (97 <= b[0] && b[0] <= 119)),
    ensures
        dec_term(b) == Err::<(TermV, nat), Error>(Error::UnknownTag(b[0])),
{
    lemma_valid_tag_bytes(b[0]);
}

/// Atom family selection: with the short-atom option an atom whose text
/// fits one length byte gets the short tag of the chosen family; longer
/// text always gets the two-byte-length tag, whatever the option says.
pub proof fn lemma_atom_family(cs: Seq<char>, f: EncodeFlags)
    ensures
        enc_term(TermV::Atom(cs), f) == enc_atom(cs, f),
        (f.small_atoms && encode_utf8(cs).len() <= 255) ==> enc_atom(cs, f)[0] == (
        if f.utf8_atoms {
            119u8
        } else {
            115u8
        }),
        encode_utf8(cs).len() > 255 ==> enc_atom(cs, f)[0] == (
        if f.utf8_atoms {
            118u8
        } else {
            100u8
        }),
{
}

/// Big-integer selection and preservation: a magnitude that fits the
/// one-byte length field (up to 255 bytes) takes the one-byte-length tag,
/// any longer one the four-byte tag, and a
/// round trip preserves the sign and the exact magnitude bytes.
#[verifier::rlimit(100)]
#[verifier::spinoff_prover]
pub proof fn lemma_big_num_round_trip(negative: bool, magnitude: Seq<u8>, f: EncodeFlags)
    requires
        magnitude.len() <= 0xFFFF_FFFF,
    ensures
        ({
            let t = TermV::BigNum(BigNumV { negative, magnitude });
            &&& enc_term(t, f)[0] == (if magnitude.len() <= 255 {
                110u8
            } else {
                111u8
            })
            &&& dec_term(enc_term(t, f)) == Ok::<(TermV, nat), Error>(
                (t, enc_term(t, f).len() as nat),
            )
        }),
{
    let t = TermV::BigNum(BigNumV { negative, magnitude });
    lemma_round_trip(t, f);
}

/// The size field an encoder writes for a current-format closure: the true
/// record size under the honest policy, zero under the placeholder policy.
#[verifier::rlimit(100)]
#[verifier::spinoff_prover]
proof fn lemma_new_fun_size_field(nf: NewFunV, f: EncodeFlags)
    requires
        f.fair_new_fun ==> enc_new_fun_body(nf, f).len() + 4 <= 0xFFFF_FFFF,
    ensures
        ({
            let e = enc_term(TermV::NewFun(nf), f);
            from_be32(e[1], e[2], e[3], e[4]) == if f.fair_new_fun {
                enc_new_fun_body(nf, f).len() + 4
            } else {
                0
            }
        }),
{
    let body = enc_new_fun_body(nf, f);
    let e = enc_term(TermV::NewFun(nf), f);
    if f.fair_new_fun {
        assert(e =~= seq![112u8] + (len32((body.len() + 4) as nat) + body));
        lemma_len32((body.len() + 4) as nat);
        assert(e[1] == len32((body.len() + 4) as nat)[0] && e[2] == len32(
            (body.len() + 4) as nat,
        )[1] && e[3] == len32((body.len() + 4) as nat)[2] && e[4] == len32(
            (body.len() + 4) as nat,
        )[3]);
    } else {
        assert(e =~= seq![112u8] + (be32(0) + body));
        lemma_be32_round_trip(0, 0, 0, 0, 0);
        assert(e[1] == be32(0)[0] && e[2] == be32(0)[1] && e[3] == be32(0)[2] && e[4] == be32(
            0,
        )[3]);
    }
}

/// The shape of a current-format closure record: the tag byte, four size
/// bytes, then the body.
#[verifier::rlimit(100)]
#[verifier::spinoff_prover]
proof fn lemma_new_fun_record_layout(nf: NewFunV, f: EncodeFlags)
    requires
        f.fair_new_fun ==> enc_new_fun_body(nf, f).len() + 4 <= 0xFFFF_FFFF,
    ensures
        ({
            let t = TermV::NewFun(nf);
            &&& enc_term(t, f)[0] == 112
            &&& enc_term(t, f).len() == 5 + enc_new_fun_body(nf, f).len()
            &&& enc_term(t, f).subrange(5, enc_term(t, f).len() as int) == enc_new_fun_body(
                nf,
                f,
            )
        }),
{
    let t = TermV::NewFun(nf);
    let body = enc_new_fun_body(nf, f);
    if f.fair_new_fun {
        let size = len32((body.len() + 4) as nat);
        assert(size.len() == 4) by {
            lemma_len32((body.len() + 4) as nat);
        }
        assert(enc_term(t, f) =~= seq![112u8] + (size + body));
        assert(enc_term(t, f).subrange(5, enc_term(t, f).len() as int) =~= body);
    } else {
        assert(enc_term(t, f) =~= seq![112u8] + (be32(0) + body));
        assert(enc_term(t, f).subrange(5, enc_term(t, f).len() as int) =~= body);
    }
}

/// The two closure size policies agree on everything but the size field:
/// with the honest policy the field carries the record's true size, with
/// the placeholder policy it is zero, and both encodings decode to the same
/// closure.
pub proof fn lemma_new_fun_size_policies(nf: NewFunV, ff: EncodeFlags, fz: EncodeFlags)
    requires
        ff.fair_new_fun,
        !fz.fair_new_fun,
        wf_term(TermV::NewFun(nf), ff),
        wf_term(TermV::NewFun(nf), fz),
    ensures
        ({
            let t = TermV::NewFun(nf);
            &&& dec_term(enc_term(t, ff)) == Ok::<(TermV, nat), Error>(
                (t, enc_term(t, ff).len() as nat),
            )
            &&& dec_term(enc_term(t, fz)) == Ok::<(TermV, nat), Error>(
                (t, enc_term(t, fz).len() as nat),
            )
            &&& from_be32(
                enc_term(t, ff)[1],
                enc_term(t, ff)[2],
                enc_term(t, ff)[3],
                enc_term(t, ff)[4],
            ) == enc_new_fun_body(nf, ff).len() + 4
            &&& from_be32(
                enc_term(t, fz)[1],
                enc_term(t, fz)[2],
                enc_term(t, fz)[3],
                enc_term(t, fz)[4],
            ) == 0
            &&& enc_term(t, ff)[0] == 112 && enc_term(t, fz)[0] == 112
            &&& enc_term(t, ff).len() == 5 + enc_new_fun_body(nf, ff).len()
            &&& enc_term(t, fz).len() == 5 + enc_new_fun_body(nf, fz).len()
            &&& enc_term(t, ff).subrange(5, enc_term(t, ff).len() as int) == enc_new_fun_body(
                nf,
                ff,
            )
            &&& enc_term(t, fz).subrange(5, enc_term(t, fz).len() as int) == enc_new_fun_body(
                nf,
                fz,
            )
        }),
{
    let t = TermV::NewFun(nf);
    lemma_round_trip(t, ff);
    lemma_round_trip(t, fz);
    lemma_new_fun_size_field(nf, ff);
    lemma_new_fun_size_field(nf, fz);
    lemma_new_fun_record_layout(nf, ff);
    lemma_new_fun_record_layout(nf, fz);
}

/// Decoding any list record keeps its tail term as the last element: the
/// first N records parse on their own, the tail record parses from what
/// they leave to exactly the last element, and when that tail record is the
/// one-byte Nil record the decoded sequence ends in `Nil`.
#[verifier::rlimit(100)]
#[verifier::spinoff_prover]
pub proof fn lemma_list_decode_tail_record(b: Seq<u8>)
    requires
        b.len() >= 5,
        b[0] == 108,
        dec_term(b) is Ok,
    ensures
        dec_term(b) matches Ok((t, c)) && t matches TermV::List(ts) && ({
            let inner = after(b, 5);
            let n = (from_be32(b[1], b[2], b[3], b[4]) + 1) as nat;
            &&& ts.len() == n
            &&& dec_terms(inner, (n - 1) as nat) matches Ok((front, c1)) && front == ts.subrange(
                0,
                n - 1,
            ) && (dec_term(after(inner, c1)) matches Ok((last, k)) && last == ts[n - 1] && (after(
                inner,
                c1,
            )[0] == 106 ==> ts.last() == TermV::Nil))
        }),
{
    reveal(crate::wire::dec_list);
    let body = after(b, 1);
    assert(body[0] == b[1] && body[1] == b[2] && body[2] == b[3] && body[3] == b[4]);
    let n = (from_be32(b[1], b[2], b[3], b[4]) + 1) as nat;
    lemma_after_after(b, 1, 4);
    assert(after(body, 4) == after(b, 5));
    match dec_terms(after(b, 5), n) {
        Ok((ts, m)) => {
            lemma_dec_terms_len(after(b, 5), n);
            lemma_dec_terms_unsnoc(after(b, 5), n, ts, m);
            match dec_terms(after(b, 5), (n - 1) as nat) {
                Ok((front, c1)) => {
                    match dec_term(after(after(b, 5), c1)) {
                        Ok((last, k)) => {
                            assert(ts.last() == ts[n - 1]);
                        },
                        Err(_) => {
                            assert(false);
                        },
                    }
                },
                Err(_) => {
                    assert(false);
                },
            }
        },
        Err(_) => {
            assert(false);
        },
    }
}

/// The decoder reads and ignores the size field of a current-format closure
/// record: two streams that differ only in those four bytes decode to the
/// same term, consuming the same count.
pub proof fn lemma_new_fun_decode_ignores_size(s1: Seq<u8>, s2: Seq<u8>, tail: Seq<u8>)
    requires
        s1.len() == 4,
        s2.len() == 4,
    ensures
        dec_term(seq![112u8] + s1 + tail) == dec_term(seq![112u8] + s2 + tail),
{
    reveal(crate::wire::dec_new_fun);
    let b1 = seq![112u8] + s1 + tail;
    let b2 = seq![112u8] + s2 + tail;
    assert(b1[0] == 112u8 && b2[0] == 112u8);
    assert(after(b1, 1) =~= s1 + tail);
    assert(after(b2, 1) =~= s2 + tail);
    lemma_new_fun_size_ignored(s1, s2, tail);
    assert(dec_new_fun(after(b1, 1)) == dec_new_fun(after(b2, 1)));
    assert(dec_body(ErlTermTag::NEW_FUN_EXT, after(b1, 1)) == dec_new_fun(after(b1, 1)));
    assert(dec_body(ErlTermTag::NEW_FUN_EXT, after(b2, 1)) == dec_new_fun(after(b2, 1)));
    assert(dec_body(ErlTermTag::NEW_FUN_EXT, after(b1, 1)) == dec_body(
        ErlTermTag::NEW_FUN_EXT,
        after(b2, 1),
    ));
    match dec_body(ErlTermTag::NEW_FUN_EXT, after(b1, 1)) {
        Ok(v) => {
            assert(dec_term(b1) == Ok::<(TermV, nat), Error>((v.0, (1 + v.1) as nat)));
            assert(dec_term(b2) == Ok::<(TermV, nat), Error>((v.0, (1 + v.1) as nat)));
        },
        Err(e) => {
            assert(dec_term(b1) == Err::<(TermV, nat), Error>(e));
            assert(dec_term(b2) == Err::<(TermV, nat), Error>(e));
        },
    }
}

} // verus!
