//! The decoder: walks a byte slice and rebuilds the term it spells. Every
//! method is specified against the wire-format functions of the `wire`
//! module, so that what a method returns is exactly what the format says the
//! bytes mean.

use crate::term::{
    lemma_pairs_view_empty, lemma_pairs_view_push, lemma_terms_view_empty, lemma_terms_view_push,
    pairs_view, terms_view, BigNum, BitBinary, DecodeResult, ErlTermTag, Error, Eterm, Export,
    Fun, NewFun, Pid, Port, Reference, TermV,
};
use crate::text::string_from_utf8;
use crate::wire::{
    after, dec_any_atom, dec_atom_long, dec_atom_short, dec_big, dec_body, dec_compact_u32, dec_fun, dec_new_fun,
    dec_fun_tail, dec_new_fun_tail, dec_pairs, dec_pid_body, dec_required_pid, dec_required_small_integer, dec_term, dec_terms,
    from_be16, from_be32, from_be64, i32_of_u32, lemma_after_zero, lemma_dec_pairs_snoc,
    lemma_dec_pairs_stuck_key, lemma_dec_pairs_stuck_val, lemma_dec_terms_snoc,
    lemma_dec_terms_stuck, tag_of_byte, PRELUDE_BYTE,
};
use vstd::prelude::*;

verus! {

/// A decoder over a borrowed byte slice; `pos` is how many bytes have been
/// consumed so far.
pub struct Decoder<'a> {
    rdr: &'a [u8],
    pos: usize,
}

impl<'a> Decoder<'a> {
    /// The input bytes.
    pub closed spec fn input(&self) -> Seq<u8> {
        self.rdr@
    }

    /// How many bytes have been consumed so far.
    pub closed spec fn offset(&self) -> nat {
        self.pos as nat
    }

    /// The decoder's one invariant: the cursor never passes the end.
    pub open spec fn wf(&self) -> bool {
        self.offset() <= self.input().len()
    }

    /// The bytes not yet consumed.
    pub open spec fn remaining(&self) -> Seq<u8> {
        self.input().subrange(self.offset() as int, self.input().len() as int)
    }

    /// What holds after a decoding step that promised the specification
    /// outcome `sr`: on success the returned term's view and the consumed
    /// byte count are the specified ones; on failure the specified error is
    /// returned. The input is never written, and the cursor never moves
    /// backwards.
    pub open spec fn stepped(pre: Self, post: Self, sr: Result<(TermV, nat), Error>, r: DecodeResult) -> bool {
        &&& post.wf()
        &&& post.input() == pre.input()
        &&& pre.offset() <= post.offset()
        &&& match r {
            Ok(t) => sr matches Ok((tv, k)) && tv == t@ && post.offset() == pre.offset() + k,
            Err(e) => sr matches Err(e2) && e2 == e,
        }
    }

    pub fn new(rdr: &'a [u8]) -> (r: Decoder<'a>)
        ensures
            r.wf(),
            r.input() == rdr@,
            r.offset() == 0,
    {
        Decoder { rdr, pos: 0 }
    }

    /// Reads the one-byte stream prelude and reports whether it is the
    /// format marker.
    pub fn read_prelude(&mut self) -> (r: Result<bool, Error>)
        requires
            old(self).wf(),
        ensures
            final(self).wf(),
            final(self).input() == old(self).input(),
            old(self).remaining().len() == 0 ==> r == Err::<bool, Error>(
                Error::ByteorderUnexpectedEOF,
            ) && final(self).offset() == old(self).offset(),
            old(self).remaining().len() > 0 ==> r == Ok::<bool, Error>(
                old(self).remaining()[0] == PRELUDE_BYTE,
            ) && final(self).offset() == old(self).offset() + 1,
    {
        match self.read_u8() {
            Ok(b) => Ok(b == PRELUDE_BYTE),
            Err(e) => Err(e),
        }
    }

    /// Reads one byte.
    fn read_u8(&mut self) -> (r: Result<u8, Error>)
        requires
            old(self).wf(),
        ensures
            final(self).wf(),
            final(self).input() == old(self).input(),
            old(self).remaining().len() == 0 ==> r == Err::<u8, Error>(
                Error::ByteorderUnexpectedEOF,
            ) && final(self).offset() == old(self).offset(),
            old(self).remaining().len() > 0 ==> r == Ok::<u8, Error>(old(self).remaining()[0])
                && final(self).offset() == old(self).offset() + 1,
    {
        if self.pos < self.rdr.len() {
            let b = self.rdr[self.pos];
            self.pos = self.pos + 1;
            Ok(b)
        } else {
            Err(Error::ByteorderUnexpectedEOF)
        }
    }

    /// Reads exactly `n` bytes into an owned vector.
    fn read_exact(&mut self, n: usize) -> (r: Result<Vec<u8>, Error>)
        requires
            old(self).wf(),
        ensures
            final(self).wf(),
            final(self).input() == old(self).input(),
            old(self).offset() <= final(self).offset(),
            old(self).remaining().len() < n ==> r == Err::<Vec<u8>, Error>(
                Error::ByteorderUnexpectedEOF,
            ) && final(self).offset() == old(self).offset(),
            old(self).remaining().len() >= n ==> (r matches Ok(v) && v@ == old(
                self,
            ).remaining().subrange(0, n as int) && final(self).offset() == old(self).offset() + n),
    {
        if self.rdr.len() - self.pos < n {
            return Err(Error::ByteorderUnexpectedEOF);
        }
        let mut v: Vec<u8> = Vec::new();
        let mut i: usize = 0;
        while i < n
            invariant
                self.wf(),
                self.rdr@ == old(self).rdr@,
                self.pos == old(self).offset(),
                i <= n,
                n <= self.rdr@.len() - self.pos,
                self.rdr@.len() <= usize::MAX,
                v@ == old(self).remaining().subrange(0, i as int),
            decreases n - i,
        {
            v.push(self.rdr[self.pos + i]);
            i = i + 1;
            proof {
                assert(v@ =~= old(self).remaining().subrange(0, i as int));
            }
        }
        self.pos = self.pos + n;
        Ok(v)
    }

    /// Reads a two-byte big-endian unsigned value.
    fn read_u16_be(&mut self) -> (r: Result<u16, Error>)
        requires
            old(self).wf(),
        ensures
            final(self).wf(),
            final(self).input() == old(self).input(),
            old(self).offset() <= final(self).offset(),
            old(self).remaining().len() < 2 ==> r == Err::<u16, Error>(
                Error::ByteorderUnexpectedEOF,
            ) && final(self).offset() == old(self).offset(),
            old(self).remaining().len() >= 2 ==> r == Ok::<u16, Error>(
                from_be16(old(self).remaining()[0], old(self).remaining()[1]),
            ) && final(self).offset() == old(self).offset() + 2,
    {
        if self.rdr.len() - self.pos < 2 {
            return Err(Error::ByteorderUnexpectedEOF);
        }
        let b1 = self.rdr[self.pos];
        let b0 = self.rdr[self.pos + 1];
        self.pos = self.pos + 2;
        Ok((b1 as u16) * 0x100 + (b0 as u16))
    }

    /// Reads a four-byte big-endian unsigned value.
    fn read_u32_be(&mut self) -> (r: Result<u32, Error>)
        requires
            old(self).wf(),
        ensures
            final(self).wf(),
            final(self).input() == old(self).input(),
            old(self).offset() <= final(self).offset(),
            old(self).remaining().len() < 4 ==> r == Err::<u32, Error>(
                Error::ByteorderUnexpectedEOF,
            ) && final(self).offset() == old(self).offset(),
            old(self).remaining().len() >= 4 ==> r == Ok::<u32, Error>(
                from_be32(
                    old(self).remaining()[0],
                    old(self).remaining()[1],
                    old(self).remaining()[2],
                    old(self).remaining()[3],
                ),
            ) && final(self).offset() == old(self).offset() + 4,
    {
        if self.rdr.len() - self.pos < 4 {
            return Err(Error::ByteorderUnexpectedEOF);
        }
        let b3 = self.rdr[self.pos];
        let b2 = self.rdr[self.pos + 1];
        let b1 = self.rdr[self.pos + 2];
        let b0 = self.rdr[self.pos + 3];
        self.pos = self.pos + 4;
        let hi = (b3 as u16) * 0x100 + (b2 as u16);
        let lo = (b1 as u16) * 0x100 + (b0 as u16);
        Ok((hi as u32) * 0x1_0000 + (lo as u32))
    }

    /// Reads an eight-byte big-endian unsigned value.
    fn read_u64_be(&mut self) -> (r: Result<u64, Error>)
        requires
            old(self).wf(),
        ensures
            final(self).wf(),
            final(self).input() == old(self).input(),
            old(self).offset() <= final(self).offset(),
            old(self).remaining().len() < 8 ==> r == Err::<u64, Error>(
                Error::ByteorderUnexpectedEOF,
            ) && final(self).offset() == old(self).offset(),
            old(self).remaining().len() >= 8 ==> r == Ok::<u64, Error>(
                from_be64(
                    old(self).remaining()[0],
                    old(self).remaining()[1],
                    old(self).remaining()[2],
                    old(self).remaining()[3],
                    old(self).remaining()[4],
                    old(self).remaining()[5],
                    old(self).remaining()[6],
                    old(self).remaining()[7],
                ),
            ) && final(self).offset() == old(self).offset() + 8,
    {
        if self.rdr.len() - self.pos < 8 {
            return Err(Error::ByteorderUnexpectedEOF);
        }
        let hi = match self.read_u32_be() {
            Ok(x) => x,
            Err(e) => {
                return Err(e);
            },
        };
        let lo = match self.read_u32_be() {
            Ok(x) => x,
            Err(e) => {
                return Err(e);
            },
        };
        Ok((hi as u64) * 0x1_0000_0000 + (lo as u64))
    }

    /// Reads a four-byte big-endian signed value.
    fn read_i32_be(&mut self) -> (r: Result<i32, Error>)
        requires
            old(self).wf(),
        ensures
            final(self).wf(),
            final(self).input() == old(self).input(),
            old(self).offset() <= final(self).offset(),
            old(self).remaining().len() < 4 ==> r == Err::<i32, Error>(
                Error::ByteorderUnexpectedEOF,
            ) && final(self).offset() == old(self).offset(),
            old(self).remaining().len() >= 4 ==> r == Ok::<i32, Error>(
                i32_of_u32(
                    from_be32(
                        old(self).remaining()[0],
                        old(self).remaining()[1],
                        old(self).remaining()[2],
                        old(self).remaining()[3],
                    ),
                ),
            ) && final(self).offset() == old(self).offset() + 4,
    {
        let u = match self.read_u32_be() {
            Ok(x) => x,
            Err(e) => {
                return Err(e);
            },
        };
        if u < 0x8000_0000 {
            Ok(u as i32)
        } else {
            Ok(((u as i64) - 0x1_0000_0000) as i32)
        }
    }

    /// Reads a tag byte and maps it through the closed tag table.
    fn _decode_tag(&mut self) -> (r: Result<ErlTermTag, Error>)
        requires
            old(self).wf(),
        ensures
            final(self).wf(),
            final(self).input() == old(self).input(),
            old(self).offset() <= final(self).offset(),
            old(self).remaining().len() == 0 ==> r == Err::<ErlTermTag, Error>(
                Error::ByteorderUnexpectedEOF,
            ),
            old(self).remaining().len() > 0 ==> match tag_of_byte(old(self).remaining()[0]) {
                Some(t) => r == Ok::<ErlTermTag, Error>(t) && final(self).offset() == old(self).offset() + 1,
                None => r == Err::<ErlTermTag, Error>(
                    Error::UnknownTag(old(self).remaining()[0]),
                ),
            },
    {
        let int_tag = match self.read_u8() {
            Ok(b) => b,
            Err(e) => {
                return Err(e);
            },
        };
        match ErlTermTag::from_u8(int_tag) {
            Some(t) => Ok(t),
            None => Err(Error::UnknownTag(int_tag)),
        }
    }
}

impl ErlTermTag {
    /// The tag of a byte, through the closed tag table of the format.
    pub fn from_u8(t: u8) -> (r: Option<ErlTermTag>)
        ensures
            r == tag_of_byte(t),
    {
        match t {
            97u8 => Some(ErlTermTag::SMALL_INTEGER_EXT),
            98u8 => Some(ErlTermTag::INTEGER_EXT),
            99u8 => Some(ErlTermTag::FLOAT_EXT),
            100u8 => Some(ErlTermTag::ATOM_EXT),
            101u8 => Some(ErlTermTag::REFERENCE_EXT),
            102u8 => Some(ErlTermTag::PORT_EXT),
            103u8 => Some(ErlTermTag::PID_EXT),
            104u8 => Some(ErlTermTag::SMALL_TUPLE_EXT),
            105u8 => Some(ErlTermTag::LARGE_TUPLE_EXT),
            116u8 => Some(ErlTermTag::MAP_EXT),
            106u8 => Some(ErlTermTag::NIL_EXT),
            107u8 => Some(ErlTermTag::STRING_EXT),
            108u8 => Some(ErlTermTag::LIST_EXT),
            109u8 => Some(ErlTermTag::BINARY_EXT),
            110u8 => Some(ErlTermTag::SMALL_BIG_EXT),
            111u8 => Some(ErlTermTag::LARGE_BIG_EXT),
            114u8 => Some(ErlTermTag::NEW_REFERENCE_EXT),
            115u8 => Some(ErlTermTag::SMALL_ATOM_EXT),
            117u8 => Some(ErlTermTag::FUN_EXT),
            112u8 => Some(ErlTermTag::NEW_FUN_EXT),
            113u8 => Some(ErlTermTag::EXPORT_EXT),
            77u8 => Some(ErlTermTag::BIT_BINARY_EXT),
            70u8 => Some(ErlTermTag::NEW_FLOAT_EXT),
            118u8 => Some(ErlTermTag::ATOM_UTF8_EXT),
            119u8 => Some(ErlTermTag::SMALL_ATOM_UTF8_EXT),
            _ => None,
        }
    }
}

impl<'a> Decoder<'a> {
    /// Advancing the cursor consumes exactly the bytes in between.
    proof fn advance(d0: Self, d1: Self)
        requires
            d0.input() == d1.input(),
            d0.offset() <= d1.offset(),
            d1.wf(),
        ensures
            after(d0.remaining(), (d1.offset() - d0.offset()) as nat) == d1.remaining(),
    {
        assert(after(d0.remaining(), (d1.offset() - d0.offset()) as nat) =~= d1.remaining());
    }

    /// Reads `len` bytes and validates them as UTF-8 text.
    fn _read_str(&mut self, len: usize) -> (r: Result<String, Error>)
        requires
            old(self).wf(),
        ensures
            final(self).wf(),
            final(self).input() == old(self).input(),
            old(self).offset() <= final(self).offset(),
            old(self).remaining().len() < len ==> (r matches Err(e) && e
                == Error::ByteorderUnexpectedEOF),
            old(self).remaining().len() >= len ==> {
                let bs = old(self).remaining().subrange(0, len as int);
                if vstd::utf8::valid_utf8(bs) {
                    r matches Ok(t) && t@ == vstd::utf8::decode_utf8(bs) && final(self).offset()
                        == old(self).offset() + len
                } else {
                    r matches Err(e) && e == Error::Io
                }
            },
    {
        let bytes = match self.read_exact(len) {
            Ok(v) => v,
            Err(e) => {
                return Err(e);
            },
        };
        match string_from_utf8(bytes) {
            Some(t) => Ok(t),
            None => Err(Error::Io),
        }
    }

    /// Reads one atom record whose tag has already been consumed and mapped;
    /// `short` selects the one-byte length field family.
    fn _read_atom_body(&mut self, short: bool) -> (r: Result<String, Error>)
        requires
            old(self).wf(),
        ensures
            final(self).wf(),
            final(self).input() == old(self).input(),
            old(self).offset() <= final(self).offset(),
            ({
                let sr = if short {
                    dec_atom_short(old(self).remaining())
                } else {
                    dec_atom_long(old(self).remaining())
                };
                match r {
                    Ok(t) => sr matches Ok((cs, k)) && t@ == cs && final(self).offset() == old(
                        self,
                    ).offset() + k,
                    Err(e) => sr matches Err(e2) && e2 == e,
                }
            }),
    {
        proof {
            reveal(crate::wire::dec_atom_long);
            reveal(crate::wire::dec_atom_short);
        }
        let ghost d0 = *self;
        let len: usize = if short {
            match self.read_u8() {
                Ok(n) => n as usize,
                Err(e) => {
                    return Err(e);
                },
            }
        } else {
            match self.read_u16_be() {
                Ok(n) => n as usize,
                Err(e) => {
                    return Err(e);
                },
            }
        };
        let ghost dpre = *self;
        proof {
            Self::advance(d0, dpre);
            if len <= dpre.remaining().len() {
                assert(dpre.remaining().subrange(0, len as int) =~= d0.remaining().subrange(
                    if short { 1int } else { 2int },
                    (if short { 1int } else { 2int }) + len,
                ));
            }
        }
        self._read_str(len)
    }

    /// Reads one full atom record: any of the four atom tags is accepted,
    /// any other tag is a structural error.
    fn _decode_any_atom(&mut self) -> (r: Result<String, Error>)
        requires
            old(self).wf(),
        ensures
            final(self).wf(),
            final(self).input() == old(self).input(),
            old(self).offset() <= final(self).offset(),
            match r {
                Ok(t) => dec_any_atom(old(self).remaining()) matches Ok((cs, k)) && t@ == cs
                    && final(self).offset() == old(self).offset() + k,
                Err(e) => dec_any_atom(old(self).remaining()) matches Err(e2) && e2 == e,
            },
    {
        proof {
            reveal(crate::wire::dec_any_atom);
            reveal(crate::wire::dec_atom_long);
            reveal(crate::wire::dec_atom_short);
        }
        let ghost d0 = *self;
        let tag = match self._decode_tag() {
            Ok(t) => t,
            Err(e) => {
                return Err(e);
            },
        };
        let ghost dpre = *self;
        proof {
            Self::advance(d0, dpre);
        }
        match tag {
            ErlTermTag::ATOM_EXT | ErlTermTag::ATOM_UTF8_EXT => self._read_atom_body(false),
            ErlTermTag::SMALL_ATOM_EXT | ErlTermTag::SMALL_ATOM_UTF8_EXT => self._read_atom_body(
                true,
            ),
            t => Err(Error::UnexpectedTerm(t)),
        }
    }

    /// Reads the fields of a process identifier, the node atom included.
    fn _decode_pid_fields(&mut self) -> (r: Result<Pid, Error>)
        requires
            old(self).wf(),
        ensures
            final(self).wf(),
            final(self).input() == old(self).input(),
            old(self).offset() <= final(self).offset(),
            match r {
                Ok(p) => dec_pid_body(old(self).remaining()) matches Ok((pv, k)) && p@ == pv
                    && final(self).offset() == old(self).offset() + k,
                Err(e) => dec_pid_body(old(self).remaining()) matches Err(e2) && e2 == e,
            },
    {
        proof {
            reveal(crate::wire::dec_pid_body);
        }
        let ghost d0 = *self;
        let node = match self._decode_any_atom() {
            Ok(s) => s,
            Err(e) => {
                return Err(e);
            },
        };
        let ghost dpre = *self;
        proof {
            Self::advance(d0, dpre);
        }
        let id = match self.read_u32_be() {
            Ok(x) => x,
            Err(e) => {
                return Err(e);
            },
        };
        let serial = match self.read_u32_be() {
            Ok(x) => x,
            Err(e) => {
                return Err(e);
            },
        };
        let creation = match self.read_u8() {
            Ok(x) => x,
            Err(e) => {
                return Err(e);
            },
        };
        Ok(Pid { node, id, serial, creation })
    }

    /// Reads one full term record that must be a process identifier.
    fn _decode_required_pid(&mut self) -> (r: Result<Pid, Error>)
        requires
            old(self).wf(),
        ensures
            final(self).wf(),
            final(self).input() == old(self).input(),
            old(self).offset() <= final(self).offset(),
            match r {
                Ok(p) => dec_required_pid(old(self).remaining()) matches Ok((pv, k)) && p@ == pv
                    && final(self).offset() == old(self).offset() + k,
                Err(e) => dec_required_pid(old(self).remaining()) matches Err(e2) && e2 == e,
            },
    {
        proof {
            reveal(crate::wire::dec_required_pid);
        }
        let ghost d0 = *self;
        let tag = match self._decode_tag() {
            Ok(t) => t,
            Err(e) => {
                return Err(e);
            },
        };
        let ghost dpre = *self;
        proof {
            Self::advance(d0, dpre);
        }
        match tag {
            ErlTermTag::PID_EXT => self._decode_pid_fields(),
            t => Err(Error::UnexpectedTerm(t)),
        }
    }

    /// Reads one full term record that must be a one-byte or four-byte
    /// integer, as an unsigned 32-bit value.
    fn _decode_compact_u32(&mut self) -> (r: Result<u32, Error>)
        requires
            old(self).wf(),
        ensures
            final(self).wf(),
            final(self).input() == old(self).input(),
            old(self).offset() <= final(self).offset(),
            match r {
                Ok(x) => dec_compact_u32(old(self).remaining()) matches Ok((xv, k)) && x == xv
                    && final(self).offset() == old(self).offset() + k,
                Err(e) => dec_compact_u32(old(self).remaining()) matches Err(e2) && e2 == e,
            },
    {
        proof {
            reveal(crate::wire::dec_compact_u32);
        }
        let ghost d0 = *self;
        let tag = match self._decode_tag() {
            Ok(t) => t,
            Err(e) => {
                return Err(e);
            },
        };
        let ghost dpre = *self;
        proof {
            Self::advance(d0, dpre);
        }
        match tag {
            ErlTermTag::SMALL_INTEGER_EXT => match self.read_u8() {
                Ok(n) => Ok(n as u32),
                Err(e) => Err(e),
            },
            ErlTermTag::INTEGER_EXT => self.read_u32_be(),
            t => Err(Error::UnexpectedTerm(t)),
        }
    }

    /// Reads one full term record that must be a one-byte integer.
    fn _decode_required_small_integer(&mut self) -> (r: Result<u8, Error>)
        requires
            old(self).wf(),
        ensures
            final(self).wf(),
            final(self).input() == old(self).input(),
            old(self).offset() <= final(self).offset(),
            match r {
                Ok(x) => dec_required_small_integer(old(self).remaining()) matches Ok((xv, k))
                    && x == xv && final(self).offset() == old(self).offset() + k,
                Err(e) => dec_required_small_integer(old(self).remaining()) matches Err(e2) && e2
                    == e,
            },
    {
        proof {
            reveal(crate::wire::dec_required_small_integer);
        }
        let ghost d0 = *self;
        let tag = match self._decode_tag() {
            Ok(t) => t,
            Err(e) => {
                return Err(e);
            },
        };
        let ghost dpre = *self;
        proof {
            Self::advance(d0, dpre);
        }
        match tag {
            ErlTermTag::SMALL_INTEGER_EXT => self.read_u8(),
            t => Err(Error::UnexpectedTerm(t)),
        }
    }

    fn decode_small_integer(&mut self) -> (r: DecodeResult)
        requires
            old(self).wf(),
        ensures
            Self::stepped(
                *old(self),
                *final(self),
                dec_body(ErlTermTag::SMALL_INTEGER_EXT, old(self).remaining()),
                r,
            ),
    {
        match self.read_u8() {
            Ok(n) => Ok(Eterm::SmallInteger(n)),
            Err(e) => Err(e),
        }
    }

    fn decode_integer(&mut self) -> (r: DecodeResult)
        requires
            old(self).wf(),
        ensures
            Self::stepped(
                *old(self),
                *final(self),
                dec_body(ErlTermTag::INTEGER_EXT, old(self).remaining()),
                r,
            ),
    {
        match self.read_i32_be() {
            Ok(n) => Ok(Eterm::Integer(n)),
            Err(e) => Err(e),
        }
    }

    /// Reads a legacy text-encoded float record. The text form needs
    /// floating-point parsing, which this codec keeps outside its model, so
    /// the record is consumed and reported as `BadFloat`; the eight-byte
    /// float records round-trip exactly through `Eterm::Float`.
    fn decode_float(&mut self) -> (r: DecodeResult)
        requires
            old(self).wf(),
        ensures
            Self::stepped(
                *old(self),
                *final(self),
                dec_body(ErlTermTag::FLOAT_EXT, old(self).remaining()),
                r,
            ),
    {
        match self.read_exact(31) {
            Ok(_) => Err(Error::BadFloat),
            Err(e) => Err(e),
        }
    }

    fn decode_atom(&mut self) -> (r: DecodeResult)
        requires
            old(self).wf(),
        ensures
            Self::stepped(
                *old(self),
                *final(self),
                dec_body(ErlTermTag::ATOM_EXT, old(self).remaining()),
                r,
            ),
    {
        proof {
            reveal(crate::wire::dec_atom_long);
        }
        match self._read_atom_body(false) {
            Ok(t) => Ok(Eterm::Atom(t)),
            Err(e) => Err(e),
        }
    }

    fn decode_small_atom(&mut self) -> (r: DecodeResult)
        requires
            old(self).wf(),
        ensures
            Self::stepped(
                *old(self),
                *final(self),
                dec_body(ErlTermTag::SMALL_ATOM_EXT, old(self).remaining()),
                r,
            ),
    {
        proof {
            reveal(crate::wire::dec_atom_short);
        }
        match self._read_atom_body(true) {
            Ok(t) => Ok(Eterm::Atom(t)),
            Err(e) => Err(e),
        }
    }

    fn decode_reference(&mut self) -> (r: DecodeResult)
        requires
            old(self).wf(),
        ensures
            Self::stepped(
                *old(self),
                *final(self),
                dec_body(ErlTermTag::REFERENCE_EXT, old(self).remaining()),
                r,
            ),
    {
        proof {
            reveal(crate::wire::dec_reference);
        }
        let ghost d0 = *self;
        let node = match self._decode_any_atom() {
            Ok(s) => s,
            Err(e) => {
                return Err(e);
            },
        };
        let ghost dpre = *self;
        proof {
            Self::advance(d0, dpre);
        }
        let id = match self.read_exact(4) {
            Ok(v) => v,
            Err(e) => {
                return Err(e);
            },
        };
        let creation = match self.read_u8() {
            Ok(x) => x,
            Err(e) => {
                return Err(e);
            },
        };
        proof {
            assert(id@ =~= dpre.remaining().subrange(0, 4));
            assert(dpre.remaining()[4] == creation);
        }
        Ok(Eterm::Reference(Reference { node, id, creation }))
    }

    #[verifier::rlimit(50)]
    fn decode_new_reference(&mut self) -> (r: DecodeResult)
        requires
            old(self).wf(),
        ensures
            Self::stepped(
                *old(self),
                *final(self),
                dec_body(ErlTermTag::NEW_REFERENCE_EXT, old(self).remaining()),
                r,
            ),
    {
        proof {
            reveal(crate::wire::dec_new_reference);
        }
        let ghost d0 = *self;
        let len = match self.read_u16_be() {
            Ok(x) => x,
            Err(e) => {
                return Err(e);
            },
        };
        let ghost d1 = *self;
        proof {
            Self::advance(d0, d1);
        }
        let node = match self._decode_any_atom() {
            Ok(s) => s,
            Err(e) => {
                return Err(e);
            },
        };
        let ghost d2 = *self;
        proof {
            Self::advance(d1, d2);
            Self::advance(d0, d2);
        }
        let creation = match self.read_u8() {
            Ok(x) => x,
            Err(e) => {
                return Err(e);
            },
        };
        let id = match self.read_exact(4 * (len as usize)) {
            Ok(v) => v,
            Err(e) => {
                return Err(e);
            },
        };
        proof {
            assert(id@ =~= d2.remaining().subrange(1, 1 + 4 * (len as int)));
        }
        Ok(Eterm::Reference(Reference { node, id, creation }))
    }

    fn decode_port(&mut self) -> (r: DecodeResult)
        requires
            old(self).wf(),
        ensures
            Self::stepped(
                *old(self),
                *final(self),
                dec_body(ErlTermTag::PORT_EXT, old(self).remaining()),
                r,
            ),
    {
        proof {
            reveal(crate::wire::dec_port);
        }
        let ghost d0 = *self;
        let node = match self._decode_any_atom() {
            Ok(s) => s,
            Err(e) => {
                return Err(e);
            },
        };
        let ghost dpre = *self;
        proof {
            Self::advance(d0, dpre);
        }
        let id = match self.read_u32_be() {
            Ok(x) => x,
            Err(e) => {
                return Err(e);
            },
        };
        let creation = match self.read_u8() {
            Ok(x) => x,
            Err(e) => {
                return Err(e);
            },
        };
        Ok(Eterm::Port(Port { node, id, creation }))
    }

    fn decode_pid(&mut self) -> (r: DecodeResult)
        requires
            old(self).wf(),
        ensures
            Self::stepped(
                *old(self),
                *final(self),
                dec_body(ErlTermTag::PID_EXT, old(self).remaining()),
                r,
            ),
    {
        proof {
            reveal(crate::wire::dec_pid_body);
        }
        match self._decode_pid_fields() {
            Ok(p) => Ok(Eterm::Pid(p)),
            Err(e) => Err(e),
        }
    }

    fn decode_nil(&mut self) -> (r: DecodeResult)
        requires
            old(self).wf(),
        ensures
            Self::stepped(
                *old(self),
                *final(self),
                dec_body(ErlTermTag::NIL_EXT, old(self).remaining()),
                r,
            ),
    {
        Ok(Eterm::Nil)
    }

    fn decode_string(&mut self) -> (r: DecodeResult)
        requires
            old(self).wf(),
        ensures
            Self::stepped(
                *old(self),
                *final(self),
                dec_body(ErlTermTag::STRING_EXT, old(self).remaining()),
                r,
            ),
    {
        proof {
            reveal(crate::wire::dec_string_bytes);
        }
        let ghost d0 = *self;
        let len = match self.read_u16_be() {
            Ok(x) => x,
            Err(e) => {
                return Err(e);
            },
        };
        let ghost dpre = *self;
        let data = match self.read_exact(len as usize) {
            Ok(v) => v,
            Err(e) => {
                return Err(e);
            },
        };
        proof {
            Self::advance(d0, dpre);
            assert(data@ =~= d0.remaining().subrange(2, 2 + (len as int)));
        }
        Ok(Eterm::String(data))
    }

    fn decode_binary(&mut self) -> (r: DecodeResult)
        requires
            old(self).wf(),
        ensures
            Self::stepped(
                *old(self),
                *final(self),
                dec_body(ErlTermTag::BINARY_EXT, old(self).remaining()),
                r,
            ),
    {
        proof {
            reveal(crate::wire::dec_binary);
        }
        let ghost d0 = *self;
        let len = match self.read_u32_be() {
            Ok(x) => x,
            Err(e) => {
                return Err(e);
            },
        };
        let ghost dpre = *self;
        let data = match self.read_exact(len as usize) {
            Ok(v) => v,
            Err(e) => {
                return Err(e);
            },
        };
        proof {
            Self::advance(d0, dpre);
            assert(data@ =~= d0.remaining().subrange(4, 4 + (len as int)));
        }
        Ok(Eterm::Binary(data))
    }

    /// Reads the sign byte and `n` magnitude bytes of a big-integer record.
    fn _decode_big(&mut self, n: usize) -> (r: DecodeResult)
        requires
            old(self).wf(),
        ensures
            final(self).wf(),
            final(self).input() == old(self).input(),
            old(self).offset() <= final(self).offset(),
            match r {
                Ok(t) => dec_big(old(self).remaining(), n as nat) matches Ok((bv, k)) && t@
                    == TermV::BigNum(bv) && final(self).offset() == old(self).offset() + k,
                Err(e) => dec_big(old(self).remaining(), n as nat) matches Err(e2) && e2 == e,
            },
    {
        proof {
            reveal(crate::wire::dec_big);
        }
        let ghost d0 = *self;
        let sign_int = match self.read_u8() {
            Ok(x) => x,
            Err(e) => {
                return Err(e);
            },
        };
        let magnitude = match self.read_exact(n) {
            Ok(v) => v,
            Err(e) => {
                return Err(e);
            },
        };
        proof {
            assert(magnitude@ =~= d0.remaining().subrange(1, 1 + (n as int)));
        }
        Ok(Eterm::BigNum(BigNum { negative: sign_int != 0, magnitude }))
    }

    fn decode_small_big(&mut self) -> (r: DecodeResult)
        requires
            old(self).wf(),
        ensures
            Self::stepped(
                *old(self),
                *final(self),
                dec_body(ErlTermTag::SMALL_BIG_EXT, old(self).remaining()),
                r,
            ),
    {
        proof {
            reveal(crate::wire::dec_big);
        }
        let ghost d0 = *self;
        let n = match self.read_u8() {
            Ok(x) => x,
            Err(e) => {
                return Err(e);
            },
        };
        let ghost dpre = *self;
        proof {
            Self::advance(d0, dpre);
        }
        self._decode_big(n as usize)
    }

    fn decode_large_big(&mut self) -> (r: DecodeResult)
        requires
            old(self).wf(),
        ensures
            Self::stepped(
                *old(self),
                *final(self),
                dec_body(ErlTermTag::LARGE_BIG_EXT, old(self).remaining()),
                r,
            ),
    {
        proof {
            reveal(crate::wire::dec_big);
        }
        let ghost d0 = *self;
        let n = match self.read_u32_be() {
            Ok(x) => x,
            Err(e) => {
                return Err(e);
            },
        };
        let ghost dpre = *self;
        proof {
            Self::advance(d0, dpre);
        }
        self._decode_big(n as usize)
    }

    #[verifier::rlimit(50)]
    fn decode_export(&mut self) -> (r: DecodeResult)
        requires
            old(self).wf(),
        ensures
            Self::stepped(
                *old(self),
                *final(self),
                dec_body(ErlTermTag::EXPORT_EXT, old(self).remaining()),
                r,
            ),
    {
        proof {
            reveal(crate::wire::dec_export);
        }
        let ghost d0 = *self;
        let module = match self._decode_any_atom() {
            Ok(s) => s,
            Err(e) => {
                return Err(e);
            },
        };
        let ghost d1 = *self;
        proof {
            Self::advance(d0, d1);
        }
        let function = match self._decode_any_atom() {
            Ok(s) => s,
            Err(e) => {
                return Err(e);
            },
        };
        let ghost d2 = *self;
        proof {
            Self::advance(d1, d2);
            Self::advance(d0, d2);
        }
        let arity = match self._decode_required_small_integer() {
            Ok(x) => x,
            Err(e) => {
                return Err(e);
            },
        };
        Ok(Eterm::Export(Export { module, function, arity }))
    }

    fn decode_bit_binary(&mut self) -> (r: DecodeResult)
        requires
            old(self).wf(),
        ensures
            Self::stepped(
                *old(self),
                *final(self),
                dec_body(ErlTermTag::BIT_BINARY_EXT, old(self).remaining()),
                r,
            ),
    {
        proof {
            reveal(crate::wire::dec_bit_binary);
        }
        let ghost d0 = *self;
        let len = match self.read_u32_be() {
            Ok(x) => x,
            Err(e) => {
                return Err(e);
            },
        };
        let bits = match self.read_u8() {
            Ok(x) => x,
            Err(e) => {
                return Err(e);
            },
        };
        let ghost dpre = *self;
        let data = match self.read_exact(len as usize) {
            Ok(v) => v,
            Err(e) => {
                return Err(e);
            },
        };
        proof {
            Self::advance(d0, dpre);
            assert(data@ =~= d0.remaining().subrange(5, 5 + (len as int)));
        }
        Ok(Eterm::BitBinary(BitBinary { bits, data }))
    }

    fn decode_new_float(&mut self) -> (r: DecodeResult)
        requires
            old(self).wf(),
        ensures
            Self::stepped(
                *old(self),
                *final(self),
                dec_body(ErlTermTag::NEW_FLOAT_EXT, old(self).remaining()),
                r,
            ),
    {
        match self.read_u64_be() {
            Ok(bits) => Ok(Eterm::Float(bits)),
            Err(e) => Err(e),
        }
    }
}

impl<'a> Decoder<'a> {
    /// Decodes `n` consecutive term records into a vector.
    fn _decode_terms_into(&mut self, n: u64) -> (r: Result<Vec<Eterm>, Error>)
        requires
            old(self).wf(),
        ensures
            final(self).wf(),
            final(self).input() == old(self).input(),
            old(self).offset() <= final(self).offset(),
            match r {
                Ok(v) => dec_terms(old(self).remaining(), n as nat) matches Ok((vs, k)) && vs
                    == terms_view(v) && final(self).offset() == old(self).offset() + k,
                Err(e) => dec_terms(old(self).remaining(), n as nat) matches Err(e2) && e2 == e,
            },
        decreases self.input().len() - self.offset(), 4int,
    {
        let ghost d0 = *self;
        let mut vec: Vec<Eterm> = Vec::new();
        proof {
            lemma_terms_view_empty(vec);
        }
        let mut i: u64 = 0;
        while i < n
            invariant
                self.wf(),
                self.input() == d0.input(),
                d0.offset() <= self.offset(),
                d0.wf(),
                d0 == *old(self),
                i <= n,
                vec@.len() == i,
                dec_terms(d0.remaining(), i as nat) == Ok::<(Seq<TermV>, nat), Error>(
                    (terms_view(vec), (self.offset() - d0.offset()) as nat),
                ),
            decreases n - i,
        {
            let ghost dpre = *self;
            let ghost c = (dpre.offset() - d0.offset()) as nat;
            match self.decode_term() {
                Ok(t) => {
                    proof {
                        Self::advance(d0, dpre);
                        lemma_dec_terms_snoc(
                            d0.remaining(),
                            i as nat,
                            terms_view(vec),
                            c,
                            t@,
                            (self.offset() - dpre.offset()) as nat,
                        );
                    }
                    let ghost vec_before = vec;
                    vec.push(t);
                    proof {
                        lemma_terms_view_push(vec_before, vec, t);
                    }
                    i = i + 1;
                },
                Err(e) => {
                    proof {
                        Self::advance(d0, dpre);
                        lemma_dec_terms_stuck(
                            d0.remaining(),
                            i as nat,
                            terms_view(vec),
                            c,
                            n as nat,
                            e,
                        );
                    }
                    return Err(e);
                },
            }
        }
        Ok(vec)
    }

    /// Decodes `n` consecutive key-value pairs into a vector.
    fn _decode_pairs_into(&mut self, n: u64) -> (r: Result<Vec<(Eterm, Eterm)>, Error>)
        requires
            old(self).wf(),
        ensures
            final(self).wf(),
            final(self).input() == old(self).input(),
            old(self).offset() <= final(self).offset(),
            match r {
                Ok(v) => dec_pairs(old(self).remaining(), n as nat) matches Ok((ps, k)) && ps
                    == pairs_view(v) && final(self).offset() == old(self).offset() + k,
                Err(e) => dec_pairs(old(self).remaining(), n as nat) matches Err(e2) && e2 == e,
            },
        decreases self.input().len() - self.offset(), 4int,
    {
        let ghost d0 = *self;
        let mut vec: Vec<(Eterm, Eterm)> = Vec::new();
        proof {
            lemma_pairs_view_empty(vec);
        }
        let mut i: u64 = 0;
        while i < n
            invariant
                self.wf(),
                self.input() == d0.input(),
                d0.offset() <= self.offset(),
                d0.wf(),
                d0 == *old(self),
                i <= n,
                vec@.len() == i,
                dec_pairs(d0.remaining(), i as nat) == Ok::<(Seq<(TermV, TermV)>, nat), Error>(
                    (pairs_view(vec), (self.offset() - d0.offset()) as nat),
                ),
            decreases n - i,
        {
            let ghost dpre = *self;
            let ghost c = (dpre.offset() - d0.offset()) as nat;
            let key = match self.decode_term() {
                Ok(t) => t,
                Err(e) => {
                    proof {
                        Self::advance(d0, dpre);
                        lemma_dec_pairs_stuck_key(
                            d0.remaining(),
                            i as nat,
                            pairs_view(vec),
                            c,
                            n as nat,
                            e,
                        );
                    }
                    return Err(e);
                },
            };
            let ghost dmid = *self;
            let ghost k1 = (dmid.offset() - dpre.offset()) as nat;
            proof {
                Self::advance(d0, dpre);
                Self::advance(d0, dmid);
            }
            let val = match self.decode_term() {
                Ok(t) => t,
                Err(e) => {
                    proof {
                        lemma_dec_pairs_stuck_val(
                            d0.remaining(),
                            i as nat,
                            pairs_view(vec),
                            c,
                            key@,
                            k1,
                            n as nat,
                            e,
                        );
                    }
                    return Err(e);
                },
            };
            proof {
                lemma_dec_pairs_snoc(
                    d0.remaining(),
                    i as nat,
                    pairs_view(vec),
                    c,
                    key@,
                    k1,
                    val@,
                    (self.offset() - dmid.offset()) as nat,
                );
            }
            let ghost vec_before = vec;
            vec.push((key, val));
            proof {
                lemma_pairs_view_push(vec_before, vec, key, val);
            }
            i = i + 1;
        }
        Ok(vec)
    }

    fn decode_small_tuple(&mut self) -> (r: DecodeResult)
        requires
            old(self).wf(),
        ensures
            Self::stepped(
                *old(self),
                *final(self),
                dec_body(ErlTermTag::SMALL_TUPLE_EXT, old(self).remaining()),
                r,
            ),
        decreases self.input().len() - self.offset(), 0int,
    {
        proof {
            reveal(crate::wire::dec_small_tuple);
        }
        let ghost d0 = *self;
        let arity = match self.read_u8() {
            Ok(x) => x,
            Err(e) => {
                return Err(e);
            },
        };
        let ghost dpre = *self;
        proof {
            Self::advance(d0, dpre);
        }
        match self._decode_terms_into(arity as u64) {
            Ok(v) => Ok(Eterm::Tuple(v)),
            Err(e) => Err(e),
        }
    }

    fn decode_large_tuple(&mut self) -> (r: DecodeResult)
        requires
            old(self).wf(),
        ensures
            Self::stepped(
                *old(self),
                *final(self),
                dec_body(ErlTermTag::LARGE_TUPLE_EXT, old(self).remaining()),
                r,
            ),
        decreases self.input().len() - self.offset(), 0int,
    {
        proof {
            reveal(crate::wire::dec_large_tuple);
        }
        let ghost d0 = *self;
        let arity = match self.read_u32_be() {
            Ok(x) => x,
            Err(e) => {
                return Err(e);
            },
        };
        let ghost dpre = *self;
        proof {
            Self::advance(d0, dpre);
        }
        match self._decode_terms_into(arity as u64) {
            Ok(v) => Ok(Eterm::Tuple(v)),
            Err(e) => Err(e),
        }
    }

    fn decode_map(&mut self) -> (r: DecodeResult)
        requires
            old(self).wf(),
        ensures
            Self::stepped(
                *old(self),
                *final(self),
                dec_body(ErlTermTag::MAP_EXT, old(self).remaining()),
                r,
            ),
        decreases self.input().len() - self.offset(), 0int,
    {
        proof {
            reveal(crate::wire::dec_map);
        }
        let ghost d0 = *self;
        let arity = match self.read_u32_be() {
            Ok(x) => x,
            Err(e) => {
                return Err(e);
            },
        };
        let ghost dpre = *self;
        proof {
            Self::advance(d0, dpre);
        }
        match self._decode_pairs_into(arity as u64) {
            Ok(v) => Ok(Eterm::EMap(v)),
            Err(e) => Err(e),
        }
    }

    /// Reads a list record. The wire length field counts the proper
    /// elements; the record then carries one more term, the tail, which a
    /// proper list closes with `Nil`. The decoded sequence keeps that tail
    /// as its last element.
    fn decode_list(&mut self) -> (r: DecodeResult)
        requires
            old(self).wf(),
        ensures
            Self::stepped(
                *old(self),
                *final(self),
                dec_body(ErlTermTag::LIST_EXT, old(self).remaining()),
                r,
            ),
        decreases self.input().len() - self.offset(), 0int,
    {
        proof {
            reveal(crate::wire::dec_list);
        }
        let ghost d0 = *self;
        let len = match self.read_u32_be() {
            Ok(x) => x,
            Err(e) => {
                return Err(e);
            },
        };
        let ghost dpre = *self;
        proof {
            Self::advance(d0, dpre);
        }
        match self._decode_terms_into((len as u64) + 1) {
            Ok(v) => Ok(Eterm::List(v)),
            Err(e) => Err(e),
        }
    }

    #[verifier::rlimit(100)]
    #[verifier::spinoff_prover]
    fn decode_fun(&mut self) -> (r: DecodeResult)
        requires
            old(self).wf(),
        ensures
            Self::stepped(
                *old(self),
                *final(self),
                dec_fun(old(self).remaining()),
                r,
            ),
        decreases self.input().len() - self.offset(), 0int,
    {
        proof {
            reveal(crate::wire::dec_fun);
            reveal(crate::wire::dec_fun_tail);
        }
        let ghost d0 = *self;
        let num_free = match self.read_u32_be() {
            Ok(x) => x,
            Err(e) => {
                return Err(e);
            },
        };
        let ghost d1 = *self;
        proof {
            Self::advance(d0, d1);
        }
        let pid = match self._decode_required_pid() {
            Ok(p) => p,
            Err(e) => {
                return Err(e);
            },
        };
        let ghost d2 = *self;
        proof {
            Self::advance(d1, d2);
            Self::advance(d0, d2);
        }
        let module = match self._decode_any_atom() {
            Ok(s) => s,
            Err(e) => {
                return Err(e);
            },
        };
        let ghost d3 = *self;
        proof {
            Self::advance(d2, d3);
            Self::advance(d1, d3);
            Self::advance(d0, d3);
        }
        let index = match self._decode_compact_u32() {
            Ok(x) => x,
            Err(e) => {
                return Err(e);
            },
        };
        let ghost d4 = *self;
        proof {
            Self::advance(d3, d4);
            Self::advance(d1, d4);
            Self::advance(d0, d4);
        }
        let uniq = match self._decode_compact_u32() {
            Ok(x) => x,
            Err(e) => {
                return Err(e);
            },
        };
        let ghost d5 = *self;
        proof {
            Self::advance(d4, d5);
            Self::advance(d1, d5);
            Self::advance(d0, d5);
        }
        let free_vars = match self._decode_terms_into(num_free as u64) {
            Ok(v) => v,
            Err(e) => {
                return Err(e);
            },
        };
        let result = Eterm::Fun(Fun { pid, module, index, uniq, free_vars });
        proof {
            assert(dec_fun_tail(d1.remaining(), num_free as nat) == Ok::<(TermV, nat), Error>(
                (result@, (self.offset() - d1.offset()) as nat),
            ));
        }
        Ok(result)
    }

    /// Reads the fixed-width head of a current-format closure record: the
    /// ignored size field, the arity, the 16 digest bytes, the index and the
    /// free-variable count.
    fn _decode_new_fun_head(&mut self) -> (r: Result<(u8, Vec<u8>, u32, u32), Error>)
        requires
            old(self).wf(),
        ensures
            final(self).wf(),
            final(self).input() == old(self).input(),
            old(self).offset() <= final(self).offset(),
            match r {
                Ok(h) => old(self).remaining().len() >= 29 && h.0 == old(self).remaining()[4]
                    && h.1@ == old(self).remaining().subrange(5, 21) && h.2 == from_be32(
                    old(self).remaining()[21],
                    old(self).remaining()[22],
                    old(self).remaining()[23],
                    old(self).remaining()[24],
                ) && h.3 == from_be32(
                    old(self).remaining()[25],
                    old(self).remaining()[26],
                    old(self).remaining()[27],
                    old(self).remaining()[28],
                ) && final(self).offset() == old(self).offset() + 29,
                Err(e) => old(self).remaining().len() < 29 && e
                    == Error::ByteorderUnexpectedEOF,
            },
    {
        let ghost d0 = *self;
        let _size = match self.read_u32_be() {
            Ok(x) => x,
            Err(e) => {
                return Err(e);
            },
        };
        let arity = match self.read_u8() {
            Ok(x) => x,
            Err(e) => {
                return Err(e);
            },
        };
        let ghost du = *self;
        let uniq = match self.read_exact(16) {
            Ok(v) => v,
            Err(e) => {
                return Err(e);
            },
        };
        proof {
            Self::advance(d0, du);
            if du.remaining().len() >= 16 {
                assert(uniq@ =~= d0.remaining().subrange(5, 21));
            }
        }
        let index = match self.read_u32_be() {
            Ok(x) => x,
            Err(e) => {
                return Err(e);
            },
        };
        let nfree = match self.read_u32_be() {
            Ok(x) => x,
            Err(e) => {
                return Err(e);
            },
        };
        Ok((arity, uniq, index, nfree))
    }

    #[verifier::rlimit(100)]
    #[verifier::spinoff_prover]
    fn decode_new_fun(&mut self) -> (r: DecodeResult)
        requires
            old(self).wf(),
        ensures
            Self::stepped(
                *old(self),
                *final(self),
                dec_new_fun(old(self).remaining()),
                r,
            ),
        decreases self.input().len() - self.offset(), 0int,
    {
        proof {
            reveal(crate::wire::dec_new_fun);
            reveal(crate::wire::dec_new_fun_tail);
        }
        let ghost d0 = *self;
        let (arity, uniq, index, num_free) = match self._decode_new_fun_head() {
            Ok(h) => h,
            Err(e) => {
                return Err(e);
            },
        };
        let ghost d1 = *self;
        proof {
            Self::advance(d0, d1);
        }
        let module = match self._decode_any_atom() {
            Ok(s) => s,
            Err(e) => {
                proof {
                    assert(dec_new_fun_tail(d1.remaining(), arity, uniq@, index, num_free as nat)
                        == Err::<(TermV, nat), Error>(e));
                }
                return Err(e);
            },
        };
        let ghost d2 = *self;
        proof {
            Self::advance(d1, d2);
            Self::advance(d0, d2);
        }
        let old_index = match self._decode_compact_u32() {
            Ok(x) => x,
            Err(e) => {
                proof {
                    assert(dec_new_fun_tail(d1.remaining(), arity, uniq@, index, num_free as nat)
                        == Err::<(TermV, nat), Error>(e));
                }
                return Err(e);
            },
        };
        let ghost d3 = *self;
        proof {
            Self::advance(d2, d3);
            Self::advance(d1, d3);
            Self::advance(d0, d3);
        }
        let old_uniq = match self._decode_compact_u32() {
            Ok(x) => x,
            Err(e) => {
                proof {
                    assert(dec_new_fun_tail(d1.remaining(), arity, uniq@, index, num_free as nat)
                        == Err::<(TermV, nat), Error>(e));
                }
                return Err(e);
            },
        };
        let ghost d4 = *self;
        proof {
            Self::advance(d3, d4);
            Self::advance(d1, d4);
            Self::advance(d0, d4);
        }
        let pid = match self._decode_required_pid() {
            Ok(p) => p,
            Err(e) => {
                proof {
                    assert(dec_new_fun_tail(d1.remaining(), arity, uniq@, index, num_free as nat)
                        == Err::<(TermV, nat), Error>(e));
                }
                return Err(e);
            },
        };
        let ghost d5 = *self;
        proof {
            Self::advance(d4, d5);
            Self::advance(d1, d5);
            Self::advance(d0, d5);
        }
        let free_vars = match self._decode_terms_into(num_free as u64) {
            Ok(v) => v,
            Err(e) => {
                proof {
                    assert(dec_new_fun_tail(d1.remaining(), arity, uniq@, index, num_free as nat)
                        == Err::<(TermV, nat), Error>(e));
                }
                return Err(e);
            },
        };
        let result = Eterm::NewFun(
            NewFun { arity, uniq, index, module, old_index, old_uniq, pid, free_vars },
        );
        proof {
            assert(dec_new_fun_tail(
                d1.remaining(),
                arity,
                uniq@,
                index,
                num_free as nat,
            ) == Ok::<(TermV, nat), Error>((result@, (self.offset() - d1.offset()) as nat)));
        }
        Ok(result)
    }

    /// Reads one tag byte and the record it announces: one full term.
    pub fn decode_term(&mut self) -> (r: DecodeResult)
        requires
            old(self).wf(),
        ensures
            Self::stepped(*old(self), *final(self), dec_term(old(self).remaining()), r),
        decreases self.input().len() - self.offset(), 3int,
    {
        let ghost d0 = *self;
        let tag = match self._decode_tag() {
            Ok(t) => t,
            Err(e) => {
                return Err(e);
            },
        };
        let ghost dpre = *self;
        proof {
            Self::advance(d0, dpre);
        }
        self.decode_concrete_term(tag)
    }

    /// Reads the body of a term record whose tag byte was already consumed.
    /// Reads the body of a term record whose tag announces a container or
    /// closure: a record that carries nested term records.
    #[verifier::rlimit(100)]
    #[verifier::spinoff_prover]
    fn decode_composite_term(&mut self, tag: ErlTermTag) -> (r: DecodeResult)
        requires
            old(self).wf(),
            tag matches ErlTermTag::SMALL_TUPLE_EXT || tag matches ErlTermTag::LARGE_TUPLE_EXT
                || tag matches ErlTermTag::MAP_EXT || tag matches ErlTermTag::LIST_EXT || tag
                matches ErlTermTag::FUN_EXT || tag matches ErlTermTag::NEW_FUN_EXT,
        ensures
            Self::stepped(
                *old(self),
                *final(self),
                dec_body(tag, old(self).remaining()),
                r,
            ),
        decreases self.input().len() - self.offset(), 1int,
    {
        match tag {
            ErlTermTag::SMALL_TUPLE_EXT => self.decode_small_tuple(),
            ErlTermTag::LARGE_TUPLE_EXT => self.decode_large_tuple(),
            ErlTermTag::MAP_EXT => self.decode_map(),
            ErlTermTag::LIST_EXT => self.decode_list(),
            ErlTermTag::FUN_EXT => {
                let r = self.decode_fun();
                proof {
                    assert(dec_body(ErlTermTag::FUN_EXT, old(self).remaining()) == dec_fun(
                        old(self).remaining(),
                    ));
                }
                r
            },
            ErlTermTag::NEW_FUN_EXT => {
                let r = self.decode_new_fun();
                proof {
                    assert(dec_body(ErlTermTag::NEW_FUN_EXT, old(self).remaining())
                        == dec_new_fun(old(self).remaining()));
                }
                r
            },
            _ => {
                proof {
                    assert(false);
                }
                Err(Error::BadTerm)
            },
        }
    }

    /// Reads the body of a term record whose tag byte was already consumed.
    #[verifier::rlimit(100)]
    #[verifier::spinoff_prover]
    fn decode_concrete_term(&mut self, tag: ErlTermTag) -> (r: DecodeResult)
        requires
            old(self).wf(),
        ensures
            Self::stepped(
                *old(self),
                *final(self),
                dec_body(tag, old(self).remaining()),
                r,
            ),
        decreases self.input().len() - self.offset(), 2int,
    {
        match tag {
            ErlTermTag::SMALL_INTEGER_EXT => self.decode_small_integer(),
            ErlTermTag::INTEGER_EXT => self.decode_integer(),
            ErlTermTag::FLOAT_EXT => self.decode_float(),
            ErlTermTag::ATOM_EXT | ErlTermTag::ATOM_UTF8_EXT => self.decode_atom(),
            ErlTermTag::REFERENCE_EXT => self.decode_reference(),
            ErlTermTag::PORT_EXT => self.decode_port(),
            ErlTermTag::PID_EXT => self.decode_pid(),
            ErlTermTag::NIL_EXT => self.decode_nil(),
            ErlTermTag::STRING_EXT => self.decode_string(),
            ErlTermTag::BINARY_EXT => self.decode_binary(),
            ErlTermTag::SMALL_BIG_EXT => self.decode_small_big(),
            ErlTermTag::LARGE_BIG_EXT => self.decode_large_big(),
            ErlTermTag::NEW_REFERENCE_EXT => self.decode_new_reference(),
            ErlTermTag::SMALL_ATOM_EXT | ErlTermTag::SMALL_ATOM_UTF8_EXT => self.decode_small_atom(),
            ErlTermTag::EXPORT_EXT => self.decode_export(),
            ErlTermTag::BIT_BINARY_EXT => self.decode_bit_binary(),
            ErlTermTag::NEW_FLOAT_EXT => self.decode_new_float(),
            ErlTermTag::SMALL_TUPLE_EXT | ErlTermTag::LARGE_TUPLE_EXT | ErlTermTag::MAP_EXT
                | ErlTermTag::LIST_EXT | ErlTermTag::FUN_EXT | ErlTermTag::NEW_FUN_EXT => self
                .decode_composite_term(tag),
        }
    }
}

} // verus!
