//! The encoder: writes a term tree back out as wire bytes. Every method is
//! specified against the wire-format functions of the `wire` module, and
//! succeeds exactly on terms the format can represent (`wf_term`); a term
//! with a length that its wire field cannot hold, a closure digest that is
//! not 16 bytes, or an empty list is reported as `Error::BadTerm` instead of
//! being written wrongly.

use crate::term::{
    pair_view, pairs_view, term_view, terms_view, BigNum, BitBinary, EncodeResult, ErlTermTag, Error, Eterm, Export,
    Fun, NewFun, Pid, Port, Reference, TermV,
};
use crate::wire::{
    be16, be32, be64, enc_atom, enc_compact_u32, enc_new_fun_body, enc_pair, enc_pairs, enc_pid,
    enc_term, enc_terms, lemma_enc_pairs_snoc, lemma_enc_terms_snoc, len16, len32, tag_byte,
    u32_of_i32, wf_atom, wf_new_fun_body, wf_pair, wf_pairs, wf_term, wf_terms, EncodeFlags,
    PRELUDE_BYTE,
};
use vstd::prelude::*;

verus! {

/// An encoder over an owned byte buffer, configured once with its three
/// wire-format choices. The buffer is public: callers hand one in (usually
/// empty) and take the written bytes back out of `wrtr`.
pub struct Encoder {
    pub wrtr: Vec<u8>,
    pub use_utf8_atoms: bool,
    pub use_small_atoms: bool,
    pub fair_new_fun: bool,
}

impl Encoder {
    /// The encoder's configuration, as one value.
    pub open spec fn flags(&self) -> EncodeFlags {
        EncodeFlags {
            utf8_atoms: self.use_utf8_atoms,
            small_atoms: self.use_small_atoms,
            fair_new_fun: self.fair_new_fun,
        }
    }

    /// What holds after a writing step that should append `bytes`: the
    /// configuration is untouched, bytes already written stay in place, and
    /// on success exactly `bytes` were appended.
    pub open spec fn wrote(pre: Self, post: Self, ok: bool, bytes: Seq<u8>) -> bool {
        &&& post.flags() == pre.flags()
        &&& pre.wrtr@.is_prefix_of(post.wrtr@)
        &&& ok ==> post.wrtr@ == pre.wrtr@ + bytes
    }

    pub fn new(
        writer: Vec<u8>,
        utf8_atoms: bool,
        small_atoms: bool,
        fair_new_fun: bool,
    ) -> (r: Encoder)
        ensures
            r.wrtr == writer,
            r.flags() == (EncodeFlags {
                utf8_atoms,
                small_atoms,
                fair_new_fun,
            }),
    {
        Encoder { wrtr: writer, use_utf8_atoms: utf8_atoms, use_small_atoms: small_atoms, fair_new_fun }
    }

    /// Writes the one-byte stream prelude.
    pub fn write_prelude(&mut self) -> (r: EncodeResult)
        ensures
            Self::wrote(*old(self), *final(self), true, seq![PRELUDE_BYTE]),
            r is Ok,
    {
        self.write_u8(PRELUDE_BYTE);
        Ok(())
    }

    /// Does nothing: the buffer is in memory and always up to date.
    pub fn flush(&mut self) -> (r: EncodeResult)
        ensures
            *final(self) == *old(self),
            r is Ok,
    {
        Ok(())
    }

    fn write_u8(&mut self, b: u8)
        ensures
            Self::wrote(*old(self), *final(self), true, seq![b]),
    {
        self.wrtr.push(b);
        proof {
            assert(self.wrtr@ =~= old(self).wrtr@ + seq![b]);
        }
    }

    fn write_u16_be(&mut self, x: u16)
        ensures
            Self::wrote(*old(self), *final(self), true, be16(x)),
    {
        self.wrtr.push((x / 0x100) as u8);
        self.wrtr.push((x % 0x100) as u8);
        proof {
            assert(self.wrtr@ =~= old(self).wrtr@ + be16(x));
        }
    }

    fn write_u32_be(&mut self, x: u32)
        ensures
            Self::wrote(*old(self), *final(self), true, be32(x)),
    {
        self.write_u16_be((x / 0x1_0000) as u16);
        self.write_u16_be((x % 0x1_0000) as u16);
        proof {
            assert(self.wrtr@ =~= old(self).wrtr@ + be32(x));
        }
    }

    fn write_u64_be(&mut self, x: u64)
        ensures
            Self::wrote(*old(self), *final(self), true, be64(x)),
    {
        self.write_u32_be((x / 0x1_0000_0000) as u32);
        self.write_u32_be((x % 0x1_0000_0000) as u32);
        proof {
            assert(self.wrtr@ =~= old(self).wrtr@ + be64(x));
        }
    }

    fn write_i32_be(&mut self, x: i32)
        ensures
            Self::wrote(*old(self), *final(self), true, be32(u32_of_i32(x))),
    {
        if x >= 0 {
            self.write_u32_be(x as u32);
        } else {
            self.write_u32_be(((x as i64) + 0x1_0000_0000) as u32);
        }
    }

    fn write_all(&mut self, data: &[u8])
        ensures
            Self::wrote(*old(self), *final(self), true, data@),
    {
        let n = data.len();
        let mut i: usize = 0;
        while i < n
            invariant
                i <= n,
                n == data@.len(),
                self.flags() == old(self).flags(),
                self.wrtr@ == old(self).wrtr@ + data@.subrange(0, i as int),
            decreases n - i,
        {
            self.wrtr.push(data[i]);
            i = i + 1;
            proof {
                assert(self.wrtr@ =~= old(self).wrtr@ + data@.subrange(0, i as int));
            }
        }
        proof {
            assert(data@.subrange(0, n as int) =~= data@);
            assert(old(self).wrtr@.is_prefix_of(self.wrtr@));
        }
    }

    fn _encode_tag(&mut self, tag: ErlTermTag)
        ensures
            Self::wrote(*old(self), *final(self), true, seq![tag_byte(tag)]),
    {
        let int_tag: u8 = match tag {
            ErlTermTag::SMALL_INTEGER_EXT => 97,
            ErlTermTag::INTEGER_EXT => 98,
            ErlTermTag::FLOAT_EXT => 99,
            ErlTermTag::ATOM_EXT => 100,
            ErlTermTag::REFERENCE_EXT => 101,
            ErlTermTag::PORT_EXT => 102,
            ErlTermTag::PID_EXT => 103,
            ErlTermTag::SMALL_TUPLE_EXT => 104,
            ErlTermTag::LARGE_TUPLE_EXT => 105,
            ErlTermTag::MAP_EXT => 116,
            ErlTermTag::NIL_EXT => 106,
            ErlTermTag::STRING_EXT => 107,
            ErlTermTag::LIST_EXT => 108,
            ErlTermTag::BINARY_EXT => 109,
            ErlTermTag::SMALL_BIG_EXT => 110,
            ErlTermTag::LARGE_BIG_EXT => 111,
            ErlTermTag::NEW_REFERENCE_EXT => 114,
            ErlTermTag::SMALL_ATOM_EXT => 115,
            ErlTermTag::FUN_EXT => 117,
            ErlTermTag::NEW_FUN_EXT => 112,
            ErlTermTag::EXPORT_EXT => 113,
            ErlTermTag::BIT_BINARY_EXT => 77,
            ErlTermTag::NEW_FLOAT_EXT => 70,
            ErlTermTag::ATOM_UTF8_EXT => 118,
            ErlTermTag::SMALL_ATOM_UTF8_EXT => 119,
        };
        self.write_u8(int_tag);
    }

    /// Writes an atom's byte-length field (two bytes) and its text.
    fn encode_atom(&mut self, atom: &String) -> (r: EncodeResult)
        ensures
            Self::wrote(
                *old(self),
                *final(self),
                r is Ok,
                len16(vstd::utf8::encode_utf8(atom@).len()) + vstd::utf8::encode_utf8(atom@),
            ),
            (r is Ok) <==> wf_atom(atom@),
            r matches Err(e) ==> e == Error::BadTerm,
    {
        let bs = atom.as_str().as_bytes();
        if bs.len() > 0xFFFF {
            return Err(Error::BadTerm);
        }
        self.write_u16_be(bs.len() as u16);
        self.write_all(bs);
        proof {
            assert(self.wrtr@ =~= old(self).wrtr@ + (len16(vstd::utf8::encode_utf8(atom@).len())
                + vstd::utf8::encode_utf8(atom@)));
        }
        Ok(())
    }

    /// Writes an atom's byte-length field (one byte) and its text; the text
    /// must fit the one-byte field.
    fn encode_small_atom(&mut self, atom: &String) -> (r: EncodeResult)
        ensures
            Self::wrote(
                *old(self),
                *final(self),
                r is Ok,
                seq![(vstd::utf8::encode_utf8(atom@).len() % 0x100) as u8]
                    + vstd::utf8::encode_utf8(atom@),
            ),
            (r is Ok) <==> vstd::utf8::encode_utf8(atom@).len() <= 255,
            r matches Err(e) ==> e == Error::BadTerm,
    {
        let bs = atom.as_str().as_bytes();
        if bs.len() > 255 {
            return Err(Error::BadTerm);
        }
        self.write_u8(bs.len() as u8);
        self.write_all(bs);
        proof {
            assert(self.wrtr@ =~= old(self).wrtr@ + (seq![
                (vstd::utf8::encode_utf8(atom@).len() % 0x100) as u8,
            ] + vstd::utf8::encode_utf8(atom@)));
        }
        Ok(())
    }

    /// Writes one full atom record: the tag chosen by the configuration,
    /// then the length field and text.
    fn _encode_atom_term(&mut self, atom: &String) -> (r: EncodeResult)
        ensures
            Self::wrote(
                *old(self),
                *final(self),
                r is Ok,
                enc_atom(atom@, old(self).flags()),
            ),
            (r is Ok) <==> wf_atom(atom@),
            r matches Err(e) ==> e == Error::BadTerm,
    {
        let use_utf8 = self.use_utf8_atoms;
        let use_small = self.use_small_atoms;
        let short = atom.as_str().as_bytes().len() <= 255;
        if short && use_small {
            self._encode_tag(
                if use_utf8 {
                    ErlTermTag::SMALL_ATOM_UTF8_EXT
                } else {
                    ErlTermTag::SMALL_ATOM_EXT
                },
            );
            let r = self.encode_small_atom(atom);
            proof {
                assert(self.wrtr@ =~= old(self).wrtr@ + enc_atom(atom@, old(self).flags()));
            }
            r
        } else {
            self._encode_tag(
                if use_utf8 {
                    ErlTermTag::ATOM_UTF8_EXT
                } else {
                    ErlTermTag::ATOM_EXT
                },
            );
            match self.encode_atom(atom) {
                Ok(()) => {
                    proof {
                        assert(self.wrtr@ =~= old(self).wrtr@ + enc_atom(
                            atom@,
                            old(self).flags(),
                        ));
                    }
                    Ok(())
                },
                Err(e) => Err(e),
            }
        }
    }

    /// Writes one full process-identifier record, tag included.
    fn _encode_pid_term(&mut self, pid: &Pid) -> (r: EncodeResult)
        ensures
            Self::wrote(*old(self), *final(self), r is Ok, enc_pid(pid@, old(self).flags())),
            (r is Ok) <==> wf_atom(pid.node@),
            r matches Err(e) ==> e == Error::BadTerm,
    {
        self._encode_tag(ErlTermTag::PID_EXT);
        match self._encode_atom_term(&pid.node) {
            Ok(()) => {},
            Err(e) => {
                return Err(e);
            },
        }
        self.write_u32_be(pid.id);
        self.write_u32_be(pid.serial);
        self.write_u8(pid.creation);
        proof {
            assert(self.wrtr@ =~= old(self).wrtr@ + enc_pid(pid@, old(self).flags()));
        }
        Ok(())
    }

    /// Writes a closure index field: a one-byte integer record when the
    /// value fits, else a four-byte integer record.
    fn _encode_compact_u32(&mut self, n: u32) -> (r: EncodeResult)
        ensures
            Self::wrote(*old(self), *final(self), true, enc_compact_u32(n)),
            r is Ok,
    {
        if n <= 255 {
            self._encode_tag(ErlTermTag::SMALL_INTEGER_EXT);
            self.write_u8(n as u8);
        } else {
            self._encode_tag(ErlTermTag::INTEGER_EXT);
            self.write_u32_be(n);
        }
        proof {
            assert(self.wrtr@ =~= old(self).wrtr@ + enc_compact_u32(n));
        }
        Ok(())
    }
}

impl Encoder {
    /// Writes the records of a sequence of terms, in order.
    fn _encode_terms(&mut self, terms: &Vec<Eterm>) -> (r: EncodeResult)
        ensures
            Self::wrote(
                *old(self),
                *final(self),
                r is Ok,
                enc_terms(terms_view(*terms), old(self).flags()),
            ),
            (r is Ok) <==> wf_terms(terms_view(*terms), old(self).flags()),
            r matches Err(e) ==> e == Error::BadTerm,
        decreases *terms, 0int,
    {
        let ghost e0 = *self;
        let ghost f0 = e0.flags();
        let ghost tsv = terms_view(*terms);
        let n = terms.len();
        let mut i: usize = 0;
        while i < n
            invariant
                i <= n,
                n == terms@.len(),
                tsv == terms_view(*terms),
                e0 == *old(self),
                f0 == e0.flags(),
                self.flags() == f0,
                e0.wrtr@.is_prefix_of(self.wrtr@),
                self.wrtr@ == e0.wrtr@ + enc_terms(tsv.subrange(0, i as int), f0),
                wf_terms(tsv.subrange(0, i as int), f0),
            decreases n - i,
        {
            let ghost pre = *self;
            match self._encode_term_ref(&terms[i]) {
                Ok(()) => {
                    proof {
                        assert(tsv[i as int] == term_view(terms@[i as int]));
                        lemma_enc_terms_snoc(tsv, f0, i as int);
                        assert(self.wrtr@ =~= e0.wrtr@ + enc_terms(
                            tsv.subrange(0, i + 1 as int),
                            f0,
                        ));
                        assert forall|j: int| 0 <= j < i + 1 implies wf_term(
                            #[trigger] tsv.subrange(0, i + 1 as int)[j],
                            f0,
                        ) by {
                            if j < i {
                                assert(tsv.subrange(0, i + 1 as int)[j] == tsv.subrange(
                                    0,
                                    i as int,
                                )[j]);
                            } else {
                                assert(tsv.subrange(0, i + 1 as int)[j] == tsv[i as int]);
                            }
                        }
                    }
                    i = i + 1;
                },
                Err(e) => {
                    proof {
                        assert(!wf_term(tsv[i as int], f0));
                        assert(e0.wrtr@.is_prefix_of(self.wrtr@)) by {
                            assert(pre.wrtr@.is_prefix_of(self.wrtr@));
                            assert(e0.wrtr@.is_prefix_of(pre.wrtr@));
                        }
                    }
                    return Err(e);
                },
            }
        }
        proof {
            assert(tsv.subrange(0, n as int) =~= tsv);
        }
        Ok(())
    }

    /// Writes the records of one key-value pair: the key's, then the
    /// value's.
    fn _encode_pair(&mut self, pair: &(Eterm, Eterm)) -> (r: EncodeResult)
        ensures
            Self::wrote(
                *old(self),
                *final(self),
                r is Ok,
                enc_pair((term_view(pair.0), term_view(pair.1)), old(self).flags()),
            ),
            (r is Ok) <==> wf_pair((term_view(pair.0), term_view(pair.1)), old(self).flags()),
            r matches Err(e) ==> e == Error::BadTerm,
        decreases *pair, 0int,
    {
        match self._encode_term_ref(&pair.0) {
            Ok(()) => {},
            Err(e) => {
                return Err(e);
            },
        }
        match self._encode_term_ref(&pair.1) {
            Ok(()) => {},
            Err(e) => {
                return Err(e);
            },
        }
        proof {
            assert(self.wrtr@ =~= old(self).wrtr@ + enc_pair(
                (term_view(pair.0), term_view(pair.1)),
                old(self).flags(),
            ));
        }
        Ok(())
    }

    /// Writes the records of a sequence of key-value pairs, in order.
    fn _encode_pairs(&mut self, pairs: &Vec<(Eterm, Eterm)>) -> (r: EncodeResult)
        ensures
            Self::wrote(
                *old(self),
                *final(self),
                r is Ok,
                enc_pairs(pairs_view(*pairs), old(self).flags()),
            ),
            (r is Ok) <==> wf_pairs(pairs_view(*pairs), old(self).flags()),
            r matches Err(e) ==> e == Error::BadTerm,
        decreases *pairs, 1int,
    {
        let ghost e0 = *self;
        let ghost f0 = e0.flags();
        let ghost psv = pairs_view(*pairs);
        let n = pairs.len();
        let mut i: usize = 0;
        while i < n
            invariant
                i <= n,
                n == pairs@.len(),
                psv == pairs_view(*pairs),
                e0 == *old(self),
                f0 == e0.flags(),
                self.flags() == f0,
                e0.wrtr@.is_prefix_of(self.wrtr@),
                self.wrtr@ == e0.wrtr@ + enc_pairs(psv.subrange(0, i as int), f0),
                wf_pairs(psv.subrange(0, i as int), f0),
            decreases n - i,
        {
            let ghost pre = *self;
            match self._encode_pair(&pairs[i]) {
                Ok(()) => {
                    proof {
                        assert(psv[i as int] == pair_view(pairs@[i as int]));
                        lemma_enc_pairs_snoc(psv, f0, i as int);
                        assert(self.wrtr@ =~= e0.wrtr@ + enc_pairs(
                            psv.subrange(0, i + 1 as int),
                            f0,
                        ));
                        assert forall|j: int| 0 <= j < i + 1 implies wf_pair(
                            #[trigger] psv.subrange(0, i + 1 as int)[j],
                            f0,
                        ) by {
                            if j < i {
                                assert(psv.subrange(0, i + 1 as int)[j] == psv.subrange(
                                    0,
                                    i as int,
                                )[j]);
                            } else {
                                assert(psv.subrange(0, i + 1 as int)[j] == psv[i as int]);
                            }
                        }
                    }
                    i = i + 1;
                },
                Err(e) => {
                    proof {
                        assert(!wf_pair(psv[i as int], f0));
                        assert(e0.wrtr@.is_prefix_of(self.wrtr@)) by {
                            assert(pre.wrtr@.is_prefix_of(self.wrtr@));
                            assert(e0.wrtr@.is_prefix_of(pre.wrtr@));
                        }
                    }
                    return Err(e);
                },
            }
        }
        proof {
            assert(psv.subrange(0, n as int) =~= psv);
        }
        Ok(())
    }

    /// Writes the fixed-width head of a current-format closure body: the
    /// arity, the 16 digest bytes, the index and the free-variable count.
    fn _encode_new_fun_head(&mut self, fun: &NewFun) -> (r: EncodeResult)
        ensures
            Self::wrote(
                *old(self),
                *final(self),
                r is Ok,
                seq![fun.arity] + fun.uniq@ + be32(fun.index) + len32(fun.free_vars@.len()),
            ),
            (r is Ok) <==> (fun.uniq@.len() == 16 && fun.free_vars@.len() <= 0xFFFF_FFFF),
            r matches Err(e) ==> e == Error::BadTerm,
    {
        if fun.uniq.len() != 16 {
            return Err(Error::BadTerm);
        }
        if fun.free_vars.len() > 0xFFFF_FFFFusize {
            return Err(Error::BadTerm);
        }
        self.write_u8(fun.arity);
        self.write_all(fun.uniq.as_slice());
        self.write_u32_be(fun.index);
        self.write_u32_be(fun.free_vars.len() as u32);
        proof {
            assert(self.wrtr@ =~= old(self).wrtr@ + (seq![fun.arity] + fun.uniq@ + be32(fun.index)
                + len32(fun.free_vars@.len())));
        }
        Ok(())
    }

    /// Writes the body of a current-format closure record: everything after
    /// the tag and the size field.
    #[verifier::rlimit(100)]
    #[verifier::spinoff_prover]
    fn _encode_new_fun(&mut self, fun: &NewFun) -> (r: EncodeResult)
        ensures
            Self::wrote(
                *old(self),
                *final(self),
                r is Ok,
                enc_new_fun_body(fun@, old(self).flags()),
            ),
            (r is Ok) <==> wf_new_fun_body(fun@, old(self).flags()),
            r matches Err(e) ==> e == Error::BadTerm,
        decreases *fun, 0int,
    {
        match self._encode_new_fun_head(fun) {
            Ok(()) => {},
            Err(e) => {
                return Err(e);
            },
        }
        match self._encode_atom_term(&fun.module) {
            Ok(()) => {},
            Err(e) => {
                return Err(e);
            },
        }
        match self._encode_compact_u32(fun.old_index) {
            Ok(()) => {},
            Err(e) => {
                return Err(e);
            },
        }
        match self._encode_compact_u32(fun.old_uniq) {
            Ok(()) => {},
            Err(e) => {
                return Err(e);
            },
        }
        match self._encode_pid_term(&fun.pid) {
            Ok(()) => {},
            Err(e) => {
                return Err(e);
            },
        }
        match self._encode_terms(&fun.free_vars) {
            Ok(()) => {},
            Err(e) => {
                return Err(e);
            },
        }
        proof {
            assert(self.wrtr@ =~= old(self).wrtr@ + enc_new_fun_body(fun@, old(self).flags()));
        }
        Ok(())
    }

    /// Writes one full current-format closure record after its tag: the
    /// size field, then the body. With `fair_new_fun` the body is encoded
    /// into a scratch buffer first, so that the size field can carry the
    /// true record size; otherwise the size field is written as zero and the
    /// body follows in a single pass.
    #[verifier::rlimit(100)]
    #[verifier::spinoff_prover]
    fn encode_new_fun(&mut self, fun: &NewFun) -> (r: EncodeResult)
        ensures
            Self::wrote(
                *old(self),
                *final(self),
                r is Ok,
                (if old(self).flags().fair_new_fun {
                    len32((enc_new_fun_body(fun@, old(self).flags()).len() + 4) as nat)
                } else {
                    be32(0)
                }) + enc_new_fun_body(fun@, old(self).flags()),
            ),
            (r is Ok) <==> (wf_new_fun_body(fun@, old(self).flags()) && (old(
                self,
            ).flags().fair_new_fun ==> enc_new_fun_body(fun@, old(self).flags()).len() + 4
                <= 0xFFFF_FFFF)),
            r matches Err(e) ==> e == Error::BadTerm,
        decreases *fun, 1int,
    {
        if self.fair_new_fun {
            let mut temp = Encoder::new(
                Vec::new(),
                self.use_utf8_atoms,
                self.use_small_atoms,
                self.fair_new_fun,
            );
            match temp._encode_new_fun(fun) {
                Ok(()) => {},
                Err(e) => {
                    return Err(e);
                },
            }
            proof {
                assert(temp.wrtr@ =~= enc_new_fun_body(fun@, old(self).flags()));
            }
            let size = temp.wrtr.len();
            if size > 0xFFFF_FFFFusize - 4 {
                return Err(Error::BadTerm);
            }
            self.write_u32_be((4 + size) as u32);
            self.write_all(temp.wrtr.as_slice());
            proof {
                assert(self.wrtr@ =~= old(self).wrtr@ + (len32(
                    (enc_new_fun_body(fun@, old(self).flags()).len() + 4) as nat,
                ) + enc_new_fun_body(fun@, old(self).flags())));
            }
            Ok(())
        } else {
            self.write_u32_be(0);
            match self._encode_new_fun(fun) {
                Ok(()) => {},
                Err(e) => {
                    return Err(e);
                },
            }
            proof {
                assert(self.wrtr@ =~= old(self).wrtr@ + (be32(0) + enc_new_fun_body(
                    fun@,
                    old(self).flags(),
                )));
            }
            Ok(())
        }
    }
}

impl Encoder {
    /// Writes a multi-word reference record after its tag: the word count,
    /// the node atom, the creation byte, then the id bytes.
    fn encode_new_reference(&mut self, reference: &Reference) -> (r: EncodeResult)
        ensures
            Self::wrote(
                *old(self),
                *final(self),
                r is Ok,
                len16((reference.id@.len() / 4) as nat) + enc_atom(
                    reference.node@,
                    old(self).flags(),
                ) + seq![reference.creation] + reference.id@,
            ),
            (r is Ok) <==> (wf_atom(reference.node@) && reference.id@.len() % 4 == 0
                && reference.id@.len() / 4 <= 0xFFFF),
            r matches Err(e) ==> e == Error::BadTerm,
    {
        if reference.id.len() % 4 != 0 || reference.id.len() / 4 > 0xFFFF {
            return Err(Error::BadTerm);
        }
        let len = reference.id.len() / 4;
        self.write_u16_be(len as u16);
        match self._encode_atom_term(&reference.node) {
            Ok(()) => {},
            Err(e) => {
                return Err(e);
            },
        }
        self.write_u8(reference.creation);
        self.write_all(reference.id.as_slice());
        proof {
            assert(self.wrtr@ =~= old(self).wrtr@ + (len16((reference.id@.len() / 4) as nat)
                + enc_atom(reference.node@, old(self).flags()) + seq![reference.creation]
                + reference.id@));
        }
        Ok(())
    }

    /// Writes a port record after its tag: the node atom, the id, the
    /// creation byte.
    fn encode_port(&mut self, port: &Port) -> (r: EncodeResult)
        ensures
            Self::wrote(
                *old(self),
                *final(self),
                r is Ok,
                enc_atom(port.node@, old(self).flags()) + be32(port.id) + seq![port.creation],
            ),
            (r is Ok) <==> wf_atom(port.node@),
            r matches Err(e) ==> e == Error::BadTerm,
    {
        match self._encode_atom_term(&port.node) {
            Ok(()) => {},
            Err(e) => {
                return Err(e);
            },
        }
        self.write_u32_be(port.id);
        self.write_u8(port.creation);
        proof {
            assert(self.wrtr@ =~= old(self).wrtr@ + (enc_atom(port.node@, old(self).flags())
                + be32(port.id) + seq![port.creation]));
        }
        Ok(())
    }

    /// Writes a tuple body with a one-byte arity.
    fn encode_small_tuple(&mut self, tuple: &Vec<Eterm>) -> (r: EncodeResult)
        requires
            tuple@.len() <= 255,
        ensures
            Self::wrote(
                *old(self),
                *final(self),
                r is Ok,
                seq![tuple@.len() as u8] + enc_terms(terms_view(*tuple), old(self).flags()),
            ),
            (r is Ok) <==> wf_terms(terms_view(*tuple), old(self).flags()),
            r matches Err(e) ==> e == Error::BadTerm,
        decreases *tuple, 1int,
    {
        self.write_u8(tuple.len() as u8);
        match self._encode_terms(tuple) {
            Ok(()) => {},
            Err(e) => {
                return Err(e);
            },
        }
        proof {
            assert(self.wrtr@ =~= old(self).wrtr@ + (seq![tuple@.len() as u8] + enc_terms(
                terms_view(*tuple),
                old(self).flags(),
            )));
        }
        Ok(())
    }

    /// Writes a tuple body with a four-byte arity.
    fn encode_large_tuple(&mut self, tuple: &Vec<Eterm>) -> (r: EncodeResult)
        ensures
            Self::wrote(
                *old(self),
                *final(self),
                r is Ok,
                len32(tuple@.len()) + enc_terms(terms_view(*tuple), old(self).flags()),
            ),
            (r is Ok) <==> (tuple@.len() <= 0xFFFF_FFFF && wf_terms(
                terms_view(*tuple),
                old(self).flags(),
            )),
            r matches Err(e) ==> e == Error::BadTerm,
        decreases *tuple, 1int,
    {
        if tuple.len() > 0xFFFF_FFFFusize {
            return Err(Error::BadTerm);
        }
        self.write_u32_be(tuple.len() as u32);
        match self._encode_terms(tuple) {
            Ok(()) => {},
            Err(e) => {
                return Err(e);
            },
        }
        proof {
            assert(self.wrtr@ =~= old(self).wrtr@ + (len32(tuple@.len()) + enc_terms(
                terms_view(*tuple),
                old(self).flags(),
            )));
        }
        Ok(())
    }

    /// Writes a map body: the pair count, then the pairs.
    fn encode_map(&mut self, map: &Vec<(Eterm, Eterm)>) -> (r: EncodeResult)
        ensures
            Self::wrote(
                *old(self),
                *final(self),
                r is Ok,
                len32(map@.len()) + enc_pairs(pairs_view(*map), old(self).flags()),
            ),
            (r is Ok) <==> (map@.len() <= 0xFFFF_FFFF && wf_pairs(
                pairs_view(*map),
                old(self).flags(),
            )),
            r matches Err(e) ==> e == Error::BadTerm,
        decreases *map, 2int,
    {
        if map.len() > 0xFFFF_FFFFusize {
            return Err(Error::BadTerm);
        }
        self.write_u32_be(map.len() as u32);
        match self._encode_pairs(map) {
            Ok(()) => {},
            Err(e) => {
                return Err(e);
            },
        }
        proof {
            assert(self.wrtr@ =~= old(self).wrtr@ + (len32(map@.len()) + enc_pairs(
                pairs_view(*map),
                old(self).flags(),
            )));
        }
        Ok(())
    }

    /// Writes a byte-string body: a two-byte length, then the bytes.
    fn encode_string(&mut self, s: &Vec<u8>) -> (r: EncodeResult)
        ensures
            Self::wrote(*old(self), *final(self), r is Ok, len16(s@.len()) + s@),
            (r is Ok) <==> s@.len() <= 0xFFFF,
            r matches Err(e) ==> e == Error::BadTerm,
    {
        if s.len() > 0xFFFF {
            return Err(Error::BadTerm);
        }
        self.write_u16_be(s.len() as u16);
        self.write_all(s.as_slice());
        proof {
            assert(self.wrtr@ =~= old(self).wrtr@ + (len16(s@.len()) + s@));
        }
        Ok(())
    }

    /// Writes a list body: the length field, which counts one less than the
    /// sequence (the trailing tail element is not counted), then every
    /// element including that tail. An empty sequence has no tail to write
    /// and is refused.
    fn encode_list(&mut self, list: &Vec<Eterm>) -> (r: EncodeResult)
        ensures
            Self::wrote(
                *old(self),
                *final(self),
                r is Ok,
                len32(if list@.len() == 0 {
                    0
                } else {
                    (list@.len() - 1) as nat
                }) + enc_terms(terms_view(*list), old(self).flags()),
            ),
            (r is Ok) <==> (1 <= list@.len() && list@.len() <= 0x1_0000_0000 && wf_terms(
                terms_view(*list),
                old(self).flags(),
            )),
            r matches Err(e) ==> e == Error::BadTerm,
        decreases *list, 1int,
    {
        if list.len() == 0 {
            return Err(Error::BadTerm);
        }
        if list.len() - 1 > 0xFFFF_FFFFusize {
            return Err(Error::BadTerm);
        }
        self.write_u32_be((list.len() - 1) as u32);
        match self._encode_terms(list) {
            Ok(()) => {},
            Err(e) => {
                return Err(e);
            },
        }
        proof {
            assert(self.wrtr@ =~= old(self).wrtr@ + (len32((list@.len() - 1) as nat) + enc_terms(
                terms_view(*list),
                old(self).flags(),
            )));
        }
        Ok(())
    }

    /// Writes a binary body: a four-byte length, then the bytes.
    fn encode_binary(&mut self, bin: &Vec<u8>) -> (r: EncodeResult)
        ensures
            Self::wrote(*old(self), *final(self), r is Ok, len32(bin@.len()) + bin@),
            (r is Ok) <==> bin@.len() <= 0xFFFF_FFFF,
            r matches Err(e) ==> e == Error::BadTerm,
    {
        if bin.len() > 0xFFFF_FFFFusize {
            return Err(Error::BadTerm);
        }
        self.write_u32_be(bin.len() as u32);
        self.write_all(bin.as_slice());
        proof {
            assert(self.wrtr@ =~= old(self).wrtr@ + (len32(bin@.len()) + bin@));
        }
        Ok(())
    }

    /// Writes the sign byte and magnitude bytes of a big-integer record.
    fn _encode_big(&mut self, num: &BigNum)
        ensures
            Self::wrote(
                *old(self),
                *final(self),
                true,
                seq![
                    if num.negative {
                        1u8
                    } else {
                        0u8
                    },
                ] + num.magnitude@,
            ),
    {
        self.write_u8(if num.negative { 1u8 } else { 0u8 });
        self.write_all(num.magnitude.as_slice());
        proof {
            assert(self.wrtr@ =~= old(self).wrtr@ + (seq![
                if num.negative {
                    1u8
                } else {
                    0u8
                },
            ] + num.magnitude@));
        }
    }

    /// Writes a big-integer body with a one-byte magnitude length.
    fn encode_small_big(&mut self, num: &BigNum) -> (r: EncodeResult)
        requires
            num.magnitude@.len() <= 255,
        ensures
            Self::wrote(
                *old(self),
                *final(self),
                r is Ok,
                seq![num.magnitude@.len() as u8]
                    + (seq![
                    if num.negative {
                        1u8
                    } else {
                        0u8
                    },
                ] + num.magnitude@),
            ),
            r is Ok,
    {
        self.write_u8(num.magnitude.len() as u8);
        self._encode_big(num);
        proof {
            assert(self.wrtr@ =~= old(self).wrtr@ + (seq![num.magnitude@.len() as u8] + (seq![
                if num.negative {
                    1u8
                } else {
                    0u8
                },
            ] + num.magnitude@)));
        }
        Ok(())
    }

    /// Writes a big-integer body with a four-byte magnitude length.
    fn encode_large_big(&mut self, num: &BigNum) -> (r: EncodeResult)
        ensures
            Self::wrote(
                *old(self),
                *final(self),
                r is Ok,
                len32(num.magnitude@.len()) + (seq![
                    if num.negative {
                        1u8
                    } else {
                        0u8
                    },
                ] + num.magnitude@),
            ),
            (r is Ok) <==> num.magnitude@.len() <= 0xFFFF_FFFF,
            r matches Err(e) ==> e == Error::BadTerm,
    {
        if num.magnitude.len() > 0xFFFF_FFFFusize {
            return Err(Error::BadTerm);
        }
        self.write_u32_be(num.magnitude.len() as u32);
        self._encode_big(num);
        proof {
            assert(self.wrtr@ =~= old(self).wrtr@ + (len32(num.magnitude@.len()) + (seq![
                if num.negative {
                    1u8
                } else {
                    0u8
                },
            ] + num.magnitude@)));
        }
        Ok(())
    }

    /// Writes a legacy closure body: the free-variable count, the process
    /// identifier, the module atom, the index and uniq fields, then the free
    /// variables.
    #[verifier::rlimit(100)]
    #[verifier::spinoff_prover]
    fn encode_fun(&mut self, fun: &Fun) -> (r: EncodeResult)
        ensures
            Self::wrote(
                *old(self),
                *final(self),
                r is Ok,
                len32(fun.free_vars@.len()) + enc_pid(fun.pid@, old(self).flags()) + enc_atom(
                    fun.module@,
                    old(self).flags(),
                ) + enc_compact_u32(fun.index) + enc_compact_u32(fun.uniq) + enc_terms(
                    terms_view(fun.free_vars),
                    old(self).flags(),
                ),
            ),
            (r is Ok) <==> (wf_atom(fun.pid.node@) && wf_atom(fun.module@)
                && fun.free_vars@.len() <= 0xFFFF_FFFF && wf_terms(
                terms_view(fun.free_vars),
                old(self).flags(),
            )),
            r matches Err(e) ==> e == Error::BadTerm,
        decreases *fun, 0int,
    {
        if fun.free_vars.len() > 0xFFFF_FFFFusize {
            return Err(Error::BadTerm);
        }
        self.write_u32_be(fun.free_vars.len() as u32);
        let ghost f0 = old(self).flags();
        match self._encode_pid_term(&fun.pid) {
            Ok(()) => {},
            Err(e) => {
                return Err(e);
            },
        }
        proof {
            assert(self.wrtr@ =~= old(self).wrtr@ + (len32(fun.free_vars@.len()) + enc_pid(
                fun.pid@,
                f0,
            )));
        }
        match self._encode_atom_term(&fun.module) {
            Ok(()) => {},
            Err(e) => {
                return Err(e);
            },
        }
        proof {
            assert(self.wrtr@ =~= old(self).wrtr@ + (len32(fun.free_vars@.len()) + enc_pid(
                fun.pid@,
                f0,
            ) + enc_atom(fun.module@, f0)));
        }
        match self._encode_compact_u32(fun.index) {
            Ok(()) => {},
            Err(e) => {
                return Err(e);
            },
        }
        proof {
            assert(self.wrtr@ =~= old(self).wrtr@ + (len32(fun.free_vars@.len()) + enc_pid(
                fun.pid@,
                f0,
            ) + enc_atom(fun.module@, f0) + enc_compact_u32(fun.index)));
        }
        match self._encode_compact_u32(fun.uniq) {
            Ok(()) => {},
            Err(e) => {
                return Err(e);
            },
        }
        proof {
            assert(self.wrtr@ =~= old(self).wrtr@ + (len32(fun.free_vars@.len()) + enc_pid(
                fun.pid@,
                f0,
            ) + enc_atom(fun.module@, f0) + enc_compact_u32(fun.index) + enc_compact_u32(
                fun.uniq,
            )));
        }
        match self._encode_terms(&fun.free_vars) {
            Ok(()) => {},
            Err(e) => {
                return Err(e);
            },
        }
        proof {
            assert(self.wrtr@ =~= old(self).wrtr@ + (len32(fun.free_vars@.len()) + enc_pid(
                fun.pid@,
                f0,
            ) + enc_atom(fun.module@, f0) + enc_compact_u32(fun.index) + enc_compact_u32(fun.uniq)
                + enc_terms(terms_view(fun.free_vars), f0)));
        }
        Ok(())
    }

    /// Writes an export body: the module atom, the function atom, then the
    /// arity as a one-byte integer record.
    fn encode_export(&mut self, export: &Export) -> (r: EncodeResult)
        ensures
            Self::wrote(
                *old(self),
                *final(self),
                r is Ok,
                enc_atom(export.module@, old(self).flags()) + enc_atom(
                    export.function@,
                    old(self).flags(),
                ) + seq![97u8, export.arity],
            ),
            (r is Ok) <==> (wf_atom(export.module@) && wf_atom(export.function@)),
            r matches Err(e) ==> e == Error::BadTerm,
    {
        match self._encode_atom_term(&export.module) {
            Ok(()) => {},
            Err(e) => {
                return Err(e);
            },
        }
        match self._encode_atom_term(&export.function) {
            Ok(()) => {},
            Err(e) => {
                return Err(e);
            },
        }
        self._encode_tag(ErlTermTag::SMALL_INTEGER_EXT);
        self.write_u8(export.arity);
        proof {
            assert(self.wrtr@ =~= old(self).wrtr@ + (enc_atom(export.module@, old(self).flags())
                + enc_atom(export.function@, old(self).flags()) + seq![97u8, export.arity]));
        }
        Ok(())
    }

    /// Writes a bit-string body: a four-byte length, the trailing-bit count,
    /// then the bytes.
    fn encode_bit_binary(&mut self, bit_bin: &BitBinary) -> (r: EncodeResult)
        ensures
            Self::wrote(
                *old(self),
                *final(self),
                r is Ok,
                len32(bit_bin.data@.len()) + seq![bit_bin.bits] + bit_bin.data@,
            ),
            (r is Ok) <==> bit_bin.data@.len() <= 0xFFFF_FFFF,
            r matches Err(e) ==> e == Error::BadTerm,
    {
        if bit_bin.data.len() > 0xFFFF_FFFFusize {
            return Err(Error::BadTerm);
        }
        self.write_u32_be(bit_bin.data.len() as u32);
        self.write_u8(bit_bin.bits);
        self.write_all(bit_bin.data.as_slice());
        proof {
            assert(self.wrtr@ =~= old(self).wrtr@ + (len32(bit_bin.data@.len()) + seq![
                bit_bin.bits,
            ] + bit_bin.data@));
        }
        Ok(())
    }

    /// Writes one full term record through a shared reference.
    #[verifier::rlimit(100)]
    #[verifier::spinoff_prover]
    fn _encode_term_ref(&mut self, term: &Eterm) -> (r: EncodeResult)
        ensures
            Self::wrote(*old(self), *final(self), r is Ok, enc_term(term@, old(self).flags())),
            (r is Ok) <==> wf_term(term@, old(self).flags()),
            r matches Err(e) ==> e == Error::BadTerm,
        decreases *term, 3int,
    {
        let ghost e0 = *self;
        let ghost f0 = e0.flags();
        match term {
            Eterm::SmallInteger(num) => {
                self._encode_tag(ErlTermTag::SMALL_INTEGER_EXT);
                self.write_u8(*num);
                proof {
                    assert(self.wrtr@ =~= e0.wrtr@ + enc_term(term@, f0));
                }
                Ok(())
            },
            Eterm::Integer(num) => {
                self._encode_tag(ErlTermTag::INTEGER_EXT);
                self.write_i32_be(*num);
                proof {
                    assert(self.wrtr@ =~= e0.wrtr@ + enc_term(term@, f0));
                }
                Ok(())
            },
            Eterm::Float(bits) => {
                self._encode_tag(ErlTermTag::NEW_FLOAT_EXT);
                self.write_u64_be(*bits);
                proof {
                    assert(self.wrtr@ =~= e0.wrtr@ + enc_term(term@, f0));
                }
                Ok(())
            },
            Eterm::Atom(atom) => self._encode_atom_term(atom),
            Eterm::Pid(pid) => self._encode_pid_term(pid),
            Eterm::Reference(_) | Eterm::Port(_) | Eterm::String(_) | Eterm::Binary(_)
                | Eterm::BigNum(_) | Eterm::Export(_) | Eterm::BitBinary(_) => self
                ._encode_flat_term(term),
            Eterm::Tuple(_) | Eterm::EMap(_) | Eterm::List(_) => self._encode_container_term(
                term,
            ),
            Eterm::Fun(_) | Eterm::NewFun(_) => self._encode_closure_term(term),
            Eterm::Nil => {
                self._encode_tag(ErlTermTag::NIL_EXT);
                proof {
                    assert(self.wrtr@ =~= e0.wrtr@ + enc_term(term@, f0));
                }
                Ok(())
            },
        }
    }

    /// Writes one full term record of a variant whose body holds no nested
    /// terms other than atoms.
    #[verifier::rlimit(100)]
    #[verifier::spinoff_prover]
    fn _encode_flat_term(&mut self, term: &Eterm) -> (r: EncodeResult)
        requires
            term matches Eterm::Reference(_) || term matches Eterm::Port(_) || term
                matches Eterm::String(_) || term matches Eterm::Binary(_) || term
                matches Eterm::BigNum(_) || term matches Eterm::Export(_) || term
                matches Eterm::BitBinary(_),
        ensures
            Self::wrote(*old(self), *final(self), r is Ok, enc_term(term@, old(self).flags())),
            (r is Ok) <==> wf_term(term@, old(self).flags()),
            r matches Err(e) ==> e == Error::BadTerm,
    {
        let ghost e0 = *self;
        let ghost f0 = e0.flags();
        match term {
            Eterm::Reference(reference) => {
                self._encode_tag(ErlTermTag::NEW_REFERENCE_EXT);
                match self.encode_new_reference(reference) {
                    Ok(()) => {
                        proof {
                            assert(self.wrtr@ =~= e0.wrtr@ + enc_term(term@, f0));
                        }
                        Ok(())
                    },
                    Err(e) => Err(e),
                }
            },
            Eterm::Port(port) => {
                self._encode_tag(ErlTermTag::PORT_EXT);
                match self.encode_port(port) {
                    Ok(()) => {
                        proof {
                            assert(self.wrtr@ =~= e0.wrtr@ + enc_term(term@, f0));
                        }
                        Ok(())
                    },
                    Err(e) => Err(e),
                }
            },
            Eterm::String(s) => {
                self._encode_tag(ErlTermTag::STRING_EXT);
                match self.encode_string(s) {
                    Ok(()) => {
                        proof {
                            assert(self.wrtr@ =~= e0.wrtr@ + enc_term(term@, f0));
                        }
                        Ok(())
                    },
                    Err(e) => Err(e),
                }
            },
            Eterm::Binary(bin) => {
                self._encode_tag(ErlTermTag::BINARY_EXT);
                match self.encode_binary(bin) {
                    Ok(()) => {
                        proof {
                            assert(self.wrtr@ =~= e0.wrtr@ + enc_term(term@, f0));
                        }
                        Ok(())
                    },
                    Err(e) => Err(e),
                }
            },
            Eterm::BigNum(num) => {
                if num.magnitude.len() <= 255 {
                    self._encode_tag(ErlTermTag::SMALL_BIG_EXT);
                    match self.encode_small_big(num) {
                        Ok(()) => {
                            proof {
                                assert(self.wrtr@ =~= e0.wrtr@ + enc_term(term@, f0));
                            }
                            Ok(())
                        },
                        Err(e) => Err(e),
                    }
                } else {
                    self._encode_tag(ErlTermTag::LARGE_BIG_EXT);
                    match self.encode_large_big(num) {
                        Ok(()) => {
                            proof {
                                assert(self.wrtr@ =~= e0.wrtr@ + enc_term(term@, f0));
                            }
                            Ok(())
                        },
                        Err(e) => Err(e),
                    }
                }
            },
            Eterm::Export(export) => {
                self._encode_tag(ErlTermTag::EXPORT_EXT);
                match self.encode_export(export) {
                    Ok(()) => {
                        proof {
                            assert(self.wrtr@ =~= e0.wrtr@ + enc_term(term@, f0));
                        }
                        Ok(())
                    },
                    Err(e) => Err(e),
                }
            },
            Eterm::BitBinary(bit_binary) => {
                self._encode_tag(ErlTermTag::BIT_BINARY_EXT);
                match self.encode_bit_binary(bit_binary) {
                    Ok(()) => {
                        proof {
                            assert(self.wrtr@ =~= e0.wrtr@ + enc_term(term@, f0));
                        }
                        Ok(())
                    },
                    Err(e) => Err(e),
                }
            },
            _ => {
                proof {
                    assert(false);
                }
                Err(Error::BadTerm)
            },
        }
    }

    /// Writes one full term record of a variant whose body carries nested
    /// terms.
    #[verifier::rlimit(100)]
    #[verifier::spinoff_prover]
    fn _encode_container_term(&mut self, term: &Eterm) -> (r: EncodeResult)
        requires
            term matches Eterm::Tuple(_) || term matches Eterm::EMap(_) || term
                matches Eterm::List(_),
        ensures
            Self::wrote(*old(self), *final(self), r is Ok, enc_term(term@, old(self).flags())),
            (r is Ok) <==> wf_term(term@, old(self).flags()),
            r matches Err(e) ==> e == Error::BadTerm,
        decreases *term, 2int,
    {
        let ghost e0 = *self;
        let ghost f0 = e0.flags();
        match term {
            Eterm::Tuple(tuple) => {
                if tuple.len() <= 255 {
                    self._encode_tag(ErlTermTag::SMALL_TUPLE_EXT);
                    match self.encode_small_tuple(tuple) {
                        Ok(()) => {
                            proof {
                                assert(self.wrtr@ =~= e0.wrtr@ + enc_term(term@, f0));
                            }
                            Ok(())
                        },
                        Err(e) => Err(e),
                    }
                } else {
                    self._encode_tag(ErlTermTag::LARGE_TUPLE_EXT);
                    match self.encode_large_tuple(tuple) {
                        Ok(()) => {
                            proof {
                                assert(self.wrtr@ =~= e0.wrtr@ + enc_term(term@, f0));
                            }
                            Ok(())
                        },
                        Err(e) => Err(e),
                    }
                }
            },
            Eterm::EMap(map) => {
                self._encode_tag(ErlTermTag::MAP_EXT);
                match self.encode_map(map) {
                    Ok(()) => {
                        proof {
                            assert(self.wrtr@ =~= e0.wrtr@ + enc_term(term@, f0));
                        }
                        Ok(())
                    },
                    Err(e) => Err(e),
                }
            },
            Eterm::List(list) => {
                self._encode_tag(ErlTermTag::LIST_EXT);
                match self.encode_list(list) {
                    Ok(()) => {
                        proof {
                            assert(self.wrtr@ =~= e0.wrtr@ + enc_term(term@, f0));
                        }
                        Ok(())
                    },
                    Err(e) => Err(e),
                }
            },
            _ => {
                proof {
                    assert(false);
                }
                Err(Error::BadTerm)
            },
        }
    }

    /// Writes one full term record: the tag byte chosen by the term's shape
    /// and size, then the record's body. Succeeds exactly when the term is
    /// representable on the wire (`wf_term`); otherwise nothing of this term
    /// is trusted to have been written, `Error::BadTerm` comes back, and the
    /// bytes written before this call are still in place.
    pub fn encode_term(&mut self, term: Eterm) -> (r: EncodeResult)
        ensures
            Self::wrote(*old(self), *final(self), r is Ok, enc_term(term@, old(self).flags())),
            (r is Ok) <==> wf_term(term@, old(self).flags()),
            r matches Err(e) ==> e == Error::BadTerm,
    {
        self._encode_term_ref(&term)
    }
}


impl Encoder {
    /// Writes one full closure record of either format.
    #[verifier::rlimit(100)]
    #[verifier::spinoff_prover]
    fn _encode_closure_term(&mut self, term: &Eterm) -> (r: EncodeResult)
        requires
            term matches Eterm::Fun(_) || term matches Eterm::NewFun(_),
        ensures
            Self::wrote(*old(self), *final(self), r is Ok, enc_term(term@, old(self).flags())),
            (r is Ok) <==> wf_term(term@, old(self).flags()),
            r matches Err(e) ==> e == Error::BadTerm,
        decreases *term, 2int,
    {
        let ghost e0 = *self;
        let ghost f0 = e0.flags();
        match term {
            Eterm::Fun(fun) => {
                self._encode_tag(ErlTermTag::FUN_EXT);
                match self.encode_fun(fun) {
                    Ok(()) => {
                        proof {
                            assert(self.wrtr@ =~= e0.wrtr@ + enc_term(term@, f0));
                        }
                        Ok(())
                    },
                    Err(e) => Err(e),
                }
            },
            Eterm::NewFun(new_fun) => {
                self._encode_tag(ErlTermTag::NEW_FUN_EXT);
                match self.encode_new_fun(new_fun) {
                    Ok(()) => {
                        proof {
                            assert(self.wrtr@ =~= e0.wrtr@ + enc_term(term@, f0));
                        }
                        Ok(())
                    },
                    Err(e) => Err(e),
                }
            },
            _ => {
                proof {
                    assert(false);
                }
                Err(Error::BadTerm)
            },
        }
    }
}

} // verus!
