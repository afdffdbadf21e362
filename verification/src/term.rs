//! The term model: every value the external term format can carry, together
//! with its mathematical view used by the wire-format specifications.

use vstd::prelude::*;

verus! {

/// One-byte tag of a term record on the wire. Each variant corresponds to a
/// fixed tag byte; see `tag_byte` and `tag_of_byte` in the wire module.
#[allow(non_camel_case_types)]
#[derive(Debug, Clone, Copy, PartialEq, Eq, Structural)]
pub enum ErlTermTag {
    SMALL_INTEGER_EXT,
    INTEGER_EXT,
    FLOAT_EXT,
    ATOM_EXT,
    REFERENCE_EXT,
    PORT_EXT,
    PID_EXT,
    SMALL_TUPLE_EXT,
    LARGE_TUPLE_EXT,
    MAP_EXT,
    NIL_EXT,
    STRING_EXT,
    LIST_EXT,
    BINARY_EXT,
    SMALL_BIG_EXT,
    LARGE_BIG_EXT,
    NEW_REFERENCE_EXT,
    SMALL_ATOM_EXT,
    FUN_EXT,
    NEW_FUN_EXT,
    EXPORT_EXT,
    BIT_BINARY_EXT,
    NEW_FLOAT_EXT,
    ATOM_UTF8_EXT,
    SMALL_ATOM_UTF8_EXT,
}

/// A distributed-identity record with an uninterpreted, multi-word id field.
#[derive(Debug, PartialEq, Clone)]
pub struct Reference {
    pub node: String,
    pub id: Vec<u8>,
    pub creation: u8,
}

/// A port identifier.
#[derive(Debug, PartialEq, Clone)]
pub struct Port {
    pub node: String,
    pub id: u32,
    pub creation: u8,
}

/// A process identifier.
#[derive(Debug, PartialEq, Clone)]
pub struct Pid {
    pub node: String,
    pub id: u32,
    pub serial: u32,
    pub creation: u8,
}

/// A legacy closure record.
#[derive(Debug)]
pub struct Fun {
    pub pid: Pid,
    pub module: String,
    pub index: u32,
    pub uniq: u32,
    pub free_vars: Vec<Eterm>,
}

/// The current closure record. `uniq` is 16 raw digest bytes.
#[derive(Debug)]
pub struct NewFun {
    pub arity: u8,
    pub uniq: Vec<u8>,
    pub index: u32,
    pub module: String,
    pub old_index: u32,
    pub old_uniq: u32,
    pub pid: Pid,
    pub free_vars: Vec<Eterm>,
}

/// A reference to an exported function.
#[derive(Debug, PartialEq, Clone)]
pub struct Export {
    pub module: String,
    pub function: String,
    pub arity: u8,
}

/// A byte blob whose last byte carries only `bits` (1..=8) significant bits.
#[derive(Debug, PartialEq, Clone)]
pub struct BitBinary {
    pub bits: u8,
    pub data: Vec<u8>,
}

/// An arbitrary-precision signed integer in sign-magnitude form, exactly as
/// it travels on the wire: a sign and little-endian base-256 magnitude bytes.
#[derive(Debug, PartialEq, Clone)]
pub struct BigNum {
    pub negative: bool,
    pub magnitude: Vec<u8>,
}

/// One term of the external format.
///
/// Floats are stored as the raw bit pattern of an IEEE-754 double
/// (`f64::to_bits`/`f64::from_bits` convert at the boundary), which keeps the
/// codec byte-exact without any floating-point arithmetic.
///
/// `EMap` is the map term: key-value pairs in insertion order, with no
/// uniqueness requirement on keys at the codec level.
#[derive(Debug)]
pub enum Eterm {
    SmallInteger(u8),
    Integer(i32),
    Float(u64),
    Atom(String),
    Reference(Reference),
    Port(Port),
    Pid(Pid),
    Tuple(Vec<Eterm>),
    EMap(Vec<(Eterm, Eterm)>),
    Nil,
    String(Vec<u8>),
    List(Vec<Eterm>),
    Binary(Vec<u8>),
    BigNum(BigNum),
    Fun(Fun),
    NewFun(NewFun),
    Export(Export),
    BitBinary(BitBinary),
}

/// Everything that can go wrong while decoding or encoding.
#[derive(Debug)]
pub enum Error {
    /// A structurally mandatory sub-term did not have the required tag.
    UnexpectedTerm(ErlTermTag),
    /// The tag byte matches no known term tag.
    UnknownTag(u8),
    /// The input ended before a field could be read in full.
    ByteorderUnexpectedEOF,
    /// A legacy text-encoded float record could not be turned into a value.
    BadFloat,
    /// The byte source did not hold valid UTF-8 where text was required.
    Io,
    /// The term cannot be represented on the wire (a length field would
    /// overflow its width, a closure digest is not 16 bytes long, or a list
    /// is empty).
    BadTerm,
}

pub type DecodeResult = Result<Eterm, Error>;

pub type EncodeResult = Result<(), Error>;

/// The view of a `Reference`.
pub struct RefV {
    pub node: Seq<char>,
    pub id: Seq<u8>,
    pub creation: u8,
}

/// The view of a `Port`.
pub struct PortV {
    pub node: Seq<char>,
    pub id: u32,
    pub creation: u8,
}

/// The view of a `Pid`.
pub struct PidV {
    pub node: Seq<char>,
    pub id: u32,
    pub serial: u32,
    pub creation: u8,
}

/// The view of a `Fun`.
pub struct FunV {
    pub pid: PidV,
    pub module: Seq<char>,
    pub index: u32,
    pub uniq: u32,
    pub free_vars: Seq<TermV>,
}

/// The view of a `NewFun`.
pub struct NewFunV {
    pub arity: u8,
    pub uniq: Seq<u8>,
    pub index: u32,
    pub module: Seq<char>,
    pub old_index: u32,
    pub old_uniq: u32,
    pub pid: PidV,
    pub free_vars: Seq<TermV>,
}

/// The view of an `Export`.
pub struct ExportV {
    pub module: Seq<char>,
    pub function: Seq<char>,
    pub arity: u8,
}

/// The view of a `BitBinary`.
pub struct BitBinaryV {
    pub bits: u8,
    pub data: Seq<u8>,
}

/// The view of a `BigNum`.
pub struct BigNumV {
    pub negative: bool,
    pub magnitude: Seq<u8>,
}

/// The mathematical view of a term: the same tree with every `Vec` read as a
/// `Seq` and every atom read as its character sequence.
pub enum TermV {
    SmallInteger(u8),
    Integer(i32),
    Float(u64),
    Atom(Seq<char>),
    Reference(RefV),
    Port(PortV),
    Pid(PidV),
    Tuple(Seq<TermV>),
    EMap(Seq<(TermV, TermV)>),
    Nil,
    String(Seq<u8>),
    List(Seq<TermV>),
    Binary(Seq<u8>),
    BigNum(BigNumV),
    Fun(FunV),
    NewFun(NewFunV),
    Export(ExportV),
    BitBinary(BitBinaryV),
}

impl View for Pid {
    type V = PidV;

    open spec fn view(&self) -> PidV {
        PidV { node: self.node@, id: self.id, serial: self.serial, creation: self.creation }
    }
}

/// The view of one key-value pair of a map term.
pub open spec fn pair_view(p: (Eterm, Eterm)) -> (TermV, TermV)
    decreases p,
{
    (term_view(p.0), term_view(p.1))
}

/// The views of the elements of a vector of terms, in order.
pub open spec fn terms_view(ts: Vec<Eterm>) -> Seq<TermV>
    decreases ts,
{
    Seq::new(ts@.len(), |i: int| if 0 <= i < ts@.len() { term_view(ts[i]) } else { TermV::Nil })
}

/// The views of the pairs of a map term, in order.
pub open spec fn pairs_view(ps: Vec<(Eterm, Eterm)>) -> Seq<(TermV, TermV)>
    decreases ps,
{
    Seq::new(ps@.len(), |i: int| if 0 <= i < ps@.len() { pair_view(ps[i]) } else { (TermV::Nil, TermV::Nil) })
}

impl View for Fun {
    type V = FunV;

    open spec fn view(&self) -> FunV {
        FunV {
            pid: self.pid@,
            module: self.module@,
            index: self.index,
            uniq: self.uniq,
            free_vars: terms_view(self.free_vars),
        }
    }
}

impl View for NewFun {
    type V = NewFunV;

    open spec fn view(&self) -> NewFunV {
        NewFunV {
            arity: self.arity,
            uniq: self.uniq@,
            index: self.index,
            module: self.module@,
            old_index: self.old_index,
            old_uniq: self.old_uniq,
            pid: self.pid@,
            free_vars: terms_view(self.free_vars),
        }
    }
}

/// The view of a term.
pub open spec fn term_view(t: Eterm) -> TermV
    decreases t,
{
    match t {
        Eterm::SmallInteger(n) => TermV::SmallInteger(n),
        Eterm::Integer(n) => TermV::Integer(n),
        Eterm::Float(bits) => TermV::Float(bits),
        Eterm::Atom(s) => TermV::Atom(s@),
        Eterm::Reference(r) => TermV::Reference(
            RefV { node: r.node@, id: r.id@, creation: r.creation },
        ),
        Eterm::Port(p) => TermV::Port(PortV { node: p.node@, id: p.id, creation: p.creation }),
        Eterm::Pid(p) => TermV::Pid(p@),
        Eterm::Tuple(ts) => TermV::Tuple(terms_view(ts)),
        Eterm::EMap(ps) => TermV::EMap(pairs_view(ps)),
        Eterm::Nil => TermV::Nil,
        Eterm::String(bs) => TermV::String(bs@),
        Eterm::List(ts) => TermV::List(terms_view(ts)),
        Eterm::Binary(bs) => TermV::Binary(bs@),
        Eterm::BigNum(b) => TermV::BigNum(
            BigNumV { negative: b.negative, magnitude: b.magnitude@ },
        ),
        Eterm::Fun(f) => TermV::Fun(
            FunV {
                pid: f.pid@,
                module: f.module@,
                index: f.index,
                uniq: f.uniq,
                free_vars: terms_view(f.free_vars),
            },
        ),
        Eterm::NewFun(f) => TermV::NewFun(
            NewFunV {
                arity: f.arity,
                uniq: f.uniq@,
                index: f.index,
                module: f.module@,
                old_index: f.old_index,
                old_uniq: f.old_uniq,
                pid: f.pid@,
                free_vars: terms_view(f.free_vars),
            },
        ),
        Eterm::Export(e) => TermV::Export(
            ExportV { module: e.module@, function: e.function@, arity: e.arity },
        ),
        Eterm::BitBinary(b) => TermV::BitBinary(BitBinaryV { bits: b.bits, data: b.data@ }),
    }
}

impl View for Eterm {
    type V = TermV;

    open spec fn view(&self) -> TermV {
        term_view(*self)
    }
}

/// The text that `Error::description` returns for each variant.
pub open spec fn error_description(e: Error) -> Seq<char> {
    match e {
        Error::BadFloat => "Can't parse float, encoded as string"@,
        Error::UnexpectedTerm(_) => "Expected other term as a part of other complex term"@,
        Error::UnknownTag(_) => "Unknown term tag ID"@,
        Error::ByteorderUnexpectedEOF => "Not enough bytes to parse multibyte value"@,
        Error::Io => "The byte source did not hold valid UTF-8 text"@,
        Error::BadTerm => "The term cannot be represented on the wire"@,
    }
}

impl Error {
    /// A short description of the error, one fixed text per variant.
    pub fn description(&self) -> (r: &'static str)
        ensures
            r@ == error_description(*self),
    {
        match *self {
            Error::BadFloat => "Can't parse float, encoded as string",
            Error::UnexpectedTerm(_) => "Expected other term as a part of other complex term",
            Error::UnknownTag(_) => "Unknown term tag ID",
            Error::ByteorderUnexpectedEOF => "Not enough bytes to parse multibyte value",
            Error::Io => "The byte source did not hold valid UTF-8 text",
            Error::BadTerm => "The term cannot be represented on the wire",
        }
    }
}

/// An empty vector of terms has no element views.
pub proof fn lemma_terms_view_empty(v: Vec<Eterm>)
    requires
        v@.len() == 0,
    ensures
        terms_view(v) == Seq::<TermV>::empty(),
{
    assert(terms_view(v) =~= Seq::<TermV>::empty());
}

/// Pushing a term onto a vector pushes its view onto the vector's views.
pub proof fn lemma_terms_view_push(v1: Vec<Eterm>, v2: Vec<Eterm>, t: Eterm)
    requires
        v2@ == v1@.push(t),
    ensures
        terms_view(v2) == terms_view(v1).push(term_view(t)),
{
    assert(terms_view(v2) =~= terms_view(v1).push(term_view(t)));
}

/// An empty vector of pairs has no pair views.
pub proof fn lemma_pairs_view_empty(v: Vec<(Eterm, Eterm)>)
    requires
        v@.len() == 0,
    ensures
        pairs_view(v) == Seq::<(TermV, TermV)>::empty(),
{
    assert(pairs_view(v) =~= Seq::<(TermV, TermV)>::empty());
}

/// Pushing a pair onto a vector pushes its views onto the vector's views.
pub proof fn lemma_pairs_view_push(v1: Vec<(Eterm, Eterm)>, v2: Vec<(Eterm, Eterm)>, key: Eterm, val: Eterm)
    requires
        v2@ == v1@.push((key, val)),
    ensures
        pairs_view(v2) == pairs_view(v1).push((term_view(key), term_view(val))),
{
    assert(pairs_view(v2) =~= pairs_view(v1).push((term_view(key), term_view(val))));
}

/// Whether two byte vectors hold the same bytes.
fn bytes_eq(x: &Vec<u8>, y: &Vec<u8>) -> (r: bool)
    ensures
        r == (x@ == y@),
{
    if x.len() != y.len() {
        return false;
    }
    let n = x.len();
    let mut i: usize = 0;
    while i < n
        invariant
            i <= n,
            n == x@.len(),
            n == y@.len(),
            forall|j: int| 0 <= j < i ==> x@[j] == #[trigger] y@[j],
        decreases n - i,
    {
        if x[i] != y[i] {
            return false;
        }
        i = i + 1;
    }
    proof {
        assert(x@ =~= y@);
    }
    true
}

/// Whether two process identifiers hold the same fields.
fn pid_fields_eq(x: &Pid, y: &Pid) -> (r: bool)
    ensures
        r == (x@ == y@),
{
    x.node == y.node && x.id == y.id && x.serial == y.serial && x.creation == y.creation
}

/// Whether two terms are the same value, field for field and element for
/// element: the executable form of view equality.
#[verifier::rlimit(100)]
#[verifier::spinoff_prover]
fn term_eq(x: &Eterm, y: &Eterm) -> (r: bool)
    ensures
        r == (term_view(*x) == term_view(*y)),
    decreases *x,
{
    match x {
        Eterm::SmallInteger(a) => match y {
            Eterm::SmallInteger(b) => *a == *b,
            _ => false,
        },
        Eterm::Integer(a) => match y {
            Eterm::Integer(b) => *a == *b,
            _ => false,
        },
        Eterm::Float(a) => match y {
            Eterm::Float(b) => *a == *b,
            _ => false,
        },
        Eterm::Atom(a) => match y {
            Eterm::Atom(b) => *a == *b,
            _ => false,
        },
        Eterm::Reference(a) => match y {
            Eterm::Reference(b) => a.node == b.node && bytes_eq(&a.id, &b.id) && a.creation
                == b.creation,
            _ => false,
        },
        Eterm::Port(a) => match y {
            Eterm::Port(b) => a.node == b.node && a.id == b.id && a.creation == b.creation,
            _ => false,
        },
        Eterm::Pid(a) => match y {
            Eterm::Pid(b) => pid_fields_eq(a, b),
            _ => false,
        },
        Eterm::Tuple(a) => match y {
            Eterm::Tuple(b) => terms_eq(a, b),
            _ => false,
        },
        Eterm::EMap(a) => match y {
            Eterm::EMap(b) => pairs_eq(a, b),
            _ => false,
        },
        Eterm::Nil => match y {
            Eterm::Nil => true,
            _ => false,
        },
        Eterm::String(a) => match y {
            Eterm::String(b) => bytes_eq(a, b),
            _ => false,
        },
        Eterm::List(a) => match y {
            Eterm::List(b) => terms_eq(a, b),
            _ => false,
        },
        Eterm::Binary(a) => match y {
            Eterm::Binary(b) => bytes_eq(a, b),
            _ => false,
        },
        Eterm::BigNum(a) => match y {
            Eterm::BigNum(b) => a.negative == b.negative && bytes_eq(&a.magnitude, &b.magnitude),
            _ => false,
        },
        Eterm::Fun(a) => match y {
            Eterm::Fun(b) => fun_fields_eq(a, b),
            _ => false,
        },
        Eterm::NewFun(a) => match y {
            Eterm::NewFun(b) => new_fun_fields_eq(a, b),
            _ => false,
        },
        Eterm::Export(a) => match y {
            Eterm::Export(b) => a.module == b.module && a.function == b.function && a.arity
                == b.arity,
            _ => false,
        },
        Eterm::BitBinary(a) => match y {
            Eterm::BitBinary(b) => a.bits == b.bits && bytes_eq(&a.data, &b.data),
            _ => false,
        },
    }
}

/// Whether two vectors of terms hold the same values, in the same order.
fn terms_eq(x: &Vec<Eterm>, y: &Vec<Eterm>) -> (r: bool)
    ensures
        r == (terms_view(*x) == terms_view(*y)),
    decreases *x,
{
    if x.len() != y.len() {
        proof {
            assert(terms_view(*x).len() == x@.len());
            assert(terms_view(*y).len() == y@.len());
        }
        return false;
    }
    let n = x.len();
    let mut i: usize = 0;
    while i < n
        invariant
            i <= n,
            n == x@.len(),
            n == y@.len(),
            forall|j: int| 0 <= j < i ==> terms_view(*x)[j] == #[trigger] terms_view(*y)[j],
        decreases n - i,
    {
        if !term_eq(&x[i], &y[i]) {
            proof {
                assert(terms_view(*x)[i as int] == term_view(x@[i as int]));
                assert(terms_view(*y)[i as int] == term_view(y@[i as int]));
            }
            return false;
        }
        i = i + 1;
    }
    proof {
        assert(terms_view(*x) =~= terms_view(*y));
    }
    true
}

/// Whether two key-value pairs hold the same key and value.
fn term_pair_eq(x: &(Eterm, Eterm), y: &(Eterm, Eterm)) -> (r: bool)
    ensures
        r == (pair_view(*x) == pair_view(*y)),
    decreases *x,
{
    term_eq(&x.0, &y.0) && term_eq(&x.1, &y.1)
}

/// Whether two vectors of key-value pairs hold the same pairs, in the same
/// order.
fn pairs_eq(x: &Vec<(Eterm, Eterm)>, y: &Vec<(Eterm, Eterm)>) -> (r: bool)
    ensures
        r == (pairs_view(*x) == pairs_view(*y)),
    decreases *x,
{
    if x.len() != y.len() {
        proof {
            assert(pairs_view(*x).len() == x@.len());
            assert(pairs_view(*y).len() == y@.len());
        }
        return false;
    }
    let n = x.len();
    let mut i: usize = 0;
    while i < n
        invariant
            i <= n,
            n == x@.len(),
            n == y@.len(),
            forall|j: int| 0 <= j < i ==> pairs_view(*x)[j] == #[trigger] pairs_view(*y)[j],
        decreases n - i,
    {
        if !term_pair_eq(&x[i], &y[i]) {
            proof {
                assert(pairs_view(*x)[i as int] == pair_view(x@[i as int]));
                assert(pairs_view(*y)[i as int] == pair_view(y@[i as int]));
            }
            return false;
        }
        i = i + 1;
    }
    proof {
        assert(pairs_view(*x) =~= pairs_view(*y));
    }
    true
}

/// Whether two legacy closures hold the same fields.
fn fun_fields_eq(x: &Fun, y: &Fun) -> (r: bool)
    ensures
        r == (x@ == y@),
    decreases *x,
{
    pid_fields_eq(&x.pid, &y.pid) && x.module == y.module && x.index == y.index && x.uniq
        == y.uniq && terms_eq(&x.free_vars, &y.free_vars)
}

/// Whether two current-format closures hold the same fields.
fn new_fun_fields_eq(x: &NewFun, y: &NewFun) -> (r: bool)
    ensures
        r == (x@ == y@),
    decreases *x,
{
    x.arity == y.arity && bytes_eq(&x.uniq, &y.uniq) && x.index == y.index && x.module
        == y.module && x.old_index == y.old_index && x.old_uniq == y.old_uniq && pid_fields_eq(
        &x.pid,
        &y.pid,
    ) && terms_eq(&x.free_vars, &y.free_vars)
}

impl PartialEq for Eterm {
    /// Deep value equality, element for element.
    fn eq(&self, other: &Eterm) -> (r: bool) {
        term_eq(self, other)
    }
}

impl vstd::std_specs::cmp::PartialEqSpecImpl for Eterm {
    open spec fn obeys_eq_spec() -> bool {
        true
    }

    open spec fn eq_spec(&self, other: &Eterm) -> bool {
        term_view(*self) == term_view(*other)
    }
}

impl PartialEq for Fun {
    /// Deep value equality, field for field.
    fn eq(&self, other: &Fun) -> (r: bool) {
        fun_fields_eq(self, other)
    }
}

impl vstd::std_specs::cmp::PartialEqSpecImpl for Fun {
    open spec fn obeys_eq_spec() -> bool {
        true
    }

    open spec fn eq_spec(&self, other: &Fun) -> bool {
        self@ == other@
    }
}

impl PartialEq for NewFun {
    /// Deep value equality, field for field.
    fn eq(&self, other: &NewFun) -> (r: bool) {
        new_fun_fields_eq(self, other)
    }
}

impl vstd::std_specs::cmp::PartialEqSpecImpl for NewFun {
    open spec fn obeys_eq_spec() -> bool {
        true
    }

    open spec fn eq_spec(&self, other: &NewFun) -> bool {
        self@ == other@
    }
}

/// A fresh vector holding the same bytes.
fn bytes_clone(x: &Vec<u8>) -> (r: Vec<u8>)
    ensures
        r@ == x@,
{
    let n = x.len();
    let mut out: Vec<u8> = Vec::new();
    let mut i: usize = 0;
    while i < n
        invariant
            i <= n,
            n == x@.len(),
            out@ == x@.subrange(0, i as int),
        decreases n - i,
    {
        out.push(x[i]);
        i = i + 1;
        proof {
            assert(out@ =~= x@.subrange(0, i as int));
        }
    }
    proof {
        assert(x@.subrange(0, n as int) =~= x@);
    }
    out
}

/// A fresh process identifier holding the same fields.
fn pid_fields_clone(x: &Pid) -> (r: Pid)
    ensures
        r@ == x@,
{
    Pid { node: x.node.clone(), id: x.id, serial: x.serial, creation: x.creation }
}

/// A fresh term holding the same value, element for element: the executable
/// form of view-preserving duplication.
#[verifier::rlimit(100)]
#[verifier::spinoff_prover]
fn term_clone(x: &Eterm) -> (r: Eterm)
    ensures
        term_view(r) == term_view(*x),
    decreases *x,
{
    match x {
        Eterm::SmallInteger(a) => Eterm::SmallInteger(*a),
        Eterm::Integer(a) => Eterm::Integer(*a),
        Eterm::Float(a) => Eterm::Float(*a),
        Eterm::Atom(a) => Eterm::Atom(a.clone()),
        Eterm::Reference(a) => Eterm::Reference(
            Reference { node: a.node.clone(), id: bytes_clone(&a.id), creation: a.creation },
        ),
        Eterm::Port(a) => Eterm::Port(
            Port { node: a.node.clone(), id: a.id, creation: a.creation },
        ),
        Eterm::Pid(a) => Eterm::Pid(pid_fields_clone(a)),
        Eterm::Tuple(a) => Eterm::Tuple(terms_clone(a)),
        Eterm::EMap(a) => Eterm::EMap(pairs_clone(a)),
        Eterm::Nil => Eterm::Nil,
        Eterm::String(a) => Eterm::String(bytes_clone(a)),
        Eterm::List(a) => Eterm::List(terms_clone(a)),
        Eterm::Binary(a) => Eterm::Binary(bytes_clone(a)),
        Eterm::BigNum(a) => Eterm::BigNum(
            BigNum { negative: a.negative, magnitude: bytes_clone(&a.magnitude) },
        ),
        Eterm::Fun(a) => Eterm::Fun(fun_fields_clone(a)),
        Eterm::NewFun(a) => Eterm::NewFun(new_fun_fields_clone(a)),
        Eterm::Export(a) => Eterm::Export(
            Export { module: a.module.clone(), function: a.function.clone(), arity: a.arity },
        ),
        Eterm::BitBinary(a) => Eterm::BitBinary(
            BitBinary { bits: a.bits, data: bytes_clone(&a.data) },
        ),
    }
}

/// A fresh vector of terms holding the same values, in the same order.
fn terms_clone(x: &Vec<Eterm>) -> (r: Vec<Eterm>)
    ensures
        terms_view(r) == terms_view(*x),
    decreases *x,
{
    let n = x.len();
    let mut out: Vec<Eterm> = Vec::new();
    let mut i: usize = 0;
    while i < n
        invariant
            i <= n,
            n == x@.len(),
            out@.len() == i,
            forall|j: int| 0 <= j < i ==> terms_view(out)[j] == #[trigger] terms_view(*x)[j],
        decreases n - i,
    {
        let t = term_clone(&x[i]);
        out.push(t);
        i = i + 1;
    }
    proof {
        assert(terms_view(out) =~= terms_view(*x));
    }
    out
}

/// A fresh vector of key-value pairs holding the same pairs, in the same
/// order.
fn pairs_clone(x: &Vec<(Eterm, Eterm)>) -> (r: Vec<(Eterm, Eterm)>)
    ensures
        pairs_view(r) == pairs_view(*x),
    decreases *x,
{
    let n = x.len();
    let mut out: Vec<(Eterm, Eterm)> = Vec::new();
    let mut i: usize = 0;
    while i < n
        invariant
            i <= n,
            n == x@.len(),
            out@.len() == i,
            forall|j: int| 0 <= j < i ==> pairs_view(out)[j] == #[trigger] pairs_view(*x)[j],
        decreases n - i,
    {
        let p = term_pair_clone(&x[i]);
        out.push(p);
        i = i + 1;
    }
    proof {
        assert(pairs_view(out) =~= pairs_view(*x));
    }
    out
}

/// A fresh key-value pair holding the same key and value.
fn term_pair_clone(x: &(Eterm, Eterm)) -> (r: (Eterm, Eterm))
    ensures
        pair_view(r) == pair_view(*x),
    decreases *x,
{
    (term_clone(&x.0), term_clone(&x.1))
}

/// A fresh legacy closure holding the same fields.
fn fun_fields_clone(x: &Fun) -> (r: Fun)
    ensures
        r@ == x@,
    decreases *x,
{
    Fun {
        pid: pid_fields_clone(&x.pid),
        module: x.module.clone(),
        index: x.index,
        uniq: x.uniq,
        free_vars: terms_clone(&x.free_vars),
    }
}

/// A fresh current-format closure holding the same fields.
fn new_fun_fields_clone(x: &NewFun) -> (r: NewFun)
    ensures
        r@ == x@,
    decreases *x,
{
    NewFun {
        arity: x.arity,
        uniq: bytes_clone(&x.uniq),
        index: x.index,
        module: x.module.clone(),
        old_index: x.old_index,
        old_uniq: x.old_uniq,
        pid: pid_fields_clone(&x.pid),
        free_vars: terms_clone(&x.free_vars),
    }
}

impl Clone for Eterm {
    /// A deep copy with the same value.
    fn clone(&self) -> (r: Eterm)
        ensures
            r@ == self@,
    {
        term_clone(self)
    }
}

impl Clone for Fun {
    /// A deep copy with the same value.
    fn clone(&self) -> (r: Fun)
        ensures
            r@ == self@,
    {
        fun_fields_clone(self)
    }
}

impl Clone for NewFun {
    /// A deep copy with the same value.
    fn clone(&self) -> (r: NewFun)
        ensures
            r@ == self@,
    {
        new_fun_fields_clone(self)
    }
}

} // verus!
