use vstd::prelude::*;
use vstd::std_specs::cmp::PartialEqSpec;
use vstd::utf8::encode_utf8;
use vstd::std_specs::iter::IteratorSpec;

verus! {

// Latin-1 strings -------------------------------------------------------

/// True when the UTF-8 bytes `b` can be rewritten as Latin-1 by the fast
/// decoder: every byte that starts a character is either ASCII or a 2-byte
/// lead of the form `110000yy`, and such a lead is followed by another byte.
pub open spec fn latin1_decodable(b: Seq<u8>) -> bool
    decreases b.len(),
{
    if b.len() == 0 {
        true
    } else if b[0] < 0x80 {
        latin1_decodable(b.drop_first())
    } else if b[0] >> 2u8 == 0x30u8 && b.len() >= 2 {
        latin1_decodable(b.subrange(2, b.len() as int))
    } else {
        false
    }
}

/// The Latin-1 byte that a 2-byte UTF-8 sequence `b0 b1` stands for.
pub open spec fn latin1_of_pair(b0: u8, b1: u8) -> u8 {
    (((b0 & 3u8) << 6u8) | (b1 & 0x3fu8)) as u8
}

/// The Latin-1 bytes decoded from the UTF-8 bytes `b`.
pub open spec fn latin1_decode(b: Seq<u8>) -> Seq<u8>
    decreases b.len(),
{
    if b.len() == 0 {
        seq![]
    } else if b[0] < 0x80 || b.len() < 2 {
        seq![b[0]] + latin1_decode(b.drop_first())
    } else {
        seq![latin1_of_pair(b[0], b[1])] + latin1_decode(b.subrange(2, b.len() as int))
    }
}

/// Whether the UTF-8 string `s` can be rewritten as Latin-1 by
/// `DfString::fast_from_string`.
pub fn is_latin1(s: &str) -> (r: bool)
    ensures
        r == latin1_decodable(encode_utf8(s@)),
{
    let b: &[u8] = s.as_bytes();
    let n = b.len();
    let mut i: usize = 0;
    assert(b@.subrange(0, n as int) =~= b@);
    while i < n
        invariant
            b@ == encode_utf8(s@),
            n == b@.len(),
            i <= n,
            latin1_decodable(b@) == latin1_decodable(b@.subrange(i as int, n as int)),
        decreases n - i,
    {
        let ghost rest = b@.subrange(i as int, n as int);
        let c = b[i];
        if c < 0x80 {
            i += 1;
            assert(rest.drop_first() =~= b@.subrange(i as int, n as int));
        } else if c >> 2u8 == 0x30u8 && i + 1 < n {
            i += 2;
            assert(rest.subrange(2, rest.len() as int) =~= b@.subrange(i as int, n as int));
        } else {
            return false;
        }
    }
    true
}

/// An owned string of Latin-1 bytes.
#[derive(Clone, Debug)]
pub struct DfString(Vec<u8>);

impl View for DfString {
    type V = Seq<u8>;

    closed spec fn view(&self) -> Seq<u8> {
        self.0@
    }
}

impl DfString {
    /// Rewrites a UTF-8 string whose characters are all Latin-1 as Latin-1
    /// bytes, in one pass.
    pub fn fast_from_string(s: String) -> (r: Self)
        requires
            latin1_decodable(encode_utf8(s@)),
        ensures
            r@ == latin1_decode(encode_utf8(s@)),
    {
        let b: &[u8] = s.as_str().as_bytes();
        let b_len = b.len();
        let mut out: Vec<u8> = Vec::new();
        let mut bytes_i: usize = 0;
        assert(b@.subrange(0, b_len as int) =~= b@);
        assert(out@ + latin1_decode(b@) =~= latin1_decode(b@));
        while bytes_i < b_len
            invariant
                b@ == encode_utf8(s@),
                b_len == b@.len(),
                bytes_i <= b_len,
                latin1_decodable(b@.subrange(bytes_i as int, b_len as int)),
                out@ + latin1_decode(b@.subrange(bytes_i as int, b_len as int))
                    == latin1_decode(b@),
            decreases b_len - bytes_i,
        {
            let ghost rest = b@.subrange(bytes_i as int, b_len as int);
            let c = b[bytes_i];
            if c < 0x80 {
                out.push(c);
                bytes_i += 1;
                assert(rest.drop_first() =~= b@.subrange(bytes_i as int, b_len as int));
            } else {
                assert(c >> 2u8 == 0x30u8 && rest.len() >= 2);
                let d = b[bytes_i + 1];
                let x: u8 = (c & 3u8) << 6u8 | d & 0x3fu8;
                out.push(x);
                bytes_i += 2;
                assert(rest.subrange(2, rest.len() as int) =~= b@.subrange(
                    bytes_i as int,
                    b_len as int,
                ));
            }
            assert(out@ + latin1_decode(b@.subrange(bytes_i as int, b_len as int))
                =~= latin1_decode(b@)) by {
                let o = out@.drop_last();
                assert(o + latin1_decode(rest) == latin1_decode(b@));
                assert(out@ =~= o.push(out@.last()));
            }
        }
        assert(b@.subrange(b_len as int, b_len as int) =~= Seq::<u8>::empty());
        assert(out@ + Seq::<u8>::empty() =~= out@);
        assert(b@.subrange(0, b_len as int) =~= b@);
        DfString(out)
    }

    /// Wraps the bytes `v` without looking at them.
    pub fn from_vec(v: Vec<u8>) -> (r: Self)
        ensures
            r@ == v@,
    {
        DfString(v)
    }

    /// The bytes of the string.
    pub fn as_bytes(&self) -> (r: &[u8])
        ensures
            r@ == self@,
    {
        self.0.as_slice()
    }
}

impl PartialEq for DfString {
    fn eq(&self, other: &DfString) -> (r: bool) {
        bytes_eq(self.0.as_slice(), other.0.as_slice())
    }
}

impl vstd::std_specs::cmp::PartialEqSpecImpl for DfString {
    open spec fn obeys_eq_spec() -> bool {
        true
    }

    open spec fn eq_spec(&self, other: &DfString) -> bool {
        self@ == other@
    }
}

impl Eq for DfString {
}

/// A borrowed string of Latin-1 bytes.
#[derive(Clone, Copy, Debug)]
pub struct DfStr<'a>(pub &'a [u8]);

impl<'a> View for DfStr<'a> {
    type V = Seq<u8>;

    open spec fn view(&self) -> Seq<u8> {
        self.0@
    }
}

impl<'a> DfStr<'a> {
    /// Borrows the bytes of an owned string.
    pub fn from_dfstring(s: &'a DfString) -> (r: DfStr<'a>)
        ensures
            r@ == s@,
    {
        DfStr(s.as_bytes())
    }

    /// The bytes of the string.
    pub fn as_bytes(&self) -> (r: &'a [u8])
        ensures
            r@ == self@,
    {
        self.0
    }

    /// Copies the bytes into an owned string.
    pub fn to_dfstring(&self) -> (r: DfString)
        ensures
            r@ == self@,
    {
        DfString(copy_bytes(self.0))
    }
}

// Symbols ---------------------------------------------------------------

/// One step of the 32-bit FNV-1a hash.
pub open spec fn fnv_step(h: u32, c: u8) -> u32 {
    (((h ^ (c as u32)) as int * 16777619) % 0x1_0000_0000) as u32
}

/// The 32-bit FNV-1a hash of the bytes `s`.
pub open spec fn fnv_hash(s: Seq<u8>) -> u32
    decreases s.len(),
{
    if s.len() == 0 {
        2166136261u32
    } else {
        fnv_step(fnv_hash(s.drop_last()), s.last())
    }
}

/// The 32-bit FNV-1a hash of `b`.
pub fn hash_bytes(b: &[u8]) -> (h: u32)
    ensures
        h == fnv_hash(b@),
{
    let mut h: u32 = 2166136261;
    let mut i: usize = 0;
    while i < b.len()
        invariant
            i <= b@.len(),
            h == fnv_hash(b@.take(i as int)),
        decreases b@.len() - i,
    {
        let x: u32 = h ^ (b[i] as u32);
        assert(b@.take(i + 1).drop_last() =~= b@.take(i as int));
        h = x.wrapping_mul(16777619);
        i += 1;
    }
    assert(b@.take(b@.len() as int) =~= b@);
    h
}

pub type SymId = u16;

/// An owned string together with its precomputed hash.
#[derive(Clone)]
pub struct Symbol {
    s: DfString,
    h: u32,
}

impl View for Symbol {
    type V = Seq<u8>;

    closed spec fn view(&self) -> Seq<u8> {
        self.s@
    }
}

impl Symbol {
    /// The hash stored with the symbol.
    pub closed spec fn spec_hash(&self) -> u32 {
        self.h
    }

    /// The stored hash is the hash of the bytes.
    pub open spec fn wf(&self) -> bool {
        self.spec_hash() == fnv_hash(self@)
    }

    pub fn hash(&self) -> (h: u32)
        ensures
            h == self.spec_hash(),
    {
        self.h
    }

    /// The symbol of the bytes `s`.
    pub fn from_vec(s: Vec<u8>) -> (r: Symbol)
        ensures
            r@ == s@,
            r.wf(),
    {
        let h = hash_bytes(s.as_slice());
        Symbol { s: DfString(s), h }
    }

    /// The symbol of a copy of the bytes `s`.
    pub fn from_slice(s: &[u8]) -> (r: Symbol)
        ensures
            r@ == s@,
            r.wf(),
    {
        Self::from_vec(copy_bytes(s))
    }

    /// An owned copy of a borrowed symbol, keeping its hash.
    pub fn from_sym(s: Sym<'_>) -> (r: Symbol)
        ensures
            r@ == s@,
            r.spec_hash() == s.spec_hash(),
            s.wf() ==> r.wf(),
    {
        Symbol { s: s.s.to_dfstring(), h: s.h }
    }

    /// The bytes of the symbol.
    pub fn as_bytes(&self) -> (r: &[u8])
        ensures
            r@ == self@,
    {
        self.s.as_bytes()
    }
}

/// A borrowed string together with its precomputed hash.
#[derive(Clone, Copy)]
pub struct Sym<'a> {
    pub s: DfStr<'a>,
    h: u32,
}

impl<'a> View for Sym<'a> {
    type V = Seq<u8>;

    closed spec fn view(&self) -> Seq<u8> {
        self.s@
    }
}

impl<'a> Sym<'a> {
    /// The hash stored with the symbol.
    pub closed spec fn spec_hash(&self) -> u32 {
        self.h
    }

    /// The stored hash is the hash of the bytes.
    pub open spec fn wf(&self) -> bool {
        self.spec_hash() == fnv_hash(self@)
    }

    pub fn hash(&self) -> (h: u32)
        ensures
            h == self.spec_hash(),
    {
        self.h
    }

    /// The symbol of the bytes `b`, hashing them.
    pub fn from_slice(b: &'a [u8]) -> (r: Sym<'a>)
        ensures
            r@ == b@,
            r.wf(),
    {
        Sym { s: DfStr(b), h: hash_bytes(b) }
    }

    /// Borrows an owned symbol, keeping its hash.
    pub fn from_symbol(symbol: &'a Symbol) -> (r: Sym<'a>)
        ensures
            r@ == symbol@,
            r.spec_hash() == symbol.spec_hash(),
    {
        Sym { s: DfStr(symbol.as_bytes()), h: symbol.hash() }
    }

    /// Compares the hashes first and the bytes only where they agree.
    pub fn eq_sym(&self, other: &Sym<'a>) -> (b: bool)
        ensures
            b == (self.spec_hash() == other.spec_hash() && self@ == other@),
    {
        self.h == other.h && bytes_eq(self.s.0, other.s.0)
    }
}

/// A fresh vector holding the bytes of `b`.
pub fn copy_bytes(b: &[u8]) -> (v: Vec<u8>)
    ensures
        v@ == b@,
{
    let mut v: Vec<u8> = Vec::new();
    let mut i: usize = 0;
    while i < b.len()
        invariant
            i <= b@.len(),
            v@ == b@.take(i as int),
        decreases b@.len() - i,
    {
        v.push(b[i]);
        i += 1;
        assert(v@ =~= b@.take(i as int));
    }
    assert(b@.take(b@.len() as int) =~= b@);
    v
}

/// Byte-wise equality of two slices.
pub fn bytes_eq(a: &[u8], b: &[u8]) -> (r: bool)
    ensures
        r == (a@ == b@),
{
    if a.len() != b.len() {
        return false;
    }
    let mut i: usize = 0;
    while i < a.len()
        invariant
            a@.len() == b@.len(),
            i <= a@.len(),
            forall|j: int| 0 <= j < i ==> a@[j] == b@[j],
        decreases a@.len() - i,
    {
        if a[i] != b[i] {
            return false;
        }
        i += 1;
    }
    assert(a@ =~= b@);
    true
}

impl<'a> PartialEq for Sym<'a> {
    fn eq(&self, other: &Sym<'a>) -> (b: bool) {
        self.eq_sym(other)
    }
}

impl<'a> vstd::std_specs::cmp::PartialEqSpecImpl for Sym<'a> {
    open spec fn obeys_eq_spec() -> bool {
        true
    }

    open spec fn eq_spec(&self, other: &Sym<'a>) -> bool {
        self.spec_hash() == other.spec_hash() && self@ == other@
    }
}

impl PartialEq<Sym<'_>> for Symbol {
    fn eq(&self, other: &Sym<'_>) -> (b: bool) {
        Sym::from_symbol(self).eq_sym(other)
    }
}

impl vstd::std_specs::cmp::PartialEqSpecImpl<Sym<'_>> for Symbol {
    open spec fn obeys_eq_spec() -> bool {
        true
    }

    open spec fn eq_spec(&self, other: &Sym<'_>) -> bool {
        self.spec_hash() == other.spec_hash() && self@ == other@
    }
}

impl PartialEq for Symbol {
    fn eq(&self, other: &Symbol) -> (b: bool) {
        Sym::from_symbol(self).eq_sym(&Sym::from_symbol(other))
    }
}

impl vstd::std_specs::cmp::PartialEqSpecImpl for Symbol {
    open spec fn obeys_eq_spec() -> bool {
        true
    }

    open spec fn eq_spec(&self, other: &Symbol) -> bool {
        self.spec_hash() == other.spec_hash() && self@ == other@
    }
}

impl<'a> From<Sym<'a>> for Symbol {
    fn from(s: Sym<'a>) -> (r: Symbol)
        ensures
            r@ == s@,
            r.spec_hash() == s.spec_hash(),
            s.wf() ==> r.wf(),
    {
        Symbol::from_sym(s)
    }
}

impl<'a> vstd::std_specs::convert::FromSpecImpl<Sym<'a>> for Symbol {
    open spec fn obeys_from_spec() -> bool {
        false
    }

    open spec fn from_spec(v: Sym<'a>) -> Symbol {
        arbitrary()
    }
}

/// Equality of two well-formed symbols is equality of their bytes: the
/// hashes can only differ where the bytes differ.
pub proof fn lemma_sym_eq_iff_bytes_eq(a: Sym, b: Sym)
    requires
        a.wf(),
        b.wf(),
    ensures
        a.eq_spec(&b) <==> a@ == b@,
{
}

// ArraySet ---------------------------------------------------------------

/// `r` is what a search for `e` in `s` gives: the first index whose element
/// is equal to `e`, or nothing where none is.
pub open spec fn is_first_match<T: PartialEq<S>, S>(s: Seq<T>, e: S, r: Option<usize>) -> bool {
    match r {
        Some(i) => {
            &&& i < s.len()
            &&& s[i as int].eq_spec(&e)
            &&& forall|j: int| 0 <= j < i ==> !(#[trigger] s[j]).eq_spec(&e)
        },
        None => forall|j: int| 0 <= j < s.len() ==> !(#[trigger] s[j]).eq_spec(&e),
    }
}

/// No element of `s` is equal to a later one.
pub open spec fn no_later_equal<T: PartialEq>(s: Seq<T>) -> bool {
    forall|i: int, j: int| #![trigger s[i], s[j]] 0 <= i < j < s.len() ==> !s[i].eq_spec(&s[j])
}

/// A set that remembers the order in which its elements were added.
#[derive(Clone, Debug)]
pub struct ArraySet<T> {
    set: Vec<T>,
}

impl<T> View for ArraySet<T> {
    type V = Seq<T>;

    closed spec fn view(&self) -> Seq<T> {
        self.set@
    }
}

impl<T> ArraySet<T> {
    pub fn new() -> (r: Self)
        ensures
            r@ == Seq::<T>::empty(),
    {
        ArraySet { set: Vec::new() }
    }

    /// Adds `e` unless an equal element is there; returns the index of the
    /// element equal to `e`.
    pub fn add(&mut self, e: T) -> (r: usize)
        where T: PartialEq,
        ensures
            <T as PartialEqSpec>::obeys_eq_spec() ==> is_first_match(old(self)@, e, Some(r)) || (
            is_first_match(old(self)@, e, None) && r == old(self)@.len()),
            <T as PartialEqSpec>::obeys_eq_spec() ==> if is_first_match(old(self)@, e, None) {
                final(self)@ == old(self)@.push(e)
            } else {
                final(self)@ == old(self)@
            },
            <T as PartialEqSpec>::obeys_eq_spec() && no_later_equal(old(self)@) ==> no_later_equal(
                final(self)@,
            ),
    {
        match self.index_of(&e) {
            Some(i) => i,
            None => {
                let len = self.set.len();
                self.set.push(e);
                len
            },
        }
    }

    /// Like `add`, but converts `e` into an element only where no element
    /// equal to it is there.
    pub fn add_clone<S>(&mut self, e: S) -> (r: usize)
        where T: PartialEq<S>, S: Into<T>,
        ensures
            <T as PartialEqSpec<S>>::obeys_eq_spec() ==> is_first_match(old(self)@, e, Some(r)) || (
            is_first_match(old(self)@, e, None) && r == old(self)@.len()),
            <T as PartialEqSpec<S>>::obeys_eq_spec() ==> if is_first_match(old(self)@, e, None) {
                &&& final(self)@.len() == old(self)@.len() + 1
                &&& final(self)@.take(old(self)@.len() as int) == old(self)@
                &&& call_ensures(S::into, (e,), final(self)@.last())
            } else {
                final(self)@ == old(self)@
            },
    {
        match self.index_of(&e) {
            Some(i) => i,
            None => {
                let len = self.set.len();
                let x: T = e.into();
                self.set.push(x);
                proof {
                    assert(self.set@.take(len as int) =~= old(self)@);
                }
                len
            },
        }
    }

    /// The index of the first element equal to `e`.
    pub fn index_of<S>(&self, e: &S) -> (r: Option<usize>)
        where T: PartialEq<S>,
        ensures
            <T as PartialEqSpec<S>>::obeys_eq_spec() ==> is_first_match(self@, *e, r),
    {
        let mut i: usize = 0;
        while i < self.set.len()
            invariant
                i <= self.set@.len(),
                <T as PartialEqSpec<S>>::obeys_eq_spec() ==> forall|j: int|
                    0 <= j < i ==> !(#[trigger] self.set@[j]).eq_spec(e),
            decreases self.set@.len() - i,
        {
            if self.set[i].eq(e) {
                return Some(i);
            }
            i += 1;
        }
        None
    }

    pub fn to_vec(self) -> (r: Vec<T>)
        ensures
            r@ == self@,
    {
        self.set
    }

    pub fn as_slice(&self) -> (r: &[T])
        ensures
            r@ == self@,
    {
        self.set.as_slice()
    }

    pub fn iter(&self) -> (r: std::slice::Iter<'_, T>)
        ensures
            IteratorSpec::remaining(&r) == self@.as_ref(),
    {
        self.set.as_slice().iter()
    }

    pub fn size(&self) -> (r: usize)
        ensures
            r == self@.len(),
    {
        self.set.len()
    }

    pub fn is_empty(&self) -> (r: bool)
        ensures
            r == (self@.len() == 0),
    {
        self.set.len() == 0
    }
}

impl<T> Default for ArraySet<T> {
    fn default() -> (r: Self)
        ensures
            r@ == Seq::<T>::empty(),
    {
        ArraySet { set: Vec::new() }
    }
}

/// Adding what an array set already holds changes nothing and gives the
/// index it had.
pub proof fn lemma_add_twice<T: PartialEq>(s: Seq<T>, e: T)
    requires
        <T as PartialEqSpec>::obeys_eq_spec(),
        is_first_match(s, e, None),
        e.eq_spec(&e),
        s.len() < usize::MAX,
    ensures
        is_first_match(s.push(e), e, Some(s.len() as usize)),
{
    assert(s.push(e)[s.len() as int] == e);
    assert forall|j: int| 0 <= j < s.len() implies !(#[trigger] s.push(e)[j]).eq_spec(&e) by {
        assert(s.push(e)[j] == s[j]);
    }
}

// VecMap -----------------------------------------------------------------

/// `r` is the index of the first pair of `s` whose key is equal to `k`, or
/// nothing where no key is.
pub open spec fn is_first_key<K: PartialEq, V>(s: Seq<(K, V)>, k: K, r: Option<usize>) -> bool {
    match r {
        Some(i) => {
            &&& i < s.len()
            &&& s[i as int].0.eq_spec(&k)
            &&& forall|j: int| 0 <= j < i ==> !(#[trigger] s[j]).0.eq_spec(&k)
        },
        None => forall|j: int| 0 <= j < s.len() ==> !(#[trigger] s[j]).0.eq_spec(&k),
    }
}

/// No key of `s` is equal to a later key.
pub open spec fn keys_distinct<K: PartialEq, V>(s: Seq<(K, V)>) -> bool {
    forall|i: int, j: int| #![trigger s[i], s[j]] 0 <= i < j < s.len() ==> !s[i].0.eq_spec(&s[j].0)
}

/// A map that remembers the order in which its keys were added.
#[derive(Clone, Debug)]
pub struct VecMap<K, V> {
    map: Vec<(K, V)>,
}

impl<K, V> View for VecMap<K, V> {
    type V = Seq<(K, V)>;

    closed spec fn view(&self) -> Seq<(K, V)> {
        self.map@
    }
}

impl<K: PartialEq, V> VecMap<K, V> {
    pub fn new() -> (r: Self)
        ensures
            r@ == Seq::<(K, V)>::empty(),
    {
        VecMap { map: Vec::new() }
    }

    /// The index of the first pair whose key is equal to `k`.
    fn position(&self, k: &K) -> (r: Option<usize>)
        ensures
            r matches Some(i) ==> i < self@.len(),
            <K as PartialEqSpec>::obeys_eq_spec() ==> is_first_key(self@, *k, r),
    {
        let mut i: usize = 0;
        while i < self.map.len()
            invariant
                i <= self.map@.len(),
                <K as PartialEqSpec>::obeys_eq_spec() ==> forall|j: int|
                    0 <= j < i ==> !(#[trigger] self.map@[j]).0.eq_spec(k),
            decreases self.map@.len() - i,
        {
            if self.map[i].0.eq(k) {
                return Some(i);
            }
            i += 1;
        }
        None
    }

    /// Binds `k` to `v`: replaces the first pair with a key equal to `k`, or
    /// appends one; returns the index of the pair.
    pub fn set(&mut self, k: K, v: V) -> (r: usize)
        ensures
            <K as PartialEqSpec>::obeys_eq_spec() ==> if is_first_key(old(self)@, k, None) {
                &&& r == old(self)@.len()
                &&& final(self)@ == old(self)@.push((k, v))
            } else {
                &&& is_first_key(old(self)@, k, Some(r))
                &&& final(self)@ == old(self)@.update(r as int, (k, v))
            },
    {
        if let Some(i) = self.position(&k) {
            self.map.set(i, (k, v));
            return i;
        }
        let len = self.map.len();
        self.map.push((k, v));
        len
    }

    pub fn has(&self, k: &K) -> (r: bool)
        ensures
            <K as PartialEqSpec>::obeys_eq_spec() ==> (r <==> !is_first_key(self@, *k, None)),
    {
        self.get(k).is_some()
    }

    /// The value of the first pair whose key is equal to `k`.
    pub fn get(&self, k: &K) -> (r: Option<&V>)
        ensures
            <K as PartialEqSpec>::obeys_eq_spec() ==> match r {
                Some(x) => exists|i: usize| is_first_key(self@, *k, Some(i)) && *x == self@[i as int].1,
                None => is_first_key(self@, *k, None),
            },
    {
        match self.position(k) {
            Some(i) => Some(&self.map[i].1),
            None => None,
        }
    }

    /// Keeps the first `newlen` pairs.
    pub fn trunc(&mut self, newlen: usize)
        ensures
            final(self)@ == if newlen < old(self)@.len() {
                old(self)@.take(newlen as int)
            } else {
                old(self)@
            },
    {
        self.map.truncate(newlen);
    }

    pub fn as_slice(&self) -> (r: &[(K, V)])
        ensures
            r@ == self@,
    {
        self.map.as_slice()
    }

    pub fn iter(&self) -> (r: std::slice::Iter<'_, (K, V)>)
        ensures
            IteratorSpec::remaining(&r) == self@.as_ref(),
    {
        self.map.as_slice().iter()
    }

    pub fn size(&self) -> (r: usize)
        ensures
            r == self@.len(),
    {
        self.map.len()
    }

    pub fn is_empty(&self) -> (r: bool)
        ensures
            r == (self@.len() == 0),
    {
        self.map.len() == 0
    }
}

impl<K, V> Default for VecMap<K, V> {
    fn default() -> (r: Self)
        ensures
            r@ == Seq::<(K, V)>::empty(),
    {
        VecMap { map: Vec::new() }
    }
}

// Maps keyed by names ---------------------------------------------------------

/// `i` is the first place of `s` that binds the name `k`.
pub open spec fn name_first_at<V>(s: Seq<(Seq<u8>, V)>, k: Seq<u8>, i: int) -> bool {
    &&& 0 <= i < s.len()
    &&& s[i].0 == k
    &&& forall|j: int| 0 <= j < i ==> (#[trigger] s[j]).0 != k
}

/// The value bound to the name `k` first.
pub open spec fn name_get<V>(s: Seq<(Seq<u8>, V)>, k: Seq<u8>) -> Option<V> {
    if exists|i: int| name_first_at(s, k, i) {
        Some(s[choose|i: int| name_first_at(s, k, i)].1)
    } else {
        None
    }
}

/// `s` with the name `k` bound to `v`: its first binding changed, or a new one
/// at the end.
pub open spec fn name_set<V>(s: Seq<(Seq<u8>, V)>, k: Seq<u8>, v: V) -> Seq<(Seq<u8>, V)> {
    if exists|i: int| name_first_at(s, k, i) {
        s.update(choose|i: int| name_first_at(s, k, i), (k, v))
    } else {
        s.push((k, v))
    }
}

/// The bindings of a map, with the names by their bytes.
pub open spec fn names_of<V>(m: Seq<(DfString, V)>) -> Seq<(Seq<u8>, V)> {
    m.map_values(|p: (DfString, V)| (p.0@, p.1))
}

/// A search in a map and in its bindings by bytes find the same place.
proof fn lemma_first_name<V>(m: Seq<(DfString, V)>, k: DfString, r: Option<usize>)
    requires
        is_first_key(m, k, r),
    ensures
        match r {
            Some(i) => name_first_at(names_of(m), k@, i as int),
            None => !exists|i: int| name_first_at(names_of(m), k@, i),
        },
{
    let s = names_of(m);
    match r {
        Some(i) => {
            assert forall|j: int| 0 <= j < i implies (#[trigger] s[j]).0 != k@ by {
                assert(!m[j].0.eq_spec(&k));
            }
        },
        None => {
            if exists|i: int| name_first_at(s, k@, i) {
                let i = choose|i: int| name_first_at(s, k@, i);
                assert(!m[i].0.eq_spec(&k));
            }
        },
    }
}

impl<V: Copy> VecMap<DfString, V> {
    /// The value bound to the name `k`.
    pub fn get_name(&self, k: &DfString) -> (r: Option<V>)
        ensures
            r == name_get(names_of(self@), k@),
    {
        match self.get(k) {
            Some(x) => {
                proof {
                    let i = choose|i: usize| is_first_key(self@, *k, Some(i)) && *x == self@[i as int].1;
                    lemma_first_name(self@, *k, Some(i));
                    let c = choose|c: int| name_first_at(names_of(self@), k@, c);
                    assert(c == i as int);
                }
                Some(*x)
            },
            None => {
                proof {
                    lemma_first_name(self@, *k, None);
                }
                None
            },
        }
    }

    /// Binds a copy of the name `k` to `v`.
    pub fn set_name(&mut self, k: &DfString, v: V)
        ensures
            names_of(final(self)@) == name_set(names_of(old(self)@), k@, v),
    {
        let kk = DfString::from_vec(copy_bytes(k.as_bytes()));
        let ghost m0 = self@;
        let r = self.set(kk, v);
        proof {
            let s0 = names_of(m0);
            if is_first_key(m0, kk, None) {
                lemma_first_name(m0, kk, None);
                assert(names_of(self@) =~= s0.push((k@, v)));
            } else {
                lemma_first_name(m0, kk, Some(r));
                let c = choose|c: int| name_first_at(s0, k@, c);
                assert(c == r as int);
                assert(names_of(self@) =~= s0.update(r as int, (k@, v)));
            }
        }
    }
}

/// After `set(k, v)`, the first pair with a key equal to `k` holds `v`, for
/// a key equal to itself.
pub proof fn lemma_get_after_set<K: PartialEq, V>(s: Seq<(K, V)>, k: K, v: V, r: usize)
    requires
        k.eq_spec(&k),
        (is_first_key(s, k, None) && r == s.len()) || is_first_key(s, k, Some(r)),
    ensures
        ({
            let t = if is_first_key(s, k, None) {
                s.push((k, v))
            } else {
                s.update(r as int, (k, v))
            };
            is_first_key(t, k, Some(r)) && t[r as int].1 == v
        }),
{
    if is_first_key(s, k, None) {
        assert forall|j: int| 0 <= j < r implies !(#[trigger] s.push((k, v))[j]).0.eq_spec(&k) by {
            assert(s.push((k, v))[j] == s[j]);
        }
    } else {
        assert forall|j: int| 0 <= j < r implies !(#[trigger] s.update(r as int, (k, v))[j]).0.eq_spec(
            &k,
        ) by {
            assert(s.update(r as int, (k, v))[j] == s[j]);
        }
    }
}

/// Setting a key keeps the keys distinct.
pub proof fn lemma_set_keeps_keys_distinct<K: PartialEq, V>(s: Seq<(K, V)>, k: K, v: V, r: usize)
    requires
        keys_distinct(s),
        vstd::laws_eq::obeys_eq_spec_properties::<K>(),
        (is_first_key(s, k, None) && r == s.len()) || is_first_key(s, k, Some(r)),
    ensures
        keys_distinct(
            if is_first_key(s, k, None) {
                s.push((k, v))
            } else {
                s.update(r as int, (k, v))
            },
        ),
{
    reveal(vstd::laws_eq::obeys_eq_spec_properties);
    if is_first_key(s, k, None) {
        let t = s.push((k, v));
        assert forall|i: int, j: int| #![trigger t[i], t[j]] 0 <= i < j < t.len() implies !t[i].0.eq_spec(
            &t[j].0,
        ) by {
            if j == s.len() {
                assert(t[i] == s[i]);
                assert(!s[i].0.eq_spec(&k));
            } else {
                assert(t[i] == s[i] && t[j] == s[j]);
            }
        }
    } else {
        let t = s.update(r as int, (k, v));
        assert forall|i: int, j: int| #![trigger t[i], t[j]] 0 <= i < j < t.len() implies !t[i].0.eq_spec(
            &t[j].0,
        ) by {
            if j == r {
                assert(t[i] == s[i]);
                assert(!s[i].0.eq_spec(&k));
            } else if i == r {
                assert(t[j] == s[j]);
                assert(!s[r as int].0.eq_spec(&s[j].0));
                assert(s[r as int].0.eq_spec(&k));
            } else {
                assert(t[i] == s[i] && t[j] == s[j]);
            }
        }
    }
}

// Stack ------------------------------------------------------------------

/// A stack whose top is the last element of its view.
#[derive(Clone, Debug)]
pub struct Stack<T>(Vec<T>);

impl<T> View for Stack<T> {
    type V = Seq<T>;

    closed spec fn view(&self) -> Seq<T> {
        self.0@
    }
}

impl<T> Stack<T> {
    pub fn is_empty(&self) -> (b: bool)
        ensures
            b == (self@.len() == 0),
    {
        self.0.len() == 0
    }

    pub fn len(&self) -> (r: usize)
        ensures
            r == self@.len(),
    {
        self.0.len()
    }

    /// The element `deep` places below the top.
    pub fn peek(&self, deep: usize) -> (r: Option<&T>)
        ensures
            match r {
                Some(x) => deep < self@.len() && *x == self@[self@.len() - deep - 1],
                None => deep >= self@.len(),
            },
    {
        let len = self.0.len();
        if deep < len {
            Some(&self.0[len - deep - 1])
        } else {
            None
        }
    }

    /// The element `deep` places below the top, to change it.
    pub fn peek_mut(&mut self, deep: usize) -> (r: Option<&mut T>)
        ensures
            match r {
                Some(x) => {
                    &&& deep < old(self)@.len()
                    &&& *x == old(self)@[old(self)@.len() - deep - 1]
                    &&& final(self)@ == old(self)@.update(old(self)@.len() - deep - 1, *final(x))
                },
                None => deep >= old(self)@.len() && final(self)@ == old(self)@,
            },
    {
        let len = self.0.len();
        if deep < len {
            Some(&mut self.0[len - deep - 1])
        } else {
            None
        }
    }

    pub fn push(&mut self, e: T)
        ensures
            final(self)@ == old(self)@.push(e),
    {
        self.0.push(e);
    }

    pub fn pop(&mut self) -> (r: Option<T>)
        ensures
            match r {
                Some(x) => old(self)@.len() > 0 && x == old(self)@.last() && final(self)@
                    == old(self)@.drop_last(),
                None => old(self)@.len() == 0 && final(self)@ == old(self)@,
            },
    {
        self.0.pop()
    }

    /// The elements from the top down.
    pub fn iter(&self) -> (r: std::iter::Rev<std::slice::Iter<'_, T>>)
        ensures
            IteratorSpec::remaining(&r) == self@.as_ref().reverse(),
    {
        self.0.as_slice().iter().rev()
    }
}

impl<T> Default for Stack<T> {
    fn default() -> (r: Self)
        ensures
            r@ == Seq::<T>::empty(),
    {
        Stack(Vec::new())
    }
}

/// What is pushed is what is popped next, and popping it gives back the
/// stack as it was.
pub proof fn lemma_pop_after_push<T>(s: Seq<T>, e: T)
    ensures
        s.push(e).len() > 0,
        s.push(e).last() == e,
        s.push(e).drop_last() == s,
{
    assert(s.push(e).drop_last() =~= s);
}


// Bytes ---------------------------------------------------------------------

/// The ASCII decimal digits of `n`.
pub open spec fn dec_digits(n: nat) -> Seq<u8>
    decreases n,
{
    if n < 10 {
        seq![(48 + n) as u8]
    } else {
        dec_digits(n / 10).push((48 + n % 10) as u8)
    }
}

/// Appends the bytes `s` to `v`.
pub fn push_bytes(v: &mut Vec<u8>, s: &[u8])
    ensures
        final(v)@ == old(v)@ + s@,
{
    let mut i: usize = 0;
    while i < s.len()
        invariant
            i <= s@.len(),
            v@ == old(v)@ + s@.subrange(0, i as int),
        decreases s@.len() - i,
    {
        v.push(s[i]);
        i += 1;
        assert(v@ =~= old(v)@ + s@.subrange(0, i as int));
    }
    assert(s@.subrange(0, i as int) =~= s@);
}

/// Appends `n` in decimal ASCII digits to `v`.
pub fn push_dec(v: &mut Vec<u8>, n: u32)
    ensures
        final(v)@ == old(v)@ + dec_digits(n as nat),
    decreases n,
{
    if n >= 10 {
        push_dec(v, n / 10);
    }
    let d: u8 = (n % 10) as u8;
    v.push(48 + d);
    assert(v@ =~= old(v)@ + dec_digits(n as nat));
}

} // verus!
