//! Queries and domain-name canonicalization.
//!
//! A query name is kept as ASCII bytes in canonical form: lower case with a
//! single trailing dot. Canonicalization and well-formedness are specified
//! over byte sequences and proved for the executable routines.

use crate::errors::ResolveError;
use vstd::prelude::*;

verus! {

/// ASCII code of `.`, the label separator.
pub const DOT: u8 = 46;

/// Bytes permitted inside a label: `a`-`z`, `0`-`9`, `-`, `_`.
pub open spec fn allowed_byte(b: u8) -> bool {
    (97 <= b <= 122) || (48 <= b <= 57) || b == 45 || b == 95
}

/// Lower-case an ASCII byte; other bytes are unchanged.
pub open spec fn lower_byte(b: u8) -> u8 {
    if 65 <= b <= 90 {
        (b + 32) as u8
    } else {
        b
    }
}

/// The canonical form of a raw name: lower-cased, with a trailing dot added
/// when the raw form lacks one.
pub open spec fn canonical(s: Seq<u8>) -> Seq<u8> {
    let lowered = s.map_values(|b: u8| lower_byte(b));
    if s.len() > 0 && s[s.len() - 1] == DOT {
        lowered
    } else {
        lowered.push(DOT)
    }
}

/// Walks a name checking labels: none empty, none longer than 63 bytes.
/// `run` is the length of the label read so far.
pub open spec fn labels_ok(s: Seq<u8>, run: nat) -> bool
    decreases s.len(),
{
    if s.len() == 0 {
        true
    } else if s[0] == DOT {
        0 < run <= 63 && labels_ok(s.subrange(1, s.len() as int), 0)
    } else {
        labels_ok(s.subrange(1, s.len() as int), run + 1)
    }
}

/// A well-formed canonical name: bounded, dot-terminated, made of allowed
/// bytes and dots, with valid labels.
pub open spec fn wf_name(s: Seq<u8>) -> bool {
    &&& 2 <= s.len() <= 254
    &&& s[s.len() - 1] == DOT
    &&& forall|i: int| 0 <= i < s.len() ==> (allowed_byte(#[trigger] s[i]) || s[i] == DOT)
    &&& labels_ok(s, 0)
}

/// A DNS question as the resolver sees it: canonical name, record type and
/// class, the client's transaction id, and the client address as bytes.
pub struct Query {
    pub name: Vec<u8>,
    pub qtype: u16,
    pub qclass: u16,
    pub txid: u16,
    pub client: Vec<u8>,
}

/// The cache/single-flight key of a query: name, type and class.
pub struct QueryKey {
    pub name: Vec<u8>,
    pub qtype: u16,
    pub qclass: u16,
}

/// Mathematical image of a `QueryKey`.
pub struct KeyModel {
    pub name: Seq<u8>,
    pub qtype: u16,
    pub qclass: u16,
}

impl View for QueryKey {
    type V = KeyModel;

    open spec fn view(&self) -> KeyModel {
        KeyModel { name: self.name@, qtype: self.qtype, qclass: self.qclass }
    }
}

/// Mathematical image of a `Query`.
pub struct QueryModel {
    pub name: Seq<u8>,
    pub qtype: u16,
    pub qclass: u16,
    pub txid: u16,
    pub client: Seq<u8>,
}

impl View for Query {
    type V = QueryModel;

    open spec fn view(&self) -> QueryModel {
        QueryModel {
            name: self.name@,
            qtype: self.qtype,
            qclass: self.qclass,
            txid: self.txid,
            client: self.client@,
        }
    }
}

impl Query {
    /// A query is well formed when its name is canonical and valid.
    pub open spec fn wf(&self) -> bool {
        wf_name(self.name@)
    }

    /// The key this query resolves under.
    pub open spec fn key_model(&self) -> KeyModel {
        KeyModel { name: self.name@, qtype: self.qtype, qclass: self.qclass }
    }
}

/// Copy a byte vector.
pub fn copy_bytes(v: &Vec<u8>) -> (r: Vec<u8>)
    ensures
        r@ == v@,
{
    let mut out: Vec<u8> = Vec::new();
    let mut i: usize = 0;
    while i < v.len()
        invariant
            i <= v.len(),
            out@ == v@.subrange(0, i as int),
        decreases v.len() - i,
    {
        out.push(v[i]);
        i = i + 1;
    }
    assert(out@ =~= v@);
    out
}

/// Byte-vector equality, decided element by element.
pub fn bytes_eq(a: &Vec<u8>, b: &Vec<u8>) -> (r: bool)
    ensures
        r == (a@ == b@),
{
    if a.len() != b.len() {
        return false;
    }
    let mut i: usize = 0;
    while i < a.len()
        invariant
            i <= a.len(),
            a@.len() == b@.len(),
            forall|j: int| 0 <= j < i ==> a@[j] == b@[j],
        decreases a.len() - i,
    {
        if a[i] != b[i] {
            return false;
        }
        i = i + 1;
    }
    assert(a@ =~= b@);
    true
}

/// Lower-case one ASCII byte.
pub fn lower_byte_exec(b: u8) -> (r: u8)
    ensures
        r == lower_byte(b),
{
    if 65 <= b && b <= 90 {
        b + 32
    } else {
        b
    }
}

/// Decide whether a byte may appear inside a label.
pub fn allowed_byte_exec(b: u8) -> (r: bool)
    ensures
        r == allowed_byte(b),
{
    (97 <= b && b <= 122) || (48 <= b && b <= 57) || b == 45 || b == 95
}

/// Decide well-formedness of a canonical name.
pub fn check_name(s: &Vec<u8>) -> (r: bool)
    ensures
        r == wf_name(s@),
{
    if s.len() < 2 || s.len() > 254 {
        return false;
    }
    if s[s.len() - 1] != DOT {
        return false;
    }
    proof {
        assert(s@.subrange(0, s@.len() as int) =~= s@);
    }
    let mut i: usize = 0;
    let mut run: usize = 0;
    while i < s.len()
        invariant
            i <= s.len(),
            run <= i,
            forall|j: int| 0 <= j < i ==> (allowed_byte(#[trigger] s@[j]) || s@[j] == DOT),
            labels_ok(s@, 0) == labels_ok(s@.subrange(i as int, s@.len() as int), run as nat),
        decreases s.len() - i,
    {
        let b = s[i];
        proof {
            assert(s@.subrange(i as int, s@.len() as int).subrange(
                1,
                s@.subrange(i as int, s@.len() as int).len() as int,
            ) =~= s@.subrange(i as int + 1, s@.len() as int));
        }
        if b == DOT {
            if run == 0 || run > 63 {
                return false;
            }
            run = 0;
        } else {
            if !allowed_byte_exec(b) {
                return false;
            }
            run = run + 1;
        }
        i = i + 1;
    }
    proof {
        assert(s@.subrange(s@.len() as int, s@.len() as int) =~= Seq::<u8>::empty());
    }
    true
}

/// Canonicalize a raw name: lower-case it and add a trailing dot if absent.
pub fn canonicalize(raw: &Vec<u8>) -> (r: Vec<u8>)
    ensures
        r@ == canonical(raw@),
{
    let mut out: Vec<u8> = Vec::new();
    let mut i: usize = 0;
    while i < raw.len()
        invariant
            i <= raw.len(),
            out@.len() == i,
            forall|j: int| 0 <= j < i ==> out@[j] == lower_byte(#[trigger] raw@[j]),
        decreases raw.len() - i,
    {
        out.push(lower_byte_exec(raw[i]));
        i = i + 1;
    }
    proof {
        assert(out@ =~= raw@.map_values(|b: u8| lower_byte(b)));
    }
    if raw.len() == 0 || raw[raw.len() - 1] != DOT {
        out.push(DOT);
    }
    out
}

impl Query {
    /// Build a query from a raw name, canonicalizing it; a name that is not
    /// well formed after canonicalization is rejected.
    pub fn new(raw_name: &Vec<u8>, qtype: u16, qclass: u16, txid: u16, client: Vec<u8>) -> (r:
        Result<Query, ResolveError>)
        ensures
            r is Ok <==> wf_name(canonical(raw_name@)),
            r matches Ok(q) ==> q@.name == canonical(raw_name@) && q.wf() && q.qtype == qtype
                && q.qclass == qclass && q.txid == txid,
            r matches Err(e) ==> e == ResolveError::MalformedQuery,
    {
        let name = canonicalize(raw_name);
        if check_name(&name) {
            Ok(Query { name, qtype, qclass, txid, client })
        } else {
            Err(ResolveError::MalformedQuery)
        }
    }

    /// The key this query is cached and de-duplicated under.
    pub fn key(&self) -> (k: QueryKey)
        ensures
            k@ == self.key_model(),
    {
        QueryKey { name: copy_bytes(&self.name), qtype: self.qtype, qclass: self.qclass }
    }
}

impl QueryKey {
    /// Copy a key.
    pub fn duplicate(&self) -> (k: QueryKey)
        ensures
            k@ == self@,
    {
        QueryKey { name: copy_bytes(&self.name), qtype: self.qtype, qclass: self.qclass }
    }
}

/// Key equality, decided on name, type and class.
pub fn keys_equal(a: &QueryKey, b: &QueryKey) -> (r: bool)
    ensures
        r == (a@ == b@),
{
    let names = bytes_eq(&a.name, &b.name);
    names && a.qtype == b.qtype && a.qclass == b.qclass
}

} // verus!
