//! Lookups of object identifiers and their names in a static table.
use crate::oid::{encode_arcs, text_arcs, text_ok, Error, ObjectIdentifier};
use vstd::prelude::*;
use vstd::utf8::{encode_utf8, encode_utf8_decode_utf8};

verus! {

/// Byte-wise equality of two byte slices.
pub(crate) fn eq(lhs: &[u8], rhs: &[u8]) -> (r: bool)
    ensures
        r == (lhs@ == rhs@),
{
    if lhs.len() != rhs.len() {
        return false;
    }
    let mut i: usize = 0;
    while i < lhs.len()
        invariant
            lhs@.len() == rhs@.len(),
            i <= lhs@.len(),
            forall|k: int| 0 <= k < i ==> lhs@[k] == rhs@[k],
        decreases lhs@.len() - i,
    {
        if lhs[i] != rhs[i] {
            return false;
        }
        i += 1;
    }
    assert(lhs@ =~= rhs@);
    true
}

} // verus!

verus! {

/// An object identifier together with its name.
#[derive(Clone, Copy, Debug, PartialEq, Eq)]
pub struct NamedOid<'a> {
    pub oid: ObjectIdentifier,
    pub name: &'a str,
}

/// A query interface over a table of named identifiers.
pub struct Database<'a>(&'a [NamedOid<'a>]);

/// Whether entry `i` is the first in `t` with the encoding `o`.
pub open spec fn first_oid_at(t: Seq<NamedOid>, o: Seq<u8>, i: int) -> bool {
    &&& 0 <= i < t.len()
    &&& t[i].oid@ == o
    &&& forall|j: int| 0 <= j < i ==> t[j].oid@ != o
}

/// Whether entry `i` is the first in `t` with the name `n`.
pub open spec fn first_name_at(t: Seq<NamedOid>, n: Seq<char>, i: int) -> bool {
    &&& 0 <= i < t.len()
    &&& t[i].name@ == n
    &&& forall|j: int| 0 <= j < i ==> t[j].name@ != n
}

/// The first entry of `t` whose identifier is encoded as `o`.
pub open spec fn lookup_oid<'a>(t: Seq<NamedOid<'a>>, o: Seq<u8>) -> Option<NamedOid<'a>> {
    if exists|i: int| first_oid_at(t, o, i) {
        Some(t[choose|i: int| first_oid_at(t, o, i)])
    } else {
        None
    }
}

/// The first entry of `t` named `n`.
pub open spec fn lookup_name<'a>(t: Seq<NamedOid<'a>>, n: Seq<char>) -> Option<NamedOid<'a>> {
    if exists|i: int| first_name_at(t, n, i) {
        Some(t[choose|i: int| first_name_at(t, n, i)])
    } else {
        None
    }
}

/// What resolving the text `s` against `t` gives: a parse error, the name of the
/// first entry with that identifier, or else the text itself.
pub open spec fn resolution(t: Seq<NamedOid>, text: Seq<char>) -> Result<Seq<char>, Error> {
    let s = encode_utf8(text);
    if !text_ok(s) {
        Err(Error)
    } else {
        match lookup_oid(t, encode_arcs(text_arcs(s))) {
            Some(e) => Ok(e.name@),
            None => Ok(text),
        }
    }
}

impl<'a> View for Database<'a> {
    type V = Seq<NamedOid<'a>>;

    closed spec fn view(&self) -> Seq<NamedOid<'a>> {
        self.0@
    }
}

impl<'a> Database<'a> {
    /// A database over the entries of `table`, in their order.
    pub fn new(table: &'a [NamedOid<'a>]) -> (r: Database<'a>)
        ensures
            r@ == table@,
    {
        Database(table)
    }

    /// Looks up a name for an OID given as text.
    ///
    /// Errors if the input is not a valid OID; returns the input if no name is found.
    pub fn resolve<'b>(&self, oid: &'b str) -> (r: Result<&'b str, Error>)
        where
            'a: 'b,
        ensures
            match r {
                Ok(n) => resolution(self@, oid@) == Ok::<Seq<char>, Error>(n@),
                Err(e) => resolution(self@, oid@) == Err::<Seq<char>, Error>(e),
            },
    {
        let oi = match ObjectIdentifier::new(oid) {
            Ok(oi) => oi,
            Err(e) => return Err(e),
        };
        match self.by_oid(&oi) {
            Some(n) => Ok(n.name),
            None => Ok(oid),
        }
    }

    /// Finds the first entry with the given OID.
    pub fn by_oid(&self, oid: &ObjectIdentifier) -> (r: Option<&'a NamedOid<'a>>)
        ensures
            match r {
                Some(e) => lookup_oid(self@, oid@) == Some(*e),
                None => lookup_oid(self@, oid@) is None,
            },
    {
        let mut i: usize = 0;
        while i < self.0.len()
            invariant
                i <= self@.len(),
                forall|j: int| 0 <= j < i ==> self@[j].oid@ != oid@,
            decreases self@.len() - i,
        {
            let lhs = &self.0[i];
            if lhs.oid.same_encoding(oid) {
                proof {
                    assert(first_oid_at(self@, oid@, i as int));
                    let k = choose|k: int| first_oid_at(self@, oid@, k);
                    assert(k == i) by {
                        if k < i {
                        } else if k > i {
                            assert(self@[i as int].oid@ == oid@);
                        }
                    }
                }
                return Some(lhs);
            }
            i += 1;
        }
        None
    }

    /// Finds the first entry with the given name, compared byte for byte.
    pub fn by_name(&self, name: &str) -> (r: Option<&'a NamedOid<'a>>)
        ensures
            match r {
                Some(e) => lookup_name(self@, name@) == Some(*e),
                None => lookup_name(self@, name@) is None,
            },
    {
        let mut i: usize = 0;
        while i < self.0.len()
            invariant
                i <= self@.len(),
                forall|j: int| 0 <= j < i ==> self@[j].name@ != name@,
            decreases self@.len() - i,
        {
            let lhs = &self.0[i];
            let same = eq(lhs.name.as_bytes(), name.as_bytes());
            proof {
                same_bytes_same_text(lhs.name@, name@);
            }
            if same {
                proof {
                    assert(first_name_at(self@, name@, i as int));
                    let k = choose|k: int| first_name_at(self@, name@, k);
                    assert(k == i) by {
                        if k < i {
                        } else if k > i {
                            assert(self@[i as int].name@ == name@);
                        }
                    }
                }
                return Some(lhs);
            }
            i += 1;
        }
        None
    }
}

/// Whether no two entries of `t` share an identifier, and no two share a name.
pub open spec fn keys_unique(t: Seq<NamedOid>) -> bool {
    forall|i: int, j: int|
        0 <= i < t.len() && 0 <= j < t.len() && i != j ==> {
            &&& #[trigger] t[i].oid@ != #[trigger] t[j].oid@
            &&& t[i].name@ != t[j].name@
        }
}

/// Whether every entry of `sub` is also an entry of `full`.
pub open spec fn entries_within(sub: Seq<NamedOid>, full: Seq<NamedOid>) -> bool {
    forall|i: int| 0 <= i < sub.len() ==> exists|j: int| 0 <= j < full.len() && full[j] == #[trigger] sub[i]
}

/// In a table whose keys are unique, each entry is what a lookup of its own
/// identifier finds, and what a lookup of its own name finds.
pub proof fn lemma_entry_found(t: Seq<NamedOid>, i: int)
    requires
        keys_unique(t),
        0 <= i < t.len(),
    ensures
        lookup_oid(t, t[i].oid@) == Some(t[i]),
        lookup_name(t, t[i].name@) == Some(t[i]),
{
    assert(first_oid_at(t, t[i].oid@, i));
    assert(first_name_at(t, t[i].name@, i));
    let k = choose|k: int| first_oid_at(t, t[i].oid@, k);
    let m = choose|m: int| first_name_at(t, t[i].name@, m);
    assert(k == i);
    assert(m == i);
}

/// An identifier that no entry has is not found.
pub proof fn lemma_absent_oid(t: Seq<NamedOid>, o: Seq<u8>)
    requires
        forall|i: int| 0 <= i < t.len() ==> t[i].oid@ != o,
    ensures
        lookup_oid(t, o) is None,
{
}

/// A name that no entry has is not found.
pub proof fn lemma_absent_name(t: Seq<NamedOid>, n: Seq<char>)
    requires
        forall|i: int| 0 <= i < t.len() ==> t[i].name@ != n,
    ensures
        lookup_name(t, n) is None,
{
}

/// Resolving well-formed text whose identifier has no entry gives the text back.
pub proof fn lemma_resolve_unnamed(t: Seq<NamedOid>, text: Seq<char>)
    requires
        text_ok(encode_utf8(text)),
        lookup_oid(t, encode_arcs(text_arcs(encode_utf8(text)))) is None,
    ensures
        resolution(t, text) == Ok::<Seq<char>, Error>(text),
{
}

/// Resolving malformed text gives the parse error, never a name.
pub proof fn lemma_resolve_malformed(t: Seq<NamedOid>, text: Seq<char>)
    requires
        !text_ok(encode_utf8(text)),
    ensures
        resolution(t, text) == Err::<Seq<char>, Error>(Error),
{
}

/// What a lookup finds in a table whose entries all belong to a larger table with
/// unique keys, a lookup by the same key finds in the larger table too.
pub proof fn lemma_partition_within(sub: Seq<NamedOid>, full: Seq<NamedOid>, o: Seq<u8>, n: Seq<char>)
    requires
        entries_within(sub, full),
        keys_unique(full),
    ensures
        lookup_oid(sub, o) matches Some(e) ==> lookup_oid(full, o) == Some(e),
        lookup_name(sub, n) matches Some(e) ==> lookup_name(full, n) == Some(e),
{
    if lookup_oid(sub, o) is Some {
        let i = choose|i: int| first_oid_at(sub, o, i);
        let j = choose|j: int| 0 <= j < full.len() && full[j] == sub[i];
        lemma_entry_found(full, j);
    }
    if lookup_name(sub, n) is Some {
        let i = choose|i: int| first_name_at(sub, n, i);
        let j = choose|j: int| 0 <= j < full.len() && full[j] == sub[i];
        lemma_entry_found(full, j);
    }
}

/// Two texts are equal exactly when their UTF-8 encodings are.
proof fn same_bytes_same_text(a: Seq<char>, b: Seq<char>)
    ensures
        (encode_utf8(a) == encode_utf8(b)) == (a == b),
{
    if encode_utf8(a) == encode_utf8(b) {
        encode_utf8_decode_utf8(a);
        encode_utf8_decode_utf8(b);
    }
}

} // verus!
