//! Object identifiers: dotted arcs such as `2.5.4.3`, held in a canonical encoding.
//!
//! Each arc is written in base 128, most significant group first, with the high bit
//! set on every byte of the arc but its last; the arcs follow one another.
use vstd::prelude::*;
use vstd::string::StringSliceAdditionalSpecFns;

verus! {

/// Largest encoded size, in bytes, of an object identifier.
pub const MAX_SIZE: usize = 39;

/// The one error of this crate: the text or the arcs do not form an object identifier.
#[derive(Clone, Copy, Debug, PartialEq, Eq)]
pub struct Error;

/// Base-128 digits of `n / 128`, most significant first, each with the continuation bit set.
pub open spec fn base128_lead(n: nat) -> Seq<u8>
    decreases n,
{
    if n == 0 {
        Seq::empty()
    } else {
        base128_lead(n / 128).push((n % 128 + 128) as u8)
    }
}

/// The base-128 encoding of one arc: continuation bit on every byte but the last.
pub open spec fn base128(n: nat) -> Seq<u8> {
    base128_lead(n / 128).push((n % 128) as u8)
}

/// The arcs encoded one after another.
pub open spec fn encode_arcs(a: Seq<nat>) -> Seq<u8>
    decreases a.len(),
{
    if a.len() == 0 {
        Seq::empty()
    } else {
        encode_arcs(a.drop_last()) + base128(a.last())
    }
}

/// Every byte of `base128_lead(n)` has the continuation bit set.
proof fn lemma_lead_bytes(n: nat)
    ensures
        forall|i: int| 0 <= i < base128_lead(n).len() ==> base128_lead(n)[i] >= 128,
    decreases n,
{
    if n != 0 {
        lemma_lead_bytes(n / 128);
        let l = base128_lead(n);
        assert forall|i: int| 0 <= i < l.len() implies l[i] >= 128 by {
            if i < l.len() - 1 {
                assert(l[i] == base128_lead(n / 128)[i]);
            }
        }
    }
}

/// An arc is its quotient and remainder by 128.
proof fn lemma_split_arc(m: nat, n: nat)
    requires
        m / 128 == n / 128,
        m % 128 == n % 128,
    ensures
        m == n,
{
    assert(m == 128 * (m / 128) + m % 128);
    assert(n == 128 * (n / 128) + n % 128);
}

/// Distinct quotients have distinct leading groups.
proof fn lemma_lead_injective(m: nat, n: nat)
    requires
        base128_lead(m) == base128_lead(n),
    ensures
        m == n,
    decreases m,
{
    if m != 0 && n != 0 {
        let (a, b) = (base128_lead(m / 128), base128_lead(n / 128));
        assert(base128_lead(m).drop_last() =~= a);
        assert(base128_lead(n).drop_last() =~= b);
        lemma_lead_injective(m / 128, n / 128);
        assert(base128_lead(m).last() == base128_lead(n).last());
        assert(base128_lead(m).last() == (m % 128 + 128) as u8);
        assert(base128_lead(n).last() == (n % 128 + 128) as u8);
        assert((m % 128 + 128) as u8 == m % 128 + 128);
        assert((n % 128 + 128) as u8 == n % 128 + 128);
        lemma_split_arc(m, n);
    } else if m != 0 {
        assert(base128_lead(m).len() > 0);
    } else if n != 0 {
        assert(base128_lead(n).len() > 0);
    }
}

/// The last byte of a non-empty encoding is an arc's last byte, without continuation bit.
proof fn lemma_encoding_last(a: Seq<nat>)
    requires
        a.len() > 0,
    ensures
        encode_arcs(a).len() > 0,
        encode_arcs(a).last() < 128,
{
}

/// Two arc sequences share an encoding only when they are equal: the encoding is canonical.
pub proof fn lemma_encoding_canonical(a: Seq<nat>, b: Seq<nat>)
    requires
        encode_arcs(a) == encode_arcs(b),
    ensures
        a == b,
    decreases a.len(),
{
    let e = encode_arcs(a);
    if a.len() == 0 || b.len() == 0 {
        if a.len() != 0 {
            lemma_encoding_last(a);
        }
        if b.len() != 0 {
            lemma_encoding_last(b);
        }
        assert(a =~= b);
    } else {
        let (pa, pb) = (encode_arcs(a.drop_last()), encode_arcs(b.drop_last()));
        let (x, y) = (base128(a.last()), base128(b.last()));
        lemma_lead_bytes(a.last() / 128);
        lemma_lead_bytes(b.last() / 128);
        if x.len() < y.len() {
            let k = e.len() - x.len() - 1;
            if a.len() > 1 {
                lemma_encoding_last(a.drop_last());
                assert(e[k] == pa.last());
                assert(e[k] == y[k - pb.len()]);
            } else {
                assert(pa.len() == 0);
            }
            assert(false);
        } else if y.len() < x.len() {
            let k = e.len() - y.len() - 1;
            if b.len() > 1 {
                lemma_encoding_last(b.drop_last());
                assert(e[k] == pb.last());
                assert(e[k] == x[k - pa.len()]);
            } else {
                assert(pb.len() == 0);
            }
            assert(false);
        }
        assert(pa =~= e.subrange(0, pa.len() as int));
        assert(pb =~= e.subrange(0, pb.len() as int));
        assert(x =~= e.subrange(pa.len() as int, e.len() as int));
        assert(y =~= e.subrange(pb.len() as int, e.len() as int));
        assert(x.drop_last() =~= base128_lead(a.last() / 128));
        assert(y.drop_last() =~= base128_lead(b.last() / 128));
        lemma_lead_injective(a.last() / 128, b.last() / 128);
        assert(x.last() == y.last());
        assert(a.last() % 128 == b.last() % 128);
        lemma_split_arc(a.last(), b.last());
        lemma_encoding_canonical(a.drop_last(), b.drop_last());
        assert(a =~= a.drop_last().push(a.last()));
        assert(b =~= b.drop_last().push(b.last()));
    }
}

/// Whether `a` are the arcs of an identifier this crate can hold: at least one, and
/// an encoding that fits the buffer.
pub open spec fn arcs_ok(a: Seq<nat>) -> bool {
    &&& a.len() >= 1
    &&& encode_arcs(a).len() <= MAX_SIZE
}

/// Arcs given as `u32`, as numbers.
pub open spec fn arcs_of(a: Seq<u32>) -> Seq<nat> {
    a.map_values(|x: u32| x as nat)
}

/// Whether `b` is an ASCII decimal digit.
pub open spec fn is_digit(b: u8) -> bool {
    48 <= b <= 57
}

/// The fields of `s` between dots, in order: `k` dots give `k + 1` fields.
pub open spec fn fields(s: Seq<u8>) -> Seq<Seq<u8>>
    decreases s.len(),
{
    if s.len() == 0 {
        seq![Seq::empty()]
    } else {
        let f = fields(s.drop_last());
        if s.last() == 46 {
            f.push(Seq::empty())
        } else {
            f.update(f.len() - 1, f.last().push(s.last()))
        }
    }
}

/// The value of a string of decimal digits.
pub open spec fn decimal(d: Seq<u8>) -> nat
    decreases d.len(),
{
    if d.len() == 0 {
        0
    } else {
        decimal(d.drop_last()) * 10 + (d.last() - 48) as nat
    }
}

/// A field that is a decimal arc: digits only, at least one, and a value that fits in `u32`.
pub open spec fn field_ok(f: Seq<u8>) -> bool {
    &&& f.len() > 0
    &&& forall|j: int| 0 <= j < f.len() ==> is_digit(#[trigger] f[j])
    &&& decimal(f) <= u32::MAX
}

/// The arcs that the text `s` spells.
pub open spec fn text_arcs(s: Seq<u8>) -> Seq<nat> {
    fields(s).map_values(|f: Seq<u8>| decimal(f))
}

/// Whether the text `s` spells an identifier: decimal arcs separated by single dots.
pub open spec fn text_ok(s: Seq<u8>) -> bool {
    &&& forall|k: int| 0 <= k < fields(s).len() ==> field_ok(#[trigger] fields(s)[k])
    &&& arcs_ok(text_arcs(s))
}

/// An object identifier: its encoding in a fixed buffer, zero past `length`.
#[derive(Clone, Copy, Debug, PartialEq, Eq)]
pub struct ObjectIdentifier {
    bytes: [u8; MAX_SIZE],
    length: u8,
}

impl View for ObjectIdentifier {
    type V = Seq<u8>;

    /// The encoded bytes.
    closed spec fn view(&self) -> Seq<u8> {
        self.bytes@.subrange(0, self.length as int)
    }
}

fn push_base128_lead(buf: &mut Vec<u8>, n: u32)
    ensures
        final(buf)@ == old(buf)@ + base128_lead(n as nat),
    decreases n,
{
    if n != 0 {
        push_base128_lead(buf, n / 128);
        buf.push((n % 128 + 128) as u8);
        assert(final(buf)@ =~= old(buf)@ + base128_lead(n as nat));
    } else {
        assert(final(buf)@ =~= old(buf)@ + base128_lead(n as nat));
    }
}

fn push_base128(buf: &mut Vec<u8>, n: u32)
    ensures
        final(buf)@ == old(buf)@ + base128(n as nat),
{
    push_base128_lead(buf, n / 128);
    buf.push((n % 128) as u8);
    assert(final(buf)@ =~= old(buf)@ + base128(n as nat));
}

impl ObjectIdentifier {
    #[verifier::type_invariant]
    spec fn inv(self) -> bool {
        &&& self.length <= MAX_SIZE
        &&& forall|i: int| self.length <= i < MAX_SIZE ==> self.bytes@[i] == 0
    }

    /// Builds an identifier from its arcs.
    pub fn from_arcs(arcs: &[u32]) -> (r: Result<ObjectIdentifier, Error>)
        ensures
            r is Ok <==> arcs_ok(arcs_of(arcs@)),
            r matches Ok(o) ==> o@ == encode_arcs(arcs_of(arcs@)),
    {
        let ghost a = arcs_of(arcs@);
        let mut buf: Vec<u8> = Vec::new();
        let mut i: usize = 0;
        assert(buf@ =~= encode_arcs(a.subrange(0, 0)));
        while i < arcs.len()
            invariant
                a == arcs_of(arcs@),
                i <= arcs@.len(),
                buf@ == encode_arcs(a.subrange(0, i as int)),
            decreases arcs@.len() - i,
        {
            push_base128(&mut buf, arcs[i]);
            assert(a.subrange(0, i + 1).drop_last() =~= a.subrange(0, i as int));
            i += 1;
        }
        assert(a.subrange(0, a.len() as int) =~= a);
        if arcs.len() == 0 {
            return Err(Error);
        }
        if buf.len() > MAX_SIZE {
            return Err(Error);
        }
        let mut bytes = [0u8; MAX_SIZE];
        let mut j: usize = 0;
        while j < buf.len()
            invariant
                buf@.len() <= MAX_SIZE,
                j <= buf@.len(),
                bytes@.len() == MAX_SIZE,
                forall|k: int| 0 <= k < j ==> bytes@[k] == buf@[k],
                forall|k: int| j <= k < MAX_SIZE ==> bytes@[k] == 0,
            decreases buf@.len() - j,
        {
            bytes[j] = buf[j];
            j += 1;
        }
        let o = ObjectIdentifier { bytes, length: buf.len() as u8 };
        assert(o@ =~= buf@);
        Ok(o)
    }
    /// The encoded bytes, as a vector.
    pub fn to_bytes(&self) -> (r: Vec<u8>)
        ensures
            r@ == self@,
    {
        proof {
            use_type_invariant(self);
            broadcast use vstd::array::array_len_matches_n;
        }
        let mut r: Vec<u8> = Vec::new();
        let mut i: usize = 0;
        while i < self.length as usize
            invariant
                self.length <= MAX_SIZE,
                self.bytes@.len() == MAX_SIZE,
                i <= self.length,
                r@ == self.bytes@.subrange(0, i as int),
            decreases self.length - i,
        {
            r.push(self.bytes[i]);
            assert(r@ =~= self.bytes@.subrange(0, i + 1));
            i += 1;
        }
        r
    }

    /// Whether two identifiers have the same encoding: equal lengths, then equal bytes.
    pub fn same_encoding(&self, other: &ObjectIdentifier) -> (r: bool)
        ensures
            r == (self@ == other@),
    {
        proof {
            use_type_invariant(self);
            use_type_invariant(other);
            broadcast use vstd::array::array_len_matches_n;
        }
        if self.length != other.length {
            assert(self@.len() != other@.len());
            return false;
        }
        let r = crate::db::eq(self.bytes.as_slice(), other.bytes.as_slice());
        proof {
            if self@ == other@ {
                assert forall|i: int| 0 <= i < MAX_SIZE implies self.bytes@[i] == other.bytes@[i] by {
                    if i < self.length {
                        assert(self.bytes@[i] == self@[i] && other.bytes@[i] == other@[i]);
                    }
                }
                assert(self.bytes@ =~= other.bytes@);
            }
            if self.bytes@ == other.bytes@ {
                assert(self@ =~= other@);
            }
        }
        r
    }

    /// Parses dotted decimal text such as `2.5.4.3`.
    pub fn new(s: &str) -> (r: Result<ObjectIdentifier, Error>)
        ensures
            r is Ok <==> text_ok(s.spec_bytes()),
            r matches Ok(o) ==> o@ == encode_arcs(text_arcs(s.spec_bytes())),
    {
        let b = s.as_bytes();
        let ghost t = b@;
        let mut arcs: Vec<u32> = Vec::new();
        let mut bad = false;
        let mut cur: u64 = 0;
        let mut cur_len: usize = 0;
        let mut cur_bad = false;
        let ghost mut done: Seq<Seq<u8>> = Seq::empty();
        let ghost mut field: Seq<u8> = Seq::empty();
        let mut i: usize = 0;
        assert(t.subrange(0, 0) =~= Seq::<u8>::empty());
        while i < b.len()
            invariant
                t == b@,
                i <= t.len(),
                fields(t.subrange(0, i as int)) == done.push(field),
                bad == !(forall|k: int| 0 <= k < done.len() ==> field_ok(#[trigger] done[k])),
                !bad ==> arcs@.len() == done.len(),
                !bad ==> forall|k: int| 0 <= k < done.len() ==> arcs@[k] as nat == decimal(#[trigger] done[k]),
                cur_len == field.len(),
                field.len() <= i,
                cur_bad == !(forall|j: int| 0 <= j < field.len() ==> is_digit(#[trigger] field[j])),
                cur <= 10 * (u32::MAX as u64) + 9,
                !cur_bad && decimal(field) <= u32::MAX ==> cur == decimal(field),
                !cur_bad && decimal(field) > u32::MAX ==> cur > u32::MAX,
            decreases t.len() - i,
        {
            let c = b[i];
            assert(t.subrange(0, i + 1).drop_last() =~= t.subrange(0, i as int));
            if c == 46 {
                if cur_len > 0 && !cur_bad && cur <= u32::MAX as u64 {
                    arcs.push(cur as u32);
                } else {
                    bad = true;
                }
                proof {
                    let old_done = done;
                    let old_field = field;
                    done = done.push(field);
                    field = Seq::empty();
                    assert forall|k: int| 0 <= k < old_done.len() implies done[k] == old_done[k] by {}
                    assert(done[old_done.len() as int] == old_field);
                    if !(forall|k: int| 0 <= k < old_done.len() ==> field_ok(#[trigger] old_done[k])) {
                        let k = choose|k: int| 0 <= k < old_done.len() && !field_ok(#[trigger] old_done[k]);
                        assert(!field_ok(done[k]));
                    }
                }
                cur = 0;
                cur_len = 0;
                cur_bad = false;
            } else {
                if 48 <= c && c <= 57 {
                    if cur <= u32::MAX as u64 {
                        cur = cur * 10 + (c - 48) as u64;
                    }
                } else {
                    cur_bad = true;
                }
                cur_len += 1;
                proof {
                    let old_field = field;
                    field = field.push(c);
                    assert(field.drop_last() =~= old_field);
                    assert forall|j: int| 0 <= j < old_field.len() implies field[j] == old_field[j] by {}
                    assert(field[old_field.len() as int] == c);
                    if !cur_bad {
                        assert forall|j: int| 0 <= j < field.len() implies is_digit(#[trigger] field[j]) by {
                            if j < old_field.len() {
                                assert(field[j] == old_field[j]);
                            }
                        }
                    } else if !is_digit(c) {
                        assert(!is_digit(field[old_field.len() as int]));
                    } else {
                        let j = choose|j: int| 0 <= j < old_field.len() && !is_digit(#[trigger] old_field[j]);
                        assert(field[j] == old_field[j]);
                    }
                }
            }
            i += 1;
        }
        assert(t.subrange(0, t.len() as int) =~= t);
        if cur_len > 0 && !cur_bad && cur <= u32::MAX as u64 {
            arcs.push(cur as u32);
        } else {
            bad = true;
        }
        let ghost all = done.push(field);
        assert forall|k: int| 0 <= k < done.len() implies all[k] == done[k] by {}
        assert(all[done.len() as int] == field);
        assert(bad == !(forall|k: int| 0 <= k < all.len() ==> field_ok(#[trigger] all[k])));
        if bad {
            return Err(Error);
        }
        assert(arcs_of(arcs@) =~= text_arcs(t));
        ObjectIdentifier::from_arcs(arcs.as_slice())
    }
}

} // verus!
