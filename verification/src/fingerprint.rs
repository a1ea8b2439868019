use vstd::prelude::*;

verus! {

/// A 64-bit fingerprint with identity `0`, combined by bitwise XOR.
///
/// XOR is associative, commutative and self-inverse, so a container can keep
/// the fingerprint of everything it holds up to date incrementally: adding an
/// element XORs its fingerprint in, removing it XORs the same value out.
#[derive(Clone, Copy, Debug, PartialEq, Eq, Structural)]
pub struct Fingerprint {
    pub value: u64,
}

impl Fingerprint {
    /// The identity element of the XOR combination.
    pub open spec fn spec_zero() -> Fingerprint {
        Fingerprint { value: 0 }
    }

    pub fn zero() -> (r: Fingerprint)
        ensures
            r == Fingerprint::spec_zero(),
    {
        Fingerprint { value: 0 }
    }

    pub open spec fn spec_xor(self, other: Fingerprint) -> Fingerprint {
        Fingerprint { value: self.value ^ other.value }
    }

    /// Combines two fingerprints.
    pub fn xor(self, other: Fingerprint) -> (r: Fingerprint)
        ensures
            r == self.spec_xor(other),
    {
        Fingerprint { value: self.value ^ other.value }
    }
}

/// The XOR of a whole sequence of fingerprints, left to right.
pub open spec fn xor_all(s: Seq<Fingerprint>) -> Fingerprint
    decreases s.len(),
{
    if s.len() == 0 {
        Fingerprint::spec_zero()
    } else {
        xor_all(s.drop_last()).spec_xor(s.last())
    }
}

/// XOR is commutative.
pub proof fn lemma_xor_comm(a: Fingerprint, b: Fingerprint)
    ensures
        a.spec_xor(b) == b.spec_xor(a),
{
    let av = a.value;
    let bv = b.value;
    assert(av ^ bv == bv ^ av) by (bit_vector);
}

/// XOR is associative.
pub proof fn lemma_xor_assoc(a: Fingerprint, b: Fingerprint, c: Fingerprint)
    ensures
        a.spec_xor(b).spec_xor(c) == a.spec_xor(b.spec_xor(c)),
{
    let av = a.value;
    let bv = b.value;
    let cv = c.value;
    assert((av ^ bv) ^ cv == av ^ (bv ^ cv)) by (bit_vector);
}

/// XOR is self-inverse: combining a fingerprint with itself yields the identity.
pub proof fn lemma_xor_self(a: Fingerprint)
    ensures
        a.spec_xor(a) == Fingerprint::spec_zero(),
{
    let av = a.value;
    assert(av ^ av == 0u64) by (bit_vector);
}

/// The identity is neutral on either side.
pub proof fn lemma_xor_zero(a: Fingerprint)
    ensures
        a.spec_xor(Fingerprint::spec_zero()) == a,
        Fingerprint::spec_zero().spec_xor(a) == a,
{
    let av = a.value;
    assert(av ^ 0u64 == av) by (bit_vector);
    assert(0u64 ^ av == av) by (bit_vector);
}

/// Appending one fingerprint XORs it into the total.
pub proof fn lemma_xor_all_push(s: Seq<Fingerprint>, e: Fingerprint)
    ensures
        xor_all(s.push(e)) == xor_all(s).spec_xor(e),
{
    assert(s.push(e).drop_last() =~= s);
    assert(s.push(e).last() == e);
}

/// The last two of three combined fingerprints can swap places.
pub proof fn lemma_xor_swap(a: Fingerprint, b: Fingerprint, c: Fingerprint)
    ensures
        a.spec_xor(b).spec_xor(c) == a.spec_xor(c).spec_xor(b),
{
    let av = a.value;
    let bv = b.value;
    let cv = c.value;
    assert((av ^ bv) ^ cv == (av ^ cv) ^ bv) by (bit_vector);
}

/// XORing a value out and back in through a combined term cancels it.
pub proof fn lemma_xor_cancel_mid(x: Fingerprint, a: Fingerprint, b: Fingerprint)
    ensures
        x.spec_xor(a).spec_xor(a.spec_xor(b)) == x.spec_xor(b),
{
    let xv = x.value;
    let av = a.value;
    let bv = b.value;
    assert((xv ^ av) ^ (av ^ bv) == xv ^ bv) by (bit_vector);
}

/// Splitting a sequence splits its XOR.
pub proof fn lemma_xor_all_concat(a: Seq<Fingerprint>, b: Seq<Fingerprint>)
    ensures
        xor_all(a + b) == xor_all(a).spec_xor(xor_all(b)),
    decreases b.len(),
{
    if b.len() == 0 {
        assert(a + b =~= a);
        lemma_xor_zero(xor_all(a));
    } else {
        assert((a + b).drop_last() =~= a + b.drop_last());
        assert((a + b).last() == b.last());
        lemma_xor_all_concat(a, b.drop_last());
        lemma_xor_assoc(xor_all(a), xor_all(b.drop_last()), b.last());
    }
}

/// Inserting one fingerprint XORs it into the total.
pub proof fn lemma_xor_all_insert(s: Seq<Fingerprint>, i: int, p: Fingerprint)
    requires
        0 <= i <= s.len(),
    ensures
        xor_all(s.insert(i, p)) == xor_all(s).spec_xor(p),
    decreases s.len(),
{
    if i == s.len() {
        assert(s.insert(i, p) =~= s.push(p));
        lemma_xor_all_push(s, p);
    } else {
        assert(s.insert(i, p).drop_last() =~= s.drop_last().insert(i, p));
        assert(s.insert(i, p).last() == s.last());
        lemma_xor_all_insert(s.drop_last(), i, p);
        lemma_xor_swap(xor_all(s.drop_last()), p, s.last());
    }
}

/// Replacing the fingerprint at `i` XORs the old value out and the new one in.
pub proof fn lemma_xor_all_update(s: Seq<Fingerprint>, i: int, v: Fingerprint)
    requires
        0 <= i < s.len(),
    ensures
        xor_all(s.update(i, v)) == xor_all(s).spec_xor(s[i]).spec_xor(v),
    decreases s.len(),
{
    if i == s.len() - 1 {
        assert(s.update(i, v).drop_last() =~= s.drop_last());
        assert(s.update(i, v).last() == v);
        let x = xor_all(s.drop_last());
        lemma_xor_swap(x, s[i], v);
        // (x ^ s[i]) ^ v == (x ^ v) ^ s[i]; now cancel s[i] against itself
        lemma_xor_assoc(x, s[i], s[i].spec_xor(v));
        lemma_xor_assoc(x.spec_xor(s[i]), s[i], v);
        lemma_xor_assoc(x, s[i], s[i]);
        lemma_xor_self(s[i]);
        lemma_xor_zero(x);
        assert(x.spec_xor(s[i]).spec_xor(s[i]) == x);
        assert(xor_all(s).spec_xor(s[i]).spec_xor(v) == x.spec_xor(v)) by {
            lemma_xor_assoc(x, s[i], s[i]);
        }
    } else {
        assert(s.update(i, v).drop_last() =~= s.drop_last().update(i, v));
        assert(s.update(i, v).last() == s.last());
        lemma_xor_all_update(s.drop_last(), i, v);
        let x = xor_all(s.drop_last());
        let di = s.drop_last()[i];
        // ((x ^ di) ^ v) ^ last == ((x ^ last) ^ di) ^ v
        lemma_xor_swap(x.spec_xor(di), v, s.last());
        lemma_xor_swap(x, di, s.last());
        assert(s.drop_last()[i] == s[i]);
    }
}

/// Removing one fingerprint XORs it out of the total.
pub proof fn lemma_xor_all_remove(s: Seq<Fingerprint>, i: int)
    requires
        0 <= i < s.len(),
    ensures
        xor_all(s.remove(i)) == xor_all(s).spec_xor(s[i]),
    decreases s.len(),
{
    if i == s.len() - 1 {
        assert(s.remove(i) =~= s.drop_last());
        lemma_xor_self(s[i]);
        lemma_xor_assoc(xor_all(s.drop_last()), s[i], s[i]);
        lemma_xor_zero(xor_all(s.drop_last()));
    } else {
        let t = s.drop_last();
        assert(s.remove(i).drop_last() =~= t.remove(i));
        assert(s.remove(i).last() == s.last());
        lemma_xor_all_remove(t, i);
        // xor_all(s.remove(i)) == (xor_all(t) ^ t[i]) ^ s.last()
        lemma_xor_assoc(xor_all(t), t[i], s.last());
        lemma_xor_comm(t[i], s.last());
        lemma_xor_assoc(xor_all(t), s.last(), t[i]);
    }
}

} // verus!
