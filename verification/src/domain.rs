//! The set of orientations that a cell may still take, kept as a four-bit mask.

use vstd::prelude::*;

verus! {

/// Mask with all four orientations present.
pub const FULL_MASK: u8 = 15;

/// Whether bit `o` of `bits` is set, stated arithmetically.
pub open spec fn bit_set(bits: u8, o: int) -> bool {
    if o == 0 {
        bits % 2 == 1
    } else if o == 1 {
        (bits / 2) % 2 == 1
    } else if o == 2 {
        (bits / 4) % 2 == 1
    } else if o == 3 {
        (bits / 8) % 2 == 1
    } else {
        false
    }
}

/// 1 for `true`, 0 for `false`.
pub open spec fn indicator(b: bool) -> int {
    if b {
        1
    } else {
        0
    }
}

/// The domain whose only member is `o`.
pub open spec fn singleton_of(o: int) -> Domain {
    Domain {
        bits: if o == 0 {
            1u8
        } else if o == 1 {
            2u8
        } else if o == 2 {
            4u8
        } else {
            8u8
        },
    }
}

/// The domain with the given membership of orientations 0, 1, 2 and 3.
pub open spec fn of_flags(m0: bool, m1: bool, m2: bool, m3: bool) -> Domain {
    Domain {
        bits: (indicator(m0) + 2 * indicator(m1) + 4 * indicator(m2) + 8 * indicator(m3)) as u8,
    }
}

/// The domain that holds every orientation.
pub open spec fn full_domain() -> Domain {
    Domain { bits: FULL_MASK }
}

/// A subset of the orientations {0, 1, 2, 3}. Bit `o` of `bits` says whether
/// orientation `o` is a member.
#[derive(Clone, Copy, Debug, PartialEq, Eq, Structural)]
pub struct Domain {
    pub bits: u8,
}

impl Domain {
    /// Only the four low bits may be set.
    pub open spec fn wf(self) -> bool {
        self.bits <= FULL_MASK
    }

    /// Membership of orientation `o`.
    pub open spec fn has(self, o: int) -> bool {
        bit_set(self.bits, o)
    }

    /// Number of members.
    pub open spec fn size(self) -> int {
        indicator(self.has(0)) + indicator(self.has(1)) + indicator(self.has(2)) + indicator(
            self.has(3),
        )
    }

    /// Every member of `self` is a member of `other`.
    pub open spec fn subset_of(self, other: Domain) -> bool {
        &&& self.has(0) ==> other.has(0)
        &&& self.has(1) ==> other.has(1)
        &&& self.has(2) ==> other.has(2)
        &&& self.has(3) ==> other.has(3)
    }

    /// `o` is the one and only member.
    pub open spec fn only(self, o: int) -> bool {
        &&& 0 <= o < 4
        &&& self.has(0) <==> o == 0
        &&& self.has(1) <==> o == 1
        &&& self.has(2) <==> o == 2
        &&& self.has(3) <==> o == 3
    }

    /// The least member, or 4 when there is none.
    pub open spec fn lowest(self) -> int {
        if self.has(0) {
            0
        } else if self.has(1) {
            1
        } else if self.has(2) {
            2
        } else if self.has(3) {
            3
        } else {
            4
        }
    }

    /// The members that `self` and `other` share.
    pub open spec fn meet(self, other: Domain) -> Domain {
        of_flags(
            self.has(0) && other.has(0),
            self.has(1) && other.has(1),
            self.has(2) && other.has(2),
            self.has(3) && other.has(3),
        )
    }

    /// `self` holds exactly the members common to `a` and `b`.
    pub open spec fn is_meet_of(self, a: Domain, b: Domain) -> bool {
        &&& self.wf()
        &&& self.has(0) <==> a.has(0) && b.has(0)
        &&& self.has(1) <==> a.has(1) && b.has(1)
        &&& self.has(2) <==> a.has(2) && b.has(2)
        &&& self.has(3) <==> a.has(3) && b.has(3)
    }

    /// The domain that holds every orientation.
    pub fn full() -> (d: Domain)
        ensures
            d.wf(),
            d == full_domain(),
            forall|o: int| 0 <= o < 4 ==> d.has(o),
            d.size() == 4,
    {
        Domain { bits: FULL_MASK }
    }

    /// The domain without members.
    pub fn empty() -> (d: Domain)
        ensures
            d.wf(),
            d.bits == 0,
            forall|o: int| !d.has(o),
            d.size() == 0,
    {
        Domain { bits: 0 }
    }

    /// The domain whose only member is `o`.
    pub fn singleton(o: usize) -> (d: Domain)
        requires
            o < 4,
        ensures
            d.wf(),
            d == singleton_of(o as int),
            d.only(o as int),
            d.size() == 1,
            d.lowest() == o,
    {
        let bits: u8 = if o == 0 {
            1
        } else if o == 1 {
            2
        } else if o == 2 {
            4
        } else {
            8
        };
        Domain { bits }
    }

    /// Builds a domain from its four membership flags.
    pub fn from_flags(m0: bool, m1: bool, m2: bool, m3: bool) -> (d: Domain)
        ensures
            d.wf(),
            d == of_flags(m0, m1, m2, m3),
            d.has(0) == m0,
            d.has(1) == m1,
            d.has(2) == m2,
            d.has(3) == m3,
    {
        let b0: u8 = if m0 {
            1
        } else {
            0
        };
        let b1: u8 = if m1 {
            2
        } else {
            0
        };
        let b2: u8 = if m2 {
            4
        } else {
            0
        };
        let b3: u8 = if m3 {
            8
        } else {
            0
        };
        Domain { bits: b0 + b1 + b2 + b3 }
    }

    /// Whether orientation `o` is a member; no orientation is 4 or above.
    pub fn contains(&self, o: usize) -> (b: bool)
        ensures
            b == self.has(o as int),
    {
        if o == 0 {
            self.bits % 2 == 1
        } else if o == 1 {
            (self.bits / 2) % 2 == 1
        } else if o == 2 {
            (self.bits / 4) % 2 == 1
        } else if o == 3 {
            (self.bits / 8) % 2 == 1
        } else {
            false
        }
    }

    /// Number of members.
    pub fn len(&self) -> (n: usize)
        ensures
            n == self.size(),
            n <= 4,
    {
        let mut n: usize = 0;
        if self.contains(0) {
            n += 1;
        }
        if self.contains(1) {
            n += 1;
        }
        if self.contains(2) {
            n += 1;
        }
        if self.contains(3) {
            n += 1;
        }
        n
    }

    /// Whether there is no member.
    pub fn is_empty(&self) -> (b: bool)
        ensures
            b == (self.size() == 0),
    {
        self.len() == 0
    }

    /// The least member, if there is one.
    pub fn first(&self) -> (r: Option<usize>)
        ensures
            match r {
                Some(o) => o == self.lowest() && o < 4 && self.has(o as int),
                None => self.lowest() == 4 && self.size() == 0,
            },
    {
        if self.contains(0) {
            Some(0)
        } else if self.contains(1) {
            Some(1)
        } else if self.contains(2) {
            Some(2)
        } else if self.contains(3) {
            Some(3)
        } else {
            None
        }
    }

    /// The members that `self` and `other` share.
    pub fn intersect(&self, other: &Domain) -> (d: Domain)
        requires
            self.wf(),
            other.wf(),
        ensures
            d == self.meet(*other),
            d.is_meet_of(*self, *other),
            d.subset_of(*self),
            d.subset_of(*other),
            d.size() <= self.size(),
            (d == *self) <==> self.subset_of(*other),
    {
        let d = Domain { bits: self.bits & other.bits };
        proof {
            lemma_and_bits(self.bits, other.bits);
            lemma_meet(*self, *other);
            lemma_same_members(d, self.meet(*other));
        }
        d
    }
}

/// Bitwise conjunction of two four-bit masks is their intersection, bit by bit.
pub proof fn lemma_and_bits(a: u8, b: u8)
    requires
        a <= 15,
        b <= 15,
    ensures
        (a & b) <= 15,
        (a & b) % 2 == 1 <==> a % 2 == 1 && b % 2 == 1,
        ((a & b) / 2) % 2 == 1 <==> (a / 2) % 2 == 1 && (b / 2) % 2 == 1,
        ((a & b) / 4) % 2 == 1 <==> (a / 4) % 2 == 1 && (b / 4) % 2 == 1,
        ((a & b) / 8) % 2 == 1 <==> (a / 8) % 2 == 1 && (b / 8) % 2 == 1,
{
    assert((a & b) <= 15) by (bit_vector)
        requires
            a <= 15,
            b <= 15,
    ;
    assert((a & b) % 2 == 1 <==> a % 2 == 1 && b % 2 == 1) by (bit_vector);
    assert(((a & b) / 2) % 2 == 1 <==> (a / 2) % 2 == 1 && (b / 2) % 2 == 1) by (bit_vector);
    assert(((a & b) / 4) % 2 == 1 <==> (a / 4) % 2 == 1 && (b / 4) % 2 == 1) by (bit_vector);
    assert(((a & b) / 8) % 2 == 1 <==> (a / 8) % 2 == 1 && (b / 8) % 2 == 1) by (bit_vector);
}

/// The meet of two well-formed domains holds what both hold, is a subset of
/// each, and equals the first exactly when the first lies within the second.
pub proof fn lemma_meet(a: Domain, b: Domain)
    requires
        a.wf(),
        b.wf(),
    ensures
        a.meet(b).is_meet_of(a, b),
        a.meet(b).subset_of(a),
        a.meet(b).subset_of(b),
        a.meet(b).size() <= a.size(),
        (a.meet(b) == a) <==> a.subset_of(b),
{
    lemma_same_members(a.meet(b), a);
}

/// Two well-formed domains with the same members are the same domain.
pub proof fn lemma_same_members(a: Domain, b: Domain)
    requires
        a.wf(),
        b.wf(),
    ensures
        (a == b) <==> (a.subset_of(b) && b.subset_of(a)),
{
    let x = a.bits;
    let y = b.bits;
    assert(x == (x % 2) + 2 * ((x / 2) % 2) + 4 * ((x / 4) % 2) + 8 * ((x / 8) % 2));
    assert(y == (y % 2) + 2 * ((y / 2) % 2) + 4 * ((y / 4) % 2) + 8 * ((y / 8) % 2));
}

/// A subset has no more members than its superset, and as many only when the
/// two are equal.
pub proof fn lemma_subset_size(a: Domain, b: Domain)
    requires
        a.wf(),
        b.wf(),
        a.subset_of(b),
    ensures
        a.size() <= b.size(),
        a.size() == b.size() ==> a == b,
        0 <= a.size() <= 4,
{
    lemma_same_members(a, b);
}

/// A domain of one member holds exactly its least member.
pub proof fn lemma_single_member(a: Domain)
    requires
        a.size() == 1,
    ensures
        a.only(a.lowest()),
        forall|o: int| a.only(o) ==> o == a.lowest(),
{
}

} // verus!
