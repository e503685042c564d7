//! Access rights as a set of bits.

use vstd::prelude::*;

verus! {

pub const READ_ORB: u64 = 0x001;

pub const WRITE_ORB: u64 = 0x002;

pub const CREATE_RELATION: u64 = 0x004;

pub const UPDATE_TRUST: u64 = 0x008;

pub const READ_EVENTS: u64 = 0x010;

pub const EMIT_EVENTS: u64 = 0x020;

pub const ADMIN_COMPRESS: u64 = 0x040;

pub const ADMIN_MERGE: u64 = 0x080;

pub const READ_INVARIANTS: u64 = 0x100;

/// A set of access rights. There is no right to modify invariants.
#[derive(Debug, Clone, Copy, PartialEq, Eq, Structural)]
pub struct Permissions {
    pub bits: u64,
}

impl Permissions {
    /// Every right of `other` is one of `self` too.
    pub open spec fn includes(self, other: Permissions) -> bool {
        self.bits & other.bits == other.bits
    }

    /// The rights that both sets hold.
    pub open spec fn shared(self, other: Permissions) -> Permissions {
        Permissions { bits: self.bits & other.bits }
    }

    pub fn bits(&self) -> (result: u64)
        ensures
            result == self.bits,
    {
        self.bits
    }

    /// Whether every right of `other` is one of `self` too.
    pub fn contains(&self, other: &Permissions) -> (result: bool)
        ensures
            result == self.includes(*other),
    {
        self.bits & other.bits == other.bits
    }

    /// The rights that both sets hold.
    pub fn intersection(&self, other: &Permissions) -> (result: Permissions)
        ensures
            result == self.shared(*other),
    {
        Permissions { bits: self.bits & other.bits }
    }

    /// May read entities, events and invariants.
    pub fn default_reader() -> (result: Permissions)
        ensures
            result.bits == 0x111,
    {
        assert(0x001u64 | 0x010u64 | 0x100u64 == 0x111u64) by (bit_vector);
        Permissions { bits: READ_ORB | READ_EVENTS | READ_INVARIANTS }
    }

    /// May also write entities, make relations and emit events.
    pub fn default_writer() -> (result: Permissions)
        ensures
            result.bits == 0x137,
    {
        assert(0x111u64 | 0x002u64 | 0x004u64 | 0x020u64 == 0x137u64) by (bit_vector);
        Permissions {
            bits: Permissions::default_reader().bits | WRITE_ORB | CREATE_RELATION | EMIT_EVENTS,
        }
    }

    /// May also update trust.
    pub fn system() -> (result: Permissions)
        ensures
            result.bits == 0x13F,
    {
        assert(0x137u64 | 0x008u64 == 0x13Fu64) by (bit_vector);
        Permissions { bits: Permissions::default_writer().bits | UPDATE_TRUST }
    }

    /// May also compress and merge.
    pub fn operator() -> (result: Permissions)
        ensures
            result.bits == 0x1FF,
    {
        assert(0x13Fu64 | 0x040u64 | 0x080u64 == 0x1FFu64) by (bit_vector);
        Permissions { bits: Permissions::system().bits | ADMIN_COMPRESS | ADMIN_MERGE }
    }
}

/// Each role holds every right of the role below it, and none may modify the
/// invariants.
pub proof fn roles_are_nested()
    ensures
        (Permissions { bits: 0x137 }).includes(Permissions { bits: 0x111 }),
        (Permissions { bits: 0x13F }).includes(Permissions { bits: 0x137 }),
        (Permissions { bits: 0x1FF }).includes(Permissions { bits: 0x13F }),
        !(Permissions { bits: 0x1FF }).includes(Permissions { bits: 0x200 }),
{
    assert(0x137u64 & 0x111u64 == 0x111u64) by (bit_vector);
    assert(0x13Fu64 & 0x137u64 == 0x137u64) by (bit_vector);
    assert(0x1FFu64 & 0x13Fu64 == 0x13Fu64) by (bit_vector);
    assert(0x1FFu64 & 0x200u64 == 0u64) by (bit_vector);
}

/// The shared rights do not depend on the order or the grouping of the sets,
/// a set shares all its rights with itself, and nobody gains a right.
pub proof fn sharing_rights(a: Permissions, b: Permissions, c: Permissions)
    ensures
        a.shared(b) == b.shared(a),
        a.shared(b).shared(c) == a.shared(b.shared(c)),
        a.shared(a) == a,
        a.includes(a.shared(b)),
        b.includes(a.shared(b)),
{
    let x = a.bits;
    let y = b.bits;
    let z = c.bits;
    assert(x & y == y & x) by (bit_vector);
    assert((x & y) & z == x & (y & z)) by (bit_vector);
    assert(x & x == x) by (bit_vector);
    assert(x & (x & y) == x & y) by (bit_vector);
    assert(y & (x & y) == x & y) by (bit_vector);
}

} // verus!
