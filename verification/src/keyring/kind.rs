//! Leaf kind tags, mixed into the leaf preimage so that leaves made for
//! different purposes in the same tree cannot stand in for one another.
use vstd::prelude::*;

verus! {

/// A device's membership in the fleet.
pub const DEVICE: u8 = 0x64; // b'd'

/// A device's authority to write the identity's avatar.
pub const AVATAR: u8 = 0x61; // b'a'

/// A device's authority to write a stored blob.
pub const BLOB: u8 = 0x62; // b'b'

} // verus!
