//! The order in which domain block locations are compared.
use crate::prelude::{DomainBlockLocation, Rotation};
use core::cmp::Ordering;
use vstd::prelude::*;
use vstd::std_specs::cmp::PartialOrdSpecImpl;

verus! {

/// The rank of a rotation in the order of the variants.
pub open spec fn rotation_rank(r: Rotation) -> nat {
    match r {
        Rotation::Zero => 0,
        Rotation::Quarter => 1,
        Rotation::Half => 2,
        Rotation::ThreeQuarter => 3,
    }
}

/// The order of two naturals.
pub open spec fn order_of(a: nat, b: nat) -> Ordering {
    if a < b {
        Ordering::Less
    } else if a == b {
        Ordering::Equal
    } else {
        Ordering::Greater
    }
}

/// The order of two numbers.
pub open spec fn order_of_usize(a: usize, b: usize) -> Ordering {
    if a < b {
        Ordering::Less
    } else if a == b {
        Ordering::Equal
    } else {
        Ordering::Greater
    }
}

/// Domain block locations ordered by corner row, corner column, rotation,
/// then flip (unflipped first); their sizes are not compared.
pub open spec fn location_order(a: DomainBlockLocation, b: DomainBlockLocation) -> Ordering {
    let o1 = order_of_usize(a.pos.0, b.pos.0);
    let o2 = order_of_usize(a.pos.1, b.pos.1);
    let o3 = order_of(rotation_rank(a.rotation), rotation_rank(b.rotation));
    let o4 = order_of(
        if a.flipped {
            1
        } else {
            0
        },
        if b.flipped {
            1
        } else {
            0
        },
    );
    if o1 != Ordering::Equal {
        o1
    } else if o2 != Ordering::Equal {
        o2
    } else if o3 != Ordering::Equal {
        o3
    } else {
        o4
    }
}

/// The rank of a rotation in the order of the variants.
fn rank(r: Rotation) -> (n: u8)
    ensures
        n == rotation_rank(r),
{
    match r {
        Rotation::Zero => 0,
        Rotation::Quarter => 1,
        Rotation::Half => 2,
        Rotation::ThreeQuarter => 3,
    }
}

/// The order of two numbers.
fn compare_usize(a: usize, b: usize) -> (o: Ordering)
    ensures
        o == order_of_usize(a, b),
{
    if a < b {
        Ordering::Less
    } else if a == b {
        Ordering::Equal
    } else {
        Ordering::Greater
    }
}

impl PartialOrd for DomainBlockLocation {
    fn partial_cmp(&self, other: &Self) -> (r: Option<Ordering>) {
        let o1 = compare_usize(self.pos.0, other.pos.0);
        let o2 = compare_usize(self.pos.1, other.pos.1);
        let ra = rank(self.rotation);
        let rb = rank(other.rotation);
        let o3 = if ra < rb {
            Ordering::Less
        } else if ra == rb {
            Ordering::Equal
        } else {
            Ordering::Greater
        };
        let fa: u8 = if self.flipped {
            1
        } else {
            0
        };
        let fb: u8 = if other.flipped {
            1
        } else {
            0
        };
        let o4 = if fa < fb {
            Ordering::Less
        } else if fa == fb {
            Ordering::Equal
        } else {
            Ordering::Greater
        };
        let o = match o1 {
            Ordering::Equal => match o2 {
                Ordering::Equal => match o3 {
                    Ordering::Equal => o4,
                    _ => o3,
                },
                _ => o2,
            },
            _ => o1,
        };
        Some(o)
    }
}

impl PartialOrdSpecImpl for DomainBlockLocation {
    open spec fn obeys_partial_cmp_spec() -> bool {
        true
    }

    open spec fn partial_cmp_spec(&self, other: &Self) -> Option<Ordering> {
        Some(location_order(*self, *other))
    }
}

} // verus!
