//! Three-way comparison results and the order of the natural numbers.

use vstd::prelude::*;

verus! {

/// The outcome of comparing a left value with a right value.
#[derive(Clone, Copy, Debug, PartialEq, Eq, Structural)]
pub enum Order {
    /// The left value comes first.
    Less,
    /// Neither value comes before the other.
    Equal,
    /// The right value comes first.
    Greater,
}

impl Order {
    /// The outcome of the same comparison with the two sides exchanged.
    pub open spec fn reversed(self) -> Order {
        match self {
            Order::Less => Order::Greater,
            Order::Equal => Order::Equal,
            Order::Greater => Order::Less,
        }
    }

    /// The first outcome that is not `Equal`, looking at `self` before `next`.
    pub open spec fn then_with(self, next: Order) -> Order {
        if self == Order::Equal {
            next
        } else {
            self
        }
    }
}

/// How two integers compare.
pub open spec fn int_order(a: int, b: int) -> Order {
    if a < b {
        Order::Less
    } else if a == b {
        Order::Equal
    } else {
        Order::Greater
    }
}

} // verus!
