use vstd::prelude::*;

verus! {

/// The ways an enumeration or a probability computation can be refused.
#[derive(Debug, Clone, Copy, PartialEq, Eq, Structural)]
pub enum CouponError {
    /// A requested subset size exceeds the number of items available.
    SizeExceedsItems,
    /// The number of draws is zero.
    TrialsNotPositive,
    /// The threshold is zero or larger than the target group.
    InvalidK,
}

impl CouponError {
    /// A human-readable description of the failure.
    pub fn message(&self) -> (r: &'static str)
        ensures
            *self == CouponError::SizeExceedsItems ==> r@ == "k exceeds available items"@,
            *self == CouponError::TrialsNotPositive ==> r@ == "trials must be positive"@,
            *self == CouponError::InvalidK ==> r@ == "invalid k value"@,
    {
        match self {
            CouponError::SizeExceedsItems => "k exceeds available items",
            CouponError::TrialsNotPositive => "trials must be positive",
            CouponError::InvalidK => "invalid k value",
        }
    }
}

} // verus!
