//! Colour variants of a status badge and the style classes of each.

use vstd::prelude::*;

verus! {

/// The colour of a badge.
#[derive(Debug, Clone, Copy, PartialEq, Eq, Structural)]
pub enum BadgeVariant {
    Gray,
    Green,
    Red,
    Yellow,
}

impl Default for BadgeVariant {
    fn default() -> (res: Self)
        ensures
            res == BadgeVariant::Gray,
    {
        BadgeVariant::Gray
    }
}

/// The style classes of a badge variant.
pub open spec fn spec_badge_classes(v: BadgeVariant) -> Seq<char> {
    match v {
        BadgeVariant::Gray => "badge badge-gray"@,
        BadgeVariant::Green => "badge badge-green"@,
        BadgeVariant::Red => "badge badge-red"@,
        BadgeVariant::Yellow => "badge badge-yellow"@,
    }
}

impl BadgeVariant {
    /// The style classes of this variant.
    pub fn classes(&self) -> (res: &'static str)
        ensures
            res@ == spec_badge_classes(*self),
    {
        match self {
            BadgeVariant::Gray => "badge badge-gray",
            BadgeVariant::Green => "badge badge-green",
            BadgeVariant::Red => "badge badge-red",
            BadgeVariant::Yellow => "badge badge-yellow",
        }
    }
}

} // verus!
