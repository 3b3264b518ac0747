//! Visual variants of a button and the style classes of each.

use vstd::prelude::*;

verus! {

/// The look of a button.
#[derive(Debug, Clone, Copy, PartialEq, Eq, Structural)]
pub enum ButtonVariant {
    Primary,
    Secondary,
    Outline,
    /// The transparent style (`btn-ghost`).
    Transparent,
    Danger,
}

impl Default for ButtonVariant {
    fn default() -> (res: Self)
        ensures
            res == ButtonVariant::Primary,
    {
        ButtonVariant::Primary
    }
}

/// The style classes of a button variant.
pub open spec fn spec_button_classes(v: ButtonVariant) -> Seq<char> {
    match v {
        ButtonVariant::Primary => "btn btn-primary"@,
        ButtonVariant::Secondary => "btn btn-secondary"@,
        ButtonVariant::Outline => "btn btn-outline"@,
        ButtonVariant::Transparent => "btn btn-ghost"@,
        ButtonVariant::Danger => "btn btn-danger"@,
    }
}

impl ButtonVariant {
    /// The style classes of this variant.
    pub fn classes(&self) -> (res: &'static str)
        ensures
            res@ == spec_button_classes(*self),
    {
        match self {
            ButtonVariant::Primary => "btn btn-primary",
            ButtonVariant::Secondary => "btn btn-secondary",
            ButtonVariant::Outline => "btn btn-outline",
            ButtonVariant::Transparent => "btn btn-ghost",
            ButtonVariant::Danger => "btn btn-danger",
        }
    }
}

} // verus!
