use vstd::prelude::*;

verus! {

/// The state of a pressed mouse button: pressed during the current update,
/// or held since an earlier one.
#[derive(Debug, Clone, Copy, PartialEq, Eq, Structural)]
pub enum ButtonState {
    Clicked,
    Held,
}

impl ButtonState {
    pub fn is_clicked(&self) -> (r: bool)
        ensures
            r == (*self == ButtonState::Clicked),
    {
        match self {
            ButtonState::Clicked => true,
            ButtonState::Held => false,
        }
    }

    pub fn is_held(&self) -> (r: bool)
        ensures
            r == (*self == ButtonState::Held),
    {
        match self {
            ButtonState::Clicked => false,
            ButtonState::Held => true,
        }
    }

    /// The state at the next update: a click becomes a hold.
    pub fn refreshed(&self) -> (r: ButtonState)
        ensures
            r == ButtonState::Held,
    {
        ButtonState::Held
    }
}

/// The panel that shows a player's hand.
pub struct Hand {}

} // verus!
