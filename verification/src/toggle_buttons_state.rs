use vstd::prelude::*;

verus! {

/// Setting for the visibility and interactivity of the toggle buttons for expanding/collapsing objects and arrays.
#[derive(Clone, Copy, Debug, PartialEq, Eq, Hash, Structural)]
pub enum ToggleButtonsState {
    VisibleEnabled,
    VisibleDisabled,
    Hidden,
}

impl Default for ToggleButtonsState {
    fn default() -> (res: Self)
        ensures
            res == ToggleButtonsState::VisibleEnabled,
    {
        ToggleButtonsState::VisibleEnabled
    }
}

impl ToggleButtonsState {
    /// Whether the toggle buttons are interactive: `None` when they are hidden.
    pub fn enabled(&self) -> (res: Option<bool>)
        ensures
            res == match *self {
                ToggleButtonsState::VisibleEnabled => Some(true),
                ToggleButtonsState::VisibleDisabled => Some(false),
                ToggleButtonsState::Hidden => None::<bool>,
            },
    {
        match self {
            ToggleButtonsState::VisibleEnabled => Some(true),
            ToggleButtonsState::VisibleDisabled => Some(false),
            ToggleButtonsState::Hidden => None,
        }
    }
}

} // verus!
