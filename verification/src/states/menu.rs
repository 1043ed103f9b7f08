use vstd::prelude::*;

verus! {

/// The main menu; it remembers whether its settings window is open.
#[derive(Default)]
pub struct Menu {
    should_draw_settings_window: bool,
}

} // verus!
