//! The top-level screens of the window.
use vstd::prelude::*;

verus! {

/// The screen the window shows.
#[derive(Debug, Clone, Copy, PartialEq, Eq, Structural)]
pub enum View {
    Splash,
    Login,
    Home,
}

impl Default for View {
    fn default() -> (r: Self)
        ensures
            r == View::Splash,
    {
        View::Splash
    }
}

} // verus!
