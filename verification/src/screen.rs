//! The two screens the surrounding application can show. The application
//! shell owns the switching; the library only names the states.

use vstd::prelude::*;

verus! {

/// Which screen the application is currently showing.
#[derive(Clone, Copy, Debug, PartialEq, Eq, Structural)]
pub enum Screens {
    Editor,
    Dashboard,
}

} // verus!
