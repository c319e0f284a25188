//! Window-management logic of meatshell: the launch intent read from the
//! process arguments, the single-instance protocol between a forwarding
//! launch and the primary instance, and the Explorer context-menu
//! registration, each stated and proved with Verus.

use vstd::prelude::*;

pub mod acquire;
pub mod launch;
pub mod registry_menu;
pub mod single_instance;
pub mod text;

verus! {

} // verus!
