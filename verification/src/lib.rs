//! Battery levels of connected Bluetooth devices for a tray indicator: which
//! device nodes count and how they merge into devices, the battery icon and
//! its ICO file, the popup menu (items, layout, hit testing, state), the
//! tooltip and the low-battery warning.
use vstd::prelude::*;

pub mod battery;
pub mod icon;
pub mod menu;
pub mod text;
pub mod tray;

verus! {

} // verus!
