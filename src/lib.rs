//! Radial ("pie") menu logic: item layout on a circle, the choice of the
//! item that the cursor points at, and the hotkey that opens the menu.

pub mod geometry;
pub mod hotkey;
pub mod menu;
pub mod style;
