use vstd::prelude::*;

verus! {

/// Virtual-key code of the P key, which opens the menu together with Alt.
pub const TRIGGER_KEY: u32 = 0x50;

/// A key event as the keyboard hook sees it.
#[derive(Clone, Copy, Debug, PartialEq, Eq, Structural)]
pub struct KeyEvent {
    /// The event is a key press (a plain or a system key-down message).
    pub key_down: bool,
    /// Alt was held during the press.
    pub alt_down: bool,
    /// Virtual-key code of the key.
    pub vk_code: u32,
}

pub open spec fn is_chord(ev: KeyEvent) -> bool {
    ev.key_down && ev.alt_down && ev.vk_code == TRIGGER_KEY
}

/// Whether the keyboard hook consumes `ev` and opens the menu: the event
/// is Alt+P pressed and a menu is installed. Other events go on to the
/// next hook.
pub fn handles_key(ev: KeyEvent, menu_installed: bool) -> (r: bool)
    ensures
        r == (menu_installed && is_chord(ev)),
{
    menu_installed && ev.key_down && ev.alt_down && ev.vk_code == TRIGGER_KEY
}

} // verus!
