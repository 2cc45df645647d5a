use pie_menu::hotkey::{handles_key, KeyEvent, TRIGGER_KEY};

fn ev(key_down: bool, alt_down: bool, vk_code: u32) -> KeyEvent {
    KeyEvent { key_down, alt_down, vk_code }
}

#[test]
fn alt_p_opens_installed_menu() {
    assert!(handles_key(ev(true, true, TRIGGER_KEY), true));
    assert_eq!(TRIGGER_KEY, 'P' as u32);
}

#[test]
fn other_keys_pass_through() {
    assert!(!handles_key(ev(true, true, TRIGGER_KEY), false));
    assert!(!handles_key(ev(true, false, TRIGGER_KEY), true));
    assert!(!handles_key(ev(false, true, TRIGGER_KEY), true));
    assert!(!handles_key(ev(true, true, 'O' as u32), true));
}
