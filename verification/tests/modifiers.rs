//! Input-modifier, button and action encodings.

use nvim_rpc::neovim::{Action, Button, Modifiers};

#[test]
fn modifiers_start_empty() {
    let m = Modifiers::new();
    assert!(!m.ctrl() && !m.shift() && !m.alt() && !m.logo());
    assert_eq!(m.text(), "");
}

#[test]
fn each_flag_sets_only_its_bit() {
    let m = Modifiers::new().with_ctrl(true);
    assert!(m.ctrl() && !m.shift() && !m.alt() && !m.logo());
    let m = Modifiers::new().with_shift(true);
    assert!(!m.ctrl() && m.shift() && !m.alt() && !m.logo());
    let m = Modifiers::new().with_alt(true);
    assert!(!m.ctrl() && !m.shift() && m.alt() && !m.logo());
    let m = Modifiers::new().with_logo(true);
    assert!(!m.ctrl() && !m.shift() && !m.alt() && m.logo());
}

#[test]
fn with_false_keeps_flags() {
    let m = Modifiers::new().with_ctrl(true).with_ctrl(false);
    assert!(m.ctrl());
    let m = Modifiers::new().with_shift(false);
    assert!(!m.shift());
}

#[test]
fn text_lists_ctrl_shift_alt_in_order() {
    let m = Modifiers::new().with_alt(true).with_ctrl(true).with_shift(true);
    assert_eq!(m.text(), "CSA");
    let m = Modifiers::new().with_shift(true).with_logo(true);
    assert_eq!(m.text(), "S");
}

#[test]
fn button_names() {
    assert_eq!(Button::Left.as_str(), "left");
    assert_eq!(Button::Right.as_str(), "right");
    assert_eq!(Button::Middle.as_str(), "middle");
    assert_eq!(Button::Wheel.as_str(), "wheel");
    assert_eq!(Button::Move.as_str(), "move");
}

#[test]
fn action_names() {
    assert_eq!(Action::ButtonPress.as_str(), "press");
    assert_eq!(Action::ButtonDrag.as_str(), "drag");
    assert_eq!(Action::ButtonRelease.as_str(), "release");
    assert_eq!(Action::WheelUp.as_str(), "up");
    assert_eq!(Action::WheelDown.as_str(), "down");
    assert_eq!(Action::WheelLeft.as_str(), "left");
    assert_eq!(Action::WheelRight.as_str(), "right");
}
