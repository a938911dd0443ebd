use lazywm::config::{mod_key_mask, ModKey};
use lazywm::keys::{get_modifier, keysym_index, resolve_key, KeyBinding, KeyCombination, KeyOutcome, Modifier};

fn parts(s: &str) -> Vec<String> {
    s.split('+').map(|p| p.trim().to_string()).collect()
}

#[test]
fn modifiers_are_named_in_two_cases() {
    assert_eq!(get_modifier(&"alt".to_string()), Some(Modifier::Alt));
    assert_eq!(get_modifier(&"Ctrl".to_string()), Some(Modifier::Ctrl));
    assert_eq!(get_modifier(&"shift".to_string()), Some(Modifier::Shift));
    assert_eq!(get_modifier(&"Super".to_string()), Some(Modifier::Super));
    assert_eq!(get_modifier(&"ALT".to_string()), None);
    assert_eq!(get_modifier(&"Return".to_string()), None);
}

#[test]
fn combination_collects_modifiers_and_key() {
    let k = KeyCombination::from_parts(&parts("Alt + Shift + Return"));
    assert!(k.alt && k.shift && !k.ctrl && !k.super_key);
    assert_eq!(k.key, Some("Return".to_string()));
    let k = KeyCombination::from_parts(&parts("super+j"));
    assert!(k.super_key && !k.alt);
    assert_eq!(k.key, Some("j".to_string()));
}

#[test]
fn combination_ending_in_modifier_has_no_key() {
    let k = KeyCombination::from_parts(&parts("Return+ctrl"));
    assert!(k.ctrl);
    assert_eq!(k.key, None);
    let k = KeyCombination::from_parts(&Vec::new());
    assert_eq!(k, KeyCombination { alt: false, ctrl: false, shift: false, super_key: false, key: None });
}

#[test]
fn keysym_index_of_keycode() {
    assert_eq!(keysym_index(38, 8, 7), Some(210));
    assert_eq!(keysym_index(8, 8, 7), Some(0));
    assert_eq!(keysym_index(7, 8, 7), None);
    assert_eq!(keysym_index(255, 0, 255), Some(65025));
}

#[test]
fn key_press_resolves_binding() {
    let bindings = vec![
        KeyBinding { keysym: 0xff0d, modifiers: 1, command: "terminal".to_string() },
        KeyBinding { keysym: 0x6a, modifiers: 0, command: "focus_right".to_string() },
        KeyBinding { keysym: 0x6a, modifiers: 1, command: "move_right".to_string() },
    ];
    // Mod4 (64) is the window manager's own modifier and is masked out.
    assert_eq!(resolve_key(&bindings, 0xff0d, 64 | 1, 64, 0xff1b), KeyOutcome::Run("terminal".to_string()));
    assert_eq!(resolve_key(&bindings, 0x6a, 64, 64, 0xff1b), KeyOutcome::Run("focus_right".to_string()));
    assert_eq!(resolve_key(&bindings, 0x6a, 65, 64, 0xff1b), KeyOutcome::Run("move_right".to_string()));
    assert_eq!(resolve_key(&bindings, 0x6b, 64, 64, 0xff1b), KeyOutcome::Ignore);
    assert_eq!(resolve_key(&bindings, 0xff1b, 0, 64, 0xff1b), KeyOutcome::Exit);
    assert_eq!(resolve_key(&bindings, 0x6a, 0, 64, 0xff1b), KeyOutcome::Ignore);
}

#[test]
fn combination_mask_uses_x11_bits() {
    let k = KeyCombination::from_parts(&parts("Alt+Ctrl+Shift+Super+x"));
    assert_eq!(k.modifier_mask(), 8 | 4 | 1 | 64);
    let k = KeyCombination::from_parts(&parts("ctrl+q"));
    assert_eq!(k.modifier_mask(), 4);
    let k = KeyCombination::from_parts(&parts("Return"));
    assert_eq!(k.modifier_mask(), 0);
}

#[test]
fn mod_key_masks() {
    assert_eq!(mod_key_mask(Some(ModKey::Mod1)), 8);
    assert_eq!(mod_key_mask(Some(ModKey::Mod2)), 16);
    assert_eq!(mod_key_mask(Some(ModKey::Mod3)), 32);
    assert_eq!(mod_key_mask(Some(ModKey::Mod4)), 64);
    assert_eq!(mod_key_mask(Some(ModKey::Mod5)), 128);
    assert_eq!(mod_key_mask(None), 8);
}
