use vstd::prelude::*;

use x11rb::protocol::xproto::KeyButMask;

use crate::command::is_named;

verus! {

/// A modifier bit of the X keyboard and button state.
#[derive(Debug, Clone, Copy, PartialEq, Eq, Structural)]
pub enum MaskBit {
    Shift,
    Control,
    Mod1,
    Mod2,
    Mod3,
    Mod4,
    Mod5,
}

/// The value of a modifier bit in the X protocol.
pub open spec fn mask_bit_value(b: MaskBit) -> u32 {
    match b {
        MaskBit::Shift => 1,
        MaskBit::Control => 4,
        MaskBit::Mod1 => 8,
        MaskBit::Mod2 => 16,
        MaskBit::Mod3 => 32,
        MaskBit::Mod4 => 64,
        MaskBit::Mod5 => 128,
    }
}

/// Relies on x11rb's `KeyButMask` constants (`SHIFT` is `1 << 0`, `CONTROL`
/// `1 << 2`, `MOD1` to `MOD5` `1 << 3` to `1 << 7`) and on its
/// `From<KeyButMask> for u32`, which returns the bits unchanged.
#[verifier::external_body]
pub(crate) fn mask_bit(b: MaskBit) -> (r: u32)
    ensures
        r == mask_bit_value(b),
{
    u32::from(match b {
        MaskBit::Shift => KeyButMask::SHIFT,
        MaskBit::Control => KeyButMask::CONTROL,
        MaskBit::Mod1 => KeyButMask::MOD1,
        MaskBit::Mod2 => KeyButMask::MOD2,
        MaskBit::Mod3 => KeyButMask::MOD3,
        MaskBit::Mod4 => KeyButMask::MOD4,
        MaskBit::Mod5 => KeyButMask::MOD5,
    })
}

/// A modifier key that a key combination can name.
#[derive(Debug, Clone, Copy, PartialEq, Eq, Structural)]
pub enum Modifier {
    Alt,
    Ctrl,
    Shift,
    Super,
}

/// A key combination such as `Alt+Shift+Return`: the modifiers it holds and
/// the key that ends it, if its last part is not a modifier.
#[derive(Debug, Clone, PartialEq, Eq)]
pub struct KeyCombination {
    pub alt: bool,
    pub ctrl: bool,
    pub shift: bool,
    pub super_key: bool,
    pub key: Option<String>,
}

/// One binding of the configuration: a key symbol, the modifier mask that
/// has to be held, and the name of the command to run.
#[derive(Debug, Clone, PartialEq, Eq)]
pub struct KeyBinding {
    pub keysym: u32,
    pub modifiers: u32,
    pub command: String,
}

/// What a key press asks of the window manager.
#[derive(Debug, Clone, PartialEq, Eq)]
pub enum KeyOutcome {
    /// Run the command with this name.
    Run(String),
    /// End the window manager.
    Exit,
    /// Nothing is bound to the key.
    Ignore,
}

/// The modifier that the part `name` of a key combination names, in lower
/// case or capitalised.
pub open spec fn modifier_named(name: Seq<char>) -> Option<Modifier> {
    if name == "alt"@ || name == "Alt"@ {
        Some(Modifier::Alt)
    } else if name == "ctrl"@ || name == "Ctrl"@ {
        Some(Modifier::Ctrl)
    } else if name == "shift"@ || name == "Shift"@ {
        Some(Modifier::Shift)
    } else if name == "super"@ || name == "Super"@ {
        Some(Modifier::Super)
    } else {
        None
    }
}

/// The key combination made of the parts `parts`, read from left to right:
/// every modifier part adds its modifier, and the key is the last part when
/// that is not a modifier.
pub open spec fn combination_of(parts: Seq<String>) -> KeyCombination
    decreases parts.len(),
{
    if parts.len() == 0 {
        KeyCombination { alt: false, ctrl: false, shift: false, super_key: false, key: None }
    } else {
        let prev = combination_of(parts.drop_last());
        let part = parts.last();
        match modifier_named(part@) {
            Some(Modifier::Alt) => KeyCombination { alt: true, key: None, ..prev },
            Some(Modifier::Ctrl) => KeyCombination { ctrl: true, key: None, ..prev },
            Some(Modifier::Shift) => KeyCombination { shift: true, key: None, ..prev },
            Some(Modifier::Super) => KeyCombination { super_key: true, key: None, ..prev },
            None => KeyCombination { key: Some(part), ..prev },
        }
    }
}

/// The X modifier mask of a key combination: `Alt` is `Mod1`, `Super` is
/// `Mod4`.
pub open spec fn combination_mask(k: KeyCombination) -> u32 {
    (if k.alt {
        mask_bit_value(MaskBit::Mod1)
    } else {
        0u32
    }) | (if k.ctrl {
        mask_bit_value(MaskBit::Control)
    } else {
        0u32
    }) | (if k.shift {
        mask_bit_value(MaskBit::Shift)
    } else {
        0u32
    }) | (if k.super_key {
        mask_bit_value(MaskBit::Mod4)
    } else {
        0u32
    })
}

/// Index of the first binding of `bindings` for key symbol `keysym` and
/// modifier mask `modifiers`.
pub open spec fn first_binding(bindings: Seq<KeyBinding>, keysym: u32, modifiers: u32) -> Option<int>
    decreases bindings.len(),
{
    if bindings.len() == 0 {
        None
    } else {
        let p = first_binding(bindings.drop_last(), keysym, modifiers);
        if p is Some {
            p
        } else if bindings.last().keysym == keysym && bindings.last().modifiers == modifiers {
            Some(bindings.len() - 1)
        } else {
            None
        }
    }
}

/// What a press of key symbol `keysym` with modifier state `state` asks for.
/// With a modifier held, the window manager's own modifier `mod_mask` is
/// ignored and the first matching binding names the command; with none
/// held, the key `escape` ends the window manager.
pub open spec fn key_outcome(
    bindings: Seq<KeyBinding>,
    keysym: u32,
    state: u32,
    mod_mask: u32,
    escape: u32,
) -> KeyOutcome {
    if state != 0 {
        match first_binding(bindings, keysym, state & !mod_mask) {
            Some(i) => KeyOutcome::Run(bindings[i].command),
            None => KeyOutcome::Ignore,
        }
    } else if keysym == escape {
        KeyOutcome::Exit
    } else {
        KeyOutcome::Ignore
    }
}

/// The modifier that the part `name` of a key combination names.
pub fn get_modifier(name: &String) -> (m: Option<Modifier>)
    ensures
        m == modifier_named(name@),
{
    if is_named(name, "alt") || is_named(name, "Alt") {
        Some(Modifier::Alt)
    } else if is_named(name, "ctrl") || is_named(name, "Ctrl") {
        Some(Modifier::Ctrl)
    } else if is_named(name, "shift") || is_named(name, "Shift") {
        Some(Modifier::Shift)
    } else if is_named(name, "super") || is_named(name, "Super") {
        Some(Modifier::Super)
    } else {
        None
    }
}

impl KeyCombination {
    /// Reads the parts of a key combination (the text between its `+`
    /// signs, trimmed) from left to right (see `combination_of`).
    pub fn from_parts(parts: &Vec<String>) -> (k: KeyCombination)
        ensures
            k == combination_of(parts@),
    {
        let mut k = KeyCombination { alt: false, ctrl: false, shift: false, super_key: false, key: None };
        let mut i: usize = 0;
        while i < parts.len()
            invariant
                i <= parts@.len(),
                k == combination_of(parts@.subrange(0, i as int)),
            decreases parts@.len() - i,
        {
            assert(parts@.subrange(0, i as int + 1).drop_last() =~= parts@.subrange(0, i as int));
            assert(parts@.subrange(0, i as int + 1).last() == parts@[i as int]);
            let part = &parts[i];
            match get_modifier(part) {
                Some(Modifier::Alt) => {
                    k.alt = true;
                    k.key = None;
                },
                Some(Modifier::Ctrl) => {
                    k.ctrl = true;
                    k.key = None;
                },
                Some(Modifier::Shift) => {
                    k.shift = true;
                    k.key = None;
                },
                Some(Modifier::Super) => {
                    k.super_key = true;
                    k.key = None;
                },
                None => {
                    k.key = Some(part.clone());
                },
            }
            i = i + 1;
        }
        assert(parts@.subrange(0, parts@.len() as int) =~= parts@);
        k
    }
}

impl KeyCombination {
    /// The X modifier mask that this combination holds (see
    /// `combination_mask`).
    pub fn modifier_mask(&self) -> (r: u32)
        ensures
            r == combination_mask(*self),
    {
        let alt: u32 = if self.alt {
            mask_bit(MaskBit::Mod1)
        } else {
            0
        };
        let ctrl: u32 = if self.ctrl {
            mask_bit(MaskBit::Control)
        } else {
            0
        };
        let shift: u32 = if self.shift {
            mask_bit(MaskBit::Shift)
        } else {
            0
        };
        let sup: u32 = if self.super_key {
            mask_bit(MaskBit::Mod4)
        } else {
            0
        };
        alt | ctrl | shift | sup
    }
}

/// Index in the keyboard mapping of the first key symbol of `keycode`, when
/// the mapping starts at `min_keycode` and lists `keysyms_per_keycode`
/// symbols per key; none for a key code below the first.
pub fn keysym_index(keycode: u8, min_keycode: u8, keysyms_per_keycode: u8) -> (r: Option<usize>)
    ensures
        keycode < min_keycode ==> r is None,
        keycode >= min_keycode ==> r == Some(((keycode - min_keycode) * keysyms_per_keycode) as usize),
{
    if keycode < min_keycode {
        return None;
    }
    let offset: usize = (keycode - min_keycode) as usize;
    assert(offset * (keysyms_per_keycode as usize) <= 255 * 255) by (nonlinear_arith)
        requires
            offset <= 255,
            keysyms_per_keycode <= 255,
    ;
    Some(offset * (keysyms_per_keycode as usize))
}

/// What a press of key symbol `keysym` with modifier state `state` asks for
/// (see `key_outcome`).
pub fn resolve_key(bindings: &Vec<KeyBinding>, keysym: u32, state: u32, mod_mask: u32, escape: u32) -> (r: KeyOutcome)
    ensures
        r == key_outcome(bindings@, keysym, state, mod_mask, escape),
{
    if state == 0 {
        if keysym == escape {
            return KeyOutcome::Exit;
        }
        return KeyOutcome::Ignore;
    }
    let wanted: u32 = state & !mod_mask;
    let ghost bs = bindings@;
    let mut i: usize = 0;
    while i < bindings.len()
        invariant
            bs == bindings@,
            wanted == state & !mod_mask,
            state != 0,
            i <= bs.len(),
            first_binding(bs.subrange(0, i as int), keysym, wanted) is None,
        decreases bs.len() - i,
    {
        assert(bs.subrange(0, i as int + 1).drop_last() =~= bs.subrange(0, i as int));
        assert(bs.subrange(0, i as int + 1).last() == bs[i as int]);
        let b = &bindings[i];
        if b.keysym == keysym && b.modifiers == wanted {
            proof {
                lemma_first_binding_prefix(bs, keysym, wanted, i as int + 1);
            }
            return KeyOutcome::Run(b.command.clone());
        }
        i = i + 1;
    }
    assert(bs.subrange(0, bs.len() as int) =~= bs);
    KeyOutcome::Ignore
}

proof fn lemma_first_binding_prefix(s: Seq<KeyBinding>, keysym: u32, modifiers: u32, j: int)
    requires
        0 <= j <= s.len(),
        first_binding(s.subrange(0, j), keysym, modifiers) is Some,
    ensures
        first_binding(s, keysym, modifiers) == first_binding(s.subrange(0, j), keysym, modifiers),
    decreases s.len() - j,
{
    if j < s.len() {
        assert(s.subrange(0, j + 1).drop_last() =~= s.subrange(0, j));
        lemma_first_binding_prefix(s, keysym, modifiers, j + 1);
    } else {
        assert(s.subrange(0, j) =~= s);
    }
}

} // verus!
