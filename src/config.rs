use vstd::prelude::*;

use crate::keys::{MaskBit, mask_bit, mask_bit_value};

verus! {

/// The modifier key that the configuration names for window manager
/// bindings.
#[derive(Debug, Clone, Copy, PartialEq, Eq, Structural)]
pub enum ModKey {
    Mod1,
    Mod2,
    Mod3,
    Mod4,
    Mod5,
}

/// The modifier bit that a modifier key stands for.
pub open spec fn mod_key_bit(m: ModKey) -> MaskBit {
    match m {
        ModKey::Mod1 => MaskBit::Mod1,
        ModKey::Mod2 => MaskBit::Mod2,
        ModKey::Mod3 => MaskBit::Mod3,
        ModKey::Mod4 => MaskBit::Mod4,
        ModKey::Mod5 => MaskBit::Mod5,
    }
}

/// The X modifier mask of the window manager's modifier key; `Mod1` when
/// the configuration names none.
pub fn mod_key_mask(m: Option<ModKey>) -> (r: u32)
    ensures
        r == mask_bit_value(
            match m {
                Some(k) => mod_key_bit(k),
                None => MaskBit::Mod1,
            },
        ),
{
    let bit = match m {
        Some(ModKey::Mod1) => MaskBit::Mod1,
        Some(ModKey::Mod2) => MaskBit::Mod2,
        Some(ModKey::Mod3) => MaskBit::Mod3,
        Some(ModKey::Mod4) => MaskBit::Mod4,
        Some(ModKey::Mod5) => MaskBit::Mod5,
        None => MaskBit::Mod1,
    };
    mask_bit(bit)
}

} // verus!
