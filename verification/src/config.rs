//! The configuration from which a [`crate::combo::ComboHandler`] is built.
use vstd::prelude::*;

verus! {

/// A named modifier group: a set of keys that, held down together, modify
/// the action keys that declare a combination with it.
pub struct ModifierDecl {
    /// The name by which action combinations refer to this modifier.
    pub id: String,
    /// The keycodes of the modifier; each keycode appears once.
    pub keys: Vec<u32>,
    /// Whether an active modifier masks the unmodified actions of other keys.
    pub masking: bool,
}

/// An action produced by an action key while a modifier is active.
pub struct ComboDecl<Z> {
    /// The id of the modifier group.
    pub modifier: String,
    /// The output keycode, if any.
    pub action: Option<Z>,
}

/// An action key: its unmodified action and its modified ones.
pub struct ActionDecl<Z> {
    /// The input keycode.
    pub key: u32,
    /// The unmodified output keycode, if any.
    pub action: Option<Z>,
    /// A modifier key acts on key down rather than on key up.
    pub immediate: bool,
    /// A latching action stays after its modifier is released.
    pub latching: bool,
    /// The modified actions.
    pub modified: Vec<ComboDecl<Z>>,
}

/// A whole configuration: modifier groups and action keys.
pub struct Config<Z> {
    pub modifiers: Vec<ModifierDecl>,
    pub actions: Vec<ActionDecl<Z>>,
}

} // verus!
