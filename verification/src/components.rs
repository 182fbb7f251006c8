//! The replicated data schema: the player record the server owns and the
//! clients mirror, the id that tags it, and the transient movement intent.

use vstd::prelude::*;

verus! {

/// The authoritative record kept for one connected player: a world-space
/// position (each axis in thousandths of a world unit), a display name and an
/// optional power-level scalar. Owned by the server, mirrored read-only on
/// clients.
pub struct PlayableCharacter {
    /// World position as (right, up, forward), in thousandths of a unit.
    pub position: (i64, i64, i64),
    pub name: String,
    pub power_level: u8,
}

/// Mathematical image of a [`PlayableCharacter`]: positions as unbounded
/// integers, the name as its character sequence.
pub struct CharacterView {
    pub position: (int, int, int),
    pub name: Seq<char>,
    pub power_level: u8,
}

impl View for PlayableCharacter {
    type V = CharacterView;

    open spec fn view(&self) -> CharacterView {
        CharacterView {
            position: (
                self.position.0 as int,
                self.position.1 as int,
                self.position.2 as int,
            ),
            name: self.name@,
            power_level: self.power_level,
        }
    }
}

impl Default for PlayableCharacter {
    /// A freshly connected player: at the origin, unnamed, no power.
    fn default() -> (r: Self)
        ensures
            r@ === (CharacterView { position: (0, 0, 0), name: Seq::<char>::empty(), power_level: 0 }),
    {
        PlayableCharacter { position: (0, 0, 0), name: String::new(), power_level: 0 }
    }
}

/// The connection id a player record is tagged with, stable for the life of
/// the connection.
#[derive(Clone, Copy, PartialEq, Eq, Structural, Debug)]
pub struct PlayerID(pub u64);

/// A transient movement intent: desired motion along the forward and the
/// right axis, each component in {-1, 0, +1}. Consumed once per server tick;
/// never persisted.
#[derive(Clone, Copy, PartialEq, Eq, Structural, Debug)]
pub struct MoveEvent {
    pub forward: i8,
    pub right: i8,
}

impl Default for MoveEvent {
    /// The all-neutral intent.
    fn default() -> (r: Self)
        ensures
            r == (MoveEvent { forward: 0, right: 0 }),
    {
        MoveEvent { forward: 0, right: 0 }
    }
}

} // verus!
