//! The player's controls: which movement keys are held, and the push that
//! they add up to.

use vstd::prelude::*;

verus! {

/// Which of the four movement keys are held.
#[derive(Clone, Copy, Debug, PartialEq, Eq)]
pub struct ButtonStates {
    pub forward: bool,
    pub backward: bool,
    pub left: bool,
    pub right: bool,
}

impl Default for ButtonStates {
    /// No key is held.
    fn default() -> (states: ButtonStates)
        ensures
            !states.forward,
            !states.backward,
            !states.left,
            !states.right,
    {
        ButtonStates { forward: false, backward: false, left: false, right: false }
    }
}

/// The player, as far as the controls go.
#[derive(Clone, Copy, Debug, PartialEq, Eq)]
pub struct Player {
    pub states: ButtonStates,
}

impl Default for Player {
    /// A player who holds no key.
    fn default() -> (player: Player)
        ensures
            player.states == (ButtonStates {
                forward: false,
                backward: false,
                left: false,
                right: false,
            }),
    {
        Player { states: ButtonStates::default() }
    }
}

/// One if the key is held, else nought.
pub open spec fn held(key: bool) -> int {
    if key {
        1
    } else {
        0
    }
}

impl Player {
    /// The push of the held keys, before it is brought to unit length.
    /// Forward pushes toward negative `y` and backward toward positive `y`;
    /// left and right both push toward negative `x`.
    pub open spec fn spec_force(&self) -> (int, int) {
        (
            -held(self.states.left) - held(self.states.right),
            held(self.states.backward) - held(self.states.forward),
        )
    }

    /// The push of the held keys, before it is brought to unit length.
    pub fn force(&self) -> (push: (i32, i32))
        ensures
            push.0 == self.spec_force().0,
            push.1 == self.spec_force().1,
    {
        let mut x: i32 = 0;
        let mut y: i32 = 0;
        if self.states.forward {
            y -= 1;
        }
        if self.states.backward {
            y += 1;
        }
        if self.states.left {
            x -= 1;
        }
        if self.states.right {
            x -= 1;
        }
        (x, y)
    }
}

} // verus!
