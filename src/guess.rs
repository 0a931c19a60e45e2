use vstd::prelude::*;

verus! {

/// One round of the number-guessing game: the number to find and the player's guess.
#[derive(Debug)]
pub struct Turn {
    pub secret: u32,
    pub guess: u32,
}

impl Turn {
    /// A turn is won exactly when the guess equals the secret.
    pub fn is_win(&self) -> (r: bool)
        ensures
            r == (self.guess == self.secret),
    {
        self.guess == self.secret
    }
}

} // verus!
