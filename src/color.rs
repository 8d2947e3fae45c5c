//! Token colours, the die, and the outcome of a game.
use rand::Rng;
use vstd::prelude::*;

verus! {

/// The faces of the die. The first four are the racing fish; `Rot` and
/// `Gruen` are neutral faces, and `NotRolled` marks that nothing has been
/// rolled yet.
#[derive(Debug, Copy, Clone, PartialEq, Eq, Structural)]
pub enum Color {
    Blau,
    Orange,
    Gelb,
    Rosa,
    Rot,
    Gruen,
    NotRolled,
}

/// The state of a game: still running, or who won.
#[derive(Debug, Copy, Clone, PartialEq, Eq, Structural)]
pub enum Winner {
    Undecided,
    Fisch,
    Boot,
    Unentschieden,
}

/// The four colours that race, in their fixed priority order.
pub open spec fn is_race(c: Color) -> bool {
    match c {
        Color::Blau | Color::Orange | Color::Gelb | Color::Rosa => true,
        _ => false,
    }
}

/// Position of a racing colour in the priority order (Blau first).
pub open spec fn race_index(c: Color) -> int {
    match c {
        Color::Blau => 0,
        Color::Orange => 1,
        Color::Gelb => 2,
        Color::Rosa => 3,
        _ => 4,
    }
}

/// The racing colour at a position of the priority order.
pub open spec fn race_color(i: int) -> Color {
    if i == 0 {
        Color::Blau
    } else if i == 1 {
        Color::Orange
    } else if i == 2 {
        Color::Gelb
    } else {
        Color::Rosa
    }
}

/// The colour shown by a face number of the die, faces being numbered 0 to 5.
pub open spec fn face_color(n: int) -> Color {
    if 0 <= n < 4 {
        race_color(n)
    } else if n == 4 {
        Color::Rot
    } else {
        Color::Gruen
    }
}

impl Color {
    /// Index of a racing colour in the priority order.
    pub fn race_slot(&self) -> (r: usize)
        requires
            is_race(*self),
        ensures
            r == race_index(*self),
            r < 4,
    {
        match self {
            Color::Blau => 0,
            Color::Orange => 1,
            Color::Gelb => 2,
            _ => 3,
        }
    }

    /// Whether this is one of the four racing colours.
    pub fn is_fish(&self) -> (r: bool)
        ensures
            r == is_race(*self),
    {
        match self {
            Color::Blau | Color::Orange | Color::Gelb | Color::Rosa => true,
            _ => false,
        }
    }

    /// The colour shown by die face `n`.
    pub fn from_face(n: u8) -> (r: Color)
        requires
            n <= 5,
        ensures
            r == face_color(n as int),
    {
        match n {
            0 => Color::Blau,
            1 => Color::Orange,
            2 => Color::Gelb,
            3 => Color::Rosa,
            4 => Color::Rot,
            _ => Color::Gruen,
        }
    }
}

/// Relies on rand's `thread_rng().gen_range(0..=5)`: a value of the inclusive
/// range, drawn from the thread's random source.
#[verifier::external_body]
fn roll_face() -> (r: u8)
    ensures
        r <= 5,
{
    rand::thread_rng().gen_range(0..=5u8)
}

/// Rolls the six-sided die: each of the four racing colours and the two
/// neutral faces.
pub fn d6() -> (r: Color)
    ensures
        exists|n: int| 0 <= n <= 5 && r == face_color(n),
{
    let n = roll_face();
    Color::from_face(n)
}

} // verus!
