//! Layer and brush blending modes
use vstd::prelude::*;

verus! {

#[derive(Copy, Clone, Debug, PartialEq, Eq, Structural)]
pub enum Blendmode {
    Erase,
    Normal,
    Multiply,
    Divide,
    Burn,
    Dodge,
    Darken,
    Lighten,
    Subtract,
    Add,
    Recolor,
    Behind,
    ColorErase,
    Replace,
}

/// The protocol number of each blending mode
pub open spec fn blendmode_number(m: Blendmode) -> u8 {
    match m {
        Blendmode::Erase => 0,
        Blendmode::Normal => 1,
        Blendmode::Multiply => 2,
        Blendmode::Divide => 3,
        Blendmode::Burn => 4,
        Blendmode::Dodge => 5,
        Blendmode::Darken => 6,
        Blendmode::Lighten => 7,
        Blendmode::Subtract => 8,
        Blendmode::Add => 9,
        Blendmode::Recolor => 10,
        Blendmode::Behind => 11,
        Blendmode::ColorErase => 12,
        Blendmode::Replace => 255,
    }
}

impl Blendmode {
    /// Whether blending with this mode can make pixels more transparent
    pub fn can_decrease_opacity(self) -> (r: bool)
        ensures
            r <==> (self is Erase || self is ColorErase || self is Replace),
    {
        match self {
            Blendmode::Erase | Blendmode::ColorErase | Blendmode::Replace => true,
            _ => false,
        }
    }

    /// Whether blending with this mode can make pixels more opaque
    pub fn can_increase_opacity(self) -> (r: bool)
        ensures
            r <==> (self is Normal || self is Recolor || self is Behind || self is Replace),
    {
        match self {
            Blendmode::Normal | Blendmode::Recolor | Blendmode::Behind | Blendmode::Replace => true,
            _ => false,
        }
    }

    /// The protocol number of this mode
    pub fn to_u8(self) -> (r: u8)
        ensures
            r == blendmode_number(self),
    {
        match self {
            Blendmode::Erase => 0,
            Blendmode::Normal => 1,
            Blendmode::Multiply => 2,
            Blendmode::Divide => 3,
            Blendmode::Burn => 4,
            Blendmode::Dodge => 5,
            Blendmode::Darken => 6,
            Blendmode::Lighten => 7,
            Blendmode::Subtract => 8,
            Blendmode::Add => 9,
            Blendmode::Recolor => 10,
            Blendmode::Behind => 11,
            Blendmode::ColorErase => 12,
            Blendmode::Replace => 255,
        }
    }

    /// The mode with the given protocol number, if there is one
    pub fn try_from_u8(v: u8) -> (r: Option<Blendmode>)
        ensures
            r matches Some(m) ==> blendmode_number(m) == v,
            r is None <==> (13 <= v < 255),
    {
        match v {
            0 => Some(Blendmode::Erase),
            1 => Some(Blendmode::Normal),
            2 => Some(Blendmode::Multiply),
            3 => Some(Blendmode::Divide),
            4 => Some(Blendmode::Burn),
            5 => Some(Blendmode::Dodge),
            6 => Some(Blendmode::Darken),
            7 => Some(Blendmode::Lighten),
            8 => Some(Blendmode::Subtract),
            9 => Some(Blendmode::Add),
            10 => Some(Blendmode::Recolor),
            11 => Some(Blendmode::Behind),
            12 => Some(Blendmode::ColorErase),
            255 => Some(Blendmode::Replace),
            _ => None,
        }
    }
}

/// The protocol numbers of the blending modes, as the protocol lists them:
/// erase 0, normal 1, multiply 2, divide 3, burn 4, dodge 5, darken 6,
/// lighten 7, subtract 8, add 9, recolor 10, behind 11, color erase 12 and
/// replace 255; no other number names a mode
pub proof fn lemma_blendmode_numbers(m: Blendmode)
    ensures
        blendmode_number(Blendmode::Erase) == 0,
        blendmode_number(Blendmode::Normal) == 1,
        blendmode_number(Blendmode::Multiply) == 2,
        blendmode_number(Blendmode::Divide) == 3,
        blendmode_number(Blendmode::Burn) == 4,
        blendmode_number(Blendmode::Dodge) == 5,
        blendmode_number(Blendmode::Darken) == 6,
        blendmode_number(Blendmode::Lighten) == 7,
        blendmode_number(Blendmode::Subtract) == 8,
        blendmode_number(Blendmode::Add) == 9,
        blendmode_number(Blendmode::Recolor) == 10,
        blendmode_number(Blendmode::Behind) == 11,
        blendmode_number(Blendmode::ColorErase) == 12,
        blendmode_number(Blendmode::Replace) == 255,
        blendmode_number(m) <= 12 || blendmode_number(m) == 255,
{
}

/// Distinct modes have distinct protocol numbers, so a mode is found
/// again from its number
pub proof fn lemma_blendmode_number_injective(a: Blendmode, b: Blendmode)
    ensures
        blendmode_number(a) == blendmode_number(b) ==> a == b,
{
}

} // verus!
