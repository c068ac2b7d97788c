//! The pieces that make up an endgame: roles (with the file of pawns, which
//! never leave it except by capturing) and the side they belong to.

use vstd::prelude::*;

verus! {

/// A file of the chess board, from `A` (index 0) to `H` (index 7).
#[derive(Clone, Copy, Debug, PartialEq, Eq, Structural)]
pub enum File {
    A,
    B,
    C,
    D,
    E,
    F,
    G,
    H,
}

/// Index of a file, 0 for `A` to 7 for `H`.
pub open spec fn file_index(f: File) -> nat {
    match f {
        File::A => 0,
        File::B => 1,
        File::C => 2,
        File::D => 3,
        File::E => 4,
        File::F => 5,
        File::G => 6,
        File::H => 7,
    }
}

impl File {
    pub fn to_usize(&self) -> (r: usize)
        ensures
            r == file_index(*self),
    {
        match self {
            File::A => 0,
            File::B => 1,
            File::C => 2,
            File::D => 3,
            File::E => 4,
            File::F => 5,
            File::G => 6,
            File::H => 7,
        }
    }

    /// The file with the given index.
    pub fn new(index: usize) -> (r: File)
        requires
            index < 8,
        ensures
            file_index(r) == index,
    {
        if index == 0 {
            File::A
        } else if index == 1 {
            File::B
        } else if index == 2 {
            File::C
        } else if index == 3 {
            File::D
        } else if index == 4 {
            File::E
        } else if index == 5 {
            File::F
        } else if index == 6 {
            File::G
        } else {
            File::H
        }
    }
}

pub proof fn lemma_file_index_injective(a: File, b: File)
    requires
        file_index(a) == file_index(b),
    ensures
        a == b,
{
}

/// A role in an endgame; pawns are told apart by their file.
#[derive(Clone, Copy, Debug, PartialEq, Eq, Structural)]
pub enum EgtRole {
    Pawn(File),
    King,
    Queen,
    Rook,
    Bishop,
    Knight,
}

/// The index of a role: pawns on files a..h are 0..7, then king 8, queen 9,
/// rook 10, bishop 11, knight 12. Roles are ordered by this index.
pub open spec fn role_index(r: EgtRole) -> nat {
    match r {
        EgtRole::Pawn(f) => file_index(f),
        EgtRole::King => 8,
        EgtRole::Queen => 9,
        EgtRole::Rook => 10,
        EgtRole::Bishop => 11,
        EgtRole::Knight => 12,
    }
}

pub proof fn lemma_role_index_injective(a: EgtRole, b: EgtRole)
    requires
        role_index(a) == role_index(b),
    ensures
        a == b,
{
    match a {
        EgtRole::Pawn(fa) => {
            match b {
                EgtRole::Pawn(fb) => lemma_file_index_injective(fa, fb),
                _ => {},
            }
        },
        _ => {},
    }
}

impl EgtRole {
    pub fn is_pawn(&self) -> (r: bool)
        ensures
            r == (*self is Pawn),
    {
        match self {
            EgtRole::Pawn(_) => true,
            _ => false,
        }
    }

    pub fn to_index(&self) -> (r: usize)
        ensures
            r == role_index(*self),
    {
        match self {
            EgtRole::Pawn(f) => f.to_usize(),
            EgtRole::King => 8,
            EgtRole::Queen => 9,
            EgtRole::Rook => 10,
            EgtRole::Bishop => 11,
            EgtRole::Knight => 12,
        }
    }

    /// The role with the given index (see `role_index`).
    pub fn from_index(index: usize) -> (r: EgtRole)
        requires
            index < 13,
        ensures
            role_index(r) == index,
    {
        if index < 8 {
            EgtRole::Pawn(File::new(index))
        } else if index == 8 {
            EgtRole::King
        } else if index == 9 {
            EgtRole::Queen
        } else if index == 10 {
            EgtRole::Rook
        } else if index == 11 {
            EgtRole::Bishop
        } else {
            EgtRole::Knight
        }
    }
}

/// All roles, in the order of their index.
pub fn all_egt_roles() -> (r: Vec<EgtRole>)
    ensures
        r.len() == 13,
        forall|i: int| 0 <= i < 13 ==> role_index(#[trigger] r@[i]) == i,
{
    let mut v: Vec<EgtRole> = Vec::new();
    let mut i: usize = 0;
    while i < 13
        invariant
            0 <= i <= 13,
            v.len() == i,
            forall|k: int| 0 <= k < i ==> role_index(#[trigger] v@[k]) == k,
        decreases 13 - i,
    {
        v.push(EgtRole::from_index(i));
        i += 1;
    }
    v
}

/// Whether a piece belongs to the side to move or to the other side.
#[derive(Clone, Copy, Debug, PartialEq, Eq, Structural)]
pub enum EgtSide {
    SideToMove,
    SideNotToMove,
}

/// Index of a side: 0 for the side to move, 1 for the other.
pub open spec fn side_index(s: EgtSide) -> nat {
    match s {
        EgtSide::SideToMove => 0,
        EgtSide::SideNotToMove => 1,
    }
}

impl EgtSide {
    pub fn reverse(&self) -> (r: Self)
        ensures
            r != *self,
    {
        match self {
            EgtSide::SideToMove => EgtSide::SideNotToMove,
            EgtSide::SideNotToMove => EgtSide::SideToMove,
        }
    }
}

/// Reversing a side twice gives it back.
pub proof fn lemma_reverse_involution(s: EgtSide, r: EgtSide, rr: EgtSide)
    requires
        r != s,
        rr != r,
    ensures
        rr == s,
{
}

} // verus!
