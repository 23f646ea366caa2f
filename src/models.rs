use vstd::prelude::*;

verus! {

/// The kind of a grid cell.
#[derive(Debug, Clone, Copy, PartialEq, Eq, Structural)]
pub enum TileType {
    Free,
    Unbuildable,
    Void,
    Spawn,
    Exit,
    Occupied,
    Path,
}

/// An adversary may step on a cell of this kind.
pub open spec fn traversable(k: TileType) -> bool {
    !(k == TileType::Void || k == TileType::Occupied)
}

/// A tower may be placed on a cell of this kind.
pub open spec fn buildable(k: TileType) -> bool {
    k == TileType::Free || k == TileType::Path
}

impl TileType {
    /// Decodes the small-integer form of a kind (`0..=6`, in declaration order).
    pub fn from_code(code: u8) -> (r: Option<TileType>)
        ensures
            r.is_some() <==> code <= 6,
            code == 0 ==> r == Some(TileType::Free),
            code == 1 ==> r == Some(TileType::Unbuildable),
            code == 2 ==> r == Some(TileType::Void),
            code == 3 ==> r == Some(TileType::Spawn),
            code == 4 ==> r == Some(TileType::Exit),
            code == 5 ==> r == Some(TileType::Occupied),
            code == 6 ==> r == Some(TileType::Path),
    {
        match code {
            0 => Some(TileType::Free),
            1 => Some(TileType::Unbuildable),
            2 => Some(TileType::Void),
            3 => Some(TileType::Spawn),
            4 => Some(TileType::Exit),
            5 => Some(TileType::Occupied),
            6 => Some(TileType::Path),
            _ => None,
        }
    }

    /// The small-integer form of a kind; inverse of `from_code`.
    pub fn code(&self) -> (r: u8)
        ensures
            r <= 6,
            TileType::from_code_spec(r) == Some(*self),
    {
        match self {
            TileType::Free => 0,
            TileType::Unbuildable => 1,
            TileType::Void => 2,
            TileType::Spawn => 3,
            TileType::Exit => 4,
            TileType::Occupied => 5,
            TileType::Path => 6,
        }
    }

    pub open spec fn from_code_spec(code: u8) -> Option<TileType> {
        if code == 0 {
            Some(TileType::Free)
        } else if code == 1 {
            Some(TileType::Unbuildable)
        } else if code == 2 {
            Some(TileType::Void)
        } else if code == 3 {
            Some(TileType::Spawn)
        } else if code == 4 {
            Some(TileType::Exit)
        } else if code == 5 {
            Some(TileType::Occupied)
        } else if code == 6 {
            Some(TileType::Path)
        } else {
            None
        }
    }
}

/// A map description: rows of tile kinds.
pub struct MapInfo {
    pub map: Vec<Vec<TileType>>,
}

} // verus!
