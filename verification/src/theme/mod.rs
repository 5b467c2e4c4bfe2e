pub mod solana;

use vstd::prelude::*;

use crate::theme::solana::{is_solana_type, solana_table, solana_theme};

verus! {

/// A set of tile types with the name under which the game shows them.
pub struct Theme {
    pub name: &'static str,
    pub tile_types: Vec<TileType>,
}

/// One kind of tile: two tiles pair up when they have the same `id`.
pub struct TileType {
    pub id: u32,
    pub name: &'static str,
    pub category: &'static str,
    pub color: (u8, u8, u8),
}

/// The theme of the game.
pub fn get_theme() -> (t: Theme)
    ensures
        t.name@ == "Solana"@,
        t.tile_types@.len() == solana_table().len(),
        forall|i: int| 0 <= i < t.tile_types@.len() ==> is_solana_type(#[trigger] t.tile_types@[i], i),
{
    solana_theme()
}

/// `i` is the first tile type of the theme with the given id.
pub open spec fn first_type_with_id(types: Seq<TileType>, type_id: u32, i: int) -> bool {
    &&& 0 <= i < types.len()
    &&& types[i].id == type_id
    &&& forall|j: int| 0 <= j < i ==> (#[trigger] types[j]).id != type_id
}

/// The name under which tiles of the given type are shown: that of the first
/// tile type of the theme with this id, or `"?"` when there is none.
pub fn tile_type_name(theme: &Theme, type_id: u32) -> (name: &'static str)
    ensures
        (exists|i: int| first_type_with_id(theme.tile_types@, type_id, i) && name == theme.tile_types@[i].name)
            || ((forall|i: int| 0 <= i < theme.tile_types@.len() ==> (#[trigger] theme.tile_types@[i]).id != type_id)
            && name@ == "?"@),
{
    let mut i: usize = 0;
    while i < theme.tile_types.len()
        invariant
            i <= theme.tile_types@.len(),
            forall|j: int| 0 <= j < i ==> (#[trigger] theme.tile_types@[j]).id != type_id,
        decreases theme.tile_types@.len() - i,
    {
        if theme.tile_types[i].id == type_id {
            assert(first_type_with_id(theme.tile_types@, type_id, i as int));
            return theme.tile_types[i].name;
        }
        i = i + 1;
    }
    "?"
}

} // verus!
