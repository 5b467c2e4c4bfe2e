use vstd::prelude::*;

use crate::theme::{Theme, TileType};

verus! {

/// Name, category and colour of each tile type of the Solana theme, in the
/// order of their ids.
pub open spec fn solana_table() -> Seq<(Seq<char>, Seq<char>, (u8, u8, u8))> {
    seq![
        ("SOL"@, "Token"@, (150u8, 50u8, 200u8)),
        ("USDC"@, "Token"@, (0u8, 200u8, 100u8)),
        ("USDT"@, "Token"@, (200u8, 100u8, 0u8)),
        ("BONK"@, "Token"@, (200u8, 50u8, 50u8)),
        ("WIF"@, "Token"@, (50u8, 200u8, 200u8)),
        ("JUP"@, "Token"@, (100u8, 200u8, 100u8)),
        ("RAY"@, "Token"@, (200u8, 200u8, 50u8)),
        ("ORCA"@, "Token"@, (50u8, 100u8, 200u8)),
        ("PYTH"@, "Token"@, (200u8, 150u8, 100u8)),
        ("JTO"@, "Token"@, (150u8, 200u8, 50u8)),
        ("Swap"@, "DeFi"@, (0u8, 150u8, 200u8)),
        ("Stake"@, "DeFi"@, (0u8, 200u8, 150u8)),
        ("Lend"@, "DeFi"@, (50u8, 200u8, 200u8)),
        ("Yield"@, "DeFi"@, (100u8, 200u8, 150u8)),
        ("Bridge"@, "DeFi"@, (0u8, 180u8, 180u8)),
        ("DAO"@, "DeFi"@, (50u8, 150u8, 200u8)),
        ("NFT"@, "DeFi"@, (100u8, 180u8, 200u8)),
        ("Mint"@, "DeFi"@, (0u8, 200u8, 180u8)),
        ("Pool"@, "DeFi"@, (50u8, 200u8, 180u8)),
        ("Farm"@, "DeFi"@, (100u8, 200u8, 180u8)),
        ("Saga"@, "Eco"@, (180u8, 0u8, 180u8)),
        ("Firedancer"@, "Eco"@, (200u8, 0u8, 150u8)),
        ("Token2022"@, "Eco"@, (220u8, 50u8, 200u8)),
        ("Program"@, "Eco"@, (200u8, 0u8, 200u8)),
        ("Account"@, "Eco"@, (180u8, 50u8, 180u8)),
        ("Block"@, "Eco"@, (200u8, 100u8, 200u8)),
        ("Vote"@, "Eco"@, (180u8, 0u8, 200u8)),
        ("Wallet"@, "Eco"@, (200u8, 50u8, 180u8)),
        ("Jito"@, "Validator"@, (50u8, 50u8, 200u8)),
        ("Marinade"@, "Validator"@, (100u8, 50u8, 200u8)),
        ("Lido"@, "Validator"@, (150u8, 50u8, 200u8)),
        ("Rocket"@, "Validator"@, (200u8, 50u8, 200u8)),
        ("Figment"@, "Validator"@, (50u8, 100u8, 200u8)),
        ("Anza"@, "Validator"@, (100u8, 100u8, 200u8)),
        ("Triton"@, "Validator"@, (150u8, 100u8, 200u8)),
        ("Helius"@, "Validator"@, (200u8, 100u8, 200u8)),
    ]
}

/// The tile type `t` is entry `i` of the Solana table.
pub open spec fn is_solana_type(t: TileType, i: int) -> bool {
    &&& t.id == i
    &&& t.name@ == solana_table()[i].0
    &&& t.category@ == solana_table()[i].1
    &&& t.color == solana_table()[i].2
}

/// The Solana theme: 36 tile types numbered in the order of the table.
pub fn solana_theme() -> (t: Theme)
    ensures
        t.name@ == "Solana"@,
        t.tile_types@.len() == solana_table().len(),
        forall|i: int| 0 <= i < t.tile_types@.len() ==> is_solana_type(#[trigger] t.tile_types@[i], i),
{
    let types_data: [(&'static str, &'static str, (u8, u8, u8)); 36] = [
        ("SOL", "Token", (150u8, 50u8, 200u8)),
        ("USDC", "Token", (0u8, 200u8, 100u8)),
        ("USDT", "Token", (200u8, 100u8, 0u8)),
        ("BONK", "Token", (200u8, 50u8, 50u8)),
        ("WIF", "Token", (50u8, 200u8, 200u8)),
        ("JUP", "Token", (100u8, 200u8, 100u8)),
        ("RAY", "Token", (200u8, 200u8, 50u8)),
        ("ORCA", "Token", (50u8, 100u8, 200u8)),
        ("PYTH", "Token", (200u8, 150u8, 100u8)),
        ("JTO", "Token", (150u8, 200u8, 50u8)),
        ("Swap", "DeFi", (0u8, 150u8, 200u8)),
        ("Stake", "DeFi", (0u8, 200u8, 150u8)),
        ("Lend", "DeFi", (50u8, 200u8, 200u8)),
        ("Yield", "DeFi", (100u8, 200u8, 150u8)),
        ("Bridge", "DeFi", (0u8, 180u8, 180u8)),
        ("DAO", "DeFi", (50u8, 150u8, 200u8)),
        ("NFT", "DeFi", (100u8, 180u8, 200u8)),
        ("Mint", "DeFi", (0u8, 200u8, 180u8)),
        ("Pool", "DeFi", (50u8, 200u8, 180u8)),
        ("Farm", "DeFi", (100u8, 200u8, 180u8)),
        ("Saga", "Eco", (180u8, 0u8, 180u8)),
        ("Firedancer", "Eco", (200u8, 0u8, 150u8)),
        ("Token2022", "Eco", (220u8, 50u8, 200u8)),
        ("Program", "Eco", (200u8, 0u8, 200u8)),
        ("Account", "Eco", (180u8, 50u8, 180u8)),
        ("Block", "Eco", (200u8, 100u8, 200u8)),
        ("Vote", "Eco", (180u8, 0u8, 200u8)),
        ("Wallet", "Eco", (200u8, 50u8, 180u8)),
        ("Jito", "Validator", (50u8, 50u8, 200u8)),
        ("Marinade", "Validator", (100u8, 50u8, 200u8)),
        ("Lido", "Validator", (150u8, 50u8, 200u8)),
        ("Rocket", "Validator", (200u8, 50u8, 200u8)),
        ("Figment", "Validator", (50u8, 100u8, 200u8)),
        ("Anza", "Validator", (100u8, 100u8, 200u8)),
        ("Triton", "Validator", (150u8, 100u8, 200u8)),
        ("Helius", "Validator", (200u8, 100u8, 200u8)),
    ];
    assert(solana_table().len() == 36);
    assert forall|i: int| 0 <= i < 36 implies types_data@[i].0@ == solana_table()[i].0
        && types_data@[i].1@ == solana_table()[i].1 && types_data@[i].2 == solana_table()[i].2 by {
    }
    let mut tile_types: Vec<TileType> = Vec::new();
    for i in 0..36usize
        invariant
            tile_types@.len() == i,
            forall|j: int| 0 <= j < 36 ==> types_data@[j].0@ == solana_table()[j].0
                && types_data@[j].1@ == solana_table()[j].1 && types_data@[j].2 == solana_table()[j].2,
            forall|j: int| 0 <= j < i ==> is_solana_type(#[trigger] tile_types@[j], j),
    {
        let (name, category, color) = types_data[i];
        tile_types.push(TileType { id: i as u32, name, category, color });
    }
    Theme { name: "Solana", tile_types }
}

} // verus!
