use vstd::prelude::*;

verus! {

/// A tile's place on the board, in KMahjongg quarter-tile units: neighbouring
/// tiles in a row are two units apart, `z` is the layer.
#[derive(Debug, Clone, Copy, PartialEq, Eq, Hash, Structural)]
pub struct TilePosition {
    pub x: i32,
    pub y: i32,
    pub z: i32,
}

/// One tile as a level file describes it.
#[derive(Debug, Clone, Copy)]
pub struct TileData {
    pub x: i32,
    pub y: i32,
    pub z: i32,
    pub type_id: u32,
}

/// A tile of the running game.
#[derive(Debug, Clone, Copy)]
pub struct Tile {
    pub id: usize,
    pub position: TilePosition,
    pub type_id: u32,
    pub active: bool,
}

/// The contents of a level file.
#[derive(Debug, Clone)]
pub struct LevelData {
    pub tiles: Vec<TileData>,
}

#[derive(Debug, Clone, Copy, PartialEq, Eq, Structural)]
pub enum GamePhase {
    Playing,
    LevelCompleted,
    AllLevelsCompleted,
    Lost,
}

/// What a click did, kept so that it can be undone.
#[derive(Debug, Clone, Copy, PartialEq, Eq, Structural)]
pub enum BufferAction {
    /// The tile left the board and went into the buffer.
    AddedToBuffer(usize),
    /// The clicked tile (first) paired with the buffered tile (second), which
    /// stood at the given place in the buffer.
    Paired(usize, usize, usize),
}

/// How many tiles the buffer holds at most.
pub const BUFFER_SIZE: usize = 4;

/// The state of one game. The time at which the level started is kept by
/// the program that drives the game, next to this state.
pub struct GameState {
    pub current_level: usize,
    pub tiles: Vec<Tile>,
    pub buffer: Vec<usize>,
    pub phase: GamePhase,
    pub score: u32,
    pub history: Vec<BufferAction>,
}

/// The state of a game as the contracts speak of it.
#[verifier::ext_equal]
pub struct GameView {
    pub current_level: usize,
    pub tiles: Seq<Tile>,
    pub buffer: Seq<usize>,
    pub phase: GamePhase,
    pub score: u32,
    pub history: Seq<BufferAction>,
}

impl View for GameState {
    type V = GameView;

    open spec fn view(&self) -> GameView {
        GameView {
            current_level: self.current_level,
            tiles: self.tiles@,
            buffer: self.buffer@,
            phase: self.phase,
            score: self.score,
            history: self.history@,
        }
    }
}

/// A game at level 1 with no tiles.
pub open spec fn fresh_game() -> GameView {
    GameView {
        current_level: 1,
        tiles: Seq::empty(),
        buffer: Seq::empty(),
        phase: GamePhase::Playing,
        score: 0,
        history: Seq::empty(),
    }
}

/// The tile that the `i`-th entry of a level file becomes.
pub open spec fn tile_from_data(i: int, d: TileData) -> Tile {
    Tile {
        id: i as usize,
        position: TilePosition { x: d.x, y: d.y, z: d.z },
        type_id: d.type_id,
        active: true,
    }
}

/// The tiles of a freshly loaded level.
pub open spec fn tiles_of_level(data: Seq<TileData>) -> Seq<Tile> {
    Seq::new(data.len(), |i: int| tile_from_data(i, data[i]))
}

/// How many of the tiles are still on the board.
pub open spec fn count_active(tiles: Seq<Tile>) -> nat
    decreases tiles.len(),
{
    if tiles.len() == 0 {
        0
    } else {
        count_active(tiles.drop_last()) + if tiles.last().active {
            1nat
        } else {
            0nat
        }
    }
}

/// The tile lies on the board at the given position.
pub open spec fn active_at(t: Tile, pos: TilePosition) -> bool {
    t.active && t.position == pos
}

/// `i` is the first index of a tile that lies on the board at `pos`.
pub open spec fn first_active_at(tiles: Seq<Tile>, pos: TilePosition, i: int) -> bool {
    &&& 0 <= i < tiles.len()
    &&& active_at(tiles[i], pos)
    &&& forall|j: int| 0 <= j < i ==> !active_at(#[trigger] tiles[j], pos)
}

impl GameState {
    /// A state at level 1 with no tiles.
    pub fn new() -> (s: Self)
        ensures
            s@ == fresh_game(),
    {
        let s = GameState {
            current_level: 1,
            tiles: Vec::new(),
            buffer: Vec::new(),
            phase: GamePhase::Playing,
            score: 0,
            history: Vec::new(),
        };
        assert(s@ =~= fresh_game());
        s
    }

    /// Starts the given level: every tile of the level file is on the board,
    /// numbered by its place in the file; buffer, history and score are reset.
    pub fn load_level(&mut self, level: usize, level_data: &LevelData)
        ensures
            final(self).current_level == level,
            final(self).tiles@ == tiles_of_level(level_data.tiles@),
            final(self).buffer@.len() == 0,
            final(self).phase == GamePhase::Playing,
            final(self).score == 0,
            final(self).history@.len() == 0,
    {
        self.current_level = level;
        let mut tiles: Vec<Tile> = Vec::new();
        let n = level_data.tiles.len();
        for i in 0..n
            invariant
                n == level_data.tiles@.len(),
                tiles@.len() == i,
                forall|j: int|
                    0 <= j < i ==> #[trigger] tiles@[j] == tile_from_data(j, level_data.tiles@[j]),
        {
            let td = level_data.tiles[i];
            tiles.push(
                Tile {
                    id: i,
                    position: TilePosition { x: td.x, y: td.y, z: td.z },
                    type_id: td.type_id,
                    active: true,
                },
            );
        }
        assert(tiles@ =~= tiles_of_level(level_data.tiles@));
        self.tiles = tiles;
        self.buffer.clear();
        self.phase = GamePhase::Playing;
        self.score = 0;
        self.history.clear();
    }

    /// How many tiles are still on the board.
    pub fn active_tile_count(&self) -> (n: usize)
        ensures
            n == count_active(self.tiles@),
    {
        let mut n: usize = 0;
        for i in 0..self.tiles.len()
            invariant
                n == count_active(self.tiles@.take(i as int)),
                n <= i,
        {
            assert(self.tiles@.take(i + 1).drop_last() =~= self.tiles@.take(i as int));
            if self.tiles[i].active {
                n = n + 1;
            }
        }
        assert(self.tiles@.take(self.tiles@.len() as int) =~= self.tiles@);
        n
    }

    /// The tile with the given number, if there is one.
    pub fn get_tile(&self, id: usize) -> (r: Option<&Tile>)
        ensures
            match r {
                Some(t) => id < self.tiles@.len() && *t == self.tiles@[id as int],
                None => id >= self.tiles@.len(),
            },
    {
        if id < self.tiles.len() {
            Some(&self.tiles[id])
        } else {
            None
        }
    }

    /// The first tile in the list that lies on the board at `pos`.
    pub fn get_active_tile_at(&self, pos: TilePosition) -> (r: Option<&Tile>)
        ensures
            match r {
                Some(t) => exists|i: int| first_active_at(self.tiles@, pos, i) && *t == self.tiles@[i],
                None => forall|i: int|
                    0 <= i < self.tiles@.len() ==> !active_at(#[trigger] self.tiles@[i], pos),
            },
    {
        let mut i: usize = 0;
        while i < self.tiles.len()
            invariant
                i <= self.tiles@.len(),
                forall|j: int| 0 <= j < i ==> !active_at(#[trigger] self.tiles@[j], pos),
            decreases self.tiles@.len() - i,
        {
            let t = &self.tiles[i];
            if t.active && t.position == pos {
                assert(first_active_at(self.tiles@, pos, i as int));
                return Some(t);
            }
            i = i + 1;
        }
        None
    }
}

} // verus!
