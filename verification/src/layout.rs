//! Reading KMahjongg `.layout` files into level data.
use vstd::prelude::*;

use crate::game_core::state::{LevelData, TileData};
use crate::theme::solana::solana_table;
use vstd::arithmetic::div_mod::{lemma_div_is_ordered, lemma_fundamental_div_mod, lemma_fundamental_div_mod_converse};

verus! {

// ---------------------------------------------------------------------------
// Characters and lines
// ---------------------------------------------------------------------------

/// `c` is white space in the sense of Unicode's `White_Space` property (the
/// characters that `char::is_whitespace` accepts).
pub open spec fn is_white_space(c: char) -> bool {
    let u = c as u32;
    ||| 0x09 <= u <= 0x0D
    ||| u == 0x20
    ||| u == 0x85
    ||| u == 0xA0
    ||| u == 0x1680
    ||| 0x2000 <= u <= 0x200A
    ||| u == 0x2028
    ||| u == 0x2029
    ||| u == 0x202F
    ||| u == 0x205F
    ||| u == 0x3000
}

/// `s` without its leading white space.
pub open spec fn trim_start(s: Seq<char>) -> Seq<char>
    decreases s.len(),
{
    if s.len() > 0 && is_white_space(s[0]) {
        trim_start(s.skip(1))
    } else {
        s
    }
}

/// `s` without its trailing white space.
pub open spec fn trim_end(s: Seq<char>) -> Seq<char>
    decreases s.len(),
{
    if s.len() > 0 && is_white_space(s.last()) {
        trim_end(s.drop_last())
    } else {
        s
    }
}

/// `s` without leading and trailing white space.
pub open spec fn trim(s: Seq<char>) -> Seq<char> {
    trim_end(trim_start(s))
}

/// The text split at each line feed: the pieces between line feeds, in order
/// (a text without line feeds is one piece).
pub open spec fn split_lines(s: Seq<char>) -> Seq<Seq<char>>
    decreases s.len(),
{
    if s.len() == 0 {
        seq![Seq::empty()]
    } else {
        let before = split_lines(s.drop_last());
        if s.last() == '\n' {
            before.push(Seq::empty())
        } else {
            before.update(before.len() - 1, before.last().push(s.last()))
        }
    }
}

// ---------------------------------------------------------------------------
// Numbers
// ---------------------------------------------------------------------------

pub open spec fn is_digit(c: char) -> bool {
    0x30 <= (c as u32) <= 0x39
}

pub open spec fn digit_value(c: char) -> int {
    (c as u32) - 0x30
}

/// The number that a string of decimal digits denotes.
pub open spec fn decimal_value(s: Seq<char>) -> int
    decreases s.len(),
{
    if s.len() == 0 {
        0
    } else {
        decimal_value(s.drop_last()) * 10 + digit_value(s.last())
    }
}

/// The digits of an unsigned number: a leading `+` that is followed by more
/// text is dropped.
pub open spec fn unsigned_digits(s: Seq<char>) -> Seq<char> {
    if s.len() > 1 && s[0] == '+' {
        s.skip(1)
    } else {
        s
    }
}

/// The `usize` that `s` denotes, as `str::parse::<usize>` reads it: an
/// optional `+`, then at least one decimal digit and nothing else, and a
/// value that fits.
pub open spec fn parse_usize(s: Seq<char>) -> Option<usize> {
    let d = unsigned_digits(s);
    if d.len() > 0 && (forall|i: int| 0 <= i < d.len() ==> is_digit(#[trigger] d[i]))
        && decimal_value(d) <= usize::MAX {
        Some(decimal_value(d) as usize)
    } else {
        None
    }
}

/// The number that `s` denotes, or `default` where it denotes none.
pub open spec fn number_or(s: Seq<char>, default: usize) -> usize {
    match parse_usize(s) {
        Some(n) => n,
        None => default,
    }
}

// ---------------------------------------------------------------------------
// The layout format
// ---------------------------------------------------------------------------

/// The header word of the format.
pub open spec fn header_word() -> Seq<char> {
    seq!['k', 'm', 'a', 'h', 'j', 'o', 'n', 'g', 'g']
}

/// A (trimmed) line that carries nothing: the header, a comment or a blank
/// line.
pub open spec fn is_ignored_line(t: Seq<char>) -> bool {
    ||| t.len() >= 9 && t.take(9) == header_word()
    ||| t.len() > 0 && t[0] == '#'
    ||| t.len() == 0
}

/// What has been read of a layout after some lines: the declared width and
/// height, the finished layers (each a list of trimmed grid lines) and the
/// layer being read.
#[verifier::ext_equal]
pub struct LayoutScan {
    pub width: usize,
    pub height: usize,
    pub grids: Seq<Seq<Seq<char>>>,
    pub current: Seq<Seq<char>>,
    pub in_grid: bool,
}

/// Before the first line: 32 wide, 16 high, nothing read.
pub open spec fn scan_start() -> LayoutScan {
    LayoutScan {
        width: 32,
        height: 16,
        grids: Seq::empty(),
        current: Seq::empty(),
        in_grid: false,
    }
}

/// Reading one more line. `w<n>` and `h<n>` set the width and the height
/// (32 and 16 where `<n>` is no number), `d<n>` declares the depth, which
/// changes nothing read; every other line that is not ignored is a grid line
/// of the current layer, and a layer is finished when it holds as many lines
/// as the height says.
pub open spec fn scan_line(st: LayoutScan, line: Seq<char>) -> LayoutScan {
    let t = trim(line);
    if is_ignored_line(t) {
        st
    } else if t[0] == 'w' {
        LayoutScan { width: number_or(t.skip(1), 32), ..st }
    } else if t[0] == 'h' {
        LayoutScan { height: number_or(t.skip(1), 16), ..st }
    } else if t[0] == 'd' {
        st
    } else {
        let grid = if st.in_grid {
            st.current
        } else {
            Seq::empty()
        }.push(t);
        if grid.len() == st.height {
            LayoutScan { grids: st.grids.push(grid), current: Seq::empty(), in_grid: false, ..st }
        } else {
            LayoutScan { current: grid, in_grid: true, ..st }
        }
    }
}

/// Reading the lines in order.
pub open spec fn scan_lines(lines: Seq<Seq<char>>) -> LayoutScan
    decreases lines.len(),
{
    if lines.len() == 0 {
        scan_start()
    } else {
        scan_line(scan_lines(lines.drop_last()), lines.last())
    }
}

/// The layers of a layout text: the finished ones, then the one left open at
/// the end, if it has any line.
pub open spec fn layout_grids(content: Seq<char>) -> Seq<Seq<Seq<char>>> {
    let st = scan_lines(split_lines(content));
    if st.current.len() > 0 {
        st.grids.push(st.current)
    } else {
        st.grids
    }
}

/// The places `(column, row, layer)` of the tiles (`'1'`) in one grid line.
pub open spec fn line_cells(line: Seq<char>, row: int, z: int) -> Seq<(int, int, int)>
    decreases line.len(),
{
    if line.len() == 0 {
        Seq::empty()
    } else {
        let before = line_cells(line.drop_last(), row, z);
        if line.last() == '1' {
            before.push((line.len() - 1, row, z))
        } else {
            before
        }
    }
}

/// The places of the tiles of one layer, row by row.
pub open spec fn grid_cells(grid: Seq<Seq<char>>, z: int) -> Seq<(int, int, int)>
    decreases grid.len(),
{
    if grid.len() == 0 {
        Seq::empty()
    } else {
        grid_cells(grid.drop_last(), z) + line_cells(grid.last(), grid.len() - 1, z)
    }
}

/// The places of the tiles of all layers, layer by layer.
pub open spec fn all_cells(grids: Seq<Seq<Seq<char>>>) -> Seq<(int, int, int)>
    decreases grids.len(),
{
    if grids.len() == 0 {
        Seq::empty()
    } else {
        all_cells(grids.drop_last()) + grid_cells(grids.last(), grids.len() - 1)
    }
}

/// The `n`-th tile of a layout, at place `c`: tile types are dealt out in
/// turn, 36 of them.
pub open spec fn cell_tile(c: (int, int, int), n: int) -> TileData {
    TileData { x: c.0 as i32, y: c.1 as i32, z: c.2 as i32, type_id: (n % 36) as u32 }
}

/// The tiles at the given places, numbered from 0.
pub open spec fn tiles_of_cells(cells: Seq<(int, int, int)>) -> Seq<TileData> {
    Seq::new(cells.len(), |i: int| cell_tile(cells[i], i))
}

/// The tiles of a layout text.
pub open spec fn layout_tiles(content: Seq<char>) -> Seq<TileData> {
    tiles_of_cells(all_cells(layout_grids(content)))
}

// ---------------------------------------------------------------------------
// Executable helpers
// ---------------------------------------------------------------------------

fn collect_chars(content: &str) -> (r: Vec<char>)
    ensures
        r@ == content@,
{
    broadcast use vstd::string::axiom_spec_iter;

    let mut out: Vec<char> = Vec::new();
    for c in it: content.chars()
        invariant
            it.seq() == content@,
            out@ == content@.take(it.index()),
    {
        out.push(c);
        assert(out@ =~= content@.take(it.index() + 1));
    }
    assert(out@ =~= content@);
    out
}

fn white_space(c: char) -> (r: bool)
    ensures
        r == is_white_space(c),
{
    let u = c as u32;
    (0x09 <= u && u <= 0x0D) || u == 0x20 || u == 0x85 || u == 0xA0 || u == 0x1680 || (0x2000 <= u
        && u <= 0x200A) || u == 0x2028 || u == 0x2029 || u == 0x202F || u == 0x205F || u == 0x3000
}

proof fn lemma_trim_start_skips(s: Seq<char>, k: int)
    requires
        0 <= k <= s.len(),
        forall|i: int| 0 <= i < k ==> is_white_space(#[trigger] s[i]),
    ensures
        trim_start(s) == trim_start(s.skip(k)),
    decreases k,
{
    if k > 0 {
        assert(is_white_space(s[0]));
        assert(s.skip(1).skip(k - 1) =~= s.skip(k));
        assert forall|i: int| 0 <= i < k - 1 implies is_white_space(#[trigger] s.skip(1)[i]) by {
            assert(s.skip(1)[i] == s[i + 1]);
        }
        lemma_trim_start_skips(s.skip(1), k - 1);
    } else {
        assert(s.skip(0) =~= s);
    }
}

proof fn lemma_trim_end_drops(s: Seq<char>, k: int)
    requires
        0 <= k <= s.len(),
        forall|i: int| k <= i < s.len() ==> is_white_space(#[trigger] s[i]),
    ensures
        trim_end(s) == trim_end(s.take(k)),
    decreases s.len() - k,
{
    if k < s.len() {
        assert(s.drop_last().take(k) =~= s.take(k));
        assert forall|i: int| k <= i < s.drop_last().len() implies is_white_space(
            #[trigger] s.drop_last()[i],
        ) by {
            assert(s.drop_last()[i] == s[i]);
        }
        assert(is_white_space(s[s.len() - 1]));
        lemma_trim_end_drops(s.drop_last(), k);
    } else {
        assert(s.take(k) =~= s);
    }
}

/// The characters `line[from..to]` without leading and trailing white space.
fn trimmed(line: &Vec<char>, from: usize, to: usize) -> (r: Vec<char>)
    requires
        from <= to <= line@.len(),
    ensures
        r@ == trim(line@.subrange(from as int, to as int)),
{
    let ghost s = line@.subrange(from as int, to as int);
    let mut a: usize = from;
    while a < to && white_space(line[a])
        invariant
            from <= a <= to <= line@.len(),
            forall|i: int| from <= i < a ==> is_white_space(#[trigger] line@[i]),
        decreases to - a,
    {
        a = a + 1;
    }
    proof {
        assert forall|i: int| 0 <= i < a - from implies is_white_space(#[trigger] s[i]) by {
            assert(s[i] == line@[from + i]);
        }
        lemma_trim_start_skips(s, a - from);
        assert(s.skip(a - from) =~= line@.subrange(a as int, to as int));
        if a < to {
            assert(s.skip(a - from)[0] == line@[a as int]);
        }
    }
    let mut b: usize = to;
    while b > a && white_space(line[b - 1])
        invariant
            from <= a <= b <= to <= line@.len(),
            forall|i: int| b <= i < to ==> is_white_space(#[trigger] line@[i]),
        decreases b - a,
    {
        b = b - 1;
    }
    let ghost m = line@.subrange(a as int, to as int);
    proof {
        assert forall|i: int| b - a <= i < m.len() implies is_white_space(#[trigger] m[i]) by {
            assert(m[i] == line@[a + i]);
        }
        lemma_trim_end_drops(m, b - a);
        assert(m.take(b - a) =~= line@.subrange(a as int, b as int));
    }
    let mut out: Vec<char> = Vec::new();
    let mut i: usize = a;
    while i < b
        invariant
            a <= i <= b <= line@.len(),
            out@ == line@.subrange(a as int, i as int),
        decreases b - i,
    {
        out.push(line[i]);
        assert(out@ =~= line@.subrange(a as int, i + 1));
        i = i + 1;
    }
    out
}

proof fn lemma_decimal_monotone(s: Seq<char>, k: int)
    requires
        0 <= k <= s.len(),
        forall|i: int| 0 <= i < s.len() ==> is_digit(#[trigger] s[i]),
    ensures
        decimal_value(s.take(k)) <= decimal_value(s),
        0 <= decimal_value(s.take(k)),
    decreases s.len() - k,
{
    if k < s.len() {
        assert(s.drop_last().take(k) =~= s.take(k));
        assert forall|i: int| 0 <= i < s.drop_last().len() implies is_digit(
            #[trigger] s.drop_last()[i],
        ) by {
            assert(s.drop_last()[i] == s[i]);
        }
        lemma_decimal_monotone(s.drop_last(), k);
        assert(is_digit(s[s.len() - 1]));
    } else {
        assert(s.take(k) =~= s);
        lemma_decimal_nonneg(s);
    }
}

proof fn lemma_decimal_nonneg(s: Seq<char>)
    requires
        forall|i: int| 0 <= i < s.len() ==> is_digit(#[trigger] s[i]),
    ensures
        0 <= decimal_value(s),
    decreases s.len(),
{
    if s.len() > 0 {
        assert forall|i: int| 0 <= i < s.drop_last().len() implies is_digit(
            #[trigger] s.drop_last()[i],
        ) by {
            assert(s.drop_last()[i] == s[i]);
        }
        lemma_decimal_nonneg(s.drop_last());
        assert(is_digit(s[s.len() - 1]));
    }
}

/// The number that `text[from..]` denotes, or `default` where it denotes
/// none.
fn read_number_or(text: &Vec<char>, from: usize, default: usize) -> (r: usize)
    requires
        from <= text@.len(),
    ensures
        r == number_or(text@.skip(from as int), default),
{
    let ghost s = text@.skip(from as int);
    let mut start = from;
    if text.len() - from > 1 && text[from] == '+' {
        start = from + 1;
    }
    let ghost d = unsigned_digits(s);
    assert(d =~= text@.skip(start as int));
    if start == text.len() {
        return default;
    }
    let mut value: usize = 0;
    let mut i: usize = start;
    while i < text.len()
        invariant
            start <= i <= text@.len(),
            d == text@.skip(start as int),
            d == unsigned_digits(text@.skip(from as int)),
            forall|j: int| 0 <= j < i - start ==> is_digit(#[trigger] d[j]),
            value == decimal_value(d.take(i - start)),
        decreases text@.len() - i,
    {
        let c = text[i];
        if !(0x30 <= c as u32 && c as u32 <= 0x39) {
            assert(!is_digit(d[i - start]));
            return default;
        }
        let digit: usize = (c as u32 - 0x30) as usize;
        assert(d.take(i + 1 - start).drop_last() =~= d.take(i - start));
        assert(d[i - start] == c);
        match value.checked_mul(10) {
            Some(v10) => match v10.checked_add(digit) {
                Some(v) => {
                    value = v;
                },
                None => {
                    proof {
                        assert forall|j: int| 0 <= j < i + 1 - start implies is_digit(
                            #[trigger] d[j],
                        ) by {
                            if j == i - start {
                            }
                        }
                        lemma_too_big_prefix(text, start, i, d);
                    }
                    return default;
                },
            },
            None => {
                proof {
                    assert forall|j: int| 0 <= j < i + 1 - start implies is_digit(
                        #[trigger] d[j],
                    ) by {
                        if j == i - start {
                        }
                    }
                    lemma_too_big_prefix(text, start, i, d);
                }
                return default;
            },
        }
        i = i + 1;
    }
    assert(d.take(d.len() as int) =~= d);
    value
}

/// Once a prefix of the digits is too big, the whole text denotes no
/// `usize`.
proof fn lemma_too_big_prefix(text: &Vec<char>, start: usize, i: usize, d: Seq<char>)
    requires
        start <= i < text@.len(),
        d == text@.skip(start as int),
        forall|j: int| 0 <= j < i + 1 - start ==> is_digit(#[trigger] d[j]),
        decimal_value(d.take(i + 1 - start)) > usize::MAX,
    ensures
        denotes_no_usize(d),
{
    if forall|j: int| 0 <= j < d.len() ==> is_digit(#[trigger] d[j]) {
        lemma_decimal_monotone(d, i + 1 - start);
    }
}

/// Digits that are not all digits, or whose value does not fit, denote no
/// `usize`.
pub open spec fn denotes_no_usize(d: Seq<char>) -> bool {
    !((forall|i: int| 0 <= i < d.len() ==> is_digit(#[trigger] d[i])) && decimal_value(d)
        <= usize::MAX)
}

// ---------------------------------------------------------------------------
// Reading a layout
// ---------------------------------------------------------------------------

/// A layout file read into a level: its tiles, how many layers it has, and
/// the width and height it declares.
pub struct ParsedLayout {
    pub level: LevelData,
    pub layers: usize,
    pub width: usize,
    pub height: usize,
}

/// The lines of a layer, as text.
pub open spec fn grid_text(grid: Seq<Vec<char>>) -> Seq<Seq<char>> {
    grid.map_values(|l: Vec<char>| l@)
}

proof fn lemma_tiles_of_cells_push(cells: Seq<(int, int, int)>, c: (int, int, int))
    ensures
        tiles_of_cells(cells.push(c)) == tiles_of_cells(cells).push(cell_tile(c, cells.len() as int)),
{
    assert(tiles_of_cells(cells.push(c)) =~= tiles_of_cells(cells).push(
        cell_tile(c, cells.len() as int),
    ));
}

/// Appends the tiles of one layer, as the `z`-th layer, to `tiles`.
fn add_layer_tiles(
    tiles: &mut Vec<TileData>,
    grid: &Vec<Vec<char>>,
    z: usize,
    Ghost(before): Ghost<Seq<(int, int, int)>>,
)
    requires
        old(tiles)@ == tiles_of_cells(before),
    ensures
        final(tiles)@ == tiles_of_cells(before + grid_cells(grid_text(grid@), z as int)),
{
    let ghost g = grid_text(grid@);
    assert(g.take(0) =~= Seq::<Seq<char>>::empty());
    assert(before + grid_cells(g.take(0), z as int) =~= before);
    for r in 0..grid.len()
        invariant
            g == grid_text(grid@),
            tiles@ == tiles_of_cells(before + grid_cells(g.take(r as int), z as int)),
    {
        let line = &grid[r];
        let ghost done = before + grid_cells(g.take(r as int), z as int);
        assert(line@ == g[r as int]);
        assert(line@.take(0) =~= Seq::<char>::empty());
        assert(done + line_cells(line@.take(0), r as int, z as int) =~= done);
        for c in 0..line.len()
            invariant
                tiles@ == tiles_of_cells(done + line_cells(line@.take(c as int), r as int, z as int)),
        {
            let ghost cells = done + line_cells(line@.take(c as int), r as int, z as int);
            assert(line@.take(c + 1).drop_last() =~= line@.take(c as int));
            if line[c] == '1' {
                let n = tiles.len();
                proof {
                    lemma_tiles_of_cells_push(cells, (c as int, r as int, z as int));
                }
                tiles.push(
                    TileData {
                        x: c as i32,
                        y: r as i32,
                        z: z as i32,
                        type_id: (n % 36) as u32,
                    },
                );
                assert(cells.push((c as int, r as int, z as int)) =~= done + line_cells(
                    line@.take(c + 1),
                    r as int,
                    z as int,
                ));
            } else {
                assert(cells =~= done + line_cells(line@.take(c + 1), r as int, z as int));
            }
        }
        assert(line@.take(line@.len() as int) =~= line@);
        assert(g.take(r + 1).drop_last() =~= g.take(r as int));
        assert(g.take(r + 1).last() == g[r as int]);
        assert(done + line_cells(line@, r as int, z as int) =~= before + grid_cells(
            g.take(r + 1),
            z as int,
        ));
    }
    assert(g.take(grid@.len() as int) =~= g);
}

/// The reader's state; `grids` holds the finished layers, whose tiles are in
/// `tiles` and whose number is `layers`.
struct Scanner {
    width: usize,
    height: usize,
    current: Vec<Vec<char>>,
    in_grid: bool,
    layers: usize,
    tiles: Vec<TileData>,
    grids: Ghost<Seq<Seq<Seq<char>>>>,
}

impl Scanner {
    spec fn scan(&self) -> LayoutScan {
        LayoutScan {
            width: self.width,
            height: self.height,
            grids: self.grids@,
            current: grid_text(self.current@),
            in_grid: self.in_grid,
        }
    }

    spec fn inv(&self) -> bool {
        &&& self.layers == self.grids@.len()
        &&& self.tiles@ == tiles_of_cells(all_cells(self.grids@))
    }

    /// Reads the line `text[from..to]`; no more layers and open lines than
    /// characters read so far are ever held.
    fn take_line(&mut self, text: &Vec<char>, from: usize, to: usize)
        requires
            old(self).inv(),
            from <= to <= text@.len(),
            old(self).grids@.len() + old(self).current@.len() <= from,
        ensures
            final(self).inv(),
            final(self).scan() == scan_line(old(self).scan(), text@.subrange(from as int, to as int)),
            final(self).grids@.len() + final(self).current@.len() <= to,
    {
        let t = trimmed(text, from, to);
        let ghost tt = trim(text@.subrange(from as int, to as int));
        assert(t@ == tt);
        let header = t.len() >= 9 && t[0] == 'k' && t[1] == 'm' && t[2] == 'a' && t[3] == 'h'
            && t[4] == 'j' && t[5] == 'o' && t[6] == 'n' && t[7] == 'g' && t[8] == 'g';
        proof {
            if t.len() >= 9 {
                if header {
                    assert(t@.take(9) =~= header_word());
                } else {
                    assert(t@.take(9) != header_word()) by {
                        if t@.take(9) == header_word() {
                            assert(t@.take(9)[0] == t@[0]);
                            assert(t@.take(9)[1] == t@[1]);
                            assert(t@.take(9)[2] == t@[2]);
                            assert(t@.take(9)[3] == t@[3]);
                            assert(t@.take(9)[4] == t@[4]);
                            assert(t@.take(9)[5] == t@[5]);
                            assert(t@.take(9)[6] == t@[6]);
                            assert(t@.take(9)[7] == t@[7]);
                            assert(t@.take(9)[8] == t@[8]);
                        }
                    }
                }
            }
        }
        if header || t.len() == 0 || t[0] == '#' {
            return;
        }
        let first = t[0];
        if first == 'w' {
            self.width = read_number_or(&t, 1, 32);
            return;
        }
        if first == 'h' {
            self.height = read_number_or(&t, 1, 16);
            return;
        }
        if first == 'd' {
            return;
        }
        let ghost old_scan = self.scan();
        if !self.in_grid {
            self.current.clear();
            self.in_grid = true;
        }
        let ghost start = grid_text(self.current@);
        assert(start =~= if old_scan.in_grid {
            old_scan.current
        } else {
            Seq::empty()
        });
        self.current.push(t);
        assert(grid_text(self.current@) =~= start.push(tt));
        if self.current.len() == self.height {
            let ghost g = grid_text(self.current@);
            add_layer_tiles(&mut self.tiles, &self.current, self.layers, Ghost(all_cells(self.grids@)));
            proof {
                assert(self.grids@.push(g).drop_last() =~= self.grids@);
            }
            self.grids = Ghost(self.grids@.push(g));
            self.layers = self.layers + 1;
            self.current.clear();
            self.in_grid = false;
            assert(grid_text(self.current@) =~= Seq::<Seq<char>>::empty());
        }
    }
}

/// Reads a KMahjongg layout text into a level: its layers, line by line, and
/// in each line the tiles (`'1'`) from left to right, numbered in that order
/// and given the tile types in turn (see `layout_tiles`).
pub fn parse_layout(content: &str) -> (r: ParsedLayout)
    ensures
        r.level.tiles@ == layout_tiles(content@),
        r.layers == layout_grids(content@).len(),
        r.width == scan_lines(split_lines(content@)).width,
        r.height == scan_lines(split_lines(content@)).height,
{
    let chars = collect_chars(content);
    let mut sc = Scanner {
        width: 32,
        height: 16,
        current: Vec::new(),
        in_grid: false,
        layers: 0,
        tiles: Vec::new(),
        grids: Ghost(Seq::empty()),
    };
    assert(sc.tiles@ =~= tiles_of_cells(all_cells(sc.grids@)));
    assert(grid_text(sc.current@) =~= Seq::<Seq<char>>::empty());
    assert(sc.scan() =~= scan_start());
    let mut line_start: usize = 0;
    let mut i: usize = 0;
    assert(chars@.take(0) =~= Seq::<char>::empty());
    assert(chars@.subrange(0, 0) =~= Seq::<char>::empty());
    while i < chars.len()
        invariant
            sc.inv(),
            line_start <= i <= chars@.len(),
            sc.grids@.len() + sc.current@.len() <= line_start,
            split_lines(chars@.take(i as int)).len() >= 1,
            sc.scan() == scan_lines(split_lines(chars@.take(i as int)).drop_last()),
            split_lines(chars@.take(i as int)).last() == chars@.subrange(line_start as int, i as int),
        decreases chars@.len() - i,
    {
        let ghost before = split_lines(chars@.take(i as int));
        assert(chars@.take(i + 1).drop_last() =~= chars@.take(i as int));
        assert(chars@.take(i + 1).last() == chars@[i as int]);
        if chars[i] == '\n' {
            sc.take_line(&chars, line_start, i);
            assert(before.push(Seq::empty()).drop_last() =~= before);
            assert(before =~= before.drop_last().push(before.last()));
            line_start = i + 1;
            assert(chars@.subrange(line_start as int, i + 1) =~= Seq::<char>::empty());
        } else {
            let ghost after = before.update(before.len() - 1, before.last().push(chars@[i as int]));
            assert(after.drop_last() =~= before.drop_last());
            assert(after.last() =~= chars@.subrange(line_start as int, i + 1));
        }
        i = i + 1;
    }
    assert(chars@.take(chars@.len() as int) =~= chars@);
    let ghost lines = split_lines(chars@);
    sc.take_line(&chars, line_start, chars.len());
    assert(lines =~= lines.drop_last().push(lines.last()));
    if sc.current.len() > 0 {
        let ghost g = grid_text(sc.current@);
        add_layer_tiles(&mut sc.tiles, &sc.current, sc.layers, Ghost(all_cells(sc.grids@)));
        proof {
            assert(sc.grids@.push(g).drop_last() =~= sc.grids@);
        }
        sc.grids = Ghost(sc.grids@.push(g));
        sc.layers = sc.layers + 1;
    }
    ParsedLayout {
        level: LevelData { tiles: sc.tiles },
        layers: sc.layers,
        width: sc.width,
        height: sc.height,
    }
}

/// Every tile of a layout gets one of the theme's tile types: type ids run
/// from 0 to 35, the ids of the Solana theme's types.
pub proof fn law_layout_types_are_theme_types(content: Seq<char>)
    ensures
        forall|i: int|
            0 <= i < layout_tiles(content).len() ==> (#[trigger] layout_tiles(content)[i]).type_id
                < solana_table().len(),
{
    assert(solana_table().len() == 36);
    assert forall|i: int| 0 <= i < layout_tiles(content).len() implies (#[trigger] layout_tiles(
        content,
    )[i]).type_id < 36 by {
        assert(layout_tiles(content)[i].type_id == (i % 36) as u32);
    }
}

// ---------------------------------------------------------------------------
// What shapes the tiles
// ---------------------------------------------------------------------------

/// A trimmed line that shapes the tiles: a height line or a grid line, that
/// is, no ignored line and no width or depth line.
pub open spec fn shapes_tiles(t: Seq<char>) -> bool {
    !is_ignored_line(t) && t[0] != 'w' && t[0] != 'd'
}

/// A trimmed line that sets the height.
pub open spec fn is_height_line(t: Seq<char>) -> bool {
    t.len() > 0 && t[0] == 'h'
}

/// The trimmed lines that shape the tiles, in order.
pub open spec fn tile_lines(lines: Seq<Seq<char>>) -> Seq<Seq<char>>
    decreases lines.len(),
{
    if lines.len() == 0 {
        Seq::empty()
    } else {
        let before = tile_lines(lines.drop_last());
        let t = trim(lines.last());
        if shapes_tiles(t) {
            before.push(t)
        } else {
            before
        }
    }
}

/// Reading one line that shapes the tiles.
pub open spec fn tile_step(st: LayoutScan, t: Seq<char>) -> LayoutScan {
    if is_height_line(t) {
        LayoutScan { height: number_or(t.skip(1), 16), ..st }
    } else {
        let grid = if st.in_grid {
            st.current
        } else {
            Seq::empty()
        }.push(t);
        if grid.len() == st.height {
            LayoutScan { grids: st.grids.push(grid), current: Seq::empty(), in_grid: false, ..st }
        } else {
            LayoutScan { current: grid, in_grid: true, ..st }
        }
    }
}

/// Reading only the lines that shape the tiles.
pub open spec fn scan_tile_lines(ts: Seq<Seq<char>>) -> LayoutScan
    decreases ts.len(),
{
    if ts.len() == 0 {
        scan_start()
    } else {
        tile_step(scan_tile_lines(ts.drop_last()), ts.last())
    }
}

/// Two reading states that agree on everything but the width.
pub open spec fn same_shape(a: LayoutScan, b: LayoutScan) -> bool {
    &&& a.height == b.height
    &&& a.grids == b.grids
    &&& a.current == b.current
    &&& a.in_grid == b.in_grid
}

proof fn lemma_scan_shape(lines: Seq<Seq<char>>)
    ensures
        same_shape(scan_lines(lines), scan_tile_lines(tile_lines(lines))),
    decreases lines.len(),
{
    if lines.len() > 0 {
        lemma_scan_shape(lines.drop_last());
        let t = trim(lines.last());
        if shapes_tiles(t) {
            let before = tile_lines(lines.drop_last());
            assert(before.push(t).drop_last() =~= before);
        }
    }
}

/// The layers of a text follow from the lines that shape the tiles alone.
pub proof fn law_tiles_follow_tile_lines(c1: Seq<char>, c2: Seq<char>)
    requires
        tile_lines(split_lines(c1)) == tile_lines(split_lines(c2)),
    ensures
        layout_grids(c1) == layout_grids(c2),
        layout_tiles(c1) == layout_tiles(c2),
        scan_lines(split_lines(c1)).height == scan_lines(split_lines(c2)).height,
{
    lemma_scan_shape(split_lines(c1));
    lemma_scan_shape(split_lines(c2));
}

// ---------------------------------------------------------------------------
// Texts made of lines
// ---------------------------------------------------------------------------

/// The line holds no line feed.
pub open spec fn no_line_feed(l: Seq<char>) -> bool {
    forall|i: int| 0 <= i < l.len() ==> l[i] != '\n'
}

/// Every line holds no line feed.
pub open spec fn all_without_line_feed(lines: Seq<Seq<char>>) -> bool {
    forall|i: int| 0 <= i < lines.len() ==> no_line_feed(#[trigger] lines[i])
}

/// The lines joined into a text, with a line feed between two lines.
pub open spec fn join_lines(lines: Seq<Seq<char>>) -> Seq<char>
    decreases lines.len(),
{
    if lines.len() == 0 {
        Seq::empty()
    } else if lines.len() == 1 {
        lines[0]
    } else {
        join_lines(lines.drop_last()) + seq!['\n'] + lines.last()
    }
}

proof fn lemma_split_lines_nonempty(s: Seq<char>)
    ensures
        split_lines(s).len() >= 1,
    decreases s.len(),
{
    if s.len() > 0 {
        lemma_split_lines_nonempty(s.drop_last());
    }
}

proof fn lemma_split_extend(p: Seq<char>, l: Seq<char>)
    requires
        no_line_feed(l),
    ensures
        split_lines(p + l) == split_lines(p).update(
            split_lines(p).len() - 1,
            split_lines(p).last() + l,
        ),
    decreases l.len(),
{
    lemma_split_lines_nonempty(p);
    let sp = split_lines(p);
    if l.len() == 0 {
        assert(p + l =~= p);
        assert(sp.last() + l =~= sp.last());
        assert(sp.update(sp.len() - 1, sp.last() + l) =~= sp);
    } else {
        let d = l.drop_last();
        assert(no_line_feed(d)) by {
            assert forall|i: int| 0 <= i < d.len() implies d[i] != '\n' by {
                assert(d[i] == l[i]);
            }
        }
        lemma_split_extend(p, d);
        assert((p + l).drop_last() =~= p + d);
        assert((p + l).last() == l[l.len() - 1]);
        lemma_split_lines_nonempty(p + d);
        assert((sp.last() + d).push(l.last()) =~= sp.last() + l);
        assert(split_lines(p + l) =~= sp.update(sp.len() - 1, sp.last() + l));
    }
}

proof fn lemma_split_join(lines: Seq<Seq<char>>)
    requires
        lines.len() >= 1,
        all_without_line_feed(lines),
    ensures
        split_lines(join_lines(lines)) == lines,
    decreases lines.len(),
{
    if lines.len() == 1 {
        assert(no_line_feed(lines[0]));
        lemma_split_extend(Seq::empty(), lines[0]);
        assert(Seq::<char>::empty() + lines[0] =~= lines[0]);
        assert(split_lines(Seq::<char>::empty()) == seq![Seq::<char>::empty()]);
        assert(split_lines(lines[0]) =~= lines);
    } else {
        let d = lines.drop_last();
        assert(all_without_line_feed(d)) by {
            assert forall|i: int| 0 <= i < d.len() implies no_line_feed(#[trigger] d[i]) by {
                assert(d[i] == lines[i]);
            }
        }
        lemma_split_join(d);
        let j = join_lines(d);
        assert(j + seq!['\n'] =~= j.push('\n'));
        assert(j.push('\n').drop_last() =~= j);
        assert(split_lines(j.push('\n')) == d.push(Seq::empty()));
        assert(no_line_feed(lines[lines.len() - 1]));
        lemma_split_extend(j.push('\n'), lines.last());
        assert(Seq::<char>::empty() + lines.last() =~= lines.last());
        assert(split_lines(join_lines(lines)) =~= lines);
    }
}

proof fn lemma_tile_lines_insert(lines: Seq<Seq<char>>, k: int, l: Seq<char>)
    requires
        0 <= k <= lines.len(),
        !shapes_tiles(trim(l)),
    ensures
        tile_lines(lines.insert(k, l)) == tile_lines(lines),
    decreases lines.len(),
{
    if k == lines.len() {
        assert(lines.insert(k, l) =~= lines.push(l));
        assert(lines.push(l).drop_last() =~= lines);
    } else {
        let d = lines.drop_last();
        lemma_tile_lines_insert(d, k, l);
        assert(lines.insert(k, l) =~= d.insert(k, l).push(lines.last()));
        assert(d.insert(k, l).push(lines.last()).drop_last() =~= d.insert(k, l));
    }
}

proof fn lemma_tile_lines_update(lines: Seq<Seq<char>>, k: int, l: Seq<char>)
    requires
        0 <= k < lines.len(),
        trim(l) == trim(lines[k]) || (!shapes_tiles(trim(l)) && !shapes_tiles(trim(lines[k]))),
    ensures
        tile_lines(lines.update(k, l)) == tile_lines(lines),
    decreases lines.len(),
{
    let d = lines.drop_last();
    if k == lines.len() - 1 {
        assert(lines.update(k, l).drop_last() =~= d);
    } else {
        assert(d[k] == lines[k]);
        lemma_tile_lines_update(d, k, l);
        assert(lines.update(k, l).drop_last() =~= d.update(k, l));
    }
}

/// Adding, anywhere in a text, a line that shapes no tile (a width, depth,
/// comment, header or blank line) leaves the tiles and the layers as they
/// were.
pub proof fn law_extra_line_changes_no_tile(lines: Seq<Seq<char>>, k: int, l: Seq<char>)
    requires
        lines.len() >= 1,
        all_without_line_feed(lines),
        0 <= k <= lines.len(),
        no_line_feed(l),
        !shapes_tiles(trim(l)),
    ensures
        layout_tiles(join_lines(lines.insert(k, l))) == layout_tiles(join_lines(lines)),
        layout_grids(join_lines(lines.insert(k, l))) == layout_grids(join_lines(lines)),
{
    let more = lines.insert(k, l);
    lines.insert_ensures(k, l);
    assert(all_without_line_feed(more)) by {
        assert forall|i: int| 0 <= i < more.len() implies no_line_feed(#[trigger] more[i]) by {
            if i < k {
                assert(more[i] == lines[i]);
            } else if i > k {
                assert(more[i] == lines[i - 1]);
            }
        }
    }
    lemma_split_join(lines);
    lemma_split_join(more);
    lemma_tile_lines_insert(lines, k, l);
    law_tiles_follow_tile_lines(join_lines(more), join_lines(lines));
}

/// Taking out of a text a line that shapes no tile (a width, depth, comment,
/// header or blank line) leaves the tiles and the layers as they were.
pub proof fn law_dropped_line_changes_no_tile(lines: Seq<Seq<char>>, k: int)
    requires
        lines.len() >= 2,
        all_without_line_feed(lines),
        0 <= k < lines.len(),
        !shapes_tiles(trim(lines[k])),
    ensures
        layout_tiles(join_lines(lines.remove(k))) == layout_tiles(join_lines(lines)),
        layout_grids(join_lines(lines.remove(k))) == layout_grids(join_lines(lines)),
{
    let fewer = lines.remove(k);
    lines.remove_ensures(k);
    assert(all_without_line_feed(fewer)) by {
        assert forall|i: int| 0 <= i < fewer.len() implies no_line_feed(#[trigger] fewer[i]) by {
            if i < k {
                assert(fewer[i] == lines[i]);
            } else {
                assert(fewer[i] == lines[i + 1]);
            }
        }
    }
    assert(fewer.insert(k, lines[k]) =~= lines);
    law_extra_line_changes_no_tile(fewer, k, lines[k]);
}

/// Replacing a line of a text by one that trims to the same text (such as
/// the line with white space added around it), or a line that shapes no tile
/// by another such line (such as another width or depth), leaves the tiles
/// and the layers as they were.
pub proof fn law_changed_line_keeps_tiles(lines: Seq<Seq<char>>, k: int, l: Seq<char>)
    requires
        all_without_line_feed(lines),
        0 <= k < lines.len(),
        no_line_feed(l),
        trim(l) == trim(lines[k]) || (!shapes_tiles(trim(l)) && !shapes_tiles(trim(lines[k]))),
    ensures
        layout_tiles(join_lines(lines.update(k, l))) == layout_tiles(join_lines(lines)),
        layout_grids(join_lines(lines.update(k, l))) == layout_grids(join_lines(lines)),
{
    let changed = lines.update(k, l);
    assert(all_without_line_feed(changed)) by {
        assert forall|i: int| 0 <= i < changed.len() implies no_line_feed(#[trigger] changed[i]) by {
            if i != k {
                assert(changed[i] == lines[i]);
            }
        }
    }
    lemma_split_join(lines);
    lemma_split_join(changed);
    lemma_tile_lines_update(lines, k, l);
    law_tiles_follow_tile_lines(join_lines(changed), join_lines(lines));
}

proof fn lemma_trim_start_white(a: Seq<char>, y: Seq<char>)
    requires
        forall|i: int| 0 <= i < a.len() ==> is_white_space(#[trigger] a[i]),
    ensures
        trim_start(a + y) == trim_start(y),
{
    assert forall|i: int| 0 <= i < a.len() implies is_white_space(#[trigger] (a + y)[i]) by {
        assert((a + y)[i] == a[i]);
    }
    lemma_trim_start_skips(a + y, a.len() as int);
    assert((a + y).skip(a.len() as int) =~= y);
}

proof fn lemma_trim_end_white(x: Seq<char>, b: Seq<char>)
    requires
        forall|i: int| 0 <= i < b.len() ==> is_white_space(#[trigger] b[i]),
    ensures
        trim_end(x + b) == trim_end(x),
{
    assert forall|i: int| x.len() <= i < (x + b).len() implies is_white_space(#[trigger] (x + b)[i]) by {
        assert((x + b)[i] == b[i - x.len()]);
    }
    lemma_trim_end_drops(x + b, x.len() as int);
    assert((x + b).take(x.len() as int) =~= x);
}

proof fn lemma_trim_start_append(l: Seq<char>, b: Seq<char>)
    requires
        forall|i: int| 0 <= i < b.len() ==> is_white_space(#[trigger] b[i]),
    ensures
        trim_start(l + b) == trim_start(l) + b || (trim_start(l).len() == 0 && trim_start(l + b).len()
            == 0),
    decreases l.len(),
{
    if l.len() == 0 {
        assert(l + b =~= b);
        lemma_trim_start_white(b, Seq::empty());
        assert(b + Seq::<char>::empty() =~= b);
    } else if is_white_space(l[0]) {
        assert((l + b)[0] == l[0]);
        assert((l + b).skip(1) =~= l.skip(1) + b);
        lemma_trim_start_append(l.skip(1), b);
    } else {
        assert((l + b)[0] == l[0]);
    }
}

/// White space around a line does not change what it trims to.
pub proof fn law_padding_keeps_trimmed_line(a: Seq<char>, l: Seq<char>, b: Seq<char>)
    requires
        forall|i: int| 0 <= i < a.len() ==> is_white_space(#[trigger] a[i]),
        forall|i: int| 0 <= i < b.len() ==> is_white_space(#[trigger] b[i]),
    ensures
        trim(a + l + b) == trim(l),
{
    assert(a + l + b =~= a + (l + b));
    lemma_trim_start_white(a, l + b);
    lemma_trim_start_append(l, b);
    if trim_start(l + b) == trim_start(l) + b {
        lemma_trim_end_white(trim_start(l), b);
    } else {
        assert(trim_start(l + b) =~= Seq::<char>::empty());
        assert(trim_start(l) =~= Seq::<char>::empty());
    }
}

// ---------------------------------------------------------------------------
// Where each grid line goes
// ---------------------------------------------------------------------------

/// The height after the given height lines: that of the last one, 16 when
/// there is none.
pub open spec fn final_height(hs: Seq<Seq<char>>) -> usize {
    if hs.len() == 0 {
        16
    } else {
        number_or(hs.last().skip(1), 16)
    }
}

proof fn lemma_height_lines(hs: Seq<Seq<char>>)
    requires
        forall|i: int| 0 <= i < hs.len() ==> is_height_line(#[trigger] hs[i]),
    ensures
        scan_tile_lines(hs).height == final_height(hs),
        scan_tile_lines(hs).grids.len() == 0,
        scan_tile_lines(hs).current.len() == 0,
        !scan_tile_lines(hs).in_grid,
    decreases hs.len(),
{
    if hs.len() > 0 {
        let d = hs.drop_last();
        assert forall|i: int| 0 <= i < d.len() implies is_height_line(#[trigger] d[i]) by {
            assert(d[i] == hs[i]);
        }
        lemma_height_lines(d);
        assert(is_height_line(hs[hs.len() - 1]));
    }
}

/// The reading state after the height lines and `n` grid lines: full layers
/// of `h` lines in order, then the lines of the open layer.
pub open spec fn filled_in_order(st: LayoutScan, gs: Seq<Seq<char>>, n: int, h: int) -> bool {
    &&& st.height == h
    &&& st.grids.len() == n / h
    &&& st.current.len() == n % h
    &&& st.in_grid == (n % h > 0)
    &&& forall|i: int| 0 <= i < st.grids.len() ==> (#[trigger] st.grids[i]).len() == h
    &&& forall|i: int, j: int|
        0 <= i < st.grids.len() && 0 <= j < h ==> #[trigger] st.grids[i][j] == gs[i * h + j]
    &&& forall|j: int| 0 <= j < st.current.len() ==> #[trigger] st.current[j] == gs[(n / h) * h + j]
}

proof fn lemma_grid_lines(hs: Seq<Seq<char>>, gs: Seq<Seq<char>>, n: int)
    requires
        forall|i: int| 0 <= i < hs.len() ==> is_height_line(#[trigger] hs[i]),
        forall|i: int| 0 <= i < gs.len() ==> !is_height_line(#[trigger] gs[i]),
        final_height(hs) >= 1,
        0 <= n <= gs.len(),
    ensures
        filled_in_order(scan_tile_lines(hs + gs.take(n)), gs, n, final_height(hs) as int),
    decreases n,
{
    let h = final_height(hs) as int;
    if n == 0 {
        assert(hs + gs.take(0) =~= hs);
        lemma_height_lines(hs);
    } else {
        lemma_grid_lines(hs, gs, n - 1);
        let m = n - 1;
        let st = scan_tile_lines(hs + gs.take(m));
        assert((hs + gs.take(n)).drop_last() =~= hs + gs.take(m));
        assert((hs + gs.take(n)).last() == gs[m]);
        assert(!is_height_line(gs[m]));
        let next = scan_tile_lines(hs + gs.take(n));
        assert(next == tile_step(st, gs[m]));
        let q = m / h;
        let r = m % h;
        lemma_fundamental_div_mod(m, h);
        assert(m == q * h + r) by (nonlinear_arith)
            requires
                m == h * (m / h) + (m % h),
                q == m / h,
                r == m % h,
        ;
        assert(0 <= r < h);
        let grid = st.current.push(gs[m]);
        assert(grid == if st.in_grid {
            st.current
        } else {
            Seq::<Seq<char>>::empty()
        }.push(gs[m])) by {
            if !st.in_grid {
                assert(st.current =~= Seq::<Seq<char>>::empty());
            }
        }
        if r + 1 == h {
            assert(n == (q + 1) * h + 0) by (nonlinear_arith)
                requires
                    m == q * h + r,
                    r + 1 == h,
                    n == m + 1,
            ;
            lemma_fundamental_div_mod_converse(n, h, q + 1, 0);
            assert(next.grids == st.grids.push(grid));
            assert forall|i: int, j: int| 0 <= i < next.grids.len() && 0 <= j < h implies #[trigger] next.grids[i][j]
                == gs[i * h + j] by {
                if i == q {
                    assert(next.grids[i] == grid);
                    if j < r {
                        assert(grid[j] == st.current[j]);
                    } else {
                        assert(j == r);
                    }
                } else {
                    assert(next.grids[i] == st.grids[i]);
                }
            }
            assert forall|i: int| 0 <= i < next.grids.len() implies (#[trigger] next.grids[i]).len() == h by {
                if i < q {
                    assert(next.grids[i] == st.grids[i]);
                }
            }
        } else {
            assert(n == q * h + (r + 1)) by (nonlinear_arith)
                requires
                    m == q * h + r,
                    n == m + 1,
            ;
            lemma_fundamental_div_mod_converse(n, h, q, r + 1);
            assert(next.current == grid);
            assert forall|j: int| 0 <= j < next.current.len() implies #[trigger] next.current[j] == gs[(n / h)
                * h + j] by {
                if j < r {
                    assert(grid[j] == st.current[j]);
                } else {
                    assert(j == r);
                    assert(grid[j] == gs[m]);
                }
            }
        }
    }
}

/// With the height lines first, setting a height `h` of at least 1, and then
/// the grid lines `gs`, grid line `k` goes to layer `k / h` as its row
/// `k % h`: every layer has `h` rows but the last, which may have fewer, and
/// there are `n / h` layers, rounded up, for `n` grid lines.
pub proof fn law_grid_lines_fill_layers_in_order(
    content: Seq<char>,
    hs: Seq<Seq<char>>,
    gs: Seq<Seq<char>>,
)
    requires
        tile_lines(split_lines(content)) == hs + gs,
        forall|i: int| 0 <= i < hs.len() ==> is_height_line(#[trigger] hs[i]),
        forall|i: int| 0 <= i < gs.len() ==> !is_height_line(#[trigger] gs[i]),
        final_height(hs) >= 1,
    ensures
        ({
            let h = final_height(hs) as int;
            let n = gs.len() as int;
            let g = layout_grids(content);
            &&& g.len() == (n + h - 1) / h
            &&& forall|i: int|
                0 <= i < g.len() ==> (#[trigger] g[i]).len() == if i < n / h {
                    h
                } else {
                    n % h
                }
            &&& forall|k: int| 0 <= k < n ==> g[k / h][k % h] == #[trigger] gs[k]
        }),
{
    let h = final_height(hs) as int;
    let n = gs.len() as int;
    lemma_grid_lines(hs, gs, n);
    assert(gs.take(n) =~= gs);
    lemma_scan_shape(split_lines(content));
    let st = scan_tile_lines(hs + gs);
    let g = layout_grids(content);
    let q = n / h;
    let r = n % h;
    lemma_fundamental_div_mod(n, h);
    assert(n == q * h + r) by (nonlinear_arith)
        requires
            n == h * (n / h) + (n % h),
            q == n / h,
            r == n % h,
    ;
    if r > 0 {
        assert(n + h - 1 == (q + 1) * h + (r - 1)) by (nonlinear_arith)
            requires
                n == q * h + r,
        ;
        lemma_fundamental_div_mod_converse(n + h - 1, h, q + 1, r - 1);
        assert(g == st.grids.push(st.current));
    } else {
        assert(n + h - 1 == q * h + (h - 1)) by (nonlinear_arith)
            requires
                n == q * h + r,
                r == 0,
        ;
        lemma_fundamental_div_mod_converse(n + h - 1, h, q, h - 1);
        assert(g == st.grids);
    }
    assert forall|i: int| 0 <= i < g.len() implies (#[trigger] g[i]).len() == if i < n / h {
        h
    } else {
        n % h
    } by {
        if i < q {
            assert(g[i] == st.grids[i]);
        }
    }
    assert forall|k: int| 0 <= k < n implies g[k / h][k % h] == #[trigger] gs[k] by {
        let kq = k / h;
        let kr = k % h;
        lemma_fundamental_div_mod(k, h);
        assert(k == kq * h + kr) by (nonlinear_arith)
            requires
                k == h * (k / h) + (k % h),
                kq == k / h,
                kr == k % h,
        ;
        lemma_div_is_ordered(k, n, h);
        assert(0 <= kr < h);
        if kq < q {
            assert(g[kq] == st.grids[kq]);
            assert(st.grids[kq][kr] == gs[kq * h + kr]);
        } else {
            assert(kq == q);
            assert(kr < r);
            assert(g[kq] == st.current);
            assert(st.current[kr] == gs[q * h + kr]);
        }
    }
}

// ---------------------------------------------------------------------------
// Which characters are tiles
// ---------------------------------------------------------------------------

proof fn lemma_line_cells(line: Seq<char>, row: int, z: int)
    ensures
        forall|k: int|
            0 <= k < line_cells(line, row, z).len() ==> {
                let c = #[trigger] line_cells(line, row, z)[k];
                &&& 0 <= c.0 < line.len()
                &&& line[c.0] == '1'
                &&& c.1 == row
                &&& c.2 == z
            },
        forall|x: int|
            0 <= x < line.len() && #[trigger] line[x] == '1' ==> exists|k: int|
                0 <= k < line_cells(line, row, z).len() && #[trigger] line_cells(line, row, z)[k] == (
                x,
                row,
                z,
            ),
    decreases line.len(),
{
    if line.len() > 0 {
        let d = line.drop_last();
        lemma_line_cells(d, row, z);
        let before = line_cells(d, row, z);
        let lc = line_cells(line, row, z);
        assert forall|k: int| 0 <= k < lc.len() implies {
            let c = #[trigger] lc[k];
            &&& 0 <= c.0 < line.len()
            &&& line[c.0] == '1'
            &&& c.1 == row
            &&& c.2 == z
        } by {
            if k < before.len() {
                assert(lc[k] == before[k]);
                assert(d[before[k].0] == line[before[k].0]);
            }
        }
        assert forall|x: int| 0 <= x < line.len() && #[trigger] line[x] == '1' implies exists|k: int|
            0 <= k < lc.len() && #[trigger] lc[k] == (x, row, z) by {
            if x < d.len() {
                assert(d[x] == line[x]);
                let k = choose|k: int| 0 <= k < before.len() && #[trigger] before[k] == (x, row, z);
                assert(lc[k] == before[k]);
            } else {
                assert(lc[before.len() as int] == (x, row, z));
            }
        }
    }
}

proof fn lemma_grid_cells(grid: Seq<Seq<char>>, z: int)
    ensures
        forall|k: int|
            0 <= k < grid_cells(grid, z).len() ==> {
                let c = #[trigger] grid_cells(grid, z)[k];
                &&& 0 <= c.1 < grid.len()
                &&& 0 <= c.0 < grid[c.1].len()
                &&& grid[c.1][c.0] == '1'
                &&& c.2 == z
            },
        forall|y: int, x: int|
            0 <= y < grid.len() && 0 <= x < grid[y].len() && #[trigger] grid[y][x] == '1' ==> exists|k: int|
                0 <= k < grid_cells(grid, z).len() && #[trigger] grid_cells(grid, z)[k] == (x, y, z),
    decreases grid.len(),
{
    if grid.len() > 0 {
        let d = grid.drop_last();
        let r = grid.len() - 1;
        lemma_grid_cells(d, z);
        lemma_line_cells(grid.last(), r, z);
        let before = grid_cells(d, z);
        let lc = line_cells(grid.last(), r, z);
        let gc = grid_cells(grid, z);
        assert(gc == before + lc);
        assert(grid.last() == grid[r]);
        assert forall|k: int| 0 <= k < gc.len() implies {
            let c = #[trigger] gc[k];
            &&& 0 <= c.1 < grid.len()
            &&& 0 <= c.0 < grid[c.1].len()
            &&& grid[c.1][c.0] == '1'
            &&& c.2 == z
        } by {
            if k < before.len() {
                assert(gc[k] == before[k]);
                assert(d[before[k].1] == grid[before[k].1]);
            } else {
                assert(gc[k] == lc[k - before.len()]);
            }
        }
        assert forall|y: int, x: int|
            0 <= y < grid.len() && 0 <= x < grid[y].len() && #[trigger] grid[y][x] == '1' implies exists|k: int|
            0 <= k < gc.len() && #[trigger] gc[k] == (x, y, z) by {
            if y < d.len() {
                assert(d[y] == grid[y]);
                assert(d[y][x] == '1');
                let k = choose|k: int| 0 <= k < before.len() && #[trigger] before[k] == (x, y, z);
                assert(gc[k] == before[k]);
            } else {
                assert(grid.last()[x] == '1');
                let k = choose|k: int| 0 <= k < lc.len() && #[trigger] lc[k] == (x, r, z);
                assert(gc[before.len() + k] == lc[k]);
            }
        }
    }
}

proof fn lemma_all_cells(grids: Seq<Seq<Seq<char>>>)
    ensures
        forall|k: int|
            0 <= k < all_cells(grids).len() ==> {
                let c = #[trigger] all_cells(grids)[k];
                &&& 0 <= c.2 < grids.len()
                &&& 0 <= c.1 < grids[c.2].len()
                &&& 0 <= c.0 < grids[c.2][c.1].len()
                &&& grids[c.2][c.1][c.0] == '1'
            },
        forall|z: int, y: int, x: int|
            0 <= z < grids.len() && 0 <= y < grids[z].len() && 0 <= x < grids[z][y].len()
                && #[trigger] grids[z][y][x] == '1' ==> exists|k: int|
                0 <= k < all_cells(grids).len() && #[trigger] all_cells(grids)[k] == (x, y, z),
    decreases grids.len(),
{
    if grids.len() > 0 {
        let d = grids.drop_last();
        let l = grids.len() - 1;
        lemma_all_cells(d);
        lemma_grid_cells(grids.last(), l);
        let before = all_cells(d);
        let gc = grid_cells(grids.last(), l);
        let ac = all_cells(grids);
        assert(ac == before + gc);
        assert(grids.last() == grids[l]);
        assert forall|k: int| 0 <= k < ac.len() implies {
            let c = #[trigger] ac[k];
            &&& 0 <= c.2 < grids.len()
            &&& 0 <= c.1 < grids[c.2].len()
            &&& 0 <= c.0 < grids[c.2][c.1].len()
            &&& grids[c.2][c.1][c.0] == '1'
        } by {
            if k < before.len() {
                assert(ac[k] == before[k]);
                assert(d[before[k].2] == grids[before[k].2]);
            } else {
                assert(ac[k] == gc[k - before.len()]);
            }
        }
        assert forall|z: int, y: int, x: int|
            0 <= z < grids.len() && 0 <= y < grids[z].len() && 0 <= x < grids[z][y].len()
                && #[trigger] grids[z][y][x] == '1' implies exists|k: int|
            0 <= k < ac.len() && #[trigger] ac[k] == (x, y, z) by {
            if z < d.len() {
                assert(d[z] == grids[z]);
                assert(d[z][y][x] == '1');
                let k = choose|k: int| 0 <= k < before.len() && #[trigger] before[k] == (x, y, z);
                assert(ac[k] == before[k]);
            } else {
                assert(grids.last()[y][x] == '1');
                let k = choose|k: int| 0 <= k < gc.len() && #[trigger] gc[k] == (x, y, l);
                assert(ac[before.len() + k] == gc[k]);
            }
        }
    }
}

/// Tile `t`, the `k`-th of a layout, stands on a `'1'` of the layers `g`:
/// at column `x`, grid line `y` of layer `z`, with tile type `k % 36`.
pub open spec fn stands_on_a_one(g: Seq<Seq<Seq<char>>>, t: TileData, k: int) -> bool {
    exists|z: int, y: int, x: int|
        #![trigger g[z][y][x]]
        0 <= z < g.len() && 0 <= y < g[z].len() && 0 <= x < g[z][y].len() && g[z][y][x] == '1'
            && t == (TileData {
            x: x as i32,
            y: y as i32,
            z: z as i32,
            type_id: (k % 36) as u32,
        })
}

/// The tiles of a layout are exactly its `'1'` characters: tile `k` stands
/// on a `'1'` of its layer (`z`), grid line (`y`) and column (`x`), with
/// tile type `k % 36`, and every `'1'` of every layer is some tile. No
/// other character makes a tile.
pub proof fn law_tiles_are_the_ones(content: Seq<char>)
    ensures
        forall|k: int|
            0 <= k < layout_tiles(content).len() ==> stands_on_a_one(
                layout_grids(content),
                #[trigger] layout_tiles(content)[k],
                k,
            ),
        forall|z: int, y: int, x: int|
            0 <= z < layout_grids(content).len() && 0 <= y < layout_grids(content)[z].len() && 0 <= x
                < layout_grids(content)[z][y].len() && #[trigger] layout_grids(content)[z][y][x] == '1'
                ==> exists|k: int|
                0 <= k < layout_tiles(content).len() && #[trigger] layout_tiles(content)[k] == (TileData {
                    x: x as i32,
                    y: y as i32,
                    z: z as i32,
                    type_id: (k % 36) as u32,
                }),
{
    let g = layout_grids(content);
    let ts = layout_tiles(content);
    let cells = all_cells(g);
    lemma_all_cells(g);
    assert forall|k: int| 0 <= k < ts.len() implies stands_on_a_one(g, #[trigger] ts[k], k) by {
        let c = cells[k];
        assert(ts[k] == cell_tile(c, k));
        assert(g[c.2][c.1][c.0] == '1');
    }
    assert forall|z: int, y: int, x: int|
        0 <= z < g.len() && 0 <= y < g[z].len() && 0 <= x < g[z][y].len() && #[trigger] g[z][y][x]
            == '1' implies exists|k: int|
        0 <= k < ts.len() && #[trigger] ts[k] == (TileData {
            x: x as i32,
            y: y as i32,
            z: z as i32,
            type_id: (k % 36) as u32,
        }) by {
        let k = choose|k: int| 0 <= k < cells.len() && #[trigger] cells[k] == (x, y, z);
        assert(ts[k] == cell_tile(cells[k], k));
    }
}

} // verus!
