//! The tile grid of the shrine platformer.
//!
//! A level is drawn as rows of symbols: `.` is open air, `#` and `=` are solid
//! ground, `P` marks where the player starts (open air) and `S` marks the
//! shrine.  The grid is kept row after row in one vector, and looking up a
//! cell outside the grid reports solid ground, so the edges act as walls.
use vstd::prelude::*;
use crate::keys::{lowercase, lowercase_of, KeySet};
use crate::text::{chars_of, seq_eq, string_of};
use vstd::string::StringSliceAdditionalSpecFns;

verus! {

#[derive(Clone, Copy, Debug, PartialEq, Eq, Structural)]
pub enum Tile {
    Empty,
    Solid,
    Shrine,
}

impl Tile {
    pub fn is_solid(self) -> (r: bool)
        ensures
            r == (self == Tile::Solid),
    {
        match self {
            Tile::Solid => true,
            _ => false,
        }
    }
}

pub open spec fn is_tile_symbol(c: char) -> bool {
    c == '.' || c == '#' || c == '=' || c == 'P' || c == 'S'
}

pub open spec fn symbol_tile(c: char) -> Tile {
    if c == '#' || c == '=' {
        Tile::Solid
    } else if c == 'S' {
        Tile::Shrine
    } else {
        Tile::Empty
    }
}

/// The rows of a map as character sequences.
pub open spec fn map_rows(raw: Seq<&str>) -> Seq<Seq<char>> {
    raw.map_values(|s: &str| s@)
}

pub open spec fn in_grid(rows: Seq<Seq<char>>, col: int, row: int) -> bool {
    0 <= row < rows.len() && 0 <= col < rows[row].len()
}

pub open spec fn has_symbol(rows: Seq<Seq<char>>, sym: char) -> bool {
    exists|col: int, row: int| in_grid(rows, col, row) && #[trigger] rows[row][col] == sym
}

/// A map that a level can be built from: at least one row, the first one not
/// empty, every row as long as the first, only the five symbols, and at least
/// one `P` and one `S`.
pub open spec fn map_ok(rows: Seq<Seq<char>>) -> bool {
    &&& rows.len() > 0
    &&& rows[0].len() > 0
    &&& forall|row: int| 0 <= row < rows.len() ==> #[trigger] rows[row].len() == rows[0].len()
    &&& forall|col: int, row: int|
        in_grid(rows, col, row) ==> is_tile_symbol(#[trigger] rows[row][col])
    &&& has_symbol(rows, 'P')
    &&& has_symbol(rows, 'S')
}

/// `(col, row)` comes before `(col2, row2)` when the grid is read row by row.
pub open spec fn reads_before(col: int, row: int, col2: int, row2: int) -> bool {
    row < row2 || (row == row2 && col < col2)
}

/// `(col, row)` holds the last `sym` of the grid, reading row by row.
pub open spec fn is_last_symbol(rows: Seq<Seq<char>>, sym: char, col: int, row: int) -> bool {
    &&& in_grid(rows, col, row)
    &&& rows[row][col] == sym
    &&& forall|c: int, r: int|
        in_grid(rows, c, r) && #[trigger] rows[r][c] == sym ==> c == col && r == row
            || reads_before(c, r, col, row)
}

/// The cell `(col, row)` of a grid kept row after row, `width` cells a row.
pub open spec fn grid_cell(tiles: Seq<Tile>, width: int, col: int, row: int) -> Tile {
    tiles[row * width + col]
}

proof fn lemma_cell_below(col: int, row: int, rows: int, width: int)
    by (nonlinear_arith)
    requires
        0 <= col < width,
        0 <= row < rows,
    ensures
        0 <= row * width,
        row * width + col < rows * width,
        row * width + width <= rows * width,
{
}

proof fn lemma_next_row(row: int, width: int)
    by (nonlinear_arith)
    ensures
        (row + 1) * width == row * width + width,
{
}

proof fn lemma_width_le_area(width: int, rows: int)
    by (nonlinear_arith)
    requires
        0 <= width,
        1 <= rows,
    ensures
        width <= rows * width,
        rows <= rows * width || width == 0,
{
}

/// What has been found of `sym` among the cells read before `(col, row)`: the
/// last one, or nothing.
spec fn found_before(rows: Seq<Seq<char>>, sym: char, found: Option<(usize, usize)>, col: int, row: int) -> bool {
    match found {
        None => forall|c: int, r: int|
            in_grid(rows, c, r) && reads_before(c, r, col, row) ==> #[trigger] rows[r][c] != sym,
        Some(p) => {
            &&& reads_before(p.0 as int, p.1 as int, col, row)
            &&& in_grid(rows, p.0 as int, p.1 as int)
            &&& rows[p.1 as int][p.0 as int] == sym
            &&& forall|c: int, r: int|
                in_grid(rows, c, r) && reads_before(c, r, col, row) && #[trigger] rows[r][c] == sym
                    ==> (c == p.0 && r == p.1) || reads_before(c, r, p.0 as int, p.1 as int)
        },
    }
}


/// Why rows of symbols make no level, in the order they are looked for.
#[derive(Clone, Copy, Debug, PartialEq, Eq, Structural)]
pub enum MapProblem {
    /// There is no row.
    NoRows,
    /// The first row is empty.
    EmptyRow,
    /// The grid would have more cells than a vector can hold.
    TooLarge,
    /// A row is not as long (in bytes) as the first.
    RaggedRow,
    /// A character that is none of the five symbols.
    UnsupportedSymbol(char),
    /// No `P` marks where the player starts.
    NoSpawn,
    /// No `S` marks the shrine.
    NoShrine,
}

pub open spec fn byte_len(s: &str) -> nat {
    s.spec_bytes().len()
}

/// The first character of `s` that is none of the five symbols.
pub open spec fn first_bad_symbol(s: Seq<char>) -> Option<char>
    decreases s.len(),
{
    if s.len() == 0 {
        None
    } else if !is_tile_symbol(s[0]) {
        Some(s[0])
    } else {
        first_bad_symbol(s.drop_first())
    }
}

/// The first problem among the rows from `r` on, each checked for its length
/// and then for its symbols.
pub open spec fn rows_problem(raw: Seq<&str>, width: nat, r: int) -> Option<MapProblem>
    decreases raw.len() - r,
{
    if r < 0 || r >= raw.len() {
        None
    } else if byte_len(raw[r]) != width {
        Some(MapProblem::RaggedRow)
    } else {
        match first_bad_symbol(raw[r]@) {
            Some(c) => Some(MapProblem::UnsupportedSymbol(c)),
            None => rows_problem(raw, width, r + 1),
        }
    }
}

/// The first problem with rows of symbols, if any.
pub open spec fn map_problem(raw: Seq<&str>) -> Option<MapProblem> {
    if raw.len() == 0 {
        Some(MapProblem::NoRows)
    } else if byte_len(raw[0]) == 0 {
        Some(MapProblem::EmptyRow)
    } else if raw.len() * byte_len(raw[0]) > isize::MAX {
        Some(MapProblem::TooLarge)
    } else {
        match rows_problem(raw, byte_len(raw[0]), 0) {
            Some(p) => Some(p),
            None => if !has_symbol(map_rows(raw), 'P') {
                Some(MapProblem::NoSpawn)
            } else if !has_symbol(map_rows(raw), 'S') {
                Some(MapProblem::NoShrine)
            } else {
                None
            },
        }
    }
}

proof fn lemma_first_bad_symbol(s: Seq<char>)
    ensures
        first_bad_symbol(s) is None <==> forall|i: int| 0 <= i < s.len() ==> is_tile_symbol(
            #[trigger] s[i],
        ),
    decreases s.len(),
{
    if s.len() > 0 {
        lemma_first_bad_symbol(s.drop_first());
        if first_bad_symbol(s) is None {
            assert forall|i: int| 0 <= i < s.len() implies is_tile_symbol(#[trigger] s[i]) by {
                if i > 0 {
                    assert(s[i] == s.drop_first()[i - 1]);
                }
            }
        }
        if forall|i: int| 0 <= i < s.len() ==> is_tile_symbol(#[trigger] s[i]) {
            assert forall|i: int| 0 <= i < s.drop_first().len() implies is_tile_symbol(
                #[trigger] s.drop_first()[i],
            ) by {
                assert(s.drop_first()[i] == s[i + 1]);
            }
        }
    }
}

proof fn lemma_symbols_one_byte(s: &str)
    requires
        forall|i: int| 0 <= i < s@.len() ==> is_tile_symbol(#[trigger] s@[i]),
    ensures
        byte_len(s) == s@.len(),
{
    broadcast use vstd::string::is_ascii_spec_bytes;

    assert(vstd::utf8::is_ascii_chars(s@)) by {
        assert forall|i: int| 0 <= i < s@.len() implies '\0' <= #[trigger] s@[i] <= '\u{7f}' by {
            assert(is_tile_symbol(s@[i]));
        }
    }
    assert(vstd::string::is_ascii(s));
}

proof fn lemma_rows_problem(raw: Seq<&str>, width: nat, r: int)
    requires
        0 <= r <= raw.len(),
    ensures
        rows_problem(raw, width, r) is None <==> forall|q: int|
            r <= q < raw.len() ==> byte_len(#[trigger] raw[q]) == width && first_bad_symbol(
                raw[q]@,
            ) is None,
    decreases raw.len() - r,
{
    if r < raw.len() {
        lemma_rows_problem(raw, width, r + 1);
    }
}

/// Rows of symbols make a level exactly when `map_ok` holds of them and the
/// grid fits in a vector.
pub proof fn lemma_no_problem_iff_map_ok(raw: Seq<&str>)
    ensures
        map_problem(raw) is None <==> (map_ok(map_rows(raw)) && raw.len() * raw[0]@.len()
            <= isize::MAX),
{
    let rows = map_rows(raw);
    if raw.len() > 0 {
        lemma_rows_problem(raw, byte_len(raw[0]), 0);
        assert forall|q: int| 0 <= q < raw.len() implies #[trigger] rows[q] == raw[q]@ by {}
        assert forall|q: int| 0 <= q < raw.len() implies (first_bad_symbol(raw[q]@) is None
            ==> byte_len(#[trigger] raw[q]) == raw[q]@.len()) by {
            lemma_first_bad_symbol(raw[q]@);
            if first_bad_symbol(raw[q]@) is None {
                lemma_symbols_one_byte(raw[q]);
            }
        }
        if map_problem(raw) is None {
            assert(first_bad_symbol(raw[0]@) is None);
            assert forall|q: int| 0 <= q < rows.len() implies #[trigger] rows[q].len()
                == rows[0].len() by {
                assert(first_bad_symbol(raw[q]@) is None);
            }
            assert forall|col: int, row: int| in_grid(rows, col, row) implies is_tile_symbol(
                #[trigger] rows[row][col],
            ) by {
                lemma_first_bad_symbol(raw[row]@);
            }
        }
        if map_ok(rows) && raw.len() * raw[0]@.len() <= isize::MAX {
            assert forall|q: int| 0 <= q < raw.len() implies first_bad_symbol(raw[q]@) is None by {
                lemma_first_bad_symbol(raw[q]@);
                assert forall|i: int| 0 <= i < raw[q]@.len() implies is_tile_symbol(
                    #[trigger] raw[q]@[i],
                ) by {
                    assert(in_grid(rows, i, q));
                    assert(rows[q][i] == raw[q]@[i]);
                }
            }
            assert forall|q: int| 0 <= q < raw.len() implies byte_len(#[trigger] raw[q]) == byte_len(
                raw[0],
            ) && first_bad_symbol(raw[q]@) is None by {
                assert(first_bad_symbol(raw[q]@) is None);
                assert(rows[q].len() == rows[0].len());
            }
        }
    }
}

/// A level: its width and height in cells, its cells row after row, the cell
/// where the player starts and the cell of the shrine.
pub struct Level {
    columns: usize,
    rows: usize,
    tiles: Vec<Tile>,
    spawn_tile: (usize, usize),
    shrine_tile: (usize, usize),
}

impl Level {
    #[verifier::type_invariant]
    spec fn well_formed(self) -> bool {
        &&& self.columns > 0
        &&& self.rows > 0
        &&& self.rows * self.columns <= isize::MAX
        &&& self.columns <= isize::MAX
        &&& self.rows <= isize::MAX
        &&& self.tiles.len() == self.rows * self.columns
        &&& self.spawn_tile.0 < self.columns && self.spawn_tile.1 < self.rows
        &&& self.shrine_tile.0 < self.columns && self.shrine_tile.1 < self.rows
    }

    pub closed spec fn width(self) -> nat {
        self.columns as nat
    }

    pub closed spec fn height(self) -> nat {
        self.rows as nat
    }

    /// The tile at `(col, row)`, for a cell inside the grid.
    pub closed spec fn cell(self, col: int, row: int) -> Tile {
        grid_cell(self.tiles@, self.columns as int, col, row)
    }

    pub closed spec fn spawn(self) -> (usize, usize) {
        self.spawn_tile
    }

    pub closed spec fn shrine(self) -> (usize, usize) {
        self.shrine_tile
    }

    /// Builds a level from its rows of symbols.  Each row gives one row of
    /// cells; the player starts at the last `P` and the shrine stands at the
    /// last `S`, reading row by row.
    pub fn from_map(raw: &[&str]) -> (level: Level)
        requires
            map_ok(map_rows(raw@)),
            raw@.len() * raw@[0]@.len() <= isize::MAX,
        ensures
            level.width() == raw@[0]@.len(),
            level.height() == raw@.len(),
            forall|col: int, row: int|
                0 <= col < level.width() && 0 <= row < level.height() ==> #[trigger] level.cell(
                    col,
                    row,
                ) == symbol_tile(raw@[row]@[col]),
            is_last_symbol(map_rows(raw@), 'P', level.spawn().0 as int, level.spawn().1 as int),
            is_last_symbol(map_rows(raw@), 'S', level.shrine().0 as int, level.shrine().1 as int),
    {
        let ghost rows = map_rows(raw@);
        let first = chars_of(raw[0]);
        let columns = first.len();
        let height = raw.len();
        proof {
            assert(rows[0] == raw@[0]@);
            lemma_width_le_area(columns as int, height as int);
        }
        let mut tiles: Vec<Tile> = Vec::new();
        let mut spawn: Option<(usize, usize)> = None;
        let mut shrine: Option<(usize, usize)> = None;
        let mut r: usize = 0;
        while r < height
            invariant
                rows == map_rows(raw@),
                map_ok(rows),
                height == rows.len(),
                columns == rows[0].len(),
                height * columns <= isize::MAX,
                r <= height,
                tiles.len() == r * columns,
                forall|c: int, rr: int|
                    0 <= c < columns && 0 <= rr < r ==> #[trigger] grid_cell(
                        tiles@,
                        columns as int,
                        c,
                        rr,
                    ) == symbol_tile(rows[rr][c]),
                found_before(rows, 'P', spawn, 0, r as int),
                found_before(rows, 'S', shrine, 0, r as int),
            decreases height - r,
        {
            let line = chars_of(raw[r]);
            proof {
                assert(rows[r as int] == raw@[r as int]@);
                assert(rows[r as int].len() == rows[0].len());
                lemma_cell_below(0, r as int, height as int, columns as int);
            }
            let mut c: usize = 0;
            while c < columns
                invariant
                    rows == map_rows(raw@),
                    map_ok(rows),
                    height == rows.len(),
                    columns == rows[0].len(),
                    height * columns <= isize::MAX,
                    r < height,
                    line@ == rows[r as int],
                    c <= columns,
                    tiles.len() == r * columns + c,
                    r * columns + columns <= height * columns,
                    forall|cc: int, rr: int|
                        0 <= cc < columns && 0 <= rr < r ==> #[trigger] grid_cell(
                            tiles@,
                            columns as int,
                            cc,
                            rr,
                        ) == symbol_tile(rows[rr][cc]),
                    forall|cc: int|
                        0 <= cc < c ==> #[trigger] grid_cell(tiles@, columns as int, cc, r as int)
                            == symbol_tile(rows[r as int][cc]),
                    found_before(rows, 'P', spawn, c as int, r as int),
                    found_before(rows, 'S', shrine, c as int, r as int),
                decreases columns - c,
            {
                let ch = line[c];
                let ghost old_tiles = tiles@;
                proof {
                    assert(in_grid(rows, c as int, r as int));
                    assert(is_tile_symbol(rows[r as int][c as int]));
                }
                if ch == '#' || ch == '=' {
                    tiles.push(Tile::Solid);
                } else if ch == 'S' {
                    tiles.push(Tile::Shrine);
                    shrine = Some((c, r));
                } else {
                    tiles.push(Tile::Empty);
                    if ch == 'P' {
                        spawn = Some((c, r));
                    }
                }
                proof {
                    assert(tiles@ == old_tiles.push(symbol_tile(ch)));
                    assert forall|cc: int, rr: int|
                        0 <= cc < columns && 0 <= rr < r implies #[trigger] grid_cell(
                            tiles@,
                            columns as int,
                            cc,
                            rr,
                        ) == symbol_tile(rows[rr][cc]) by {
                        lemma_cell_below(cc, rr, r as int, columns as int);
                        assert(grid_cell(old_tiles, columns as int, cc, rr) == symbol_tile(
                            rows[rr][cc],
                        ));
                    }
                    assert forall|cc: int|
                        0 <= cc < c + 1 implies #[trigger] grid_cell(
                            tiles@,
                            columns as int,
                            cc,
                            r as int,
                        ) == symbol_tile(rows[r as int][cc]) by {
                        if cc < c {
                            assert(grid_cell(old_tiles, columns as int, cc, r as int)
                                == symbol_tile(rows[r as int][cc]));
                        }
                    }
                }
                c = c + 1;
            }
            proof {
                lemma_next_row(r as int, columns as int);
                assert forall|cc: int, rr: int|
                    0 <= cc < columns && 0 <= rr < r + 1 implies #[trigger] grid_cell(
                        tiles@,
                        columns as int,
                        cc,
                        rr,
                    ) == symbol_tile(rows[rr][cc]) by {
                    if rr == r {
                        assert(grid_cell(tiles@, columns as int, cc, r as int) == symbol_tile(
                            rows[r as int][cc],
                        ));
                    }
                }
                assert forall|cc: int, rr: int|
                    in_grid(rows, cc, rr) implies reads_before(cc, rr, columns as int, r as int)
                    == reads_before(cc, rr, 0, r + 1) by {
                    assert(rows[rr].len() == rows[0].len());
                }
            }
            r = r + 1;
        }
        let spawn_tile = match spawn {
            Some(p) => p,
            None => {
                proof {
                    let (c, rr) = choose|c: int, rr: int|
                        in_grid(rows, c, rr) && #[trigger] rows[rr][c] == 'P';
                    assert(reads_before(c, rr, 0, height as int));
                }
                (0, 0)
            },
        };
        let shrine_tile = match shrine {
            Some(p) => p,
            None => {
                proof {
                    let (c, rr) = choose|c: int, rr: int|
                        in_grid(rows, c, rr) && #[trigger] rows[rr][c] == 'S';
                    assert(reads_before(c, rr, 0, height as int));
                }
                (0, 0)
            },
        };
        proof {
            assert(rows[spawn_tile.1 as int].len() == rows[0].len());
            assert(rows[shrine_tile.1 as int].len() == rows[0].len());
            assert forall|c: int, rr: int|
                in_grid(rows, c, rr) implies reads_before(c, rr, 0, height as int) by {}
        }
        Level { columns, rows: height, tiles, spawn_tile, shrine_tile }
    }

    /// The first problem with rows of symbols, as `map_problem` says.
    pub fn map_problem_of(raw: &[&str]) -> (r: Option<MapProblem>)
        ensures
            r == map_problem(raw@),
    {
        if raw.len() == 0 {
            return Some(MapProblem::NoRows);
        }
        let width = raw[0].as_bytes().len();
        if width == 0 {
            return Some(MapProblem::EmptyRow);
        }
        match raw.len().checked_mul(width) {
            None => {
                return Some(MapProblem::TooLarge);
            },
            Some(cells) => {
                if cells > (isize::MAX as usize) {
                    return Some(MapProblem::TooLarge);
                }
            },
        }
        let ghost rows = map_rows(raw@);
        let mut has_p = false;
        let mut has_s = false;
        let mut r: usize = 0;
        while r < raw.len()
            invariant
                rows == map_rows(raw@),
                r <= raw@.len(),
                raw@.len() > 0,
                width == byte_len(raw@[0]),
                width > 0,
                raw@.len() * width <= isize::MAX,
                rows_problem(raw@, width as nat, 0) == rows_problem(raw@, width as nat, r as int),
                has_p <==> exists|c: int, q: int|
                    0 <= q < r && 0 <= c < rows[q].len() && #[trigger] rows[q][c] == 'P',
                has_s <==> exists|c: int, q: int|
                    0 <= q < r && 0 <= c < rows[q].len() && #[trigger] rows[q][c] == 'S',
            decreases raw@.len() - r,
        {
            if raw[r].as_bytes().len() != width {
                return Some(MapProblem::RaggedRow);
            }
            let line = chars_of(raw[r]);
            assert(rows[r as int] == raw@[r as int]@);
            let mut i: usize = 0;
            assert(line@.skip(0) =~= line@);
            while i < line.len()
                invariant
                    rows == map_rows(raw@),
                    r < raw@.len(),
                    raw@.len() > 0,
                    width == byte_len(raw@[0]),
                    width > 0,
                    raw@.len() * width <= isize::MAX,
                    byte_len(raw@[r as int]) == width,
                    rows_problem(raw@, width as nat, 0) == rows_problem(raw@, width as nat, r as int),
                    line@ == rows[r as int],
                    i <= line@.len(),
                    first_bad_symbol(line@) == first_bad_symbol(line@.skip(i as int)),
                    has_p <==> exists|c: int, q: int|
                        ((0 <= q < r && 0 <= c < rows[q].len()) || (q == r && 0 <= c < i))
                            && #[trigger] rows[q][c] == 'P',
                    has_s <==> exists|c: int, q: int|
                        ((0 <= q < r && 0 <= c < rows[q].len()) || (q == r && 0 <= c < i))
                            && #[trigger] rows[q][c] == 'S',
                decreases line@.len() - i,
            {
                let ch = line[i];
                assert(line@.skip(i as int)[0] == ch);
                if !(ch == '.' || ch == '#' || ch == '=' || ch == 'P' || ch == 'S') {
                    return Some(MapProblem::UnsupportedSymbol(ch));
                }
                if ch == 'P' {
                    has_p = true;
                    assert(rows[r as int][i as int] == 'P');
                }
                if ch == 'S' {
                    has_s = true;
                    assert(rows[r as int][i as int] == 'S');
                }
                assert(line@.skip(i as int).drop_first() =~= line@.skip(i + 1));
                i = i + 1;
            }
            assert(line@.skip(i as int) =~= Seq::<char>::empty());
            assert(first_bad_symbol(raw@[r as int]@) is None);
            r = r + 1;
        }
        proof {
            assert(has_symbol(rows, 'P') == has_p) by {
                if has_symbol(rows, 'P') {
                    let (c, q) = choose|c: int, q: int| in_grid(rows, c, q) && #[trigger] rows[q][c] == 'P';
                    assert(0 <= q < r && 0 <= c < rows[q].len() && rows[q][c] == 'P');
                }
            }
            assert(has_symbol(rows, 'S') == has_s) by {
                if has_symbol(rows, 'S') {
                    let (c, q) = choose|c: int, q: int| in_grid(rows, c, q) && #[trigger] rows[q][c] == 'S';
                    assert(0 <= q < r && 0 <= c < rows[q].len() && rows[q][c] == 'S');
                }
            }
        }
        if !has_p {
            Some(MapProblem::NoSpawn)
        } else if !has_s {
            Some(MapProblem::NoShrine)
        } else {
            None
        }
    }

    /// The level of rows of symbols, or the first problem that keeps them from
    /// making one; a level comes exactly when `map_ok` holds and the grid fits
    /// in a vector.
    pub fn try_from_map(raw: &[&str]) -> (r: Result<Level, MapProblem>)
        ensures
            r is Ok <==> (map_ok(map_rows(raw@)) && raw@.len() * raw@[0]@.len() <= isize::MAX),
            match map_problem(raw@) {
                Some(p) => r == Err::<Level, MapProblem>(p),
                None => r is Ok,
            },
            r matches Ok(level) ==> {
                &&& level.width() == raw@[0]@.len()
                &&& level.height() == raw@.len()
                &&& forall|col: int, row: int|
                    0 <= col < level.width() && 0 <= row < level.height() ==> #[trigger] level.cell(
                        col,
                        row,
                    ) == symbol_tile(raw@[row]@[col])
                &&& is_last_symbol(map_rows(raw@), 'P', level.spawn().0 as int, level.spawn().1 as int)
                &&& is_last_symbol(map_rows(raw@), 'S', level.shrine().0 as int, level.shrine().1 as int)
            },
    {
        proof {
            lemma_no_problem_iff_map_ok(raw@);
        }
        match Self::map_problem_of(raw) {
            Some(p) => Err(p),
            None => Ok(Level::from_map(raw)),
        }
    }

    pub fn columns(&self) -> (r: usize)
        ensures
            r == self.width(),
    {
        self.columns
    }

    pub fn rows(&self) -> (r: usize)
        ensures
            r == self.height(),
    {
        self.rows
    }

    pub fn spawn_tile(&self) -> (r: (usize, usize))
        ensures
            r == self.spawn(),
    {
        self.spawn_tile
    }

    pub fn shrine_tile(&self) -> (r: (usize, usize))
        ensures
            r == self.shrine(),
    {
        self.shrine_tile
    }

    /// The tile at `(col, row)`; a cell outside the grid is solid.
    pub fn tile_kind(&self, col: isize, row: isize) -> (t: Tile)
        ensures
            t == (if 0 <= col < self.width() && 0 <= row < self.height() {
                self.cell(col as int, row as int)
            } else {
                Tile::Solid
            }),
    {
        proof {
            use_type_invariant(self);
        }
        if col < 0 || row < 0 || col >= self.columns as isize || row >= self.rows as isize {
            Tile::Solid
        } else {
            proof {
                lemma_cell_below(col as int, row as int, self.rows as int, self.columns as int);
            }
            self.tiles[row as usize * self.columns + col as usize]
        }
    }
}

/// The name a key is kept under: its lower-case form, with the space bar
/// (reported as `" "` or `"Spacebar"`) named `space`.
pub open spec fn normalized_key(key: Seq<char>) -> Seq<char> {
    let lower = lowercase_of(key);
    if lower == seq![' '] || lower == seq!['s', 'p', 'a', 'c', 'e', 'b', 'a', 'r'] {
        seq!['s', 'p', 'a', 'c', 'e']
    } else {
        lower
    }
}

pub fn normalize_key(key: &str) -> (r: String)
    ensures
        r@ == normalized_key(key@),
{
    let lower = lowercase(key);
    let chars = chars_of(lower.as_str());
    let blank = vec![' '];
    let spacebar = vec!['s', 'p', 'a', 'c', 'e', 'b', 'a', 'r'];
    let space = vec!['s', 'p', 'a', 'c', 'e'];
    assert(blank@ == seq![' ']);
    assert(spacebar@ == seq!['s', 'p', 'a', 'c', 'e', 'b', 'a', 'r']);
    assert(space@ == seq!['s', 'p', 'a', 'c', 'e']);
    if seq_eq(&chars, &blank) || seq_eq(&chars, &spacebar) {
        string_of(&space)
    } else {
        lower
    }
}

/// The keys held down, and among them those pressed since the frame began.
pub struct Input {
    pressed: KeySet,
    just_pressed: KeySet,
}

impl Input {
    /// Every key pressed in this frame is held.
    pub closed spec fn wf(self) -> bool {
        &&& self.pressed.wf()
        &&& self.just_pressed.wf()
        &&& self.just_pressed@.subset_of(self.pressed@)
    }

    /// The names of the keys held down.
    pub closed spec fn held(self) -> Set<Seq<char>> {
        self.pressed@
    }

    /// The names of the keys that went down in this frame.
    pub closed spec fn fresh(self) -> Set<Seq<char>> {
        self.just_pressed@
    }

    pub fn new() -> (r: Input)
        ensures
            r.wf(),
            r.held() == Set::<Seq<char>>::empty(),
            r.fresh() == Set::<Seq<char>>::empty(),
    {
        Input { pressed: KeySet::new(), just_pressed: KeySet::new() }
    }

    /// A key went down.  It counts as pressed in this frame only if it was not
    /// held already (a repeat of a held key is not a new press).
    pub fn press(&mut self, key: String)
        requires
            old(self).wf(),
        ensures
            final(self).wf(),
            final(self).held() == old(self).held().insert(normalized_key(key@)),
            final(self).fresh() == (if old(self).held().contains(normalized_key(key@)) {
                old(self).fresh()
            } else {
                old(self).fresh().insert(normalized_key(key@))
            }),
    {
        let normalized = normalize_key(key.as_str());
        let copy = normalized.clone();
        if self.pressed.insert(normalized) {
            self.just_pressed.insert(copy);
        }
    }

    /// A key went up: it is neither held nor freshly pressed any more.
    pub fn release(&mut self, key: &str)
        requires
            old(self).wf(),
        ensures
            final(self).wf(),
            final(self).held() == old(self).held().remove(normalized_key(key@)),
            final(self).fresh() == old(self).fresh().remove(normalized_key(key@)),
    {
        let normalized = normalize_key(key);
        self.pressed.remove(&normalized);
        self.just_pressed.remove(&normalized);
    }

    pub fn is_pressed(&self, key: &str) -> (r: bool)
        ensures
            r == self.held().contains(normalized_key(key@)),
    {
        let normalized = normalize_key(key);
        self.pressed.contains(&normalized)
    }

    pub fn just_pressed(&self, key: &str) -> (r: bool)
        ensures
            r == self.fresh().contains(normalized_key(key@)),
    {
        let normalized = normalize_key(key);
        self.just_pressed.contains(&normalized)
    }

    /// The frame is over: no key counts as freshly pressed; the held keys stay.
    pub fn end_frame(&mut self)
        requires
            old(self).wf(),
        ensures
            final(self).wf(),
            final(self).held() == old(self).held(),
            final(self).fresh() == Set::<Seq<char>>::empty(),
    {
        self.just_pressed.clear();
    }
}

/// A key counts as freshly pressed only while it is held.
pub proof fn lemma_fresh_keys_are_held(input: Input)
    requires
        input.wf(),
    ensures
        input.fresh().subset_of(input.held()),
{
}

impl Default for Input {
    fn default() -> (r: Input)
        ensures
            r.wf(),
            r.held() == Set::<Seq<char>>::empty(),
            r.fresh() == Set::<Seq<char>>::empty(),
    {
        Input::new()
    }
}

} // verus!
