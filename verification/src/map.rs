//! The map loader: parses a textual level description into entities.
//!
//! A level is a newline-delimited grid of whitespace-separated tokens. Each
//! non-void cell produces a floor entity plus at most one feature entity at
//! the coordinates given by its row (`y`) and column (`x`) index. Loading is
//! atomic: nothing is built unless the whole text is recognized and fits the
//! grid limits.

use vstd::prelude::*;
use vstd::string::StringExecFns;

use crate::components::{BoxColor, Position};
use crate::entities::{box_view, create_box, create_box_spot, create_floor, create_player,
    create_wall, floor_view, player_view, spot_view, wall_view};
use crate::world::{at_cell, same_xy, wf_entities, wf_entity, EntityView, World};

verus! {

/// The closed set of level tokens.
#[derive(Clone, Copy, Debug, PartialEq, Eq, Structural)]
pub enum Token {
    /// `.`: floor only.
    Floor,
    /// `W`: floor plus wall.
    Wall,
    /// `P`: floor plus player.
    Player,
    /// `N`: a void cell, no entities.
    Nothing,
    /// `RB` / `BB`: floor plus box of that color.
    BoxPiece(BoxColor),
    /// `RS` / `BS`: floor plus box spot of that color.
    Spot(BoxColor),
}

impl View for Token {
    type V = Token;

    open spec fn view(&self) -> Token {
        *self
    }
}

impl DeepView for Token {
    type V = Token;

    open spec fn deep_view(&self) -> Token {
        *self
    }
}

/// Why a level text was rejected.
#[derive(Clone, Copy, Debug, PartialEq, Eq, Structural)]
pub enum LoadError {
    /// A token outside the table: loading aborts with nothing built.
    UnrecognizedToken,
    /// More than 256 rows, or a row of more than 256 tokens: coordinates
    /// would not fit the grid.
    MapTooLarge,
}

/// Whitespace that separates tokens within a row.
pub open spec fn is_line_space(c: char) -> bool {
    c == ' ' || c == '\t' || c == '\r'
}

/// The token a word of the level text stands for, if any.
pub open spec fn classify(t: Seq<char>) -> Option<Token> {
    if t.len() == 1 {
        if t[0] == '.' {
            Some(Token::Floor)
        } else if t[0] == 'W' {
            Some(Token::Wall)
        } else if t[0] == 'P' {
            Some(Token::Player)
        } else if t[0] == 'N' {
            Some(Token::Nothing)
        } else {
            None
        }
    } else if t.len() == 2 && t[1] == 'B' {
        if t[0] == 'R' {
            Some(Token::BoxPiece(BoxColor::Red))
        } else if t[0] == 'B' {
            Some(Token::BoxPiece(BoxColor::Blue))
        } else {
            None
        }
    } else if t.len() == 2 && t[1] == 'S' {
        if t[0] == 'R' {
            Some(Token::Spot(BoxColor::Red))
        } else if t[0] == 'B' {
            Some(Token::Spot(BoxColor::Blue))
        } else {
            None
        }
    } else {
        None
    }
}

/// Ends the word collected so far, if any: appends its token to the row, or
/// fails on an unrecognized word.
pub open spec fn close_token(cur: Seq<char>, row: Seq<Token>) -> Option<Seq<Token>> {
    if cur.len() == 0 {
        Some(row)
    } else {
        match classify(cur) {
            Some(t) => Some(row.push(t)),
            None => None,
        }
    }
}

/// One left-to-right pass over the text from position `i`, with the word,
/// row and rows collected so far: yields every row of tokens, or fails at the
/// first unrecognized word.
pub open spec fn scan_tokens(
    s: Seq<char>,
    i: int,
    cur: Seq<char>,
    row: Seq<Token>,
    rows: Seq<Seq<Token>>,
) -> Option<Seq<Seq<Token>>>
    decreases s.len() - i,
{
    if i < 0 || i >= s.len() {
        match close_token(cur, row) {
            Some(r2) => Some(rows.push(r2)),
            None => None,
        }
    } else if s[i] == '\n' {
        match close_token(cur, row) {
            Some(r2) => scan_tokens(s, i + 1, Seq::empty(), Seq::empty(), rows.push(r2)),
            None => None,
        }
    } else if is_line_space(s[i]) {
        match close_token(cur, row) {
            Some(r2) => scan_tokens(s, i + 1, Seq::empty(), r2, rows),
            None => None,
        }
    } else {
        scan_tokens(s, i + 1, cur.push(s[i]), row, rows)
    }
}

/// Every row of the text as tokens, blank rows included.
pub open spec fn raw_rows(s: Seq<char>) -> Option<Seq<Seq<Token>>> {
    scan_tokens(s, 0, Seq::empty(), Seq::empty(), Seq::empty())
}

/// Rows with the leading run of blank rows removed (the overall trim of the
/// level text: blank lines before the first real row do not shift the grid).
pub open spec fn drop_leading_empty(rows: Seq<Seq<Token>>) -> Seq<Seq<Token>>
    decreases rows.len(),
{
    if rows.len() > 0 && rows[0].len() == 0 {
        drop_leading_empty(rows.drop_first())
    } else {
        rows
    }
}

/// Rows with the trailing run of blank rows removed.
pub open spec fn drop_trailing_empty(rows: Seq<Seq<Token>>) -> Seq<Seq<Token>>
    decreases rows.len(),
{
    if rows.len() > 0 && rows.last().len() == 0 {
        drop_trailing_empty(rows.drop_last())
    } else {
        rows
    }
}

/// The token grid of a level text: rows of tokens, outer blank rows trimmed.
/// `None` when some word of the text is not in the token table.
pub open spec fn level_grid(s: Seq<char>) -> Option<Seq<Seq<Token>>> {
    match raw_rows(s) {
        Some(rows) => Some(drop_trailing_empty(drop_leading_empty(rows))),
        None => None,
    }
}

/// The widest row among the first `y` rows.
pub open spec fn grid_width_upto(grid: Seq<Seq<Token>>, y: int) -> int
    decreases y,
{
    if y <= 0 {
        0
    } else {
        let w = grid_width_upto(grid, y - 1);
        if grid[y - 1].len() > w {
            grid[y - 1].len() as int
        } else {
            w
        }
    }
}

/// The grid's width: the length of its widest row.
pub open spec fn grid_width(grid: Seq<Seq<Token>>) -> int {
    grid_width_upto(grid, grid.len() as int)
}

/// Whether every coordinate of the grid fits a `u8`.
pub open spec fn grid_fits(grid: Seq<Seq<Token>>) -> bool {
    grid.len() <= 256 && grid_width(grid) <= 256
}

/// The entities one cell contributes: a floor under every non-void token,
/// plus the token's feature entity.
pub open spec fn cell_entities(t: Token, x: u8, y: u8) -> Seq<EntityView> {
    match t {
        Token::Nothing => Seq::empty(),
        Token::Floor => seq![floor_view(x, y)],
        Token::Wall => seq![floor_view(x, y), wall_view(x, y)],
        Token::Player => seq![floor_view(x, y), player_view(x, y)],
        Token::BoxPiece(c) => seq![floor_view(x, y), box_view(x, y, c)],
        Token::Spot(c) => seq![floor_view(x, y), spot_view(x, y, c)],
    }
}

/// The entities of the first `x` cells of row `y`.
pub open spec fn row_entities_upto(row: Seq<Token>, y: u8, x: int) -> Seq<EntityView>
    decreases x,
{
    if x <= 0 {
        Seq::empty()
    } else {
        row_entities_upto(row, y, x - 1) + cell_entities(row[x - 1], (x - 1) as u8, y)
    }
}

/// The entities of the whole row `y`.
pub open spec fn row_entities(row: Seq<Token>, y: u8) -> Seq<EntityView> {
    row_entities_upto(row, y, row.len() as int)
}

/// The entities of the first `y` rows of the grid.
pub open spec fn grid_entities_upto(grid: Seq<Seq<Token>>, y: int) -> Seq<EntityView>
    decreases y,
{
    if y <= 0 {
        Seq::empty()
    } else {
        grid_entities_upto(grid, y - 1) + row_entities(grid[y - 1], (y - 1) as u8)
    }
}

/// Every entity the grid describes, in reading order.
pub open spec fn grid_entities(grid: Seq<Seq<Token>>) -> Seq<EntityView> {
    grid_entities_upto(grid, grid.len() as int)
}

/// The word collected so far stands for which token, if any.
fn classify_token(cur: &Vec<char>) -> (r: Option<Token>)
    ensures
        r == classify(cur@),
{
    if cur.len() == 1 {
        let c = cur[0];
        if c == '.' {
            Some(Token::Floor)
        } else if c == 'W' {
            Some(Token::Wall)
        } else if c == 'P' {
            Some(Token::Player)
        } else if c == 'N' {
            Some(Token::Nothing)
        } else {
            None
        }
    } else if cur.len() == 2 {
        let c0 = cur[0];
        let c1 = cur[1];
        if c1 == 'B' {
            if c0 == 'R' {
                Some(Token::BoxPiece(BoxColor::Red))
            } else if c0 == 'B' {
                Some(Token::BoxPiece(BoxColor::Blue))
            } else {
                None
            }
        } else if c1 == 'S' {
            if c0 == 'R' {
                Some(Token::Spot(BoxColor::Red))
            } else if c0 == 'B' {
                Some(Token::Spot(BoxColor::Blue))
            } else {
                None
            }
        } else {
            None
        }
    } else {
        None
    }
}

proof fn lemma_drop_leading_empty_skip(rows: Seq<Seq<Token>>, k: int)
    requires
        0 <= k <= rows.len(),
        forall|j: int| 0 <= j < k ==> (#[trigger] rows[j]).len() == 0,
        k < rows.len() ==> rows[k].len() > 0,
    ensures
        drop_leading_empty(rows) == rows.skip(k),
    decreases k,
{
    if k == 0 {
        assert(rows.skip(0) =~= rows);
    } else {
        assert(rows[0].len() == 0);
        let rest = rows.drop_first();
        assert(forall|j: int| 0 <= j < k - 1 ==> (#[trigger] rest[j]).len() == 0);
        lemma_drop_leading_empty_skip(rest, k - 1);
        assert(rest.skip(k - 1) =~= rows.skip(k));
    }
}

proof fn lemma_drop_trailing_empty_take(rows: Seq<Seq<Token>>, k: int)
    requires
        0 <= k <= rows.len(),
        forall|j: int| k <= j < rows.len() ==> (#[trigger] rows[j]).len() == 0,
        k > 0 ==> rows[k - 1].len() > 0,
    ensures
        drop_trailing_empty(rows) == rows.take(k),
    decreases rows.len(),
{
    if k == rows.len() {
        assert(rows.take(k) =~= rows);
    } else {
        assert(rows.last().len() == 0);
        let rest = rows.drop_last();
        lemma_drop_trailing_empty_take(rest, k);
        assert(rest.take(k) =~= rows.take(k));
    }
}

/// Parses `map_string` and inserts the level's entities into `world`, setting
/// the grid bounds from the level's rows and widest row. On any error the
/// store is left untouched. An unrecognized token is reported exactly when
/// the text has a word outside the token table; a level of more than 256 rows
/// or columns is rejected as too large.
pub fn load_map(world: &mut World, map_string: String) -> (r: Result<(), LoadError>)
    ensures
        match r {
            Ok(_) => {
                &&& level_grid(map_string@) is Some
                &&& grid_fits(level_grid(map_string@)->Some_0)
                &&& final(world).ents() == old(world).ents() + grid_entities(
                    level_grid(map_string@)->Some_0,
                )
                &&& final(world).width == grid_width(level_grid(map_string@)->Some_0)
                &&& final(world).height == level_grid(map_string@)->Some_0.len()
                &&& final(world).input_queue == old(world).input_queue
                &&& final(world).gameplay == old(world).gameplay
                &&& final(world).time == old(world).time
                &&& old(world).ents().len() == 0 ==> final(world).wf()
            },
            Err(LoadError::UnrecognizedToken) => {
                &&& level_grid(map_string@) is None
                &&& *final(world) == *old(world)
            },
            Err(LoadError::MapTooLarge) => {
                &&& level_grid(map_string@) is Some
                &&& !grid_fits(level_grid(map_string@)->Some_0)
                &&& *final(world) == *old(world)
            },
        },
{
    let s = map_string.as_str();
    let n = s.unicode_len();

    // Copy the text out as characters.
    let mut chars: Vec<char> = Vec::new();
    let mut idx: usize = 0;
    while idx < n
        invariant
            idx <= n,
            n == s@.len(),
            s@ == map_string@,
            chars@ == s@.take(idx as int),
        decreases n - idx,
    {
        chars.push(s.get_char(idx));
        idx += 1;
        proof {
            assert(chars@ =~= s@.take(idx as int));
        }
    }
    proof {
        assert(chars@ =~= s@);
    }

    // Tokenize: one pass, keeping the current word, row and rows.
    let mut cur: Vec<char> = Vec::new();
    let mut row: Vec<Token> = Vec::new();
    let mut rows: Vec<Vec<Token>> = Vec::new();
    proof {
        assert(rows.deep_view() =~= Seq::<Seq<Token>>::empty());
    }
    let mut i: usize = 0;
    while i < chars.len()
        invariant
            i <= chars@.len(),
            chars@ == map_string@,
            raw_rows(map_string@) == scan_tokens(
                map_string@,
                i as int,
                cur@,
                row@,
                rows.deep_view(),
            ),
        decreases chars@.len() - i,
    {
        let ghost cur0 = cur@;
        let ghost row0 = row@;
        let ghost rows0 = rows.deep_view();
        let c = chars[i];
        if c == '\n' {
            if cur.len() > 0 {
                match classify_token(&cur) {
                    Some(t) => {
                        row.push(t);
                        cur = Vec::new();
                    },
                    None => {
                        proof {
                            assert(close_token(cur0, row0) is None);
                            assert(scan_tokens(map_string@, i as int, cur0, row0, rows0) is None);
                        }
                        return Err(LoadError::UnrecognizedToken);
                    },
                }
            }
            proof {
                assert(close_token(cur0, row0) == Some(row@));
            }
            let ghost rows_pre = rows.deep_view();
            rows.push(row);
            proof {
                assert(rows.deep_view() =~~= rows_pre.push(row@));
                assert(scan_tokens(map_string@, i as int, cur0, row0, rows0) == scan_tokens(
                    map_string@,
                    i + 1,
                    Seq::empty(),
                    Seq::empty(),
                    rows.deep_view(),
                ));
            }
            row = Vec::new();
            cur = Vec::new();
        } else if c == ' ' || c == '\t' || c == '\r' {
            if cur.len() > 0 {
                match classify_token(&cur) {
                    Some(t) => {
                        row.push(t);
                        cur = Vec::new();
                    },
                    None => {
                        proof {
                            assert(close_token(cur0, row0) is None);
                            assert(scan_tokens(map_string@, i as int, cur0, row0, rows0) is None);
                        }
                        return Err(LoadError::UnrecognizedToken);
                    },
                }
            }
            proof {
                assert(close_token(cur0, row0) == Some(row@));
                assert(scan_tokens(map_string@, i as int, cur0, row0, rows0) == scan_tokens(
                    map_string@,
                    i + 1,
                    Seq::empty(),
                    row@,
                    rows0,
                ));
            }
            cur = Vec::new();
        } else {
            cur.push(c);
            proof {
                assert(scan_tokens(map_string@, i as int, cur0, row0, rows0) == scan_tokens(
                    map_string@,
                    i + 1,
                    cur0.push(map_string@[i as int]),
                    row0,
                    rows0,
                ));
            }
        }
        i += 1;
    }
    let ghost cur0 = cur@;
    let ghost row0 = row@;
    let ghost rows0 = rows.deep_view();
    if cur.len() > 0 {
        match classify_token(&cur) {
            Some(t) => {
                row.push(t);
            },
            None => {
                proof {
                    assert(close_token(cur0, row0) is None);
                    assert(scan_tokens(map_string@, i as int, cur0, row0, rows0) is None);
                }
                return Err(LoadError::UnrecognizedToken);
            },
        }
    }
    proof {
        assert(close_token(cur0, row0) == Some(row@));
    }
    let ghost rows_pre = rows.deep_view();
    rows.push(row);
    proof {
        assert(rows.deep_view() =~~= rows_pre.push(row@));
        assert(scan_tokens(map_string@, i as int, cur0, row0, rows0) == Some(rows.deep_view()));
        assert(raw_rows(map_string@) == Some(rows.deep_view()));
    }

    // Trim blank rows at both ends.
    let mut start: usize = 0;
    while start < rows.len() && rows[start].len() == 0
        invariant
            start <= rows@.len(),
            raw_rows(map_string@) == Some(rows.deep_view()),
            forall|j: int| 0 <= j < start ==> (#[trigger] rows.deep_view()[j]).len() == 0,
        decreases rows@.len() - start,
    {
        start += 1;
    }
    let mut end: usize = rows.len();
    while end > start && rows[end - 1].len() == 0
        invariant
            start <= end <= rows@.len(),
            raw_rows(map_string@) == Some(rows.deep_view()),
            start < rows@.len() ==> rows.deep_view()[start as int].len() > 0,
            start == end || rows.deep_view()[start as int].len() > 0,
            forall|j: int| 0 <= j < start ==> (#[trigger] rows.deep_view()[j]).len() == 0,
            forall|j: int| end <= j < rows@.len() ==> (#[trigger] rows.deep_view()[j]).len() == 0,
        decreases end,
    {
        end -= 1;
    }
    let ghost rows_dv = rows.deep_view();
    let ghost grid = rows_dv.subrange(start as int, end as int);
    proof {
        lemma_drop_leading_empty_skip(rows_dv, start as int);
        let q = rows_dv.skip(start as int);
        lemma_drop_trailing_empty_take(q, end - start);
        assert(q.take(end - start) =~= grid);
        assert(level_grid(map_string@) == Some(grid));
    }

    // Check the grid limits before building anything.
    let height = end - start;
    if height > 256 {
        proof {
            assert(!grid_fits(grid));
        }
        return Err(LoadError::MapTooLarge);
    }
    let mut wmax: usize = 0;
    let mut y: usize = start;
    while y < end
        invariant
            start <= y <= end <= rows@.len(),
            rows_dv == rows.deep_view(),
            grid == rows_dv.subrange(start as int, end as int),
            wmax == grid_width_upto(grid, y - start),
            wmax <= usize::MAX,
        decreases end - y,
    {
        let l = rows[y].len();
        proof {
            assert(grid[y - start] =~= rows_dv[y as int]);
        }
        if l > wmax {
            wmax = l;
        }
        y += 1;
    }
    if wmax > 256 {
        proof {
            assert(!grid_fits(grid));
        }
        return Err(LoadError::MapTooLarge);
    }
    proof {
        assert(grid_fits(grid));
    }

    // Build the level.
    let ghost old_world = *world;
    let mut y: usize = start;
    while y < end
        invariant
            start <= y <= end <= rows@.len(),
            end - start <= 256,
            rows_dv == rows.deep_view(),
            grid == rows_dv.subrange(start as int, end as int),
            grid_width(grid) <= 256,
            world.ents() == old_world.ents() + grid_entities_upto(grid, y - start),
            world.input_queue == old_world.input_queue,
            world.gameplay == old_world.gameplay,
            world.time == old_world.time,
        decreases end - y,
    {
        let row_len = rows[y].len();
        proof {
            assert(grid[y - start] =~= rows_dv[y as int]);
            assert(grid[y - start].len() <= grid_width_upto(grid, y - start + 1));
            lemma_grid_width_upto_mono(grid, y - start + 1, grid.len() as int);
        }
        let mut x: usize = 0;
        while x < row_len
            invariant
                start <= y < end <= rows@.len(),
                end - start <= 256,
                x <= row_len,
                rows_dv == rows.deep_view(),
                grid == rows_dv.subrange(start as int, end as int),
                row_len == grid[y - start].len(),
                row_len <= 256,
                grid[y - start] =~= rows@[y as int]@,
                world.ents() == old_world.ents() + grid_entities_upto(grid, y - start)
                    + row_entities_upto(grid[y - start], (y - start) as u8, x as int),
                world.input_queue == old_world.input_queue,
                world.gameplay == old_world.gameplay,
                world.time == old_world.time,
            decreases row_len - x,
        {
            let t = rows[y][x];
            let pos = Position { x: x as u8, y: (y - start) as u8, z: 0 };
            let ghost before = world.ents();
            match t {
                Token::Nothing => {},
                Token::Floor => {
                    create_floor(world, &pos);
                },
                Token::Wall => {
                    create_floor(world, &pos);
                    create_wall(world, &pos);
                },
                Token::Player => {
                    create_floor(world, &pos);
                    create_player(world, &pos);
                },
                Token::BoxPiece(c) => {
                    create_floor(world, &pos);
                    create_box(world, &pos, c);
                },
                Token::Spot(c) => {
                    create_floor(world, &pos);
                    create_box_spot(world, &pos, c);
                },
            }
            proof {
                assert(world.ents() =~= before + cell_entities(t, x as u8, (y - start) as u8));
                assert(row_entities_upto(grid[y - start], (y - start) as u8, x + 1)
                    == row_entities_upto(grid[y - start], (y - start) as u8, x as int)
                    + cell_entities(grid[y - start][x as int], x as u8, (y - start) as u8));
                assert(world.ents() =~= old_world.ents() + grid_entities_upto(grid, y - start)
                    + row_entities_upto(grid[y - start], (y - start) as u8, x + 1));
            }
            x += 1;
        }
        proof {
            assert(grid_entities_upto(grid, y - start + 1) == grid_entities_upto(grid, y - start)
                + row_entities(grid[y - start], (y - start) as u8));
            assert(world.ents() =~= old_world.ents() + grid_entities_upto(grid, y - start + 1));
        }
        y += 1;
    }
    world.width = wmax as u16;
    world.height = height as u16;
    proof {
        assert(world.ents() == old_world.ents() + grid_entities(grid));
        if old_world.ents().len() == 0 {
            lemma_grid_entities_wf(grid);
            assert(world.ents() =~= grid_entities(grid));
        }
    }
    Ok(())
}

proof fn lemma_grid_width_upto_mono(grid: Seq<Seq<Token>>, a: int, b: int)
    requires
        a <= b,
    ensures
        grid_width_upto(grid, a) <= grid_width_upto(grid, b),
    decreases b - a,
{
    if a < b {
        lemma_grid_width_upto_mono(grid, a, b - 1);
    }
}

/// The predicate "stands on cell `(x, y)`", as a value, so that every lemma
/// speaks of one and the same filter.
pub open spec fn at_cell_pred(x: int, y: int) -> spec_fn(EntityView) -> bool {
    |e: EntityView| at_cell(e, x, y)
}

proof fn lemma_filter_no_match(s: Seq<EntityView>, pred: spec_fn(EntityView) -> bool)
    requires
        forall|k: int| 0 <= k < s.len() ==> !pred(#[trigger] s[k]),
    ensures
        s.filter(pred) == Seq::<EntityView>::empty(),
    decreases s.len(),
{
    reveal(Seq::filter);
    if s.len() > 0 {
        lemma_filter_no_match(s.drop_last(), pred);
    }
}

proof fn lemma_filter_all_match(s: Seq<EntityView>, pred: spec_fn(EntityView) -> bool)
    requires
        forall|k: int| 0 <= k < s.len() ==> pred(#[trigger] s[k]),
    ensures
        s.filter(pred) == s,
    decreases s.len(),
{
    reveal(Seq::filter);
    if s.len() > 0 {
        lemma_filter_all_match(s.drop_last(), pred);
        assert(s.drop_last().push(s.last()) =~= s);
    }
}

/// Every entity of one cell stands on that cell, is well formed, and the
/// cell holds at most one movable and at most one immovable entity.
proof fn lemma_cell_props(t: Token, x: u8, y: u8, w: int, h: int)
    requires
        x < w,
        y < h,
    ensures
        forall|k: int|
            0 <= k < cell_entities(t, x, y).len() ==> wf_entity(
                #[trigger] cell_entities(t, x, y)[k],
                w,
                h,
            ) && at_cell(cell_entities(t, x, y)[k], x as int, y as int),
        forall|k1: int, k2: int|
            0 <= k1 < cell_entities(t, x, y).len() && 0 <= k2 < cell_entities(t, x, y).len() && (
            #[trigger] cell_entities(t, x, y)[k1]).movable && (#[trigger] cell_entities(
                t,
                x,
                y,
            )[k2]).movable ==> k1 == k2,
        forall|k1: int, k2: int|
            0 <= k1 < cell_entities(t, x, y).len() && 0 <= k2 < cell_entities(t, x, y).len() && (
            #[trigger] cell_entities(t, x, y)[k1]).immovable && (#[trigger] cell_entities(
                t,
                x,
                y,
            )[k2]).immovable ==> k1 == k2,
{
}

/// Every entity of a row prefix stands on a cell of that prefix, and no cell
/// of it holds two movables or two immovables.
proof fn lemma_row_props(row: Seq<Token>, y: u8, x: int, w: int, h: int)
    requires
        0 <= x <= row.len(),
        row.len() <= w,
        w <= 256,
        y < h,
    ensures
        forall|k: int|
            0 <= k < row_entities_upto(row, y, x).len() ==> {
                let e = #[trigger] row_entities_upto(row, y, x)[k];
                &&& wf_entity(e, w, h)
                &&& e.position is Some
                &&& e.position->Some_0.y == y
                &&& e.position->Some_0.x < x
            },
        forall|k1: int, k2: int|
            0 <= k1 < row_entities_upto(row, y, x).len() && 0 <= k2 < row_entities_upto(
                row,
                y,
                x,
            ).len() && (#[trigger] row_entities_upto(row, y, x)[k1]).movable && (
            #[trigger] row_entities_upto(row, y, x)[k2]).movable && same_xy(
                row_entities_upto(row, y, x)[k1],
                row_entities_upto(row, y, x)[k2],
            ) ==> k1 == k2,
        forall|k1: int, k2: int|
            0 <= k1 < row_entities_upto(row, y, x).len() && 0 <= k2 < row_entities_upto(
                row,
                y,
                x,
            ).len() && (#[trigger] row_entities_upto(row, y, x)[k1]).immovable && (
            #[trigger] row_entities_upto(row, y, x)[k2]).immovable && same_xy(
                row_entities_upto(row, y, x)[k1],
                row_entities_upto(row, y, x)[k2],
            ) ==> k1 == k2,
    decreases x,
{
    if x > 0 {
        lemma_row_props(row, y, x - 1, w, h);
        lemma_cell_props(row[x - 1], (x - 1) as u8, y, w, h);
        let s = row_entities_upto(row, y, x);
        let prev = row_entities_upto(row, y, x - 1);
        let cell = cell_entities(row[x - 1], (x - 1) as u8, y);
        assert(s == prev + cell);
        assert forall|k: int| 0 <= k < s.len() implies {
            let e = #[trigger] s[k];
            &&& wf_entity(e, w, h)
            &&& e.position is Some
            &&& e.position->Some_0.y == y
            &&& e.position->Some_0.x < x
        } by {
            if k < prev.len() {
                assert(s[k] == prev[k]);
            } else {
                assert(s[k] == cell[k - prev.len()]);
                assert(at_cell(cell[k - prev.len()], (x - 1) as int, y as int));
            }
        }
        assert forall|k1: int, k2: int|
            0 <= k1 < s.len() && 0 <= k2 < s.len() && (#[trigger] s[k1]).movable && (
            #[trigger] s[k2]).movable && same_xy(s[k1], s[k2]) implies k1 == k2 by {
            if k1 < prev.len() && k2 < prev.len() {
                assert(s[k1] == prev[k1] && s[k2] == prev[k2]);
            } else if k1 >= prev.len() && k2 >= prev.len() {
                assert(s[k1] == cell[k1 - prev.len()] && s[k2] == cell[k2 - prev.len()]);
            } else if k1 < prev.len() {
                assert(s[k1] == prev[k1] && s[k2] == cell[k2 - prev.len()]);
                assert(s[k1].position->Some_0.x < x - 1);
                assert(at_cell(s[k2], (x - 1) as int, y as int));
                assert(!same_xy(s[k1], s[k2]));
            } else {
                assert(s[k2] == prev[k2] && s[k1] == cell[k1 - prev.len()]);
                assert(s[k2].position->Some_0.x < x - 1);
                assert(at_cell(s[k1], (x - 1) as int, y as int));
                assert(!same_xy(s[k1], s[k2]));
            }
        }
        assert forall|k1: int, k2: int|
            0 <= k1 < s.len() && 0 <= k2 < s.len() && (#[trigger] s[k1]).immovable && (
            #[trigger] s[k2]).immovable && same_xy(s[k1], s[k2]) implies k1 == k2 by {
            if k1 < prev.len() && k2 < prev.len() {
                assert(s[k1] == prev[k1] && s[k2] == prev[k2]);
            } else if k1 >= prev.len() && k2 >= prev.len() {
                assert(s[k1] == cell[k1 - prev.len()] && s[k2] == cell[k2 - prev.len()]);
            } else if k1 < prev.len() {
                assert(s[k1] == prev[k1] && s[k2] == cell[k2 - prev.len()]);
                assert(s[k1].position->Some_0.x < x - 1);
                assert(at_cell(s[k2], (x - 1) as int, y as int));
                assert(!same_xy(s[k1], s[k2]));
            } else {
                assert(s[k2] == prev[k2] && s[k1] == cell[k1 - prev.len()]);
                assert(s[k2].position->Some_0.x < x - 1);
                assert(at_cell(s[k1], (x - 1) as int, y as int));
                assert(!same_xy(s[k1], s[k2]));
            }
        }
    }
}

/// Every entity of a grid prefix stands on a cell of one of its rows, and no
/// cell holds two movables or two immovables.
proof fn lemma_grid_props(grid: Seq<Seq<Token>>, y: int, w: int, h: int)
    requires
        0 <= y <= grid.len(),
        grid.len() <= h,
        h <= 256,
        w <= 256,
        forall|r: int| 0 <= r < grid.len() ==> (#[trigger] grid[r]).len() <= w,
    ensures
        forall|k: int|
            0 <= k < grid_entities_upto(grid, y).len() ==> {
                let e = #[trigger] grid_entities_upto(grid, y)[k];
                &&& wf_entity(e, w, h)
                &&& e.position is Some
                &&& e.position->Some_0.y < y
            },
        forall|k1: int, k2: int|
            0 <= k1 < grid_entities_upto(grid, y).len() && 0 <= k2 < grid_entities_upto(
                grid,
                y,
            ).len() && (#[trigger] grid_entities_upto(grid, y)[k1]).movable && (
            #[trigger] grid_entities_upto(grid, y)[k2]).movable && same_xy(
                grid_entities_upto(grid, y)[k1],
                grid_entities_upto(grid, y)[k2],
            ) ==> k1 == k2,
        forall|k1: int, k2: int|
            0 <= k1 < grid_entities_upto(grid, y).len() && 0 <= k2 < grid_entities_upto(
                grid,
                y,
            ).len() && (#[trigger] grid_entities_upto(grid, y)[k1]).immovable && (
            #[trigger] grid_entities_upto(grid, y)[k2]).immovable && same_xy(
                grid_entities_upto(grid, y)[k1],
                grid_entities_upto(grid, y)[k2],
            ) ==> k1 == k2,
    decreases y,
{
    if y > 0 {
        lemma_grid_props(grid, y - 1, w, h);
        lemma_row_props(grid[y - 1], (y - 1) as u8, grid[y - 1].len() as int, w, h);
        let s = grid_entities_upto(grid, y);
        let prev = grid_entities_upto(grid, y - 1);
        let rowe = row_entities(grid[y - 1], (y - 1) as u8);
        assert(s == prev + rowe);
        assert forall|k: int| 0 <= k < s.len() implies {
            let e = #[trigger] s[k];
            &&& wf_entity(e, w, h)
            &&& e.position is Some
            &&& e.position->Some_0.y < y
        } by {
            if k < prev.len() {
                assert(s[k] == prev[k]);
            } else {
                assert(s[k] == rowe[k - prev.len()]);
            }
        }
        assert forall|k1: int, k2: int|
            0 <= k1 < s.len() && 0 <= k2 < s.len() && (#[trigger] s[k1]).movable && (
            #[trigger] s[k2]).movable && same_xy(s[k1], s[k2]) implies k1 == k2 by {
            if k1 < prev.len() && k2 < prev.len() {
                assert(s[k1] == prev[k1] && s[k2] == prev[k2]);
            } else if k1 >= prev.len() && k2 >= prev.len() {
                assert(s[k1] == rowe[k1 - prev.len()] && s[k2] == rowe[k2 - prev.len()]);
            } else if k1 < prev.len() {
                assert(s[k1] == prev[k1] && s[k2] == rowe[k2 - prev.len()]);
                assert(s[k1].position->Some_0.y < y - 1 && s[k2].position->Some_0.y == y - 1);
                assert(!same_xy(s[k1], s[k2]));
            } else {
                assert(s[k2] == prev[k2] && s[k1] == rowe[k1 - prev.len()]);
                assert(s[k2].position->Some_0.y < y - 1 && s[k1].position->Some_0.y == y - 1);
                assert(!same_xy(s[k1], s[k2]));
            }
        }
        assert forall|k1: int, k2: int|
            0 <= k1 < s.len() && 0 <= k2 < s.len() && (#[trigger] s[k1]).immovable && (
            #[trigger] s[k2]).immovable && same_xy(s[k1], s[k2]) implies k1 == k2 by {
            if k1 < prev.len() && k2 < prev.len() {
                assert(s[k1] == prev[k1] && s[k2] == prev[k2]);
            } else if k1 >= prev.len() && k2 >= prev.len() {
                assert(s[k1] == rowe[k1 - prev.len()] && s[k2] == rowe[k2 - prev.len()]);
            } else if k1 < prev.len() {
                assert(s[k1] == prev[k1] && s[k2] == rowe[k2 - prev.len()]);
                assert(s[k1].position->Some_0.y < y - 1 && s[k2].position->Some_0.y == y - 1);
                assert(!same_xy(s[k1], s[k2]));
            } else {
                assert(s[k2] == prev[k2] && s[k1] == rowe[k1 - prev.len()]);
                assert(s[k2].position->Some_0.y < y - 1 && s[k1].position->Some_0.y == y - 1);
                assert(!same_xy(s[k1], s[k2]));
            }
        }
    }
}

/// Each row of the grid is at most as long as the grid's width.
proof fn lemma_rows_within_width(grid: Seq<Seq<Token>>)
    ensures
        forall|r: int| 0 <= r < grid.len() ==> (#[trigger] grid[r]).len() <= grid_width(grid),
{
    assert forall|r: int| 0 <= r < grid.len() implies (#[trigger] grid[r]).len() <= grid_width(
        grid,
    ) by {
        assert(grid_width_upto(grid, r + 1) >= grid[r].len());
        lemma_grid_width_upto_mono(grid, r + 1, grid.len() as int);
    }
}

/// A level built from a grid that fits the bounds is a well-formed store.
proof fn lemma_grid_entities_wf(grid: Seq<Seq<Token>>)
    requires
        grid_fits(grid),
    ensures
        wf_entities(grid_entities(grid), grid_width(grid), grid.len() as int),
{
    if grid.len() == 0 {
    } else {
        lemma_rows_within_width(grid);
        lemma_grid_props(grid, grid.len() as int, grid_width(grid), grid.len() as int);
    }
}

/// Law: the entities a level places on cell `(x, y)` are exactly the cell's
/// own: one floor entity plus the token's feature for every non-void token,
/// and nothing at all for a void token, each at those coordinates.
pub proof fn lemma_level_cell(grid: Seq<Seq<Token>>, x: int, y: int)
    requires
        grid_fits(grid),
        0 <= y < grid.len(),
        0 <= x < grid[y].len(),
    ensures
        grid_entities(grid).filter(at_cell_pred(x, y)) == cell_entities(
            grid[y][x],
            x as u8,
            y as u8,
        ),
{
    lemma_rows_within_width(grid);
    lemma_grid_filter(grid, grid.len() as int, x, y);
}

proof fn lemma_grid_filter(grid: Seq<Seq<Token>>, n: int, x: int, y: int)
    requires
        grid_fits(grid),
        forall|r: int| 0 <= r < grid.len() ==> (#[trigger] grid[r]).len() <= grid_width(grid),
        0 <= y < n <= grid.len(),
        0 <= x < grid[y].len(),
    ensures
        grid_entities_upto(grid, n).filter(at_cell_pred(x, y)) == cell_entities(
            grid[y][x],
            x as u8,
            y as u8,
        ),
    decreases n,
{
    broadcast use vstd::seq_lib::group_filter_ensures;

    let pred = at_cell_pred(x, y);
    let prev = grid_entities_upto(grid, n - 1);
    let rowe = row_entities(grid[n - 1], (n - 1) as u8);
    assert(grid_entities_upto(grid, n) == prev + rowe);
    Seq::filter_distributes_over_add(prev, rowe, pred);
    lemma_row_props(grid[n - 1], (n - 1) as u8, grid[n - 1].len() as int, grid_width(grid), grid.len() as int);
    if n - 1 > y {
        // The newest row lies below the cell's row: it contributes nothing.
        lemma_filter_no_match(rowe, pred);
        lemma_grid_filter(grid, n - 1, x, y);
        assert(prev.filter(pred) + rowe.filter(pred) =~= cell_entities(grid[y][x], x as u8, y as u8));
    } else {
        // The cell's own row: everything above it lies on earlier rows.
        lemma_grid_props(grid, n - 1, grid_width(grid), grid.len() as int);
        lemma_filter_no_match(prev, pred);
        lemma_row_filter(grid[y], y as u8, grid[y].len() as int, x, grid_width(grid), grid.len() as int);
        assert(prev.filter(pred) + rowe.filter(pred) =~= cell_entities(grid[y][x], x as u8, y as u8));
    }
}

proof fn lemma_row_filter(row: Seq<Token>, yy: u8, xn: int, x: int, w: int, h: int)
    requires
        0 <= x < row.len(),
        x < xn <= row.len(),
        row.len() <= w,
        w <= 256,
        h <= 256,
        yy < h,
    ensures
        row_entities_upto(row, yy, xn).filter(at_cell_pred(x, yy as int)) == cell_entities(
            row[x],
            x as u8,
            yy,
        ),
    decreases xn,
{
    let pred = at_cell_pred(x, yy as int);
    let prev = row_entities_upto(row, yy, xn - 1);
    let cell = cell_entities(row[xn - 1], (xn - 1) as u8, yy);
    assert(row_entities_upto(row, yy, xn) == prev + cell);
    Seq::filter_distributes_over_add(prev, cell, pred);
    lemma_cell_props(row[xn - 1], (xn - 1) as u8, yy, w, h);
    if xn - 1 > x {
        lemma_filter_no_match(cell, pred);
        lemma_row_filter(row, yy, xn - 1, x, w, h);
        assert(prev.filter(pred) + cell.filter(pred) =~= cell_entities(row[x], x as u8, yy));
    } else {
        lemma_row_props(row, yy, xn - 1, w, h);
        lemma_filter_no_match(prev, pred);
        lemma_filter_all_match(cell, pred);
        assert(prev.filter(pred) + cell.filter(pred) =~= cell_entities(row[x], x as u8, yy));
    }
}

/// Law: a level places nothing outside its grid: a cell with no token, or a
/// void cell, has no entity on it.
pub proof fn lemma_level_cell_empty(grid: Seq<Seq<Token>>, x: int, y: int)
    requires
        grid_fits(grid),
        !(0 <= y < grid.len() && 0 <= x < grid[y].len()) || (0 <= y < grid.len() && 0 <= x
            < grid[y].len() && grid[y][x] == Token::Nothing),
    ensures
        grid_entities(grid).filter(at_cell_pred(x, y)) == Seq::<EntityView>::empty(),
{
    if 0 <= y < grid.len() && 0 <= x < grid[y].len() {
        lemma_level_cell(grid, x, y);
    } else {
        lemma_rows_within_width(grid);
        lemma_grid_props(grid, grid.len() as int, grid_width(grid), grid.len() as int);
        if 0 <= y < grid.len() {
            // The row exists but the column lies past its end.
            assert forall|k: int| 0 <= k < grid_entities(grid).len() implies !at_cell_pred(x, y)(
                #[trigger] grid_entities(grid)[k],
            ) by {
                if at_cell(grid_entities(grid)[k], x, y) {
                    lemma_grid_entity_in_row(grid, grid.len() as int, k);
                }
            }
            lemma_filter_no_match(grid_entities(grid), at_cell_pred(x, y));
        } else {
            lemma_filter_no_match(grid_entities(grid), at_cell_pred(x, y));
        }
    }
}

/// Every entity of a grid prefix stands within its own row's length.
proof fn lemma_grid_entity_in_row(grid: Seq<Seq<Token>>, y: int, k: int)
    requires
        0 <= y <= grid.len(),
        grid.len() <= 256,
        forall|r: int| 0 <= r < grid.len() ==> (#[trigger] grid[r]).len() <= 256,
        0 <= k < grid_entities_upto(grid, y).len(),
    ensures
        ({
            let e = grid_entities_upto(grid, y)[k];
            &&& e.position is Some
            &&& 0 <= e.position->Some_0.y < y
            &&& e.position->Some_0.x < grid[e.position->Some_0.y as int].len()
        }),
    decreases y,
{
    if y > 0 {
        let prev = grid_entities_upto(grid, y - 1);
        let rowe = row_entities(grid[y - 1], (y - 1) as u8);
        assert(grid_entities_upto(grid, y) == prev + rowe);
        if k < prev.len() {
            lemma_grid_entity_in_row(grid, y - 1, k);
            assert(grid_entities_upto(grid, y)[k] == prev[k]);
        } else {
            lemma_row_entity_in_row(
                grid[y - 1],
                (y - 1) as u8,
                grid[y - 1].len() as int,
                k - prev.len(),
            );
            assert(grid_entities_upto(grid, y)[k] == rowe[k - prev.len()]);
        }
    }
}

/// Every entity of a row prefix stands within that prefix.
proof fn lemma_row_entity_in_row(row: Seq<Token>, yy: u8, xn: int, k: int)
    requires
        0 <= xn <= row.len(),
        row.len() <= 256,
        0 <= k < row_entities_upto(row, yy, xn).len(),
    ensures
        ({
            let e = row_entities_upto(row, yy, xn)[k];
            &&& e.position is Some
            &&& e.position->Some_0.y == yy
            &&& e.position->Some_0.x < xn
        }),
    decreases xn,
{
    if xn > 0 {
        let prev = row_entities_upto(row, yy, xn - 1);
        let cell = cell_entities(row[xn - 1], (xn - 1) as u8, yy);
        assert(row_entities_upto(row, yy, xn) == prev + cell);
        if k < prev.len() {
            lemma_row_entity_in_row(row, yy, xn - 1, k);
            assert(row_entities_upto(row, yy, xn)[k] == prev[k]);
        } else {
            assert(row_entities_upto(row, yy, xn)[k] == cell[k - prev.len()]);
            assert(at_cell(cell[k - prev.len()], (xn - 1) as int, yy as int));
        }
    }
}

/// Loads the library's built-in starting level.
pub fn initialize_level(world: &mut World) -> (r: Result<(), LoadError>)
    ensures
        match r {
            Ok(_) => {
                &&& level_grid(spec_initial_map()) is Some
                &&& grid_fits(level_grid(spec_initial_map())->Some_0)
                &&& final(world).ents() == old(world).ents() + grid_entities(
                    level_grid(spec_initial_map())->Some_0,
                )
                &&& final(world).width == grid_width(level_grid(spec_initial_map())->Some_0)
                &&& final(world).height == level_grid(spec_initial_map())->Some_0.len()
                &&& final(world).input_queue == old(world).input_queue
                &&& final(world).gameplay == old(world).gameplay
                &&& final(world).time == old(world).time
                &&& old(world).ents().len() == 0 ==> final(world).wf()
            },
            Err(LoadError::UnrecognizedToken) => {
                &&& level_grid(spec_initial_map()) is None
                &&& *final(world) == *old(world)
            },
            Err(LoadError::MapTooLarge) => {
                &&& level_grid(spec_initial_map()) is Some
                &&& !grid_fits(level_grid(spec_initial_map())->Some_0)
                &&& *final(world) == *old(world)
            },
        },
{
    let map = initial_map();
    load_map(world, map)
}

/// The text of the built-in starting level.
pub open spec fn spec_initial_map() -> Seq<char> {
    "
    N N W W W W W W
    W W W . . . . W
    W . . . BB . . W
    W . . RB . . . W
    W . P . . . . W
    W . . . . RS . W
    W . . BS . . . W
    W . . . . . . W
    W W W W W W W W
    "@
}

/// The built-in starting level, as the loader takes it.
pub fn initial_map() -> (m: String)
    ensures
        m@ == spec_initial_map(),
{
    String::from_str(
        "
    N N W W W W W W
    W W W . . . . W
    W . . . BB . . W
    W . . RB . . . W
    W . P . . . . W
    W . . . . RS . W
    W . . BS . . . W
    W . . . . . . W
    W W W W W W W W
    ",
    )
}

} // verus!
