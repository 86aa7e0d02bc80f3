use vstd::prelude::*;
use crate::vector::Vector2;
use crate::tile::{
    Tile, has_flag, VOID, FLOOR, WALL, CRATE, TARGET, PLAYER, lemma_insert_flag,
};
use crate::level::{Level, Error, in_bounds_spec, index_of, lemma_index_bounds, lemma_index_injective, open_fn, vtile};
use crate::positions::lemma_push_distinct;
use crate::reach::reachable;
use crate::text::chars_of;

verus! {

/// The flags of the tile that a character of the XSB format stands for.
pub open spec fn char_tile(c: char) -> Option<u8> {
    if c == ' ' || c == '-' || c == '_' {
        Some(VOID)
    } else if c == '#' {
        Some(WALL)
    } else if c == '$' {
        Some(CRATE)
    } else if c == '.' {
        Some(TARGET)
    } else if c == '@' {
        Some(PLAYER)
    } else if c == '*' {
        Some(24u8)
    } else if c == '+' {
        Some(48u8)
    } else {
        None
    }
}

/// `@` and `+` stand for the player.
pub open spec fn is_player_char(c: char) -> bool {
    c == '@' || c == '+'
}

/// `$` and `*` stand for a crate.
pub open spec fn is_crate_char(c: char) -> bool {
    c == '$' || c == '*'
}

/// `.`, `*` and `+` stand for a target.
pub open spec fn is_target_char(c: char) -> bool {
    c == '.' || c == '*' || c == '+'
}

/// What the row-major scan of a map has found so far.
pub struct ScanState {
    pub player: Option<Vector2>,
    pub error: Option<Error>,
}

/// The scan after reading character `c` at column `x` of row `y`: the first
/// invalid character, or a second player, is an error that stays.
pub open spec fn scan_cell(s: ScanState, c: char, x: int, y: int) -> ScanState {
    if s.error is Some {
        s
    } else if char_tile(c) is None {
        ScanState { player: s.player, error: Some(Error::InvalidCharacter(c)) }
    } else if is_player_char(c) {
        if s.player is Some {
            ScanState { player: s.player, error: Some(Error::MoreThanOnePlayer) }
        } else {
            ScanState { player: Some(Vector2 { x: x as i32, y: y as i32 }), error: None }
        }
    } else {
        s
    }
}

/// The scan after the first `n` characters of row `y`.
pub open spec fn scan_line(s: ScanState, line: Seq<char>, y: int, n: nat) -> ScanState
    decreases n,
{
    if n == 0 {
        s
    } else {
        scan_cell(scan_line(s, line, y, (n - 1) as nat), line[n - 1], n - 1, y)
    }
}

/// The scan after the first `n` rows.
pub open spec fn scan_lines(lines: Seq<Seq<char>>, n: nat) -> ScanState
    decreases n,
{
    if n == 0 {
        ScanState { player: None, error: None }
    } else {
        scan_line(scan_lines(lines, (n - 1) as nat), lines[n - 1], n - 1, lines[n - 1].len())
    }
}

/// The characters of each row.
pub open spec fn lines_view(map: Seq<String>) -> Seq<Seq<char>> {
    map.map_values(|s: String| s@)
}

/// Whether a cell is written in the rows.
pub open spec fn in_text(lines: Seq<Seq<char>>, p: Vector2) -> bool {
    0 <= p.y < lines.len() && 0 <= p.x < lines[p.y as int].len()
}

/// The character written at a cell.
pub open spec fn char_at(lines: Seq<Seq<char>>, p: Vector2) -> char {
    lines[p.y as int][p.x as int]
}

/// The flags a cell gets from the text, before the floor is filled in.
pub open spec fn raw_tile(lines: Seq<Seq<char>>, p: Vector2) -> u8 {
    if in_text(lines, p) {
        match char_tile(char_at(lines, p)) {
            Some(t) => t,
            None => VOID,
        }
    } else {
        VOID
    }
}

/// The cells whose character satisfies `pred`.
pub open spec fn char_cells(lines: Seq<Seq<char>>, pred: spec_fn(char) -> bool) -> Set<Vector2> {
    Set::new(|p: Vector2| in_text(lines, p) && pred(char_at(lines, p)))
}

/// The cells that the floor fill may enter: on the grid, neither floor nor wall.
pub open spec fn raw_open(lines: Seq<Seq<char>>, size: Vector2) -> spec_fn(Vector2) -> bool {
    |p: Vector2| in_bounds_spec(size, p) && raw_tile(lines, p) & (FLOOR | WALL) == 0
}

/// An error, once found, is kept to the end of the row.
pub proof fn lemma_scan_line_keeps_error(s: ScanState, line: Seq<char>, y: int, m: nat, n: nat)
    requires
        scan_line(s, line, y, m).error is Some,
        m <= n,
    ensures
        scan_line(s, line, y, n) == scan_line(s, line, y, m),
    decreases n,
{
    if n > m {
        lemma_scan_line_keeps_error(s, line, y, m, (n - 1) as nat);
    }
}

/// A row read from a scan that has an error keeps it.
pub proof fn lemma_scan_line_from_error(s: ScanState, line: Seq<char>, y: int, n: nat)
    requires
        s.error is Some,
    ensures
        scan_line(s, line, y, n) == s,
    decreases n,
{
    if n > 0 {
        lemma_scan_line_from_error(s, line, y, (n - 1) as nat);
    }
}

/// An error, once found, is kept to the last row.
pub proof fn lemma_scan_lines_keeps_error(lines: Seq<Seq<char>>, m: nat, n: nat)
    requires
        scan_lines(lines, m).error is Some,
        m <= n,
    ensures
        scan_lines(lines, n) == scan_lines(lines, m),
    decreases n,
{
    if n > m {
        lemma_scan_lines_keeps_error(lines, m, (n - 1) as nat);
        lemma_scan_line_from_error(
            scan_lines(lines, (n - 1) as nat),
            lines[n - 1],
            n - 1,
            lines[n - 1].len(),
        );
    }
}

/// Whether cell `q` comes before column `x` of row `y` in the row-major scan.
pub open spec fn scanned(lines: Seq<Seq<char>>, q: Vector2, x: int, y: int) -> bool {
    in_text(lines, q) && (q.y < y || (q.y == y && q.x < x))
}

/// The flags of one character, as the parser writes them.
fn char_tile_exec(c: char) -> (r: Option<Tile>)
    ensures
        r is Some == char_tile(c) is Some,
        r matches Some(t) ==> Some(t.0) == char_tile(c),
{
    if c == ' ' || c == '-' || c == '_' {
        Some(Tile(VOID))
    } else if c == '#' {
        Some(Tile(WALL))
    } else if c == '$' {
        Some(Tile(CRATE))
    } else if c == '.' {
        Some(Tile(TARGET))
    } else if c == '@' {
        Some(Tile(PLAYER))
    } else if c == '*' {
        Some(Tile(24))
    } else if c == '+' {
        Some(Tile(48))
    } else {
        None
    }
}

/// The flags of each character, as the level invariant reads them.
proof fn lemma_char_tile_flags(c: char)
    requires
        char_tile(c) is Some,
    ensures
        has_flag(Tile(char_tile(c).unwrap()), PLAYER) == is_player_char(c),
        has_flag(Tile(char_tile(c).unwrap()), CRATE) == is_crate_char(c),
        has_flag(Tile(char_tile(c).unwrap()), TARGET) == is_target_char(c),
        has_flag(Tile(char_tile(c).unwrap()), WALL) == (c == '#'),
{
    assert(1u8 & 32u8 == 0 && 1u8 & 8u8 == 0 && 1u8 & 16u8 == 0 && 1u8 & 4u8 == 0) by (bit_vector);
    assert(4u8 & 32u8 == 0 && 4u8 & 8u8 == 0 && 4u8 & 16u8 == 0 && 4u8 & 4u8 != 0) by (bit_vector);
    assert(8u8 & 32u8 == 0 && 8u8 & 8u8 != 0 && 8u8 & 16u8 == 0 && 8u8 & 4u8 == 0) by (bit_vector);
    assert(16u8 & 32u8 == 0 && 16u8 & 8u8 == 0 && 16u8 & 16u8 != 0 && 16u8 & 4u8 == 0) by (bit_vector);
    assert(32u8 & 32u8 != 0 && 32u8 & 8u8 == 0 && 32u8 & 16u8 == 0 && 32u8 & 4u8 == 0) by (bit_vector);
    assert(24u8 & 32u8 == 0 && 24u8 & 8u8 != 0 && 24u8 & 16u8 != 0 && 24u8 & 4u8 == 0) by (bit_vector);
    assert(48u8 & 32u8 != 0 && 48u8 & 8u8 == 0 && 48u8 & 16u8 != 0 && 48u8 & 4u8 == 0) by (bit_vector);
}

/// A character with `-` and `_` written as a space.
pub open spec fn as_space(c: char) -> char {
    if c == '-' || c == '_' {
        ' '
    } else {
        c
    }
}

/// Rows with every `-` and `_` written as a space.
pub open spec fn respaced(lines: Seq<Seq<char>>) -> Seq<Seq<char>> {
    lines.map_values(|l: Seq<char>| l.map_values(|c: char| as_space(c)))
}

/// `-`, `_` and a space all stand for an empty cell: each is read as the
/// same tile, the void, and none is a player, a crate or a target.
pub proof fn law_blank_characters_are_empty_cells(c: char)
    requires
        c == ' ' || c == '-' || c == '_',
    ensures
        char_tile(c) == Some(VOID),
        char_tile(c) == char_tile(' '),
        !is_player_char(c) && !is_crate_char(c) && !is_target_char(c),
{
}

/// Reading a character written with `-` or `_` as a space scans alike.
proof fn lemma_scan_cell_respaced(s: ScanState, c: char, x: int, y: int)
    ensures
        scan_cell(s, as_space(c), x, y) == scan_cell(s, c, x, y),
{
}

proof fn lemma_scan_line_respaced(s: ScanState, line: Seq<char>, y: int, n: nat)
    requires
        n <= line.len(),
    ensures
        scan_line(s, line.map_values(|c: char| as_space(c)), y, n) == scan_line(s, line, y, n),
    decreases n,
{
    if n > 0 {
        lemma_scan_line_respaced(s, line, y, (n - 1) as nat);
        let l2 = line.map_values(|c: char| as_space(c));
        lemma_scan_cell_respaced(scan_line(s, line, y, (n - 1) as nat), line[n - 1], n - 1, y);
        assert(l2[n - 1] == as_space(line[n - 1]));
    }
}

proof fn lemma_scan_lines_respaced(lines: Seq<Seq<char>>, n: nat)
    requires
        n <= lines.len(),
    ensures
        scan_lines(respaced(lines), n) == scan_lines(lines, n),
    decreases n,
{
    if n > 0 {
        lemma_scan_lines_respaced(lines, (n - 1) as nat);
        let r = respaced(lines);
        assert(r[n - 1] == lines[n - 1].map_values(|c: char| as_space(c)));
        lemma_scan_line_respaced(scan_lines(lines, (n - 1) as nat), lines[n - 1], n - 1, lines[n - 1].len());
    }
}

/// Rows that write an empty cell as `-` or `_` build the same level as rows
/// that write it as a space: the same error, and the same level where there
/// is none.
pub proof fn law_blanks_build_the_same_level(
    lines: Seq<Seq<char>>,
    size: Vector2,
    meta: Seq<(Seq<char>, Seq<char>)>,
    level: Level,
)
    ensures
        new_error(respaced(lines), size) == new_error(lines, size),
        level_matches(respaced(lines), size, meta, level) == level_matches(lines, size, meta, level),
{
    let r = respaced(lines);
    lemma_scan_lines_respaced(lines, lines.len());
    assert forall|p: Vector2| #[trigger] in_text(r, p) == in_text(lines, p) by {
        if 0 <= p.y < lines.len() {
            assert(r[p.y as int].len() == lines[p.y as int].len());
        }
    }
    assert forall|p: Vector2| in_text(lines, p) implies #[trigger] char_at(r, p) == as_space(char_at(lines, p)) by {
        assert(r[p.y as int] == lines[p.y as int].map_values(|c: char| as_space(c)));
    }
    assert(crate_cells(r) =~= crate_cells(lines)) by {
        assert forall|p: Vector2| crate_cells(r).contains(p) == crate_cells(lines).contains(p) by {
            if in_text(lines, p) {
                assert(char_at(r, p) == as_space(char_at(lines, p)));
            }
        }
    }
    assert(target_cells(r) =~= target_cells(lines)) by {
        assert forall|p: Vector2| target_cells(r).contains(p) == target_cells(lines).contains(p) by {
            if in_text(lines, p) {
                assert(char_at(r, p) == as_space(char_at(lines, p)));
            }
        }
    }
    assert forall|p: Vector2| #[trigger] raw_tile(r, p) == raw_tile(lines, p) by {
        if in_text(lines, p) {
            assert(char_at(r, p) == as_space(char_at(lines, p)));
        }
    }
    assert(raw_open(r, size) =~= raw_open(lines, size)) by {
        assert forall|p: Vector2| #[trigger] raw_open(r, size)(p) == raw_open(lines, size)(p) by {
            assert(raw_tile(r, p) == raw_tile(lines, p));
        }
    }
    assert(r.len() == lines.len());
}

/// Whether the rows fit a grid of the given size.
pub open spec fn fits(lines: Seq<Seq<char>>, size: Vector2) -> bool {
    &&& 0 <= size.x
    &&& 0 <= size.y
    &&& size.x * size.y <= i32::MAX
    &&& lines.len() <= size.y
    &&& forall|y: int| 0 <= y < lines.len() ==> #[trigger] lines[y].len() <= size.x
}

/// The text of metadata entries.
pub open spec fn meta_view(m: Seq<(String, String)>) -> Seq<(Seq<char>, Seq<char>)> {
    m.map_values(|e: (String, String)| (e.0@, e.1@))
}

/// The cells written as crates.
pub open spec fn crate_cells(lines: Seq<Seq<char>>) -> Set<Vector2> {
    char_cells(lines, |c: char| is_crate_char(c))
}

/// The cells written as targets.
pub open spec fn target_cells(lines: Seq<Seq<char>>) -> Set<Vector2> {
    char_cells(lines, |c: char| is_target_char(c))
}

/// The error that building a level from these rows gives, if any: the first
/// invalid character or second player in reading order, else a missing
/// player, else a different number of crates and targets.
pub open spec fn new_error(lines: Seq<Seq<char>>, size: Vector2) -> Option<Error> {
    let scan = scan_lines(lines, lines.len());
    if scan.error is Some {
        scan.error
    } else if scan.player is None {
        Some(Error::NoPlayer)
    } else if crate_cells(lines).len() != target_cells(lines).len() {
        Some(Error::MismatchBetweenCratesAndTargets)
    } else {
        None
    }
}

/// Whether `level` is the level that these rows describe: its cells carry the
/// flags of their characters, and the floor flag on every cell that the player
/// reaches without crossing a wall.
pub open spec fn level_matches(
    lines: Seq<Seq<char>>,
    size: Vector2,
    meta: Seq<(Seq<char>, Seq<char>)>,
    level: Level,
) -> bool {
    &&& level.wf()
    &&& level.size == size
    &&& meta_view(level.metadata@) == meta
    &&& Some(level.player_position) == scan_lines(lines, lines.len()).player
    &&& level.crates() == crate_cells(lines)
    &&& level.targets() == target_cells(lines)
    &&& crate_cells(lines).finite()
    &&& target_cells(lines).finite()
    &&& forall|p: Vector2| #[trigger]
        in_bounds_spec(size, p) ==> level.tile(p) == Tile(
            if reachable(raw_open(lines, size), level.player_position, p) {
                raw_tile(lines, p) | FLOOR
            } else {
                raw_tile(lines, p)
            },
        )
}

impl Level {
    /// Creates a level from the rows of its XSB map, on a grid of the given size.
    pub fn new(map: Vec<String>, size: Vector2, metadata: Vec<(String, String)>) -> (r: Result<
        Level,
        Error,
    >)
        requires
            fits(lines_view(map@), size),
        ensures
            match new_error(lines_view(map@), size) {
                Some(e) => r == Err::<Level, Error>(e),
                None => r matches Ok(level) && level_matches(
                    lines_view(map@),
                    size,
                    meta_view(metadata@),
                    level,
                ),
            },
    {
        let ghost lines = lines_view(map@);
        let w = size.x as usize;
        let h = size.y as usize;
        assert(w * h <= i32::MAX) by (nonlinear_arith)
            requires
                w == size.x,
                h == size.y,
                size.x * size.y <= i32::MAX,
        ;
        let n: usize = w * h;
        let mut data: Vec<Tile> = vec![Tile(VOID); n];
        let mut player: Option<Vector2> = None;
        let mut crate_positions: Vec<Vector2> = Vec::new();
        let mut target_positions: Vec<Vector2> = Vec::new();
        let mut y: usize = 0;
        proof {
            assert(lines.len() == map@.len());
            assert forall|p: Vector2| #[trigger] in_bounds_spec(size, p) implies data@[index_of(
                size,
                p,
            )] == Tile(
                if p.y < y {
                    raw_tile(lines, p)
                } else {
                    VOID
                },
            ) by {
                lemma_index_bounds(size, p);
            }
        }
        while y < map.len()
            invariant
                lines == lines_view(map@),
                fits(lines, size),
                w == size.x,
                h == size.y,
                n == w * h,
                data@.len() == n,
                y <= map@.len(),
                scan_lines(lines, y as nat) == (ScanState { player, error: None }),
                forall|p: Vector2| #[trigger]
                    in_bounds_spec(size, p) ==> data@[index_of(size, p)] == Tile(
                        if p.y < y {
                            raw_tile(lines, p)
                        } else {
                            VOID
                        },
                    ),
                crate_positions@.no_duplicates(),
                target_positions@.no_duplicates(),
                forall|q: Vector2| #[trigger]
                    crate_positions@.contains(q) <==> scanned(lines, q, 0, y as int) && is_crate_char(
                        char_at(lines, q),
                    ),
                forall|q: Vector2| #[trigger]
                    target_positions@.contains(q) <==> scanned(lines, q, 0, y as int)
                        && is_target_char(char_at(lines, q)),
                player matches Some(pp) ==> scanned(lines, pp, 0, y as int) && is_player_char(
                    char_at(lines, pp),
                ),
                forall|q: Vector2|
                    scanned(lines, q, 0, y as int) && #[trigger] is_player_char(char_at(lines, q))
                        ==> player == Some(q),
                forall|q: Vector2|
                    scanned(lines, q, 0, y as int) ==> #[trigger] char_tile(char_at(lines, q)) is Some,
            decreases map@.len() - y,
        {
            let line = chars_of(map[y].as_str());
            proof {
                assert(line@ == lines[y as int]);
                assert(lines[y as int].len() <= size.x);
            }
            let mut x: usize = 0;
            while x < line.len()
                invariant
                    lines == lines_view(map@),
                    fits(lines, size),
                    w == size.x,
                    h == size.y,
                    n == w * h,
                    data@.len() == n,
                    y < map@.len(),
                    line@ == lines[y as int],
                    x <= line@.len(),
                    scan_line(scan_lines(lines, y as nat), lines[y as int], y as int, x as nat) == (
                    ScanState { player, error: None }),
                    forall|p: Vector2| #[trigger]
                        in_bounds_spec(size, p) ==> data@[index_of(size, p)] == Tile(
                            if p.y < y || (p.y == y && p.x < x) {
                                raw_tile(lines, p)
                            } else {
                                VOID
                            },
                        ),
                    crate_positions@.no_duplicates(),
                    target_positions@.no_duplicates(),
                    forall|q: Vector2| #[trigger]
                        crate_positions@.contains(q) <==> scanned(lines, q, x as int, y as int)
                            && is_crate_char(char_at(lines, q)),
                    forall|q: Vector2| #[trigger]
                        target_positions@.contains(q) <==> scanned(lines, q, x as int, y as int)
                            && is_target_char(char_at(lines, q)),
                    player matches Some(pp) ==> scanned(lines, pp, x as int, y as int)
                        && is_player_char(char_at(lines, pp)),
                    forall|q: Vector2|
                        scanned(lines, q, x as int, y as int) && #[trigger] is_player_char(
                            char_at(lines, q),
                        ) ==> player == Some(q),
                    forall|q: Vector2|
                        scanned(lines, q, x as int, y as int) ==> #[trigger] char_tile(char_at(lines, q)) is Some,
                decreases line@.len() - x,
            {
                let c = line[x];
                let position = Vector2::new(x as i32, y as i32);
                let ghost before = scan_line(
                    scan_lines(lines, y as nat),
                    lines[y as int],
                    y as int,
                    x as nat,
                );
                proof {
                    assert(in_text(lines, position));
                    assert(char_at(lines, position) == c);
                    assert(!scanned(lines, position, x as int, y as int));
                    assert(scan_line(scan_lines(lines, y as nat), lines[y as int], y as int, (x + 1) as nat)
                        == scan_cell(before, c, x as int, y as int));
                }
                let tile = match char_tile_exec(c) {
                    Some(t) => t,
                    None => {
                        proof {
                            lemma_scan_line_keeps_error(
                                scan_lines(lines, y as nat),
                                lines[y as int],
                                y as int,
                                (x + 1) as nat,
                                lines[y as int].len(),
                            );
                            lemma_scan_lines_keeps_error(lines, (y + 1) as nat, lines.len());
                        }
                        return Err(Error::InvalidCharacter(c));
                    },
                };
                if c == '@' || c == '+' {
                    if player.is_some() {
                        proof {
                            lemma_scan_line_keeps_error(
                                scan_lines(lines, y as nat),
                                lines[y as int],
                                y as int,
                                (x + 1) as nat,
                                lines[y as int].len(),
                            );
                            lemma_scan_lines_keeps_error(lines, (y + 1) as nat, lines.len());
                        }
                        return Err(Error::MoreThanOnePlayer);
                    }
                    player = Some(position);
                }
                if c == '$' || c == '*' {
                    proof {
                        lemma_push_distinct(crate_positions@, position);
                    }
                    crate_positions.push(position);
                }
                if c == '.' || c == '*' || c == '+' {
                    proof {
                        lemma_push_distinct(target_positions@, position);
                    }
                    target_positions.push(position);
                }
                proof {
                    lemma_index_bounds(size, position);
                }
                data.set(y * w + x, tile);
                proof {
                    assert forall|p: Vector2| #[trigger]
                        in_bounds_spec(size, p) implies data@[index_of(size, p)] == Tile(
                            if p.y < y || (p.y == y && p.x < x + 1) {
                                raw_tile(lines, p)
                            } else {
                                VOID
                            },
                        ) by {
                        lemma_index_bounds(size, p);
                        if index_of(size, p) == index_of(size, position) {
                            lemma_index_injective(size, p, position);
                        }
                    }
                }
                x = x + 1;
            }
            proof {
                assert forall|p: Vector2| #[trigger]
                    in_bounds_spec(size, p) implies data@[index_of(size, p)] == Tile(
                        if p.y < y + 1 {
                            raw_tile(lines, p)
                        } else {
                            VOID
                        },
                    ) by {
                    if p.y == y && p.x >= x {
                        assert(!in_text(lines, p));
                    }
                }
                assert forall|q: Vector2|
                    scanned(lines, q, x as int, y as int) == scanned(lines, q, 0, (y + 1) as int) by {
                }
            }
            y = y + 1;
        }
        if player.is_none() {
            return Err(Error::NoPlayer);
        }
        let ghost cc = char_cells(lines, |c: char| is_crate_char(c));
        let ghost tc = char_cells(lines, |c: char| is_target_char(c));
        proof {
            assert(crate_positions@.to_set() =~= cc);
            assert(target_positions@.to_set() =~= tc);
            crate_positions@.unique_seq_to_set();
            target_positions@.unique_seq_to_set();
        }
        if crate_positions.len() != target_positions.len() {
            return Err(Error::MismatchBetweenCratesAndTargets);
        }
        let player_position = player.unwrap();
        let mut instance = Level {
            data,
            size,
            metadata,
            player_position,
            crate_positions,
            target_positions,
        };
        let ghost pre = instance;
        proof {
            assert(in_text(lines, player_position));
            assert(lines[player_position.y as int].len() <= size.x);
            assert(in_bounds_spec(size, player_position));
            assert forall|p: Vector2| #[trigger] in_bounds_spec(size, p) implies pre.tile(p) == Tile(
                raw_tile(lines, p),
            ) by {
                if p.y >= y {
                    assert(!in_text(lines, p));
                }
            }
            assert(pre.tile(player_position).0 & FLOOR != FLOOR) by {
                let c = char_at(lines, player_position);
                assert(in_text(lines, player_position));
                assert(c == '@' || c == '+');
                assert(pre.tile(player_position) == Tile(raw_tile(lines, player_position)));
                assert(raw_tile(lines, player_position) == 32u8 || raw_tile(lines, player_position) == 48u8);
                assert(32u8 & 2u8 != 2u8 && 48u8 & 2u8 != 2u8) by (bit_vector);
            }
            assert(open_fn(pre@, FLOOR | WALL, Set::empty()) =~= raw_open(lines, size)) by {
                assert forall|p: Vector2| #[trigger] open_fn(pre@, FLOOR | WALL, Set::empty())(p)
                    == raw_open(lines, size)(p) by {
                    if in_bounds_spec(size, p) {
                        assert(vtile(pre@, p) == pre.tile(p));
                    }
                }
            }
        }
        instance.flood_fill(&player_position, Tile(FLOOR), Tile(WALL));
        proof {
            let open = raw_open(lines, size);
            assert forall|p: Vector2| #[trigger] in_bounds_spec(size, p) implies instance.tile(p)
                == Tile(
                if reachable(open, player_position, p) {
                    raw_tile(lines, p) | FLOOR
                } else {
                    raw_tile(lines, p)
                },
            ) by {
                assert(pre.in_bounds_spec(p));
                assert(pre.tile(p) == Tile(raw_tile(lines, p)));
                assert(open_fn(pre@, FLOOR | WALL, Set::empty()) == open);
            }
            assert forall|i: int|
                0 <= i < instance.crate_positions@.len() implies instance.in_bounds_spec(
                #[trigger] instance.crate_positions@[i],
            ) by {
                let q = instance.crate_positions@[i];
                assert(instance.crate_positions@.contains(q));
                assert(lines[q.y as int].len() <= size.x);
            }
            assert forall|i: int|
                0 <= i < instance.target_positions@.len() implies instance.in_bounds_spec(
                #[trigger] instance.target_positions@[i],
            ) by {
                let q = instance.target_positions@[i];
                assert(instance.target_positions@.contains(q));
                assert(lines[q.y as int].len() <= size.x);
            }
            assert(instance.in_bounds_spec(player_position)) by {
                assert(lines[player_position.y as int].len() <= size.x);
            }
            assert forall|p: Vector2| #![trigger instance.tile(p)] instance.in_bounds_spec(p) implies {
                &&& has_flag(instance.tile(p), PLAYER) == (p == instance.player_position)
                &&& has_flag(instance.tile(p), CRATE) == instance.crate_positions@.contains(p)
                &&& has_flag(instance.tile(p), TARGET) == instance.target_positions@.contains(p)
                &&& has_flag(instance.tile(p), WALL) ==> !has_flag(instance.tile(p), PLAYER)
                    && !has_flag(instance.tile(p), CRATE)
            } by {
                let t = raw_tile(lines, p);
                if in_text(lines, p) {
                    assert(scanned(lines, p, 0, y as int));
                    lemma_char_tile_flags(char_at(lines, p));
                } else {
                    assert(1u8 & 32u8 == 0 && 1u8 & 8u8 == 0 && 1u8 & 16u8 == 0 && 1u8 & 4u8 == 0)
                        by (bit_vector);
                }
                lemma_insert_flag(t, FLOOR, PLAYER);
                lemma_insert_flag(t, FLOOR, CRATE);
                lemma_insert_flag(t, FLOOR, TARGET);
                lemma_insert_flag(t, FLOOR, WALL);
            }
        }
        Ok(instance)
    }
}

} // verus!
