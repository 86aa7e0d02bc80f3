use vstd::prelude::*;
use crate::vector::Vector2;
use crate::tile::{Tile, has_flag, FLOOR, WALL, CRATE, TARGET, PLAYER};
use crate::level::{Level, LevelView, in_bounds_spec, vtile};
use crate::export::{export_char, row_text, map_text};
use crate::parse::{
    char_tile, is_player_char, is_crate_char, is_target_char, scan_line, scan_lines, ScanState,
    in_text, char_at, raw_tile, crate_cells, target_cells, fits, new_error, level_matches,
};
use crate::load::{strip_cr, split_acc, load_lines, has_digit, load_step, load_run, load_spec, LoadState};
use crate::run_length::is_digit;
use crate::text::{is_white_space, trim, trim_start, trim_end, starts_with};

verus! {

/// Whether a tile shows in the XSB text as something other than a space: it
/// holds a wall, a crate, a target or the player.
pub open spec fn marked(t: Tile) -> bool {
    t.0 & (WALL | CRATE | TARGET | PLAYER) != 0
}

/// The rows of a level as `export_map` writes them.
pub open spec fn export_rows(v: LevelView) -> Seq<Seq<char>> {
    Seq::new(v.size.y as nat, |y: int| row_text(v, y))
}

/// What the character of a tile says of it, where the tile holds no two of
/// wall, crate and player, and no wall on a target.
proof fn lemma_export_char_facts(t: Tile)
    requires
        !(has_flag(t, WALL) && has_flag(t, TARGET)),
        !(has_flag(t, WALL) && has_flag(t, CRATE)),
        !(has_flag(t, WALL) && has_flag(t, PLAYER)),
        !(has_flag(t, CRATE) && has_flag(t, PLAYER)),
    ensures
        char_tile(export_char(t)) is Some,
        is_player_char(export_char(t)) == has_flag(t, PLAYER),
        is_crate_char(export_char(t)) == has_flag(t, CRATE),
        is_target_char(export_char(t)) == has_flag(t, TARGET),
        (char_tile(export_char(t))->0 & WALL != 0) == has_flag(t, WALL),
        export_char(t) != '\n' && export_char(t) != '|' && export_char(t) != '\r',
        export_char(t) != ':' && export_char(t) != ';',
        !is_digit(export_char(t)),
        is_white_space(export_char(t)) == !marked(t),
{
    let x = t.0;
    assert(((x & 24u8) == 24u8) == (x & 8u8 != 0 && x & 16u8 != 0) && ((x & 48u8) == 48u8) == (x & 16u8
        != 0 && x & 32u8 != 0) && ((x & 4u8) == 4u8) == (x & 4u8 != 0) && ((x & 8u8) == 8u8) == (x & 8u8
        != 0) && ((x & 16u8) == 16u8) == (x & 16u8 != 0) && ((x & 32u8) == 32u8) == (x & 32u8 != 0)
        && ((x & 60u8) != 0) == (x & 4u8 != 0 || x & 8u8 != 0 || x & 16u8 != 0 || x & 32u8 != 0))
        by (bit_vector);
    assert((8u8 | 16u8) == 24u8 && (32u8 | 16u8) == 48u8 && (4u8 | 8u8 | 16u8 | 32u8) == 60u8 && 24u8 & 4u8 == 0 && 48u8 & 4u8 == 0 && 4u8 & 4u8 != 0 && 8u8 & 4u8 == 0 && 16u8 & 4u8 == 0
        && 32u8 & 4u8 == 0 && 1u8 & 4u8 == 0) by (bit_vector);
    assert('*' as u32 == 42 && '+' as u32 == 43 && '#' as u32 == 35 && '$' as u32 == 36);
    assert('.' as u32 == 46 && '@' as u32 == 64 && ' ' as u32 == 32);
}

/// Removing carriage returns leaves a text without them unchanged.
proof fn lemma_strip_cr_none(s: Seq<char>)
    requires
        forall|i: int| 0 <= i < s.len() ==> s[i] != '\r',
    ensures
        strip_cr(s) == s,
    decreases s.len(),
{
    if s.len() > 0 {
        lemma_strip_cr_none(s.drop_last());
        assert(s.drop_last().push(s.last()) =~= s);
    }
}

/// The split of the first `n` characters depends on those characters only.
proof fn lemma_split_prefix(s: Seq<char>, u: Seq<char>, n: nat)
    requires
        n <= s.len(),
        n <= u.len(),
        s.take(n as int) == u.take(n as int),
    ensures
        split_acc(s, n) == split_acc(u, n),
    decreases n,
{
    if n > 0 {
        assert(s.take(n - 1) =~= s.take(n as int).take(n - 1));
        assert(u.take(n - 1) =~= u.take(n as int).take(n - 1));
        assert(s[n - 1] == s.take(n as int)[n - 1]);
        assert(u[n - 1] == u.take(n as int)[n - 1]);
        lemma_split_prefix(s, u, (n - 1) as nat);
    }
}

/// Reading the characters of a row without separators grows the piece being read.
proof fn lemma_split_row_chars(s: Seq<char>, a: nat, row: Seq<char>, done: Seq<Seq<char>>, j: nat)
    requires
        a + row.len() <= s.len(),
        j <= row.len(),
        s.subrange(a as int, (a + row.len()) as int) == row,
        forall|i: int| 0 <= i < row.len() ==> row[i] != '\n' && row[i] != '|',
        split_acc(s, a) == (done, Seq::<char>::empty()),
    ensures
        split_acc(s, a + j) == (done, row.take(j as int)),
    decreases j,
{
    if j > 0 {
        lemma_split_row_chars(s, a, row, done, (j - 1) as nat);
        assert(s[a + j - 1] == row[j - 1]);
        assert(row.take(j - 1).push(row[j - 1]) =~= row.take(j as int));
    }
}

/// A row followed by a line break becomes one more piece.
proof fn lemma_split_row(s: Seq<char>, a: nat, row: Seq<char>, done: Seq<Seq<char>>)
    requires
        a + row.len() < s.len(),
        s.subrange(a as int, (a + row.len()) as int) == row,
        s[(a + row.len()) as int] == '\n',
        forall|i: int| 0 <= i < row.len() ==> row[i] != '\n' && row[i] != '|',
        split_acc(s, a) == (done, Seq::<char>::empty()),
    ensures
        split_acc(s, a + row.len() + 1) == (done.push(row), Seq::<char>::empty()),
{
    lemma_split_row_chars(s, a, row, done, row.len());
    assert(row.take(row.len() as int) =~= row);
}

/// Trimming the start drops leading white space and keeps the rest.
proof fn lemma_trim_start_shape(s: Seq<char>)
    ensures
        trim_start(s).len() <= s.len(),
        forall|i: int|
            0 <= i < trim_start(s).len() ==> #[trigger] trim_start(s)[i] == s[i + (s.len() - trim_start(
                s,
            ).len())],
        trim_start(s).len() == 0 ==> forall|i: int| 0 <= i < s.len() ==> is_white_space(#[trigger] s[i]),
        trim_start(s).len() > 0 ==> !is_white_space(trim_start(s)[0]),
    decreases s.len(),
{
    if s.len() > 0 && is_white_space(s[0]) {
        lemma_trim_start_shape(s.drop_first());
        assert forall|i: int| 0 <= i < trim_start(s).len() implies #[trigger] trim_start(s)[i] == s[i + (
        s.len() - trim_start(s).len())] by {
            assert(s.drop_first()[i + (s.drop_first().len() - trim_start(s).len())] == s[i + (s.len()
                - trim_start(s).len())]);
        }
        if trim_start(s).len() == 0 {
            assert forall|i: int| 0 <= i < s.len() implies is_white_space(#[trigger] s[i]) by {
                if i > 0 {
                    assert(s[i] == s.drop_first()[i - 1]);
                }
            }
        }
    }
}

/// Trimming the end drops trailing white space and keeps the rest.
proof fn lemma_trim_end_shape(s: Seq<char>)
    ensures
        trim_end(s).len() <= s.len(),
        forall|i: int| 0 <= i < trim_end(s).len() ==> #[trigger] trim_end(s)[i] == s[i],
        trim_end(s).len() == 0 ==> forall|i: int| 0 <= i < s.len() ==> is_white_space(#[trigger] s[i]),
    decreases s.len(),
{
    if s.len() > 0 && is_white_space(s.last()) {
        lemma_trim_end_shape(s.drop_last());
        assert forall|i: int| 0 <= i < trim_end(s).len() implies #[trigger] trim_end(s)[i] == s[i] by {
            assert(s.drop_last()[i] == s[i]);
        }
        if trim_end(s).len() == 0 {
            assert forall|i: int| 0 <= i < s.len() implies is_white_space(#[trigger] s[i]) by {
                if i < s.len() - 1 {
                    assert(s[i] == s.drop_last()[i]);
                }
            }
        }
    }
}

/// Every character of a trimmed text is one of the text, and a text with a
/// character that is not white space keeps one.
proof fn lemma_trim_facts(s: Seq<char>)
    ensures
        forall|i: int| 0 <= i < trim(s).len() ==> exists|j: int| 0 <= j < s.len() && #[trigger] trim(s)[i] == s[j],
        (exists|j: int| 0 <= j < s.len() && !is_white_space(#[trigger] s[j])) ==> trim(s).len() > 0,
{
    let u = trim_start(s);
    lemma_trim_start_shape(s);
    lemma_trim_end_shape(u);
    assert forall|i: int| 0 <= i < trim(s).len() implies exists|j: int| 0 <= j < s.len() && #[trigger] trim(s)[i] == s[j] by {
        assert(trim(s)[i] == u[i]);
        assert(u[i] == s[i + (s.len() - u.len())]);
    }
    if trim(s).len() == 0 {
        if u.len() > 0 {
            assert(is_white_space(u[0]));
        }
    }
}

/// Whether each cell of a level holds no two of wall, crate and player, and
/// no wall on a target.
pub open spec fn cells_ok(v: LevelView) -> bool {
    forall|p: Vector2|
        #![trigger vtile(v, p)]
        in_bounds_spec(v.size, p) ==> {
            let t = vtile(v, p);
            &&& !(has_flag(t, WALL) && has_flag(t, TARGET))
            &&& !(has_flag(t, WALL) && has_flag(t, CRATE))
            &&& !(has_flag(t, WALL) && has_flag(t, PLAYER))
            &&& !(has_flag(t, CRATE) && has_flag(t, PLAYER))
        }
}

/// The characters of an exported row.
proof fn lemma_row_chars(v: LevelView, y: int)
    requires
        cells_ok(v),
        0 <= v.size.x,
        0 <= y < v.size.y,
    ensures
        row_text(v, y).len() == v.size.x,
        forall|i: int|
            0 <= i < row_text(v, y).len() ==> {
                let c = #[trigger] row_text(v, y)[i];
                &&& c != '\n' && c != '|' && c != '\r' && c != ':' && c != ';' && !is_digit(c)
                &&& char_tile(c) is Some
            },
{
    assert forall|i: int| 0 <= i < row_text(v, y).len() implies {
        let c = #[trigger] row_text(v, y)[i];
        &&& c != '\n' && c != '|' && c != '\r' && c != ':' && c != ';' && !is_digit(c)
        &&& char_tile(c) is Some
    } by {
        let p = Vector2 { x: i as i32, y: y as i32 };
        assert(in_bounds_spec(v.size, p));
        lemma_export_char_facts(vtile(v, p));
    }
}

/// No carriage return in an exported map.
proof fn lemma_map_text_no_cr(v: LevelView, k: int)
    requires
        cells_ok(v),
        0 <= v.size.x,
        k <= v.size.y,
    ensures
        forall|i: int| 0 <= i < map_text(v, k).len() ==> #[trigger] map_text(v, k)[i] != '\r',
    decreases k,
{
    if k > 0 {
        lemma_map_text_no_cr(v, k - 1);
        lemma_row_chars(v, k - 1);
        let a = map_text(v, k - 1);
        let r = row_text(v, k - 1).push('\n');
        assert forall|i: int| 0 <= i < map_text(v, k).len() implies #[trigger] map_text(v, k)[i] != '\r' by {
            if i < a.len() {
                assert(map_text(v, k)[i] == a[i]);
            } else {
                assert(map_text(v, k)[i] == r[i - a.len()]);
                if i - a.len() < row_text(v, k - 1).len() {
                    assert(r[i - a.len()] == row_text(v, k - 1)[i - a.len()]);
                }
            }
        }
    }
}

/// An exported map splits into its rows.
proof fn lemma_split_map(v: LevelView, k: nat)
    requires
        cells_ok(v),
        0 <= v.size.x,
        k <= v.size.y,
    ensures
        split_acc(map_text(v, k as int), map_text(v, k as int).len()) == (
            export_rows(v).take(k as int),
            Seq::<char>::empty(),
        ),
    decreases k,
{
    if k == 0 {
        assert(export_rows(v).take(0) =~= Seq::<Seq<char>>::empty());
    } else {
        let prev = map_text(v, k - 1);
        let row = row_text(v, k - 1);
        let whole = map_text(v, k as int);
        lemma_split_map(v, (k - 1) as nat);
        lemma_row_chars(v, k - 1);
        assert(whole == prev + row.push('\n'));
        assert(whole.take(prev.len() as int) =~= prev.take(prev.len() as int));
        lemma_split_prefix(whole, prev, prev.len());
        assert(whole.subrange(prev.len() as int, (prev.len() + row.len()) as int) =~= row);
        assert(whole[(prev.len() + row.len()) as int] == '\n');
        lemma_split_row(whole, prev.len(), row, export_rows(v).take(k - 1));
        assert(export_rows(v).take(k - 1).push(row) =~= export_rows(v).take(k as int));
    }
}

/// The lines of an exported map: its rows and two empty lines.
proof fn lemma_load_lines(v: LevelView)
    requires
        cells_ok(v),
        0 <= v.size.x,
        0 <= v.size.y,
    ensures
        load_lines(map_text(v, v.size.y as int)) == export_rows(v).push(Seq::<char>::empty()).push(
            Seq::<char>::empty(),
        ),
{
    let t = map_text(v, v.size.y as int);
    lemma_map_text_no_cr(v, v.size.y as int);
    lemma_strip_cr_none(t);
    lemma_split_map(v, v.size.y as nat);
    let s = t + seq!['\n'];
    assert(s.take(t.len() as int) =~= t.take(t.len() as int));
    lemma_split_prefix(s, t, t.len());
    assert(export_rows(v).take(v.size.y as int) =~= export_rows(v));
    assert(s[t.len() as int] == '\n');
}

/// The player, where it comes before column `j` of row `y` in reading order.
pub open spec fn player_before(pl: Vector2, y: int, j: int) -> Option<Vector2> {
    if pl.y < y || (pl.y == y && pl.x < j) {
        Some(pl)
    } else {
        None
    }
}

/// The conditions under which the XSB text of a level reads back as the same
/// level: at least one row, no wall on a target, as many crates as targets,
/// and in every row a cell that shows as more than a space.
pub open spec fn exportable(l: Level) -> bool {
    &&& l.wf()
    &&& l.size.y >= 1
    &&& forall|p: Vector2|
        #[trigger] in_bounds_spec(l.size, p) ==> !(has_flag(l.tile(p), WALL) && has_flag(l.tile(p), TARGET))
    &&& l.crate_positions@.len() == l.target_positions@.len()
    &&& forall|y: int| 0 <= y < l.size.y ==> #[trigger] row_shows(l, y)
}

/// Whether some cell of row `y` shows as more than a space.
pub open spec fn row_shows(l: Level, y: int) -> bool {
    exists|p: Vector2| p.y == y && in_bounds_spec(l.size, p) && #[trigger] marked(l.tile(p))
}

/// The cells of an exportable level hold no two of wall, crate and player.
proof fn lemma_exportable_cells(l: Level)
    requires
        exportable(l),
    ensures
        cells_ok(l@),
{
    assert forall|p: Vector2| #![trigger vtile(l@, p)] in_bounds_spec(l@.size, p) implies {
        let t = vtile(l@, p);
        &&& !(has_flag(t, WALL) && has_flag(t, TARGET))
        &&& !(has_flag(t, WALL) && has_flag(t, CRATE))
        &&& !(has_flag(t, WALL) && has_flag(t, PLAYER))
        &&& !(has_flag(t, CRATE) && has_flag(t, PLAYER))
    } by {
        assert(vtile(l@, p) == l.tile(p));
        assert(l.in_bounds_spec(p));
    }
}

/// Scanning the first `j` characters of row `y` finds the player exactly
/// where it stands before that column, and no error.
proof fn lemma_scan_row(l: Level, y: int, j: nat)
    requires
        exportable(l),
        0 <= y < l.size.y,
        j <= l.size.x,
    ensures
        scan_line(ScanState { player: player_before(l.player_position, y, 0), error: None }, export_rows(l@)[y], y, j)
            == (ScanState { player: player_before(l.player_position, y, j as int), error: None }),
    decreases j,
{
    if j > 0 {
        lemma_scan_row(l, y, (j - 1) as nat);
        lemma_exportable_cells(l);
        let p = Vector2 { x: (j - 1) as i32, y: y as i32 };
        assert(l.in_bounds_spec(p));
        assert(vtile(l@, p) == l.tile(p));
        lemma_export_char_facts(l.tile(p));
        assert(export_rows(l@)[y][j - 1] == export_char(l.tile(p)));
        assert(has_flag(l.tile(p), PLAYER) == (p == l.player_position));
    }
}

/// Scanning the first `k` rows finds the player where it stands in them, and
/// no error.
proof fn lemma_scan_rows(l: Level, k: nat)
    requires
        exportable(l),
        k <= l.size.y,
    ensures
        scan_lines(export_rows(l@), k) == (ScanState { player: player_before(l.player_position, k as int, 0), error: None }),
    decreases k,
{
    if k > 0 {
        lemma_scan_rows(l, (k - 1) as nat);
        lemma_scan_row(l, k - 1, l.size.x as nat);
        assert(export_rows(l@)[k - 1].len() == l.size.x);
    }
}

/// What the exported character of a cell of the grid says of it.
proof fn lemma_export_cell(l: Level, p: Vector2)
    requires
        exportable(l),
        in_bounds_spec(l.size, p),
    ensures
        in_text(export_rows(l@), p),
        is_crate_char(char_at(export_rows(l@), p)) == l.crate_positions@.contains(p),
        is_target_char(char_at(export_rows(l@), p)) == l.target_positions@.contains(p),
        (raw_tile(export_rows(l@), p) & WALL != 0) == has_flag(l.tile(p), WALL),
{
    let rows = export_rows(l@);
    lemma_exportable_cells(l);
    assert(rows[p.y as int].len() == l.size.x);
    assert(Vector2 { x: p.x as int as i32, y: p.y as int as i32 } == p);
    assert(char_at(rows, p) == export_char(vtile(l@, p)));
    assert(vtile(l@, p) == l.tile(p));
    assert(l.in_bounds_spec(p));
    lemma_export_char_facts(l.tile(p));
}

/// The cells written as crates and as targets in the exported rows are the
/// level's crates and targets, and the rows cover exactly the grid.
proof fn lemma_export_cells(l: Level)
    requires
        exportable(l),
    ensures
        crate_cells(export_rows(l@)) == l.crates(),
        target_cells(export_rows(l@)) == l.targets(),
        forall|p: Vector2| #[trigger] in_text(export_rows(l@), p) <==> in_bounds_spec(l.size, p),
{
    let rows = export_rows(l@);
    assert forall|p: Vector2| #[trigger] in_text(rows, p) <==> in_bounds_spec(l.size, p) by {
        if 0 <= p.y < rows.len() {
            assert(rows[p.y as int].len() == l.size.x);
        }
    }
    assert forall|p: Vector2| #[trigger] crate_cells(rows).contains(p) <==> l.crates().contains(p) by {
        if in_bounds_spec(l.size, p) {
            lemma_export_cell(l, p);
        } else if l.crate_positions@.contains(p) {
            let i = choose|i: int| 0 <= i < l.crate_positions@.len() && l.crate_positions@[i] == p;
            assert(l.in_bounds_spec(l.crate_positions@[i]));
        }
    }
    assert(crate_cells(rows) =~= l.crates());
    assert forall|p: Vector2| #[trigger] target_cells(rows).contains(p) <==> l.targets().contains(p) by {
        if in_bounds_spec(l.size, p) {
            lemma_export_cell(l, p);
        } else if l.target_positions@.contains(p) {
            let i = choose|i: int| 0 <= i < l.target_positions@.len() && l.target_positions@[i] == p;
            assert(l.in_bounds_spec(l.target_positions@[i]));
        }
    }
    assert(target_cells(rows) =~= l.targets());
}

/// A row of an exportable level holds a character that is not white space.
proof fn lemma_row_shows_char(l: Level, y: int)
    requires
        exportable(l),
        0 <= y < l.size.y,
    ensures
        exists|j: int| 0 <= j < export_rows(l@)[y].len() && !is_white_space(#[trigger] export_rows(l@)[y][j]),
{
    assert(row_shows(l, y));
    let p = choose|p: Vector2| p.y == y && in_bounds_spec(l.size, p) && #[trigger] marked(l.tile(p));
    lemma_export_cell(l, p);
    lemma_exportable_cells(l);
    assert(vtile(l@, p) == l.tile(p));
    lemma_export_char_facts(l.tile(p));
    assert(export_rows(l@)[y][p.x as int] == char_at(export_rows(l@), p));
}

/// Reading the rows of an exported map, one after another, collects them as
/// the map of one level.
proof fn lemma_load_rows(l: Level, k: nat)
    requires
        exportable(l),
        k <= l.size.y,
    ensures
        load_run(export_rows(l@).push(Seq::<char>::empty()).push(Seq::<char>::empty()), k) == (LoadState {
            blocks: seq![],
            map: export_rows(l@).take(k as int),
            width: if k == 0 {
                0
            } else {
                l.size.x as int
            },
            meta: seq![],
            in_comment: false,
            error: None,
            defined: true,
        }),
    decreases k,
{
    let rows = export_rows(l@);
    let lines = rows.push(Seq::<char>::empty()).push(Seq::<char>::empty());
    if k == 0 {
        assert(rows.take(0) =~= Seq::<Seq<char>>::empty());
    } else {
        lemma_load_rows(l, (k - 1) as nat);
        let row = rows[k - 1];
        assert(lines[k - 1] == row);
        lemma_exportable_cells(l);
        lemma_row_chars(l@, k - 1);
        lemma_row_shows_char(l, k - 1);
        lemma_trim_facts(row);
        let t = trim(row);
        assert(t.len() > 0);
        if starts_with(t, seq![';']) {
            assert(t.take(1)[0] == ';');
            assert(t[0] == ';');
        }
        if t.contains(':') {
            let i = choose|i: int| 0 <= i < t.len() && t[i] == ':';
            assert(t[i] == ':');
        }
        if has_digit(row) {
            let i = choose|i: int| 0 <= i < row.len() && is_digit(#[trigger] row[i]);
            assert(is_digit(row[i]));
        }
        assert(rows.take(k - 1).push(row) =~= rows.take(k as int));
    }
}

/// The map that `export_map` writes reads back, through the reader of
/// `load_from_memory`, as one level on the same grid, with the player, the
/// crates, the targets and the walls where the level has them. This holds of
/// a well-formed level with at least one row, no wall on a target, as many
/// crates as targets, and in every row a cell with a wall, a crate, a target
/// or the player.
pub proof fn law_export_then_load(l: Level, back: Level)
    requires
        exportable(l),
    ensures
        ({
            let fin = load_spec(map_text(l@, l.size.y as int));
            &&& fin.defined
            &&& fin.error is None
            &&& fin.blocks.len() == 1
            &&& fin.blocks[0].1 == l.size
            &&& level_matches(fin.blocks[0].0, fin.blocks[0].1, fin.blocks[0].2, back) ==> {
                &&& back.size == l.size
                &&& back.player_position == l.player_position
                &&& back.crates() == l.crates()
                &&& back.targets() == l.targets()
                &&& forall|p: Vector2|
                    #[trigger] in_bounds_spec(l.size, p) ==> has_flag(back.tile(p), WALL) == has_flag(l.tile(p), WALL)
            }
        }),
{
    let v = l@;
    let h = l.size.y as nat;
    let rows = export_rows(v);
    let lines = rows.push(Seq::<char>::empty()).push(Seq::<char>::empty());
    lemma_exportable_cells(l);
    lemma_load_lines(v);
    assert(load_lines(map_text(v, l.size.y as int)) == lines);
    lemma_load_rows(l, h);
    assert(rows.take(h as int) =~= rows);
    // the rows fit the grid and describe a level without error
    assert forall|y: int| 0 <= y < rows.len() implies #[trigger] rows[y].len() <= l.size.x by {
        assert(rows[y].len() == l.size.x);
    }
    assert(fits(rows, l.size));
    lemma_scan_rows(l, h);
    assert(player_before(l.player_position, h as int, 0) == Some(l.player_position));
    lemma_export_cells(l);
    l.crate_positions@.unique_seq_to_set();
    l.target_positions@.unique_seq_to_set();
    assert(new_error(rows, l.size) is None);
    let size = Vector2 { x: l.size.x as int as i32, y: rows.len() as i32 };
    assert(size == l.size);
    let s_h = load_run(lines, h);
    let s_1 = load_step(s_h, lines[h as int]);
    assert(lines[h as int] == Seq::<char>::empty());
    assert(trim(Seq::<char>::empty()) =~= Seq::<char>::empty());
    assert(s_1.blocks == seq![(rows, l.size, Seq::<(Seq<char>, Seq<char>)>::empty())]);
    assert(load_run(lines, h + 1) == s_1);
    assert(lines[h + 1int] == Seq::<char>::empty());
    assert(load_run(lines, h + 2) == load_step(s_1, lines[h + 1int]));
    assert(lines.len() == h + 2);
    let fin = load_spec(map_text(v, l.size.y as int));
    assert(fin == load_run(lines, h + 2));
    if level_matches(fin.blocks[0].0, fin.blocks[0].1, fin.blocks[0].2, back) {
        assert forall|p: Vector2| #[trigger] in_bounds_spec(l.size, p) implies has_flag(back.tile(p), WALL)
            == has_flag(l.tile(p), WALL) by {
            lemma_export_cell(l, p);
            crate::tile::lemma_insert_flag(raw_tile(rows, p), FLOOR, WALL);
        }
    }
}

/// The rows of a map, each followed by a line break.
pub open spec fn rows_text(rows: Seq<Seq<char>>) -> Seq<char>
    decreases rows.len(),
{
    if rows.len() == 0 {
        seq![]
    } else {
        rows_text(rows.drop_last()) + rows.last().push('\n')
    }
}

/// Whether `c` is one of the characters `export_map` writes.
pub open spec fn written_char(c: char) -> bool {
    c == ' ' || c == '#' || c == '$' || c == '.' || c == '@' || c == '*' || c == '+'
}

/// A character that `export_map` writes comes back from the flags it stands
/// for, whether the floor flag is added or not.
proof fn lemma_char_back(c: char, floor: bool)
    requires
        written_char(c),
    ensures
        export_char(Tile(if floor { char_tile(c)->0 | FLOOR } else { char_tile(c)->0 })) == c,
{
    assert((1u8 | 2u8) == 3u8 && (4u8 | 2u8) == 6u8 && (8u8 | 2u8) == 10u8 && (16u8 | 2u8) == 18u8 && (32u8 | 2u8)
        == 34u8 && (24u8 | 2u8) == 26u8 && (48u8 | 2u8) == 50u8 && (8u8 | 16u8) == 24u8 && (32u8 | 16u8) == 48u8)
        by (bit_vector);
    assert(1u8 & 24u8 == 0 && 3u8 & 24u8 == 0 && 4u8 & 24u8 == 0 && 6u8 & 24u8 == 0 && 8u8 & 24u8 == 8
        && 10u8 & 24u8 == 8 && 16u8 & 24u8 == 16 && 18u8 & 24u8 == 16 && 32u8 & 24u8 == 0 && 34u8 & 24u8 == 0
        && 24u8 & 24u8 == 24 && 26u8 & 24u8 == 24 && 48u8 & 24u8 == 16 && 50u8 & 24u8 == 16) by (bit_vector);
    assert(1u8 & 48u8 == 0 && 3u8 & 48u8 == 0 && 4u8 & 48u8 == 0 && 6u8 & 48u8 == 0 && 8u8 & 48u8 == 0
        && 10u8 & 48u8 == 0 && 16u8 & 48u8 == 16 && 18u8 & 48u8 == 16 && 32u8 & 48u8 == 32 && 34u8 & 48u8 == 32
        && 48u8 & 48u8 == 48 && 50u8 & 48u8 == 48) by (bit_vector);
    assert(1u8 & 4u8 == 0 && 3u8 & 4u8 == 0 && 4u8 & 4u8 == 4 && 6u8 & 4u8 == 4 && 8u8 & 4u8 == 0 && 10u8 & 4u8
        == 0 && 16u8 & 4u8 == 0 && 18u8 & 4u8 == 0 && 32u8 & 4u8 == 0 && 34u8 & 4u8 == 0 && 8u8 & 8u8 == 8
        && 10u8 & 8u8 == 8 && 16u8 & 8u8 == 0 && 18u8 & 8u8 == 0 && 32u8 & 8u8 == 0 && 34u8 & 8u8 == 0 && 1u8
        & 8u8 == 0 && 3u8 & 8u8 == 0 && 16u8 & 16u8 == 16 && 18u8 & 16u8 == 16 && 32u8 & 16u8 == 0 && 34u8
        & 16u8 == 0 && 1u8 & 16u8 == 0 && 3u8 & 16u8 == 0 && 32u8 & 32u8 == 32 && 34u8 & 32u8 == 32 && 1u8
        & 32u8 == 0 && 3u8 & 32u8 == 0) by (bit_vector);
}

/// The first `k` rows written by `export_map` for a level built from rows of
/// written characters are those rows.
proof fn lemma_rows_back(rows: Seq<Seq<char>>, size: Vector2, meta: Seq<(Seq<char>, Seq<char>)>, level: Level, k: int)
    requires
        rows.len() == size.y,
        forall|y: int| 0 <= y < rows.len() ==> (#[trigger] rows[y]).len() == size.x,
        forall|y: int, x: int| 0 <= y < rows.len() && 0 <= x < rows[y].len() ==> written_char(#[trigger] rows[y][x]),
        level_matches(rows, size, meta, level),
        0 <= k <= size.y,
    ensures
        map_text(level@, k) == rows_text(rows.take(k)),
    decreases k,
{
    if k > 0 {
        lemma_rows_back(rows, size, meta, level, k - 1);
        let y = k - 1;
        assert forall|x: int| 0 <= x < size.x implies #[trigger] row_text(level@, y)[x] == rows[y][x] by {
            let p = Vector2 { x: x as i32, y: y as i32 };
            assert(in_bounds_spec(size, p));
            assert(vtile(level@, p) == level.tile(p));
            assert(in_text(rows, p));
            assert(char_at(rows, p) == rows[y][x]);
            assert(raw_tile(rows, p) == char_tile(rows[y][x])->0);
            lemma_char_back(rows[y][x], true);
            lemma_char_back(rows[y][x], false);
        }
        assert(row_text(level@, y) =~= rows[y]);
        assert(rows.take(k).drop_last() =~= rows.take(k - 1));
        assert(rows.take(k).last() == rows[y]);
    }
}

/// A map of rows of equal width, each made of the characters `export_map`
/// writes, built into a level by `Level::new` and written back by
/// `export_map`, gives its rows back, each followed by a line break.
pub proof fn law_load_then_export(
    rows: Seq<Seq<char>>,
    size: Vector2,
    meta: Seq<(Seq<char>, Seq<char>)>,
    level: Level,
)
    requires
        rows.len() == size.y,
        forall|y: int| 0 <= y < rows.len() ==> (#[trigger] rows[y]).len() == size.x,
        forall|y: int, x: int| 0 <= y < rows.len() && 0 <= x < rows[y].len() ==> written_char(#[trigger] rows[y][x]),
        level_matches(rows, size, meta, level),
    ensures
        map_text(level@, size.y as int) == rows_text(rows),
{
    lemma_rows_back(rows, size, meta, level, size.y as int);
    assert(rows.take(size.y as int) =~= rows);
}

} // verus!
