use vstd::prelude::*;
use crate::vector::Vector2;
use crate::tile::{Tile, WALL, CRATE, TARGET, PLAYER};
use crate::level::{Level, LevelView, vtile};
use crate::text::{chars_of, string_of};

verus! {

/// The XSB character of a tile: `*` crate on target, `+` player on target,
/// `#` wall, `$` crate, `.` target, `@` player, a space otherwise.
pub open spec fn export_char(t: Tile) -> char {
    if t.0 & (CRATE | TARGET) == (CRATE | TARGET) {
        '*'
    } else if t.0 & (PLAYER | TARGET) == (PLAYER | TARGET) {
        '+'
    } else if t.0 & WALL == WALL {
        '#'
    } else if t.0 & CRATE == CRATE {
        '$'
    } else if t.0 & TARGET == TARGET {
        '.'
    } else if t.0 & PLAYER == PLAYER {
        '@'
    } else {
        ' '
    }
}

/// The characters of row `y` of a level.
pub open spec fn row_text(v: LevelView, y: int) -> Seq<char> {
    Seq::new(v.size.x as nat, |x: int| export_char(vtile(v, Vector2 { x: x as i32, y: y as i32 })))
}

/// The first `rows` rows of a level, each followed by a line break.
pub open spec fn map_text(v: LevelView, rows: int) -> Seq<char>
    decreases rows,
{
    if rows <= 0 {
        seq![]
    } else {
        map_text(v, rows - 1) + row_text(v, rows - 1).push('\n')
    }
}

/// The metadata lines `key: value`, one per entry, in order.
pub open spec fn metadata_text(m: Seq<(String, String)>) -> Seq<char>
    decreases m.len(),
{
    if m.len() == 0 {
        seq![]
    } else {
        metadata_text(m.drop_last()) + m.last().0@ + seq![':', ' '] + m.last().1@ + seq!['\n']
    }
}

/// The XSB character of a tile.
fn export_char_exec(t: Tile) -> (r: char)
    ensures
        r == export_char(t),
{
    if t.contains(Tile(CRATE | TARGET)) {
        '*'
    } else if t.contains(Tile(PLAYER | TARGET)) {
        '+'
    } else if t.contains(Tile(WALL)) {
        '#'
    } else if t.contains(Tile(CRATE)) {
        '$'
    } else if t.contains(Tile(TARGET)) {
        '.'
    } else if t.contains(Tile(PLAYER)) {
        '@'
    } else {
        ' '
    }
}

impl Level {
    /// The level in XSB format: one line per row of the grid.
    pub fn export_map(&self) -> (r: String)
        requires
            self.grid_wf(),
        ensures
            r@ == map_text(self@, self.size.y as int),
    {
        let w = self.size.x;
        let h = self.size.y;
        let mut out: Vec<char> = Vec::new();
        let mut y: i32 = 0;
        while y < h
            invariant
                self.grid_wf(),
                w == self.size.x,
                h == self.size.y,
                0 <= y <= h,
                out@ == map_text(self@, y as int),
            decreases h - y,
        {
            let ghost base = out@;
            let mut x: i32 = 0;
            while x < w
                invariant
                    self.grid_wf(),
                    w == self.size.x,
                    h == self.size.y,
                    0 <= y < h,
                    0 <= x <= w,
                    out@ == base + row_text(self@, y as int).take(x as int),
                decreases w - x,
            {
                let c = export_char_exec(self.at_unchecked(&Vector2::new(x, y)));
                proof {
                    assert(base + row_text(self@, y as int).take(x + 1) =~= (base + row_text(
                        self@,
                        y as int,
                    ).take(x as int)).push(c));
                }
                out.push(c);
                x = x + 1;
            }
            out.push('\n');
            proof {
                assert(row_text(self@, y as int).take(w as int) =~= row_text(self@, y as int));
                assert(map_text(self@, y + 1) =~= out@);
            }
            y = y + 1;
        }
        string_of(&out)
    }

    /// The metadata in XSB format: one `key: value` line per entry.
    pub fn export_metadata(&self) -> (r: String)
        ensures
            r@ == metadata_text(self.metadata@),
    {
        let mut out: Vec<char> = Vec::new();
        let mut i: usize = 0;
        while i < self.metadata.len()
            invariant
                i <= self.metadata@.len(),
                out@ == metadata_text(self.metadata@.take(i as int)),
            decreases self.metadata@.len() - i,
        {
            let key = chars_of(self.metadata[i].0.as_str());
            let value = chars_of(self.metadata[i].1.as_str());
            let ghost base = out@;
            let mut k: usize = 0;
            while k < key.len()
                invariant
                    k <= key@.len(),
                    out@ == base + key@.take(k as int),
                decreases key@.len() - k,
            {
                out.push(key[k]);
                k = k + 1;
                assert(out@ =~= base + key@.take(k as int));
            }
            out.push(':');
            out.push(' ');
            let ghost middle = out@;
            let mut k: usize = 0;
            while k < value.len()
                invariant
                    k <= value@.len(),
                    out@ == middle + value@.take(k as int),
                decreases value@.len() - k,
            {
                out.push(value[k]);
                k = k + 1;
                assert(out@ =~= middle + value@.take(k as int));
            }
            out.push('\n');
            proof {
                let m = self.metadata@.take(i + 1);
                assert(m.drop_last() =~= self.metadata@.take(i as int));
                assert(key@.take(key@.len() as int) =~= key@);
                assert(value@.take(value@.len() as int) =~= value@);
                assert(out@ =~= metadata_text(m));
            }
            i = i + 1;
        }
        assert(self.metadata@.take(self.metadata@.len() as int) =~= self.metadata@);
        string_of(&out)
    }
}

} // verus!
