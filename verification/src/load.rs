use vstd::prelude::*;
use crate::vector::Vector2;
use crate::level::{Level, Error};
use crate::parse::{lines_view, meta_view, new_error, level_matches, fits};
use crate::run_length::{is_digit, rle_decode, rle_decode_terminates, rle_decode_spec, rle_decode_within, decode_with_fuel};
use crate::text::{
    chars_of, string_of, trim, trim_exec, starts_with, starts_with_exec, sub_chars, chars_eq,
    find_char, first_index, lowercase, to_lowercase,
};

verus! {

/// `s` without carriage returns.
pub open spec fn strip_cr(s: Seq<char>) -> Seq<char>
    decreases s.len(),
{
    if s.len() == 0 {
        seq![]
    } else {
        strip_cr(s.drop_last()) + if s.last() == '\r' {
            seq![]
        } else {
            seq![s.last()]
        }
    }
}

/// The pieces of the first `n` characters of `s` between the separators `\n`
/// and `|`: the finished pieces and the piece being read.
pub open spec fn split_acc(s: Seq<char>, n: nat) -> (Seq<Seq<char>>, Seq<char>)
    decreases n,
{
    if n == 0 {
        (seq![], seq![])
    } else {
        let (done, cur) = split_acc(s, (n - 1) as nat);
        let c = s[n - 1];
        if c == '\n' || c == '|' {
            (done.push(cur), seq![])
        } else {
            (done, cur.push(c))
        }
    }
}

/// The pieces of `s` between the separators `\n` and `|`.
pub open spec fn split_pieces(s: Seq<char>) -> Seq<Seq<char>> {
    let (done, cur) = split_acc(s, s.len());
    done.push(cur)
}

/// The lines of a level file: carriage returns removed, a final `\n` added,
/// split at `\n` and `|`.
pub open spec fn load_lines(buffer: Seq<char>) -> Seq<Seq<char>> {
    split_pieces(strip_cr(buffer) + seq!['\n'])
}

/// Whether `s` holds a decimal digit.
pub open spec fn has_digit(s: Seq<char>) -> bool {
    exists|i: int| 0 <= i < s.len() && is_digit(#[trigger] s[i])
}

/// `comment-end`.
pub open spec fn comment_end_dash() -> Seq<char> {
    seq!['c', 'o', 'm', 'm', 'e', 'n', 't', '-', 'e', 'n', 'd']
}

/// `comment_end`.
pub open spec fn comment_end_underscore() -> Seq<char> {
    seq!['c', 'o', 'm', 'm', 'e', 'n', 't', '_', 'e', 'n', 'd']
}

/// `comment`.
pub open spec fn comment_word() -> Seq<char> {
    seq!['c', 'o', 'm', 'm', 'e', 'n', 't']
}

/// Whether no key occurs twice.
pub open spec fn keys_unique(m: Seq<(Seq<char>, Seq<char>)>) -> bool {
    forall|i: int, j: int|
        #![trigger m[i], m[j]]
        0 <= i < m.len() && 0 <= j < m.len() && i != j ==> m[i].0 != m[j].0
}

/// The metadata with `key` set to `value`: an entry with that key is replaced
/// in place, else a new entry is added at the end.
pub open spec fn meta_insert(
    m: Seq<(Seq<char>, Seq<char>)>,
    key: Seq<char>,
    value: Seq<char>,
) -> Seq<(Seq<char>, Seq<char>)> {
    if exists|i: int| 0 <= i < m.len() && #[trigger] m[i].0 == key {
        let i = choose|i: int| 0 <= i < m.len() && #[trigger] m[i].0 == key;
        m.update(i, (key, value))
    } else {
        m.push((key, value))
    }
}

/// The state of the reader of a level file.
pub struct LoadState {
    /// The levels read so far: rows, size and metadata of each.
    pub blocks: Seq<(Seq<Seq<char>>, Vector2, Seq<(Seq<char>, Seq<char>)>)>,
    /// The rows of the level being read.
    pub map: Seq<Seq<char>>,
    /// The width of the level being read.
    pub width: int,
    /// The metadata of the level being read.
    pub meta: Seq<(Seq<char>, Seq<char>)>,
    /// Whether a comment block is open.
    pub in_comment: bool,
    /// The error that stopped the reading, if any.
    pub error: Option<Error>,
    /// False once a level is too large for its grid or a row's run-length
    /// decoding never ends.
    pub defined: bool,
}

/// The state before the first line.
pub open spec fn load_init() -> LoadState {
    LoadState {
        blocks: seq![],
        map: seq![],
        width: 0,
        meta: seq![],
        in_comment: false,
        error: None,
        defined: true,
    }
}

/// The reader after one more line.
pub open spec fn load_step(s: LoadState, line: Seq<char>) -> LoadState {
    if s.error is Some || !s.defined {
        s
    } else {
        let t = trim(line);
        if s.in_comment {
            let l = lowercase(t);
            if starts_with(l, comment_end_dash()) || starts_with(l, comment_end_underscore()) {
                LoadState { in_comment: false, ..s }
            } else {
                s
            }
        } else if starts_with(t, seq![';']) {
            s
        } else if t.len() == 0 {
            if s.map.len() == 0 {
                s
            } else {
                let size = Vector2 { x: s.width as i32, y: s.map.len() as i32 };
                if !(s.width <= i32::MAX && s.map.len() <= i32::MAX && fits(s.map, size)) {
                    LoadState { defined: false, ..s }
                } else if new_error(s.map, size) is Some {
                    LoadState { error: new_error(s.map, size), ..s }
                } else {
                    LoadState {
                        blocks: s.blocks.push((s.map, size, s.meta)),
                        map: seq![],
                        width: 0,
                        meta: seq![],
                        ..s
                    }
                }
            }
        } else if t.contains(':') {
            let i = first_index(t, ':');
            let key = lowercase(trim(t.take(i)));
            if key == comment_word() {
                LoadState { in_comment: true, ..s }
            } else {
                LoadState { meta: meta_insert(s.meta, key, trim(t.skip(i + 1))), ..s }
            }
        } else if has_digit(line) && !rle_decode_terminates(line) {
            LoadState { defined: false, ..s }
        } else {
            let row = if has_digit(line) {
                rle_decode_spec(line)
            } else {
                line
            };
            LoadState {
                map: s.map.push(row),
                width: if row.len() > s.width {
                    row.len() as int
                } else {
                    s.width
                },
                ..s
            }
        }
    }
}

/// The reader after the first `n` lines.
pub open spec fn load_run(lines: Seq<Seq<char>>, n: nat) -> LoadState
    decreases n,
{
    if n == 0 {
        load_init()
    } else {
        load_step(load_run(lines, (n - 1) as nat), lines[n - 1])
    }
}

/// The reader at the end of a level file.
pub open spec fn load_spec(buffer: Seq<char>) -> LoadState {
    load_run(load_lines(buffer), load_lines(buffer).len())
}

/// Whether every line of a level file that holds a digit decodes within
/// `n` passes.
pub open spec fn rows_decode_within(buffer: Seq<char>, n: nat) -> bool {
    forall|i: int|
        0 <= i < load_lines(buffer).len() && has_digit(#[trigger] load_lines(buffer)[i]) ==> decode_with_fuel(
            load_lines(buffer)[i],
            n,
        ) is Some
}

/// The reader never becomes defined again, nor loses an error.
pub proof fn lemma_load_run_sticky(lines: Seq<Seq<char>>, m: nat, n: nat)
    requires
        m <= n,
    ensures
        !load_run(lines, m).defined ==> !load_run(lines, n).defined,
        load_run(lines, m).defined && load_run(lines, m).error is Some
            ==> load_run(lines, n) == load_run(lines, m),
    decreases n,
{
    if n > m {
        lemma_load_run_sticky(lines, m, (n - 1) as nat);
    }
}

/// The text of a list of rows.
pub open spec fn rows_view(m: Seq<Vec<char>>) -> Seq<Seq<char>> {
    m.map_values(|v: Vec<char>| v@)
}

/// The text of a list of metadata entries.
pub open spec fn meta_rows_view(m: Seq<(Vec<char>, Vec<char>)>) -> Seq<(Seq<char>, Seq<char>)> {
    m.map_values(|e: (Vec<char>, Vec<char>)| (e.0@, e.1@))
}

/// A copy of the characters of `v`.
fn copy_chars(v: &Vec<char>) -> (r: Vec<char>)
    ensures
        r@ == v@,
{
    proof {
        assert(v@.subrange(0, v@.len() as int) == v@);
    }
    sub_chars(v, 0, v.len())
}

/// The rows as strings.
fn rows_to_strings(m: &Vec<Vec<char>>) -> (r: Vec<String>)
    ensures
        lines_view(r@) == rows_view(m@),
{
    let mut r: Vec<String> = Vec::new();
    let mut i: usize = 0;
    while i < m.len()
        invariant
            i <= m@.len(),
            r@.len() == i,
            lines_view(r@) == rows_view(m@).take(i as int),
        decreases m@.len() - i,
    {
        let s = string_of(&m[i]);
        let ghost before = r@;
        r.push(s);
        proof {
            assert forall|k: int| 0 <= k < i + 1 implies #[trigger] lines_view(r@)[k] == rows_view(m@).take(i + 1)[k] by {
                if k < i {
                    assert(r@[k] == before[k]);
                    assert(lines_view(before)[k] == rows_view(m@).take(i as int)[k]);
                }
            }
            assert(lines_view(r@) =~= rows_view(m@).take(i + 1));
        }
        i = i + 1;
    }
    proof {
        assert(rows_view(m@).take(m@.len() as int) =~= rows_view(m@));
    }
    r
}

/// The metadata entries as strings.
fn meta_to_strings(m: &Vec<(Vec<char>, Vec<char>)>) -> (r: Vec<(String, String)>)
    ensures
        meta_view(r@) == meta_rows_view(m@),
{
    let mut r: Vec<(String, String)> = Vec::new();
    let mut i: usize = 0;
    while i < m.len()
        invariant
            i <= m@.len(),
            r@.len() == i,
            meta_view(r@) == meta_rows_view(m@).take(i as int),
        decreases m@.len() - i,
    {
        let k = string_of(&m[i].0);
        let v = string_of(&m[i].1);
        let ghost before = r@;
        r.push((k, v));
        proof {
            assert forall|j: int| 0 <= j < i + 1 implies #[trigger] meta_view(r@)[j] == meta_rows_view(m@).take(i + 1)[j] by {
                if j < i {
                    assert(r@[j] == before[j]);
                    assert(meta_view(before)[j] == meta_rows_view(m@).take(i as int)[j]);
                }
            }
            assert(meta_view(r@) =~= meta_rows_view(m@).take(i + 1));
        }
        i = i + 1;
    }
    proof {
        assert(meta_rows_view(m@).take(m@.len() as int) =~= meta_rows_view(m@));
    }
    r
}

/// `v` without carriage returns, with a `\n` added at the end.
fn strip_cr_exec(v: &Vec<char>) -> (r: Vec<char>)
    ensures
        r@ == strip_cr(v@) + seq!['\n'],
{
    let mut r: Vec<char> = Vec::new();
    let mut i: usize = 0;
    while i < v.len()
        invariant
            i <= v@.len(),
            r@ == strip_cr(v@.take(i as int)),
        decreases v@.len() - i,
    {
        proof {
            assert(v@.take(i + 1).drop_last() == v@.take(i as int));
        }
        if v[i] != '\r' {
            r.push(v[i]);
        }
        i = i + 1;
    }
    proof {
        assert(v@.take(v@.len() as int) == v@);
    }
    r.push('\n');
    r
}

/// The pieces of `v` between the separators `\n` and `|`.
fn split_pieces_exec(v: &Vec<char>) -> (r: Vec<Vec<char>>)
    ensures
        rows_view(r@) == split_pieces(v@),
{
    let mut done: Vec<Vec<char>> = Vec::new();
    let mut cur: Vec<char> = Vec::new();
    let mut i: usize = 0;
    while i < v.len()
        invariant
            i <= v@.len(),
            (rows_view(done@), cur@) == split_acc(v@, i as nat),
        decreases v@.len() - i,
    {
        let c = v[i];
        if c == '\n' || c == '|' {
            let piece = cur;
            done.push(piece);
            cur = Vec::new();
            proof {
                assert(rows_view(done@) =~= split_acc(v@, i as nat).0.push(split_acc(v@, i as nat).1));
            }
        } else {
            cur.push(c);
        }
        i = i + 1;
    }
    let last = cur;
    done.push(last);
    proof {
        assert(rows_view(done@) =~= split_pieces(v@));
    }
    done
}

/// Whether `v` holds a decimal digit.
fn has_digit_exec(v: &Vec<char>) -> (r: bool)
    ensures
        r == has_digit(v@),
{
    let mut i: usize = 0;
    while i < v.len()
        invariant
            i <= v@.len(),
            forall|k: int| 0 <= k < i ==> !is_digit(#[trigger] v@[k]),
        decreases v@.len() - i,
    {
        let code = v[i] as u32;
        if 48 <= code && code <= 57 {
            assert(is_digit(v@[i as int]));
            return true;
        }
        i = i + 1;
    }
    false
}

/// Sets `key` to `value` in the metadata.
fn meta_insert_exec(m: &mut Vec<(Vec<char>, Vec<char>)>, key: Vec<char>, value: Vec<char>)
    requires
        keys_unique(meta_rows_view(old(m)@)),
    ensures
        meta_rows_view(final(m)@) == meta_insert(meta_rows_view(old(m)@), key@, value@),
        keys_unique(meta_rows_view(final(m)@)),
{
    let ghost mv = meta_rows_view(m@);
    let mut i: usize = 0;
    while i < m.len()
        invariant
            i <= m@.len(),
            mv == meta_rows_view(m@),
            mv == meta_rows_view(old(m)@),
            keys_unique(mv),
            forall|k: int| 0 <= k < i ==> mv[k].0 != key@,
        decreases m@.len() - i,
    {
        if chars_eq(&m[i].0, &key) {
            let ghost kv = key@;
            let ghost vv = value@;
            proof {
                assert(mv[i as int].0 == kv);
                let j = choose|j: int| 0 <= j < mv.len() && #[trigger] mv[j].0 == kv;
                assert(0 <= j < mv.len() && mv[j].0 == kv);
                if j != i {
                    assert(mv[i as int].0 != mv[j].0);
                }
                assert(j == i);
                assert(meta_insert(mv, kv, vv) == mv.update(i as int, (kv, vv)));
            }
            m.set(i, (key, value));
            proof {
                assert(meta_rows_view(m@) =~= mv.update(i as int, (kv, vv)));
            }
            return;
        }
        i = i + 1;
    }
    m.push((key, value));
    proof {
        assert(meta_rows_view(m@) =~= mv.push((key@, value@)));
        assert(!exists|j: int| 0 <= j < mv.len() && #[trigger] mv[j].0 == key@);
    }
}

impl Level {
    /// Reads every level of an XSB text, decoding run-length encoded rows
    /// with at most `passes` passes each where `passes` is given: `None`
    /// where a level is too large for its grid, or a row's decoding does not
    /// end within the passes.
    fn load_impl(buffer: &str, passes: Option<usize>) -> (r: Option<Result<Vec<Level>, Error>>)
        requires
            passes is None ==> load_spec(buffer@).defined,
        ensures
            passes is None ==> r is Some,
            r is None ==> !load_spec(buffer@).defined || (passes matches Some(n) && !rows_decode_within(buffer@, n as nat)),
            r matches Some(res) ==> load_spec(buffer@).defined && ({
                let fin = load_spec(buffer@);
                &&& fin.error matches Some(e) ==> res == Err::<Vec<Level>, Error>(e)
                &&& fin.error is None ==> (res matches Ok(levels) && levels@.len() == fin.blocks.len()
                    && forall|k: int|
                    0 <= k < levels@.len() ==> level_matches(
                        fin.blocks[k].0,
                        fin.blocks[k].1,
                        fin.blocks[k].2,
                        #[trigger] levels@[k],
                    ))
            }),
    {
        let chars = chars_of(buffer);
        let cleaned = strip_cr_exec(&chars);
        let pieces = split_pieces_exec(&cleaned);
        let ghost lines = load_lines(buffer@);
        proof {
            assert(rows_view(pieces@) == lines);
            reveal_strlit("comment-end");
            reveal_strlit("comment_end");
            reveal_strlit("comment");
        }
        let comment_end_a = chars_of("comment-end");
        let comment_end_b = chars_of("comment_end");
        let comment = chars_of("comment");
        proof {
            assert(comment_end_a@ == comment_end_dash());
            assert(comment_end_b@ == comment_end_underscore());
            assert(comment@ == comment_word());
        }
        let mut levels: Vec<Level> = Vec::new();
        let mut map_data: Vec<Vec<char>> = Vec::new();
        let mut width: usize = 0;
        let mut metadata: Vec<(Vec<char>, Vec<char>)> = Vec::new();
        let mut in_comment_block = false;
        let mut i: usize = 0;
        proof {
            assert(rows_view(map_data@) =~= Seq::<Seq<char>>::empty());
            assert(meta_rows_view(metadata@) =~= Seq::<(Seq<char>, Seq<char>)>::empty());
        }
        while i < pieces.len()
            invariant
                rows_view(pieces@) == lines,
                lines == load_lines(buffer@),
                passes is None ==> load_run(lines, lines.len()).defined,
                comment_end_a@ == comment_end_dash(),
                comment_end_b@ == comment_end_underscore(),
                comment@ == comment_word(),
                i <= pieces@.len(),
                ({
                    let st = load_run(lines, i as nat);
                    &&& st.defined
                    &&& st.error is None
                    &&& rows_view(map_data@) == st.map
                    &&& width == st.width
                    &&& forall|y: int| 0 <= y < st.map.len() ==> #[trigger] st.map[y].len() <= st.width
                    &&& meta_rows_view(metadata@) == st.meta
                    &&& keys_unique(st.meta)
                    &&& in_comment_block == st.in_comment
                    &&& levels@.len() == st.blocks.len()
                    &&& forall|k: int|
                        0 <= k < levels@.len() ==> level_matches(
                            st.blocks[k].0,
                            st.blocks[k].1,
                            st.blocks[k].2,
                            #[trigger] levels@[k],
                        )
                }),
            decreases pieces@.len() - i,
        {
            let ghost st = load_run(lines, i as nat);
            proof {
                lemma_load_run_sticky(lines, (i + 1) as nat, lines.len());
                lemma_load_run_sticky(lines, (i + 1) as nat, load_lines(buffer@).len());
                assert(load_run(lines, (i + 1) as nat) == load_step(st, lines[i as int]));
                assert(lines[i as int] == pieces@[i as int]@);
            }
            let line = &pieces[i];
            let trimmed = trim_exec(line);
            if in_comment_block {
                let lower_string = to_lowercase(string_of(&trimmed).as_str());
                let lower = chars_of(lower_string.as_str());
                if starts_with_exec(&lower, &comment_end_a) || starts_with_exec(&lower, &comment_end_b) {
                    in_comment_block = false;
                }
            } else if trimmed.len() > 0 && trimmed[0] == ';' {
                proof {
                    assert(trimmed@.take(1) =~= seq![';']);
                }
            } else if trimmed.len() == 0 {
                proof {
                    assert(!starts_with(trimmed@, seq![';']));
                }
                if map_data.len() > 0 {
                    let ghost size_spec = Vector2 { x: st.width as i32, y: st.map.len() as i32 };
                    let mut fits_grid = false;
                    if width <= 0x7fff_ffff && map_data.len() <= 0x7fff_ffff {
                        let wd = width as u64;
                        let ht = map_data.len() as u64;
                        assert(wd * ht <= 0x7fff_ffff * 0x7fff_ffff) by (nonlinear_arith)
                            requires
                                wd <= 0x7fff_ffff,
                                ht <= 0x7fff_ffff,
                        ;
                        fits_grid = wd * ht <= 0x7fff_ffff;
                    }
                    if !fits_grid {
                        proof {
                            assert(!load_run(lines, (i + 1) as nat).defined);
                        }
                        return None;
                    }
                    proof {
                        assert(fits(st.map, size_spec));
                    }
                    let size = Vector2::new(width as i32, map_data.len() as i32);
                    let rows = rows_to_strings(&map_data);
                    let meta = meta_to_strings(&metadata);
                    match Level::new(rows, size, meta) {
                        Ok(level) => {
                            levels.push(level);
                            map_data = Vec::new();
                            width = 0;
                            metadata = Vec::new();
                            proof {
                                assert(rows_view(map_data@) =~= Seq::<Seq<char>>::empty());
                                assert(meta_rows_view(metadata@) =~= Seq::<(Seq<char>, Seq<char>)>::empty());
                                let st2 = load_run(lines, (i + 1) as nat);
                                assert forall|k: int| 0 <= k < levels@.len() implies level_matches(
                                    st2.blocks[k].0,
                                    st2.blocks[k].1,
                                    st2.blocks[k].2,
                                    #[trigger] levels@[k],
                                ) by {
                                    if k < levels@.len() - 1 {
                                        assert(st2.blocks[k] == st.blocks[k]);
                                    }
                                }
                            }
                        },
                        Err(e) => {
                            proof {
                                lemma_load_run_sticky(lines, (i + 1) as nat, lines.len());
                            }
                            return Some(Err(e));
                        },
                    }
                }
            } else {
                proof {
                    if starts_with(trimmed@, seq![';']) {
                        assert(trimmed@.take(1)[0] == ';');
                    }
                    assert(!starts_with(trimmed@, seq![';']));
                }
                match find_char(&trimmed, ':') {
                    Some(ci) => {
                        proof {
                            assert(trimmed@.contains(':'));
                            let j = first_index(trimmed@, ':');
                            assert(j == ci);
                        }
                        let key_raw = trim_exec(&sub_chars(&trimmed, 0, ci));
                        let key_string = to_lowercase(string_of(&key_raw).as_str());
                        let key = chars_of(key_string.as_str());
                        proof {
                            assert(trimmed@.subrange(0, ci as int) == trimmed@.take(ci as int));
                        }
                        if chars_eq(&key, &comment) {
                            in_comment_block = true;
                        } else {
                            let value = trim_exec(&sub_chars(&trimmed, ci + 1, trimmed.len()));
                            proof {
                                assert(trimmed@.subrange(ci + 1, trimmed@.len() as int) == trimmed@.skip(ci + 1));
                            }
                            meta_insert_exec(&mut metadata, key, value);
                        }
                    },
                    None => {
                        let row = if has_digit_exec(line) {
                            match passes {
                                None => {
                                    let decoded = rle_decode(string_of(line).as_str());
                                    chars_of(decoded.as_str())
                                },
                                Some(n) => {
                                    match rle_decode_within(string_of(line).as_str(), n) {
                                        Some(decoded) => chars_of(decoded.as_str()),
                                        None => {
                                            proof {
                                                assert(lines[i as int] == line@);
                                                assert(!rows_decode_within(buffer@, n as nat));
                                            }
                                            return None;
                                        },
                                    }
                                },
                            }
                        } else {
                            copy_chars(line)
                        };
                        if row.len() > width {
                            width = row.len();
                        }
                        map_data.push(row);
                        proof {
                            assert(rows_view(map_data@) =~= st.map.push(row@));
                            let st2 = load_run(lines, (i + 1) as nat);
                            assert forall|y: int| 0 <= y < st2.map.len() implies #[trigger] st2.map[y].len()
                                <= st2.width by {
                                if y < st.map.len() {
                                    assert(st2.map[y] == st.map[y]);
                                }
                            }
                        }
                    },
                }
            }
            i = i + 1;
        }
        proof {
            assert(i == lines.len());
        }
        Some(Ok(levels))
    }

    /// Reads every level of an XSB text: rows of the map, metadata lines
    /// `key: value`, comment lines starting with `;`, comment blocks between
    /// `comment:` and `comment-end`, levels separated by empty lines, and
    /// run-length encoded rows.
    pub fn load_from_memory(buffer: &str) -> (r: Result<Vec<Level>, Error>)
        requires
            load_spec(buffer@).defined,
        ensures
            ({
                let fin = load_spec(buffer@);
                &&& fin.error matches Some(e) ==> r == Err::<Vec<Level>, Error>(e)
                &&& fin.error is None ==> (r matches Ok(levels) && levels@.len() == fin.blocks.len()
                    && forall|k: int|
                    0 <= k < levels@.len() ==> level_matches(
                        fin.blocks[k].0,
                        fin.blocks[k].1,
                        fin.blocks[k].2,
                        #[trigger] levels@[k],
                    ))
            }),
    {
        match Self::load_impl(buffer, None) {
            Some(res) => res,
            None => Err(Error::NoPlayer),
        }
    }

    /// Reads every level of an XSB text as `load_from_memory` does, decoding
    /// each run-length encoded row with at most `passes` passes. `None`
    /// exactly where `load_from_memory` cannot read the text, that is where a
    /// level is too large for its grid or a row's decoding never ends, or else
    /// where some run-length encoded line of the text needs more passes; where
    /// every such line decodes within `passes`, `None` means the text cannot be
    /// read.
    pub fn load_checked(buffer: &str, passes: usize) -> (r: Option<Result<Vec<Level>, Error>>)
        ensures
            r is None ==> !load_spec(buffer@).defined || !rows_decode_within(buffer@, passes as nat),
            rows_decode_within(buffer@, passes as nat) ==> (r is None <==> !load_spec(buffer@).defined),
            r matches Some(res) ==> load_spec(buffer@).defined && ({
                let fin = load_spec(buffer@);
                &&& fin.error matches Some(e) ==> res == Err::<Vec<Level>, Error>(e)
                &&& fin.error is None ==> (res matches Ok(levels) && levels@.len() == fin.blocks.len()
                    && forall|k: int|
                    0 <= k < levels@.len() ==> level_matches(
                        fin.blocks[k].0,
                        fin.blocks[k].1,
                        fin.blocks[k].2,
                        #[trigger] levels@[k],
                    ))
            }),
    {
        Self::load_impl(buffer, Some(passes))
    }
}

} // verus!
