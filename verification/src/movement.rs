use vstd::prelude::*;
use crate::direction::Direction;

verus! {

/// One step of the player: a plain move, or a move that pushes a crate.
#[derive(Clone, Copy, PartialEq, Eq, Debug, Structural)]
pub enum Movement {
    Move(Direction),
    Push(Direction),
}

/// The direction of a movement.
pub open spec fn movement_direction(m: Movement) -> Direction {
    match m {
        Movement::Move(d) => d,
        Movement::Push(d) => d,
    }
}

/// Whether a character is one of the LURD letters `u d l r U D L R`.
pub open spec fn is_lurd_char(c: char) -> bool {
    c == 'u' || c == 'd' || c == 'l' || c == 'r' || c == 'U' || c == 'D' || c == 'L' || c == 'R'
}

/// The movement that a LURD letter stands for: lower case moves, upper case pushes.
pub open spec fn movement_of_char(c: char) -> Movement {
    if c == 'u' {
        Movement::Move(Direction::Up)
    } else if c == 'd' {
        Movement::Move(Direction::Down)
    } else if c == 'l' {
        Movement::Move(Direction::Left)
    } else if c == 'r' {
        Movement::Move(Direction::Right)
    } else if c == 'U' {
        Movement::Push(Direction::Up)
    } else if c == 'D' {
        Movement::Push(Direction::Down)
    } else if c == 'L' {
        Movement::Push(Direction::Left)
    } else {
        Movement::Push(Direction::Right)
    }
}

/// The LURD letter of a movement.
pub open spec fn char_of_movement(m: Movement) -> char {
    match m {
        Movement::Move(Direction::Up) => 'u',
        Movement::Move(Direction::Down) => 'd',
        Movement::Move(Direction::Left) => 'l',
        Movement::Move(Direction::Right) => 'r',
        Movement::Push(Direction::Up) => 'U',
        Movement::Push(Direction::Down) => 'D',
        Movement::Push(Direction::Left) => 'L',
        Movement::Push(Direction::Right) => 'R',
    }
}

/// Each LURD letter names its direction whatever its case (`u` up, `d` down,
/// `l` left, `r` right), and stands for a push exactly when it is upper case.
pub proof fn law_lurd_letter_names_direction(c: char)
    requires
        is_lurd_char(c),
    ensures
        (c == 'u' || c == 'U') <==> movement_direction(movement_of_char(c)) == Direction::Up,
        (c == 'd' || c == 'D') <==> movement_direction(movement_of_char(c)) == Direction::Down,
        (c == 'l' || c == 'L') <==> movement_direction(movement_of_char(c)) == Direction::Left,
        (c == 'r' || c == 'R') <==> movement_direction(movement_of_char(c)) == Direction::Right,
        movement_of_char(c) is Push <==> (c == 'U' || c == 'D' || c == 'L' || c == 'R'),
{
}

/// The letter of a push is the upper case of the letter of the move in the
/// same direction, and reading the letter of a movement gives it back.
pub proof fn law_push_letter_is_upper_case(d: Direction, m: Movement)
    ensures
        char_of_movement(Movement::Push(d)) as u32 + 32 == char_of_movement(Movement::Move(d)) as u32,
        'a' <= char_of_movement(Movement::Move(d)) <= 'z',
        is_lurd_char(char_of_movement(m)),
        movement_of_char(char_of_movement(m)) == m,
        movement_direction(movement_of_char(char_of_movement(Movement::Move(d)))) == d,
{
}

/// Whether every character of a string is a LURD letter.
pub open spec fn is_lurd(s: Seq<char>) -> bool {
    forall|i: int| 0 <= i < s.len() ==> is_lurd_char(#[trigger] s[i])
}

/// The movements that a LURD string stands for.
pub open spec fn movements_of_lurd(s: Seq<char>) -> Seq<Movement> {
    s.map_values(|c: char| movement_of_char(c))
}

/// The LURD string of a sequence of movements.
pub open spec fn lurd_of(ms: Seq<Movement>) -> Seq<char> {
    ms.map_values(|m: Movement| char_of_movement(m))
}

/// The number of pushes in a sequence of movements.
pub open spec fn count_pushes(ms: Seq<Movement>) -> nat
    decreases ms.len(),
{
    if ms.len() == 0 {
        0
    } else {
        count_pushes(ms.drop_last()) + if ms.last() is Push { 1nat } else { 0nat }
    }
}

impl Movement {
    /// The direction of the movement.
    pub fn direction(&self) -> (r: Direction)
        ensures
            r == movement_direction(*self),
    {
        match self {
            Movement::Move(direction) => *direction,
            Movement::Push(direction) => *direction,
        }
    }

    /// Whether the movement pushes a crate.
    pub fn is_push(&self) -> (r: bool)
        ensures
            r == (*self is Push),
    {
        matches!(self, Movement::Push(_))
    }

    /// The movement that a LURD letter stands for.
    pub fn from_char(ch: char) -> (r: Movement)
        requires
            is_lurd_char(ch),
        ensures
            r == movement_of_char(ch),
    {
        if ch == 'u' {
            Movement::Move(Direction::Up)
        } else if ch == 'd' {
            Movement::Move(Direction::Down)
        } else if ch == 'l' {
            Movement::Move(Direction::Left)
        } else if ch == 'r' {
            Movement::Move(Direction::Right)
        } else if ch == 'U' {
            Movement::Push(Direction::Up)
        } else if ch == 'D' {
            Movement::Push(Direction::Down)
        } else if ch == 'L' {
            Movement::Push(Direction::Left)
        } else {
            Movement::Push(Direction::Right)
        }
    }

    /// The LURD letter of the movement.
    pub fn to_char(&self) -> (r: char)
        ensures
            r == char_of_movement(*self),
            is_lurd_char(r),
    {
        match self {
            Movement::Move(Direction::Up) => 'u',
            Movement::Move(Direction::Down) => 'd',
            Movement::Move(Direction::Left) => 'l',
            Movement::Move(Direction::Right) => 'r',
            Movement::Push(Direction::Up) => 'U',
            Movement::Push(Direction::Down) => 'D',
            Movement::Push(Direction::Left) => 'L',
            Movement::Push(Direction::Right) => 'R',
        }
    }
}

/// A sequence of movements, written in LURD notation.
#[derive(Clone, Debug)]
pub struct Movements(pub Vec<Movement>);

impl View for Movements {
    type V = Seq<Movement>;

    open spec fn view(&self) -> Seq<Movement> {
        self.0@
    }
}

/// Appends the LURD letter of `m` to `s`.
fn push_lurd_letter(s: &mut String, m: &Movement)
    ensures
        final(s)@ == old(s)@.push(char_of_movement(*m)),
{
    proof {
        reveal_strlit("u");
        reveal_strlit("d");
        reveal_strlit("l");
        reveal_strlit("r");
        reveal_strlit("U");
        reveal_strlit("D");
        reveal_strlit("L");
        reveal_strlit("R");
    }
    match m {
        Movement::Move(Direction::Up) => s.append("u"),
        Movement::Move(Direction::Down) => s.append("d"),
        Movement::Move(Direction::Left) => s.append("l"),
        Movement::Move(Direction::Right) => s.append("r"),
        Movement::Push(Direction::Up) => s.append("U"),
        Movement::Push(Direction::Down) => s.append("D"),
        Movement::Push(Direction::Left) => s.append("L"),
        Movement::Push(Direction::Right) => s.append("R"),
    }
}

impl Movements {
    /// An empty sequence of movements.
    pub fn new() -> (r: Self)
        ensures
            r@ == Seq::<Movement>::empty(),
    {
        Movements(Vec::new())
    }

    /// Parses a LURD string: `u d l r` move, `U D L R` push.
    pub fn from_lurd(lurd: &str) -> (r: Self)
        requires
            is_lurd(lurd@),
        ensures
            r@ == movements_of_lurd(lurd@),
    {
        let mut instance = Self::new();
        let n = lurd.unicode_len();
        let mut i: usize = 0;
        while i < n
            invariant
                n == lurd@.len(),
                i <= n,
                is_lurd(lurd@),
                instance@ == movements_of_lurd(lurd@.take(i as int)),
            decreases n - i,
        {
            let ch = lurd.get_char(i);
            instance.0.push(Movement::from_char(ch));
            proof {
                assert(lurd@.take(i + 1) == lurd@.take(i as int).push(ch));
            }
            i = i + 1;
        }
        proof {
            assert(lurd@.take(n as int) == lurd@);
        }
        instance
    }

    /// Appends a movement.
    pub fn push(&mut self, movement: Movement)
        ensures
            final(self)@ == old(self)@.push(movement),
    {
        self.0.push(movement);
    }

    /// Removes and returns the last movement.
    pub fn pop(&mut self) -> (r: Option<Movement>)
        ensures
            old(self)@.len() == 0 ==> r is None && final(self)@ == old(self)@,
            old(self)@.len() > 0 ==> r == Some(old(self)@.last()) && final(self)@ == old(self)@.drop_last(),
    {
        self.0.pop()
    }

    /// The last movement, if any.
    pub fn last(&self) -> (r: Option<Movement>)
        ensures
            self@.len() == 0 ==> r is None,
            self@.len() > 0 ==> r == Some(self@.last()),
    {
        if self.0.len() == 0 {
            None
        } else {
            Some(self.0[self.0.len() - 1])
        }
    }

    /// Removes every movement.
    pub fn clear(&mut self)
        ensures
            final(self)@ == Seq::<Movement>::empty(),
    {
        self.0.clear();
    }

    /// The number of movements.
    pub fn len(&self) -> (r: usize)
        ensures
            r == self@.len(),
    {
        self.0.len()
    }

    /// Whether there is no movement.
    pub fn is_empty(&self) -> (r: bool)
        ensures
            r == (self@.len() == 0),
    {
        self.0.len() == 0
    }

    /// The number of moves, pushes included.
    pub fn move_count(&self) -> (r: usize)
        ensures
            r == self@.len(),
    {
        self.0.len()
    }

    /// The number of pushes.
    pub fn push_count(&self) -> (r: usize)
        ensures
            r == count_pushes(self@),
    {
        let mut count: usize = 0;
        let mut i: usize = 0;
        while i < self.0.len()
            invariant
                i <= self@.len(),
                count == count_pushes(self@.take(i as int)),
                count <= i,
            decreases self@.len() - i,
        {
            proof {
                assert(self@.take(i + 1).drop_last() == self@.take(i as int));
            }
            if self.0[i].is_push() {
                count = count + 1;
            }
            i = i + 1;
        }
        proof {
            assert(self@.take(self@.len() as int) == self@);
        }
        count
    }

    /// The movements in LURD notation.
    pub fn lurd(&self) -> (r: String)
        ensures
            r@ == lurd_of(self@),
    {
        let mut result = String::new();
        let mut i: usize = 0;
        while i < self.0.len()
            invariant
                i <= self@.len(),
                result@ == lurd_of(self@.take(i as int)),
            decreases self@.len() - i,
        {
            push_lurd_letter(&mut result, &self.0[i]);
            proof {
                assert(self@.take(i + 1) == self@.take(i as int).push(self@[i as int]));
                assert(lurd_of(self@.take(i + 1)) == lurd_of(self@.take(i as int)).push(char_of_movement(self@[i as int])));
            }
            i = i + 1;
        }
        proof {
            assert(self@.take(self@.len() as int) == self@);
        }
        result
    }
}

/// Reading back the LURD string of movements gives the same movements.
pub proof fn law_lurd_roundtrip(ms: Seq<Movement>)
    ensures
        is_lurd(lurd_of(ms)),
        movements_of_lurd(lurd_of(ms)) == ms,
{
    assert(movements_of_lurd(lurd_of(ms)) =~= ms);
}

/// Writing the movements of a LURD string gives back the string.
pub proof fn law_lurd_text_roundtrip(s: Seq<char>)
    requires
        is_lurd(s),
    ensures
        lurd_of(movements_of_lurd(s)) == s,
{
    assert forall|i: int| 0 <= i < s.len() implies lurd_of(movements_of_lurd(s))[i] == s[i] by {
        assert(is_lurd_char(s[i]));
    }
    assert(lurd_of(movements_of_lurd(s)) =~= s);
}

/// There are never more pushes than moves.
pub proof fn lemma_push_count_le_move_count(ms: Seq<Movement>)
    ensures
        count_pushes(ms) <= ms.len(),
    decreases ms.len(),
{
    if ms.len() > 0 {
        lemma_push_count_le_move_count(ms.drop_last());
    }
}

} // verus!
