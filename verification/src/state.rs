//! One configuration of the puzzle, and the moves that lead out of it.
//!
//! The board has four columns and five rows. Cell `4 * row + column` is bit
//! `4 * row + column` of a mask, row 0 being the top row:
//!
//! ```text
//!  0  1  2  3
//!  4  5  6  7
//!  8  9 10 11
//! 12 13 14 15
//! 16 17 18 19
//! ```

use vstd::prelude::*;
use crate::bits::ones;

verus! {

/// The cells of the left column.
pub const LEFT_EDGE: u32 = 0b0001_0001_0001_0001_0001;

/// The cells of the right column.
pub const RIGHT_EDGE: u32 = 0b1000_1000_1000_1000_1000;

/// The cells of the top row.
pub const TOP_EDGE: u32 = 0b0000_0000_0000_0000_1111;

/// The cells of the bottom row.
pub const BOTTOM_EDGE: u32 = 0b1111_0000_0000_0000_0000;

/// All twenty cells of the board.
pub const BOARD: u32 = 0b1111_1111_1111_1111_1111;

/// Slot of the four single-cell pieces.
pub const P1X1: usize = 0;

/// Slot of the four upright dominoes (two rows, one column).
pub const P2X1: usize = 1;

/// Slot of the flat domino (one row, two columns).
pub const P1X2: usize = 2;

/// Slot of the square (two rows, two columns).
pub const P2X2: usize = 3;

/// How many cells the pieces cover together.
pub const OCCUPIED: u32 = 18;

/// Where the square has to arrive: cells 1, 2, 5 and 6.
pub const TARGET: u32 = 0b0000_0000_0000_0110_0110;

/// The four ways a piece can slide by one cell.
#[derive(Clone, Copy, PartialEq, Eq, Debug)]
pub enum Direction {
    Right,
    Up,
    Left,
    Down,
}

impl Direction {
    /// The cells from which a slide in this direction leaves the board.
    pub open spec fn edge(self) -> u32 {
        match self {
            Direction::Right => RIGHT_EDGE,
            Direction::Up => TOP_EDGE,
            Direction::Left => LEFT_EDGE,
            Direction::Down => BOTTOM_EDGE,
        }
    }

    /// The mask `p` moved by one cell in this direction.
    pub open spec fn shift(self, p: u32) -> u32 {
        match self {
            Direction::Right => p << 1,
            Direction::Up => p >> 4,
            Direction::Left => p >> 1,
            Direction::Down => p << 4,
        }
    }

    /// The cell that a slide in this direction takes cell `i` to.
    pub open spec fn cell(self, i: u32) -> u32 {
        match self {
            Direction::Right => (i + 1) as u32,
            Direction::Up => (i - 4) as u32,
            Direction::Left => (i - 1) as u32,
            Direction::Down => (i + 4) as u32,
        }
    }

    /// The direction that undoes this one.
    pub open spec fn opposite(self) -> Direction {
        match self {
            Direction::Right => Direction::Left,
            Direction::Up => Direction::Down,
            Direction::Left => Direction::Right,
            Direction::Down => Direction::Up,
        }
    }

    /// The cells from which a slide in this direction leaves the board.
    fn edge_mask(self) -> (m: u32)
        ensures
            m == self.edge(),
    {
        match self {
            Direction::Right => RIGHT_EDGE,
            Direction::Up => TOP_EDGE,
            Direction::Left => LEFT_EDGE,
            Direction::Down => BOTTOM_EDGE,
        }
    }

    /// The mask `p` moved by one cell in this direction.
    fn shifted(self, p: u32) -> (q: u32)
        ensures
            q == self.shift(p),
    {
        match self {
            Direction::Right => p << 1,
            Direction::Up => p >> 4,
            Direction::Left => p >> 1,
            Direction::Down => p << 4,
        }
    }
}

/// The upright domino whose upper cell is `j`.
pub open spec fn domino(j: u32) -> u32 {
    0x11u32 << j
}

/// The dominoes that a scan of the cells `j..16` finds in `rem`, upper cell
/// first: a set bit is the upper cell of a domino, and both cells of a found
/// domino are flipped before the scan goes on.
pub open spec fn scan(rem: u32, j: u32) -> Seq<u32>
    decreases 16 - j,
{
    if j >= 16 {
        Seq::empty()
    } else if (rem >> j) & 1 == 1 {
        seq![domino(j)] + scan(rem ^ domino(j), (j + 1) as u32)
    } else {
        scan(rem, (j + 1) as u32)
    }
}

/// The first four dominoes that a scan finds in `m`; where it finds fewer,
/// zero stands for a missing one.
pub open spec fn dominoes(m: u32) -> Seq<u32> {
    let found = scan(m, 0);
    Seq::new(
        4,
        |k: int|
            if k < found.len() {
                found[k]
            } else {
                0u32
            },
    )
}

/// The position of every piece, one mask per kind of piece:
///
/// - slot 0: the four single-cell pieces,
/// - slot 1: the four upright dominoes,
/// - slot 2: the flat domino,
/// - slot 3: the square.
#[derive(PartialEq, Eq, Hash, Clone, Copy, Debug)]
pub struct State(pub [u32; 4]);

impl State {
    /// The starting layout:
    ///
    /// ```text
    /// 0 _ _ 0
    /// 1 0 0 2
    /// 1 5 5 2
    /// 3 6 6 4
    /// 3 6 6 4
    /// ```
    pub open spec fn initial() -> State {
        State(
            [
                0b0000_0000_0000_0110_1001u32,
                0b1001_1001_1001_1001_0000u32,
                0b0000_0000_0110_0000_0000u32,
                0b0110_0110_0000_0000_0000u32,
            ],
        )
    }

    /// All cells that some piece covers.
    pub open spec fn union(self) -> u32 {
        self.0[0] | self.0[1] | self.0[2] | self.0[3]
    }

    /// No cell is covered twice: as many cells are covered as the pieces have.
    pub open spec fn full(self) -> bool {
        ones(self.union()) == OCCUPIED
    }

    /// This state with the mask of slot `k` replaced by `m`.
    pub open spec fn with_slot(self, k: int, m: u32) -> State {
        State(
            [
                if k == 0 { m } else { self.0[0] },
                if k == 1 { m } else { self.0[1] },
                if k == 2 { m } else { self.0[2] },
                if k == 3 { m } else { self.0[3] },
            ],
        )
    }

    /// The state after the piece `p` of slot `k` has slid in direction `d`,
    /// whether or not the result is legal.
    pub open spec fn moved(self, k: int, p: u32, d: Direction) -> State {
        if k == 1 {
            self.with_slot(k, self.0[k] ^ p ^ d.shift(p))
        } else {
            self.with_slot(k, (self.0[k] ^ p) | d.shift(p))
        }
    }

    /// The result of sliding piece `p` of slot `k` in direction `d`, if the
    /// piece stays on the board and lands on free cells.
    pub open spec fn slide(self, k: int, p: u32, d: Direction) -> Seq<State> {
        if p & d.edge() == 0 && self.moved(k, p, d).full() {
            seq![self.moved(k, p, d)]
        } else {
            Seq::empty()
        }
    }

    /// The legal slides of piece `p` of slot `k`: right, up, left, down.
    pub open spec fn slides(self, k: int, p: u32) -> Seq<State> {
        self.slide(k, p, Direction::Right) + self.slide(k, p, Direction::Up) + self.slide(
            k,
            p,
            Direction::Left,
        ) + self.slide(k, p, Direction::Down)
    }

    /// The legal slides of the single-cell pieces on the cells below `n`, by
    /// cell.
    pub open spec fn single_moves(self, n: nat) -> Seq<State>
        decreases n,
    {
        if n == 0 {
            Seq::empty()
        } else {
            let i = (n - 1) as u32;
            let rest = self.single_moves((n - 1) as nat);
            if (self.0[0] >> i) & 1 == 1 {
                rest + self.slides(0, 1u32 << i)
            } else {
                rest
            }
        }
    }

    /// The legal slides of the first `n` upright dominoes.
    pub open spec fn domino_moves(self, n: nat) -> Seq<State>
        decreases n,
    {
        if n == 0 {
            Seq::empty()
        } else {
            let p = dominoes(self.0[1])[n - 1];
            let rest = self.domino_moves((n - 1) as nat);
            if p != 0 {
                rest + self.slides(1, p)
            } else {
                rest
            }
        }
    }

    /// Every state that one slide of one piece by one cell leads to: first
    /// the single-cell pieces by cell, then the upright dominoes by upper
    /// cell, then the flat domino, then the square; for each piece right, up,
    /// left, down.
    pub open spec fn successors(self) -> Seq<State> {
        self.single_moves(20) + self.domino_moves(4) + self.slides(2, self.0[2]) + self.slides(
            3,
            self.0[3],
        )
    }

    /// Whether the square stands on its target.
    pub open spec fn spec_is_goal(&self) -> bool {
        self.0[3] == TARGET
    }

    /// The four masks side by side in one number.
    pub open spec fn spec_key(&self) -> u128 {
        (self.0[0] as u128) | ((self.0[1] as u128) << 32) | ((self.0[2] as u128) << 64) | ((
        self.0[3] as u128) << 96)
    }

    /// The starting layout of the puzzle.
    #[inline]
    pub fn get_initial_state() -> (s: Self)
        ensures
            s == State::initial(),
    {
        State(
            [
                0b0000_0000_0000_0110_1001,
                0b1001_1001_1001_1001_0000,
                0b0000_0000_0110_0000_0000,
                0b0110_0110_0000_0000_0000,
            ],
        )
    }

    /// Whether the square stands on its target.
    #[verifier::when_used_as_spec(spec_is_goal)]
    pub fn is_goal(&self) -> (b: bool)
        ensures
            b == self.spec_is_goal(),
    {
        self.0[P2X2] == TARGET
    }

    /// A number that identifies the state: states with equal keys are equal.
    #[verifier::when_used_as_spec(spec_key)]
    pub fn key(&self) -> (k: u128)
        ensures
            k == self.spec_key(),
    {
        (self.0[0] as u128) | ((self.0[1] as u128) << 32) | ((self.0[2] as u128) << 64) | ((
        self.0[3] as u128) << 96)
    }

    /// Every state that one slide of one piece by one cell leads to, in the
    /// order of [`State::successors`].
    pub fn next_states(&self) -> (out: Vec<State>)
        ensures
            out@ == self.successors(),
    {
        let mut out: Vec<State> = Vec::new();
        let mut i: u32 = 0;
        while i < 20
            invariant
                i <= 20,
                out@ == self.single_moves(i as nat),
            decreases 20 - i,
        {
            if (self.0[P1X1] >> i) & 1 == 1 {
                self.push_slides(&mut out, P1X1, 1u32 << i);
            }
            i = i + 1;
        }
        let pieces = Self::decompose_2x1(self.0[P2X1]);
        let mut j: usize = 0;
        while j < 4
            invariant
                j <= 4,
                pieces@ == dominoes(self.0[1]),
                out@ == self.single_moves(20) + self.domino_moves(j as nat),
            decreases 4 - j,
        {
            if pieces[j] != 0 {
                self.push_slides(&mut out, P2X1, pieces[j]);
                assert(out@ =~= self.single_moves(20) + (self.domino_moves(j as nat) + self.slides(
                    1,
                    pieces[j as int],
                )));
            }
            j = j + 1;
        }
        self.push_slides(&mut out, P1X2, self.0[P1X2]);
        self.push_slides(&mut out, P2X2, self.0[P2X2]);
        out
    }

    /// Appends the legal slides of piece `p` of slot `k` to `out`.
    fn push_slides(&self, out: &mut Vec<State>, k: usize, p: u32)
        requires
            k < 4,
        ensures
            final(out)@ == old(out)@ + self.slides(k as int, p),
    {
        let ghost before = out@;
        self.push_slide(out, k, p, Direction::Right);
        self.push_slide(out, k, p, Direction::Up);
        self.push_slide(out, k, p, Direction::Left);
        self.push_slide(out, k, p, Direction::Down);
        assert(out@ =~= before + self.slides(k as int, p));
    }

    /// Appends the slide of piece `p` of slot `k` in direction `d` to `out`,
    /// if the piece stays on the board and lands on free cells.
    fn push_slide(&self, out: &mut Vec<State>, k: usize, p: u32, d: Direction)
        requires
            k < 4,
        ensures
            final(out)@ == old(out)@ + self.slide(k as int, p, d),
    {
        if p & d.edge_mask() == 0 {
            let q = d.shifted(p);
            let m = if k == P2X1 {
                self.0[k] ^ p ^ q
            } else {
                (self.0[k] ^ p) | q
            };
            let mut next = *self;
            next.0[k] = m;
            assert(next.0 =~= self.moved(k as int, p, d).0);
            if (next.0[0] | next.0[1] | next.0[2] | next.0[3]).count_ones() == OCCUPIED {
                out.push(next);
            }
        }
        assert(out@ =~= old(out)@ + self.slide(k as int, p, d));
    }

    /// Splits the mask of the upright dominoes into one mask per domino, by
    /// upper cell. Of a mask that holds more than four dominoes the first
    /// four are given; where it holds fewer, the rest is zero.
    pub fn decompose_2x1(mask: u32) -> (pieces: [u32; 4])
        ensures
            pieces@ == dominoes(mask),
    {
        let mut rem: u32 = mask;
        let mut idx: usize = 0;
        let mut pieces: [u32; 4] = [0; 4];
        let ghost found: Seq<u32> = Seq::empty();
        let mut j: u32 = 0;
        while j < 16
            invariant
                idx <= j <= 16,
                idx == found.len(),
                scan(mask, 0) == found + scan(rem, j),
                forall|k: int| 0 <= k < 4 && k < found.len() ==> pieces[k] == found[k],
                forall|k: int| 0 <= k < 4 && k >= found.len() ==> pieces[k] == 0,
            decreases 16 - j,
        {
            if (rem >> j) & 1 == 1 {
                let piece: u32 = 0x11u32 << j;
                if idx < 4 {
                    pieces[idx] = piece;
                }
                proof {
                    assert(found + (seq![piece] + scan(rem ^ piece, (j + 1) as u32))
                        =~= found.push(piece) + scan(rem ^ piece, (j + 1) as u32));
                    found = found.push(piece);
                }
                rem = rem ^ piece;
                idx = idx + 1;
            }
            j = j + 1;
        }
        proof {
            assert(scan(mask, 0) =~= found);
            assert(pieces@ =~= dominoes(mask));
        }
        pieces
    }
}

/// States with equal keys are equal.
pub proof fn lemma_key_injective(a: State, b: State)
    requires
        a.spec_key() == b.spec_key(),
    ensures
        a == b,
{
    let (a0, a1, a2, a3) = (a.0[0], a.0[1], a.0[2], a.0[3]);
    let (b0, b1, b2, b3) = (b.0[0], b.0[1], b.0[2], b.0[3]);
    assert(a0 == b0 && a1 == b1 && a2 == b2 && a3 == b3) by (bit_vector)
        requires
            (a0 as u128) | ((a1 as u128) << 32) | ((a2 as u128) << 64) | ((a3 as u128) << 96) == (
            b0 as u128) | ((b1 as u128) << 32) | ((b2 as u128) << 64) | ((b3 as u128) << 96),
    ;
    assert(a.0 =~= b.0);
}

} // verus!
