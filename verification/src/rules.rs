//! What a slide is, which states are well formed, and the laws that slides
//! obey on well-formed states.

use vstd::prelude::*;
use crate::bits::{ones, lemma_ones_union, lemma_ones_xor, lemma_ones_zero, lemma_ones_shl, lemma_ones_shr};
use crate::state::{State, Direction, dominoes, domino, scan, BOARD};
use crate::walk::{is_path, reachable, lemma_path_drop_last};

verus! {

/// `p` is the mask of one piece of slot `k` in `s`: a single cell of slot 0,
/// one of the dominoes of slot 1, or the whole of slot 2 or 3.
pub open spec fn is_piece(s: State, k: int, p: u32) -> bool {
    if k == 0 {
        exists|i: u32| i < 20 && (s.0[0] >> i) & 1 == 1 && p == 1u32 << i
    } else if k == 1 {
        p != 0 && dominoes(s.0[1]).contains(p)
    } else if k == 2 || k == 3 {
        p == s.0[k]
    } else {
        false
    }
}

/// `b` comes from `a` by sliding the piece `p` of slot `k` by one cell in
/// direction `d`: the piece is not on the edge it moves towards, and in `b`
/// no cell is covered twice.
pub open spec fn is_slide(a: State, b: State, k: int, p: u32, d: Direction) -> bool {
    is_piece(a, k, p) && p & d.edge() == 0 && b == a.moved(k, p, d) && b.full()
}

/// Some piece of `a` slides in some direction to give `b`.
pub open spec fn is_step(a: State, b: State) -> bool {
    exists|k: int, p: u32, d: Direction| is_slide(a, b, k, p, d)
}

/// A state stands in a concatenation exactly if it stands in one of the
/// two parts.
proof fn lemma_concat_contains(x: Seq<State>, y: Seq<State>, s: State)
    ensures
        (x + y).contains(s) <==> x.contains(s) || y.contains(s),
{
    if x.contains(s) {
        let i = choose|i: int| 0 <= i < x.len() && x[i] == s;
        assert((x + y)[i] == s);
    }
    if y.contains(s) {
        let i = choose|i: int| 0 <= i < y.len() && y[i] == s;
        assert((x + y)[x.len() + i] == s);
    }
    if (x + y).contains(s) {
        let i = choose|i: int| 0 <= i < (x + y).len() && (x + y)[i] == s;
        if i < x.len() {
            assert(x[i] == s);
        } else {
            assert(y[i - x.len()] == s);
        }
    }
}

/// What a single slide yields.
proof fn lemma_slide_contains(a: State, k: int, p: u32, d: Direction, b: State)
    ensures
        a.slide(k, p, d).contains(b) <==> p & d.edge() == 0 && b == a.moved(k, p, d) && b.full(),
{
    if p & d.edge() == 0 && a.moved(k, p, d).full() {
        assert(a.slide(k, p, d)[0] == a.moved(k, p, d));
    }
}

/// A state is among the slides of a piece exactly if some direction leads
/// to it.
proof fn lemma_slides_contains(a: State, k: int, p: u32, b: State)
    ensures
        a.slides(k, p).contains(b) <==> exists|d: Direction|
            p & d.edge() == 0 && b == a.moved(k, p, d) && b.full(),
{
    let r = a.slide(k, p, Direction::Right);
    let u = a.slide(k, p, Direction::Up);
    let l = a.slide(k, p, Direction::Left);
    let w = a.slide(k, p, Direction::Down);
    lemma_concat_contains(r + u + l, w, b);
    lemma_concat_contains(r + u, l, b);
    lemma_concat_contains(r, u, b);
    lemma_slide_contains(a, k, p, Direction::Right, b);
    lemma_slide_contains(a, k, p, Direction::Up, b);
    lemma_slide_contains(a, k, p, Direction::Left, b);
    lemma_slide_contains(a, k, p, Direction::Down, b);
    if a.slides(k, p).contains(b) {
        let d = if r.contains(b) {
            Direction::Right
        } else if u.contains(b) {
            Direction::Up
        } else if l.contains(b) {
            Direction::Left
        } else {
            Direction::Down
        };
        assert(p & d.edge() == 0 && b == a.moved(k, p, d) && b.full());
    }
    if exists|d: Direction| p & d.edge() == 0 && b == a.moved(k, p, d) && b.full() {
        let d = choose|d: Direction| p & d.edge() == 0 && b == a.moved(k, p, d) && b.full();
        match d {
            Direction::Right => {},
            Direction::Up => {},
            Direction::Left => {},
            Direction::Down => {},
        }
    }
}

/// A state is among the moves of the single cells below `n` exactly if one
/// of those cells is covered and slides to it.
proof fn lemma_single_moves_contains(a: State, n: nat, b: State)
    requires
        n <= 20,
    ensures
        a.single_moves(n).contains(b) <==> exists|i: u32|
            i < n && (a.0[0] >> i) & 1 == 1 && a.slides(0, 1u32 << i).contains(b),
    decreases n,
{
    if n > 0 {
        let i = (n - 1) as u32;
        let rest = a.single_moves((n - 1) as nat);
        lemma_single_moves_contains(a, (n - 1) as nat, b);
        if (a.0[0] >> i) & 1 == 1 {
            lemma_concat_contains(rest, a.slides(0, 1u32 << i), b);
        }
        if a.single_moves(n).contains(b) {
            if rest.contains(b) {
                let x = choose|x: u32|
                    x < n - 1 && (a.0[0] >> x) & 1 == 1 && a.slides(0, 1u32 << x).contains(b);
                assert(x < n && (a.0[0] >> x) & 1 == 1 && a.slides(0, 1u32 << x).contains(b));
            } else {
                assert(i < n && (a.0[0] >> i) & 1 == 1 && a.slides(0, 1u32 << i).contains(b));
            }
        }
        if exists|x: u32| x < n && (a.0[0] >> x) & 1 == 1 && a.slides(0, 1u32 << x).contains(b) {
            let x = choose|x: u32|
                x < n && (a.0[0] >> x) & 1 == 1 && a.slides(0, 1u32 << x).contains(b);
            if x < n - 1 {
                assert(rest.contains(b));
            }
        }
    }
}

/// A state is among the moves of the first `n` dominoes exactly if one of
/// them slides to it.
proof fn lemma_domino_moves_contains(a: State, n: nat, b: State)
    requires
        n <= 4,
    ensures
        a.domino_moves(n).contains(b) <==> exists|j: int|
            0 <= j < n && dominoes(a.0[1])[j] != 0 && a.slides(1, dominoes(a.0[1])[j]).contains(b),
    decreases n,
{
    let ds = dominoes(a.0[1]);
    if n > 0 {
        let p = ds[n - 1];
        let rest = a.domino_moves((n - 1) as nat);
        lemma_domino_moves_contains(a, (n - 1) as nat, b);
        if p != 0 {
            lemma_concat_contains(rest, a.slides(1, p), b);
        }
        if a.domino_moves(n).contains(b) {
            if rest.contains(b) {
                let j = choose|j: int|
                    0 <= j < n - 1 && ds[j] != 0 && a.slides(1, ds[j]).contains(b);
                assert(0 <= j < n && ds[j] != 0 && a.slides(1, ds[j]).contains(b));
            } else {
                assert(0 <= n - 1 < n && ds[n - 1] != 0 && a.slides(1, ds[n - 1]).contains(b));
            }
        }
        if exists|j: int| 0 <= j < n && ds[j] != 0 && a.slides(1, ds[j]).contains(b) {
            let j = choose|j: int| 0 <= j < n && ds[j] != 0 && a.slides(1, ds[j]).contains(b);
            if j < n - 1 {
                assert(rest.contains(b));
            }
        }
    }
}

/// The successors of a state are the states one slide away from it.
pub proof fn lemma_successors_are_steps(a: State, b: State)
    ensures
        a.successors().contains(b) <==> is_step(a, b),
{
    let singles = a.single_moves(20);
    let uprights = a.domino_moves(4);
    let flat = a.slides(2, a.0[2]);
    let square = a.slides(3, a.0[3]);
    let ds = dominoes(a.0[1]);
    lemma_concat_contains(singles + uprights + flat, square, b);
    lemma_concat_contains(singles + uprights, flat, b);
    lemma_concat_contains(singles, uprights, b);
    lemma_single_moves_contains(a, 20, b);
    lemma_domino_moves_contains(a, 4, b);
    if a.successors().contains(b) {
        if singles.contains(b) {
            let i = choose|i: u32|
                i < 20 && (a.0[0] >> i) & 1 == 1 && a.slides(0, 1u32 << i).contains(b);
            lemma_slides_contains(a, 0, 1u32 << i, b);
            let d = choose|d: Direction|
                (1u32 << i) & d.edge() == 0 && b == a.moved(0, 1u32 << i, d) && b.full();
            assert(is_slide(a, b, 0, 1u32 << i, d));
        } else if uprights.contains(b) {
            let j = choose|j: int| 0 <= j < 4 && ds[j] != 0 && a.slides(1, ds[j]).contains(b);
            lemma_slides_contains(a, 1, ds[j], b);
            let d = choose|d: Direction|
                ds[j] & d.edge() == 0 && b == a.moved(1, ds[j], d) && b.full();
            assert(is_slide(a, b, 1, ds[j], d));
        } else if flat.contains(b) {
            lemma_slides_contains(a, 2, a.0[2], b);
            let d = choose|d: Direction|
                a.0[2] & d.edge() == 0 && b == a.moved(2, a.0[2], d) && b.full();
            assert(is_slide(a, b, 2, a.0[2], d));
        } else {
            lemma_slides_contains(a, 3, a.0[3], b);
            let d = choose|d: Direction|
                a.0[3] & d.edge() == 0 && b == a.moved(3, a.0[3], d) && b.full();
            assert(is_slide(a, b, 3, a.0[3], d));
        }
    }
    if is_step(a, b) {
        let (k, p, d) = choose|k: int, p: u32, d: Direction| is_slide(a, b, k, p, d);
        lemma_slides_contains(a, k, p, b);
        if k == 0 {
            let i = choose|i: u32| i < 20 && (a.0[0] >> i) & 1 == 1 && p == 1u32 << i;
            assert(i < 20 && (a.0[0] >> i) & 1 == 1 && a.slides(0, 1u32 << i).contains(b));
        } else if k == 1 {
            let j = choose|j: int| 0 <= j < ds.len() && ds[j] == p;
            assert(0 <= j < 4 && ds[j] != 0 && a.slides(1, ds[j]).contains(b));
        }
    }
}

/// `a` holds the upper cells of upright dominoes that do not overlap and
/// that together cover `m`.
pub open spec fn anchors(a: u32, m: u32) -> bool {
    a <= 0xffff && a & (a << 4) == 0 && m == a | (a << 4)
}

/// `m` is a flat domino: two cells side by side in one row.
pub open spec fn is_flat(m: u32) -> bool {
    exists|c: u32| c < 19 && c % 4 != 3 && m == 3u32 << c
}

/// `m` is a square of two rows and two columns.
pub open spec fn is_square(m: u32) -> bool {
    exists|c: u32| c < 15 && c % 4 != 3 && m == 0x33u32 << c
}

/// The state is well formed: four single cells, four upright dominoes, a
/// flat domino and a square, all on the board and none on another.
pub open spec fn valid(s: State) -> bool {
    &&& s.0[0] <= BOARD
    &&& ones(s.0[0]) == 4
    &&& exists|a: u32| #[trigger] anchors(a, s.0[1]) && ones(a) == 4
    &&& is_flat(s.0[2])
    &&& is_square(s.0[3])
    &&& s.full()
}

/// The dominoes whose upper cells are the set bits of `a` among the cells
/// `j..16`, upper cell first.
pub open spec fn lineup(a: u32, j: u32) -> Seq<u32>
    decreases 16 - j,
{
    if j >= 16 {
        Seq::empty()
    } else if (a >> j) & 1 == 1 {
        seq![domino(j)] + lineup(a, (j + 1) as u32)
    } else {
        lineup(a, (j + 1) as u32)
    }
}

/// The lineup from cell `j` on depends on the bits from `j` on only.
proof fn lemma_lineup_from(a: u32, b: u32, j: u32)
    requires
        j <= 16,
        a >> j == b >> j,
    ensures
        lineup(a, j) == lineup(b, j),
    decreases 16 - j,
{
    if j < 16 {
        assert(a >> ((j + 1) as u32) == b >> ((j + 1) as u32)) by (bit_vector)
            requires
                j < 16,
                a >> j == b >> j,
        ;
        lemma_lineup_from(a, b, (j + 1) as u32);
    }
}

/// A scan of non-overlapping dominoes finds each of them.
proof fn lemma_scan_lineup(a: u32, j: u32)
    requires
        j <= 16,
        a <= 0xffff,
        a & (a << 4) == 0,
        (a >> j) << j == a,
    ensures
        scan(a | (a << 4), j) == lineup(a, j),
    decreases 16 - j,
{
    if j < 16 {
        let m = a | (a << 4);
        let next = (j + 1) as u32;
        let rest = a & !(1u32 << j);
        assert({
            &&& (m >> j) & 1 == (a >> j) & 1
            &&& rest <= 0xffff
            &&& rest & (rest << 4) == 0
            &&& (rest >> next) << next == rest
            &&& rest >> next == a >> next
            &&& ((a >> j) & 1 == 1 ==> m ^ (0x11u32 << j) == rest | (rest << 4))
            &&& ((a >> j) & 1 != 1 ==> rest == a)
        }) by (bit_vector)
            requires
                j < 16,
                next == j + 1,
                a <= 0xffff,
                a & (a << 4) == 0,
                (a >> j) << j == a,
                m == a | (a << 4),
                rest == a & !(1u32 << j),
        ;
        lemma_scan_lineup(rest, next);
        lemma_lineup_from(rest, a, next);
    }
}

/// The lineup from cell `j` on holds one domino for each set bit from `j`
/// on.
proof fn lemma_lineup_len(a: u32, j: u32)
    requires
        j <= 16,
        a <= 0xffff,
    ensures
        lineup(a, j).len() == ones(a >> j),
    decreases 16 - j,
{
    if j < 16 {
        let x = a >> j;
        assert({
            &&& x / 2 == a >> ((j + 1) as u32)
            &&& x % 2 == x & 1
            &&& (x == 0 ==> x & 1 == 0)
        }) by (bit_vector)
            requires
                j < 16,
                x == a >> j,
        ;
        lemma_lineup_len(a, (j + 1) as u32);
    } else {
        assert(a >> j == 0) by (bit_vector)
            requires
                j == 16,
                a <= 0xffff,
        ;
    }
}

/// The lineup from cell `j` on holds the dominoes on the set bits from `j`
/// on, and nothing else.
proof fn lemma_lineup_contains(a: u32, j: u32, p: u32)
    requires
        j <= 16,
    ensures
        lineup(a, j).contains(p) <==> exists|i: u32|
            j <= i < 16 && (a >> i) & 1 == 1 && p == domino(i),
    decreases 16 - j,
{
    if j < 16 {
        let next = (j + 1) as u32;
        let rest = lineup(a, next);
        lemma_lineup_contains(a, next, p);
        let here = (a >> j) & 1 == 1;
        if here {
            assert(lineup(a, j) == seq![domino(j)] + rest);
            assert((seq![domino(j)] + rest)[0] == domino(j));
            if lineup(a, j).contains(p) {
                let x = choose|x: int| 0 <= x < lineup(a, j).len() && lineup(a, j)[x] == p;
                if x == 0 {
                    assert(j <= j < 16 && (a >> j) & 1 == 1 && p == domino(j));
                } else {
                    assert(rest[x - 1] == p);
                }
            }
        }
        if rest.contains(p) {
            let i = choose|i: u32| next <= i < 16 && (a >> i) & 1 == 1 && p == domino(i);
            assert(j <= i < 16 && (a >> i) & 1 == 1 && p == domino(i));
            if here {
                let x = choose|x: int| 0 <= x < rest.len() && rest[x] == p;
                assert(lineup(a, j)[x + 1] == p);
            }
        }
        if exists|i: u32| j <= i < 16 && (a >> i) & 1 == 1 && p == domino(i) {
            let i = choose|i: u32| j <= i < 16 && (a >> i) & 1 == 1 && p == domino(i);
            if i != j {
                assert(next <= i < 16 && (a >> i) & 1 == 1 && p == domino(i));
            }
        }
    }
}

/// The dominoes of a well-formed slot are the non-zero masks that stand on
/// its upper cells.
pub proof fn lemma_dominoes(a: u32, m: u32, p: u32)
    requires
        anchors(a, m),
        ones(a) == 4,
    ensures
        dominoes(m) == lineup(a, 0),
        dominoes(m).contains(p) <==> exists|i: u32| i < 16 && (a >> i) & 1 == 1 && p == domino(i),
{
    assert((a >> 0u32) << 0u32 == a && a >> 0u32 == a) by (bit_vector);
    lemma_scan_lineup(a, 0);
    lemma_lineup_len(a, 0);
    lemma_lineup_contains(a, 0, p);
    assert(dominoes(m) =~= lineup(a, 0));
    if dominoes(m).contains(p) {
        let i = choose|i: u32| 0 <= i < 16 && (a >> i) & 1 == 1 && p == domino(i);
        assert(i < 16 && (a >> i) & 1 == 1 && p == domino(i));
    }
    if exists|i: u32| i < 16 && (a >> i) & 1 == 1 && p == domino(i) {
        let i = choose|i: u32| i < 16 && (a >> i) & 1 == 1 && p == domino(i);
        assert(0 <= i < 16 && (a >> i) & 1 == 1 && p == domino(i));
    }
}

/// Four masks with at most 4, 8, 2 and 4 set bits whose union has 18 have
/// exactly that many, and no two of them share a bit.
pub proof fn lemma_tight(x0: u32, x1: u32, x2: u32, x3: u32)
    requires
        ones(x0) <= 4,
        ones(x1) <= 8,
        ones(x2) <= 2,
        ones(x3) <= 4,
        ones(x0 | x1 | x2 | x3) == 18,
    ensures
        ones(x0) == 4,
        ones(x1) == 8,
        ones(x2) == 2,
        ones(x3) == 4,
        x0 & x1 == 0,
        x0 & x2 == 0,
        x0 & x3 == 0,
        x1 & x2 == 0,
        x1 & x3 == 0,
        x2 & x3 == 0,
{
    let u3 = x2 | x3;
    let u2 = x1 | u3;
    let u1 = x0 | u2;
    lemma_ones_union(x2, x3);
    lemma_ones_union(x1, u3);
    lemma_ones_union(x0, u2);
    assert(u1 == x0 | x1 | x2 | x3) by (bit_vector)
        requires
            u1 == x0 | (x1 | (x2 | x3)),
    ;
    lemma_ones_zero(x2 & x3);
    lemma_ones_zero(x1 & u3);
    lemma_ones_zero(x0 & u2);
    assert(x0 & x1 == 0 && x0 & x2 == 0 && x0 & x3 == 0 && x1 & x2 == 0 && x1 & x3 == 0) by (bit_vector)
        requires
            x1 & (x2 | x3) == 0,
            x0 & (x1 | (x2 | x3)) == 0,
    ;
}

/// A piece on the board that is not on the edge it moves towards stays on
/// the board, keeps its cells' number, leaves the opposite edge, and comes
/// back by the opposite slide.
pub proof fn lemma_shift(p: u32, d: Direction)
    requires
        p <= BOARD,
        p & d.edge() == 0,
    ensures
        d.shift(p) <= BOARD,
        d.shift(p) & d.opposite().edge() == 0,
        d.opposite().shift(d.shift(p)) == p,
        ones(d.shift(p)) == ones(p),
{
    assert({
        &&& (p & 0x88888 == 0 ==> (p << 1) <= 0xfffff && (p << 1) & 0x11111 == 0 && (p << 1) >> 1
            == p)
        &&& (p & 0x0000f == 0 ==> (p >> 4) <= 0xfffff && (p >> 4) & 0xf0000 == 0 && (p >> 4) << 4
            == p)
        &&& (p & 0x11111 == 0 ==> (p >> 1) <= 0xfffff && (p >> 1) & 0x88888 == 0 && (p >> 1) << 1
            == p)
        &&& (p & 0xf0000 == 0 ==> (p << 4) <= 0xfffff && (p << 4) & 0x0000f == 0 && (p << 4) >> 4
            == p)
        &&& p <= (0xffff_ffffu32 >> 4)
        &&& p <= (0xffff_ffffu32 >> 1)
    }) by (bit_vector)
        requires
            p <= 0xfffff,
    ;
    match d {
        Direction::Right => {
            lemma_ones_shl(p, 1);
        },
        Direction::Up => {
            lemma_ones_shr(p, 4);
        },
        Direction::Left => {
            lemma_ones_shr(p, 1);
        },
        Direction::Down => {
            lemma_ones_shl(p, 4);
        },
    }
}

/// A single cell slides to the neighbouring cell.
proof fn lemma_single_shift(i: u32, d: Direction)
    requires
        i < 20,
        (1u32 << i) & d.edge() == 0,
    ensures
        d.cell(i) < 20,
        d.shift(1u32 << i) == 1u32 << d.cell(i),
{
    let p = 1u32 << i;
    assert({
        &&& (p & 0x88888 == 0 ==> i + 1 < 20 && p << 1 == 1u32 << ((i + 1) as u32))
        &&& (p & 0x0000f == 0 ==> i >= 4 && p >> 4 == 1u32 << ((i - 4) as u32))
        &&& (p & 0x11111 == 0 ==> i >= 1 && p >> 1 == 1u32 << ((i - 1) as u32))
        &&& (p & 0xf0000 == 0 ==> i + 4 < 20 && p << 4 == 1u32 << ((i + 4) as u32))
    }) by (bit_vector)
        requires
            i < 20,
            p == 1u32 << i,
    ;
}

/// An upright domino slides to the domino on the neighbouring cell.
proof fn lemma_domino_shift(i: u32, d: Direction)
    requires
        i < 16,
        domino(i) & d.edge() == 0,
    ensures
        d.cell(i) < 16,
        d.shift(domino(i)) == domino(d.cell(i)),
{
    let p = 0x11u32 << i;
    assert({
        &&& (p & 0x88888 == 0 ==> i + 1 < 16 && p << 1 == 0x11u32 << ((i + 1) as u32))
        &&& (p & 0x0000f == 0 ==> i >= 4 && p >> 4 == 0x11u32 << ((i - 4) as u32))
        &&& (p & 0x11111 == 0 ==> i >= 1 && p >> 1 == 0x11u32 << ((i - 1) as u32))
        &&& (p & 0xf0000 == 0 ==> i + 4 < 16 && p << 4 == 0x11u32 << ((i + 4) as u32))
    }) by (bit_vector)
        requires
            i < 16,
            p == 0x11u32 << i,
    ;
}

/// A flat domino stays a flat domino when it slides.
proof fn lemma_flat_shift(m: u32, d: Direction)
    requires
        is_flat(m),
        m & d.edge() == 0,
    ensures
        is_flat(d.shift(m)),
{
    let c = choose|c: u32| c < 19 && c % 4 != 3 && m == 3u32 << c;
    assert({
        &&& (m & 0x88888 == 0 ==> c + 1 < 19 && ((c + 1) as u32) % 4 != 3 && m << 1 == 3u32 << ((c + 1) as u32))
        &&& (m & 0x0000f == 0 ==> c >= 4 && ((c - 4) as u32) % 4 != 3 && m >> 4 == 3u32 << ((c - 4) as u32))
        &&& (m & 0x11111 == 0 ==> c >= 1 && ((c - 1) as u32) % 4 != 3 && m >> 1 == 3u32 << ((c - 1) as u32))
        &&& (m & 0xf0000 == 0 ==> c + 4 < 19 && ((c + 4) as u32) % 4 != 3 && m << 4 == 3u32 << ((c + 4) as u32))
    }) by (bit_vector)
        requires
            c < 19,
            c % 4 != 3,
            m == 3u32 << c,
    ;
    let c2 = d.cell(c);
    assert(c2 < 19 && c2 % 4 != 3 && d.shift(m) == 3u32 << c2);
}

/// A square stays a square when it slides.
proof fn lemma_square_shift(m: u32, d: Direction)
    requires
        is_square(m),
        m & d.edge() == 0,
    ensures
        is_square(d.shift(m)),
{
    let c = choose|c: u32| c < 15 && c % 4 != 3 && m == 0x33u32 << c;
    assert({
        &&& (m & 0x88888 == 0 ==> c + 1 < 15 && ((c + 1) as u32) % 4 != 3 && m << 1 == 0x33u32 << ((c + 1) as u32))
        &&& (m & 0x0000f == 0 ==> c >= 4 && ((c - 4) as u32) % 4 != 3 && m >> 4 == 0x33u32 << ((c - 4) as u32))
        &&& (m & 0x11111 == 0 ==> c >= 1 && ((c - 1) as u32) % 4 != 3 && m >> 1 == 0x33u32 << ((c - 1) as u32))
        &&& (m & 0xf0000 == 0 ==> c + 4 < 15 && ((c + 4) as u32) % 4 != 3 && m << 4 == 0x33u32 << ((c + 4) as u32))
    }) by (bit_vector)
        requires
            c < 15,
            c % 4 != 3,
            m == 0x33u32 << c,
    ;
    let c2 = d.cell(c);
    assert(c2 < 15 && c2 % 4 != 3 && d.shift(m) == 0x33u32 << c2);
}

/// How many cells the pieces of a shape cover, and that they lie on the board.
proof fn lemma_shapes(a: u32, m1: u32, m2: u32, m3: u32)
    requires
        anchors(a, m1),
        is_flat(m2),
        is_square(m3),
    ensures
        ones(m1) == 2 * ones(a),
        ones(m2) == 2,
        ones(m3) == 4,
        m1 <= BOARD,
        m2 <= BOARD,
        m3 <= BOARD,
{
    let c2 = choose|c: u32| c < 19 && c % 4 != 3 && m2 == 3u32 << c;
    let c3 = choose|c: u32| c < 15 && c % 4 != 3 && m3 == 0x33u32 << c;
    assert({
        &&& a <= (0xffff_ffffu32 >> 4)
        &&& (a | (a << 4)) <= 0xfffff
        &&& 3u32 <= (0xffff_ffffu32 >> c2)
        &&& (3u32 << c2) <= 0xfffff
        &&& 0x33u32 <= (0xffff_ffffu32 >> c3)
        &&& (0x33u32 << c3) <= 0xfffff
    }) by (bit_vector)
        requires
            a <= 0xffff,
            c2 < 19,
            c3 < 15,
    ;
    lemma_ones_shl(a, 4);
    lemma_ones_union(a, a << 4);
    lemma_ones_shl(3, c2);
    lemma_ones_shl(0x33, c3);
    assert(ones(0) == 0);
    assert(ones(3) == 2) by {
        reveal_with_fuel(ones, 3);
    }
    assert(ones(0x33) == 4) by {
        reveal_with_fuel(ones, 7);
    }
}

/// In a well-formed state every kind of piece covers as many cells as it
/// has, all on the board, and no cell is covered twice.
pub proof fn lemma_valid(s: State)
    requires
        valid(s),
    ensures
        ones(s.0[0]) == 4,
        ones(s.0[1]) == 8,
        ones(s.0[2]) == 2,
        ones(s.0[3]) == 4,
        s.0[0] <= BOARD,
        s.0[1] <= BOARD,
        s.0[2] <= BOARD,
        s.0[3] <= BOARD,
        s.0[0] & s.0[1] == 0,
        s.0[0] & s.0[2] == 0,
        s.0[0] & s.0[3] == 0,
        s.0[1] & s.0[2] == 0,
        s.0[1] & s.0[3] == 0,
        s.0[2] & s.0[3] == 0,
{
    let a = choose|a: u32| #[trigger] anchors(a, s.0[1]) && ones(a) == 4;
    lemma_shapes(a, s.0[1], s.0[2], s.0[3]);
    lemma_tight(s.0[0], s.0[1], s.0[2], s.0[3]);
}

/// Sliding the flat domino or the square keeps the state well formed and
/// can be undone.
proof fn lemma_slide_whole(a: State, b: State, k: int, d: Direction)
    requires
        valid(a),
        k == 2 || k == 3,
        is_slide(a, b, k, a.0[k], d),
    ensures
        valid(b),
        is_slide(b, a, k, d.shift(a.0[k]), d.opposite()),
{
    let p = a.0[k];
    let q = d.shift(p);
    let e = d.opposite();
    lemma_valid(a);
    lemma_shift(p, d);
    assert((p ^ p) | q == q && (q ^ q) | p == p) by (bit_vector);
    if k == 2 {
        lemma_flat_shift(p, d);
    } else {
        lemma_square_shift(p, d);
    }
    let a1 = choose|a1: u32| #[trigger] anchors(a1, a.0[1]) && ones(a1) == 4;
    assert(anchors(a1, b.0[1]));
    assert(a.0 =~= b.moved(k, q, e).0);
}

/// Sliding a single cell keeps the state well formed and can be undone.
proof fn lemma_slide_single(a: State, b: State, p: u32, d: Direction)
    requires
        valid(a),
        is_slide(a, b, 0, p, d),
    ensures
        valid(b),
        is_slide(b, a, 0, d.shift(p), d.opposite()),
{
    let q = d.shift(p);
    let e = d.opposite();
    let i = choose|i: u32| i < 20 && (a.0[0] >> i) & 1 == 1 && p == 1u32 << i;
    let t = d.cell(i);
    let a0 = a.0[0];
    let b0 = (a0 ^ p) | q;
    lemma_valid(a);
    lemma_single_shift(i, d);
    assert({
        &&& a0 & p == p
        &&& p <= 0xfffff
        &&& b0 <= 0xfffff
        &&& (b0 >> t) & 1 == 1
        &&& ((a0 ^ p) & q == 0 ==> (b0 ^ q) | p == a0)
        &&& 1u32 <= (0xffff_ffffu32 >> i)
    }) by (bit_vector)
        requires
            i < 20,
            t < 20,
            (a0 >> i) & 1 == 1,
            a0 <= 0xfffff,
            p == 1u32 << i,
            q == 1u32 << t,
            b0 == (a0 ^ p) | q,
    ;
    lemma_shift(p, d);
    lemma_ones_shl(1, i);
    assert(ones(1) == 1) by {
        reveal_with_fuel(ones, 2);
    }
    lemma_ones_xor(a0, p);
    lemma_ones_union(a0 ^ p, q);
    lemma_tight(b0, a.0[1], a.0[2], a.0[3]);
    lemma_ones_zero((a0 ^ p) & q);
    let a1 = choose|a1: u32| #[trigger] anchors(a1, a.0[1]) && ones(a1) == 4;
    assert(anchors(a1, b.0[1]));
    assert(t < 20 && (b.0[0] >> t) & 1 == 1 && q == 1u32 << t);
    assert(a.0 =~= b.moved(0, q, e).0);
}

/// Sliding an upright domino keeps the state well formed and can be
/// undone.
proof fn lemma_slide_domino(a: State, b: State, p: u32, d: Direction)
    requires
        valid(a),
        is_slide(a, b, 1, p, d),
    ensures
        valid(b),
        is_slide(b, a, 1, d.shift(p), d.opposite()),
{
    let q = d.shift(p);
    let e = d.opposite();
    let m = a.0[1];
    let n = m ^ p ^ q;
    let tops = choose|tops: u32| #[trigger] anchors(tops, m) && ones(tops) == 4;
    lemma_valid(a);
    lemma_dominoes(tops, m, p);
    let i = choose|i: u32| i < 16 && (tops >> i) & 1 == 1 && p == domino(i);
    let t = d.cell(i);
    lemma_domino_shift(i, d);
    let lifted = tops ^ (1u32 << i);
    let tops2 = lifted | (1u32 << t);
    assert({
        &&& m & p == p
        &&& p <= 0xfffff
        &&& q != 0
        &&& n ^ q ^ p == m
        &&& tops & (1u32 << i) == 1u32 << i
        &&& 0x11u32 <= (0xffff_ffffu32 >> i)
        &&& 1u32 <= (0xffff_ffffu32 >> i)
        &&& 1u32 <= (0xffff_ffffu32 >> t)
        &&& ((m ^ p) & q == 0 ==> {
            &&& tops2 <= 0xffff
            &&& tops2 & (tops2 << 4) == 0
            &&& n == tops2 | (tops2 << 4)
            &&& (tops2 >> t) & 1 == 1
            &&& lifted & (1u32 << t) == 0
        })
    }) by (bit_vector)
        requires
            i < 16,
            t < 16,
            tops <= 0xffff,
            tops & (tops << 4) == 0,
            m == tops | (tops << 4),
            (tops >> i) & 1 == 1,
            p == 0x11u32 << i,
            q == 0x11u32 << t,
            n == m ^ p ^ q,
            lifted == tops ^ (1u32 << i),
            tops2 == lifted | (1u32 << t),
    ;
    lemma_shift(p, d);
    lemma_ones_shl(0x11, i);
    lemma_ones_shl(1, i);
    lemma_ones_shl(1, t);
    assert(ones(1) == 1) by {
        reveal_with_fuel(ones, 2);
    }
    assert(ones(0x11) == 2) by {
        reveal_with_fuel(ones, 6);
    }
    lemma_ones_xor(m, p);
    lemma_ones_xor(m ^ p, q);
    lemma_tight(a.0[0], n, a.0[2], a.0[3]);
    lemma_ones_zero((m ^ p) & q);
    lemma_ones_xor(tops, 1u32 << i);
    lemma_ones_union(lifted, 1u32 << t);
    assert(ones(0) == 0);
    assert(anchors(tops2, b.0[1]) && ones(tops2) == 4);
    lemma_dominoes(tops2, n, q);
    assert(t < 16 && (tops2 >> t) & 1 == 1 && q == domino(t));
    assert(a.0 =~= b.moved(1, q, e).0);
}

/// A slide out of a well-formed state leads to a well-formed state, and the
/// same piece slides back the opposite way.
pub proof fn lemma_slide_back(a: State, b: State, k: int, p: u32, d: Direction)
    requires
        valid(a),
        is_slide(a, b, k, p, d),
    ensures
        valid(b),
        is_slide(b, a, k, d.shift(p), d.opposite()),
{
    if k == 0 {
        lemma_slide_single(a, b, p, d);
    } else if k == 1 {
        lemma_slide_domino(a, b, p, d);
    } else {
        lemma_slide_whole(a, b, k, d);
    }
}

/// The starting layout is well formed.
pub proof fn lemma_initial_valid()
    ensures
        valid(State::initial()),
{
    let s = State::initial();
    assert({
        &&& 0x9090u32 & (0x9090u32 << 4) == 0
        &&& 0x99990u32 == 0x9090u32 | (0x9090u32 << 4)
        &&& 0x00600u32 == 3u32 << 9u32
        &&& 0x66000u32 == 0x33u32 << 13u32
        &&& 0x00069u32 | 0x99990u32 | 0x00600u32 | 0x66000u32 == 0xffff9u32
    }) by (bit_vector);
    assert(ones(0x69) == 4) by {
        reveal_with_fuel(ones, 8);
    }
    assert(ones(0x9090) == 4) by {
        reveal_with_fuel(ones, 17);
    }
    assert(ones(0xffff9) == 18) by {
        reveal_with_fuel(ones, 21);
    }
    assert(anchors(0x9090, s.0[1]));
    assert(9u32 < 19 && 9u32 % 4 != 3 && s.0[2] == 3u32 << 9u32);
    assert(13u32 < 15 && 13u32 % 4 != 3 && s.0[3] == 0x33u32 << 13u32);
}

/// Every successor of a well-formed state is well formed.
pub proof fn lemma_successor_valid(a: State, b: State)
    requires
        valid(a),
        a.successors().contains(b),
    ensures
        valid(b),
{
    lemma_successors_are_steps(a, b);
    let (k, p, d) = choose|k: int, p: u32, d: Direction| is_slide(a, b, k, p, d);
    lemma_slide_back(a, b, k, p, d);
}

/// Every move out of a well-formed state can be undone: if `b` is a
/// successor of `a`, then `a` is a successor of `b`.
pub proof fn lemma_reversible(a: State, b: State)
    requires
        valid(a),
        a.successors().contains(b),
    ensures
        b.successors().contains(a),
{
    lemma_successors_are_steps(a, b);
    let (k, p, d) = choose|k: int, p: u32, d: Direction| is_slide(a, b, k, p, d);
    lemma_slide_back(a, b, k, p, d);
    lemma_successors_are_steps(b, a);
}

/// A walk that starts in a well-formed state ends in one.
pub proof fn lemma_path_valid(p: Seq<State>)
    requires
        is_path(p),
        valid(p[0]),
    ensures
        valid(p.last()),
    decreases p.len(),
{
    if p.len() > 1 {
        lemma_path_drop_last(p);
        lemma_path_valid(p.drop_last());
        lemma_successor_valid(p.drop_last().last(), p.last());
    }
}

/// In every state that can be reached from the starting layout, the pieces
/// cover as many cells as in the starting layout, and no two kinds of piece
/// share a cell.
pub proof fn lemma_occupancy(s: State)
    requires
        reachable(State::initial(), s),
    ensures
        ones(s.union()) == ones(State::initial().union()),
        s.0[0] & s.0[1] == 0,
        s.0[0] & s.0[2] == 0,
        s.0[0] & s.0[3] == 0,
        s.0[1] & s.0[2] == 0,
        s.0[1] & s.0[3] == 0,
        s.0[2] & s.0[3] == 0,
{
    let p = choose|p: Seq<State>| #[trigger] is_path(p) && p[0] == State::initial() && p.last() == s;
    lemma_initial_valid();
    lemma_path_valid(p);
    lemma_valid(s);
}

/// In every state that can be reached from the starting layout, each kind
/// of piece covers as many cells as in the starting layout and keeps its
/// shape: the state is well formed.
pub proof fn lemma_shapes_kept(s: State, k: int)
    requires
        reachable(State::initial(), s),
        0 <= k < 4,
    ensures
        ones(s.0[k]) == ones(State::initial().0[k]),
        valid(s),
{
    let p = choose|p: Seq<State>| #[trigger] is_path(p) && p[0] == State::initial() && p.last() == s;
    lemma_initial_valid();
    lemma_path_valid(p);
    lemma_valid(s);
    lemma_valid(State::initial());
}

/// Every move between states that can be reached from the starting layout
/// can be undone.
pub proof fn lemma_reachable_reversible(a: State, b: State)
    requires
        reachable(State::initial(), a),
        a.successors().contains(b),
    ensures
        b.successors().contains(a),
{
    lemma_shapes_kept(a, 0);
    lemma_reversible(a, b);
}

/// The single cells below `n` have at most four moves each.
proof fn lemma_single_moves_len(a: State, n: u32)
    requires
        n <= 20,
    ensures
        a.single_moves(n as nat).len() <= 4 * ones(a.0[0] & !(0xffff_ffffu32 << n)),
    decreases n,
{
    let x = a.0[0];
    if n == 0 {
        assert(x & !(0xffff_ffffu32 << 0u32) == 0) by (bit_vector);
    } else {
        let i = (n - 1) as u32;
        let below = x & !(0xffff_ffffu32 << i);
        let upto = x & !(0xffff_ffffu32 << n);
        let bit = 1u32 << i;
        lemma_single_moves_len(a, i);
        assert({
            &&& ((x >> i) & 1 == 1 ==> upto == below | bit && below & bit == 0)
            &&& ((x >> i) & 1 != 1 ==> upto == below)
            &&& 1u32 <= (0xffff_ffffu32 >> i)
        }) by (bit_vector)
            requires
                0 < n <= 20,
                i == n - 1,
                below == x & !(0xffff_ffffu32 << i),
                upto == x & !(0xffff_ffffu32 << n),
                bit == 1u32 << i,
        ;
        if (x >> i) & 1 == 1 {
            lemma_ones_union(below, bit);
            lemma_ones_shl(1, i);
            assert(ones(1) == 1) by {
                reveal_with_fuel(ones, 2);
            }
            assert(ones(0) == 0);
        }
    }
}

/// The first `n` dominoes have at most four moves each.
proof fn lemma_domino_moves_len(a: State, n: nat)
    requires
        n <= 4,
    ensures
        a.domino_moves(n).len() <= 4 * n,
    decreases n,
{
    if n > 0 {
        lemma_domino_moves_len(a, (n - 1) as nat);
    }
}

/// A well-formed state has at most four successors for each of its ten
/// pieces.
pub proof fn lemma_successors_bounded(a: State)
    requires
        valid(a),
    ensures
        a.successors().len() <= 40,
{
    let x = a.0[0];
    lemma_single_moves_len(a, 20);
    lemma_domino_moves_len(a, 4);
    assert(x & !(0xffff_ffffu32 << 20u32) == x) by (bit_vector)
        requires
            x <= 0xfffff,
    ;
}

/// Listing the successors of a state again gives the same states in the
/// same order: the list depends on the state alone.
pub proof fn lemma_enumeration_repeatable(a: State, first: Seq<State>, second: Seq<State>)
    requires
        first == a.successors(),
        second == a.successors(),
    ensures
        first == second,
        first.to_set() == second.to_set(),
{
}

} // verus!
