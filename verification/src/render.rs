//! A picture of a state as text, one coloured tile per covered cell.

use vstd::prelude::*;
use vstd::string::*;
use colored::Color;
use colored::Colorize;
use crate::state::{State, dominoes};

verus! {

/// The colours of the tiles.
#[derive(Clone, Copy, PartialEq, Eq, Debug)]
pub enum Tint {
    Green,
    Cyan,
    Blue,
    White,
    Purple,
    Yellow,
    Red,
}

impl Tint {
    /// The number by which a terminal knows the colour as a foreground.
    pub open spec fn code(self) -> Seq<char> {
        match self {
            Tint::Green => "32"@,
            Tint::Cyan => "36"@,
            Tint::Blue => "34"@,
            Tint::White => "37"@,
            Tint::Purple => "35"@,
            Tint::Yellow => "33"@,
            Tint::Red => "31"@,
        }
    }

    /// The colour of the tiles with the given label: green for the single
    /// cells, cyan, blue, white and purple for the upright dominoes, yellow
    /// for the flat domino, red for the square. Free cells and other labels
    /// have none.
    pub open spec fn spec_of(label: u8) -> Option<Tint> {
        if label == 1 {
            Some(Tint::Green)
        } else if label == 2 {
            Some(Tint::Cyan)
        } else if label == 3 {
            Some(Tint::Blue)
        } else if label == 4 {
            Some(Tint::White)
        } else if label == 5 {
            Some(Tint::Purple)
        } else if label == 6 {
            Some(Tint::Yellow)
        } else if label == 7 {
            Some(Tint::Red)
        } else {
            None
        }
    }

    /// The colour of the tiles with the given label, if it has one.
    #[verifier::when_used_as_spec(spec_of)]
    pub fn of(label: u8) -> (tint: Option<Tint>)
        ensures
            tint == Tint::spec_of(label),
    {
        match label {
            1 => Some(Tint::Green),
            2 => Some(Tint::Cyan),
            3 => Some(Tint::Blue),
            4 => Some(Tint::White),
            5 => Some(Tint::Purple),
            6 => Some(Tint::Yellow),
            7 => Some(Tint::Red),
            _ => None,
        }
    }
}

/// How a tile came out of the terminal library.
pub enum Look {
    /// The text alone: colours are switched off.
    Plain,
    /// The text between the escape sequence for its colour and the one that
    /// resets it.
    Coloured,
    /// The text and the reset sequence, without the one for the colour:
    /// colours were switched off while the tile was being made.
    Closed,
}

/// `text` in colour `tint`, as it comes out with the given look.
pub open spec fn painted(text: Seq<char>, tint: Tint, look: Look) -> Seq<char> {
    match look {
        Look::Plain => text,
        Look::Coloured => "\x1b["@ + tint.code() + "m"@ + text + "\x1b[0m"@,
        Look::Closed => text + "\x1b[0m"@,
    }
}

/// `colored::Colorize::color` on a `&str`, and the text that `Display` gives
/// for the resulting `ColoredString`. The crate asks its colour switch, which
/// is set from the environment and can be changed at any time, once before
/// it writes anything and again for the leading escape sequence. So nothing
/// can be promised but that the result has one of the three looks. A text
/// with an escape character in it is left out, because the crate rewrites
/// reset sequences inside the text.
#[verifier::external_body]
fn paint(text: &str, tint: Tint) -> (out: String)
    requires
        !text@.contains('\x1b'),
    ensures
        out@ == painted(text@, tint, Look::Plain) || out@ == painted(text@, tint, Look::Coloured)
            || out@ == painted(text@, tint, Look::Closed),
{
    let color = match tint {
        Tint::Green => Color::Green,
        Tint::Cyan => Color::Cyan,
        Tint::Blue => Color::Blue,
        Tint::White => Color::White,
        Tint::Purple => Color::Magenta,
        Tint::Yellow => Color::Yellow,
        Tint::Red => Color::Red,
    };
    text.color(color).to_string()
}

/// The text of one cell: two blanks for a free cell, else two blocks in the
/// colour of the label, with the given look.
pub open spec fn tile_text(label: u8, look: Look) -> Seq<char> {
    match Tint::spec_of(label) {
        None => "  "@,
        Some(tint) => painted("██"@, tint, look),
    }
}

/// The text of the `n` cells from cell `base` on.
pub open spec fn tiles_text(labels: Seq<u8>, looks: Seq<Look>, base: int, n: nat) -> Seq<char>
    decreases n,
{
    if n == 0 {
        Seq::empty()
    } else {
        tiles_text(labels, looks, base, (n - 1) as nat) + tile_text(
            labels[base + n - 1],
            looks[base + n - 1],
        )
    }
}

/// The text of the first `n` rows, each between its borders.
pub open spec fn rows_text(labels: Seq<u8>, looks: Seq<Look>, n: nat) -> Seq<char>
    decreases n,
{
    if n == 0 {
        Seq::empty()
    } else {
        rows_text(labels, looks, (n - 1) as nat) + "┃"@ + tiles_text(labels, looks, 4 * (n - 1), 4)
            + "┃\n"@
    }
}

/// The framed picture of a board with the given labels, where `looks` says
/// for each cell how its tile came out.
pub open spec fn picture(labels: Seq<u8>, looks: Seq<Look>) -> Seq<char> {
    "┏━━────━━┓\n"@ + rows_text(labels, looks, 5) + "┗━━━━━━━━┛\n"@
}

/// The text of cells depends on the looks of those cells only.
proof fn lemma_tiles_prefix(labels: Seq<u8>, looks: Seq<Look>, more: Seq<Look>, base: int, n: nat)
    requires
        0 <= base,
        base + n <= looks.len() <= more.len(),
        forall|i: int| 0 <= i < looks.len() ==> looks[i] == more[i],
    ensures
        tiles_text(labels, looks, base, n) == tiles_text(labels, more, base, n),
    decreases n,
{
    if n > 0 {
        lemma_tiles_prefix(labels, looks, more, base, (n - 1) as nat);
    }
}

/// The text of rows depends on the looks of their cells only.
proof fn lemma_rows_prefix(labels: Seq<u8>, looks: Seq<Look>, more: Seq<Look>, n: nat)
    requires
        4 * n <= looks.len() <= more.len(),
        forall|i: int| 0 <= i < looks.len() ==> looks[i] == more[i],
    ensures
        rows_text(labels, looks, n) == rows_text(labels, more, n),
    decreases n,
{
    if n > 0 {
        lemma_rows_prefix(labels, looks, more, (n - 1) as nat);
        lemma_tiles_prefix(labels, looks, more, 4 * (n - 1), 4);
    }
}

/// The text of one cell.
fn tile(label: u8) -> (out: String)
    ensures
        out@ == tile_text(label, Look::Plain) || out@ == tile_text(label, Look::Coloured) || out@
            == tile_text(label, Look::Closed),
{
    match Tint::of(label) {
        None => String::from_str("  "),
        Some(tint) => {
            proof {
                reveal_strlit("██");
            }
            paint("██", tint)
        },
    }
}

impl State {
    /// The masks of the seven groups of tiles that are told apart in a
    /// picture: the single cells, each upright domino, the flat domino and
    /// the square.
    pub open spec fn groups(self) -> Seq<u32> {
        let d = dominoes(self.0[1]);
        seq![self.0[0], d[0], d[1], d[2], d[3], self.0[2], self.0[3]]
    }

    /// The label of cell `j` among the first `n` groups: the number of the
    /// last of them that covers the cell, counted from 1, or 0 if none does.
    pub open spec fn label(self, j: u32, n: nat) -> u8
        decreases n,
    {
        if n == 0 {
            0
        } else if (self.groups()[n - 1] >> j) & 1 == 1 {
            n as u8
        } else {
            self.label(j, (n - 1) as nat)
        }
    }

    /// The label of each of the twenty cells.
    pub open spec fn labels(self) -> Seq<u8> {
        Seq::new(20, |j: int| self.label(j as u32, 7))
    }

    /// The label of each cell: 0 for a free cell, 1 for a single-cell piece,
    /// 2 to 5 for the upright dominoes, 6 for the flat domino, 7 for the
    /// square.
    pub fn cell_labels(&self) -> (field: [u8; 20])
        ensures
            field@ == self.labels(),
    {
        let d = Self::decompose_2x1(self.0[1]);
        let groups: [u32; 7] = [self.0[0], d[0], d[1], d[2], d[3], self.0[2], self.0[3]];
        let mut field: [u8; 20] = [0; 20];
        assert(groups@ =~= self.groups());
        let mut i: usize = 0;
        while i < 7
            invariant
                i <= 7,
                groups@ == self.groups(),
                forall|j: int| 0 <= j < 20 ==> field[j] == self.label(j as u32, i as nat),
            decreases 7 - i,
        {
            let x = groups[i];
            let mut j: u32 = 0;
            while j < 20
                invariant
                    i < 7,
                    j <= 20,
                    x == self.groups()[i as int],
                    forall|c: int| 0 <= c < j ==> field[c] == self.label(c as u32, (i + 1) as nat),
                    forall|c: int| j <= c < 20 ==> field[c] == self.label(c as u32, i as nat),
                decreases 20 - j,
            {
                if (x >> j) & 1 == 1 {
                    field[j as usize] = (i + 1) as u8;
                }
                j = j + 1;
            }
            i = i + 1;
        }
        assert(field@ =~= self.labels());
        field
    }

    /// The picture of the state: a frame around five rows of four tiles.
    /// Each tile of a piece comes out plain or coloured, as the terminal
    /// library decides.
    pub fn prerry_print(&self) -> (out: String)
        ensures
            exists|looks: Seq<Look>| looks.len() == 20 && out@ == picture(self.labels(), looks),
    {
        let field = self.cell_labels();
        let mut res = String::from_str("┏━━────━━┓\n");
        let ghost mut looks: Seq<Look> = Seq::empty();
        let mut r: usize = 0;
        while r < 5
            invariant
                r <= 5,
                field@ == self.labels(),
                looks.len() == 4 * r,
                res@ == "┏━━────━━┓\n"@ + rows_text(field@, looks, r as nat),
            decreases 5 - r,
        {
            let ghost before = looks;
            let ghost head = res@;
            res.append("┃");
            let mut c: usize = 0;
            while c < 4
                invariant
                    r < 5,
                    c <= 4,
                    field@.len() == 20,
                    looks.len() == 4 * r + c,
                    res@ == head + "┃"@ + tiles_text(field@, looks, 4 * r, c as nat),
                    before.len() == 4 * r,
                    forall|i: int| 0 <= i < before.len() ==> before[i] == looks[i],
                decreases 4 - c,
            {
                let label = field[4 * r + c];
                let text = tile(label);
                res.append(text.as_str());
                proof {
                    let earlier = looks;
                    looks = looks.push(
                        if text@ == tile_text(label, Look::Plain) {
                            Look::Plain
                        } else if text@ == tile_text(label, Look::Coloured) {
                            Look::Coloured
                        } else {
                            Look::Closed
                        },
                    );
                    lemma_tiles_prefix(field@, earlier, looks, 4 * r, c as nat);
                    assert(res@ =~= head + "┃"@ + tiles_text(field@, looks, 4 * r, (c + 1) as nat));
                }
                c = c + 1;
            }
            res.append("┃\n");
            proof {
                lemma_rows_prefix(field@, before, looks, r as nat);
                assert(res@ =~= "┏━━────━━┓\n"@ + rows_text(field@, looks, (r + 1) as nat));
            }
            r = r + 1;
        }
        res.append("┗━━━━━━━━┛\n");
        proof {
            assert(res@ =~= picture(self.labels(), looks));
        }
        res
    }
}

} // verus!
