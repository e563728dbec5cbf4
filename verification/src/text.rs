use vstd::prelude::*;
use vstd::string::StringExecFns;
use crate::deduce::number_of;
use crate::rotation::{P_DL, P_NONE, P_RD, P_RL, P_UD, P_UL, P_UR};
use crate::stage::SolvingStage;

verus! {

/// Every cell of `s` holds a clue from 0 to 3 or is empty (-1).
pub open spec fn numbers_valid(s: SolvingStage) -> bool {
    forall|r: int, c: int|
        0 <= r < s.size_r && 0 <= c < s.size_c ==> -1 <= #[trigger] number_of(s, r, c) <= 3
}

/// How a cell number is shown: a space for an empty cell, the digit of a clue from
/// 0 to 3, and nothing for any other value.
pub open spec fn number_glyph(n: i8) -> Seq<char> {
    if n == -1 {
        seq![' ']
    } else if n == 0 {
        seq!['0']
    } else if n == 1 {
        seq!['1']
    } else if n == 2 {
        seq!['2']
    } else if n == 3 {
        seq!['3']
    } else {
        Seq::empty()
    }
}

/// The glyphs of the first `n` cells of row `r`.
pub open spec fn row_text(s: SolvingStage, r: int, n: int) -> Seq<char>
    decreases n,
{
    if n <= 0 {
        Seq::empty()
    } else {
        row_text(s, r, n - 1) + number_glyph(number_of(s, r, n - 1))
    }
}

/// The first `n` rows of the board, each as its glyphs, joined by `|`.
pub open spec fn rows_text(s: SolvingStage, n: int) -> Seq<char>
    decreases n,
{
    if n <= 0 {
        Seq::empty()
    } else if n == 1 {
        row_text(s, 0, s.size_c as int)
    } else {
        rows_text(s, n - 1) + seq!['|'] + row_text(s, n - 1, s.size_c as int)
    }
}

/// The numbers of the board as one line of text: the rows top to bottom, joined by
/// `|`, each cell shown by its glyph.
pub open spec fn puzzle_text(s: SolvingStage) -> Seq<char> {
    rows_text(s, s.size_r as int)
}

/// Appends the glyph of the number `n`.
fn push_glyph(out: &mut String, n: i8)
    ensures
        final(out)@ == old(out)@ + number_glyph(n),
{
    if n == -1 {
        proof {
            reveal_strlit(" ");
        }
        out.append(" ");
    } else if n == 0 {
        proof {
            reveal_strlit("0");
        }
        out.append("0");
    } else if n == 1 {
        proof {
            reveal_strlit("1");
        }
        out.append("1");
    } else if n == 2 {
        proof {
            reveal_strlit("2");
        }
        out.append("2");
    } else if n == 3 {
        proof {
            reveal_strlit("3");
        }
        out.append("3");
    } else {
        assert(old(out)@ + number_glyph(n) =~= old(out)@);
    }
}

/// The numbers of `stage` as one line of text: each row of cells, top to bottom, with
/// `" "` for an empty cell and the digit of each clue, rows separated by `|`.
pub fn puzzle_string(stage: &SolvingStage) -> (res: String)
    requires
        stage.wf(),
    ensures
        res@ == puzzle_text(*stage),
{
    let mut ret = String::new();
    let mut r: isize = 0;
    while r < stage.size_r
        invariant
            stage.wf(),
            0 <= r <= stage.size_r,
            ret@ == rows_text(*stage, r as int),
        decreases stage.size_r - r,
    {
        if r != 0 {
            proof {
                reveal_strlit("|");
            }
            ret.append("|");
        }
        let ghost before = ret@;
        let mut c: isize = 0;
        while c < stage.size_c
            invariant
                stage.wf(),
                0 <= r < stage.size_r,
                0 <= c <= stage.size_c,
                ret@ == before + row_text(*stage, r as int, c as int),
            decreases stage.size_c - c,
        {
            let n = stage.cell(r * 2 + 1, c * 2 + 1);
            push_glyph(&mut ret, n);
            proof {
                assert(before + row_text(*stage, r as int, c + 1) =~= before + row_text(
                    *stage,
                    r as int,
                    c as int,
                ) + number_glyph(n));
            }
            c = c + 1;
        }
        proof {
            if r == 0 {
                assert(before =~= Seq::<char>::empty());
                assert(ret@ =~= rows_text(*stage, 1));
            } else {
                assert(ret@ =~= rows_text(*stage, r + 1));
            }
        }
        r = r + 1;
    }
    ret
}

/// A row of valid numbers shows one glyph per cell.
proof fn lemma_row_text_len(s: SolvingStage, r: int, n: int)
    requires
        numbers_valid(s),
        0 <= r < s.size_r,
        0 <= n <= s.size_c,
    ensures
        row_text(s, r, n).len() == n,
    decreases n,
{
    if n > 0 {
        lemma_row_text_len(s, r, n - 1);
        assert(-1 <= number_of(s, r, n - 1) <= 3);
    }
}

proof fn lemma_rows_text_len(s: SolvingStage, n: int)
    requires
        numbers_valid(s),
        s.size_c >= 0,
        1 <= n <= s.size_r,
    ensures
        rows_text(s, n).len() == n * s.size_c + n - 1,
    decreases n,
{
    lemma_row_text_len(s, n - 1, s.size_c as int);
    if n > 1 {
        lemma_rows_text_len(s, n - 1);
        assert((n - 1) * s.size_c + s.size_c == n * s.size_c) by (nonlinear_arith);
    } else {
        assert(1 * s.size_c == s.size_c);
    }
}

/// The text of a board whose numbers are all valid has one character per cell and
/// one separator between consecutive rows.
pub proof fn lemma_puzzle_text_len(s: SolvingStage)
    requires
        numbers_valid(s),
        s.size_r >= 1,
        s.size_c >= 0,
    ensures
        puzzle_text(s).len() == s.size_r * s.size_c + s.size_r - 1,
{
    lemma_rows_text_len(s, s.size_r as int);
}

/// The name of the `k`-th shape bit, in the order `p_dump` lists them.
pub open spec fn shape_name(k: int) -> Seq<char> {
    if k == 0 {
        seq!['P', '_', 'U', 'R']
    } else if k == 1 {
        seq!['P', '_', 'U', 'D']
    } else if k == 2 {
        seq!['P', '_', 'U', 'L']
    } else if k == 3 {
        seq!['P', '_', 'R', 'D']
    } else if k == 4 {
        seq!['P', '_', 'R', 'L']
    } else if k == 5 {
        seq!['P', '_', 'D', 'L']
    } else {
        seq!['P', '_', 'N', 'O', 'N', 'E']
    }
}

/// The `k`-th shape bit: `P_UR`, `P_UD`, `P_UL`, `P_RD`, `P_RL`, `P_DL`, `P_NONE`.
pub open spec fn shape_flag(k: int) -> i8 {
    if k == 0 {
        P_UR
    } else if k == 1 {
        P_UD
    } else if k == 2 {
        P_UL
    } else if k == 3 {
        P_RD
    } else if k == 4 {
        P_RL
    } else if k == 5 {
        P_DL
    } else {
        P_NONE
    }
}

/// The names of the shapes among the first `n` that `p` allows, in order.
pub open spec fn shape_names(p: i8, n: int) -> Seq<Seq<char>>
    decreases n,
{
    if n <= 0 {
        Seq::empty()
    } else if p & shape_flag(n - 1) == shape_flag(n - 1) {
        shape_names(p, n - 1).push(shape_name(n - 1))
    } else {
        shape_names(p, n - 1)
    }
}

/// The names joined with `" | "` between consecutive ones.
pub open spec fn joined(names: Seq<Seq<char>>) -> Seq<char>
    decreases names.len(),
{
    if names.len() == 0 {
        Seq::empty()
    } else if names.len() == 1 {
        names[0]
    } else {
        joined(names.drop_last()) + seq![' ', '|', ' '] + names.last()
    }
}

fn flag_at(k: usize) -> (res: i8)
    requires
        k < 7,
    ensures
        res == shape_flag(k as int),
{
    if k == 0 {
        P_UR
    } else if k == 1 {
        P_UD
    } else if k == 2 {
        P_UL
    } else if k == 3 {
        P_RD
    } else if k == 4 {
        P_RL
    } else if k == 5 {
        P_DL
    } else {
        P_NONE
    }
}

fn append_name(out: &mut String, k: usize)
    requires
        k < 7,
    ensures
        final(out)@ == old(out)@ + shape_name(k as int),
{
    if k == 0 {
        proof {
            reveal_strlit("P_UR");
        }
        out.append("P_UR");
    } else if k == 1 {
        proof {
            reveal_strlit("P_UD");
        }
        out.append("P_UD");
    } else if k == 2 {
        proof {
            reveal_strlit("P_UL");
        }
        out.append("P_UL");
    } else if k == 3 {
        proof {
            reveal_strlit("P_RD");
        }
        out.append("P_RD");
    } else if k == 4 {
        proof {
            reveal_strlit("P_RL");
        }
        out.append("P_RL");
    } else if k == 5 {
        proof {
            reveal_strlit("P_DL");
        }
        out.append("P_DL");
    } else {
        proof {
            reveal_strlit("P_NONE");
        }
        out.append("P_NONE");
    }
}

/// The names of the shapes the point value `p` allows, in the order `P_UR`, `P_UD`,
/// `P_UL`, `P_RD`, `P_RL`, `P_DL`, `P_NONE`, joined by `" | "`.
pub fn p_dump(p: i8) -> (res: String)
    ensures
        res@ == joined(shape_names(p, 7)),
{
    let mut ret = String::new();
    let mut any = false;
    let mut k: usize = 0;
    while k < 7
        invariant
            0 <= k <= 7,
            ret@ == joined(shape_names(p, k as int)),
            any == (shape_names(p, k as int).len() > 0),
        decreases 7 - k,
    {
        let f = flag_at(k);
        if p & f == f {
            let ghost before = shape_names(p, k as int);
            if any {
                proof {
                    reveal_strlit(" | ");
                }
                ret.append(" | ");
            }
            append_name(&mut ret, k);
            proof {
                let after = shape_names(p, k + 1);
                assert(after == before.push(shape_name(k as int)));
                assert(after.drop_last() =~= before);
                if before.len() == 0 {
                    assert(ret@ =~= joined(after));
                } else {
                    assert(ret@ =~= joined(after));
                }
            }
            any = true;
        }
        k = k + 1;
    }
    ret
}

/// How a horizontal line is drawn in a board dump, with the point to its right.
pub open spec fn h_glyph(v: i8) -> Seq<char> {
    if v == -1 {
        seq![' ', ' ', ' ', '+']
    } else if v == 0 {
        seq![' ', 'x', ' ', '+']
    } else if v == 1 {
        seq!['-', '-', '-', '+']
    } else {
        seq![' ', '?', ' ', '+']
    }
}

/// How a vertical line is drawn in a board dump.
pub open spec fn v_glyph(v: i8) -> Seq<char> {
    if v == -1 {
        seq![' ']
    } else if v == 0 {
        seq!['x']
    } else if v == 1 {
        seq!['|']
    } else {
        seq!['?']
    }
}

/// How a cell number is drawn in a board dump, three characters wide.
pub open spec fn n_glyph(n: i8) -> Seq<char> {
    if n == -1 {
        seq![' ', ' ', ' ']
    } else if n == 0 {
        seq![' ', '0', ' ']
    } else if n == 1 {
        seq![' ', '1', ' ']
    } else if n == 2 {
        seq![' ', '2', ' ']
    } else if n == 3 {
        seq![' ', '3', ' ']
    } else {
        seq![' ', '?', ' ']
    }
}

/// The row of points `r` with the first `n` horizontal lines between them.
pub open spec fn edge_line(s: SolvingStage, r: int, n: int) -> Seq<char>
    decreases n,
{
    if n <= 0 {
        seq!['+']
    } else {
        edge_line(s, r, n - 1) + h_glyph(s.at(2 * r, 2 * n - 1))
    }
}

/// The row of cells `r` up to its `n`-th vertical line, each line followed by the
/// number of the cell to its right when there is one.
pub open spec fn cell_line(s: SolvingStage, r: int, n: int) -> Seq<char>
    decreases n,
{
    if n <= 0 {
        Seq::empty()
    } else {
        cell_line(s, r, n - 1) + v_glyph(s.at(2 * r + 1, 2 * (n - 1))) + if n - 1 < s.size_c {
            n_glyph(s.at(2 * r + 1, 2 * (n - 1) + 1))
        } else {
            Seq::<char>::empty()
        }
    }
}

/// The first `m` rows of points of the board dump, each followed by its row of cells
/// when there is one below it.
pub open spec fn dump_rows(s: SolvingStage, m: int) -> Seq<Seq<char>>
    decreases m,
{
    if m <= 0 {
        Seq::empty()
    } else {
        let head = dump_rows(s, m - 1).push(edge_line(s, m - 1, s.size_c as int));
        if m - 1 < s.size_r {
            head.push(cell_line(s, m - 1, s.size_c + 1))
        } else {
            head
        }
    }
}

/// The lines of the board dump.
pub open spec fn dump_lines(s: SolvingStage) -> Seq<Seq<char>> {
    dump_rows(s, s.size_r + 1)
}

fn push_h_glyph(out: &mut String, v: i8)
    ensures
        final(out)@ == old(out)@ + h_glyph(v),
{
    if v == -1 {
        proof {
            reveal_strlit("   +");
        }
        out.append("   +");
    } else if v == 0 {
        proof {
            reveal_strlit(" x +");
        }
        out.append(" x +");
    } else if v == 1 {
        proof {
            reveal_strlit("---+");
        }
        out.append("---+");
    } else {
        proof {
            reveal_strlit(" ? +");
        }
        out.append(" ? +");
    }
}

fn push_v_glyph(out: &mut String, v: i8)
    ensures
        final(out)@ == old(out)@ + v_glyph(v),
{
    if v == -1 {
        proof {
            reveal_strlit(" ");
        }
        out.append(" ");
    } else if v == 0 {
        proof {
            reveal_strlit("x");
        }
        out.append("x");
    } else if v == 1 {
        proof {
            reveal_strlit("|");
        }
        out.append("|");
    } else {
        proof {
            reveal_strlit("?");
        }
        out.append("?");
    }
}

fn push_n_glyph(out: &mut String, n: i8)
    ensures
        final(out)@ == old(out)@ + n_glyph(n),
{
    if n == -1 {
        proof {
            reveal_strlit("   ");
        }
        out.append("   ");
    } else if n == 0 {
        proof {
            reveal_strlit(" 0 ");
        }
        out.append(" 0 ");
    } else if n == 1 {
        proof {
            reveal_strlit(" 1 ");
        }
        out.append(" 1 ");
    } else if n == 2 {
        proof {
            reveal_strlit(" 2 ");
        }
        out.append(" 2 ");
    } else if n == 3 {
        proof {
            reveal_strlit(" 3 ");
        }
        out.append(" 3 ");
    } else {
        proof {
            reveal_strlit(" ? ");
        }
        out.append(" ? ");
    }
}

impl SolvingStage {
    /// The lines of a drawing of the board: for each row of points, `+` joined by its
    /// horizontal lines (`---` drawn, ` x ` crossed out, blank undecided); below it,
    /// unless it is the last, its row of cells, each vertical line (`|`, `x` or blank)
    /// followed by the cell's number or blanks.
    pub fn board_lines(&self) -> (res: Vec<String>)
        requires
            self.wf(),
        ensures
            res@.len() == dump_lines(*self).len(),
            forall|k: int| 0 <= k < res@.len() ==> #[trigger] res@[k]@ == dump_lines(*self)[k],
    {
        let mut lines: Vec<String> = Vec::new();
        let mut r: isize = 0;
        while r < self.size_r + 1
            invariant
                self.wf(),
                0 <= r <= self.size_r + 1,
                lines@.len() == dump_rows(*self, r as int).len(),
                forall|k: int|
                    0 <= k < lines@.len() ==> #[trigger] lines@[k]@ == dump_rows(*self, r as int)[k],
            decreases self.size_r + 1 - r,
        {
            let mut line1 = String::new();
            proof {
                reveal_strlit("+");
            }
            line1.append("+");
            let mut c: isize = 0;
            while c < self.size_c
                invariant
                    self.wf(),
                    0 <= r <= self.size_r,
                    0 <= c <= self.size_c,
                    line1@ == edge_line(*self, r as int, c as int),
                decreases self.size_c - c,
            {
                let v = self.cell(r * 2, c * 2 + 1);
                push_h_glyph(&mut line1, v);
                c = c + 1;
            }
            let ghost before = lines@;
            lines.push(line1);
            if r < self.size_r {
                let mut line2 = String::new();
                let mut c: isize = 0;
                while c < self.size_c + 1
                    invariant
                        self.wf(),
                        0 <= r < self.size_r,
                        0 <= c <= self.size_c + 1,
                        line2@ == cell_line(*self, r as int, c as int),
                    decreases self.size_c + 1 - c,
                {
                    let v = self.cell(r * 2 + 1, c * 2);
                    push_v_glyph(&mut line2, v);
                    if c < self.size_c {
                        let n = self.cell(r * 2 + 1, c * 2 + 1);
                        push_n_glyph(&mut line2, n);
                    } else {
                        assert(line2@ =~= line2@ + Seq::<char>::empty());
                    }
                    c = c + 1;
                }
                lines.push(line2);
            }
            proof {
                let rows = dump_rows(*self, r + 1);
                assert(lines@.len() == rows.len());
                assert forall|k: int| 0 <= k < lines@.len() implies #[trigger] lines@[k]@ == rows[k] by {
                    if k < before.len() {
                        assert(lines@[k] == before[k]);
                    }
                }
            }
            r = r + 1;
        }
        lines
    }
}

} // verus!
