//! Supply stacks: columns of labelled crates rearranged by a crane, one
//! batch of crates at a time, and read off by the top crate of each column.
use vstd::prelude::*;

use crate::text::all_digits;
use crate::text::byte_lines;
use crate::text::bytes_to_chars;
use crate::text::digits_val;
use crate::text::find_char;
use crate::text::first_idx;
use crate::text::lemma_first_idx_char;
use crate::text::lemma_first_idx_props;
use crate::text::parse_digits;
use crate::text::push_char;
use crate::text::split_lines_vec;

verus! {

/// Each element of the vec is a column of crates, bottom first. Columns may
/// be empty.
#[derive(Debug)]
pub struct Row(pub Vec<Vec<char>>);

impl View for Row {
    type V = Seq<Seq<char>>;

    open spec fn view(&self) -> Seq<Seq<char>> {
        self.0@.map_values(|col: Vec<char>| col@)
    }
}

impl Clone for Row {
    /// An identical, independent row.
    fn clone(&self) -> (r: Self)
        ensures
            r@ == self@,
    {
        let mut cols: Vec<Vec<char>> = Vec::new();
        for i in 0..self.0.len()
            invariant
                cols@.len() == i,
                forall|k: int| 0 <= k < i ==> (#[trigger] cols@[k])@ == self@[k],
        {
            let src = &self.0[i];
            let mut col: Vec<char> = Vec::new();
            for j in 0..src.len()
                invariant
                    col@ =~= src@.take(j as int),
            {
                proof {
                    assert(src@.take(j + 1) =~= src@.take(j as int).push(src@[j as int]));
                }
                col.push(src[j]);
            }
            proof {
                assert(src@.take(src@.len() as int) =~= src@);
                assert(self@[i as int] == src@);
            }
            cols.push(col);
        }
        let r = Row(cols);
        proof {
            assert(r@ =~= self@);
        }
        r
    }
}

/// `top` placed on `base`: each column of `top` lands on the matching column
/// of `base`; extra columns of `base` stay as they are.
pub open spec fn stack_spec(base: Seq<Seq<char>>, top: Seq<Seq<char>>) -> Seq<Seq<char>> {
    Seq::new(
        base.len(),
        |i: int|
            if i < top.len() {
                base[i] + top[i]
            } else {
                base[i]
            },
    )
}

/// The labels of the top crate of each column, skipping empty columns.
pub open spec fn tops(cols: Seq<Seq<char>>) -> Seq<char>
    decreases cols.len(),
{
    if cols.len() == 0 {
        Seq::empty()
    } else {
        (if cols[0].len() > 0 {
            seq![cols[0].last()]
        } else {
            Seq::empty()
        }) + tops(cols.drop_first())
    }
}

/// Move a certain quantity of crates from column `src` to column `dst`.
/// Uses 0-based indices for `src` and `dst`.
#[derive(Clone, Copy, Debug)]
pub struct Rearrangement {
    pub qty: usize,
    pub src: usize,
    pub dst: usize,
}

/// Whether a rearrangement can be carried out on the row: both columns
/// exist and the source column holds enough crates.
pub open spec fn cmd_ok(row: Seq<Seq<char>>, cmd: Rearrangement) -> bool {
    &&& cmd.src < row.len()
    &&& cmd.dst < row.len()
    &&& cmd.qty <= row[cmd.src as int].len()
}

/// The row after one rearrangement: the top `qty` crates leave `src` and
/// land on `dst`, reversed by the lifting unless the crane moves them in one
/// batch (`preserve_order`).
pub open spec fn apply_cmd(row: Seq<Seq<char>>, cmd: Rearrangement, preserve_order: bool) -> Seq<
    Seq<char>,
> {
    let keep = (row[cmd.src as int].len() - cmd.qty) as int;
    let lifted = row[cmd.src as int].skip(keep);
    let moved = if preserve_order {
        lifted
    } else {
        lifted.reverse()
    };
    let mid = row.update(cmd.src as int, row[cmd.src as int].take(keep));
    mid.update(cmd.dst as int, mid[cmd.dst as int] + moved)
}

impl Row {
    /// Put `other` on top of `self`.
    #[must_use]
    pub fn stack(self, other: Self) -> (r: Self)
        requires
            other@.len() <= self@.len(),
        ensures
            r@ == stack_spec(self@, other@),
    {
        let mut s = self;
        let ghost base = s@;
        for i in 0..other.0.len()
            invariant
                other@.len() <= base.len(),
                s@.len() == base.len(),
                forall|k: int| 0 <= k < i ==> #[trigger] s@[k] == base[k] + other@[k],
                forall|k: int| i <= k < base.len() ==> #[trigger] s@[k] == base[k],
        {
            let col = &other.0[i];
            let ghost mid = s@;
            for j in 0..col.len()
                invariant
                    0 <= i < other@.len() <= base.len(),
                    col@ == other@[i as int],
                    s@.len() == base.len(),
                    forall|k: int| 0 <= k < base.len() && k != i ==> #[trigger] s@[k] == mid[k],
                    s@[i as int] == mid[i as int] + col@.take(j as int),
            {
                proof {
                    assert(col@.take(j + 1) =~= col@.take(j as int).push(col@[j as int]));
                    assert(mid[i as int] + col@.take(j + 1) =~= (mid[i as int] + col@.take(
                        j as int,
                    )).push(col@[j as int]));
                }
                let c = col[j];
                self_push(&mut s, i, c);
            }
            proof {
                assert(col@.take(col@.len() as int) =~= col@);
            }
        }
        proof {
            assert(s@ =~= stack_spec(base, other@));
        }
        s
    }

    /// Make a string from the character labelling the top crate of every
    /// column.
    pub fn top_of_each_column(&self) -> (r: String)
        ensures
            r@ == tops(self@),
    {
        let mut r = String::new();
        for i in 0..self.0.len()
            invariant
                r@ == tops(self@.take(i as int)),
        {
            let col = &self.0[i];
            proof {
                assert(self@[i as int] == col@);
                lemma_tops_push(self@, i as int);
            }
            if col.len() > 0 {
                let c = col[col.len() - 1];
                push_char(&mut r, c);
            }
        }
        proof {
            assert(self@.take(self@.len() as int) =~= self@);
        }
        r
    }

    /// Use the crane to rearrange crates: lift `qty` crates one by one off
    /// `src`, then drop the batch on `dst` (in lifting order, or in original
    /// order when `preserve_order` asks the crane to move them all at once).
    pub fn move_crates(&mut self, rearrangement: &Rearrangement, preserve_order: bool)
        requires
            cmd_ok(old(self)@, *rearrangement),
        ensures
            final(self)@ == apply_cmd(old(self)@, *rearrangement, preserve_order),
    {
        let ghost row0 = self@;
        let ghost keep = (row0[rearrangement.src as int].len() - rearrangement.qty) as int;
        let mut buf: Vec<char> = Vec::new();
        for step in 0..rearrangement.qty
            invariant
                cmd_ok(row0, *rearrangement),
                keep == row0[rearrangement.src as int].len() - rearrangement.qty,
                self@.len() == row0.len(),
                forall|k: int|
                    0 <= k < row0.len() && k != rearrangement.src ==> #[trigger] self@[k]
                        == row0[k],
                self@[rearrangement.src as int] == row0[rearrangement.src as int].take(
                    row0[rearrangement.src as int].len() - step,
                ),
                buf@ =~= row0[rearrangement.src as int].skip(
                    row0[rearrangement.src as int].len() - step,
                ).reverse(),
        {
            let ghost srccol = row0[rearrangement.src as int];
            proof {
                assert(srccol.take(srccol.len() - step).len() == srccol.len() - step);
                assert(srccol.take(srccol.len() - step).drop_last() =~= srccol.take(
                    srccol.len() - (step + 1),
                ));
                assert(srccol.take(srccol.len() - step).last() == srccol[srccol.len() - step - 1]);
                assert(srccol.skip(srccol.len() - (step + 1)).reverse() =~= srccol.skip(
                    srccol.len() - step,
                ).reverse().push(srccol[srccol.len() - step - 1]));
            }
            let to_move = self_pop(self, rearrangement.src);
            buf.push(to_move);
        }
        let ghost lifted = row0[rearrangement.src as int].skip(keep);
        proof {
            assert(buf@ =~= lifted.reverse());
        }
        let moved = if preserve_order {
            reverse_chars(buf)
        } else {
            buf
        };
        proof {
            if preserve_order {
                assert(lifted.reverse().reverse() =~= lifted);
            }
        }
        let ghost mid = self@;
        for j in 0..moved.len()
            invariant
                rearrangement.dst < mid.len(),
                mid.len() == self@.len(),
                forall|k: int|
                    0 <= k < mid.len() && k != rearrangement.dst ==> #[trigger] self@[k] == mid[k],
                self@[rearrangement.dst as int] == mid[rearrangement.dst as int] + moved@.take(
                    j as int,
                ),
        {
            proof {
                assert(moved@.take(j + 1) =~= moved@.take(j as int).push(moved@[j as int]));
                assert(mid[rearrangement.dst as int] + moved@.take(j + 1) =~= (
                mid[rearrangement.dst as int] + moved@.take(j as int)).push(moved@[j as int]));
            }
            let c = moved[j];
            self_push(self, rearrangement.dst, c);
        }
        proof {
            assert(moved@.take(moved@.len() as int) =~= moved@);
            assert(self@ =~= apply_cmd(row0, *rearrangement, preserve_order));
        }
    }
}

/// Push one character onto column `i` of a row.
fn self_push(s: &mut Row, i: usize, c: char)
    requires
        i < old(s)@.len(),
    ensures
        final(s)@ == old(s)@.update(i as int, old(s)@[i as int].push(c)),
{
    proof {
        assert(s@.len() == s.0@.len());
        assert(s@[i as int] == s.0@[i as int]@);
    }
    s.0[i].push(c);
    proof {
        assert(s@ =~= old(s)@.update(i as int, old(s)@[i as int].push(c)));
    }
}

/// Pop the top character off column `i` of a row.
fn self_pop(s: &mut Row, i: usize) -> (c: char)
    requires
        i < old(s)@.len(),
        old(s)@[i as int].len() > 0,
    ensures
        c == old(s)@[i as int].last(),
        final(s)@ == old(s)@.update(i as int, old(s)@[i as int].drop_last()),
{
    proof {
        assert(s@.len() == s.0@.len());
        assert(s@[i as int] == s.0@[i as int]@);
    }
    let r = s.0[i].pop();
    let c = match r {
        Some(c) => c,
        None => {
            proof {
                assert(false);
            }
            ' '
        },
    };
    proof {
        assert(old(s)@[i as int].subrange(0, old(s)@[i as int].len() - 1) =~= old(
            s,
        )@[i as int].drop_last());
        assert(s@ =~= old(s)@.update(i as int, old(s)@[i as int].drop_last()));
    }
    c
}

/// A fresh vector with the characters in reverse order.
fn reverse_chars(v: Vec<char>) -> (r: Vec<char>)
    ensures
        r@ == v@.reverse(),
{
    let mut r: Vec<char> = Vec::new();
    let mut k = v.len();
    while k > 0
        invariant
            k <= v@.len(),
            r@ =~= v@.skip(k as int).reverse(),
        decreases k,
    {
        proof {
            assert(v@.skip(k - 1)[0] == v@[k - 1]);
            assert(v@.skip(k - 1).drop_first() =~= v@.skip(k as int));
            assert(v@.skip(k - 1).reverse() =~= v@.skip(k as int).reverse().push(v@[k - 1]));
        }
        k = k - 1;
        let c = v[k];
        r.push(c);
    }
    proof {
        assert(v@.skip(0) =~= v@);
    }
    r
}

/// Whether the `k`-th token of a crate-row line is a crate `[c]` or an empty
/// slot of three spaces.
pub open spec fn crate_token_ok(s: Seq<char>, k: int) -> bool {
    ||| (s[4 * k] == '[' && s[4 * k + 2] == ']')
    ||| (s[4 * k] == ' ' && s[4 * k + 1] == ' ' && s[4 * k + 2] == ' ')
}

/// Whether the `k`-th token separator of a crate-row line is a space.
pub open spec fn crate_sep_ok(s: Seq<char>, k: int) -> bool {
    s[4 * k + 3] == ' '
}

/// How many columns a crate-row line draws.
pub open spec fn cols_of_line(s: Seq<char>) -> int {
    (s.len() as int + 1) / 4
}

/// Whether a line draws one row of crates: three-character tokens (a crate
/// `[c]` or three spaces) separated by single spaces.
pub open spec fn is_crate_row(s: Seq<char>) -> bool {
    &&& s.len() % 4 == 3
    &&& (forall|k: int| 0 <= k < cols_of_line(s) ==> #[trigger] crate_token_ok(s, k))
    &&& (forall|k: int| 0 <= k < cols_of_line(s) - 1 ==> #[trigger] crate_sep_ok(s, k))
}

/// The crates of the `k`-th column of one crate-row line: one crate or none.
pub open spec fn col_of(s: Seq<char>, k: int) -> Seq<char> {
    if s[4 * k] == '[' {
        seq![s[4 * k + 1]]
    } else {
        Seq::empty()
    }
}

/// The row of columns one crate-row line draws.
pub open spec fn row_of_line(s: Seq<char>) -> Seq<Seq<char>> {
    Seq::new(cols_of_line(s) as nat, |k: int| col_of(s, k))
}

/// The index of the first line that is not a crate row, starting from `i`.
pub open spec fn crate_rows_from(lines: Seq<Seq<char>>, i: int) -> int
    decreases lines.len() - i,
{
    if i >= lines.len() || !is_crate_row(lines[i]) {
        i
    } else {
        crate_rows_from(lines, i + 1)
    }
}

proof fn lemma_crate_rows_from_props(lines: Seq<Seq<char>>, i: int)
    requires
        0 <= i <= lines.len(),
    ensures
        i <= crate_rows_from(lines, i) <= lines.len(),
        forall|k: int| i <= k < crate_rows_from(lines, i) ==> is_crate_row(#[trigger] lines[k]),
        crate_rows_from(lines, i) < lines.len() ==> !is_crate_row(
            lines[crate_rows_from(lines, i)],
        ),
    decreases lines.len() - i,
{
    if i < lines.len() && is_crate_row(lines[i]) {
        lemma_crate_rows_from_props(lines, i + 1);
    }
}

/// The stacked row built from the first `r` crate-row lines, top line first:
/// each line becomes the base of everything parsed above it.
pub open spec fn stacked_rows(lines: Seq<Seq<char>>, r: int) -> Seq<Seq<char>>
    decreases r,
{
    if r <= 1 {
        row_of_line(lines[0])
    } else {
        stack_spec(row_of_line(lines[r - 1]), stacked_rows(lines, r - 1))
    }
}

/// Whether a line writes a crane command `move N from A to B` with decimal
/// numbers, the columns 1-based, everything fitting the machine word.
pub open spec fn valid_move_cmd(s: Seq<char>) -> bool {
    let rest1 = s.skip(5);
    let j1 = first_idx(rest1, ' ');
    let rest2 = rest1.skip(j1 + 1);
    let rest3 = rest2.skip(5);
    let j2 = first_idx(rest3, ' ');
    let rest4 = rest3.skip(j2 + 1);
    let rest5 = rest4.skip(3);
    &&& s.len() >= 5
    &&& s[0] == 'm' && s[1] == 'o' && s[2] == 'v' && s[3] == 'e' && s[4] == ' '
    &&& 1 <= j1 < rest1.len()
    &&& all_digits(rest1.take(j1))
    &&& 0 <= digits_val(rest1.take(j1)) <= usize::MAX
    &&& rest2.len() >= 5
    &&& rest2[0] == 'f' && rest2[1] == 'r' && rest2[2] == 'o' && rest2[3] == 'm' && rest2[4] == ' '
    &&& 1 <= j2 < rest3.len()
    &&& all_digits(rest3.take(j2))
    &&& 1 <= digits_val(rest3.take(j2)) <= usize::MAX
    &&& rest4.len() >= 4
    &&& rest4[0] == 't' && rest4[1] == 'o' && rest4[2] == ' '
    &&& all_digits(rest5)
    &&& 1 <= digits_val(rest5) <= usize::MAX
}

/// The crane command a well-formed command line writes, with its 1-based
/// column numbers turned 0-based.
pub open spec fn cmd_of(s: Seq<char>) -> Rearrangement {
    let rest1 = s.skip(5);
    let j1 = first_idx(rest1, ' ');
    let rest2 = rest1.skip(j1 + 1);
    let rest3 = rest2.skip(5);
    let j2 = first_idx(rest3, ' ');
    let rest4 = rest3.skip(j2 + 1);
    let rest5 = rest4.skip(3);
    Rearrangement {
        qty: digits_val(rest1.take(j1)) as usize,
        src: (digits_val(rest3.take(j2)) - 1) as usize,
        dst: (digits_val(rest5) - 1) as usize,
    }
}

/// The row after every command from line `i` on has been carried out.
pub open spec fn replay(
    row: Seq<Seq<char>>,
    lines: Seq<Seq<char>>,
    i: int,
    preserve_order: bool,
) -> Seq<Seq<char>>
    decreases lines.len() - i,
{
    if i < 0 || i >= lines.len() {
        row
    } else {
        replay(apply_cmd(row, cmd_of(lines[i]), preserve_order), lines, i + 1, preserve_order)
    }
}

/// Whether every command from line `i` on can be carried out in turn.
pub open spec fn replay_ok(
    row: Seq<Seq<char>>,
    lines: Seq<Seq<char>>,
    i: int,
    preserve_order: bool,
) -> bool
    decreases lines.len() - i,
{
    if i < 0 || i >= lines.len() {
        true
    } else {
        &&& cmd_ok(row, cmd_of(lines[i]))
        &&& replay_ok(
            apply_cmd(row, cmd_of(lines[i]), preserve_order),
            lines,
            i + 1,
            preserve_order,
        )
    }
}

/// Whether the input blob is a well-formed puzzle: at least one crate-row
/// line with never-shrinking column counts, a label line and a separator
/// line, then crane commands that can all be carried out, whichever way the
/// crane moves its batches.
pub open spec fn valid_stacks_input(s: Seq<u8>) -> bool {
    let lines = byte_lines(s);
    let r = crate_rows_from(lines, 0);
    &&& 1 <= r
    &&& r + 2 <= lines.len()
    &&& (forall|k: int|
        1 <= k < r ==> cols_of_line(lines[k - 1]) <= cols_of_line(#[trigger] lines[k]))
    &&& (forall|i: int| r + 2 <= i < lines.len() ==> valid_move_cmd(#[trigger] lines[i]))
    &&& replay_ok(stacked_rows(lines, r), lines, r + 2, false)
    &&& replay_ok(stacked_rows(lines, r), lines, r + 2, true)
}

/// The stacked row the input's drawing denotes.
pub open spec fn initial_row(s: Seq<u8>) -> Seq<Seq<char>> {
    stacked_rows(byte_lines(s), crate_rows_from(byte_lines(s), 0))
}

/// The top crates of every column after the whole command list has run.
pub open spec fn answer(s: Seq<u8>, preserve_order: bool) -> Seq<char> {
    tops(
        replay(
            initial_row(s),
            byte_lines(s),
            crate_rows_from(byte_lines(s), 0) + 2,
            preserve_order,
        ),
    )
}

/// Whether this line draws a row of crates.
fn crate_row_exec(line: &Vec<char>) -> (b: bool)
    ensures
        b == is_crate_row(line@),
{
    if line.len() % 4 != 3 {
        return false;
    }
    let cols = line.len() / 4 + 1;
    proof {
        assert(line@.len() <= usize::MAX);
        assert(cols == cols_of_line(line@));
    }
    for k in 0..cols
        invariant
            line@.len() % 4 == 3,
            line@.len() <= usize::MAX,
            cols == cols_of_line(line@),
            4 * cols == line@.len() + 1,
            forall|j: int| 0 <= j < k ==> #[trigger] crate_token_ok(line@, j),
            forall|j: int| 0 <= j < k && j < cols - 1 ==> #[trigger] crate_sep_ok(line@, j),
    {
        proof {
            assert(4 * (k as int) + 3 <= line@.len());
        }
        let p = 4 * k;
        let token_ok = (line[p] == '[' && line[p + 2] == ']') || (line[p] == ' ' && line[p + 1]
            == ' ' && line[p + 2] == ' ');
        if !token_ok {
            proof {
                assert(!crate_token_ok(line@, k as int));
            }
            return false;
        }
        if k < cols - 1 {
            if line[p + 3] != ' ' {
                proof {
                    assert(!crate_sep_ok(line@, k as int));
                }
                return false;
            }
        }
        proof {
            assert(crate_token_ok(line@, k as int));
            assert(k < cols - 1 ==> crate_sep_ok(line@, k as int));
        }
    }
    true
}

/// Read the columns one crate-row line draws.
fn parse_crate_row(line: &Vec<char>) -> (row: Row)
    requires
        is_crate_row(line@),
    ensures
        row@ == row_of_line(line@),
        row@.len() == cols_of_line(line@),
{
    let cols = line.len() / 4 + 1;
    proof {
        assert(line@.len() <= usize::MAX);
        assert(cols == cols_of_line(line@));
    }
    let mut v: Vec<Vec<char>> = Vec::new();
    for k in 0..cols
        invariant
            is_crate_row(line@),
            line@.len() <= usize::MAX,
            cols == cols_of_line(line@),
            4 * cols == line@.len() + 1,
            v@.len() == k,
            forall|j: int| 0 <= j < k ==> (#[trigger] v@[j])@ == col_of(line@, j),
    {
        proof {
            assert(crate_token_ok(line@, k as int));
            assert(4 * (k as int) + 3 <= line@.len());
        }
        let p = 4 * k;
        let mut col: Vec<char> = Vec::new();
        if line[p] == '[' {
            col.push(line[p + 1]);
            proof {
                assert(col@ =~= col_of(line@, k as int));
            }
        } else {
            proof {
                assert(col@ =~= col_of(line@, k as int));
            }
        }
        v.push(col);
    }
    let row = Row(v);
    proof {
        assert(row@ =~= row_of_line(line@));
    }
    row
}

/// Read one crane command line.
fn parse_move(line: &Vec<char>) -> (cmd: Rearrangement)
    requires
        valid_move_cmd(line@),
    ensures
        cmd == cmd_of(line@),
{
    let ghost s = line@;
    let n_line = line.len();
    proof {
        assert(n_line == s.len());
    }
    let ghost rest1 = s.skip(5);
    let ghost j1 = first_idx(rest1, ' ');
    let a = find_char(line, 5, ' ');
    proof {
        lemma_first_idx_props(rest1, ' ');
        assert forall|k: int| 5 <= k < 5 + j1 implies line@[k] != ' ' by {
            assert(rest1[k - 5] == line@[k]);
        }
        assert(line@[5 + j1] == ' ');
        lemma_first_idx_char(rest1, ' ', a - 5);
        assert(a == 5 + j1);
        assert(rest1.take(j1) =~= s.subrange(5, a as int));
    }
    let qty = parse_digits(line, 5, a);
    let ghost rest2 = rest1.skip(j1 + 1);
    let ghost rest3 = rest2.skip(5);
    let ghost j2 = first_idx(rest3, ' ');
    proof {
        assert(rest2.len() >= 5);
        assert(rest2 =~= s.skip(a + 1));
        assert(a + 6 <= s.len());
        assert(rest3 =~= s.skip(a + 6));
    }
    let b = find_char(line, a + 6, ' ');
    proof {
        lemma_first_idx_props(rest3, ' ');
        assert forall|k: int| a + 6 <= k < a + 6 + j2 implies line@[k] != ' ' by {
            assert(rest3[k - (a + 6)] == line@[k]);
        }
        assert(line@[a + 6 + j2] == ' ');
        lemma_first_idx_char(rest3, ' ', b - (a + 6));
        assert(b == a + 6 + j2);
        assert(rest3.take(j2) =~= s.subrange(a + 6, b as int));
    }
    let src1 = parse_digits(line, a + 6, b);
    let ghost rest4 = rest3.skip(j2 + 1);
    let ghost rest5 = rest4.skip(3);
    proof {
        assert(rest4.len() >= 4);
        assert(rest4 =~= s.skip(b + 1));
        assert(b + 4 <= s.len());
        assert(rest5 =~= s.subrange(b + 4, s.len() as int));
        crate::text::lemma_digits_val_nonneg(rest5);
        crate::text::lemma_digits_val_nonneg(rest3.take(j2));
    }
    let dst1 = parse_digits(line, b + 4, n_line);
    Rearrangement { qty: qty as usize, src: (src1 as usize) - 1, dst: (dst1 as usize) - 1 }
}

/// Parse the problem input: the stacked starting row drawn at the top, and
/// every crane command below it.
pub fn entire_input(input: &[u8]) -> (r: (Row, Vec<Rearrangement>))
    requires
        valid_stacks_input(input@),
    ensures
        r.0@ == initial_row(input@),
        r.1@.len() == byte_lines(input@).len() - (crate_rows_from(byte_lines(input@), 0) + 2),
        forall|j: int| 0 <= j < r.1@.len() ==> #[trigger] r.1@[j] == cmd_of(
            byte_lines(input@)[crate_rows_from(byte_lines(input@), 0) + 2 + j],
        ),
{
    let ghost all = byte_lines(input@);
    let ghost r_gh = crate_rows_from(all, 0);
    let chars = bytes_to_chars(input);
    let lines = split_lines_vec(&chars);
    proof {
        lemma_crate_rows_from_props(all, 0);
    }
    let line0 = &lines[0];
    proof {
        assert(line0@ == all[0]);
        assert(is_crate_row(all[0]));
    }
    let mut row = parse_crate_row(line0);
    let mut i: usize = 1;
    loop
        invariant
            lines@.map_values(|line: Vec<char>| line@) == all,
            valid_stacks_input(input@),
            all == byte_lines(input@),
            r_gh == crate_rows_from(all, 0),
            1 <= r_gh,
            r_gh + 2 <= all.len(),
            1 <= i <= r_gh,
            row@ == stacked_rows(all, i as int),
            row@.len() == cols_of_line(all[i - 1]),
        ensures
            i == r_gh,
            row@ == stacked_rows(all, r_gh),
        decreases all.len() - i,
    {
        proof {
            lemma_crate_rows_from_props(all, 0);
        }
        if i >= lines.len() {
            proof {
                assert(i == r_gh);
            }
            break ;
        }
        let line = &lines[i];
        proof {
            assert(line@ == all[i as int]);
        }
        if !crate_row_exec(line) {
            proof {
                assert(i == r_gh) by {
                    if i < r_gh {
                        assert(is_crate_row(all[i as int]));
                    }
                }
            }
            break ;
        }
        proof {
            assert(i < r_gh) by {
                if i == r_gh {
                    assert(!is_crate_row(all[r_gh]));
                }
            }
        }
        let next = parse_crate_row(line);
        proof {
            assert(cols_of_line(all[i - 1]) <= cols_of_line(all[i as int]));
        }
        row = next.stack(row);
        i = i + 1;
    }
    let mut rearrangements: Vec<Rearrangement> = Vec::new();
    let mut k = i + 2;
    while k < lines.len()
        invariant
            lines@.map_values(|line: Vec<char>| line@) == all,
            valid_stacks_input(input@),
            all == byte_lines(input@),
            r_gh == crate_rows_from(all, 0),
            i == r_gh,
            r_gh + 2 <= k <= all.len(),
            rearrangements@.len() == k - (r_gh + 2),
            forall|j: int| 0 <= j < rearrangements@.len() ==> #[trigger] rearrangements@[j]
                == cmd_of(all[r_gh + 2 + j]),
        decreases all.len() - k,
    {
        let line = &lines[k];
        proof {
            assert(line@ == all[k as int]);
            assert(valid_move_cmd(all[k as int]));
        }
        let cmd = parse_move(line);
        rearrangements.push(cmd);
        k = k + 1;
    }
    (row, rearrangements)
}

/// Returns the answers to both questions, given the problem input: the top
/// crates after replaying every command lifting one crate at a time, and
/// after replaying every command moving each batch in one go.
pub fn solve(input: &[u8]) -> (r: (String, String))
    requires
        valid_stacks_input(input@),
    ensures
        r.0@ == answer(input@, false),
        r.1@ == answer(input@, true),
{
    let ghost all = byte_lines(input@);
    let ghost r_gh = crate_rows_from(all, 0);
    let (row, rearrangements) = entire_input(input);
    // Solve q1
    let mut row_q1 = row.clone();
    for j in 0..rearrangements.len()
        invariant
            valid_stacks_input(input@),
            all == byte_lines(input@),
            r_gh == crate_rows_from(all, 0),
            rearrangements@.len() == all.len() - (r_gh + 2),
            forall|m: int| 0 <= m < rearrangements@.len() ==> #[trigger] rearrangements@[m]
                == cmd_of(all[r_gh + 2 + m]),
            replay(initial_row(input@), all, r_gh + 2, false) == replay(
                row_q1@,
                all,
                r_gh + 2 + j,
                false,
            ),
            replay_ok(row_q1@, all, r_gh + 2 + j, false),
    {
        let cmd = rearrangements[j];
        row_q1.move_crates(&cmd, false);
    }
    let answer1 = row_q1.top_of_each_column();
    // Solve q2
    let mut row_q2 = row;
    for j in 0..rearrangements.len()
        invariant
            valid_stacks_input(input@),
            all == byte_lines(input@),
            r_gh == crate_rows_from(all, 0),
            rearrangements@.len() == all.len() - (r_gh + 2),
            forall|m: int| 0 <= m < rearrangements@.len() ==> #[trigger] rearrangements@[m]
                == cmd_of(all[r_gh + 2 + m]),
            replay(initial_row(input@), all, r_gh + 2, true) == replay(
                row_q2@,
                all,
                r_gh + 2 + j,
                true,
            ),
            replay_ok(row_q2@, all, r_gh + 2 + j, true),
    {
        let cmd = rearrangements[j];
        row_q2.move_crates(&cmd, true);
    }
    let answer2 = row_q2.top_of_each_column();
    (answer1, answer2)
}

proof fn lemma_tops_push(cols: Seq<Seq<char>>, i: int)
    requires
        0 <= i < cols.len(),
    ensures
        tops(cols.take(i + 1)) == tops(cols.take(i)) + (if cols[i].len() > 0 {
            seq![cols[i].last()]
        } else {
            Seq::<char>::empty()
        }),
    decreases i,
{
    if i == 0 {
        reveal_with_fuel(tops, 2);
        assert(cols.take(1).drop_first() =~= Seq::<Seq<char>>::empty());
        assert(cols.take(1)[0] == cols[0]);
        assert(tops(cols.take(0)) =~= Seq::<char>::empty());
        assert(tops(cols.take(1)) =~= tops(cols.take(0)) + (if cols[0].len() > 0 {
            seq![cols[0].last()]
        } else {
            Seq::<char>::empty()
        }));
    } else {
        lemma_tops_push(cols.drop_first(), i - 1);
        assert(cols.take(i + 1).drop_first() =~= cols.drop_first().take(i));
        assert(cols.take(i).drop_first() =~= cols.drop_first().take(i - 1));
        assert(cols.take(i + 1)[0] == cols[0]);
        assert(cols.take(i)[0] == cols[0]);
        assert(cols.drop_first()[i - 1] == cols[i]);
        assert(tops(cols.take(i + 1)) =~= tops(cols.take(i)) + (if cols[i].len() > 0 {
            seq![cols[i].last()]
        } else {
            Seq::<char>::empty()
        }));
    }
}

} // verus!
