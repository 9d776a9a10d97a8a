//! Text rendering: formulas in their canonical form and sequents behind a
//! turnstile.

use vstd::prelude::*;
use crate::ast::Ast;
use crate::bag::repeat_seq;
use crate::sequent::RhsOnlyWithExchange;
use crate::tree::Tree;
use crate::turnstile::Turnstile;

verus! {

broadcast use vstd::std_specs::vec::axiom_vec_index_decreases;

/// Whether the text ends in the given suffix.
pub open spec fn ends_with(s: Seq<char>, suffix: Seq<char>) -> bool {
    &&& suffix.len() <= s.len()
    &&& s.subrange(s.len() - suffix.len(), s.len() as int) == suffix
}

/// The character of one decimal digit.
pub open spec fn digit_char(d: nat) -> char {
    if d == 0 {
        '0'
    } else if d == 1 {
        '1'
    } else if d == 2 {
        '2'
    } else if d == 3 {
        '3'
    } else if d == 4 {
        '4'
    } else if d == 5 {
        '5'
    } else if d == 6 {
        '6'
    } else if d == 7 {
        '7'
    } else if d == 8 {
        '8'
    } else {
        '9'
    }
}

/// The decimal digits of a number, most significant first.
pub open spec fn dec_digits(n: nat) -> Seq<char>
    decreases n,
{
    if n < 10 {
        seq![digit_char(n)]
    } else {
        dec_digits(n / 10) + seq![digit_char(n % 10)]
    }
}

/// The canonical text of a formula: atoms as written, `P` before a
/// variable's number, prefix marks for the unary connectives, and binary
/// connectives parenthesised and spaced.
pub open spec fn ast_text(a: Ast) -> Seq<char>
    decreases a,
{
    match a {
        Ast::One => seq!['1'],
        Ast::Bottom => seq!['\u{22a5}'],
        Ast::Top => seq!['\u{22a4}'],
        Ast::Zero => seq!['0'],
        Ast::Value(i) => seq!['P'] + dec_digits(i as nat),
        Ast::Bang(x) => seq!['!'] + ast_text(*x),
        Ast::Quest(x) => seq!['?'] + ast_text(*x),
        Ast::Dual(x) => seq!['~'] + ast_text(*x),
        Ast::Times(x, y) => seq!['('] + ast_text(*x) + seq![' ', '\u{2297}', ' '] + ast_text(*y)
            + seq![')'],
        Ast::Par(x, y) => seq!['('] + ast_text(*x) + seq![' ', '\u{214b}', ' '] + ast_text(*y)
            + seq![')'],
        Ast::With(x, y) => seq!['('] + ast_text(*x) + seq![' ', '&', ' '] + ast_text(*y)
            + seq![')'],
        Ast::Plus(x, y) => seq!['('] + ast_text(*x) + seq![' ', '\u{2295}', ' '] + ast_text(*y)
            + seq![')'],
    }
}

/// The formulas of a sequent joined by commas.
pub open spec fn comma_join(items: Seq<Ast>) -> Seq<char>
    decreases items.len(),
{
    if items.len() == 0 {
        Seq::empty()
    } else if items.len() == 1 {
        ast_text(items[0])
    } else {
        comma_join(items.drop_last()) + seq![',', ' '] + ast_text(items.last())
    }
}

/// The text of a sequent: a turnstile, then its formulas.
pub open spec fn sequent_text(items: Seq<Ast>) -> Seq<char> {
    if items.len() == 0 {
        seq!['\u{22a2}']
    } else {
        seq!['\u{22a2}', ' '] + comma_join(items)
    }
}

/// Append one decimal digit.
fn push_digit(out: &mut String, d: usize)
    requires
        d < 10,
    ensures
        final(out)@ == old(out)@ + seq![digit_char(d as nat)],
{
    if d == 0 {
        proof {
            reveal_strlit("0");
        }
        out.append("0");
    } else if d == 1 {
        proof {
            reveal_strlit("1");
        }
        out.append("1");
    } else if d == 2 {
        proof {
            reveal_strlit("2");
        }
        out.append("2");
    } else if d == 3 {
        proof {
            reveal_strlit("3");
        }
        out.append("3");
    } else if d == 4 {
        proof {
            reveal_strlit("4");
        }
        out.append("4");
    } else if d == 5 {
        proof {
            reveal_strlit("5");
        }
        out.append("5");
    } else if d == 6 {
        proof {
            reveal_strlit("6");
        }
        out.append("6");
    } else if d == 7 {
        proof {
            reveal_strlit("7");
        }
        out.append("7");
    } else if d == 8 {
        proof {
            reveal_strlit("8");
        }
        out.append("8");
    } else {
        proof {
            reveal_strlit("9");
        }
        out.append("9");
    }
    proof {
        assert(final(out)@ =~= old(out)@ + seq![digit_char(d as nat)]);
    }
}

/// Append a number in decimal.
fn push_decimal(out: &mut String, n: usize)
    ensures
        final(out)@ == old(out)@ + dec_digits(n as nat),
    decreases n,
{
    if n < 10 {
        push_digit(out, n);
    } else {
        push_decimal(out, n / 10);
        push_digit(out, n % 10);
        proof {
            assert(final(out)@ =~= old(out)@ + dec_digits(n as nat));
        }
    }
}

impl Ast {
    /// Append this formula's canonical text.
    fn push_text(&self, out: &mut String)
        ensures
            final(out)@ == old(out)@ + ast_text(*self),
        decreases *self,
    {
        match self {
            Ast::One => {
                proof {
                    reveal_strlit("1");
                }
                out.append("1");
                proof {
                    assert(final(out)@ =~= old(out)@ + ast_text(*self));
                }
            }
            Ast::Bottom => {
                proof {
                    reveal_strlit("\u{22a5}");
                }
                out.append("\u{22a5}");
                proof {
                    assert(final(out)@ =~= old(out)@ + ast_text(*self));
                }
            }
            Ast::Top => {
                proof {
                    reveal_strlit("\u{22a4}");
                }
                out.append("\u{22a4}");
                proof {
                    assert(final(out)@ =~= old(out)@ + ast_text(*self));
                }
            }
            Ast::Zero => {
                proof {
                    reveal_strlit("0");
                }
                out.append("0");
                proof {
                    assert(final(out)@ =~= old(out)@ + ast_text(*self));
                }
            }
            Ast::Value(i) => {
                proof {
                    reveal_strlit("P");
                }
                out.append("P");
                push_decimal(out, *i);
                proof {
                    assert(final(out)@ =~= old(out)@ + ast_text(*self));
                }
            }
            Ast::Bang(x) => {
                proof {
                    reveal_strlit("!");
                }
                out.append("!");
                x.push_text(out);
                proof {
                    assert(final(out)@ =~= old(out)@ + ast_text(*self));
                }
            }
            Ast::Quest(x) => {
                proof {
                    reveal_strlit("?");
                }
                out.append("?");
                x.push_text(out);
                proof {
                    assert(final(out)@ =~= old(out)@ + ast_text(*self));
                }
            }
            Ast::Dual(x) => {
                proof {
                    reveal_strlit("~");
                }
                out.append("~");
                x.push_text(out);
                proof {
                    assert(final(out)@ =~= old(out)@ + ast_text(*self));
                }
            }
            Ast::Times(x, y) => {
                proof {
                    reveal_strlit("(");
                    reveal_strlit(" \u{2297} ");
                    reveal_strlit(")");
                }
                out.append("(");
                x.push_text(out);
                out.append(" \u{2297} ");
                y.push_text(out);
                out.append(")");
                proof {
                    assert(final(out)@ =~= old(out)@ + ast_text(*self));
                }
            }
            Ast::Par(x, y) => {
                proof {
                    reveal_strlit("(");
                    reveal_strlit(" \u{214b} ");
                    reveal_strlit(")");
                }
                out.append("(");
                x.push_text(out);
                out.append(" \u{214b} ");
                y.push_text(out);
                out.append(")");
                proof {
                    assert(final(out)@ =~= old(out)@ + ast_text(*self));
                }
            }
            Ast::With(x, y) => {
                proof {
                    reveal_strlit("(");
                    reveal_strlit(" & ");
                    reveal_strlit(")");
                }
                out.append("(");
                x.push_text(out);
                out.append(" & ");
                y.push_text(out);
                out.append(")");
                proof {
                    assert(final(out)@ =~= old(out)@ + ast_text(*self));
                }
            }
            Ast::Plus(x, y) => {
                proof {
                    reveal_strlit("(");
                    reveal_strlit(" \u{2295} ");
                    reveal_strlit(")");
                }
                out.append("(");
                x.push_text(out);
                out.append(" \u{2295} ");
                y.push_text(out);
                out.append(")");
                proof {
                    assert(final(out)@ =~= old(out)@ + ast_text(*self));
                }
            }
        }
    }

    /// This formula's canonical text.
    #[must_use]
    pub fn to_text(&self) -> (r: String)
        ensures
            r@ == ast_text(*self),
    {
        let mut out = String::new();
        self.push_text(&mut out);
        proof {
            assert(out@ =~= ast_text(*self));
        }
        out
    }
}

/// The turnstile line for a run of formulas, comma separated.
fn sequent_line(items: &Vec<Ast>) -> (r: String)
    ensures
        r@ == sequent_text(items@),
{
    let mut out = String::new();
    proof {
        reveal_strlit("\u{22a2}");
        reveal_strlit("\u{22a2} ");
        reveal_strlit(", ");
    }
    let n = items.len();
    if n == 0 {
        out.append("\u{22a2}");
        proof {
            assert(out@ =~= sequent_text(items@));
        }
        return out;
    }
    out.append("\u{22a2} ");
    let mut i: usize = 0;
    while i < n
        invariant
            n == items@.len(),
            n > 0,
            i <= n,
            out@ == seq!['\u{22a2}', ' '] + comma_join(items@.take(i as int)),
        decreases n - i,
    {
        if i > 0 {
            proof {
                reveal_strlit(", ");
            }
            out.append(", ");
        }
        items[i].push_text(&mut out);
        proof {
            assert(items@.take(i + 1).drop_last() =~= items@.take(i as int));
            assert(items@.take(i + 1).last() == items@[i as int]);
            if i == 0 {
                assert(items@.take(1).len() == 1);
                assert(items@.take(1)[0] == items@[0]);
                assert(out@ =~= seq!['\u{22a2}', ' '] + comma_join(items@.take(1)));
            } else {
                assert(out@ =~= seq!['\u{22a2}', ' '] + comma_join(items@.take(i + 1)));
            }
        }
        i += 1;
    }
    proof {
        assert(items@.take(n as int) =~= items@);
    }
    out
}

impl RhsOnlyWithExchange {
    /// The sequent's text: a turnstile, then its formulas in canonical
    /// order, duplicates repeated.
    #[must_use]
    pub fn to_text(&self) -> (r: String)
        ensures
            r@ == sequent_text(repeat_seq(self.rhs.entry_seq())),
    {
        let items = self.rhs.iter_repeat();
        sequent_line(&items)
    }
}

impl Turnstile {
    /// The turnstile's text: the symbol, then its formulas in canonical
    /// order, duplicates repeated.
    #[must_use]
    pub fn to_text(&self) -> (r: String)
        ensures
            r@ == sequent_text(repeat_seq(self.entry_seq())),
    {
        let items = self.iter_repeat();
        sequent_line(&items)
    }
}

/// The sum, capped at the machine bound; column widths may not overflow.
fn sat_add(a: usize, b: usize) -> (r: usize)
    ensures
        r == if a + b <= usize::MAX {
            a + b
        } else {
            usize::MAX as int
        },
{
    if a > usize::MAX - b {
        usize::MAX
    } else {
        a + b
    }
}

/// Widen a line to the target width with trailing spaces.
fn pad_to(line: &mut String, target: usize)
    ensures
        final(line)@.len() >= target,
        final(line)@.len() >= old(line)@.len(),
{
    proof {
        reveal_strlit(" ");
    }
    let mut width = line.as_str().unicode_len();
    while width < target
        invariant
            width == line@.len(),
            line@.len() >= old(line)@.len(),
        decreases target - width,
    {
        proof {
            reveal_strlit(" ");
        }
        line.append(" ");
        width += 1;
    }
}

/// The widest line of a column.
fn widest_line(lines: &Vec<String>) -> (r: usize)
    ensures
        forall|i: int| 0 <= i < lines@.len() ==> (#[trigger] lines@[i])@.len() <= r,
{
    let n = lines.len();
    let mut best: usize = 0;
    let mut i: usize = 0;
    while i < n
        invariant
            n == lines@.len(),
            i <= n,
            forall|j: int| 0 <= j < i ==> (#[trigger] lines@[j])@.len() <= best,
        decreases n - i,
    {
        let w = lines[i].as_str().unicode_len();
        if w > best {
            best = w;
        }
        i += 1;
    }
    best
}

/// One laid-out subtree: its printed lines bottom-up, and the width of the
/// inference line at its root.
struct Column {
    /// Printed lines, conclusion first.
    lines: Vec<String>,
    /// Width of the inference line at the root of this subtree.
    line_width: usize,
    /// Width of the widest printed line.
    entire_width: usize,
}

/// Add a column to a print of a proof at the given offset, even if the
/// previous print wasn't tall enough.
fn extend_upward(acc: Vec<String>, stack: &Vec<String>, overall: usize) -> (r: Vec<String>)
    ensures
        r@.len() == if acc@.len() >= stack@.len() {
            acc@.len()
        } else {
            stack@.len()
        },
{
    let rows = if acc.len() >= stack.len() {
        acc.len()
    } else {
        stack.len()
    };
    let mut out: Vec<String> = Vec::new();
    let mut i: usize = 0;
    while i < rows
        invariant
            rows >= acc@.len(),
            rows >= stack@.len(),
            i <= rows,
            out@.len() == i,
        decreases rows - i,
    {
        let mut base = if i < acc.len() {
            acc[i].clone()
        } else {
            String::new()
        };
        if i < stack.len() {
            pad_to(&mut base, overall);
            base.append(stack[i].as_str());
        }
        out.push(base);
        i += 1;
    }
    out
}

impl Tree {
    /// Lay the proof out bottom-up: the conclusion, its inference line, and
    /// the premise subtrees side by side above it, the widest on the right.
    /// The first returned line is the conclusion sequent's text.
    fn print_bottom_up(&self) -> (r: Column)
        ensures
            r.lines@.len() >= 2,
            r.lines@[0]@ == sequent_text(repeat_seq(self.below.rhs.entry_seq())),
        decreases *self,
    {
        // lay out each premise and order the columns by width, widest last
        let mut columns: Vec<Column> = Vec::new();
        let nc = self.above.len();
        let mut ci: usize = 0;
        while ci < nc
            invariant
                nc == self.above@.len(),
                ci <= nc,
            decreases nc - ci,
        {
            let sub = self.above[ci].print_bottom_up();
            let mut pos: usize = 0;
            while pos < columns.len() && columns[pos].entire_width <= sub.entire_width
                invariant
                    pos <= columns@.len(),
            decreases columns@.len() - pos,
            {
                pos += 1;
            }
            columns.insert(pos, sub);
            ci += 1;
        }
        // stack the columns three spaces apart
        let mut stacked: Vec<String> = Vec::new();
        let mut overall: usize = 0;
        let mut line_size: usize = 0;
        if columns.len() > 0 {
            while columns.len() > 1
                invariant
                    columns@.len() >= 1,
                decreases columns@.len(),
            {
                let column = columns.remove(0);
                stacked = extend_upward(stacked, &column.lines, overall);
                overall = sat_add(sat_add(overall, column.entire_width), 3);
            }
            let rightmost = columns.remove(0);
            stacked = extend_upward(stacked, &rightmost.lines, overall);
            line_size = sat_add(overall, rightmost.line_width);
        }
        // the inference line spans the conclusion and the premise row
        let below_text = self.below.to_text();
        let below_width = below_text.as_str().unicode_len();
        let max_width = if line_size >= below_width {
            line_size
        } else {
            below_width
        };
        proof {
            reveal_strlit("-");
            reveal_strlit(" ");
        }
        let mut line = String::new();
        let mut dashes: usize = 0;
        while dashes < max_width
            invariant
                dashes <= max_width,
            decreases max_width - dashes,
        {
            line.append("-");
            dashes += 1;
        }
        line.append(" ");
        line.append(self.rule);
        let mut everything: Vec<String> = Vec::new();
        everything.push(below_text);
        everything.push(line);
        let mut sk: usize = 0;
        let nsk = stacked.len();
        while sk < nsk
            invariant
                nsk == stacked@.len(),
                sk <= nsk,
                everything@.len() == 2 + sk,
                everything@[0]@ == sequent_text(repeat_seq(self.below.rhs.entry_seq())),
            decreases nsk - sk,
        {
            everything.push(stacked[sk].clone());
            sk += 1;
        }
        let entire_width = widest_line(&everything);
        Column { lines: everything, line_width: max_width, entire_width }
    }

    /// The whole proof as text, premises above their conclusions, one line
    /// per row, top of the proof first. The text ends with the concluding
    /// sequent's line; the layout above it carries no further claim.
    #[must_use]
    pub fn to_text(&self) -> (r: String)
        ensures
            r@.len() > 0,
            ends_with(
                r@,
                sequent_text(repeat_seq(self.below.rhs.entry_seq())) + seq!['\n'],
            ),
    {
        proof {
            reveal_strlit("\n");
        }
        let column = self.print_bottom_up();
        let mut out = String::new();
        out.append("\n");
        let mut i: usize = column.lines.len();
        while i > 0
            invariant
                i <= column.lines@.len(),
                out@.len() >= 1,
                column.lines@[0]@ == sequent_text(repeat_seq(self.below.rhs.entry_seq())),
                i == 0 ==> ends_with(out@, column.lines@[0]@ + seq!['\n']),
            decreases i,
        {
            proof {
                reveal_strlit("\n");
            }
            i -= 1;
            out.append(column.lines[i].as_str());
            out.append("\n");
            proof {
                if i == 0 {
                    let goal_line = column.lines@[0]@ + seq!['\n'];
                    assert(out@.subrange(
                        out@.len() - goal_line.len(),
                        out@.len() as int,
                    ) =~= goal_line);
                }
            }
        }
        out
    }
}

} // verus!
