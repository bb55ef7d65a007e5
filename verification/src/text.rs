use vstd::prelude::*;
use vstd::string::StringExecFns;

use crate::progress::cells_wf;
use crate::utils::{Board, Change, Node, Reference, Value, cell_wf, spec_xy, xy};

verus! {

// ---------------------------------------------------------------------------
// Decimal numbers
// ---------------------------------------------------------------------------
/// The character of the decimal digit `k`.
pub open spec fn digit_char(k: int) -> char {
    (48 + k) as char
}

/// The decimal digits of `n`, most significant first.
pub open spec fn decimal(n: nat) -> Seq<char>
    decreases n,
{
    if n < 10 {
        seq![digit_char(n as int)]
    } else {
        decimal(n / 10) + seq![digit_char((n % 10) as int)]
    }
}

/// Appends the decimal digit `k`.
fn push_digit(text: &mut String, k: u8)
    requires
        k < 10,
    ensures
        final(text)@ == old(text)@.push(digit_char(k as int)),
{
    match k {
        0 => {
            proof {
                reveal_strlit("0");
            }
            text.append("0");
        },
        1 => {
            proof {
                reveal_strlit("1");
            }
            text.append("1");
        },
        2 => {
            proof {
                reveal_strlit("2");
            }
            text.append("2");
        },
        3 => {
            proof {
                reveal_strlit("3");
            }
            text.append("3");
        },
        4 => {
            proof {
                reveal_strlit("4");
            }
            text.append("4");
        },
        5 => {
            proof {
                reveal_strlit("5");
            }
            text.append("5");
        },
        6 => {
            proof {
                reveal_strlit("6");
            }
            text.append("6");
        },
        7 => {
            proof {
                reveal_strlit("7");
            }
            text.append("7");
        },
        8 => {
            proof {
                reveal_strlit("8");
            }
            text.append("8");
        },
        _ => {
            proof {
                reveal_strlit("9");
            }
            text.append("9");
        },
    }
}

/// Appends `n` in decimal.
pub fn push_decimal(text: &mut String, n: u8)
    ensures
        final(text)@ == old(text)@ + decimal(n as nat),
{
    let ghost t0 = text@;
    if n >= 100 {
        push_digit(text, n / 100);
        push_digit(text, (n / 10) % 10);
        push_digit(text, n % 10);
        proof {
            let m = (n / 10) as nat;
            assert(decimal(m / 10) == seq![digit_char((n / 100) as int)]);
            assert(decimal(m) == decimal(m / 10) + seq![digit_char((m % 10) as int)]);
            assert(decimal(n as nat) == decimal(m) + seq![digit_char((n % 10) as int)]);
            assert(text@ =~= t0 + decimal(n as nat));
        }
    } else if n >= 10 {
        push_digit(text, n / 10);
        push_digit(text, n % 10);
        proof {
            assert(decimal((n / 10) as nat) == seq![digit_char((n / 10) as int)]);
            assert(text@ =~= t0 + decimal(n as nat));
        }
    } else {
        push_digit(text, n);
        proof {
            assert(text@ =~= t0 + decimal(n as nat));
        }
    }
}

// ---------------------------------------------------------------------------
// Values, boards and changes as text
// ---------------------------------------------------------------------------
/// The candidates among the first `n` flags of `p`, each as its digit.
pub open spec fn candidates_text(p: [bool; 9], n: int) -> Seq<char>
    decreases n,
{
    if n <= 0 {
        Seq::empty()
    } else {
        candidates_text(p, n - 1) + if p[n - 1] {
            decimal(n as nat)
        } else {
            Seq::empty()
        }
    }
}

/// A value as text: its digit, or the digits still possible, run together.
pub open spec fn value_text(v: Value) -> Seq<char> {
    match v {
        Value::Pos(p) => candidates_text(p, 9),
        Value::Def(d) => decimal(d as nat),
    }
}

/// A cell on the board picture: its digit, or `_`.
pub open spec fn cell_text(n: Node) -> Seq<char> {
    match n.value {
        Value::Def(d) => decimal(d as nat),
        Value::Pos(_) => seq!['_'],
    }
}

/// The first `n` cells of row `y` (from 0) on the board picture.
pub open spec fn row_text(s: Seq<Node>, y: int, n: int) -> Seq<char>
    decreases n,
{
    if n <= 0 {
        Seq::empty()
    } else {
        row_text(s, y, n - 1) + cell_text(s[9 * y + n - 1])
    }
}

/// The first `n` rows of the board picture, each after a line break.
pub open spec fn board_text(s: Seq<Node>, n: int) -> Seq<char>
    decreases n,
{
    if n <= 0 {
        Seq::empty()
    } else {
        board_text(s, n - 1) + seq!['\n'] + row_text(s, n - 1, 9)
    }
}

/// The character that stands for a cell of a well-formed board: its digit,
/// or `_`.
pub open spec fn cell_char(n: Node) -> char {
    match n.value {
        Value::Def(d) => digit_char(d as int),
        Value::Pos(_) => '_',
    }
}

/// The first `n` characters of row `y` are the first `n` cells of that row,
/// left to right, one character each.
proof fn lemma_row_text(s: Seq<Node>, y: int, n: int)
    requires
        cells_wf(s),
        0 <= y < 9,
        0 <= n <= 9,
    ensures
        row_text(s, y, n).len() == n,
        forall|x: int| 0 <= x < n ==> #[trigger] row_text(s, y, n)[x] == cell_char(s[9 * y + x]),
    decreases n,
{
    if n > 0 {
        lemma_row_text(s, y, n - 1);
        let c = 9 * y + n - 1;
        assert(cell_wf(s[c], c));
        assert(cell_text(s[c]) =~= seq![cell_char(s[c])]);
        let a = row_text(s, y, n - 1);
        assert forall|x: int| 0 <= x < n implies #[trigger] row_text(s, y, n)[x] == cell_char(s[9 * y + x]) by {
            if x < n - 1 {
                assert((a + cell_text(s[c]))[x] == a[x]);
            }
        }
    }
}

proof fn lemma_board_text(s: Seq<Node>, n: int)
    requires
        cells_wf(s),
        0 <= n <= 9,
    ensures
        board_text(s, n).len() == 10 * n,
        forall|y: int| 0 <= y < n ==> #[trigger] board_text(s, n)[10 * y] == '\n',
        forall|y: int, x: int|
            0 <= y < n && 0 <= x < 9 ==> #[trigger] board_text(s, n)[10 * y + 1 + x] == cell_char(s[9 * y + x]),
    decreases n,
{
    if n > 0 {
        lemma_board_text(s, n - 1);
        lemma_row_text(s, n - 1, 9);
        let a = board_text(s, n - 1);
        let r = row_text(s, n - 1, 9);
        let b = a + seq!['\n'] + r;
        assert(board_text(s, n) == b);
        assert forall|y: int| 0 <= y < n implies #[trigger] b[10 * y] == '\n' by {
            if y < n - 1 {
                assert(b[10 * y] == a[10 * y]);
            }
        }
        assert forall|y: int, x: int| 0 <= y < n && 0 <= x < 9 implies #[trigger] b[10 * y + 1 + x] == cell_char(
            s[9 * y + x],
        ) by {
            if y < n - 1 {
                assert(b[10 * y + 1 + x] == a[10 * y + 1 + x]);
            } else {
                assert(b[10 * y + 1 + x] == r[x]);
            }
        }
    }
}

/// The picture of a well-formed board has nine lines, each after a line
/// break: character `x + 1` of line `y + 1` (counted from 1) stands for the
/// cell on row `y + 1` and column `x + 1`, the cell at index `9 * y + x`.
pub proof fn lemma_board_text_layout(s: Seq<Node>)
    requires
        cells_wf(s),
    ensures
        board_text(s, 9).len() == 90,
        forall|y: int| 0 <= y < 9 ==> #[trigger] board_text(s, 9)[10 * y] == '\n',
        forall|y: int, x: int|
            0 <= y < 9 && 0 <= x < 9 ==> #[trigger] board_text(s, 9)[10 * y + 1 + x] == cell_char(s[9 * y + x]),
{
    lemma_board_text(s, 9);
}

/// A change to the cell at index `c` (named by its index, or by its column
/// and row from 1 to 9) that makes it digit `d` reads `(x, y) to d`, with
/// `x` the cell's column and `y` its row, counted from 1.
pub proof fn lemma_change_text_layout(ch: Change, c: int, d: u8)
    requires
        0 <= c < 81,
        ch.0 == Reference::Ord(c as usize) || ch.0 == Reference::XY(((c % 9 + 1) as u8, (c / 9 + 1) as u8)),
        ch.1 == Value::Def(d),
        1 <= d <= 9,
    ensures
        change_text(ch) == seq!['(', digit_char(c % 9 + 1), ',', ' ', digit_char(c / 9 + 1), ')', ' ', 't', 'o', ' ', digit_char(d as int)],
{
    let (x, y) = spec_xy(ch.0);
    assert(x == c % 9 + 1 && y == c / 9 + 1);
    assert(decimal(x as nat) == seq![digit_char(c % 9 + 1)]);
    assert(decimal(y as nat) == seq![digit_char(c / 9 + 1)]);
    assert(decimal(d as nat) == seq![digit_char(d as int)]);
    assert(change_text(ch) =~= seq!['(', digit_char(c % 9 + 1), ',', ' ', digit_char(c / 9 + 1), ')', ' ', 't', 'o', ' ', digit_char(d as int)]);
}

/// A definite change as text: its coordinates, `to`, and its digit.
pub open spec fn change_text(ch: Change) -> Seq<char> {
    seq!['('] + decimal(spec_xy(ch.0).0 as nat) + seq![',', ' '] + decimal(spec_xy(ch.0).1 as nat) + seq![
        ')',
        ' ',
        't',
        'o',
        ' ',
    ] + decimal(ch.1->Def_0 as nat)
}

/// The text of a change that makes a cell definite.
pub open spec fn definite_text() -> spec_fn(Change) -> Option<Seq<char>> {
    |ch: Change|
        if ch.1 is Def {
            Some(change_text(ch))
        } else {
            None
        }
}

impl Value {
    /// The value as text: its digit, or the digits still possible, run
    /// together.
    pub fn to_text(&self) -> (r: String)
        ensures
            r@ == value_text(*self),
    {
        let mut text = String::new();
        match self {
            Value::Pos(p) => {
                let mut i: usize = 0;
                while i < 9
                    invariant
                        i <= 9,
                        text@ == candidates_text(*p, i as int),
                    decreases 9 - i,
                {
                    if p[i] {
                        push_decimal(&mut text, (i + 1) as u8);
                    }
                    i += 1;
                }
            },
            Value::Def(d) => {
                push_decimal(&mut text, *d);
            },
        }
        text
    }
}

impl Board {
    /// The board as text: nine rows, each after a line break, with the
    /// digit of each definite cell and `_` for the others.
    pub fn to_text(&self) -> (r: String)
        ensures
            r@ == board_text(self.spaces@, 9),
            self.wf() ==> r@.len() == 90,
            self.wf() ==> forall|y: int, x: int|
                0 <= y < 9 && 0 <= x < 9 ==> #[trigger] r@[10 * y + 1 + x] == cell_char(self.spaces@[9 * y + x]),
    {
        let mut answer = String::new();
        let mut y: u8 = 0;
        while y < 9
            invariant
                y <= 9,
                answer@ == board_text(self.spaces@, y as int),
            decreases 9 - y,
        {
            let mut this_row = String::new();
            let mut x: u8 = 0;
            while x < 9
                invariant
                    x <= 9,
                    y < 9,
                    this_row@ == row_text(self.spaces@, y as int, x as int),
                decreases 9 - x,
            {
                let space = self.return_space(&Reference::XY((x + 1, y + 1)));
                assert(space == self.spaces@[9 * y + x]);
                match space.value {
                    Value::Def(n) => push_decimal(&mut this_row, n),
                    Value::Pos(_) => {
                        proof {
                            reveal_strlit("_");
                        }
                        this_row.append("_");
                    },
                }
                x += 1;
            }
            proof {
                reveal_strlit("\n");
            }
            answer.append("\n");
            answer.append(this_row.as_str());
            assert(answer@ =~= board_text(self.spaces@, y + 1));
            y += 1;
        }
        proof {
            if self.wf() {
                lemma_board_text_layout(self.spaces@);
            }
        }
        answer
    }
}

/// A definite change as text: its coordinates, `to`, and its digit.
pub fn change_to_text(change: &Change) -> (r: String)
    requires
        change.1 is Def,
    ensures
        r@ == change_text(*change),
{
    let (a, b) = xy(&change.0);
    let d = match change.1 {
        Value::Def(d) => d,
        Value::Pos(_) => 0,
    };
    let mut text = String::new();
    proof {
        reveal_strlit("(");
        reveal_strlit(", ");
        reveal_strlit(") to ");
    }
    text.append("(");
    push_decimal(&mut text, a);
    text.append(", ");
    push_decimal(&mut text, b);
    text.append(") to ");
    push_decimal(&mut text, d);
    assert(text@ =~= change_text(*change));
    text
}

} // verus!
