//! Texts taken apart and put together: lists between commas, blanks at the ends, alphabetical
//! order, and boards and bars as characters.

use crate::board::Board;
use crate::frame::{bar, compact, compact_row, symbol_of};
use crate::summary::comes_first;
use crate::text::{is_blank, joined, padded_left, pieces, trimmed, trimmed_end, trimmed_start};
use vstd::prelude::*;

verus! {

/// The pieces of a text hold no comma, and with commas between them they are the text.
pub proof fn law_pieces_join_to_the_text(s: Seq<char>)
    ensures
        pieces(s).len() > 0,
        joined(pieces(s), seq![',']) == s,
        forall|i: int| 0 <= i < pieces(s).len() ==> !(#[trigger] pieces(s)[i]).contains(','),
    decreases s.len(),
{
    let sep = seq![','];
    let all = pieces(s);
    if s.len() == 0 {
        assert(joined(all, sep) =~= s);
    } else {
        let before = s.drop_last();
        let front = pieces(before);
        let c = s.last();
        law_pieces_join_to_the_text(before);
        if c == ',' {
            assert(all == front.push(seq![]));
            assert(all.drop_last() =~= front);
            assert(joined(all, sep) =~= s);
        } else {
            let n = front.len() - 1;
            assert(all == front.update(n, front.last().push(c)));
            assert(all.drop_last() =~= front.drop_last());
            assert(joined(all, sep) =~= joined(front, sep).push(c));
            assert(joined(all, sep) =~= s);
            assert forall|i: int| 0 <= i < all.len() implies !(#[trigger] all[i]).contains(',') by {
                if i == n {
                    assert(!front[n].contains(','));
                    let piece = front.last().push(c);
                    if piece.contains(',') {
                        let j = choose|j: int| 0 <= j < piece.len() && piece[j] == ',';
                        assert(front[n][j] == ',');
                    }
                } else {
                    assert(all[i] == front[i]);
                }
            }
        }
    }
}

proof fn lemma_trimmed_start(s: Seq<char>) -> (a: int)
    ensures
        0 <= a <= s.len(),
        trimmed_start(s) == s.skip(a),
        forall|i: int| 0 <= i < a ==> is_blank(#[trigger] s[i]),
        a < s.len() ==> !is_blank(s[a]),
    decreases s.len(),
{
    if s.len() > 0 && is_blank(s[0]) {
        let rest = s.skip(1);
        let b = lemma_trimmed_start(rest);
        assert(rest.skip(b) =~= s.skip(b + 1));
        assert forall|i: int| 0 <= i < b + 1 implies is_blank(#[trigger] s[i]) by {
            if i > 0 {
                assert(rest[i - 1] == s[i]);
            }
        }
        if b < rest.len() {
            assert(rest[b] == s[b + 1]);
        }
        b + 1
    } else {
        assert(s.skip(0) =~= s);
        0
    }
}

proof fn lemma_trimmed_end(s: Seq<char>) -> (b: int)
    ensures
        0 <= b <= s.len(),
        trimmed_end(s) == s.take(b),
        forall|i: int| b <= i < s.len() ==> is_blank(#[trigger] s[i]),
        b > 0 ==> !is_blank(s[b - 1]),
    decreases s.len(),
{
    if s.len() > 0 && is_blank(s.last()) {
        let rest = s.drop_last();
        let b = lemma_trimmed_end(rest);
        assert(rest.take(b) =~= s.take(b));
        assert forall|i: int| b <= i < s.len() implies is_blank(#[trigger] s[i]) by {
            if i < rest.len() {
                assert(rest[i] == s[i]);
            }
        }
        if b > 0 {
            assert(rest[b - 1] == s[b - 1]);
        }
        b
    } else {
        assert(s.take(s.len() as int) =~= s);
        s.len() as int
    }
}

/// A trimmed text is the text from its first character that is no blank to its last; all around it
/// is blank.
pub proof fn law_trimming_takes_blanks_off_the_ends(s: Seq<char>)
    ensures
        exists|a: int, b: int|
            {
                &&& 0 <= a <= b <= s.len()
                &&& trimmed(s) == #[trigger] s.subrange(a, b)
                &&& forall|i: int| 0 <= i < a || b <= i < s.len() ==> is_blank(#[trigger] s[i])
                &&& a < b ==> !is_blank(s[a]) && !is_blank(s[b - 1])
            },
{
    let a = lemma_trimmed_start(s);
    let rest = s.skip(a);
    let n = lemma_trimmed_end(rest);
    let b = a + n;
    assert(rest.take(n) =~= s.subrange(a, b));
    assert forall|i: int| 0 <= i < a || b <= i < s.len() implies is_blank(#[trigger] s[i]) by {
        if b <= i {
            assert(rest[i - a] == s[i]);
        }
    }
    if a < b {
        assert(rest[n - 1] == s[b - 1]);
    }
    assert(trimmed(s) == s.subrange(a, b));
}

/// Alphabetical order is decided by the first place in which two texts differ, and a text comes
/// before those that go on after it.
pub proof fn law_first_difference_decides_the_order(a: Seq<char>, b: Seq<char>, n: int)
    requires
        0 <= n <= a.len(),
        n <= b.len(),
        a.take(n) == b.take(n),
        n < a.len() && n < b.len() ==> a[n] != b[n],
    ensures
        n < a.len() && n < b.len() ==> (comes_first(a, b) <==> a[n] < b[n]),
        n == a.len() ==> comes_first(a, b),
        n == b.len() && n < a.len() ==> !comes_first(a, b),
    decreases n,
{
    if n > 0 {
        let x = a.skip(1);
        let y = b.skip(1);
        assert(a.take(n)[0] == a[0] && b.take(n)[0] == b[0]);
        assert(a[0] == b[0]);
        assert(x.take(n - 1) =~= a.take(n).skip(1));
        assert(y.take(n - 1) =~= b.take(n).skip(1));
        law_first_difference_decides_the_order(x, y, n - 1);
    }
}

/// A board as text: four rows of four characters apart by blanks, the character of the cell in row
/// `r` and column `c` at its place. Boards whose tiles have characters of their own look alike
/// only where they are.
pub proof fn law_boards_read_back(a: Board, b: Board)
    requires
        compact(a) == compact(b),
        forall|c: int| 0 <= c < 16 ==> #[trigger] a@[c] <= 35 && b@[c] <= 35,
    ensures
        a@ == b@,
{
    assert forall|c: int| 0 <= c < 16 implies a@[c] == b@[c] by {
        let r = c / 4;
        lemma_cell_text(a, r, c % 4);
        lemma_cell_text(b, r, c % 4);
        lemma_symbols_differ(a@[c], b@[c]);
    }
    assert(a@ =~= b@);
}

proof fn lemma_cell_text(b: Board, r: int, c: int)
    requires
        0 <= r < 4,
        0 <= c < 4,
    ensures
        compact(b).len() == 32,
        compact(b)[8 * r + 2 * c] == symbol_of(b@[4 * r + c]),
{
    let w = compact_row(b, 0);
    let x = compact_row(b, 1);
    let y = compact_row(b, 2);
    let z = compact_row(b, 3);
    assert(w.len() == 8 && x.len() == 8 && y.len() == 8 && z.len() == 8);
    let q = compact_row(b, r);
    assert(q[2 * c] == symbol_of(b@[4 * r + c]));
    assert(compact(b)[8 * r + 2 * c] == q[2 * c]);
}

proof fn lemma_symbols_differ(a: u8, b: u8)
    requires
        a <= 35,
        b <= 35,
        symbol_of(a) == symbol_of(b),
    ensures
        a == b,
{
}

/// A bar is as wide as it always is; what is filled stands before what is not, and no more is filled
/// than there is room for.
pub proof fn law_bars_fill_from_the_left(filled: int, i: int)
    requires
        0 <= filled,
        0 <= i < 24,
    ensures
        bar(filled).len() == 24,
        bar(filled)[i] == if i < filled {
            '='
        } else {
            '-'
        },
{
}

/// A text brought to a width is that wide, and ends in the text after nothing but blanks; a longer
/// one stays as it is.
pub proof fn law_padding_aligns_right(s: Seq<char>, width: int)
    requires
        0 <= width,
    ensures
        s.len() <= width ==> padded_left(s, width).len() == width,
        s.len() > width ==> padded_left(s, width) == s,
        padded_left(s, width).skip(padded_left(s, width).len() - s.len()) == s,
        forall|i: int|
            0 <= i < padded_left(s, width).len() - s.len() ==> #[trigger] padded_left(s, width)[i] == ' ',
{
    let p = padded_left(s, width);
    assert(p.skip(p.len() - s.len()) =~= s);
    if s.len() > width {
        assert(p =~= s);
    }
}

} // verus!
