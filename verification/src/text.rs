//! Text: decimal numbers, padding, and lists separated by commas.

use vstd::prelude::*;

verus! {

/// `String::push` appends a character.
pub assume_specification[ String::push ](s: &mut String, c: char)
    ensures
        final(s)@ == old(s)@.push(c),
;

/// The character of a decimal digit.
pub open spec fn digit_char(d: int) -> char {
    (48 + d) as char
}

/// A number in decimal, without leading zeros.
pub open spec fn decimal(n: nat) -> Seq<char>
    decreases n,
{
    if n < 10 {
        seq![digit_char(n as int)]
    } else {
        decimal(n / 10).push(digit_char((n % 10) as int))
    }
}

/// Whether a character is a decimal digit.
pub open spec fn is_digit(c: char) -> bool {
    '0' <= c <= '9'
}

/// The number that a sequence of digits stands for.
pub open spec fn digits_value(s: Seq<char>) -> nat
    decreases s.len(),
{
    if s.len() == 0 {
        0
    } else {
        digits_value(s.drop_last()) * 10 + (s.last() as nat - 48) as nat
    }
}

/// One digit at least, and nothing else.
pub open spec fn all_digits(s: Seq<char>) -> bool {
    s.len() > 0 && forall|i: int| 0 <= i < s.len() ==> is_digit(#[trigger] s[i])
}

/// The digits of a number that may start with a plus sign.
pub open spec fn unsigned(s: Seq<char>) -> Seq<char> {
    if s.len() > 0 && s[0] == '+' {
        s.skip(1)
    } else {
        s
    }
}

/// The machine number that a text stands for: digits, after a plus sign or not, whose
/// value fits.
pub open spec fn number_in(s: Seq<char>) -> Option<usize> {
    if all_digits(unsigned(s)) && digits_value(unsigned(s)) <= usize::MAX {
        Some(digits_value(unsigned(s)) as usize)
    } else {
        None
    }
}

/// The characters with the Unicode property `White_Space`.
pub open spec fn is_blank(c: char) -> bool {
    let u = c as u32;
    ||| 0x9 <= u <= 0xd
    ||| u == 0x20
    ||| u == 0x85
    ||| u == 0xa0
    ||| u == 0x1680
    ||| 0x2000 <= u <= 0x200a
    ||| u == 0x2028
    ||| u == 0x2029
    ||| u == 0x202f
    ||| u == 0x205f
    ||| u == 0x3000
}

/// A text without the blanks at its end.
pub open spec fn trimmed_end(s: Seq<char>) -> Seq<char>
    decreases s.len(),
{
    if s.len() > 0 && is_blank(s.last()) {
        trimmed_end(s.drop_last())
    } else {
        s
    }
}

/// A text without the blanks at its start.
pub open spec fn trimmed_start(s: Seq<char>) -> Seq<char>
    decreases s.len(),
{
    if s.len() > 0 && is_blank(s[0]) {
        trimmed_start(s.skip(1))
    } else {
        s
    }
}

/// A text without the blanks at both ends.
pub open spec fn trimmed(s: Seq<char>) -> Seq<char> {
    trimmed_end(trimmed_start(s))
}

/// The pieces of a text between its commas: one more than there are commas.
pub open spec fn pieces(s: Seq<char>) -> Seq<Seq<char>>
    decreases s.len(),
{
    if s.len() == 0 {
        seq![seq![]]
    } else {
        let front = pieces(s.drop_last());
        if s.last() == ',' {
            front.push(seq![])
        } else {
            front.update(front.len() - 1, front.last().push(s.last()))
        }
    }
}

/// `n` times the same character.
pub open spec fn repeated(c: char, n: int) -> Seq<char> {
    Seq::new(if n > 0 { n as nat } else { 0 }, |i: int| c)
}

/// A text brought to a width with blanks before it.
pub open spec fn padded_left(s: Seq<char>, width: int) -> Seq<char> {
    repeated(' ', width - s.len()) + s
}

/// A text brought to a width with blanks after it.
pub open spec fn padded_right(s: Seq<char>, width: int) -> Seq<char> {
    s + repeated(' ', width - s.len())
}

/// The texts of a list with a separator between them.
pub open spec fn joined(parts: Seq<Seq<char>>, sep: Seq<char>) -> Seq<char>
    decreases parts.len(),
{
    if parts.len() == 0 {
        seq![]
    } else if parts.len() == 1 {
        parts[0]
    } else {
        joined(parts.drop_last(), sep) + sep + parts.last()
    }
}

/// The texts of a list of strings.
pub open spec fn texts(parts: Seq<String>) -> Seq<Seq<char>> {
    Seq::new(parts.len(), |i: int| parts[i]@)
}

/// The characters of a text.
pub fn chars_of(s: &str) -> (r: Vec<char>)
    ensures
        r@ == s@,
{
    let n = s.unicode_len();
    let mut out: Vec<char> = Vec::new();
    for i in 0..n
        invariant
            n == s@.len(),
            out@ == s@.take(i as int),
    {
        out.push(s.get_char(i));
        assert(out@ =~= s@.take(i + 1));
    }
    assert(s@.take(n as int) =~= s@);
    out
}

/// The text of a list of characters.
pub fn text_of(cs: &Vec<char>) -> (r: String)
    ensures
        r@ == cs@,
{
    let mut out = String::new();
    for i in 0..cs.len()
        invariant
            out@ == cs@.take(i as int),
    {
        out.push(cs[i]);
        assert(out@ =~= cs@.take(i + 1));
    }
    assert(cs@.take(cs@.len() as int) =~= cs@);
    out
}

/// Whether a list of characters spells a text.
pub fn spells(cs: &Vec<char>, s: &str) -> (r: bool)
    ensures
        r == (cs@ == s@),
{
    let other = chars_of(s);
    if cs.len() != other.len() {
        return false;
    }
    for i in 0..cs.len()
        invariant
            cs@.len() == other@.len(),
            other@ == s@,
            forall|j: int| 0 <= j < i ==> cs@[j] == other@[j],
    {
        if cs[i] != other[i] {
            return false;
        }
    }
    assert(cs@ =~= s@);
    true
}

/// The characters from `from` on.
pub fn tail_of(cs: &Vec<char>, from: usize) -> (r: Vec<char>)
    requires
        from <= cs@.len(),
    ensures
        r@ == cs@.skip(from as int),
{
    let mut out: Vec<char> = Vec::new();
    for i in from..cs.len()
        invariant
            from <= i <= cs@.len(),
            out@ == cs@.subrange(from as int, i as int),
    {
        out.push(cs[i]);
        assert(out@ =~= cs@.subrange(from as int, i + 1));
    }
    assert(out@ =~= cs@.skip(from as int));
    out
}

/// Appends a number in decimal.
pub fn push_decimal(out: &mut String, n: u64)
    ensures
        final(out)@ == old(out)@ + decimal(n as nat),
    decreases n,
{
    let ghost start = out@;
    if n >= 10 {
        push_decimal(out, n / 10);
    }
    let d: u8 = (n % 10) as u8;
    out.push((48u8 + d) as char);
    assert(out@ =~= start + decimal(n as nat));
}

/// A number in decimal.
pub fn decimal_text(n: u64) -> (r: String)
    ensures
        r@ == decimal(n as nat),
{
    let mut out = String::new();
    push_decimal(&mut out, n);
    assert(out@ =~= decimal(n as nat));
    out
}

/// Appends a character `n` times.
pub fn push_repeated(out: &mut String, c: char, n: usize)
    ensures
        final(out)@ == old(out)@ + repeated(c, n as int),
{
    let ghost start = out@;
    assert(start + repeated(c, 0) =~= start);
    for i in 0..n
        invariant
            out@ == start + repeated(c, i as int),
    {
        out.push(c);
        assert(out@ =~= start + repeated(c, i + 1));
    }
}

/// Appends a text brought to a width with blanks before it.
pub fn push_padded_left(out: &mut String, s: &str, width: usize)
    ensures
        final(out)@ == old(out)@ + padded_left(s@, width as int),
{
    let ghost start = out@;
    let n = s.unicode_len();
    if n < width {
        push_repeated(out, ' ', width - n);
    }
    out.append(s);
    assert(out@ =~= start + padded_left(s@, width as int));
}

/// Joins the texts of a list with a separator.
pub fn join(parts: &Vec<String>, sep: &str) -> (r: String)
    ensures
        r@ == joined(texts(parts@), sep@),
{
    let mut out = String::new();
    let ghost all = texts(parts@);
    for i in 0..parts.len()
        invariant
            all == texts(parts@),
            out@ == joined(all.take(i as int), sep@),
    {
        let ghost before = out@;
        assert(all.take(i + 1).drop_last() =~= all.take(i as int));
        if i > 0 {
            out.append(sep);
        }
        out.append(parts[i].as_str());
        assert(out@ =~= joined(all.take(i + 1), sep@));
    }
    assert(all.take(all.len() as int) =~= all);
    out
}

/// The machine number that a text stands for, if it stands for one.
pub fn parse_number(cs: &Vec<char>) -> (r: Option<usize>)
    ensures
        r == number_in(cs@),
{
    let start: usize = if cs.len() > 0 && cs[0] == '+' {
        1
    } else {
        0
    };
    let ghost d = unsigned(cs@);
    assert(d =~= cs@.skip(start as int));
    if start == cs.len() {
        return None;
    }
    let mut value: usize = 0;
    for i in start..cs.len()
        invariant
            start <= i <= cs@.len(),
            start <= 1,
            d == cs@.skip(start as int),
            d == unsigned(cs@),
            value == digits_value(d.take(i - start)),
            forall|j: int| 0 <= j < i - start ==> is_digit(#[trigger] d[j]),
    {
        let c = cs[i];
        let ghost p: int = i - start;
        assert(d[p] == c);
        assert(d.take(p + 1).drop_last() =~= d.take(p));
        if !('0' <= c && c <= '9') {
            return None;
        }
        let v: u32 = (c as u32) - 48;
        proof {
            lemma_digits_grow(d, p + 1);
        }
        match value.checked_mul(10) {
            Some(ten) => match ten.checked_add(v as usize) {
                Some(next) => {
                    value = next;
                },
                None => {
                    return None;
                },
            },
            None => {
                return None;
            },
        }
    }
    assert(d.take(d.len() as int) =~= d);
    Some(value)
}

/// More digits make no smaller number.
proof fn lemma_digits_grow(s: Seq<char>, n: int)
    requires
        0 <= n <= s.len(),
    ensures
        digits_value(s.take(n)) <= digits_value(s),
    decreases s.len() - n,
{
    if n < s.len() {
        assert(s.take(n + 1).drop_last() =~= s.take(n));
        lemma_digits_grow(s, n + 1);
    } else {
        assert(s.take(n) =~= s);
    }
}

/// The blank characters; see [`is_blank`].
pub fn blank(c: char) -> (r: bool)
    ensures
        r == is_blank(c),
{
    let u = c as u32;
    (0x9 <= u && u <= 0xd) || u == 0x20 || u == 0x85 || u == 0xa0 || u == 0x1680 || (0x2000 <= u && u
        <= 0x200a) || u == 0x2028 || u == 0x2029 || u == 0x202f || u == 0x205f || u == 0x3000
}

/// A text without the blanks at both ends.
pub fn trim(cs: &Vec<char>) -> (r: Vec<char>)
    ensures
        r@ == trimmed(cs@),
{
    let mut start: usize = 0;
    assert(cs@.skip(0) =~= cs@);
    while start < cs.len() && blank(cs[start])
        invariant
            start <= cs@.len(),
            trimmed_start(cs@.skip(start as int)) == trimmed_start(cs@),
        decreases cs@.len() - start,
    {
        assert(cs@.skip(start as int).skip(1) =~= cs@.skip(start + 1));
        start = start + 1;
    }
    let mut out = tail_of(cs, start);
    while out.len() > 0 && blank(out[out.len() - 1])
        invariant
            trimmed_end(out@) == trimmed(cs@),
        decreases out@.len(),
    {
        out.pop();
    }
    out
}

/// The pieces of a text between its commas.
pub fn split_commas(s: &str) -> (r: Vec<Vec<char>>)
    ensures
        r@.len() == pieces(s@).len(),
        forall|i: int| 0 <= i < r@.len() ==> (#[trigger] r@[i])@ == pieces(s@)[i],
{
    let cs = chars_of(s);
    let mut done: Vec<Vec<char>> = Vec::new();
    let mut current: Vec<char> = Vec::new();
    for i in 0..cs.len()
        invariant
            cs@ == s@,
            pieces(cs@.take(i as int)).len() == done@.len() + 1,
            pieces(cs@.take(i as int)).last() == current@,
            forall|j: int|
                0 <= j < done@.len() ==> (#[trigger] done@[j])@ == pieces(cs@.take(i as int))[j],
    {
        let ghost before = pieces(cs@.take(i as int));
        assert(cs@.take(i + 1).drop_last() =~= cs@.take(i as int));
        if cs[i] == ',' {
            done.push(current);
            current = Vec::new();
            assert(pieces(cs@.take(i + 1)) == before.push(seq![]));
            assert(current@ =~= Seq::<char>::empty());
        } else {
            current.push(cs[i]);
            assert(pieces(cs@.take(i + 1)) == before.update(
                before.len() - 1,
                before.last().push(cs@[i as int]),
            ));
        }
    }
    assert(cs@.take(cs@.len() as int) =~= cs@);
    done.push(current);
    done
}

/// `i` is the first piece that stands for no number.
pub open spec fn first_bad_piece(s: Seq<char>, i: int) -> bool {
    &&& 0 <= i < pieces(s).len()
    &&& number_in(trimmed(pieces(s)[i])) == None::<usize>
    &&& forall|j: int| 0 <= j < i ==> number_in(trimmed(#[trigger] pieces(s)[j])) is Some
}

/// The pieces of a list all stand for numbers.
pub open spec fn lists_numbers(s: Seq<char>) -> bool {
    forall|i: int| 0 <= i < pieces(s).len() ==> number_in(trimmed(#[trigger] pieces(s)[i])) is Some
}

/// The numbers that the pieces of a list stand for.
pub open spec fn numbers_listed(s: Seq<char>, v: Seq<usize>) -> bool {
    &&& v.len() == pieces(s).len()
    &&& forall|i: int|
        0 <= i < v.len() ==> number_in(trimmed(#[trigger] pieces(s)[i])) == Some(v[i])
}

/// The message names the first piece that stands for no number, as it was written.
pub open spec fn names_bad_number(s: Seq<char>, message: Seq<char>) -> bool {
    exists|i: int| #[trigger] first_bad_piece(s, i) && message == "bad integer: "@ + pieces(s)[i]
}

/// The numbers of a list separated by commas, blanks around them aside. The error names
/// the first piece that stands for no number, as it was written.
pub fn parse_usizes(s: &str) -> (r: Result<Vec<usize>, String>)
    ensures
        match r {
            Ok(v) => lists_numbers(s@) && numbers_listed(s@, v@),
            Err(msg) => !lists_numbers(s@) && names_bad_number(s@, msg@),
        },
{
    let parts = split_commas(s);
    let mut out: Vec<usize> = Vec::new();
    for i in 0..parts.len()
        invariant
            parts@.len() == pieces(s@).len(),
            forall|j: int| 0 <= j < parts@.len() ==> (#[trigger] parts@[j])@ == pieces(s@)[j],
            out@.len() == i,
            forall|j: int|
                0 <= j < i ==> number_in(trimmed(#[trigger] pieces(s@)[j])) == Some(out@[j]),
    {
        assert(parts@[i as int]@ == pieces(s@)[i as int]);
        let piece = trim(&parts[i]);
        match parse_number(&piece) {
            Some(n) => {
                out.push(n);
            },
            None => {
                let mut msg = String::from_str("bad integer: ");
                let shown = text_of(&parts[i]);
                msg.append(shown.as_str());
                assert(first_bad_piece(s@, i as int));
                return Err(msg);
            },
        }
    }
    Ok(out)
}

proof fn lemma_decimal_digits(n: nat)
    ensures
        all_digits(decimal(n)),
        digits_value(decimal(n)) == n,
    decreases n,
{
    if n < 10 {
        let s = seq![digit_char(n as int)];
        assert(s.drop_last() =~= Seq::<char>::empty());
        reveal_with_fuel(digits_value, 2);
    } else {
        lemma_decimal_digits(n / 10);
        let s = decimal(n);
        assert(s.drop_last() =~= decimal(n / 10));
    }
}

/// A number written in decimal reads back as itself.
pub proof fn law_decimal_reads_back(n: usize)
    ensures
        number_in(decimal(n as nat)) == Some(n),
{
    lemma_decimal_digits(n as nat);
    assert(is_digit(decimal(n as nat)[0]));
}

} // verus!
