//! TOML basic strings and integers, as a declaration writes them.
//!
//! A basic string is quoted with `"`; a quote and a backslash are escaped,
//! the usual control characters take their short escapes, and every other
//! control character (and DEL) is written as `\u` with four hexadecimal
//! digits. No control character is left in the text, so every string stays
//! on one line.
use vstd::prelude::*;

use crate::text::{chars_of, push_char};

verus! {

/// The hexadecimal digits, in order, upper case.
pub const HEX_DIGITS: [char; 16] = [
    '0',
    '1',
    '2',
    '3',
    '4',
    '5',
    '6',
    '7',
    '8',
    '9',
    'A',
    'B',
    'C',
    'D',
    'E',
    'F',
];

/// The digit for `n`, below sixteen.
pub open spec fn digit(n: int) -> char {
    HEX_DIGITS@[n]
}

/// Whether `c` is a control character: below a space, or DEL.
pub open spec fn is_control(c: char) -> bool {
    c < '\u{20}' || c == '\u{7f}'
}

/// How one character stands in a basic string.
pub open spec fn escaped_char(c: char) -> Seq<char> {
    if c == '"' {
        seq!['\\', '"']
    } else if c == '\\' {
        seq!['\\', '\\']
    } else if c == '\u{8}' {
        seq!['\\', 'b']
    } else if c == '\t' {
        seq!['\\', 't']
    } else if c == '\n' {
        seq!['\\', 'n']
    } else if c == '\u{c}' {
        seq!['\\', 'f']
    } else if c == '\r' {
        seq!['\\', 'r']
    } else if is_control(c) {
        seq!['\\', 'u', '0', '0', digit((c as int) / 16), digit((c as int) % 16)]
    } else {
        seq![c]
    }
}

/// How `s` stands between the quotes of a basic string.
pub open spec fn escaped(s: Seq<char>) -> Seq<char>
    decreases s.len(),
{
    if s.len() == 0 {
        Seq::empty()
    } else {
        escaped(s.drop_last()) + escaped_char(s.last())
    }
}

/// `s` as a TOML basic string.
pub open spec fn quoted(s: Seq<char>) -> Seq<char> {
    seq!['"'] + escaped(s) + seq!['"']
}

/// `n` in decimal.
pub open spec fn decimal(n: nat) -> Seq<char>
    decreases n,
{
    if n < 10 {
        seq![digit(n as int)]
    } else {
        decimal(n / 10).push(digit((n % 10) as int))
    }
}


/// Whether `s` holds no control character.
pub open spec fn is_plain(s: Seq<char>) -> bool {
    forall|i: int| 0 <= i < s.len() ==> !is_control(#[trigger] s[i])
}

/// No character stands escaped as a control character.
pub proof fn lemma_escaped_char_plain(c: char)
    ensures
        is_plain(escaped_char(c)),
{
    assert(HEX_DIGITS@ =~= seq!['0', '1', '2', '3', '4', '5', '6', '7', '8', '9', 'A', 'B', 'C', 'D', 'E', 'F']);
    if is_control(c) && c != '\u{8}' && c != '\t' && c != '\n' && c != '\u{c}' && c != '\r' {
        assert(0 <= (c as int) / 16 < 16);
        assert(0 <= (c as int) % 16 < 16);
    }
}

/// A basic string holds no control character: whatever it quotes stays on
/// one line.
pub proof fn lemma_quoted_plain(s: Seq<char>)
    ensures
        is_plain(quoted(s)),
        is_plain(escaped(s)),
    decreases s.len(),
{
    if s.len() > 0 {
        lemma_quoted_plain(s.drop_last());
        lemma_escaped_char_plain(s.last());
        let a = escaped(s.drop_last());
        let b = escaped_char(s.last());
        assert forall|i: int| 0 <= i < (a + b).len() implies !is_control(#[trigger] (a + b)[i]) by {
            if i >= a.len() {
                assert((a + b)[i] == b[i - a.len()]);
            }
        }
    }
    let e = escaped(s);
    assert forall|i: int| 0 <= i < quoted(s).len() implies !is_control(#[trigger] quoted(s)[i]) by {
        if 1 <= i < 1 + e.len() {
            assert(quoted(s)[i] == e[i - 1]);
        }
    }
}

/// A number in decimal holds digits only.
pub proof fn lemma_decimal_plain(n: nat)
    ensures
        is_plain(decimal(n)),
        decimal(n).len() > 0,
    decreases n,
{
    assert(HEX_DIGITS@ =~= seq!['0', '1', '2', '3', '4', '5', '6', '7', '8', '9', 'A', 'B', 'C', 'D', 'E', 'F']);
    if n >= 10 {
        lemma_decimal_plain(n / 10);
    }
}


/// Escaping two parts one after the other.
proof fn lemma_escaped_concat(x: Seq<char>, y: Seq<char>)
    ensures
        escaped(x + y) == escaped(x) + escaped(y),
    decreases y.len(),
{
    if y.len() == 0 {
        assert(x + y =~= x);
        assert(escaped(x) + escaped(y) =~= escaped(x));
    } else {
        lemma_escaped_concat(x, y.drop_last());
        assert((x + y).drop_last() =~= x + y.drop_last());
        assert(escaped(x) + escaped(y.drop_last()) + escaped_char(y.last()) =~= escaped(x)
            + escaped(y));
    }
}

/// Escaping reads from the front: the first character, then the rest.
proof fn lemma_escaped_first(s: Seq<char>)
    requires
        s.len() > 0,
    ensures
        escaped(s) == escaped_char(s[0]) + escaped(s.drop_first()),
{
    assert(s =~= seq![s[0]] + s.drop_first());
    lemma_escaped_concat(seq![s[0]], s.drop_first());
    let one = seq![s[0]];
    assert(one.drop_last() =~= Seq::<char>::empty());
    assert(one.last() == s[0]);
    assert(escaped(Seq::<char>::empty()) == Seq::<char>::empty());
    assert(escaped(one) == escaped(one.drop_last()) + escaped_char(one.last()));
    assert(Seq::<char>::empty() + escaped_char(s[0]) =~= escaped_char(s[0]));
}

/// Distinct numbers below sixteen have distinct digits.
proof fn lemma_digit_distinct(n: int, m: int)
    requires
        0 <= n < 16,
        0 <= m < 16,
        digit(n) == digit(m),
    ensures
        n == m,
{
    assert(HEX_DIGITS@ =~= seq!['0', '1', '2', '3', '4', '5', '6', '7', '8', '9', 'A', 'B', 'C', 'D', 'E', 'F']);
}

/// How a character stands escaped tells which character it is, whatever
/// follows it.
proof fn lemma_escaped_char_prefix(x: char, y: char, r1: Seq<char>, r2: Seq<char>)
    requires
        escaped_char(x) + r1 == escaped_char(y) + r2,
    ensures
        x == y,
        r1 == r2,
{
    let ex = escaped_char(x);
    let ey = escaped_char(y);
    let whole = ex + r1;
    assert(whole[0] == ex[0]);
    assert((ey + r2)[0] == ey[0]);
    if ex.len() >= 2 {
        assert(whole[1] == ex[1]);
    }
    if ey.len() >= 2 {
        assert((ey + r2)[1] == ey[1]);
    }
    if ex.len() == 6 {
        assert(whole[4] == ex[4]);
        assert(whole[5] == ex[5]);
        assert(ey.len() == 6);
        assert((ey + r2)[4] == ey[4]);
        assert((ey + r2)[5] == ey[5]);
        let cx = x as int;
        let cy = y as int;
        lemma_digit_distinct(cx / 16, cy / 16);
        lemma_digit_distinct(cx % 16, cy % 16);
        assert(cx == 16 * (cx / 16) + cx % 16);
        assert(cy == 16 * (cy / 16) + cy % 16);
        assert(cx == cy);
    }
    assert(x == y);
    assert(r1 =~= whole.skip(ex.len() as int));
    assert(r2 =~= (ey + r2).skip(ey.len() as int));
}

/// What escapes the same came from the same text.
proof fn lemma_escaped_injective(a: Seq<char>, b: Seq<char>)
    requires
        escaped(a) == escaped(b),
    ensures
        a == b,
    decreases a.len() + b.len(),
{
    if a.len() == 0 && b.len() == 0 {
        assert(a =~= b);
    } else if a.len() == 0 {
        lemma_escaped_first(b);
    } else if b.len() == 0 {
        lemma_escaped_first(a);
    } else {
        lemma_escaped_first(a);
        lemma_escaped_first(b);
        lemma_escaped_char_prefix(a[0], b[0], escaped(a.drop_first()), escaped(b.drop_first()));
        lemma_escaped_injective(a.drop_first(), b.drop_first());
        assert(a =~= seq![a[0]] + a.drop_first());
        assert(b =~= seq![b[0]] + b.drop_first());
    }
}

/// A basic string is read back exactly: what quotes the same came from the
/// same text.
pub proof fn lemma_quoted_injective(a: Seq<char>, b: Seq<char>)
    requires
        quoted(a) == quoted(b),
    ensures
        a == b,
{
    let qa = quoted(a);
    assert(escaped(a) =~= qa.subrange(1, qa.len() - 1));
    assert(escaped(b) =~= quoted(b).subrange(1, quoted(b).len() - 1));
    lemma_escaped_injective(a, b);
}


/// The value of a hexadecimal digit, in either case.
pub open spec fn hex_value(c: char) -> Option<int> {
    if '0' <= c && c <= '9' {
        Some(c as int - '0' as int)
    } else if 'A' <= c && c <= 'F' {
        Some(c as int - 'A' as int + 10)
    } else if 'a' <= c && c <= 'f' {
        Some(c as int - 'a' as int + 10)
    } else {
        None
    }
}

/// What TOML reads one escape or one plain character of a basic string
/// as: `\b \t \n \f \r \" \\`, `\u` with four hexadecimal digits naming a
/// Unicode scalar value, or a character that needs no escape; `None` for
/// anything TOML does not define.
pub open spec fn toml_read(e: Seq<char>) -> Option<char> {
    if e.len() == 1 {
        if e[0] != '"' && e[0] != '\\' && (e[0] as int) >= 0x20 && e[0] != '\u{7f}' {
            Some(e[0])
        } else {
            None
        }
    } else if e.len() == 2 && e[0] == '\\' {
        if e[1] == 'b' {
            Some('\u{8}')
        } else if e[1] == 't' {
            Some('\t')
        } else if e[1] == 'n' {
            Some('\n')
        } else if e[1] == 'f' {
            Some('\u{c}')
        } else if e[1] == 'r' {
            Some('\r')
        } else if e[1] == '"' {
            Some('"')
        } else if e[1] == '\\' {
            Some('\\')
        } else {
            None
        }
    } else if e.len() == 6 && e[0] == '\\' && e[1] == 'u' && hex_value(e[2]) is Some && hex_value(
        e[3],
    ) is Some && hex_value(e[4]) is Some && hex_value(e[5]) is Some {
        let v = 4096 * hex_value(e[2])->0 + 256 * hex_value(e[3])->0 + 16 * hex_value(e[4])->0
            + hex_value(e[5])->0;
        if v < 0xD800 || (0xE000 <= v && v <= 0x10FFFF) {
            Some(v as char)
        } else {
            None
        }
    } else {
        None
    }
}

/// Every character is written as something TOML defines, and TOML reads
/// it back as that character.
pub proof fn lemma_escape_reads_back(c: char)
    ensures
        toml_read(escaped_char(c)) == Some(c),
{
    assert(HEX_DIGITS@ =~= seq!['0', '1', '2', '3', '4', '5', '6', '7', '8', '9', 'A', 'B', 'C', 'D', 'E', 'F']);
    if is_control(c) && c != '\u{8}' && c != '\t' && c != '\n' && c != '\u{c}' && c != '\r' {
        let n = c as int;
        let hi = n / 16;
        let lo = n % 16;
        assert(0 <= hi < 8);
        assert(0 <= lo < 16);
        assert(hex_value(digit(hi)) == Some(hi));
        assert(hex_value(digit(lo)) == Some(lo));
        assert(n == 16 * hi + lo);
        assert((n as char) == c);
    }
}

/// Quoting changes nothing but what needs an escape: text with no quote,
/// no backslash and no control character is written as it is, between
/// quotes.
pub proof fn lemma_plain_text_unchanged(s: Seq<char>)
    requires
        forall|i: int|
            0 <= i < s.len() ==> #[trigger] s[i] != '"' && s[i] != '\\' && (s[i] as int) >= 0x20
                && s[i] != '\u{7f}',
    ensures
        escaped(s) == s,
        quoted(s) == seq!['"'] + s + seq!['"'],
    decreases s.len(),
{
    if s.len() > 0 {
        let d = s.drop_last();
        assert forall|i: int| 0 <= i < d.len() implies #[trigger] d[i] != '"' && d[i] != '\\' && (
        d[i] as int) >= 0x20 && d[i] != '\u{7f}' by {
            assert(d[i] == s[i]);
        }
        lemma_plain_text_unchanged(d);
        assert(s[s.len() - 1] == s.last());
        assert(escaped_char(s.last()) =~= seq![s.last()]);
        assert(d.push(s.last()) =~= s);
        assert(d + seq![s.last()] =~= s);
    } else {
        assert(escaped(s) =~= s);
    }
}

/// The value of a run of decimal digits.
pub open spec fn decimal_value(s: Seq<char>) -> int
    decreases s.len(),
{
    if s.len() == 0 {
        0
    } else {
        decimal_value(s.drop_last()) * 10 + (s.last() as int - '0' as int)
    }
}

/// A number in decimal reads back as that number: decimal digits only, no
/// leading zero, and their value in base ten is the number.
pub proof fn lemma_decimal_reads_back(n: nat)
    ensures
        decimal(n).len() > 0,
        forall|i: int| 0 <= i < decimal(n).len() ==> '0' <= #[trigger] decimal(n)[i] && decimal(n)[i] <= '9',
        decimal_value(decimal(n)) == n,
        decimal(n).len() > 1 ==> decimal(n)[0] != '0',
        n >= 10 ==> decimal(n).len() > 1,
    decreases n,
{
    assert(HEX_DIGITS@ =~= seq!['0', '1', '2', '3', '4', '5', '6', '7', '8', '9', 'A', 'B', 'C', 'D', 'E', 'F']);
    if n < 10 {
        let one = decimal(n);
        assert(one.drop_last() =~= Seq::<char>::empty());
        assert(one.last() == digit(n as int));
        assert(decimal_value(Seq::<char>::empty()) == 0);
        assert(digit(n as int) as int - '0' as int == n);
        assert(decimal_value(one) == decimal_value(one.drop_last()) * 10 + (one.last() as int
            - '0' as int));
    } else {
        lemma_decimal_reads_back(n / 10);
        let d = decimal(n / 10);
        let r = (n % 10) as int;
        assert(decimal(n) == d.push(digit(r)));
        assert(d.push(digit(r)).drop_last() =~= d);
        assert(digit(r) as int - '0' as int == r);
        assert(n == (n / 10) * 10 + r);
        assert forall|i: int| 0 <= i < decimal(n).len() implies '0' <= #[trigger] decimal(n)[i]
            && decimal(n)[i] <= '9' by {
            if i < d.len() {
                assert(decimal(n)[i] == d[i]);
            }
        }
        assert(decimal(n)[0] == d[0]);
        assert(decimal_value(d.push(digit(r))) == decimal_value(d) * 10 + (digit(r) as int
            - '0' as int));
        if n / 10 < 10 {
            assert(d[0] == digit((n / 10) as int));
        }
    }
}

/// Appends how `c` stands in a basic string.
fn push_escaped(out: &mut String, c: char)
    ensures
        final(out)@ == old(out)@ + escaped_char(c),
{
    if c == '"' || c == '\\' {
        push_char(out, '\\');
        push_char(out, c);
    } else if c == '\u{8}' {
        push_char(out, '\\');
        push_char(out, 'b');
    } else if c == '\t' {
        push_char(out, '\\');
        push_char(out, 't');
    } else if c == '\n' {
        push_char(out, '\\');
        push_char(out, 'n');
    } else if c == '\u{c}' {
        push_char(out, '\\');
        push_char(out, 'f');
    } else if c == '\r' {
        push_char(out, '\\');
        push_char(out, 'r');
    } else if c < '\u{20}' || c == '\u{7f}' {
        let code = c as u32;
        push_char(out, '\\');
        push_char(out, 'u');
        push_char(out, '0');
        push_char(out, '0');
        push_char(out, HEX_DIGITS[(code / 16) as usize]);
        push_char(out, HEX_DIGITS[(code % 16) as usize]);
    } else {
        push_char(out, c);
    }
    assert(final(out)@ =~= old(out)@ + escaped_char(c));
}

/// Appends `s` as a TOML basic string: quoted, with every quote,
/// backslash and control character escaped.
pub fn push_quoted(out: &mut String, s: &str)
    ensures
        final(out)@ == old(out)@ + quoted(s@),
{
    let v = chars_of(s);
    let ghost start = out@;
    push_char(out, '"');
    for i in 0..v.len()
        invariant
            out@ == start + seq!['"'] + escaped(v@.take(i as int)),
    {
        assert(v@.take(i + 1).drop_last() =~= v@.take(i as int));
        push_escaped(out, v[i]);
        assert(out@ =~= start + seq!['"'] + escaped(v@.take(i + 1)));
    }
    assert(v@.take(v.len() as int) =~= s@);
    push_char(out, '"');
    assert(out@ =~= start + quoted(s@));
}

/// `s` as a TOML basic string.
pub fn quote(s: &str) -> (r: String)
    ensures
        r@ == quoted(s@),
{
    let mut r = String::new();
    push_quoted(&mut r, s);
    assert(r@ =~= quoted(s@));
    r
}

/// Appends `n` in decimal.
pub fn push_decimal(out: &mut String, n: u64)
    ensures
        final(out)@ == old(out)@ + decimal(n as nat),
    decreases n,
{
    if n >= 10 {
        push_decimal(out, n / 10);
    }
    push_char(out, HEX_DIGITS[(n % 10) as usize]);
    assert(final(out)@ =~= old(out)@ + decimal(n as nat));
}

} // verus!
