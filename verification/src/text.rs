//! Text handling of the booklet settings and results: reading the booklet
//! size that was chosen, recognising the output mode, and the names and
//! messages that the program produces.
use crate::error::BookletError;
use vstd::prelude::*;

verus! {

/// Whether `s` begins with `prefix`.
pub open spec fn has_prefix(s: Seq<char>, prefix: Seq<char>) -> bool {
    prefix.len() <= s.len() && s.subrange(0, prefix.len() as int) == prefix
}

/// Whether `pattern` occurs somewhere in `s`.
pub open spec fn has_infix(s: Seq<char>, pattern: Seq<char>) -> bool {
    exists|i: int|
        0 <= i && i + pattern.len() <= s.len() && #[trigger] s.subrange(i, i + pattern.len()) == pattern
}

/// Whether `pattern` stands in `s` at position `at`.
fn occurs_at(s: &str, s_len: usize, pattern: &str, pattern_len: usize, at: usize) -> (r: bool)
    requires
        s_len == s@.len(),
        pattern_len == pattern@.len(),
        at + pattern_len <= s_len,
    ensures
        r == (s@.subrange(at as int, at + pattern_len) == pattern@),
{
    let mut i: usize = 0;
    while i < pattern_len
        invariant
            s_len == s@.len(),
            pattern_len == pattern@.len(),
            at + pattern_len <= s_len,
            i <= pattern_len,
            forall|k: int| 0 <= k < i ==> s@[at + k] == pattern@[k],
        decreases pattern_len - i,
    {
        if s.get_char(at + i) != pattern.get_char(i) {
            assert(s@.subrange(at as int, at + pattern_len)[i as int] != pattern@[i as int]);
            return false;
        }
        i = i + 1;
    }
    assert(s@.subrange(at as int, at + pattern_len) =~= pattern@);
    true
}

/// Whether `s` begins with `prefix` (`str::starts_with`).
pub fn starts_with_text(s: &str, prefix: &str) -> (r: bool)
    ensures
        r == has_prefix(s@, prefix@),
{
    let s_len = s.unicode_len();
    let prefix_len = prefix.unicode_len();
    if prefix_len > s_len {
        return false;
    }
    occurs_at(s, s_len, prefix, prefix_len, 0)
}

/// Whether `pattern` occurs in `s` (`str::contains`).
pub fn contains_text(s: &str, pattern: &str) -> (r: bool)
    ensures
        r == has_infix(s@, pattern@),
{
    let s_len = s.unicode_len();
    let pattern_len = pattern.unicode_len();
    if pattern_len > s_len {
        return false;
    }
    let last = s_len - pattern_len;
    let mut at: usize = 0;
    loop
        invariant
            s_len == s@.len(),
            pattern_len == pattern@.len(),
            last == s_len - pattern_len,
            at <= last,
            forall|i: int| 0 <= i < at ==> #[trigger] s@.subrange(i, i + pattern_len) != pattern@,
        decreases last - at,
    {
        if occurs_at(s, s_len, pattern, pattern_len, at) {
            return true;
        }
        if at == last {
            return false;
        }
        at = at + 1;
    }
}

/// Whether two texts are equal.
pub fn same_text(a: &str, b: &str) -> (r: bool)
    ensures
        r == (a@ == b@),
{
    let a_len = a.unicode_len();
    let b_len = b.unicode_len();
    if a_len != b_len {
        return false;
    }
    let r = occurs_at(a, a_len, b, b_len, 0);
    assert(a@.subrange(0, a_len as int) =~= a@);
    r
}

/// Whether `c` is an ASCII decimal digit.
pub open spec fn is_digit(c: char) -> bool {
    '0' <= c && c <= '9'
}

/// The value of the decimal digit `c`.
pub open spec fn digit_value(c: char) -> int {
    c as int - '0' as int
}

/// The value of the decimal numeral `s`.
pub open spec fn decimal_value(s: Seq<char>) -> int
    decreases s.len(),
{
    if s.len() == 0 {
        0
    } else {
        decimal_value(s.drop_last()) * 10 + digit_value(s.last())
    }
}

/// Whether every character of `s` is a decimal digit.
pub open spec fn all_digits(s: Seq<char>) -> bool {
    forall|i: int| 0 <= i < s.len() ==> is_digit(#[trigger] s[i])
}

/// The digits of an unsigned numeral: `s` without one leading `+`.
pub open spec fn unsigned_digits(s: Seq<char>) -> Seq<char> {
    if s.len() > 0 && s[0] == '+' {
        s.drop_first()
    } else {
        s
    }
}

/// The value of `s` read as a `usize` the way `str::parse::<usize>` reads
/// it: an optional `+` then at least one decimal digit, the value fitting in
/// a `usize`; `None` otherwise.
pub open spec fn parse_usize_spec(s: Seq<char>) -> Option<int> {
    let digits = unsigned_digits(s);
    if digits.len() > 0 && all_digits(digits) && decimal_value(digits) <= usize::MAX {
        Some(decimal_value(digits))
    } else {
        None
    }
}

proof fn lemma_decimal_value_grows(s: Seq<char>, i: int)
    requires
        0 <= i <= s.len(),
        all_digits(s),
    ensures
        0 <= decimal_value(s.take(i)) <= decimal_value(s),
    decreases s.len(),
{
    if i < s.len() {
        assert(s.drop_last().take(i) =~= s.take(i));
        assert(all_digits(s.drop_last()));
        lemma_decimal_value_grows(s.drop_last(), i);
    } else {
        assert(s.take(i) =~= s);
    }
    if s.len() > 0 {
        assert(all_digits(s.drop_last()));
        lemma_decimal_value_grows(s.drop_last(), s.len() - 1);
        assert(s.drop_last().take(s.len() - 1) =~= s.drop_last());
        assert(is_digit(s[s.len() - 1]));
    }
}

/// Reads `s` as a `usize` (`str::parse::<usize>`): an optional `+`, then
/// decimal digits whose value fits.
pub fn parse_usize(s: &str) -> (r: Option<usize>)
    ensures
        r matches Some(v) ==> parse_usize_spec(s@) == Some(v as int),
        r is None ==> parse_usize_spec(s@) is None,
{
    let len = s.unicode_len();
    let mut start: usize = 0;
    if len > 0 && s.get_char(0) == '+' {
        start = 1;
    }
    let ghost digits = unsigned_digits(s@);
    assert(digits =~= s@.subrange(start as int, len as int));
    if start >= len {
        return None;
    }
    let mut value: usize = 0;
    let mut i = start;
    while i < len
        invariant
            len == s@.len(),
            start <= i <= len,
            digits == s@.subrange(start as int, len as int),
            digits == unsigned_digits(s@),
            all_digits(digits.take(i - start)),
            value == decimal_value(digits.take(i - start)),
        decreases len - i,
    {
        let c = s.get_char(i);
        let ghost k = i - start;
        assert(digits[k] == c);
        if c < '0' || c > '9' {
            assert(!all_digits(digits));
            return None;
        }
        let d = (c as u32 - '0' as u32) as usize;
        assert(digits.take(k + 1).drop_last() =~= digits.take(k));
        assert(all_digits(digits.take(k + 1)));
        if value > (usize::MAX - d) / 10 {
            proof {
                assert(decimal_value(digits.take(k + 1)) == value * 10 + d);
                assert(value * 10 + d > usize::MAX) by (nonlinear_arith)
                    requires value > (usize::MAX - d) / 10, d <= 9;
                if all_digits(digits) {
                    lemma_decimal_value_grows(digits, k + 1);
                }
            }
            return None;
        }
        assert(value * 10 + d <= usize::MAX) by (nonlinear_arith)
            requires value <= (usize::MAX - d) / 10, d <= 9;
        value = value * 10 + d;
        i = i + 1;
    }
    assert(digits.take(len - start) =~= digits);
    Some(value)
}

/// The booklet size that a choice of the size selector asks for: 0 (one
/// booklet for the whole document) for "All in one", the number written in
/// the choice otherwise, and 0 when the choice holds no number.
pub fn requested_pages_per_booklet(choice: &str) -> (requested: usize)
    ensures
        choice@ == "All in one"@ ==> requested == 0,
        choice@ != "All in one"@ ==> requested == (match parse_usize_spec(choice@) {
            Some(v) => v,
            None => 0,
        }),
{
    if same_text(choice, "All in one") {
        0
    } else {
        match parse_usize(choice) {
            Some(v) => v,
            None => 0,
        }
    }
}

/// The size of an output sheet in points.
#[derive(Debug, Clone, Copy, PartialEq, Eq, Structural)]
pub struct SheetSize {
    pub width: u32,
    pub height: u32,
}

/// Whether pages are imposed two to a sheet: every output mode except the
/// ones that start with "Reorder", which only put the pages in booklet order.
pub fn imposes(output_mode: &str) -> (impose: bool)
    ensures
        impose == !has_prefix(output_mode@, "Reorder"@),
{
    !starts_with_text(output_mode, "Reorder")
}

/// The landscape sheet that pages are imposed on: A3 (1190 x 842 points)
/// when the mode names "A3", else US Letter (792 x 612) when it names
/// "Letter", else A4 (842 x 595).
pub fn sheet_size(output_mode: &str) -> (size: SheetSize)
    ensures
        has_infix(output_mode@, "A3"@) ==> size == (SheetSize { width: 1190, height: 842 }),
        !has_infix(output_mode@, "A3"@) && has_infix(output_mode@, "Letter"@) ==> size == (SheetSize {
            width: 792,
            height: 612,
        }),
        !has_infix(output_mode@, "A3"@) && !has_infix(output_mode@, "Letter"@) ==> size == (SheetSize {
            width: 842,
            height: 595,
        }),
{
    if contains_text(output_mode, "A3") {
        SheetSize { width: 1190, height: 842 }
    } else if contains_text(output_mode, "Letter") {
        SheetSize { width: 792, height: 612 }
    } else {
        SheetSize { width: 842, height: 595 }
    }
}

/// The character of the decimal digit `d`.
pub open spec fn digit_char(d: int) -> char {
    ('0' as int + d) as char
}

/// The decimal numeral of `n`, without leading zeros.
pub open spec fn decimal_text(n: nat) -> Seq<char>
    decreases n,
{
    if n < 10 {
        seq![digit_char(n as int)]
    } else {
        decimal_text(n / 10).push(digit_char((n % 10) as int))
    }
}

fn digit_text(d: usize) -> (text: &'static str)
    requires
        d < 10,
    ensures
        text@ == seq![digit_char(d as int)],
{
    match d {
        0 => {
            proof { reveal_strlit("0"); }
            "0"
        },
        1 => {
            proof { reveal_strlit("1"); }
            "1"
        },
        2 => {
            proof { reveal_strlit("2"); }
            "2"
        },
        3 => {
            proof { reveal_strlit("3"); }
            "3"
        },
        4 => {
            proof { reveal_strlit("4"); }
            "4"
        },
        5 => {
            proof { reveal_strlit("5"); }
            "5"
        },
        6 => {
            proof { reveal_strlit("6"); }
            "6"
        },
        7 => {
            proof { reveal_strlit("7"); }
            "7"
        },
        8 => {
            proof { reveal_strlit("8"); }
            "8"
        },
        _ => {
            proof { reveal_strlit("9"); }
            "9"
        },
    }
}

/// The decimal numeral of `n` (what `{}` formats a `usize` as).
pub fn decimal_string(n: usize) -> (text: String)
    ensures
        text@ == decimal_text(n as nat),
{
    let mut rest = n / 10;
    let mut text = String::from_str(digit_text(n % 10));
    assert(decimal_text(n as nat) == (if rest > 0 { decimal_text(rest as nat) } else { Seq::<char>::empty() })
        + text@);
    while rest > 0
        invariant
            decimal_text(n as nat) == (if rest > 0 { decimal_text(rest as nat) } else { Seq::<char>::empty() })
                + text@,
        decreases rest,
    {
        let digit = String::from_str(digit_text(rest % 10));
        let ghost old_text = text@;
        text = digit.concat(text.as_str());
        assert(decimal_text(rest as nat) =~= (if rest / 10 > 0 { decimal_text((rest / 10) as nat) } else {
            Seq::<char>::empty()
        }) + seq![digit_char((rest % 10) as int)]);
        rest = rest / 10;
    }
    assert(decimal_text(n as nat) =~= text@);
    text
}

/// The message reporting that `count` files were written.
pub fn success_message(count: usize) -> (message: String)
    ensures
        message@ == "Success! Created "@ + decimal_text(count as nat) + " file(s)."@,
{
    let message = String::from_str("Success! Created ");
    let number = decimal_string(count);
    let message = message.concat(number.as_str());
    message.concat(" file(s).")
}

/// The name of the file holding booklet `index` (counting from 0) when each
/// booklet goes to a file of its own: `<base>_<index + 1>.pdf`.
pub fn booklet_file_name(base: &str, index: usize) -> (name: String)
    requires
        index < usize::MAX,
    ensures
        name@ == base@ + "_"@ + decimal_text((index + 1) as nat) + ".pdf"@,
{
    let name = String::from_str(base);
    let name = name.concat("_");
    let number = decimal_string(index + 1);
    let name = name.concat(number.as_str());
    name.concat(".pdf")
}

/// The suggested name of the output file for an input named `<stem>.pdf`:
/// `<stem>_booklet.pdf`.
pub fn default_output_name(stem: &str) -> (name: String)
    ensures
        name@ == stem@ + "_booklet.pdf"@,
{
    String::from_str(stem).concat("_booklet.pdf")
}

} // verus!
