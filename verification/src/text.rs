//! Text: the characters of a string, its whitespace-separated tokens, and
//! decimal numbers read and written.
use vstd::prelude::*;
use vstd::string::StringExecFns;

verus! {

/// `String::push` appends one character to the string.
pub assume_specification[ String::push ](s: &mut String, c: char)
    ensures
        final(s)@ == old(s)@.push(c),
;

/// Whether `c` is white space: a character with the Unicode property
/// `White_Space`.
pub open spec fn is_space(c: char) -> bool {
    let n = c as u32;
    (0x09 <= n <= 0x0D) || n == 0x20 || n == 0x85 || n == 0xA0 || n == 0x1680 || (0x2000 <= n
        <= 0x200A) || n == 0x2028 || n == 0x2029 || n == 0x202F || n == 0x205F || n == 0x3000
}

/// The length of the word at the start of `s`: the number of characters
/// before the first white space.
pub open spec fn word_len(s: Seq<char>) -> nat
    decreases s.len(),
{
    if s.len() == 0 || is_space(s[0]) {
        0
    } else {
        1 + word_len(s.drop_first())
    }
}

/// The tokens of `s`: its maximal runs of characters that are not white
/// space, in their order.
pub open spec fn tokens_of(s: Seq<char>) -> Seq<Seq<char>>
    decreases s.len(),
    via tokens_of_decreases
{
    if s.len() == 0 {
        Seq::empty()
    } else if is_space(s[0]) {
        tokens_of(s.drop_first())
    } else {
        seq![s.take(word_len(s) as int)] + tokens_of(s.skip(word_len(s) as int))
    }
}

#[via_fn]
proof fn tokens_of_decreases(s: Seq<char>) {
    lemma_word_len_bounds(s);
}

/// A word is no longer than the text it starts, and not empty where the
/// text starts with a character that is not white space.
pub proof fn lemma_word_len_bounds(s: Seq<char>)
    ensures
        word_len(s) <= s.len(),
        s.len() > 0 && !is_space(s[0]) ==> word_len(s) >= 1,
    decreases s.len(),
{
    if s.len() > 0 && !is_space(s[0]) {
        lemma_word_len_bounds(s.drop_first());
    }
}

/// The character sequences that the vectors hold.
pub open spec fn views(items: Seq<Vec<char>>) -> Seq<Seq<char>> {
    items.map_values(|item: Vec<char>| item@)
}

/// The character sequences that the strings hold.
pub open spec fn texts(items: Seq<String>) -> Seq<Seq<char>> {
    items.map_values(|item: String| item@)
}

/// Whether `c` is one of the decimal digits `0` to `9`.
pub open spec fn is_digit(c: char) -> bool {
    0x30 <= c as u32 <= 0x39
}

pub open spec fn all_digits(s: Seq<char>) -> bool {
    forall|i: int| 0 <= i < s.len() ==> is_digit(#[trigger] s[i])
}

/// The value of the decimal digit `c`.
pub open spec fn digit_value(c: char) -> nat {
    (c as u32 - 0x30) as nat
}

/// The number that the decimal digits `digits` write.
pub open spec fn decimal_value(digits: Seq<char>) -> nat
    decreases digits.len(),
{
    if digits.len() == 0 {
        0
    } else {
        decimal_value(digits.drop_last()) * 10 + digit_value(digits.last())
    }
}

/// The number that `token` writes, read as an unsigned integer: an optional
/// `+`, then one or more decimal digits and nothing else, whose value fits
/// `usize`. `None` for every other token.
pub open spec fn unsigned_of(token: Seq<char>) -> Option<usize> {
    let digits = if token.len() > 0 && token[0] == '+' {
        token.drop_first()
    } else {
        token
    };
    if digits.len() > 0 && all_digits(digits) && decimal_value(digits) <= usize::MAX {
        Some(decimal_value(digits) as usize)
    } else {
        None
    }
}

/// The number that `token` writes, read as a signed integer: an optional
/// `+` or `-`, then one or more decimal digits and nothing else, whose
/// value fits `i64`. `None` for every other token.
pub open spec fn signed_of(token: Seq<char>) -> Option<i64> {
    let negative = token.len() > 0 && token[0] == '-';
    let digits = if token.len() > 0 && (token[0] == '+' || token[0] == '-') {
        token.drop_first()
    } else {
        token
    };
    let value: int = if negative {
        -(decimal_value(digits) as int)
    } else {
        decimal_value(digits) as int
    };
    if digits.len() > 0 && all_digits(digits) && i64::MIN <= value <= i64::MAX {
        Some(value as i64)
    } else {
        None
    }
}

pub open spec fn digit_char(d: nat) -> char {
    if d == 0 {
        '0'
    } else if d == 1 {
        '1'
    } else if d == 2 {
        '2'
    } else if d == 3 {
        '3'
    } else if d == 4 {
        '4'
    } else if d == 5 {
        '5'
    } else if d == 6 {
        '6'
    } else if d == 7 {
        '7'
    } else if d == 8 {
        '8'
    } else {
        '9'
    }
}

/// The decimal digits of `n`, without leading zeros.
pub open spec fn digits_of(n: nat) -> Seq<char>
    decreases n,
{
    if n < 10 {
        seq![digit_char(n)]
    } else {
        digits_of(n / 10).push(digit_char(n % 10))
    }
}

/// The decimal text of the integer `t`, with `-` before a negative one.
pub open spec fn decimal_of(t: int) -> Seq<char> {
    if t < 0 {
        seq!['-'] + digits_of((-t) as nat)
    } else {
        digits_of(t as nat)
    }
}

/// The characters of `s`.
pub fn chars_of(s: &str) -> (chars: Vec<char>)
    ensures
        chars@ == s@,
{
    let mut chars: Vec<char> = Vec::new();
    for c in it: s.chars()
        invariant
            chars@ == it.seq().take(it.index() as int),
            it.seq() == s@,
    {
        chars.push(c);
    }
    chars
}

/// Whether `c` is white space.
pub fn is_whitespace(c: char) -> (space: bool)
    ensures
        space == is_space(c),
{
    let n = c as u32;
    (0x09 <= n && n <= 0x0D) || n == 0x20 || n == 0x85 || n == 0xA0 || n == 0x1680 || (0x2000
        <= n && n <= 0x200A) || n == 0x2028 || n == 0x2029 || n == 0x202F || n == 0x205F || n
        == 0x3000
}

/// A run of `n` characters without white space that ends at white space or
/// at the end of the text is the first word.
proof fn lemma_word_len(s: Seq<char>, n: int)
    requires
        0 <= n <= s.len(),
        forall|j: int| 0 <= j < n ==> !is_space(#[trigger] s[j]),
        n == s.len() || is_space(s[n]),
    ensures
        word_len(s) == n,
    decreases n,
{
    if n > 0 {
        let rest = s.drop_first();
        assert forall|j: int| 0 <= j < n - 1 implies !is_space(#[trigger] rest[j]) by {
            assert(rest[j] == s[j + 1]);
        }
        lemma_word_len(rest, n - 1);
    }
}

/// The tokens of `chars`: its maximal runs of characters that are not
/// white space.
pub fn tokens(chars: &Vec<char>) -> (found: Vec<Vec<char>>)
    ensures
        views(found@) == tokens_of(chars@),
{
    let mut found: Vec<Vec<char>> = Vec::new();
    let mut i: usize = 0;
    proof {
        assert(chars@.skip(0) =~= chars@);
        assert(views(found@) + tokens_of(chars@) =~= tokens_of(chars@));
    }
    while i < chars.len()
        invariant
            i <= chars.len(),
            views(found@) + tokens_of(chars@.skip(i as int)) == tokens_of(chars@),
        decreases chars.len() - i,
    {
        let ghost rest = chars@.skip(i as int);
        if is_whitespace(chars[i]) {
            proof {
                assert(rest[0] == chars[i as int]);
                assert(rest.drop_first() =~= chars@.skip(i + 1));
            }
            i += 1;
        } else {
            let start = i;
            let mut word: Vec<char> = Vec::new();
            while i < chars.len() && !is_whitespace(chars[i])
                invariant
                    start <= i <= chars.len(),
                    word@ == chars@.subrange(start as int, i as int),
                    forall|j: int| start <= j < i ==> !is_space(#[trigger] chars[j]),
                decreases chars.len() - i,
            {
                word.push(chars[i]);
                proof {
                    assert(word@ =~= chars@.subrange(start as int, i + 1));
                }
                i += 1;
            }
            proof {
                let n = i - start;
                assert forall|j: int| 0 <= j < n implies !is_space(#[trigger] rest[j]) by {
                    assert(rest[j] == chars[start + j]);
                }
                if n < rest.len() {
                    assert(rest[n] == chars[i as int]);
                }
                assert(rest[0] == chars[start as int]);
                lemma_word_len(rest, n);
                assert(rest.take(n) =~= word@);
                assert(rest.skip(n) =~= chars@.skip(i as int));
                let before = views(found@);
                assert(views(found@.push(word)) =~= before.push(word@));
                assert(before.push(word@) + tokens_of(chars@.skip(i as int)) =~= before + (
                seq![word@] + tokens_of(chars@.skip(i as int))));
            }
            found.push(word);
        }
    }
    proof {
        assert(chars@.skip(i as int) =~= Seq::<char>::empty());
        assert(views(found@) + Seq::<Seq<char>>::empty() =~= views(found@));
    }
    found
}

/// The value of a prefix of a digit sequence is at most the value of the
/// sequence.
proof fn lemma_prefix_value(digits: Seq<char>, k: int)
    requires
        0 <= k <= digits.len(),
    ensures
        decimal_value(digits.take(k)) <= decimal_value(digits),
    decreases digits.len() - k,
{
    if k < digits.len() {
        lemma_prefix_value(digits.drop_last(), k);
        assert(digits.drop_last().take(k) =~= digits.take(k));
    } else {
        assert(digits.take(k) =~= digits);
    }
}

/// The value of the digits of `token` from position `start` on, if there is
/// at least one, all are decimal digits, and the value is at most `limit`.
fn read_digits(token: &Vec<char>, start: usize, limit: u64) -> (value: Option<u64>)
    requires
        start <= token.len(),
    ensures
        value == if token@.skip(start as int).len() > 0 && all_digits(token@.skip(start as int))
            && decimal_value(token@.skip(start as int)) <= limit {
            Some(decimal_value(token@.skip(start as int)) as u64)
        } else {
            None
        },
{
    let ghost digits = token@.skip(start as int);
    if start >= token.len() {
        return None;
    }
    let mut value: u64 = 0;
    let mut i: usize = start;
    proof {
        assert(digits.take(0) =~= Seq::<char>::empty());
    }
    while i < token.len()
        invariant
            start <= i <= token.len(),
            digits == token@.skip(start as int),
            all_digits(digits.take(i - start)),
            value == decimal_value(digits.take(i - start)),
            value <= limit,
        decreases token.len() - i,
    {
        let c = token[i] as u32;
        assert(digits[i - start] == token[i as int]);
        if c < 0x30 || c > 0x39 {
            return None;
        }
        let d = (c - 0x30) as u64;
        proof {
            let longer = digits.take(i - start + 1);
            assert(longer.drop_last() =~= digits.take(i - start));
            assert(longer.last() == token[i as int]);
            assert(decimal_value(longer) == value * 10 + d);
            assert forall|j: int| 0 <= j < longer.len() implies is_digit(#[trigger] longer[j]) by {
                if j < i - start {
                    assert(digits.take(i - start)[j] == longer[j]);
                }
            }
            lemma_prefix_value(digits, i - start + 1);
        }
        if d > limit || value > (limit - d) / 10 {
            return None;
        }
        value = value * 10 + d;
        i += 1;
    }
    proof {
        assert(digits.take(i - start) =~= digits);
    }
    Some(value)
}

/// Reads `token` as an unsigned integer: an optional `+`, then decimal
/// digits whose value fits `usize`.
pub fn parse_unsigned(token: &Vec<char>) -> (value: Option<usize>)
    ensures
        value == unsigned_of(token@),
{
    let start: usize = if token.len() > 0 && token[0] == '+' {
        1
    } else {
        0
    };
    proof {
        if start == 0 {
            assert(token@.skip(0) =~= token@);
        } else {
            assert(token@.skip(1) =~= token@.drop_first());
        }
    }
    match read_digits(token, start, usize::MAX as u64) {
        Some(value) => Some(value as usize),
        None => None,
    }
}

/// Reads `token` as a signed integer: an optional `+` or `-`, then decimal
/// digits whose value fits `i64`.
pub fn parse_signed(token: &Vec<char>) -> (value: Option<i64>)
    ensures
        value == signed_of(token@),
{
    let negative = token.len() > 0 && token[0] == '-';
    let start: usize = if token.len() > 0 && (token[0] == '+' || token[0] == '-') {
        1
    } else {
        0
    };
    proof {
        if start == 0 {
            assert(token@.skip(0) =~= token@);
        } else {
            assert(token@.skip(1) =~= token@.drop_first());
        }
    }
    let limit: u64 = if negative {
        0x8000_0000_0000_0000
    } else {
        0x7fff_ffff_ffff_ffff
    };
    match read_digits(token, start, limit) {
        Some(value) => {
            if negative {
                let signed: i128 = 0 - (value as i128);
                Some(signed as i64)
            } else {
                Some(value as i64)
            }
        },
        None => None,
    }
}

/// The character that writes the digit `d`.
fn digit(d: u8) -> (c: char)
    requires
        d < 10,
    ensures
        c == digit_char(d as nat),
{
    match d {
        0 => '0',
        1 => '1',
        2 => '2',
        3 => '3',
        4 => '4',
        5 => '5',
        6 => '6',
        7 => '7',
        8 => '8',
        _ => '9',
    }
}

/// Appends the decimal digits of `n` to `out`.
pub fn append_number(out: &mut String, n: u64)
    ensures
        final(out)@ == old(out)@ + digits_of(n as nat),
    decreases n,
{
    if n >= 10 {
        append_number(out, n / 10);
    }
    out.push(digit((n % 10) as u8));
    proof {
        if n >= 10 {
            assert(final(out)@ =~= old(out)@ + digits_of(n as nat)) by {
                assert(out@ =~= old(out)@ + digits_of(n as nat));
            }
        } else {
            assert(out@ =~= old(out)@ + digits_of(n as nat));
        }
    }
}

/// Appends the decimal text of `n` to `out`.
pub fn append_unsigned(out: &mut String, n: usize)
    ensures
        final(out)@ == old(out)@ + decimal_of(n as int),
{
    append_number(out, n as u64);
}

/// Appends the decimal text of `t` to `out`, with `-` before a negative
/// number.
pub fn append_signed(out: &mut String, t: i64)
    ensures
        final(out)@ == old(out)@ + decimal_of(t as int),
{
    if t < 0 {
        out.push('-');
        let magnitude: i128 = 0 - (t as i128);
        append_number(out, magnitude as u64);
        proof {
            assert(out@ =~= old(out)@ + decimal_of(t as int));
        }
    } else {
        append_number(out, t as u64);
    }
}

/// The decimal text of `n`.
pub fn unsigned_text(n: usize) -> (text: String)
    ensures
        text@ == decimal_of(n as int),
{
    let mut text = String::new();
    append_unsigned(&mut text, n);
    assert(text@ =~= decimal_of(n as int));
    text
}

/// The decimal text of `t`.
pub fn signed_text(t: i64) -> (text: String)
    ensures
        text@ == decimal_of(t as int),
{
    let mut text = String::new();
    append_signed(&mut text, t);
    assert(text@ =~= decimal_of(t as int));
    text
}

/// The text `prefix` followed by the decimal text of `n`.
pub fn with_number(prefix: &str, n: usize) -> (text: String)
    ensures
        text@ == prefix@ + decimal_of(n as int),
{
    let mut text = String::from_str(prefix);
    append_unsigned(&mut text, n);
    text
}

} // verus!
