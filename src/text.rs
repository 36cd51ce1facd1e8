//! Operations as text: the infix grammar read from users, and the canonical
//! form shown back to them.
//!
//! An operation reads as an integer literal, an operator symbol and, for the
//! binary operators, a second integer literal, with white space allowed
//! around each part. A literal is an optional minus sign followed by Unicode
//! decimal digits; its value is read only when those digits are ASCII and it
//! fits a signed byte, and is an integer error otherwise.

use vstd::prelude::*;
use vstd::string::StrSliceExecFns;
use crate::operation::{BinomialOperationData, MonomialOperationData, Operation, OperationError};

verus! {

/// Unicode white space.
pub open spec fn is_space(c: char) -> bool {
    ('\u{9}' <= c && c <= '\u{d}') || c == ' ' || c == '\u{85}' || c == '\u{a0}' || c
        == '\u{1680}' || ('\u{2000}' <= c && c <= '\u{200a}') || c == '\u{2028}' || c
        == '\u{2029}' || c == '\u{202f}' || c == '\u{205f}' || c == '\u{3000}'
}

/// Whether a character is a Unicode decimal digit (general category Nd).
pub uninterp spec fn is_decimal_digit(c: char) -> bool;

/// The digits of the grammar: Unicode decimal digits, the ASCII ones among
/// them.
pub open spec fn is_digit(c: char) -> bool {
    is_decimal_digit(c)
}

/// The digits that an operand's value can be read from.
pub open spec fn is_ascii_digit(c: char) -> bool {
    '0' <= c && c <= '9'
}

/// The first position at or after `i` that holds no white space.
pub open spec fn skip_spaces(s: Seq<char>, i: int) -> int
    decreases s.len() - i,
{
    if 0 <= i < s.len() && is_space(s[i]) {
        skip_spaces(s, i + 1)
    } else {
        i
    }
}

/// The first position at or after `i` that holds no digit.
pub open spec fn skip_digits(s: Seq<char>, i: int) -> int
    decreases s.len() - i,
{
    if 0 <= i < s.len() && is_digit(s[i]) {
        skip_digits(s, i + 1)
    } else {
        i
    }
}

/// Where the digits of a literal starting at `i` begin.
pub open spec fn digits_start(s: Seq<char>, i: int) -> int {
    if 0 <= i < s.len() && s[i] == '-' {
        i + 1
    } else {
        i
    }
}

/// Whether a literal (an optional minus, then at least one digit) starts at `i`.
pub open spec fn has_literal(s: Seq<char>, i: int) -> bool {
    skip_digits(s, digits_start(s, i)) > digits_start(s, i)
}

/// Where the literal starting at `i` ends.
pub open spec fn literal_end(s: Seq<char>, i: int) -> int {
    skip_digits(s, digits_start(s, i))
}

/// The value of a string of decimal digits.
pub open spec fn digits_value(d: Seq<char>) -> int
    decreases d.len(),
{
    if d.len() == 0 {
        0
    } else {
        digits_value(d.drop_last()) * 10 + (d.last() as int - '0' as int)
    }
}

/// The value of a literal.
pub open spec fn literal_value(lit: Seq<char>) -> int {
    if lit.len() > 0 && lit[0] == '-' {
        -digits_value(lit.drop_first())
    } else {
        digits_value(lit)
    }
}

pub open spec fn fits_i8(v: int) -> bool {
    i8::MIN <= v <= i8::MAX
}

/// The digits of a literal, after its minus sign if it has one.
pub open spec fn literal_digits(lit: Seq<char>) -> Seq<char> {
    if lit.len() > 0 && lit[0] == '-' {
        lit.drop_first()
    } else {
        lit
    }
}

/// Whether a literal reads as a signed byte: its digits are ASCII and its
/// value is in range.
pub open spec fn literal_fits(lit: Seq<char>) -> bool {
    &&& forall|k: int| 0 <= k < literal_digits(lit).len() ==> is_ascii_digit(
        #[trigger] literal_digits(lit)[k],
    )
    &&& fits_i8(literal_value(lit))
}

/// The parts of a text with the shape of an operation: first literal,
/// operator symbol, and second literal if there is one.
pub open spec fn split_operation(s: Seq<char>) -> Option<(Seq<char>, char, Option<Seq<char>>)> {
    let i0 = skip_spaces(s, 0);
    let e1 = literal_end(s, i0);
    let i1 = skip_spaces(s, e1);
    let i2 = skip_spaces(s, i1 + 1);
    let e2 = literal_end(s, i2);
    if !has_literal(s, i0) || i1 >= s.len() || is_digit(s[i1]) {
        None
    } else if i2 >= s.len() {
        Some((s.subrange(i0, e1), s[i1], None))
    } else if !has_literal(s, i2) || skip_spaces(s, e2) < s.len() {
        None
    } else {
        Some((s.subrange(i0, e1), s[i1], Some(s.subrange(i2, e2))))
    }
}

/// The symbols of the binary operators.
pub open spec fn is_binary_symbol(c: char) -> bool {
    c == '+' || c == '-' || c == '*' || c == '\u{d7}' || c == 'x' || c == '/' || c == '\u{f7}'
        || c == '%'
}

/// The binary operation that a symbol names.
pub open spec fn binary_of(c: char, a: i8, b: i8) -> Operation {
    let d = BinomialOperationData(a, b);
    if c == '+' {
        Operation::Sum(d)
    } else if c == '-' {
        Operation::Sub(d)
    } else if c == '*' || c == '\u{d7}' || c == 'x' {
        Operation::Mul(d)
    } else if c == '/' || c == '\u{f7}' {
        Operation::Div(d)
    } else {
        Operation::Rem(d)
    }
}

/// What reading a text as an operation gives.
pub enum ParsedText {
    /// The operation the text holds.
    Op(Operation),
    /// An error other than an unknown symbol.
    Failed(OperationError),
    /// The text names an operator symbol that is not known.
    Unsupported(char),
}

/// What reading `s` as an operation gives. Shape comes first, then the
/// operands' range, then the operator and its number of operands.
pub open spec fn parse_text(s: Seq<char>) -> ParsedText {
    match split_operation(s) {
        None => ParsedText::Failed(OperationError::Parse),
        Some((la, sym, lb)) => {
            let second_fits = match lb {
                Some(l) => literal_fits(l),
                None => true,
            };
            if !literal_fits(la) || !second_fits {
                ParsedText::Failed(OperationError::ParseIntError)
            } else if !is_binary_symbol(sym) && sym != '!' {
                ParsedText::Unsupported(sym)
            } else {
                let a = literal_value(la) as i8;
                match lb {
                    None => if sym == '!' {
                        ParsedText::Op(Operation::Fact(MonomialOperationData(a)))
                    } else {
                        ParsedText::Failed(OperationError::Parse)
                    },
                    Some(l) => if sym == '!' {
                        ParsedText::Failed(OperationError::Parse)
                    } else {
                        ParsedText::Op(binary_of(sym, a, literal_value(l) as i8))
                    },
                }
            }
        },
    }
}

fn is_space_char(c: char) -> (r: bool)
    ensures
        r == is_space(c),
{
    ('\u{9}' <= c && c <= '\u{d}') || c == ' ' || c == '\u{85}' || c == '\u{a0}' || c
        == '\u{1680}' || ('\u{2000}' <= c && c <= '\u{200a}') || c == '\u{2028}' || c
        == '\u{2029}' || c == '\u{202f}' || c == '\u{205f}' || c == '\u{3000}'
}

fn is_digit_char(c: char) -> (r: bool)
    ensures
        r == is_digit(c),
{
    decimal_digit(c)
}

fn is_ascii_digit_char(c: char) -> (r: bool)
    ensures
        r == is_ascii_digit(c),
{
    '0' <= c && c <= '9'
}

/// Relies on the regex crate's `\d` class, which is Unicode's decimal digits
/// (`\p{Nd}`): whether `c` is one of them.
#[verifier::external_body]
fn decimal_digit(c: char) -> (r: bool)
    ensures
        r == is_decimal_digit(c),
{
    let mut buf = [0u8; 4];
    regex::Regex::new(r"^\d$").unwrap().is_match(c.encode_utf8(&mut buf))
}

fn skip_spaces_at(s: &Vec<char>, i: usize) -> (r: usize)
    requires
        i <= s@.len(),
    ensures
        r == skip_spaces(s@, i as int),
        i <= r <= s@.len(),
{
    let mut j = i;
    while j < s.len() && is_space_char(s[j])
        invariant
            i <= j <= s@.len(),
            skip_spaces(s@, i as int) == skip_spaces(s@, j as int),
        decreases s@.len() - j,
    {
        j = j + 1;
    }
    j
}

fn skip_digits_at(s: &Vec<char>, i: usize) -> (r: usize)
    requires
        i <= s@.len(),
    ensures
        r == skip_digits(s@, i as int),
        i <= r <= s@.len(),
{
    let mut j = i;
    while j < s.len() && is_digit_char(s[j])
        invariant
            i <= j <= s@.len(),
            skip_digits(s@, i as int) == skip_digits(s@, j as int),
        decreases s@.len() - j,
    {
        j = j + 1;
    }
    j
}

proof fn lemma_skip_digits_bounds(s: Seq<char>, i: int)
    requires
        0 <= i <= s.len(),
    ensures
        i <= skip_digits(s, i) <= s.len(),
    decreases s.len() - i,
{
    if i < s.len() && is_digit(s[i]) {
        lemma_skip_digits_bounds(s, i + 1);
    }
}

proof fn lemma_digits_value_nonneg(d: Seq<char>)
    requires
        forall|k: int| 0 <= k < d.len() ==> is_ascii_digit(#[trigger] d[k]),
    ensures
        0 <= digits_value(d),
    decreases d.len(),
{
    if d.len() > 0 {
        assert(is_ascii_digit(d[d.len() - 1]));
        lemma_digits_value_nonneg(d.drop_last());
    }
}

proof fn lemma_digits_value_grows(d: Seq<char>, j: int)
    requires
        0 <= j <= d.len(),
        forall|k: int| 0 <= k < d.len() ==> is_ascii_digit(#[trigger] d[k]),
    ensures
        0 <= digits_value(d.subrange(0, j)) <= digits_value(d),
    decreases d.len() - j,
{
    if j < d.len() {
        lemma_digits_value_grows(d, j + 1);
        let p = d.subrange(0, j + 1);
        assert(p.drop_last() =~= d.subrange(0, j));
        assert(is_ascii_digit(p.last()));
        let x = digits_value(d.subrange(0, j));
        lemma_digits_value_nonneg(d.subrange(0, j));
        assert(0 <= x <= x * 10 + (p.last() as int - '0' as int)) by (nonlinear_arith)
            requires
                0 <= x,
                0 <= p.last() as int - '0' as int,
        ;
    } else {
        assert(d.subrange(0, j) =~= d);
        lemma_digits_value_nonneg(d);
    }
}

/// The value of the literal in `s[start..end]`, if it reads as a signed byte.
fn literal_at(s: &Vec<char>, start: usize, end: usize) -> (r: Option<i8>)
    requires
        start <= end <= s@.len(),
        has_literal(s@, start as int),
        end == literal_end(s@, start as int),
    ensures
        literal_fits(s@.subrange(start as int, end as int)) ==> r == Some(
            literal_value(s@.subrange(start as int, end as int)) as i8,
        ),
        !literal_fits(s@.subrange(start as int, end as int)) ==> r is None,
{
    proof {
        lemma_skip_digits_bounds(s@, digits_start(s@, start as int));
    }
    let negative = s[start] == '-';
    let k = if negative {
        start + 1
    } else {
        start
    };
    let ghost lit = s@.subrange(start as int, end as int);
    let ghost digits = s@.subrange(k as int, end as int);
    assert(negative ==> lit.drop_first() =~= digits);
    assert(!negative ==> lit =~= digits);
    assert(literal_digits(lit) == digits);
    let mut value: u32 = 0;
    let mut j = k;
    while j < end
        invariant
            k <= j <= end <= s@.len(),
            digits == s@.subrange(k as int, end as int),
            forall|m: int| 0 <= m < j - k ==> is_ascii_digit(#[trigger] digits[m]),
            value as int == digits_value(digits.subrange(0, j - k)),
            value <= 128,
            lit == s@.subrange(start as int, end as int),
            literal_digits(lit) == digits,
            negative ==> lit.len() > 0 && lit[0] == '-',
            !negative ==> !(lit.len() > 0 && lit[0] == '-'),
        decreases end - j,
    {
        let c = s[j];
        assert(c == digits[j - k]);
        if !is_ascii_digit_char(c) {
            return None;
        }
        let next = value * 10 + (c as u32 - '0' as u32);
        proof {
            assert(digits.subrange(0, j + 1 - k).drop_last() =~= digits.subrange(0, j - k));
            assert(digits.subrange(0, j + 1 - k).last() == c);
            assert(digits_value(digits.subrange(0, j + 1 - k)) == next);
        }
        if next > 128 {
            proof {
                if forall|m: int| 0 <= m < digits.len() ==> is_ascii_digit(#[trigger] digits[m]) {
                    lemma_digits_value_grows(digits, j + 1 - k);
                }
            }
            return None;
        }
        value = next;
        j = j + 1;
    }
    assert(digits.subrange(0, end - k) =~= digits);
    if negative {
        Some((0 - value as i16) as i8)
    } else if value > 127 {
        None
    } else {
        Some(value as i8)
    }
}

impl Operation {
    /// Reads an operation written in infix notation, such as `10 * 3` or `5!`.
    pub fn from_str(text: &str) -> (r: Result<Operation, OperationError>)
        ensures
            match parse_text(text@) {
                ParsedText::Op(op) => r == Ok::<Operation, OperationError>(op),
                ParsedText::Failed(e) => r == Err::<Operation, OperationError>(e),
                ParsedText::Unsupported(c) => r matches Err(
                    OperationError::UnsupportedOperation(t),
                ) && t@ == seq![c],
            },
    {
        let n = text.unicode_len();
        let mut s: Vec<char> = Vec::new();
        let mut i: usize = 0;
        while i < n
            invariant
                n == text@.len(),
                i <= n,
                s@ == text@.subrange(0, i as int),
            decreases n - i,
        {
            s.push(text.get_char(i));
            i = i + 1;
            assert(s@ =~= text@.subrange(0, i as int));
        }
        assert(s@ =~= text@);
        Self::parse_chars(&s)
    }

    fn parse_chars(s: &Vec<char>) -> (r: Result<Operation, OperationError>)
        ensures
            match parse_text(s@) {
                ParsedText::Op(op) => r == Ok::<Operation, OperationError>(op),
                ParsedText::Failed(e) => r == Err::<Operation, OperationError>(e),
                ParsedText::Unsupported(c) => r matches Err(
                    OperationError::UnsupportedOperation(t),
                ) && t@ == seq![c],
            },
    {
        let len = s.len();
        let i0 = skip_spaces_at(s, 0);
        let k0 = if i0 < len && s[i0] == '-' {
            i0 + 1
        } else {
            i0
        };
        let e1 = skip_digits_at(s, k0);
        if e1 == k0 {
            return Err(OperationError::Parse);
        }
        let i1 = skip_spaces_at(s, e1);
        if i1 >= len || is_digit_char(s[i1]) {
            return Err(OperationError::Parse);
        }
        let sym = s[i1];
        let i2 = skip_spaces_at(s, i1 + 1);
        let mut second: Option<(usize, usize)> = None;
        if i2 < len {
            let k2 = if s[i2] == '-' {
                i2 + 1
            } else {
                i2
            };
            let e2 = skip_digits_at(s, k2);
            if e2 == k2 {
                return Err(OperationError::Parse);
            }
            if skip_spaces_at(s, e2) < len {
                return Err(OperationError::Parse);
            }
            second = Some((i2, e2));
        }
        let a = match literal_at(s, i0, e1) {
            Some(v) => v,
            None => return Err(OperationError::ParseIntError),
        };
        let b = match second {
            Some((start, end)) => match literal_at(s, start, end) {
                Some(v) => Some(v),
                None => return Err(OperationError::ParseIntError),
            },
            None => None,
        };
        match b {
            None => if sym == '!' {
                Ok(Operation::Fact(MonomialOperationData(a)))
            } else if is_binary_symbol_char(sym) {
                Err(OperationError::Parse)
            } else {
                Err(OperationError::UnsupportedOperation(symbol_text(sym)))
            },
            Some(b) => {
                let d = BinomialOperationData(a, b);
                if sym == '+' {
                    Ok(Operation::Sum(d))
                } else if sym == '-' {
                    Ok(Operation::Sub(d))
                } else if sym == '*' || sym == '\u{d7}' || sym == 'x' {
                    Ok(Operation::Mul(d))
                } else if sym == '/' || sym == '\u{f7}' {
                    Ok(Operation::Div(d))
                } else if sym == '%' {
                    Ok(Operation::Rem(d))
                } else if sym == '!' {
                    Err(OperationError::Parse)
                } else {
                    Err(OperationError::UnsupportedOperation(symbol_text(sym)))
                }
            },
        }
    }
}

/// The character of a decimal digit.
pub open spec fn digit_char(d: int) -> char {
    ('0' as int + d) as char
}

/// The decimal text of a natural number, without leading zeros.
pub open spec fn nat_text(n: nat) -> Seq<char>
    decreases n,
{
    if n < 10 {
        seq![digit_char(n as int)]
    } else {
        nat_text(n / 10).push(digit_char(n as int % 10))
    }
}

/// The decimal text of an integer, with a minus sign when it is negative.
pub open spec fn int_text(v: int) -> Seq<char> {
    if v < 0 {
        seq!['-'] + nat_text((-v) as nat)
    } else {
        nat_text(v as nat)
    }
}

/// The canonical text of an operation: operands around the operator's own
/// symbol, or the operand followed by `!`.
pub open spec fn display_text(op: Operation) -> Seq<char> {
    match op {
        Operation::Sum(BinomialOperationData(a, b)) => int_text(a as int) + seq!['+'] + int_text(
            b as int,
        ),
        Operation::Sub(BinomialOperationData(a, b)) => int_text(a as int) + seq!['-'] + int_text(
            b as int,
        ),
        Operation::Mul(BinomialOperationData(a, b)) => int_text(a as int) + seq!['\u{d7}']
            + int_text(b as int),
        Operation::Div(BinomialOperationData(a, b)) => int_text(a as int) + seq!['\u{f7}']
            + int_text(b as int),
        Operation::Rem(BinomialOperationData(a, b)) => int_text(a as int) + seq!['%'] + int_text(
            b as int,
        ),
        Operation::Fact(MonomialOperationData(a)) => int_text(a as int) + seq!['!'],
    }
}

fn digit_of(d: u8) -> (r: char)
    requires
        d < 10,
    ensures
        r == digit_char(d as int),
{
    match d {
        0 => '0',
        1 => '1',
        2 => '2',
        3 => '3',
        4 => '4',
        5 => '5',
        6 => '6',
        7 => '7',
        8 => '8',
        _ => '9',
    }
}

fn push_int(s: &mut String, v: i8)
    ensures
        final(s)@ == old(s)@ + int_text(v as int),
{
    let n: u8 = if v < 0 {
        push_char(s, '-');
        (0 - v as i16) as u8
    } else {
        v as u8
    };
    let ghost before = s@;
    proof {
        reveal_with_fuel(nat_text, 3);
    }
    if n >= 100 {
        push_char(s, digit_of(n / 100));
    }
    if n >= 10 {
        push_char(s, digit_of((n / 10) % 10));
    }
    push_char(s, digit_of(n % 10));
    proof {
        if n >= 100 {
            assert(nat_text(n as nat) =~= seq![
                digit_char((n / 100) as int),
                digit_char(((n / 10) % 10) as int),
                digit_char((n % 10) as int),
            ]);
        } else if n >= 10 {
            assert(nat_text(n as nat) =~= seq![
                digit_char(((n / 10) % 10) as int),
                digit_char((n % 10) as int),
            ]);
        }
        assert(s@ =~= before + nat_text(n as nat));
    }
}

impl Operation {
    /// The operation in its canonical text, such as `10×3` or `5!`.
    pub fn to_text(&self) -> (r: String)
        ensures
            r@ == display_text(*self),
    {
        let mut s = String::new();
        match *self {
            Operation::Sum(BinomialOperationData(a, b)) => {
                push_int(&mut s, a);
                push_char(&mut s, '+');
                push_int(&mut s, b);
            },
            Operation::Sub(BinomialOperationData(a, b)) => {
                push_int(&mut s, a);
                push_char(&mut s, '-');
                push_int(&mut s, b);
            },
            Operation::Mul(BinomialOperationData(a, b)) => {
                push_int(&mut s, a);
                push_char(&mut s, '\u{d7}');
                push_int(&mut s, b);
            },
            Operation::Div(BinomialOperationData(a, b)) => {
                push_int(&mut s, a);
                push_char(&mut s, '\u{f7}');
                push_int(&mut s, b);
            },
            Operation::Rem(BinomialOperationData(a, b)) => {
                push_int(&mut s, a);
                push_char(&mut s, '%');
                push_int(&mut s, b);
            },
            Operation::Fact(MonomialOperationData(a)) => {
                push_int(&mut s, a);
                push_char(&mut s, '!');
            },
        }
        assert(s@ =~= display_text(*self));
        s
    }
}

impl std::str::FromStr for Operation {
    type Err = OperationError;

    fn from_str(text: &str) -> Result<Operation, OperationError> {
        Operation::from_str(text)
    }
}

fn is_binary_symbol_char(c: char) -> (r: bool)
    ensures
        r == is_binary_symbol(c),
{
    c == '+' || c == '-' || c == '*' || c == '\u{d7}' || c == 'x' || c == '/' || c == '\u{f7}'
        || c == '%'
}

/// A text of one character.
fn symbol_text(c: char) -> (r: String)
    ensures
        r@ == seq![c],
{
    let mut t = String::new();
    push_char(&mut t, c);
    t
}

/// Relies on `String::push`: appends one character.
#[verifier::external_body]
pub(crate) fn push_char(s: &mut String, c: char)
    ensures
        final(s)@ == old(s)@.push(c),
{
    s.push(c)
}

} // verus!
