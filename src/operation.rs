//! Arithmetic operations on signed bytes: their frames, their evaluation
//! and their text.

use vstd::prelude::*;
use vstd::string::StringExecFns;
use vstd::arithmetic::div_mod::{
    lemma_div_basics, lemma_div_is_ordered, lemma_div_is_ordered_by_denominator, lemma_mod_pos_bound,
};
use crate::tlv::{frame_bytes, parse_frame, tag_byte, Tlv, TlvType};

verus! {

/// Why an operation could not be read or evaluated.
#[derive(Debug, Clone, PartialEq, Eq)]
pub enum OperationError {
    /// The operator symbol is not one this calculator knows.
    UnsupportedOperation(String),
    /// The text does not have the shape of an operation.
    Parse,
    /// An operand does not fit a signed byte.
    ParseIntError,
    /// The result does not fit the accumulator.
    OverFlow,
    /// The operands lie outside the operation's domain.
    WrongDomain,
    /// A frame that does not hold an operation.
    Generic,
}

/// The text that describes an error to a user.
pub open spec fn error_text(e: OperationError) -> Seq<char> {
    match e {
        OperationError::UnsupportedOperation(t) => "Unsupported operation "@ + t@,
        OperationError::Parse => "Could not parse operation"@,
        OperationError::ParseIntError => "Could not parse integer"@,
        OperationError::OverFlow => "Result is out of range"@,
        OperationError::WrongDomain => "Wrong domain"@,
        OperationError::Generic => "Something wrong"@,
    }
}

impl OperationError {
    /// The text that describes this error to a user.
    pub fn message(&self) -> (r: String)
        ensures
            r@ == error_text(*self),
    {
        match self {
            OperationError::UnsupportedOperation(t) => {
                let mut m = String::from_str("Unsupported operation ");
                m.append(t.as_str());
                m
            },
            OperationError::Parse => String::from_str("Could not parse operation"),
            OperationError::ParseIntError => String::from_str("Could not parse integer"),
            OperationError::OverFlow => String::from_str("Result is out of range"),
            OperationError::WrongDomain => String::from_str("Wrong domain"),
            OperationError::Generic => String::from_str("Something wrong"),
        }
    }
}

/// The two operands of a binary operation.
#[derive(Debug, Clone, Copy, PartialEq, Eq, Structural)]
pub struct BinomialOperationData(pub i8, pub i8);

/// The operand of a unary operation.
#[derive(Debug, Clone, Copy, PartialEq, Eq, Structural)]
pub struct MonomialOperationData(pub i8);

/// One request to the calculator.
#[derive(Debug, Clone, Copy, PartialEq, Eq, Structural)]
pub enum Operation {
    Sum(BinomialOperationData),
    Sub(BinomialOperationData),
    Mul(BinomialOperationData),
    Div(BinomialOperationData),
    Rem(BinomialOperationData),
    Fact(MonomialOperationData),
}

/// The byte that carries a signed operand (two's complement).
pub open spec fn byte_of(a: i8) -> u8 {
    if a < 0 {
        (a + 256) as u8
    } else {
        a as u8
    }
}

/// The signed operand that a byte carries (two's complement).
pub open spec fn i8_of(b: u8) -> i8 {
    if b > 127 {
        (b - 256) as i8
    } else {
        b as i8
    }
}

/// The byte that carries `a`.
pub fn to_byte(a: i8) -> (r: u8)
    ensures
        r == byte_of(a),
{
    if a < 0 {
        (a as i16 + 256) as u8
    } else {
        a as u8
    }
}

/// The operand that `b` carries.
pub fn from_byte(b: u8) -> (r: i8)
    ensures
        r == i8_of(b),
{
    if b > 127 {
        (b as i16 - 256) as i8
    } else {
        b as i8
    }
}

impl BinomialOperationData {
    /// The two operand bytes, first operand first.
    pub fn encode(&self) -> (r: [u8; 2])
        ensures
            r@ == seq![byte_of(self.0), byte_of(self.1)],
    {
        let r = [to_byte(self.0), to_byte(self.1)];
        assert(r@ =~= seq![byte_of(self.0), byte_of(self.1)]);
        r
    }
}

impl MonomialOperationData {
    /// The operand byte.
    pub fn encode(&self) -> (r: [u8; 1])
        ensures
            r@ == seq![byte_of(self.0)],
    {
        let r = [to_byte(self.0)];
        assert(r@ =~= seq![byte_of(self.0)]);
        r
    }
}

impl From<(i8, i8)> for BinomialOperationData {
    fn from(v: (i8, i8)) -> (r: Self) {
        BinomialOperationData(v.0, v.1)
    }
}

impl vstd::std_specs::convert::FromSpecImpl<(i8, i8)> for BinomialOperationData {
    open spec fn obeys_from_spec() -> bool {
        true
    }

    open spec fn from_spec(v: (i8, i8)) -> Self {
        BinomialOperationData(v.0, v.1)
    }
}

impl From<i8> for MonomialOperationData {
    fn from(a: i8) -> (r: Self) {
        MonomialOperationData(a)
    }
}

impl vstd::std_specs::convert::FromSpecImpl<i8> for MonomialOperationData {
    open spec fn obeys_from_spec() -> bool {
        true
    }

    open spec fn from_spec(a: i8) -> Self {
        MonomialOperationData(a)
    }
}

/// n! = 1 * 2 * ... * n.
pub open spec fn factorial(n: nat) -> nat
    decreases n,
{
    if n == 0 {
        1
    } else {
        n * factorial((n - 1) as nat)
    }
}

/// Quotient rounded toward zero, as signed division does.
pub open spec fn trunc_div(a: int, b: int) -> int {
    let q = abs(a) / abs(b);
    if (a < 0) != (b < 0) {
        -q
    } else {
        q
    }
}

/// Remainder with the sign of the dividend, as signed remainder does.
pub open spec fn trunc_rem(a: int, b: int) -> int {
    let r = abs(a) % abs(b);
    if a < 0 {
        -r
    } else {
        r
    }
}

/// The absolute value.
pub open spec fn abs(a: int) -> int {
    if a < 0 {
        -a
    } else {
        a
    }
}

/// `v` when it fits the accumulator, `OverFlow` otherwise.
pub open spec fn checked_i64(v: int) -> Result<i64, OperationError> {
    if i64::MIN <= v <= i64::MAX {
        Ok(v as i64)
    } else {
        Err(OperationError::OverFlow)
    }
}

/// Whether `a / b` and `a % b` are defined on signed bytes.
pub open spec fn div_domain(a: i8, b: i8) -> bool {
    b != 0 && !(a == i8::MIN && b == -1)
}

/// The value of an operation, or why it has none.
pub open spec fn reduce_spec(op: Operation) -> Result<i64, OperationError> {
    match op {
        Operation::Sum(BinomialOperationData(a, b)) => checked_i64(a + b),
        Operation::Sub(BinomialOperationData(a, b)) => checked_i64(a - b),
        Operation::Mul(BinomialOperationData(a, b)) => checked_i64(a * b),
        Operation::Div(BinomialOperationData(a, b)) => if div_domain(a, b) {
            Ok(trunc_div(a as int, b as int) as i64)
        } else {
            Err(OperationError::WrongDomain)
        },
        Operation::Rem(BinomialOperationData(a, b)) => if div_domain(a, b) {
            Ok(trunc_rem(a as int, b as int) as i64)
        } else {
            Err(OperationError::WrongDomain)
        },
        Operation::Fact(MonomialOperationData(a)) => if a < 0 {
            Err(OperationError::WrongDomain)
        } else {
            checked_i64(factorial(a as nat) as int)
        },
    }
}

/// The frame tag of an operation.
pub open spec fn op_tag(op: Operation) -> TlvType {
    match op {
        Operation::Sum(_) => TlvType::Sum,
        Operation::Sub(_) => TlvType::Sub,
        Operation::Mul(_) => TlvType::Mul,
        Operation::Div(_) => TlvType::Div,
        Operation::Rem(_) => TlvType::Rem,
        Operation::Fact(_) => TlvType::Fact,
    }
}

/// The frame payload of an operation: its operand bytes.
pub open spec fn op_payload(op: Operation) -> Seq<u8> {
    match op {
        Operation::Sum(BinomialOperationData(a, b)) => seq![byte_of(a), byte_of(b)],
        Operation::Sub(BinomialOperationData(a, b)) => seq![byte_of(a), byte_of(b)],
        Operation::Mul(BinomialOperationData(a, b)) => seq![byte_of(a), byte_of(b)],
        Operation::Div(BinomialOperationData(a, b)) => seq![byte_of(a), byte_of(b)],
        Operation::Rem(BinomialOperationData(a, b)) => seq![byte_of(a), byte_of(b)],
        Operation::Fact(MonomialOperationData(a)) => seq![byte_of(a)],
    }
}

/// The bytes of an operation's request frame.
pub open spec fn encode_op(op: Operation) -> Seq<u8> {
    frame_bytes(op_tag(op), op_payload(op))
}

/// The operation that a frame of the given tag and payload holds.
pub open spec fn decode_op(tag: TlvType, data: Seq<u8>) -> Result<Operation, OperationError> {
    let two = BinomialOperationData(i8_of(data[0]), i8_of(data[1]));
    match tag {
        TlvType::Sum if data.len() == 2 => Ok(Operation::Sum(two)),
        TlvType::Sub if data.len() == 2 => Ok(Operation::Sub(two)),
        TlvType::Mul if data.len() == 2 => Ok(Operation::Mul(two)),
        TlvType::Div if data.len() == 2 => Ok(Operation::Div(two)),
        TlvType::Rem if data.len() == 2 => Ok(Operation::Rem(two)),
        TlvType::Fact if data.len() == 1 => Ok(
            Operation::Fact(MonomialOperationData(i8_of(data[0]))),
        ),
        _ => Err(OperationError::Generic),
    }
}

proof fn lemma_factorial_positive(n: nat)
    ensures
        factorial(n) >= 1,
    decreases n,
{
    if n > 0 {
        lemma_factorial_positive((n - 1) as nat);
        assert(n * factorial((n - 1) as nat) >= factorial((n - 1) as nat)) by (nonlinear_arith)
            requires
                n >= 1,
                factorial((n - 1) as nat) >= 1,
        ;
    }
}

/// The factorial never decreases.
pub proof fn lemma_factorial_monotone(m: nat, n: nat)
    requires
        m <= n,
    ensures
        factorial(m) <= factorial(n),
    decreases n - m,
{
    if m < n {
        lemma_factorial_monotone(m, (n - 1) as nat);
        lemma_factorial_positive((n - 1) as nat);
        assert(n * factorial((n - 1) as nat) >= factorial((n - 1) as nat)) by (nonlinear_arith)
            requires
                n >= 1,
                factorial((n - 1) as nat) >= 1,
        ;
    }
}

/// On its domain, signed-byte division and remainder stay within a signed
/// byte.
proof fn lemma_div_rem_fit(a: i8, b: i8)
    requires
        div_domain(a, b),
    ensures
        i8::MIN <= trunc_div(a as int, b as int) <= i8::MAX,
        i8::MIN <= trunc_rem(a as int, b as int) <= i8::MAX,
{
    let x = abs(a as int);
    let d = abs(b as int);
    lemma_div_is_ordered_by_denominator(x, 1, d);
    lemma_div_basics(x);
    lemma_mod_pos_bound(x, d);
    if d >= 2 {
        lemma_div_is_ordered_by_denominator(x, 2, d);
        lemma_div_is_ordered(x, 128, 2);
    }
}

impl Operation {
    /// Evaluates the operation with checked arithmetic.
    pub fn reduce(&self) -> (r: Result<i64, OperationError>)
        ensures
            r == reduce_spec(*self),
    {
        match *self {
            Operation::Sum(BinomialOperationData(a, b)) => Ok((a as i16 + b as i16) as i64),
            Operation::Sub(BinomialOperationData(a, b)) => Ok((a as i16 - b as i16) as i64),
            Operation::Mul(BinomialOperationData(a, b)) => {
                assert(-16384 <= a * b <= 16384) by (nonlinear_arith)
                    requires
                        -128 <= a <= 127,
                        -128 <= b <= 127,
                ;
                Ok((a as i16 * b as i16) as i64)
            },
            Operation::Div(BinomialOperationData(a, b)) => match a.checked_div(b) {
                None => {
                    proof {
                        if div_domain(a, b) {
                            lemma_div_rem_fit(a, b);
                        }
                    }
                    Err(OperationError::WrongDomain)
                },
                Some(q) => {
                    assert(q == trunc_div(a as int, b as int));
                    Ok(q as i64)
                },
            },
            Operation::Rem(BinomialOperationData(a, b)) => match a.checked_rem(b) {
                None => {
                    proof {
                        if div_domain(a, b) {
                            lemma_div_rem_fit(a, b);
                        }
                    }
                    Err(OperationError::WrongDomain)
                },
                Some(q) => {
                    if a == 0 {
                        assert(0int % abs(b as int) == 0) by (nonlinear_arith)
                            requires
                                abs(b as int) > 0,
                        ;
                    }
                    assert(q == trunc_rem(a as int, b as int));
                    Ok(q as i64)
                },
            },
            Operation::Fact(MonomialOperationData(a)) => {
                if a < 0 {
                    return Err(OperationError::WrongDomain);
                }
                let n = a as i64;
                let mut acc: i64 = 1;
                let mut i: i64 = 1;
                while i <= n
                    invariant
                        0 <= n <= 127,
                        n == a,
                        *self == Operation::Fact(MonomialOperationData(a)),
                        1 <= i <= n + 1,
                        acc as int == factorial((i - 1) as nat),
                    decreases n + 1 - i,
                {
                    proof {
                        lemma_factorial_positive((i - 1) as nat);
                        assert(acc * i >= 1) by (nonlinear_arith)
                            requires
                                acc >= 1,
                                i >= 1,
                        ;
                    }
                    let ghost prev = acc;
                    match acc.checked_mul(i) {
                        Some(v) => {
                            acc = v;
                        },
                        None => {
                            proof {
                                assert(factorial(i as nat) == i * factorial((i - 1) as nat));
                                assert(i * acc == acc * i) by (nonlinear_arith);
                                lemma_factorial_monotone(i as nat, a as nat);
                            }
                            return Err(OperationError::OverFlow);
                        },
                    }
                    assert(factorial(i as nat) == i * factorial((i - 1) as nat));
                    assert(prev == factorial((i - 1) as nat));
                    assert(i * prev == prev * i) by (nonlinear_arith);
                    i = i + 1;
                }
                Ok(acc)
            },
        }
    }

    /// The operation's request frame.
    pub fn encode(self) -> (r: Vec<u8>)
        ensures
            r@ == encode_op(self),
    {
        match self {
            Operation::Sum(d) => frame_of(TlvType::Sum, d.encode().as_slice()),
            Operation::Sub(d) => frame_of(TlvType::Sub, d.encode().as_slice()),
            Operation::Mul(d) => frame_of(TlvType::Mul, d.encode().as_slice()),
            Operation::Div(d) => frame_of(TlvType::Div, d.encode().as_slice()),
            Operation::Rem(d) => frame_of(TlvType::Rem, d.encode().as_slice()),
            Operation::Fact(d) => frame_of(TlvType::Fact, d.encode().as_slice()),
        }
    }

    /// The operation that a request frame holds; `Generic` for a frame of
    /// another tag or of the wrong payload size.
    pub fn decode(tlv: &Tlv) -> (r: Result<Operation, OperationError>)
        requires
            tlv.wf(),
        ensures
            r == decode_op(tlv.tag, tlv.data@),
    {
        let binary = tlv.data.len() == 2;
        if binary {
            let two = BinomialOperationData(from_byte(tlv.data[0]), from_byte(tlv.data[1]));
            match tlv.tag {
                TlvType::Sum => return Ok(Operation::Sum(two)),
                TlvType::Sub => return Ok(Operation::Sub(two)),
                TlvType::Mul => return Ok(Operation::Mul(two)),
                TlvType::Div => return Ok(Operation::Div(two)),
                TlvType::Rem => return Ok(Operation::Rem(two)),
                _ => {},
            }
        }
        match tlv.tag {
            TlvType::Fact if tlv.data.len() == 1 => Ok(
                Operation::Fact(MonomialOperationData(from_byte(tlv.data[0]))),
            ),
            _ => Err(OperationError::Generic),
        }
    }
}

/// Sums, differences and products are exact when the accumulator can hold
/// them and an overflow otherwise; division and remainder by zero, and the
/// quotient of the smallest signed byte by minus one, are outside the domain.
pub proof fn lemma_reduce_arithmetic(a: i8, b: i8)
    ensures
        reduce_spec(Operation::Sum(BinomialOperationData(a, b))) == if i64::MIN <= a + b
            <= i64::MAX {
            Ok::<i64, OperationError>((a + b) as i64)
        } else {
            Err(OperationError::OverFlow)
        },
        reduce_spec(Operation::Sub(BinomialOperationData(a, b))) == if i64::MIN <= a - b
            <= i64::MAX {
            Ok::<i64, OperationError>((a - b) as i64)
        } else {
            Err(OperationError::OverFlow)
        },
        reduce_spec(Operation::Mul(BinomialOperationData(a, b))) == if i64::MIN <= a * b
            <= i64::MAX {
            Ok::<i64, OperationError>((a * b) as i64)
        } else {
            Err(OperationError::OverFlow)
        },
        reduce_spec(Operation::Div(BinomialOperationData(a, 0))) == Err::<i64, OperationError>(
            OperationError::WrongDomain,
        ),
        reduce_spec(Operation::Rem(BinomialOperationData(a, 0))) == Err::<i64, OperationError>(
            OperationError::WrongDomain,
        ),
        reduce_spec(Operation::Div(BinomialOperationData(i8::MIN, -1i8))) == Err::<
            i64,
            OperationError,
        >(OperationError::WrongDomain),
{
}

/// 0! is 1, a negative operand is outside the domain, and a factorial
/// overflows exactly when one of the running products 1!, 2!, ..., n! leaves
/// the accumulator's range, which happens from 21! on.
pub proof fn lemma_reduce_factorial(n: i8)
    ensures
        reduce_spec(Operation::Fact(MonomialOperationData(0))) == Ok::<i64, OperationError>(1),
        n < 0 ==> reduce_spec(Operation::Fact(MonomialOperationData(n))) == Err::<
            i64,
            OperationError,
        >(OperationError::WrongDomain),
        n >= 0 ==> (reduce_spec(Operation::Fact(MonomialOperationData(n))) == Err::<
            i64,
            OperationError,
        >(OperationError::OverFlow) <==> exists|k: nat| k <= n && factorial(k) > i64::MAX),
        0 <= n <= 20 ==> reduce_spec(Operation::Fact(MonomialOperationData(n))) == Ok::<
            i64,
            OperationError,
        >(factorial(n as nat) as i64),
        n >= 21 ==> reduce_spec(Operation::Fact(MonomialOperationData(n))) == Err::<
            i64,
            OperationError,
        >(OperationError::OverFlow),
{
    assert(factorial(0) == 1);
    reveal_with_fuel(factorial, 22);
    assert(factorial(20) == 2432902008176640000);
    assert(factorial(21) == 51090942171709440000);
    if n >= 0 {
        if n <= 20 {
            lemma_factorial_monotone(n as nat, 20);
        } else {
            lemma_factorial_monotone(21, n as nat);
        }
        if exists|k: nat| k <= n && factorial(k) > i64::MAX {
            let k = choose|k: nat| k <= n && factorial(k) > i64::MAX;
            lemma_factorial_monotone(k, n as nat);
        }
        if factorial(n as nat) > i64::MAX {
            assert(n as nat <= n && factorial(n as nat) > i64::MAX);
        }
    }
}

/// The bytes of a frame whose payload is short enough for one length byte.
pub fn frame_of(tag: TlvType, payload: &[u8]) -> (r: Vec<u8>)
    requires
        payload@.len() <= 255,
    ensures
        r@ == frame_bytes(tag, payload@),
{
    match Tlv::new(tag, payload) {
        Ok(t) => t.encode(),
        Err(_) => Vec::new(),
    }
}

/// A signed operand survives the trip through its byte.
pub proof fn lemma_byte_round_trip(a: i8)
    ensures
        i8_of(byte_of(a)) == a,
{
}

/// Encoding an operation and reading the frame back gives the operation.
pub proof fn lemma_operation_round_trip(op: Operation)
    ensures
        parse_frame(encode_op(op)) matches Ok(f) && f == (op_tag(op), op_payload(op)),
        decode_op(op_tag(op), op_payload(op)) == Ok::<Operation, OperationError>(op),
{
    let bytes = encode_op(op);
    let d = op_payload(op);
    assert(bytes.subrange(2, 2 + bytes[1]) =~= d);
    match op {
        Operation::Sum(BinomialOperationData(a, b)) | Operation::Sub(BinomialOperationData(a, b))
        | Operation::Mul(BinomialOperationData(a, b)) | Operation::Div(
            BinomialOperationData(a, b),
        ) | Operation::Rem(BinomialOperationData(a, b)) => {
            lemma_byte_round_trip(a);
            lemma_byte_round_trip(b);
        },
        Operation::Fact(MonomialOperationData(a)) => {
            lemma_byte_round_trip(a);
        },
    }
}

} // verus!
