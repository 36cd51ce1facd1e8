//! One connection's session: a running accumulator that each request in
//! turn updates, with one answer per request.

use vstd::prelude::*;
use vstd::utf8::encode_utf8;
use crate::answer::{encode_answer, message_fits, Answer, AnswerOrder};
use crate::operation::{decode_op, error_text, reduce_spec, Operation, OperationError};
use crate::tlv::{frames, Tlv, TlvIterator, TlvType};

verus! {

/// `a + b`, held to the bounds of a signed 64-bit integer.
pub open spec fn saturating_add(a: i64, b: i64) -> i64 {
    if a + b > i64::MAX {
        i64::MAX
    } else if a + b < i64::MIN {
        i64::MIN
    } else {
        (a + b) as i64
    }
}

/// The accumulator after a request with the given outcome: a value is
/// added, an error leaves it as it was.
pub open spec fn next_acc(acc: i64, res: Result<i64, OperationError>) -> i64 {
    match res {
        Ok(v) => saturating_add(acc, v),
        Err(_) => acc,
    }
}

/// The answer to a request with the given outcome: the new accumulator,
/// and the error's text if there was one.
pub open spec fn answer_of(acc: i64, res: Result<i64, OperationError>) -> (i64, Option<Seq<char>>) {
    match res {
        Ok(v) => (saturating_add(acc, v), None),
        Err(e) => (acc, Some(error_text(e))),
    }
}

/// The outcome of a request frame: the value of the operation it holds.
pub open spec fn request_result(f: (TlvType, Seq<u8>)) -> Result<i64, OperationError> {
    match decode_op(f.0, f.1) {
        Ok(op) => reduce_spec(op),
        Err(e) => Err(e),
    }
}

/// The accumulator after the given request frames, in order.
pub open spec fn run_acc(acc: i64, fs: Seq<(TlvType, Seq<u8>)>) -> i64
    decreases fs.len(),
{
    if fs.len() == 0 {
        acc
    } else {
        next_acc(run_acc(acc, fs.drop_last()), request_result(fs.last()))
    }
}

/// A connection's state.
pub struct Session {
    acc: i64,
}

impl View for Session {
    type V = i64;

    /// The accumulator.
    closed spec fn view(&self) -> i64 {
        self.acc
    }
}

fn add_saturating(a: i64, b: i64) -> (r: i64)
    ensures
        r == saturating_add(a, b),
{
    match a.checked_add(b) {
        Some(v) => v,
        None => if b > 0 {
            i64::MAX
        } else {
            i64::MIN
        },
    }
}

proof fn lemma_encode_utf8_len(t: Seq<char>)
    ensures
        encode_utf8(t).len() <= 4 * t.len(),
    decreases t.len(),
{
    if t.len() > 0 {
        lemma_encode_utf8_len(t.drop_first());
    }
}

/// Every diagnostic that a session gives fits one answer.
proof fn lemma_session_message_fits(e: OperationError)
    requires
        e is OverFlow || e is WrongDomain || e is Generic,
    ensures
        message_fits(Some(error_text(e))),
{
    reveal_strlit("Result is out of range");
    reveal_strlit("Wrong domain");
    reveal_strlit("Something wrong");
    lemma_encode_utf8_len(error_text(e));
}

impl Session {
    /// A session whose accumulator starts at zero.
    pub fn new() -> (r: Self)
        ensures
            r@ == 0,
    {
        Session { acc: 0 }
    }

    /// A session whose accumulator starts at `acc`.
    pub fn with_accumulator(acc: i64) -> (r: Self)
        ensures
            r@ == acc,
    {
        Session { acc }
    }

    pub fn accumulator(&self) -> (r: i64)
        ensures
            r == self@,
    {
        self.acc
    }

    /// Evaluates a request: a value is added to the accumulator, saturating;
    /// an error leaves it alone and is reported in the answer.
    pub fn apply(&mut self, op: &Operation) -> (r: Answer)
        ensures
            final(self)@ == next_acc(old(self)@, reduce_spec(*op)),
            r@ == answer_of(old(self)@, reduce_spec(*op)),
            message_fits(r@.1),
    {
        match op.reduce() {
            Ok(v) => {
                self.acc = add_saturating(self.acc, v);
                Answer::new(self.acc, None)
            },
            Err(e) => {
                proof {
                    lemma_session_message_fits(e);
                }
                Answer::new(self.acc, Some(e.message()))
            },
        }
    }

    /// Reads a request frame and evaluates it; a frame that holds no
    /// operation is answered with an error.
    pub fn handle(&mut self, tlv: &Tlv) -> (r: Answer)
        requires
            tlv.wf(),
        ensures
            final(self)@ == next_acc(old(self)@, request_result(tlv@)),
            r@ == answer_of(old(self)@, request_result(tlv@)),
            message_fits(r@.1),
    {
        match Operation::decode(tlv) {
            Ok(op) => self.apply(&op),
            Err(e) => {
                proof {
                    lemma_session_message_fits(e);
                }
                Answer::new(self.acc, Some(e.message()))
            },
        }
    }

    /// Answers every request frame that can be read from `buf`, in order,
    /// and stops at the first place where no frame can be read.
    pub fn respond(&mut self, buf: &[u8], order: AnswerOrder) -> (r: Vec<Vec<u8>>)
        ensures
            final(self)@ == run_acc(old(self)@, frames(buf@)),
            r@.len() == frames(buf@).len(),
            forall|i: int|
                0 <= i < r@.len() ==> {
                    let acc = run_acc(old(self)@, frames(buf@).subrange(0, i));
                    let a = answer_of(acc, request_result(frames(buf@)[i]));
                    #[trigger] r@[i]@ == encode_answer(a.0, a.1, order)
                },
    {
        let ghost start = self@;
        let ghost all = frames(buf@);
        let mut it = TlvIterator::process(buf);
        let mut out: Vec<Vec<u8>> = Vec::new();
        let ghost mut seen: Seq<(TlvType, Seq<u8>)> = seq![];
        let mut done = false;
        while !done
            invariant
                it.wf(),
                all == frames(buf@),
                all == seen + frames(it@),
                self@ == run_acc(start, seen),
                out@.len() == seen.len(),
                forall|i: int|
                    0 <= i < out@.len() ==> {
                        let acc = run_acc(start, seen.subrange(0, i));
                        let a = answer_of(acc, request_result(seen[i]));
                        #[trigger] out@[i]@ == encode_answer(a.0, a.1, order)
                    },
                done ==> frames(it@) == Seq::<(TlvType, Seq<u8>)>::empty(),
            decreases it@.len() + if done {
                0int
            } else {
                1int
            },
        {
            let ghost before = it@;
            match it.next() {
                Some(f) => {
                    let ghost acc0 = self@;
                    let answer = self.handle(&f);
                    out.push(answer.encode(order));
                    proof {
                        assert(frames(before) == seq![f@] + frames(it@));
                        assert(seen + frames(before) =~= seen.push(f@) + frames(it@));
                        let s2 = seen.push(f@);
                        assert(s2.drop_last() =~= seen);
                        assert(s2.subrange(0, seen.len() as int) =~= seen);
                        assert forall|i: int| 0 <= i < seen.len() implies s2.subrange(0, i)
                            =~= seen.subrange(0, i) && s2[i] == seen[i] by {}
                        seen = s2;
                    }
                },
                None => {
                    assert(seen + frames(it@) =~= seen);
                    done = true;
                },
            }
        }
        assert(seen == all);
        out
    }
}

} // verus!
