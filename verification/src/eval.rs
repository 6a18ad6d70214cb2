//! The expression evaluator: a single left-to-right tokenizing scan,
//! then two precedence passes over the collected operands and operators.
//!
//! The whole computation is mirrored by specification functions whose
//! result is `Option<Result<..>>`: `None` stands for a computation the
//! machine cannot carry out (an overflow, or a scan that left fewer
//! operands than an evaluation pass consumes — the panic paths of an
//! unchecked implementation), and the public evaluator requires that
//! the outcome is defined.

use crate::rational::{
    add_ok, add_v, div_ok, div_v, lemma_norm_over_one, lemma_seq_view_index, lemma_seq_view_push,
    lemma_seq_view_remove, lemma_seq_view_update, mul_ok, mul_v, ratv, seq_view, sub_ok, sub_v,
    Error, RatV, Rational,
};
use vstd::prelude::*;

verus! {

/// An operator, mapped from one input character.
#[derive(Clone, Copy, PartialEq, Eq, Structural)]
pub enum Op {
    Star,
    Plus,
    Min,
    Slash,
}

/// The first tier holds division and multiplication, the second one
/// addition and subtraction.
pub open spec fn in_tier(op: Op, first: bool) -> bool {
    if first {
        op is Slash || op is Star
    } else {
        op is Plus || op is Min
    }
}

/// The operator character class.
pub open spec fn is_op_char(c: char) -> bool {
    c == '+' || c == '-' || c == '*' || c == '/'
}

/// The operator an input character maps to.
pub open spec fn op_of_char(c: char) -> Op {
    if c == '+' {
        Op::Plus
    } else if c == '-' {
        Op::Min
    } else if c == '*' {
        Op::Star
    } else {
        Op::Slash
    }
}

/// The decimal digit class, by code point.
pub open spec fn is_digit_char(c: char) -> bool {
    48 <= c as u32 <= 57
}

/// The numeric value of a decimal digit character.
pub open spec fn digit_val(c: char) -> int {
    c as u32 - 48
}

/// The pending accumulator, as its mathematical value.
pub open spec fn cur_view(c: Option<Rational>) -> Option<int> {
    match c {
        None => None,
        Some(r) => Some(r@.n),
    }
}

/// The tokenizing scan from position `i`, with the pending accumulator
/// and the tokens gathered so far.  A digit adds its value into the
/// accumulator; an operator character closes the accumulator and is
/// recorded; a space passes; any other character is a syntax error at
/// its index.  A line that ends with nothing pending is an invalid
/// expression.  `None` stands for an accumulator outgrowing the machine.
pub open spec fn tok_from(
    s: Seq<char>,
    i: int,
    cur: Option<int>,
    ps: Seq<RatV>,
    os: Seq<Op>,
) -> Option<Result<(Seq<RatV>, Seq<Op>), Error>>
    decreases s.len() - i,
{
    if i < 0 || i >= s.len() {
        match cur {
            None => Some(Err(Error::InvalidExpr)),
            Some(k) => Some(Ok((ps.push(ratv(k, 1)), os))),
        }
    } else {
        let c = s[i];
        if is_digit_char(c) {
            let base = match cur {
                None => 0int,
                Some(k) => k,
            };
            if base + digit_val(c) > i64::MAX {
                None
            } else {
                tok_from(s, i + 1, Some(base + digit_val(c)), ps, os)
            }
        } else if is_op_char(c) {
            let ps2 = match cur {
                None => ps,
                Some(k) => ps.push(ratv(k, 1)),
            };
            tok_from(s, i + 1, None, ps2, os.push(op_of_char(c)))
        } else if c == ' ' {
            tok_from(s, i + 1, cur, ps, os)
        } else {
            Some(Err(Error::InvalidSyntax(i as usize)))
        }
    }
}

/// The whole tokenizing scan of a line.
pub open spec fn tok(s: Seq<char>) -> Option<Result<(Seq<RatV>, Seq<Op>), Error>> {
    tok_from(s, 0, None, Seq::empty(), Seq::empty())
}

/// The value an operator computes.
pub open spec fn compute_v(op: Op, a: RatV, b: RatV) -> RatV {
    match op {
        Op::Star => mul_v(a, b),
        Op::Plus => add_v(a, b),
        Op::Min => sub_v(a, b),
        Op::Slash => div_v(a, b),
    }
}

/// The operator's arithmetic stays within the machine word.
pub open spec fn compute_ok(op: Op, a: RatV, b: RatV) -> bool {
    match op {
        Op::Star => mul_ok(a, b),
        Op::Plus => add_ok(a, b),
        Op::Min => sub_ok(a, b),
        Op::Slash => b.n != 0 ==> div_ok(a, b),
    }
}

/// One precedence pass from operator position `i`: an operator of the
/// tier consumes its two neighbouring operands and leaves the result in
/// the left one's place; operators outside the tier are stepped over.
/// The only error is a division by a zero-valued fraction; `None`
/// stands for arithmetic outgrowing the machine.
pub open spec fn run_tier(
    ps: Seq<RatV>,
    os: Seq<Op>,
    first: bool,
    i: int,
) -> Option<Result<(Seq<RatV>, Seq<Op>), Error>>
    decreases os.len() - i,
{
    if i < 0 || i >= os.len() {
        Some(Ok((ps, os)))
    } else if in_tier(os[i], first) {
        let op = os[i];
        let a = ps[i];
        let b = ps[i + 1];
        if op is Slash && b.n == 0 {
            Some(Err(Error::DivisionByZero))
        } else if !compute_ok(op, a, b) {
            None
        } else {
            run_tier(ps.remove(i).update(i, compute_v(op, a, b)), os.remove(i), first, i)
        }
    } else {
        run_tier(ps, os, first, i + 1)
    }
}

/// The whole evaluation of one line: tokenize, then the tier of division
/// and multiplication, then the tier of addition and subtraction; the
/// lone operand left is the result.  `None` stands for an evaluation the
/// machine cannot carry out: an overflow, or a scan that produced fewer
/// operands than operators need.
pub open spec fn run_v(s: Seq<char>) -> Option<Result<RatV, Error>> {
    match tok(s) {
        None => None,
        Some(Err(e)) => Some(Err(e)),
        Some(Ok((ps, os))) => if ps.len() != os.len() + 1 {
            None
        } else {
            match run_tier(ps, os, true, 0) {
                None => None,
                Some(Err(e)) => Some(Err(e)),
                Some(Ok((p1, o1))) => match run_tier(p1, o1, false, 0) {
                    None => None,
                    Some(Err(e)) => Some(Err(e)),
                    Some(Ok((p2, _o2))) => Some(Ok(p2[0])),
                },
            }
        },
    }
}

/// A pass keeps one more operand than operator, removes every operator
/// of its own tier, and keeps operators of the other tier out if the
/// input had none.
proof fn lemma_run_tier_shape(ps: Seq<RatV>, os: Seq<Op>, first: bool, i: int)
    requires
        ps.len() == os.len() + 1,
        0 <= i <= os.len(),
        forall|j: int| 0 <= j < i ==> !in_tier(#[trigger] os[j], first),
    ensures
        match run_tier(ps, os, first, i) {
            Some(Ok((p2, o2))) => {
                &&& p2.len() == o2.len() + 1
                &&& forall|j: int| 0 <= j < o2.len() ==> !in_tier(#[trigger] o2[j], first)
                &&& (forall|j: int| 0 <= j < os.len() ==> !in_tier(#[trigger] os[j], !first))
                    ==> (forall|j: int| 0 <= j < o2.len() ==> !in_tier(#[trigger] o2[j], !first))
            },
            _ => true,
        },
    decreases os.len() - i,
{
    if i >= os.len() {
    } else if in_tier(os[i], first) {
        let op = os[i];
        let a = ps[i];
        let b = ps[i + 1];
        if op is Slash && b.n == 0 {
        } else if !compute_ok(op, a, b) {
        } else {
            let ps2 = ps.remove(i).update(i, compute_v(op, a, b));
            let os2 = os.remove(i);
            assert forall|j: int| 0 <= j < i implies !in_tier(#[trigger] os2[j], first) by {
                assert(os2[j] == os[j]);
            }
            lemma_run_tier_shape(ps2, os2, first, i);
            if forall|j: int| 0 <= j < os.len() ==> !in_tier(#[trigger] os[j], !first) {
                assert forall|j: int| 0 <= j < os2.len() implies !in_tier(
                    #[trigger] os2[j],
                    !first,
                ) by {
                    if j < i {
                        assert(os2[j] == os[j]);
                    } else {
                        assert(os2[j] == os[j + 1]);
                    }
                }
            }
        }
    } else {
        lemma_run_tier_shape(ps, os, first, i + 1);
    }
}

impl Op {
    /// Whether this operator belongs to the pass now running.
    fn in_tier_now(&self, first: bool) -> (r: bool)
        ensures
            r == in_tier(*self, first),
    {
        match self {
            Op::Slash | Op::Star => first,
            Op::Plus | Op::Min => !first,
        }
    }

    /// The operator for an input character.
    pub fn from_char(c: char) -> (r: Op)
        requires
            is_op_char(c),
        ensures
            r == op_of_char(c),
    {
        if c == '+' {
            Op::Plus
        } else if c == '-' {
            Op::Min
        } else if c == '*' {
            Op::Star
        } else {
            Op::Slash
        }
    }

    /// Applies the operator to two operands; division is the checked one.
    pub fn compute(&self, a: Rational, b: Rational) -> (r: Result<Rational, Error>)
        requires
            compute_ok(*self, a@, b@),
        ensures
            (r is Err) <==> (*self is Slash && b@.n == 0),
            r matches Err(e) ==> e == Error::DivisionByZero,
            r matches Ok(v) ==> v@ == compute_v(*self, a@, b@),
    {
        match self {
            Op::Star => Ok(a.mul(b)),
            Op::Plus => Ok(a.add(b)),
            Op::Min => Ok(a.sub(b)),
            Op::Slash => a.checked_div(b),
        }
    }
}

/// One executable precedence pass over the token vectors.
fn reduce_tier(parts: &mut Vec<Rational>, ops: &mut Vec<Op>, first: bool) -> (r: Result<
    (),
    Error,
>)
    requires
        old(parts)@.len() == old(ops)@.len() + 1,
        !(run_tier(seq_view(old(parts)@), old(ops)@, first, 0) is None),
    ensures
        match r {
            Ok(_) => run_tier(seq_view(old(parts)@), old(ops)@, first, 0) == Some(
                Ok::<_, Error>((seq_view(final(parts)@), final(ops)@)),
            ) && final(parts)@.len() == final(ops)@.len() + 1,
            Err(e) => run_tier(seq_view(old(parts)@), old(ops)@, first, 0) == Some(
                Err::<(Seq<RatV>, Seq<Op>), _>(e),
            ),
        },
{
    let ghost ps0 = seq_view(parts@);
    let ghost os0 = ops@;
    let mut i: usize = 0;
    while i < ops.len()
        invariant
            ps0 == seq_view(old(parts)@),
            os0 == old(ops)@,
            parts@.len() == ops@.len() + 1,
            i <= ops@.len(),
            run_tier(seq_view(parts@), ops@, first, i as int) == run_tier(ps0, os0, first, 0),
            !(run_tier(ps0, os0, first, 0) is None),
        decreases ops@.len() - i,
    {
        let op = ops[i];
        if op.in_tier_now(first) {
            let ghost pss = seq_view(parts@);
            let ghost oss = ops@;
            let ghost parts_before = parts@;
            let opr = ops.remove(i);
            let a = parts.remove(i);
            let b = parts[i];
            proof {
                lemma_seq_view_index(parts_before, i as int);
                lemma_seq_view_remove(parts_before, i as int);
                lemma_seq_view_index(parts_before.remove(i as int), i as int);
                assert(a@ == pss[i as int]);
                assert(b@ == pss[i as int + 1]);
                // the pass at this position is not stuck, so the operator
                // can be computed (or it is the reported zero division)
                assert(compute_ok(opr, a@, b@));
            }
            match opr.compute(a, b) {
                Err(e) => {
                    return Err(e);
                },
                Ok(v) => {
                    let ghost parts_removed = parts@;
                    parts.set(i, v);
                    proof {
                        lemma_seq_view_update(parts_removed, i as int, v);
                        assert(seq_view(parts@) == pss.remove(i as int).update(
                            i as int,
                            compute_v(opr, a@, b@),
                        ));
                    }
                },
            }
        } else {
            i = i + 1;
        }
    }
    Ok(())
}

impl Rational {
    /// Evaluates one line of input: a tokenizing scan, then the two
    /// precedence passes.  The result is the lone remaining operand, or
    /// the first error the scan or a checked division raised.
    pub fn run_expr(expr: &str) -> (res: Result<Self, Error>)
        requires
            run_v(expr@) is Some,
        ensures
            res matches Ok(r) ==> run_v(expr@) == Some(Ok::<RatV, Error>(r@)),
            res matches Err(e) ==> run_v(expr@) == Some(Err::<RatV, Error>(e)),
    {
        let ghost s = expr@;
        let mut parts: Vec<Rational> = Vec::new();
        let mut ops: Vec<Op> = Vec::new();
        let mut cur: Option<Rational> = None;
        let n = expr.unicode_len();
        let mut idx: usize = 0;
        proof {
            assert(seq_view(parts@) =~= Seq::<RatV>::empty());
        }
        while idx < n
            invariant
                s == expr@,
                n == s.len(),
                idx <= n,
                run_v(s) is Some,
                match cur {
                    Some(r) => r@.d == 1 && 0 <= r@.n <= i64::MAX,
                    None => true,
                },
                tok_from(s, idx as int, cur_view(cur), seq_view(parts@), ops@) == tok(s),
            decreases n - idx,
        {
            let c = expr.get_char(idx);
            let cv = c as u32;
            if 48 <= cv && cv <= 57 {
                let base = if let Some(v) = cur {
                    v
                } else {
                    Rational::default()
                };
                proof {
                    // were the grown sum to overflow, the scan would have
                    // no defined outcome, against the precondition
                    assert(base@.n + digit_val(c) <= i64::MAX);
                    lemma_norm_over_one(base@.n + digit_val(c));
                }
                let d = (cv - 48) as i64;
                cur = Some(base.add_int(d));
            } else if c == '+' || c == '-' || c == '*' || c == '/' {
                if let Some(v) = cur {
                    proof {
                        lemma_seq_view_push(parts@, v);
                    }
                    parts.push(v);
                    cur = None;
                }
                ops.push(Op::from_char(c));
            } else if c == ' ' {
            } else {
                return Err(Error::InvalidSyntax(idx));
            }
            idx = idx + 1;
        }
        // the scan is done: close the pending operand
        let last = match cur {
            None => {
                return Err(Error::InvalidExpr);
            },
            Some(v) => v,
        };
        proof {
            lemma_seq_view_push(parts@, last);
        }
        parts.push(last);
        let ghost tps = seq_view(parts@);
        let ghost tos = ops@;
        proof {
            assert(tok(s) == Some(Ok::<(Seq<RatV>, Seq<Op>), Error>((tps, tos))));
            // a defined outcome forces the one-more-operand token shape
            // and a first pass that stays within the machine
            assert(tps.len() == tos.len() + 1);
            assert(!(run_tier(tps, tos, true, 0) is None));
        }
        match reduce_tier(&mut parts, &mut ops, true) {
            Err(e) => {
                return Err(e);
            },
            Ok(_) => {},
        }
        let ghost p1 = seq_view(parts@);
        let ghost o1 = ops@;
        proof {
            lemma_run_tier_shape(tps, tos, true, 0);
            assert(!(run_tier(p1, o1, false, 0) is None));
        }
        match reduce_tier(&mut parts, &mut ops, false) {
            Err(e) => {
                return Err(e);
            },
            Ok(_) => {},
        }
        proof {
            lemma_run_tier_shape(p1, o1, false, 0);
            // no operator of either tier is left, so none is left at all
            let o2 = ops@;
            if o2.len() > 0 {
                assert(!in_tier(o2[0], false));
                assert(!in_tier(o2[0], true));
                assert(false);
            }
            assert(parts@.len() == 1);
            lemma_seq_view_index(parts@, 0);
        }
        Ok(parts[0])
    }
}

} // verus!
