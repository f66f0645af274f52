//! The shift-reduce parser: an explicit control-state stack and a value
//! stack, driven by three hand-derived tables for the fixed grammar
//!
//! ```text
//! expr   := expr '+' term | term | (empty)
//! term   := term '*' factor | factor
//! factor := '(' expr ')' | digits
//! ```
//!
//! One call of [`Parser::parse`] consumes one token: zero or more
//! reductions, then either acceptance or exactly one shift. The exact
//! behaviour of one call is the spec function [`step_spec`]. A (state,
//! token) pair absent from the tables is an internal-consistency fault: the
//! parser stops with [`Fault::Malformed`] rather than guess.

use vstd::prelude::*;
use crate::token::{class_of, Fault, Token, TokenClass, TokenV};

verus! {

/// Mathematical image of a parser: the semantic value stack and the control
/// state stack, both bottom-first.
#[verifier::ext_equal]
pub struct ParserV {
    pub values: Seq<int>,
    pub states: Seq<int>,
}

impl ParserV {
    /// Well-formedness: the control stack always holds at least one state.
    pub open spec fn wf(self) -> bool {
        self.states.len() >= 1
    }
}

/// The reduce table: which rule, if any, a (state, lookahead-class) pair
/// reduces by. Rules are numbered 1 to 7:
/// 1 `expr := expr '+' term`, 2 `expr := term`, 3 `term := term '*' factor`,
/// 4 `term := factor`, 5 `factor := '(' expr ')'`, 6 `factor := digits`,
/// 7 the empty expression (accepted as the value zero).
pub open spec fn reduce_entry(state: int, t: TokenClass) -> Option<int> {
    match t {
        TokenClass::Eof => if state == 0 {
            Some(7)
        } else if state == 2 {
            Some(2)
        } else if state == 3 {
            Some(4)
        } else if state == 5 {
            Some(6)
        } else if state == 9 {
            Some(1)
        } else if state == 10 {
            Some(3)
        } else if state == 11 {
            Some(5)
        } else {
            None
        },
        TokenClass::Plus | TokenClass::RParen => if state == 2 {
            Some(2)
        } else if state == 3 {
            Some(4)
        } else if state == 5 {
            Some(6)
        } else if state == 9 {
            Some(1)
        } else if state == 10 {
            Some(3)
        } else if state == 11 {
            Some(5)
        } else {
            None
        },
        TokenClass::Times => if state == 3 {
            Some(4)
        } else if state == 5 {
            Some(6)
        } else if state == 10 {
            Some(3)
        } else if state == 11 {
            Some(5)
        } else {
            None
        },
        _ => None,
    }
}

/// The goto table: the control state pushed after popping a rule's
/// right-hand side, keyed on the state then uncovered and the rule.
pub open spec fn goto_entry(state: int, rule: int) -> Option<int> {
    if state == 0 && (rule == 1 || rule == 2 || rule == 7) {
        Some(1)
    } else if state == 0 && (rule == 3 || rule == 4) {
        Some(2)
    } else if state == 0 && (rule == 5 || rule == 6) {
        Some(3)
    } else if state == 4 && (rule == 1 || rule == 2) {
        Some(8)
    } else if state == 4 && (rule == 3 || rule == 4) {
        Some(2)
    } else if state == 4 && (rule == 5 || rule == 6) {
        Some(3)
    } else if state == 6 && (rule == 3 || rule == 4) {
        Some(9)
    } else if state == 6 && (rule == 5 || rule == 6) {
        Some(3)
    } else if state == 7 && (rule == 5 || rule == 6) {
        Some(10)
    } else {
        None
    }
}

/// The shift table: the control state pushed for a lookahead that is
/// consumed without (further) reduction.
pub open spec fn shift_entry(state: int, t: TokenClass) -> Option<int> {
    match t {
        TokenClass::Digits => if state == 0 || state == 4 || state == 6 || state == 7 {
            Some(5)
        } else {
            None
        },
        TokenClass::LParen => if state == 0 || state == 4 || state == 6 || state == 7 {
            Some(4)
        } else {
            None
        },
        TokenClass::Plus => if state == 1 || state == 8 {
            Some(6)
        } else {
            None
        },
        TokenClass::Times => if state == 2 || state == 9 {
            Some(7)
        } else {
            None
        },
        TokenClass::RParen => if state == 8 {
            Some(11)
        } else {
            None
        },
        _ => None,
    }
}

/// A bound on how many unit reductions can still follow from a given top
/// state; it justifies termination of the reduce loop.
pub open spec fn reduce_rank(state: int) -> int {
    if state == 5 {
        4
    } else if state == 3 || state == 10 {
        3
    } else if state == 2 || state == 9 {
        2
    } else if state == 1 || state == 8 {
        1
    } else {
        0
    }
}

/// The reduce loop: apply reductions for the lookahead class until none
/// matches. Returns the configuration reached, and the fault, if any, that
/// stopped it there: a stack too short for a rule's right-hand side or a
/// gap in the goto table is `Malformed`; a combined value outside `i32` is
/// `Overflow`. Rule 7, the empty expression, conjures the value zero and
/// goes to state 1, which no reduction leaves.
pub open spec fn run_reduces(p: ParserV, t: TokenClass) -> (ParserV, Option<Fault>)
    decreases p.states.len(), reduce_rank(p.states.last()),
{
    if p.states.len() == 0 {
        (p, Some(Fault::Malformed))
    } else {
        let top = p.states.last();
        match reduce_entry(top, t) {
            None => (p, None),
            Some(rule) => if rule == 7 {
                (ParserV { values: p.values.push(0), states: p.states.push(1) }, None)
            } else {
                let n_states: int = if rule == 1 || rule == 3 || rule == 5 {
                    3
                } else {
                    1
                };
                if p.states.len() <= n_states {
                    (p, Some(Fault::Malformed))
                } else if (rule == 1 || rule == 3) && p.values.len() < 2 {
                    (p, Some(Fault::Malformed))
                } else {
                    let combined: int = if rule == 1 {
                        p.values[p.values.len() - 2] + p.values[p.values.len() - 1]
                    } else if rule == 3 {
                        p.values[p.values.len() - 2] * p.values[p.values.len() - 1]
                    } else {
                        0
                    };
                    if (rule == 1 || rule == 3) && !(i32::MIN <= combined <= i32::MAX) {
                        (p, Some(Fault::Overflow))
                    } else {
                        let values1 = if rule == 1 || rule == 3 {
                            p.values.take(p.values.len() - 2).push(combined)
                        } else {
                            p.values
                        };
                        let states1 = p.states.take(p.states.len() - n_states);
                        match goto_entry(states1.last(), rule) {
                            None => (p, Some(Fault::Malformed)),
                            Some(g) => run_reduces(
                                ParserV { values: values1, states: states1.push(g) },
                                t,
                            ),
                        }
                    }
                }
            },
        }
    }
}

/// What one `parse` call does: run the reduce loop for the token's class;
/// then, at state 1 with the end-of-input lookahead, accept by popping the
/// final value; otherwise shift, pushing the shift state and, for a digit
/// token, its value. A gap in the shift table, or acceptance with an empty
/// value stack, is a malformed-input fault.
pub open spec fn step_spec(p: ParserV, t: TokenV) -> (ParserV, Result<Option<int>, Fault>) {
    let cls = class_of(t);
    let (p1, fault) = run_reduces(p, cls);
    match fault {
        Some(f) => (p1, Err(f)),
        None => {
            let top = p1.states.last();
            if top == 1 && cls == TokenClass::Eof {
                if p1.values.len() >= 1 {
                    (
                        ParserV { values: p1.values.drop_last(), states: p1.states },
                        Ok(Some(p1.values.last())),
                    )
                } else {
                    (p1, Err(Fault::Malformed))
                }
            } else {
                match shift_entry(top, cls) {
                    None => (p1, Err(Fault::Malformed)),
                    Some(s) => {
                        let values2 = match t {
                            TokenV::Digits(n) => p1.values.push(n),
                            _ => p1.values,
                        };
                        (ParserV { values: values2, states: p1.states.push(s) }, Ok(None))
                    },
                }
            }
        },
    }
}

/// An identifier token is never accepted: the tables have no reduction and
/// no shift for the identifier class in any state, so feeding one faults,
/// whatever the parser's configuration. Identifiers are lexed as a reserved
/// extension point, but no grammar rule consumes them.
pub proof fn lemma_id_token_faults(pv: ParserV, s: Seq<char>)
    ensures
        step_spec(pv, TokenV::Id(s)).1 is Err,
{
    let cls = class_of(TokenV::Id(s));
    let (p1, fault) = run_reduces(pv, cls);
    if fault is None {
        assert(shift_entry(p1.states.last(), cls) is None);
    }
}

/// Two binary operators in a row are refused: after a step that consumed
/// `+` or `*` and asked for more input, the step on a second operator
/// immediately following faults, whatever the configuration was.
pub proof fn lemma_adjacent_operators_fault(pv: ParserV, t1: TokenV, t2: TokenV)
    requires
        t1 == TokenV::Plus || t1 == TokenV::Times,
        t2 == TokenV::Plus || t2 == TokenV::Times,
        step_spec(pv, t1).1 == Ok::<Option<int>, Fault>(None),
    ensures
        step_spec(step_spec(pv, t1).0, t2).1 is Err,
{
    let (p1, r1) = step_spec(pv, t1);
    // the first operator was shifted: `+` only into state 6, `*` only into 7
    assert(p1.states.last() == 6 || p1.states.last() == 7);
    let cls2 = class_of(t2);
    let (p2, fault) = run_reduces(p1, cls2);
    if fault is None {
        assert(shift_entry(p2.states.last(), cls2) is None);
    }
}

/// Feeding a token sequence to a parser configuration, step by step, until
/// a step answers with a value or a fault. An exhausted sequence counts as
/// malformed; a sequence ending in `Eof` never exhausts, since the parser
/// always answers `Eof`.
pub open spec fn parse_tokens(pv: ParserV, ts: Seq<TokenV>) -> Result<int, Fault>
    decreases ts.len(),
{
    if ts.len() == 0 {
        Err(Fault::Malformed)
    } else {
        let (pv2, r) = step_spec(pv, ts[0]);
        match r {
            Err(f) => Err(f),
            Ok(Some(v)) => Ok(v),
            Ok(None) => parse_tokens(pv2, ts.skip(1)),
        }
    }
}

/// A value representable by the machine integers of the value stack.
pub open spec fn in_i32(x: int) -> bool {
    i32::MIN <= x <= i32::MAX
}

/// The integer a digits token carries.
pub open spec fn digit_of(t: TokenV) -> int {
    match t {
        TokenV::Digits(n) => n,
        _ => 0,
    }
}

/// A flat continuation: pairs of an operator and a digit group, as they
/// follow the leading digit group of a parenthesis-free expression.
pub open spec fn is_flat_rest(ts: Seq<TokenV>) -> bool {
    &&& ts.len() % 2 == 0
    &&& forall|i: int|
        0 <= i < ts.len() ==> if i % 2 == 0 {
            (#[trigger] ts[i]) == TokenV::Plus || ts[i] == TokenV::Times
        } else {
            ts[i] is Digits
        }
}

/// A flat expression: digit groups separated by `+` and `*`, nothing else.
pub open spec fn is_flat_expr(ts: Seq<TokenV>) -> bool {
    &&& ts.len() % 2 == 1
    &&& forall|i: int|
        0 <= i < ts.len() ==> if i % 2 == 0 {
            (#[trigger] ts[i]) is Digits
        } else {
            ts[i] == TokenV::Plus || ts[i] == TokenV::Times
        }
}

/// Every digits token of the sequence fits in `i32`.
pub open spec fn digits_in_range(ts: Seq<TokenV>) -> bool {
    forall|i: int| 0 <= i < ts.len() && (#[trigger] ts[i]) is Digits ==> in_i32(digit_of(ts[i]))
}

/// The value of the term being built: the pending product times the latest
/// digit group, or that group alone.
pub open spec fn term_of(op: Option<int>, n: int) -> int {
    match op {
        Some(p) => p * n,
        None => n,
    }
}

/// The value so far: the pending sum plus the finished term, or that term
/// alone.
pub open spec fn sum_of(os: Option<int>, t: int) -> int {
    match os {
        Some(s) => s + t,
        None => t,
    }
}

/// The standard left-to-right evaluation of a flat expression, with `*`
/// binding tighter than `+`, carried out in the machine's order: `os` is
/// the sum of the finished terms, `op` the product of the finished factors
/// of the current term, `n` the latest digit group, `ts` the operator and
/// digit pairs still to come. True exactly when no combination steps
/// outside `i32`.
pub open spec fn flat_ok(os: Option<int>, op: Option<int>, n: int, ts: Seq<TokenV>) -> bool
    decreases ts.len(),
{
    let t = term_of(op, n);
    if ts.len() == 0 {
        in_i32(t) && in_i32(sum_of(os, t))
    } else if ts.len() == 1 {
        false
    } else if !in_i32(t) {
        false
    } else {
        match ts[0] {
            TokenV::Plus => in_i32(sum_of(os, t)) && flat_ok(
                Some(sum_of(os, t)),
                None,
                digit_of(ts[1]),
                ts.skip(2),
            ),
            TokenV::Times => flat_ok(os, Some(t), digit_of(ts[1]), ts.skip(2)),
            _ => false,
        }
    }
}

/// The value of the standard left-to-right evaluation, unbounded.
pub open spec fn flat_val(os: Option<int>, op: Option<int>, n: int, ts: Seq<TokenV>) -> int
    decreases ts.len(),
{
    let t = term_of(op, n);
    if ts.len() <= 1 {
        sum_of(os, t)
    } else {
        match ts[0] {
            TokenV::Plus => flat_val(Some(sum_of(os, t)), None, digit_of(ts[1]), ts.skip(2)),
            TokenV::Times => flat_val(os, Some(t), digit_of(ts[1]), ts.skip(2)),
            _ => 0,
        }
    }
}

/// The parser configuration that holds after the latest digit group of a
/// flat expression was shifted: the pending sum sits under a `+` state,
/// the pending product under a `*` state, the digit on top.
pub open spec fn flat_cfg(os: Option<int>, op: Option<int>, n: int) -> ParserV {
    match (os, op) {
        (Option::None, Option::None) => ParserV { values: seq![n], states: seq![0int, 5] },
        (Option::Some(s), Option::None) => ParserV {
            values: seq![s, n],
            states: seq![0int, 1, 6, 5],
        },
        (Option::None, Option::Some(p)) => ParserV {
            values: seq![p, n],
            states: seq![0int, 2, 7, 5],
        },
        (Option::Some(s), Option::Some(p)) => ParserV {
            values: seq![s, p, n],
            states: seq![0int, 1, 6, 9, 7, 5],
        },
    }
}

/// From a flat configuration, the rest of a flat expression and the end of
/// input drive the parser to exactly the standard left-to-right value,
/// or to an overflow fault where a combination leaves `i32` — never to a
/// malformed-input fault and never out of input.
#[verifier::rlimit(100)]
proof fn lemma_flat_run(os: Option<int>, op: Option<int>, n: int, ts: Seq<TokenV>)
    requires
        is_flat_rest(ts),
        digits_in_range(ts),
        in_i32(n),
        os matches Some(s) ==> in_i32(s),
        op matches Some(p) ==> in_i32(p),
    ensures
        parse_tokens(flat_cfg(os, op, n), ts.push(TokenV::Eof)) == (if flat_ok(os, op, n, ts) {
            Ok::<int, Fault>(flat_val(os, op, n, ts))
        } else {
            Err::<int, Fault>(Fault::Overflow)
        }),
    decreases ts.len(),
{
    reveal_with_fuel(run_reduces, 10);
    let cfg = flat_cfg(os, op, n);
    let whole = ts.push(TokenV::Eof);
    if ts.len() == 0 {
        assert(whole[0] == TokenV::Eof);
        assert(parse_tokens(cfg, whole) == (if flat_ok(os, op, n, ts) {
            Ok::<int, Fault>(flat_val(os, op, n, ts))
        } else {
            Err::<int, Fault>(Fault::Overflow)
        }));
    } else {
        let t0 = ts[0];
        let m = digit_of(ts[1]);
        assert(ts[1] is Digits);
        assert(whole[0] == t0);
        assert(whole[1] == ts[1]);
        let (pv1, r1) = step_spec(cfg, t0);
        let tl = whole.skip(1);
        assert(tl[0] == ts[1]);
        let t = term_of(op, n);
        if !in_i32(t) {
            // the pending product overflows at this operator
            assert(r1 == Err::<Option<int>, Fault>(Fault::Overflow));
            assert(parse_tokens(cfg, whole) == Err::<int, Fault>(Fault::Overflow));
        } else if t0 == TokenV::Plus && os is Some && !in_i32(sum_of(os, t)) {
            // the pending sum overflows at this `+`
            assert(r1 == Err::<Option<int>, Fault>(Fault::Overflow));
            assert(parse_tokens(cfg, whole) == Err::<int, Fault>(Fault::Overflow));
        } else {
            // the operator is shifted after its reductions, then the digit
            let (next_os, next_op) = if t0 == TokenV::Plus {
                (Some(sum_of(os, t)), None::<int>)
            } else {
                (os, Some(t))
            };
            assert(r1 == Ok::<Option<int>, Fault>(None));
            let (pv2, r2) = step_spec(pv1, ts[1]);
            assert(r2 == Ok::<Option<int>, Fault>(None));
            assert(pv2 =~= flat_cfg(next_os, next_op, m));
            assert(tl.skip(1) =~= ts.skip(2).push(TokenV::Eof));
            assert(is_flat_rest(ts.skip(2))) by {
                assert(forall|i: int|
                    0 <= i < ts.skip(2).len() ==> ts.skip(2)[i] == ts[i + 2]);
            };
            assert(digits_in_range(ts.skip(2)));
            lemma_flat_run(next_os, next_op, m, ts.skip(2));
            assert(parse_tokens(cfg, whole) == parse_tokens(pv1, tl));
            assert(parse_tokens(pv1, tl) == parse_tokens(pv2, tl.skip(1)));
            assert(parse_tokens(pv2, tl.skip(1)) == parse_tokens(pv2, ts.skip(2).push(TokenV::Eof)));
        }
    }
}

/// The flat slice of the evaluator's correctness: a parenthesis-free
/// expression — digit groups separated by `+` and `*` — parses to exactly
/// the standard left-to-right evaluation with `*` binding tighter than
/// `+`, provided no intermediate value leaves `i32`; where one does, the
/// run ends in the overflow fault, never in a silent wrong number.
pub proof fn lemma_flat_expression_correct(ts: Seq<TokenV>)
    requires
        is_flat_expr(ts),
        digits_in_range(ts),
    ensures
        parse_tokens(
            ParserV { values: Seq::empty(), states: seq![0int] },
            ts.push(TokenV::Eof),
        ) == (if flat_ok(None, None, digit_of(ts[0]), ts.skip(1)) {
            Ok::<int, Fault>(flat_val(None, None, digit_of(ts[0]), ts.skip(1)))
        } else {
            Err::<int, Fault>(Fault::Overflow)
        }),
{
    reveal_with_fuel(run_reduces, 10);
    let init = ParserV { values: Seq::empty(), states: seq![0int] };
    let whole = ts.push(TokenV::Eof);
    assert(whole[0] == ts[0]);
    assert(ts[0] is Digits);
    let (pv1, r1) = step_spec(init, ts[0]);
    assert(r1 == Ok::<Option<int>, Fault>(None));
    assert(pv1 =~= flat_cfg(None, None, digit_of(ts[0])));
    assert(is_flat_rest(ts.skip(1))) by {
        assert(forall|i: int| 0 <= i < ts.skip(1).len() ==> ts.skip(1)[i] == ts[i + 1]);
    };
    assert(digits_in_range(ts.skip(1)));
    lemma_flat_run(None, None, digit_of(ts[0]), ts.skip(1));
    assert(whole.skip(1) =~= ts.skip(1).push(TokenV::Eof));
}

/// The image of a `parse` result beside the image of a spec step.
pub open spec fn parse_res_view(r: Result<Option<i32>, Fault>) -> Result<Option<int>, Fault> {
    match r {
        Ok(None) => Ok(None),
        Ok(Some(v)) => Ok(Some(v as int)),
        Err(f) => Err(f),
    }
}

/// The shift-reduce parser: a value stack and a control state stack,
/// bottom-initialized to the single start state 0.
pub struct Parser {
    stack: Vec<i32>,
    state_stack: Vec<usize>,
}

impl View for Parser {
    type V = ParserV;

    closed spec fn view(&self) -> ParserV {
        ParserV {
            values: self.stack@.map_values(|v: i32| v as int),
            states: self.state_stack@.map_values(|s: usize| s as int),
        }
    }
}

/// One row of the reduce table.
fn reduce_lookup(state: usize, t: TokenClass) -> (r: Option<usize>)
    ensures
        match r {
            Some(k) => reduce_entry(state as int, t) == Some(k as int),
            None => reduce_entry(state as int, t) is None,
        },
{
    match t {
        TokenClass::Eof => match state {
            0 => Some(7),
            2 => Some(2),
            3 => Some(4),
            5 => Some(6),
            9 => Some(1),
            10 => Some(3),
            11 => Some(5),
            _ => None,
        },
        TokenClass::Plus | TokenClass::RParen => match state {
            2 => Some(2),
            3 => Some(4),
            5 => Some(6),
            9 => Some(1),
            10 => Some(3),
            11 => Some(5),
            _ => None,
        },
        TokenClass::Times => match state {
            3 => Some(4),
            5 => Some(6),
            10 => Some(3),
            11 => Some(5),
            _ => None,
        },
        _ => None,
    }
}

/// One row of the goto table.
fn goto_lookup(state: usize, rule: usize) -> (r: Option<usize>)
    ensures
        match r {
            Some(k) => goto_entry(state as int, rule as int) == Some(k as int),
            None => goto_entry(state as int, rule as int) is None,
        },
{
    match (state, rule) {
        (0, 1) | (0, 2) | (0, 7) => Some(1),
        (0, 3) | (0, 4) => Some(2),
        (0, 5) | (0, 6) => Some(3),
        (4, 1) | (4, 2) => Some(8),
        (4, 3) | (4, 4) => Some(2),
        (4, 5) | (4, 6) => Some(3),
        (6, 3) | (6, 4) => Some(9),
        (6, 5) | (6, 6) => Some(3),
        (7, 5) | (7, 6) => Some(10),
        _ => None,
    }
}

/// One row of the shift table.
fn shift_lookup(state: usize, t: TokenClass) -> (r: Option<usize>)
    ensures
        match r {
            Some(k) => shift_entry(state as int, t) == Some(k as int),
            None => shift_entry(state as int, t) is None,
        },
{
    match t {
        TokenClass::Digits => match state {
            0 | 4 | 6 | 7 => Some(5),
            _ => None,
        },
        TokenClass::LParen => match state {
            0 | 4 | 6 | 7 => Some(4),
            _ => None,
        },
        TokenClass::Plus => match state {
            1 | 8 => Some(6),
            _ => None,
        },
        TokenClass::Times => match state {
            2 | 9 => Some(7),
            _ => None,
        },
        TokenClass::RParen => match state {
            8 => Some(11),
            _ => None,
        },
        _ => None,
    }
}

impl Parser {
    /// A parser with an empty value stack and the single start state.
    pub fn new() -> (p: Parser)
        ensures
            p@.wf(),
            p@.values == Seq::<int>::empty(),
            p@.states == seq![0int],
    {
        let mut states: Vec<usize> = Vec::new();
        states.push(0);
        let p = Parser { stack: Vec::new(), state_stack: states };
        proof {
            assert(p@.values =~= Seq::<int>::empty());
            assert(p@.states =~= seq![0int]);
        }
        p
    }

    /// The control state at the top of the stack, the current decision
    /// point.
    pub fn get_state(&mut self) -> (s: usize)
        requires
            old(self)@.wf(),
        ensures
            final(self)@ == old(self)@,
            s as int == old(self)@.states.last(),
    {
        let i = self.state_stack.len() - 1;
        self.state_stack[i]
    }

    /// Consume one token: reduce while the tables say so, then accept or
    /// shift. Returns `Ok(Some(v))` exactly when the automaton accepts with
    /// final value `v`, `Ok(None)` when the token was shifted and more
    /// input is wanted, and the fault that [`step_spec`] names otherwise.
    pub fn parse(&mut self, token: &Token) -> (r: Result<Option<i32>, Fault>)
        requires
            old(self)@.wf(),
        ensures
            final(self)@.wf(),
            final(self)@ == step_spec(old(self)@, token@).0,
            parse_res_view(r) == step_spec(old(self)@, token@).1,
    {
        let ghost orig = self@;
        let cls = token.class();
        loop
            invariant
                self@.wf(),
                cls == class_of(token@),
                orig == old(self)@,
                run_reduces(self@, cls) == run_reduces(orig, cls),
            ensures
                self@.wf(),
                cls == class_of(token@),
                run_reduces(orig, cls) == (self@, None::<Fault>),
            decreases self@.states.len(), reduce_rank(self@.states.last()),
        {
            let ghost p0 = self@;
            let state = self.get_state();
            let reduction = match reduce_lookup(state, cls) {
                Some(rule) => rule,
                None => break,
            };

            if reduction == 7 {
                self.stack.push(0);
                self.state_stack.push(1);
                proof {
                    assert(self@.values =~= p0.values.push(0));
                    assert(self@.states =~= p0.states.push(1));
                    assert(self@ == ParserV { values: p0.values.push(0), states: p0.states.push(1) });
                    assert(run_reduces(p0, cls) == (self@, None::<Fault>));
                    assert(run_reduces(self@, cls) == (self@, None::<Fault>));
                }
                break;
            }

            let n_states: usize = if reduction == 1 || reduction == 3 || reduction == 5 {
                3
            } else {
                1
            };
            if self.state_stack.len() <= n_states {
                proof {
                    assert(run_reduces(p0, cls) == (p0, Some(Fault::Malformed)));
                }
                return Err(Fault::Malformed);
            }
            if (reduction == 1 || reduction == 3) && self.stack.len() < 2 {
                proof {
                    assert(run_reduces(p0, cls) == (p0, Some(Fault::Malformed)));
                }
                return Err(Fault::Malformed);
            }

            // the combined value of a binary rule, checked before any pop
            let mut combined: i32 = 0;
            if reduction == 1 || reduction == 3 {
                let x = self.stack[self.stack.len() - 1];
                let y = self.stack[self.stack.len() - 2];
                let checked = if reduction == 1 {
                    y.checked_add(x)
                } else {
                    y.checked_mul(x)
                };
                combined = match checked {
                    Some(c) => c,
                    None => {
                        proof {
                            assert(run_reduces(p0, cls) == (p0, Some(Fault::Overflow)));
                        }
                        return Err(Fault::Overflow);
                    },
                };
            }

            // the state uncovered once the rule's right-hand side is popped
            let uncovered = self.state_stack[self.state_stack.len() - 1 - n_states];
            let g = match goto_lookup(uncovered, reduction) {
                Some(g) => g,
                None => {
                    proof {
                        assert(run_reduces(p0, cls) == (p0, Some(Fault::Malformed)));
                    }
                    return Err(Fault::Malformed);
                },
            };

            if reduction == 1 || reduction == 3 {
                self.stack.pop();
                self.stack.pop();
                self.stack.push(combined);
                proof {
                    assert(self@.values =~= p0.values.take(p0.values.len() - 2).push(
                        combined as int,
                    ));
                }
            }
            self.state_stack.pop();
            if n_states == 3 {
                self.state_stack.pop();
                self.state_stack.pop();
            }
            proof {
                assert(self@.states =~= p0.states.take(p0.states.len() - n_states));
            }
            self.state_stack.push(g);
            proof {
                let values1 = if reduction == 1 || reduction == 3 {
                    p0.values.take(p0.values.len() - 2).push(combined as int)
                } else {
                    p0.values
                };
                let states1 = p0.states.take(p0.states.len() - n_states);
                assert(states1.last() == uncovered as int);
                assert(self@.states =~= states1.push(g as int));
                assert(self@ == ParserV { values: values1, states: states1.push(g as int) });
                assert(run_reduces(p0, cls) == run_reduces(self@, cls));
            }
        }

        let ghost p1 = self@;
        let state = self.get_state();
        let is_eof = match cls {
            TokenClass::Eof => true,
            _ => false,
        };
        if state == 1 && is_eof {
            return match self.stack.pop() {
                Some(v) => {
                    proof {
                        assert(self@.values =~= p1.values.drop_last());
                    }
                    Ok(Some(v))
                },
                None => Err(Fault::Malformed),
            };
        }

        let s = match shift_lookup(state, cls) {
            Some(s) => s,
            None => {
                return Err(Fault::Malformed);
            },
        };
        self.state_stack.push(s);
        proof {
            assert(self@.states =~= p1.states.push(s as int));
        }
        if let Token::Digits(n) = token {
            self.stack.push(*n);
            proof {
                assert(self@.values =~= p1.values.push(*n as int));
            }
        }
        Ok(None)
    }
}

} // verus!
