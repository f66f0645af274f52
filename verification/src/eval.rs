//! The driver: pull characters left to right, feed each to the scanner,
//! feed every completed token to the parser, and stop at the first result
//! or fault. The meaning of a whole evaluation is the spec function
//! [`eval_spec`].

use vstd::prelude::*;
use crate::token::{Fault, TokenClass, TokenV};
use crate::tokenizer::{
    digit_val, is_alnum_char, is_alpha_char, is_digit_char, num_val, scan_step, ScanState,
    ScannerV, Tokenizer,
};
use crate::parser::{
    digit_of, digits_in_range, flat_ok, flat_val, is_flat_expr, is_flat_rest,
    lemma_flat_expression_correct, lemma_id_token_faults, parse_tokens, run_reduces, shift_entry,
    step_spec, Parser, ParserV,
};

verus! {

/// A scanner as [`Tokenizer::new`] returns it.
pub open spec fn init_scanner() -> ScannerV {
    ScannerV { state: ScanState::Idle, buf: Seq::empty() }
}

/// A parser as [`Parser::new`] returns it.
pub open spec fn init_parser() -> ParserV {
    ParserV { values: Seq::empty(), states: seq![0int] }
}

/// The joint run of scanner and parser over the remaining characters,
/// followed by up to `extra` end-of-input signals: one may complete a
/// pending token, the next completes `Eof`, which the parser always
/// answers with a result or a fault. The base case is out of reach for a
/// whole-input run started with `extra == 2`.
pub open spec fn run(sv: ScannerV, pv: ParserV, cs: Seq<char>, extra: nat) -> Result<int, Fault>
    decreases cs.len() + extra,
{
    if cs.len() == 0 && extra == 0 {
        Err(Fault::Malformed)
    } else {
        let c: Option<char> = if cs.len() > 0 {
            Some(cs[0])
        } else {
            None
        };
        let rest = if cs.len() > 0 {
            cs.skip(1)
        } else {
            cs
        };
        let extra2: nat = if cs.len() > 0 {
            extra
        } else {
            (extra - 1) as nat
        };
        let (tok_r, sv2) = scan_step(sv, c);
        match tok_r {
            Err(f) => Err(f),
            Ok(None) => run(sv2, pv, rest, extra2),
            Ok(Some(t)) => {
                let (pv2, pr) = step_spec(pv, t);
                match pr {
                    Err(f) => Err(f),
                    Ok(Some(v)) => Ok(v),
                    Ok(None) => run(sv2, pv2, rest, extra2),
                }
            },
        }
    }
}

/// What evaluating a character sequence yields: one integer, or the fault
/// that stopped the run.
pub open spec fn eval_spec(cs: Seq<char>) -> Result<int, Fault> {
    run(init_scanner(), init_parser(), cs, 2)
}

/// After an end-of-input signal the scanner is always back in the idle
/// state: every state emits on end of input, and the re-classification of
/// end of input stays idle.
pub proof fn lemma_scan_none_idle(sv: ScannerV)
    ensures
        scan_step(sv, None).1.state == ScanState::Idle,
        scan_step(sv, None).1.buf.len() == 0,
{
}

/// An idle scanner answers end of input with the `Eof` token.
pub proof fn lemma_scan_idle_eof(sv: ScannerV)
    requires
        sv.state == ScanState::Idle,
    ensures
        scan_step(sv, None).0 == Ok::<Option<TokenV>, Fault>(Some(TokenV::Eof)),
{
}

/// The parser never asks for more input after `Eof`: no state shifts the
/// end-of-input class, so the step either accepts or faults.
pub proof fn lemma_eof_step_answers(pv: ParserV)
    ensures
        !(step_spec(pv, TokenV::Eof).1 matches Ok(None)),
{
    let (p1, fault) = run_reduces(pv, TokenClass::Eof);
    if fault is None {
        assert(shift_entry(p1.states.last(), TokenClass::Eof) is None);
    }
}

/// A run whose remaining characters contain a letter, or whose scanner
/// already sits in an identifier run, never yields a number: the letter
/// becomes an identifier token, and the parser refuses identifiers in
/// every state.
proof fn lemma_letter_run_faults(sv: ScannerV, pv: ParserV, cs: Seq<char>, extra: nat)
    requires
        sv.state == ScanState::IdentRun || exists|j: int|
            0 <= j < cs.len() && is_alpha_char(#[trigger] cs[j]),
    ensures
        run(sv, pv, cs, extra) is Err,
    decreases cs.len() + extra,
{
    if cs.len() == 0 && extra == 0 {
        // the exhausted base case is itself a fault
    } else {
        let c: Option<char> = if cs.len() > 0 {
            Some(cs[0])
        } else {
            None
        };
        let rest = if cs.len() > 0 {
            cs.skip(1)
        } else {
            cs
        };
        let extra2: nat = if cs.len() > 0 {
            extra
        } else {
            (extra - 1) as nat
        };
        let (tok_r, sv2) = scan_step(sv, c);
        if cs.len() == 0 {
            // no letters left, so the scanner is mid-identifier: end of
            // input emits the identifier token, which the parser refuses
            assert(sv.state == ScanState::IdentRun);
            lemma_id_token_faults(pv, sv.buf);
        } else {
            let j = choose|j: int| 0 <= j < cs.len() && is_alpha_char(#[trigger] cs[j]);
            if sv.state == ScanState::IdentRun && !is_alnum_char(cs[0]) {
                // the run ends here: an identifier token is emitted
                lemma_id_token_faults(pv, sv.buf);
            } else {
                // the scanner consumes one character; afterwards it is
                // either inside an identifier run or a letter remains
                if sv.state != ScanState::IdentRun && j != 0 {
                    assert(rest[j - 1] == cs[j]);
                    assert(exists|j2: int|
                        0 <= j2 < rest.len() && is_alpha_char(#[trigger] rest[j2]));
                }
                match tok_r {
                    Err(_) => {},
                    Ok(None) => {
                        lemma_letter_run_faults(sv2, pv, rest, extra2);
                    },
                    Ok(Some(t)) => {
                        let (pv2, pr) = step_spec(pv, t);
                        match pr {
                            Err(_) => {},
                            Ok(Some(_)) => {
                                // acceptance needs the end-of-input token,
                                // which a character never completes
                                assert(false);
                            },
                            Ok(None) => {
                                lemma_letter_run_faults(sv2, pv2, rest, extra2);
                            },
                        }
                    },
                }
            }
        }
    }
}

/// Any input that contains a letter faults rather than return a number:
/// the scanner turns the letter's run into an identifier token, and the
/// parser's tables have no transition for identifiers.
pub proof fn lemma_letter_input_faults(cs: Seq<char>)
    requires
        exists|j: int| 0 <= j < cs.len() && is_alpha_char(#[trigger] cs[j]),
    ensures
        eval_spec(cs) is Err,
{
    lemma_letter_run_faults(init_scanner(), init_parser(), cs, 2);
}

/// Where a parenthesis-free input stands, read left to right: before its
/// first digit group, inside a group, after a group (an operator or the
/// end may follow), or after an operator (another group must follow).
/// Blanks are allowed everywhere but inside a group.
pub enum FlatMode {
    BeforeFirst,
    InGroup,
    AfterGroup,
    AfterOp,
}

/// The shape of a parenthesis-free expression from a given position:
/// digit groups separated by `+` and `*`, blanks between tokens, at least
/// one group, and no trailing operator.
pub open spec fn flat_shape(m: FlatMode, cs: Seq<char>) -> bool
    decreases cs.len(),
{
    if cs.len() == 0 {
        m matches FlatMode::InGroup || m matches FlatMode::AfterGroup
    } else {
        let c = cs[0];
        match m {
            FlatMode::BeforeFirst => if is_blank_char(c) {
                flat_shape(FlatMode::BeforeFirst, cs.skip(1))
            } else {
                is_digit_char(c) && flat_shape(FlatMode::InGroup, cs.skip(1))
            },
            FlatMode::InGroup => if is_digit_char(c) {
                flat_shape(FlatMode::InGroup, cs.skip(1))
            } else if c == '+' || c == '*' {
                flat_shape(FlatMode::AfterOp, cs.skip(1))
            } else {
                is_blank_char(c) && flat_shape(FlatMode::AfterGroup, cs.skip(1))
            },
            FlatMode::AfterGroup => if is_blank_char(c) {
                flat_shape(FlatMode::AfterGroup, cs.skip(1))
            } else {
                (c == '+' || c == '*') && flat_shape(FlatMode::AfterOp, cs.skip(1))
            },
            FlatMode::AfterOp => if is_blank_char(c) {
                flat_shape(FlatMode::AfterOp, cs.skip(1))
            } else {
                is_digit_char(c) && flat_shape(FlatMode::InGroup, cs.skip(1))
            },
        }
    }
}

/// Every digit group of the input fits in `i32`; `acc` is the value
/// accumulated so far for the group currently being read.
pub open spec fn flat_groups_fit(m: FlatMode, acc: int, cs: Seq<char>) -> bool
    decreases cs.len(),
{
    if cs.len() == 0 {
        m matches FlatMode::InGroup ==> acc <= i32::MAX
    } else {
        let c = cs[0];
        match m {
            FlatMode::BeforeFirst => if is_digit_char(c) {
                flat_groups_fit(FlatMode::InGroup, digit_val(c), cs.skip(1))
            } else {
                flat_groups_fit(FlatMode::BeforeFirst, 0, cs.skip(1))
            },
            FlatMode::InGroup => if is_digit_char(c) {
                flat_groups_fit(FlatMode::InGroup, acc * 10 + digit_val(c), cs.skip(1))
            } else if c == '+' || c == '*' {
                acc <= i32::MAX && flat_groups_fit(FlatMode::AfterOp, 0, cs.skip(1))
            } else {
                acc <= i32::MAX && flat_groups_fit(FlatMode::AfterGroup, 0, cs.skip(1))
            },
            FlatMode::AfterGroup => if c == '+' || c == '*' {
                flat_groups_fit(FlatMode::AfterOp, 0, cs.skip(1))
            } else {
                flat_groups_fit(FlatMode::AfterGroup, 0, cs.skip(1))
            },
            FlatMode::AfterOp => if is_digit_char(c) {
                flat_groups_fit(FlatMode::InGroup, digit_val(c), cs.skip(1))
            } else {
                flat_groups_fit(FlatMode::AfterOp, 0, cs.skip(1))
            },
        }
    }
}

/// The token stream of a parenthesis-free expression from a given
/// position: one digits token per group, the operators in between, no
/// end-of-input marker. `acc` is the value of the group being read.
pub open spec fn flat_tokens(m: FlatMode, acc: int, cs: Seq<char>) -> Seq<TokenV>
    decreases cs.len(),
{
    if cs.len() == 0 {
        match m {
            FlatMode::InGroup => seq![TokenV::Digits(acc)],
            _ => Seq::empty(),
        }
    } else {
        let c = cs[0];
        match m {
            FlatMode::BeforeFirst => if is_digit_char(c) {
                flat_tokens(FlatMode::InGroup, digit_val(c), cs.skip(1))
            } else {
                flat_tokens(FlatMode::BeforeFirst, 0, cs.skip(1))
            },
            FlatMode::InGroup => if is_digit_char(c) {
                flat_tokens(FlatMode::InGroup, acc * 10 + digit_val(c), cs.skip(1))
            } else if c == '+' {
                seq![TokenV::Digits(acc), TokenV::Plus] + flat_tokens(
                    FlatMode::AfterOp,
                    0,
                    cs.skip(1),
                )
            } else if c == '*' {
                seq![TokenV::Digits(acc), TokenV::Times] + flat_tokens(
                    FlatMode::AfterOp,
                    0,
                    cs.skip(1),
                )
            } else {
                seq![TokenV::Digits(acc)] + flat_tokens(FlatMode::AfterGroup, 0, cs.skip(1))
            },
            FlatMode::AfterGroup => if c == '+' {
                seq![TokenV::Plus] + flat_tokens(FlatMode::AfterOp, 0, cs.skip(1))
            } else if c == '*' {
                seq![TokenV::Times] + flat_tokens(FlatMode::AfterOp, 0, cs.skip(1))
            } else {
                flat_tokens(FlatMode::AfterGroup, 0, cs.skip(1))
            },
            FlatMode::AfterOp => if is_digit_char(c) {
                flat_tokens(FlatMode::InGroup, digit_val(c), cs.skip(1))
            } else {
                flat_tokens(FlatMode::AfterOp, 0, cs.skip(1))
            },
        }
    }
}

/// The scanner that belongs to each position of a flat input: idle
/// between tokens, mid-run inside a group, or holding a just-consumed
/// operator in its one-shot state.
pub open spec fn flat_scanner_ok(m: FlatMode, sv: ScannerV) -> bool {
    match m {
        FlatMode::InGroup => sv.state == ScanState::DigitRun && sv.buf.len() >= 1 && (forall|
            i: int,
        |
            0 <= i < sv.buf.len() ==> is_digit_char(#[trigger] sv.buf[i])),
        FlatMode::AfterOp => (sv.state == ScanState::Idle && sv.buf.len() == 0) || sv.state
            == ScanState::PlusSign || sv.state == ScanState::TimesSign,
        _ => sv.state == ScanState::Idle && sv.buf.len() == 0,
    }
}

/// The operator token a one-shot scanner state still owes the parser.
pub open spec fn pending_of(sv: ScannerV) -> Seq<TokenV> {
    if sv.state == ScanState::PlusSign {
        seq![TokenV::Plus]
    } else if sv.state == ScanState::TimesSign {
        seq![TokenV::Times]
    } else {
        Seq::empty()
    }
}

/// The group value the scanner's buffer has accumulated so far.
pub open spec fn acc_of(m: FlatMode, sv: ScannerV) -> int {
    match m {
        FlatMode::InGroup => num_val(sv.buf),
        _ => 0,
    }
}

/// Scanning a flat input hands the parser exactly the tokens of
/// [`flat_tokens`] — any owed operator token first, the end-of-input
/// token last — whatever the parser does with them.
proof fn lemma_scan_flat(m: FlatMode, sv: ScannerV, pv: ParserV, cs: Seq<char>)
    requires
        flat_scanner_ok(m, sv),
        flat_shape(m, cs),
        flat_groups_fit(m, acc_of(m, sv), cs),
    ensures
        run(sv, pv, cs, 2) == parse_tokens(
            pv,
            pending_of(sv) + flat_tokens(m, acc_of(m, sv), cs) + seq![TokenV::Eof],
        ),
    decreases cs.len(),
{
    let acc = acc_of(m, sv);
    let toks = pending_of(sv) + flat_tokens(m, acc, cs) + seq![TokenV::Eof];
    if cs.len() == 0 {
        match m {
            FlatMode::InGroup => {
                // end of input completes the group; the next signal is `Eof`
                let t = TokenV::Digits(acc);
                assert(scan_step(sv, None).0 == Ok::<Option<TokenV>, Fault>(Some(t)));
                assert(toks =~= seq![t, TokenV::Eof]);
                assert(toks[0] == t);
                let (pv2, r) = step_spec(pv, t);
                match r {
                    Err(f) => {
                        assert(run(sv, pv, cs, 2) == Err::<int, Fault>(f));
                        assert(parse_tokens(pv, toks) == Err::<int, Fault>(f));
                    },
                    Ok(Some(v)) => {
                        assert(run(sv, pv, cs, 2) == Ok::<int, Fault>(v));
                        assert(parse_tokens(pv, toks) == Ok::<int, Fault>(v));
                    },
                    Ok(None) => {
                        assert(toks.skip(1) =~= seq![TokenV::Eof]);
                        let sv2 = scan_step(sv, None).1;
                        assert(sv2.state == ScanState::Idle && sv2.buf.len() == 0);
                        assert(run(sv, pv, cs, 2) == run(sv2, pv2, cs, 1));
                        assert(parse_tokens(pv, toks) == parse_tokens(pv2, seq![TokenV::Eof]));
                        assert(scan_step(sv2, None).0 == Ok::<Option<TokenV>, Fault>(
                            Some(TokenV::Eof),
                        ));
                        let (pv3, r2) = step_spec(pv2, TokenV::Eof);
                        assert(seq![TokenV::Eof].skip(1) =~= Seq::<TokenV>::empty());
                        match r2 {
                            Err(f) => {
                                assert(run(sv2, pv2, cs, 1) == Err::<int, Fault>(f));
                            },
                            Ok(Some(v)) => {
                                assert(run(sv2, pv2, cs, 1) == Ok::<int, Fault>(v));
                            },
                            Ok(None) => {
                                assert(run(sv2, pv2, cs, 1) == run(
                                    scan_step(sv2, None).1,
                                    pv3,
                                    cs,
                                    0,
                                ));
                                assert(parse_tokens(pv2, seq![TokenV::Eof]) == parse_tokens(
                                    pv3,
                                    Seq::<TokenV>::empty(),
                                ));
                            },
                        }
                    },
                }
            },
            _ => {
                // only `Eof` is left; the parser answers it at once
                assert(toks =~= seq![TokenV::Eof]);
                assert(scan_step(sv, None).0 == Ok::<Option<TokenV>, Fault>(Some(TokenV::Eof)));
                let (pv2, r) = step_spec(pv, TokenV::Eof);
                lemma_eof_step_answers(pv);
                match r {
                    Err(f) => {
                        assert(run(sv, pv, cs, 2) == Err::<int, Fault>(f));
                    },
                    Ok(Some(v)) => {
                        assert(run(sv, pv, cs, 2) == Ok::<int, Fault>(v));
                    },
                    Ok(None) => {
                        assert(false);
                    },
                }
            },
        }
    } else {
        let c = cs[0];
        let rest = cs.skip(1);
        let (tok_r, sv2) = scan_step(sv, Some(c));
        match m {
            FlatMode::BeforeFirst => {
                // blanks are skipped; the first digit opens the first group
                assert(tok_r == Ok::<Option<TokenV>, Fault>(None));
                if is_blank_char(c) {
                    assert(sv2 =~= sv);
                    lemma_scan_flat(FlatMode::BeforeFirst, sv, pv, rest);
                } else {
                    assert(sv2 =~= ScannerV { state: ScanState::DigitRun, buf: seq![c] });
                    assert(seq![c].drop_last() =~= Seq::<char>::empty());
                    assert(num_val(Seq::<char>::empty()) == 0);
                    assert(num_val(seq![c]) == digit_val(c));
                    lemma_scan_flat(FlatMode::InGroup, sv2, pv, rest);
                }
            },
            FlatMode::InGroup => {
                if is_digit_char(c) {
                    // the run swallows the next digit
                    assert(tok_r == Ok::<Option<TokenV>, Fault>(None));
                    assert(sv2 =~= ScannerV {
                        state: ScanState::DigitRun,
                        buf: sv.buf.push(c),
                    });
                    assert((sv.buf.push(c)).drop_last() =~= sv.buf);
                    assert(num_val(sv.buf.push(c)) == acc * 10 + digit_val(c));
                    lemma_scan_flat(FlatMode::InGroup, sv2, pv, rest);
                    assert(run(sv, pv, cs, 2) == run(sv2, pv, rest, 2));
                    assert(toks =~= pending_of(sv2) + flat_tokens(
                        FlatMode::InGroup,
                        num_val(sv.buf.push(c)),
                        rest,
                    ) + seq![TokenV::Eof]);
                } else {
                    // an operator or a blank ends the group: the digits
                    // token is emitted at this very character
                    let t = TokenV::Digits(acc);
                    assert(tok_r == Ok::<Option<TokenV>, Fault>(Some(t)));
                    assert(toks[0] == t);
                    let (pv2, r) = step_spec(pv, t);
                    match r {
                        Err(f) => {
                            assert(run(sv, pv, cs, 2) == Err::<int, Fault>(f));
                            assert(parse_tokens(pv, toks) == Err::<int, Fault>(f));
                        },
                        Ok(Some(v)) => {
                            assert(run(sv, pv, cs, 2) == Ok::<int, Fault>(v));
                            assert(parse_tokens(pv, toks) == Ok::<int, Fault>(v));
                        },
                        Ok(None) => {
                            assert(run(sv, pv, cs, 2) == run(sv2, pv2, rest, 2));
                            assert(parse_tokens(pv, toks) == parse_tokens(pv2, toks.skip(1)));
                            if c == '+' || c == '*' {
                                // the operator sits in a one-shot state now
                                assert(sv2.state == if c == '+' {
                                    ScanState::PlusSign
                                } else {
                                    ScanState::TimesSign
                                });
                                lemma_scan_flat(FlatMode::AfterOp, sv2, pv2, rest);
                                assert(toks.skip(1) =~= pending_of(sv2) + flat_tokens(
                                    FlatMode::AfterOp,
                                    0,
                                    rest,
                                ) + seq![TokenV::Eof]);
                            } else {
                                assert(sv2.state == ScanState::Idle && sv2.buf.len() == 0);
                                lemma_scan_flat(FlatMode::AfterGroup, sv2, pv2, rest);
                                assert(toks.skip(1) =~= pending_of(sv2) + flat_tokens(
                                    FlatMode::AfterGroup,
                                    0,
                                    rest,
                                ) + seq![TokenV::Eof]);
                            }
                        },
                    }
                }
            },
            FlatMode::AfterGroup => {
                // idle: blanks are skipped, an operator enters its one-shot
                // state without a token yet
                assert(tok_r == Ok::<Option<TokenV>, Fault>(None));
                if is_blank_char(c) {
                    assert(sv2 =~= sv);
                    lemma_scan_flat(FlatMode::AfterGroup, sv, pv, rest);
                } else {
                    assert(sv2.buf =~= seq![c]);
                    lemma_scan_flat(FlatMode::AfterOp, sv2, pv, rest);
                    assert(toks =~= pending_of(sv2) + flat_tokens(FlatMode::AfterOp, 0, rest)
                        + seq![TokenV::Eof]);
                }
            },
            FlatMode::AfterOp => {
                if sv.state == ScanState::Idle {
                    // the operator token is already with the parser
                    assert(tok_r == Ok::<Option<TokenV>, Fault>(None));
                    if is_blank_char(c) {
                        assert(sv2 =~= sv);
                        lemma_scan_flat(FlatMode::AfterOp, sv, pv, rest);
                    } else {
                        assert(sv2 =~= ScannerV { state: ScanState::DigitRun, buf: seq![c] });
                        assert(seq![c].drop_last() =~= Seq::<char>::empty());
                        assert(num_val(Seq::<char>::empty()) == 0);
                        assert(num_val(seq![c]) == digit_val(c));
                        lemma_scan_flat(FlatMode::InGroup, sv2, pv, rest);
                    }
                } else {
                    // the one-shot state emits its operator token now
                    let opt = if sv.state == ScanState::PlusSign {
                        TokenV::Plus
                    } else {
                        TokenV::Times
                    };
                    assert(tok_r == Ok::<Option<TokenV>, Fault>(Some(opt)));
                    assert(toks[0] == opt);
                    let (pv2, r) = step_spec(pv, opt);
                    match r {
                        Err(f) => {
                            assert(run(sv, pv, cs, 2) == Err::<int, Fault>(f));
                            assert(parse_tokens(pv, toks) == Err::<int, Fault>(f));
                        },
                        Ok(Some(v)) => {
                            assert(run(sv, pv, cs, 2) == Ok::<int, Fault>(v));
                            assert(parse_tokens(pv, toks) == Ok::<int, Fault>(v));
                        },
                        Ok(None) => {
                            assert(run(sv, pv, cs, 2) == run(sv2, pv2, rest, 2));
                            assert(parse_tokens(pv, toks) == parse_tokens(pv2, toks.skip(1)));
                            if is_blank_char(c) {
                                assert(sv2.state == ScanState::Idle && sv2.buf.len() == 0);
                                lemma_scan_flat(FlatMode::AfterOp, sv2, pv2, rest);
                                assert(toks.skip(1) =~= pending_of(sv2) + flat_tokens(
                                    FlatMode::AfterOp,
                                    0,
                                    rest,
                                ) + seq![TokenV::Eof]);
                            } else {
                                assert(sv2 =~= ScannerV {
                                    state: ScanState::DigitRun,
                                    buf: seq![c],
                                });
                                assert(seq![c].drop_last() =~= Seq::<char>::empty());
                                assert(num_val(Seq::<char>::empty()) == 0);
                                assert(num_val(seq![c]) == digit_val(c));
                                lemma_scan_flat(FlatMode::InGroup, sv2, pv2, rest);
                                assert(toks.skip(1) =~= pending_of(sv2) + flat_tokens(
                                    FlatMode::InGroup,
                                    digit_val(c),
                                    rest,
                                ) + seq![TokenV::Eof]);
                            }
                        },
                    }
                }
            },
        }
    }
}

/// The tokens of a flat input form a flat expression at the token level
/// (or, from just after a group, its continuation), with every digit
/// value in `i32`.
proof fn lemma_flat_tokens_shape(m: FlatMode, acc: int, cs: Seq<char>)
    requires
        0 <= acc,
        flat_shape(m, cs),
        flat_groups_fit(m, acc, cs),
    ensures
        m matches FlatMode::AfterGroup ==> is_flat_rest(flat_tokens(m, acc, cs)),
        !(m matches FlatMode::AfterGroup) ==> is_flat_expr(flat_tokens(m, acc, cs)),
        digits_in_range(flat_tokens(m, acc, cs)),
    decreases cs.len(),
{
    let ts = flat_tokens(m, acc, cs);
    if cs.len() == 0 {
        assert(m matches FlatMode::InGroup ==> ts =~= seq![TokenV::Digits(acc)]);
        assert(m matches FlatMode::AfterGroup ==> ts =~= Seq::<TokenV>::empty());
    } else {
        let c = cs[0];
        match m {
            FlatMode::BeforeFirst => {
                if is_digit_char(c) {
                    lemma_flat_tokens_shape(FlatMode::InGroup, digit_val(c), cs.skip(1));
                } else {
                    lemma_flat_tokens_shape(FlatMode::BeforeFirst, 0, cs.skip(1));
                }
            },
            FlatMode::InGroup => {
                if is_digit_char(c) {
                    lemma_flat_tokens_shape(FlatMode::InGroup, acc * 10 + digit_val(c), cs.skip(1));
                } else if c == '+' || c == '*' {
                    let tail = flat_tokens(FlatMode::AfterOp, 0, cs.skip(1));
                    lemma_flat_tokens_shape(FlatMode::AfterOp, 0, cs.skip(1));
                    let head = if c == '+' {
                        seq![TokenV::Digits(acc), TokenV::Plus]
                    } else {
                        seq![TokenV::Digits(acc), TokenV::Times]
                    };
                    assert(ts =~= head + tail);
                    assert(forall|i: int| 2 <= i < ts.len() ==> ts[i] == tail[i - 2]);
                    assert(is_flat_expr(ts));
                    assert(digits_in_range(ts));
                } else {
                    let tail = flat_tokens(FlatMode::AfterGroup, 0, cs.skip(1));
                    lemma_flat_tokens_shape(FlatMode::AfterGroup, 0, cs.skip(1));
                    assert(ts =~= seq![TokenV::Digits(acc)] + tail);
                    assert(forall|i: int| 1 <= i < ts.len() ==> ts[i] == tail[i - 1]);
                    assert(is_flat_expr(ts));
                    assert(digits_in_range(ts));
                }
            },
            FlatMode::AfterGroup => {
                if is_blank_char(c) {
                    lemma_flat_tokens_shape(FlatMode::AfterGroup, 0, cs.skip(1));
                } else {
                    let tail = flat_tokens(FlatMode::AfterOp, 0, cs.skip(1));
                    lemma_flat_tokens_shape(FlatMode::AfterOp, 0, cs.skip(1));
                    let head = if c == '+' {
                        seq![TokenV::Plus]
                    } else {
                        seq![TokenV::Times]
                    };
                    assert(ts =~= head + tail);
                    assert(forall|i: int| 1 <= i < ts.len() ==> ts[i] == tail[i - 1]);
                    assert(is_flat_rest(ts));
                    assert(digits_in_range(ts));
                }
            },
            FlatMode::AfterOp => {
                if is_digit_char(c) {
                    lemma_flat_tokens_shape(FlatMode::InGroup, digit_val(c), cs.skip(1));
                } else {
                    lemma_flat_tokens_shape(FlatMode::AfterOp, 0, cs.skip(1));
                }
            },
        }
    }
}

/// The parenthesis-free slice of the evaluator's correctness, end to end:
/// an input of digit groups separated by `+` and `*`, with blanks
/// anywhere between tokens and each group fitting in `i32`, evaluates to
/// the standard left-to-right value with `*` binding tighter than `+`;
/// where a combination leaves `i32`, the run ends in the overflow fault
/// rather than a silently wrong number.
pub proof fn lemma_flat_input_standard(cs: Seq<char>)
    requires
        flat_shape(FlatMode::BeforeFirst, cs),
        flat_groups_fit(FlatMode::BeforeFirst, 0, cs),
    ensures
        ({
            let ts = flat_tokens(FlatMode::BeforeFirst, 0, cs);
            eval_spec(cs) == (if flat_ok(None, None, digit_of(ts[0]), ts.skip(1)) {
                Ok::<int, Fault>(flat_val(None, None, digit_of(ts[0]), ts.skip(1)))
            } else {
                Err::<int, Fault>(Fault::Overflow)
            })
        }),
{
    let ts = flat_tokens(FlatMode::BeforeFirst, 0, cs);
    lemma_scan_flat(FlatMode::BeforeFirst, init_scanner(), init_parser(), cs);
    assert(pending_of(init_scanner()) + ts + seq![TokenV::Eof] =~= ts.push(TokenV::Eof));
    assert(eval_spec(cs) == parse_tokens(init_parser(), ts.push(TokenV::Eof)));
    lemma_flat_tokens_shape(FlatMode::BeforeFirst, 0, cs);
    lemma_flat_expression_correct(ts);
    assert(init_parser() =~= ParserV { values: Seq::empty(), states: seq![0int] });
}

/// A character the idle scanner skips without effect: whitespace and every
/// other character that starts no token.
pub open spec fn is_blank_char(c: char) -> bool {
    c != '(' && c != ')' && c != '+' && c != '*' && !is_digit_char(c) && !is_alpha_char(c)
}

/// The scanner state reached by feeding characters one by one, ignoring
/// the tokens that come out.
pub open spec fn scan_fold(sv: ScannerV, cs: Seq<char>) -> ScannerV
    decreases cs.len(),
{
    if cs.len() == 0 {
        sv
    } else {
        scan_fold(scan_step(sv, Some(cs[0])).1, cs.skip(1))
    }
}

/// The scanner state after reading a prefix of the input from the start.
pub open spec fn scanner_after(cs: Seq<char>) -> ScannerV {
    scan_fold(init_scanner(), cs)
}

/// One inserted blank changes nothing, provided it does not split a digit
/// or identifier run: the idle scanner skips it, a one-shot state emits
/// its token on any input, and a run that the next character would end
/// anyway ends at the blank instead, with the same buffer.
proof fn lemma_blank_step(sv: ScannerV, pv: ParserV, b: char, cs: Seq<char>)
    requires
        is_blank_char(b),
        !(sv.state == ScanState::DigitRun && cs.len() > 0 && is_digit_char(cs[0])),
        !(sv.state == ScanState::IdentRun && cs.len() > 0 && is_alnum_char(cs[0])),
    ensures
        run(sv, pv, seq![b] + cs, 2) == run(sv, pv, cs, 2),
{
    let bcs = seq![b] + cs;
    assert(bcs[0] == b);
    assert(bcs.skip(1) =~= cs);
    if sv.state == ScanState::Idle {
        assert(scan_step(sv, Some(b)).1 =~= sv);
    } else {
        let (tok_l, svl) = scan_step(sv, Some(b));
        let c0: Option<char> = if cs.len() > 0 {
            Some(cs[0])
        } else {
            None
        };
        let (tok_r, svr) = scan_step(sv, c0);
        assert(tok_l == tok_r);
        match tok_l {
            Err(_) => {},
            Ok(None) => {
                assert(false);
            },
            Ok(Some(t)) => {
                let (pv2, pr) = step_spec(pv, t);
                match pr {
                    Err(_) => {},
                    Ok(Some(_)) => {},
                    Ok(None) => {
                        if cs.len() > 0 {
                            // the blank left an idle scanner; the next
                            // character then classifies exactly as the
                            // re-classification on the right did
                            assert(scan_step(svl, c0).0 == Ok::<Option<TokenV>, Fault>(None));
                            assert(scan_step(svl, c0).1 =~= svr);
                            assert(run(svl, pv2, cs, 2) == run(svr, pv2, cs.skip(1), 2));
                        } else {
                            // both sides are idle with nothing left; the
                            // end-of-input token settles them alike
                            assert(svl =~= svr);
                            lemma_eof_step_answers(pv2);
                            assert(run(svl, pv2, cs, 2) == run(svr, pv2, cs, 1));
                        }
                    },
                }
            },
        }
    }
}

/// Concatenating a blank (whitespace or any other token-free character)
/// between tokens never changes the result: if the insertion point does
/// not split a digit or identifier run, the evaluation of the input with
/// the blank equals the evaluation without it, fault or value alike.
pub proof fn lemma_whitespace_insensitive(cs1: Seq<char>, b: char, cs2: Seq<char>)
    requires
        is_blank_char(b),
        !(scanner_after(cs1).state == ScanState::DigitRun && cs2.len() > 0 && is_digit_char(
            cs2[0],
        )),
        !(scanner_after(cs1).state == ScanState::IdentRun && cs2.len() > 0 && is_alnum_char(
            cs2[0],
        )),
    ensures
        eval_spec(cs1 + seq![b] + cs2) == eval_spec(cs1 + cs2),
{
    lemma_blank_insert_run(init_scanner(), init_parser(), cs1, b, cs2);
}

/// The generalization of [`lemma_whitespace_insensitive`] to a run from
/// any starting configuration: both runs walk the shared prefix in step,
/// then the inserted blank is absorbed by [`lemma_blank_step`].
proof fn lemma_blank_insert_run(sv: ScannerV, pv: ParserV, cs1: Seq<char>, b: char, cs2: Seq<char>)
    requires
        is_blank_char(b),
        !(scan_fold(sv, cs1).state == ScanState::DigitRun && cs2.len() > 0 && is_digit_char(
            cs2[0],
        )),
        !(scan_fold(sv, cs1).state == ScanState::IdentRun && cs2.len() > 0 && is_alnum_char(
            cs2[0],
        )),
    ensures
        run(sv, pv, cs1 + seq![b] + cs2, 2) == run(sv, pv, cs1 + cs2, 2),
    decreases cs1.len(),
{
    if cs1.len() == 0 {
        assert(cs1 + seq![b] + cs2 =~= seq![b] + cs2);
        assert(cs1 + cs2 =~= cs2);
        lemma_blank_step(sv, pv, b, cs2);
    } else {
        let c0 = cs1[0];
        let left = cs1 + seq![b] + cs2;
        let right = cs1 + cs2;
        assert(left[0] == c0);
        assert(right[0] == c0);
        assert(left.skip(1) =~= cs1.skip(1) + seq![b] + cs2);
        assert(right.skip(1) =~= cs1.skip(1) + cs2);
        let (tok_r, sv2) = scan_step(sv, Some(c0));
        assert(scan_fold(sv, cs1) == scan_fold(sv2, cs1.skip(1)));
        match tok_r {
            Err(_) => {},
            Ok(None) => {
                lemma_blank_insert_run(sv2, pv, cs1.skip(1), b, cs2);
            },
            Ok(Some(t)) => {
                let (pv2, pr) = step_spec(pv, t);
                match pr {
                    Err(_) => {},
                    Ok(Some(_)) => {},
                    Ok(None) => {
                        lemma_blank_insert_run(sv2, pv2, cs1.skip(1), b, cs2);
                    },
                }
            },
        }
    }
}

/// Evaluate an expression given as a string: scan it into tokens, parse
/// the tokens, and return the single resulting integer, or the fault that
/// stopped the run. The result is exactly what [`eval_spec`] says of the
/// string's characters.
pub fn eval(input: &str) -> (r: Result<i32, Fault>)
    ensures
        match r {
            Ok(v) => eval_spec(input@) == Ok::<int, Fault>(v as int),
            Err(f) => eval_spec(input@) == Err::<int, Fault>(f),
        },
{
    let len = input.unicode_len();
    let mut tokenizer = Tokenizer::new();
    let mut parser = Parser::new();
    let mut i: usize = 0;
    let mut eof_steps: u8 = 0;
    proof {
        assert(tokenizer@ == init_scanner());
        assert(parser@ == init_parser());
        assert(input@.skip(0) =~= input@);
    }
    loop
        invariant
            tokenizer@.wf(),
            parser@.wf(),
            len == input@.len(),
            i <= len,
            eof_steps <= 1,
            i < len ==> eof_steps == 0,
            eof_steps == 1 ==> tokenizer@.state == ScanState::Idle,
            eval_spec(input@) == run(
                tokenizer@,
                parser@,
                input@.skip(i as int),
                (2 - eof_steps) as nat,
            ),
        decreases len - i, 1 - eof_steps,
    {
        let ghost eof0 = eof_steps;
        let ghost sv0 = tokenizer@;
        let ghost pv0 = parser@;
        let ghost rest0: Seq<char> = input@.skip(i as int);
        let c: Option<char> = if i < len {
            Some(input.get_char(i))
        } else {
            None
        };
        proof {
            if i < len {
                assert(rest0.len() > 0);
                assert(rest0[0] == input@[i as int]);
                assert(rest0.skip(1) =~= input@.skip(i as int + 1));
            } else {
                assert(rest0.len() == 0);
            }
        }
        if i < len {
            i = i + 1;
        } else {
            eof_steps = eof_steps + 1;
        }
        match tokenizer.get_token(c) {
            Err(f) => {
                return Err(f);
            },
            Ok(None) => {
                proof {
                    if eof0 == 1 {
                        lemma_scan_idle_eof(sv0);
                        assert(false);
                    }
                    if c is None {
                        lemma_scan_none_idle(sv0);
                    }
                }
            },
            Ok(Some(tok)) => {
                match parser.parse(&tok) {
                    Err(f) => {
                        return Err(f);
                    },
                    Ok(Some(v)) => {
                        return Ok(v);
                    },
                    Ok(None) => {
                        proof {
                            if eof0 == 1 {
                                lemma_scan_idle_eof(sv0);
                                lemma_eof_step_answers(pv0);
                                assert(false);
                            }
                            if c is None {
                                lemma_scan_none_idle(sv0);
                            }
                        }
                    },
                }
            },
        }
    }
}

} // verus!
