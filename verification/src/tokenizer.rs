//! The lexical scanner: a character-classification automaton with an
//! accumulation buffer. Each call of [`Tokenizer::get_token`] consumes one
//! optional character and either emits a token or asks for the next
//! character; the exact behaviour of one call is the spec function
//! [`scan_step`].

use vstd::prelude::*;
use crate::token::{Fault, Token, TokenClass, TokenV};

verus! {

/// Position in the character-classification automaton. `Idle` is the start
/// state. The four one-shot states emit their token on the next input,
/// whatever it is; the two run states accumulate characters until one
/// arrives that does not extend the run.
#[derive(Debug, Clone, Copy, PartialEq, Eq, Structural)]
pub enum ScanState {
    Idle,
    OpenParen,
    CloseParen,
    PlusSign,
    TimesSign,
    DigitRun,
    IdentRun,
}

/// An ASCII decimal digit.
pub open spec fn is_digit_char(c: char) -> bool {
    48 <= c as u32 && c as u32 <= 57
}

/// An ASCII letter.
pub open spec fn is_alpha_char(c: char) -> bool {
    (65 <= c as u32 && c as u32 <= 90) || (97 <= c as u32 && c as u32 <= 122)
}

/// An ASCII letter or digit.
pub open spec fn is_alnum_char(c: char) -> bool {
    is_digit_char(c) || is_alpha_char(c)
}

/// The numeric value of one digit character.
pub open spec fn digit_val(c: char) -> int {
    c as u32 - 48
}

/// The value of a digit run read as a decimal numeral.
pub open spec fn num_val(s: Seq<char>) -> int
    decreases s.len(),
{
    if s.len() == 0 {
        0
    } else {
        num_val(s.drop_last()) * 10 + digit_val(s.last())
    }
}

/// One row of the classification table: which kind of token is emitted (if
/// any), the next automaton state, and whether the character is appended to
/// the accumulation buffer. A pure function of the state and the character.
pub open spec fn spec_classify(st: ScanState, c: Option<char>) -> (Option<TokenClass>, ScanState, bool) {
    match st {
        ScanState::Idle => match c {
            None => (Some(TokenClass::Eof), ScanState::Idle, false),
            Some(ch) => if ch == '(' {
                (None, ScanState::OpenParen, true)
            } else if ch == ')' {
                (None, ScanState::CloseParen, true)
            } else if ch == '+' {
                (None, ScanState::PlusSign, true)
            } else if ch == '*' {
                (None, ScanState::TimesSign, true)
            } else if is_digit_char(ch) {
                (None, ScanState::DigitRun, true)
            } else if is_alpha_char(ch) {
                (None, ScanState::IdentRun, true)
            } else {
                (None, ScanState::Idle, false)
            },
        },
        ScanState::OpenParen => (Some(TokenClass::LParen), ScanState::Idle, false),
        ScanState::CloseParen => (Some(TokenClass::RParen), ScanState::Idle, false),
        ScanState::PlusSign => (Some(TokenClass::Plus), ScanState::Idle, false),
        ScanState::TimesSign => (Some(TokenClass::Times), ScanState::Idle, false),
        ScanState::DigitRun => match c {
            Some(ch) => if is_digit_char(ch) {
                (None, ScanState::DigitRun, true)
            } else {
                (Some(TokenClass::Digits), ScanState::Idle, false)
            },
            None => (Some(TokenClass::Digits), ScanState::Idle, false),
        },
        ScanState::IdentRun => match c {
            Some(ch) => if is_alnum_char(ch) {
                (None, ScanState::IdentRun, true)
            } else {
                (Some(TokenClass::Id), ScanState::Idle, false)
            },
            None => (Some(TokenClass::Id), ScanState::Idle, false),
        },
    }
}

/// Mathematical image of a scanner: its automaton state and the characters
/// accumulated for the token currently being read.
#[verifier::ext_equal]
pub struct ScannerV {
    pub state: ScanState,
    pub buf: Seq<char>,
}

impl ScannerV {
    /// Well-formedness: a run state holds at least the character that opened
    /// the run, and only characters that belong to the run.
    pub open spec fn wf(self) -> bool {
        &&& (self.state == ScanState::Idle ==> self.buf.len() == 0)
        &&& (self.state == ScanState::DigitRun ==> self.buf.len() >= 1 && (forall|i: int|
            0 <= i < self.buf.len() ==> is_digit_char(#[trigger] self.buf[i])))
        &&& (self.state == ScanState::IdentRun ==> self.buf.len() >= 1 && (forall|i: int|
            0 <= i < self.buf.len() ==> is_alnum_char(#[trigger] self.buf[i])))
    }
}

/// What one `get_token` call does: classify the character against the
/// current state; with no emission, move to the next state and extend the
/// buffer as the table says. On an emission, build the token from the
/// buffer (a digit run that does not fit in `i32` is an overflow fault),
/// then re-classify the same character against the idle state: the
/// character that ends a run belongs to the next token, not to the one
/// being emitted.
pub open spec fn scan_step(sv: ScannerV, c: Option<char>) -> (Result<Option<TokenV>, Fault>, ScannerV) {
    let (emit, st1, store1) = spec_classify(sv.state, c);
    match emit {
        None => {
            let buf1 = match c {
                Some(ch) => if store1 {
                    sv.buf.push(ch)
                } else {
                    sv.buf
                },
                None => sv.buf,
            };
            (Ok(None), ScannerV { state: st1, buf: buf1 })
        },
        Some(k) => {
            let (e2, st2, store2) = spec_classify(ScanState::Idle, c);
            let buf2 = match c {
                Some(ch) => if store2 {
                    seq![ch]
                } else {
                    Seq::empty()
                },
                None => Seq::empty(),
            };
            let sv2 = ScannerV { state: st2, buf: buf2 };
            let tok = match k {
                TokenClass::LParen => Ok(Some(TokenV::LParen)),
                TokenClass::RParen => Ok(Some(TokenV::RParen)),
                TokenClass::Plus => Ok(Some(TokenV::Plus)),
                TokenClass::Times => Ok(Some(TokenV::Times)),
                TokenClass::Eof => Ok(Some(TokenV::Eof)),
                TokenClass::Digits => if num_val(sv.buf) <= i32::MAX {
                    Ok(Some(TokenV::Digits(num_val(sv.buf))))
                } else {
                    Err(Fault::Overflow)
                },
                TokenClass::Id => Ok(Some(TokenV::Id(sv.buf))),
            };
            (tok, sv2)
        },
    }
}

/// The image of a `get_token` result beside the image of a spec step.
pub open spec fn token_res_view(r: Result<Option<Token>, Fault>) -> Result<Option<TokenV>, Fault> {
    match r {
        Ok(None) => Ok(None),
        Ok(Some(t)) => Ok(Some(t@)),
        Err(f) => Err(f),
    }
}

/// The character-level scanner. Feed it one character at a time with
/// [`Tokenizer::get_token`], then `None` once the input is exhausted.
pub struct Tokenizer {
    state: ScanState,
    token_str: Vec<char>,
}

impl View for Tokenizer {
    type V = ScannerV;

    closed spec fn view(&self) -> ScannerV {
        ScannerV { state: self.state, buf: self.token_str@ }
    }
}

/// Digit runs only grow their value: a prefix of a digit run never exceeds
/// the whole run.
proof fn lemma_num_val_prefix(s: Seq<char>, i: int)
    requires
        0 <= i <= s.len(),
        forall|j: int| 0 <= j < s.len() ==> is_digit_char(#[trigger] s[j]),
    ensures
        0 <= num_val(s.take(i)),
        num_val(s.take(i)) <= num_val(s),
    decreases s.len() - i,
{
    if i == s.len() {
        assert(s.take(i) =~= s);
        lemma_num_val_nonneg(s);
    } else {
        lemma_num_val_prefix(s, i + 1);
        assert(s.take(i + 1).drop_last() =~= s.take(i));
        assert(s.take(i + 1).last() == s[i]);
        lemma_num_val_nonneg(s.take(i));
    }
}

/// A run of digit characters has a non-negative value.
proof fn lemma_num_val_nonneg(s: Seq<char>)
    requires
        forall|j: int| 0 <= j < s.len() ==> is_digit_char(#[trigger] s[j]),
    ensures
        num_val(s) >= 0,
    decreases s.len(),
{
    if s.len() > 0 {
        lemma_num_val_nonneg(s.drop_last());
    }
}

/// The value of a digit run, or `None` where it does not fit in `i32`.
fn digits_to_i32(s: &Vec<char>) -> (r: Option<i32>)
    requires
        forall|j: int| 0 <= j < s@.len() ==> is_digit_char(#[trigger] s@[j]),
    ensures
        match r {
            Some(v) => num_val(s@) <= i32::MAX && v as int == num_val(s@),
            None => num_val(s@) > i32::MAX,
        },
{
    let mut v: i32 = 0;
    let mut i: usize = 0;
    while i < s.len()
        invariant
            0 <= i <= s@.len(),
            forall|j: int| 0 <= j < s@.len() ==> is_digit_char(#[trigger] s@[j]),
            0 <= v,
            v as int == num_val(s@.take(i as int)),
        decreases s@.len() - i,
    {
        let c = s[i];
        let d: i32 = ((c as u32) - 48) as i32;
        let v10 = match v.checked_mul(10) {
            Some(x) => x,
            None => {
                proof {
                    assert(num_val(s@.take(i as int + 1)) > i32::MAX) by {
                        assert(s@.take(i as int + 1).drop_last() =~= s@.take(i as int));
                        lemma_num_val_nonneg(s@.take(i as int));
                    };
                    lemma_num_val_prefix(s@, i as int + 1);
                }
                return None;
            },
        };
        let v1 = match v10.checked_add(d) {
            Some(x) => x,
            None => {
                proof {
                    assert(num_val(s@.take(i as int + 1)) > i32::MAX) by {
                        assert(s@.take(i as int + 1).drop_last() =~= s@.take(i as int));
                    };
                    lemma_num_val_prefix(s@, i as int + 1);
                }
                return None;
            },
        };
        proof {
            assert(s@.take(i as int + 1).drop_last() =~= s@.take(i as int));
        }
        v = v1;
        i = i + 1;
    }
    proof {
        assert(s@.take(i as int) =~= s@);
    }
    Some(v)
}

/// An element-wise copy of a character vector.
fn clone_chars(s: &Vec<char>) -> (r: Vec<char>)
    ensures
        r@ == s@,
{
    let mut r: Vec<char> = Vec::new();
    let mut i: usize = 0;
    while i < s.len()
        invariant
            0 <= i <= s@.len(),
            r@ == s@.take(i as int),
        decreases s@.len() - i,
    {
        r.push(s[i]);
        proof {
            assert(s@.take(i as int).push(s@[i as int]) =~= s@.take(i as int + 1));
        }
        i = i + 1;
    }
    proof {
        assert(s@.take(i as int) =~= s@);
    }
    r
}

impl Tokenizer {
    /// A scanner in the idle state with an empty buffer.
    pub fn new() -> (t: Tokenizer)
        ensures
            t@.state == ScanState::Idle,
            t@.buf == Seq::<char>::empty(),
            t@.wf(),
    {
        let t = Tokenizer { state: ScanState::Idle, token_str: Vec::new() };
        proof {
            assert(t@.buf =~= Seq::<char>::empty());
        }
        t
    }

    /// One row of the classification table, keyed on the current state and
    /// the character: which kind of token completes (if any), the next
    /// state, and whether the character joins the buffer.
    pub fn lookup(&self, c: Option<char>) -> (r: (Option<TokenClass>, ScanState, bool))
        ensures
            r == spec_classify(self@.state, c),
    {
        match (self.state, c) {
            (ScanState::Idle, None) => (Some(TokenClass::Eof), ScanState::Idle, false),
            (ScanState::Idle, Some(ch)) => {
                if ch == '(' {
                    (None, ScanState::OpenParen, true)
                } else if ch == ')' {
                    (None, ScanState::CloseParen, true)
                } else if ch == '+' {
                    (None, ScanState::PlusSign, true)
                } else if ch == '*' {
                    (None, ScanState::TimesSign, true)
                } else {
                    let u = ch as u32;
                    if 48 <= u && u <= 57 {
                        (None, ScanState::DigitRun, true)
                    } else if (65 <= u && u <= 90) || (97 <= u && u <= 122) {
                        (None, ScanState::IdentRun, true)
                    } else {
                        (None, ScanState::Idle, false)
                    }
                }
            },
            (ScanState::OpenParen, _) => (Some(TokenClass::LParen), ScanState::Idle, false),
            (ScanState::CloseParen, _) => (Some(TokenClass::RParen), ScanState::Idle, false),
            (ScanState::PlusSign, _) => (Some(TokenClass::Plus), ScanState::Idle, false),
            (ScanState::TimesSign, _) => (Some(TokenClass::Times), ScanState::Idle, false),
            (ScanState::DigitRun, Some(ch)) => {
                let u = ch as u32;
                if 48 <= u && u <= 57 {
                    (None, ScanState::DigitRun, true)
                } else {
                    (Some(TokenClass::Digits), ScanState::Idle, false)
                }
            },
            (ScanState::DigitRun, None) => (Some(TokenClass::Digits), ScanState::Idle, false),
            (ScanState::IdentRun, Some(ch)) => {
                let u = ch as u32;
                if (48 <= u && u <= 57) || (65 <= u && u <= 90) || (97 <= u && u <= 122) {
                    (None, ScanState::IdentRun, true)
                } else {
                    (Some(TokenClass::Id), ScanState::Idle, false)
                }
            },
            (ScanState::IdentRun, None) => (Some(TokenClass::Id), ScanState::Idle, false),
        }
    }

    /// Feed one character (`None` for end of input). Returns the token that
    /// this character completes, if any; `Err` where a digit run does not
    /// fit in `i32`. The call behaves exactly as [`scan_step`] says.
    pub fn get_token(&mut self, c: Option<char>) -> (r: Result<Option<Token>, Fault>)
        requires
            old(self)@.wf(),
        ensures
            final(self)@.wf(),
            final(self)@ == scan_step(old(self)@, c).1,
            token_res_view(r) == scan_step(old(self)@, c).0,
    {
        let (emit, st1, store1) = self.lookup(c);
        self.state = st1;
        match emit {
            None => {
                if store1 {
                    if let Some(ch) = c {
                        self.token_str.push(ch);
                    }
                }
                Ok(None)
            },
            Some(k) => {
                let tok: Result<Token, Fault> = match k {
                    TokenClass::LParen => Ok(Token::LParen),
                    TokenClass::RParen => Ok(Token::RParen),
                    TokenClass::Plus => Ok(Token::Plus),
                    TokenClass::Times => Ok(Token::Times),
                    TokenClass::Eof => Ok(Token::Eof),
                    TokenClass::Digits => match digits_to_i32(&self.token_str) {
                        Some(n) => Ok(Token::Digits(n)),
                        None => Err(Fault::Overflow),
                    },
                    TokenClass::Id => Ok(Token::Id(clone_chars(&self.token_str))),
                };
                self.token_str = Vec::new();
                let (_e2, st2, store2) = self.lookup(c);
                self.state = st2;
                if store2 {
                    if let Some(ch) = c {
                        self.token_str.push(ch);
                    }
                }
                proof {
                    if self.token_str@.len() == 0 {
                        assert(self.token_str@ =~= Seq::<char>::empty());
                    }
                }
                match tok {
                    Ok(t) => Ok(Some(t)),
                    Err(f) => Err(f),
                }
            },
        }
    }
}

/// The scanner's classification is a pure function of the automaton state
/// and the character fed to it: two scanners in the same state classify
/// every character alike, whatever their buffers hold and however they got
/// there. There is no hidden history.
pub proof fn lemma_classification_stateless(t1: Tokenizer, t2: Tokenizer, c: Option<char>)
    requires
        t1@.state == t2@.state,
    ensures
        spec_classify(t1@.state, c) == spec_classify(t2@.state, c),
{
}

} // verus!
