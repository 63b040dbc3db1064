//! The tokenizer: one line of raw text becomes an ordered sequence of typed
//! tokens, laid out so that pushing them one by one onto the LIFO queue and
//! popping them one by one executes them in the line's left-to-right order
//! (the tokenizer reverses once; the queue's pop order reverses again).
//!
//! A fragment is a maximal run of non-space characters. A fragment that
//! reads as a signed 64-bit decimal integer (an optional sign, then one or
//! more digits, value in range) is a literal; `+ - * /` are the operators;
//! `q` and `Q` end the process. Any other fragment is a fatal parse error:
//! `get_input_tokens` reports it as `None`, and the caller is expected to
//! treat it as a crash of the owning actor.

use vstd::prelude::*;
use vstd::string::StrSliceExecFns;

use crate::operations::{Cmd, Operation};

verus! {

/// One typed token of an input line.
#[derive(Clone, Copy, PartialEq, Eq, Structural, Debug)]
pub enum Token {
    Literal(i64),
    Operation(Operation),
    Exit,
}

/// The command a token stands for once it is queued.
pub open spec fn cmd_of_token(t: Token) -> Cmd {
    match t {
        Token::Literal(v) => Cmd::InsertLiteral(v),
        Token::Operation(op) => match op {
            Operation::Add => Cmd::Add,
            Operation::Sub => Cmd::Sub,
            Operation::Mul => Cmd::Mul,
            Operation::Div => Cmd::Div,
        },
        Token::Exit => Cmd::Terminate,
    }
}

/// Converts one token into the command it stands for.
pub fn to_cmd(t: Token) -> (c: Cmd)
    ensures
        c == cmd_of_token(t),
{
    match t {
        Token::Literal(v) => Cmd::InsertLiteral(v),
        Token::Operation(op) => match op {
            Operation::Add => Cmd::Add,
            Operation::Sub => Cmd::Sub,
            Operation::Mul => Cmd::Mul,
            Operation::Div => Cmd::Div,
        },
        Token::Exit => Cmd::Terminate,
    }
}

/// The line with one trailing newline removed, if any.
pub open spec fn line_body(s: Seq<char>) -> Seq<char> {
    if s.len() > 0 && s.last() == '\n' {
        s.drop_last()
    } else {
        s
    }
}

/// The maximal runs of non-space characters of `s`, in order: splitting on
/// single spaces with empty fragments discarded.
pub open spec fn frags_of(s: Seq<char>) -> Seq<Seq<char>>
    decreases s.len(),
{
    if s.len() == 0 {
        Seq::empty()
    } else {
        let fr = frags_of(s.drop_last());
        let c = s.last();
        if c == ' ' {
            fr
        } else if s.len() == 1 || s[s.len() - 2] == ' ' {
            fr.push(seq![c])
        } else {
            fr.update(fr.len() - 1, fr.last().push(c))
        }
    }
}

pub open spec fn is_digit(c: char) -> bool {
    48 <= c as u32 <= 57
}

pub open spec fn digit_val(c: char) -> int {
    c as u32 - 48
}

pub open spec fn all_digits(s: Seq<char>) -> bool {
    forall|i: int| 0 <= i < s.len() ==> is_digit(#[trigger] s[i])
}

/// The value of a digit string, most significant digit first.
pub open spec fn digits_val(s: Seq<char>) -> int
    decreases s.len(),
{
    if s.len() == 0 {
        0
    } else {
        digits_val(s.drop_last()) * 10 + digit_val(s.last())
    }
}

/// The digit part of a fragment: everything after an optional leading sign.
pub open spec fn frag_digits(f: Seq<char>) -> Seq<char> {
    if f.len() > 0 && (f[0] == '+' || f[0] == '-') {
        f.drop_first()
    } else {
        f
    }
}

pub open spec fn frag_sign(f: Seq<char>) -> int {
    if f.len() > 0 && f[0] == '-' {
        -1
    } else {
        1
    }
}

/// Whether a fragment reads as a signed 64-bit decimal literal: an optional
/// sign, then at least one digit, with the signed value in `i64` range.
pub open spec fn is_literal_frag(f: Seq<char>) -> bool {
    &&& frag_digits(f).len() > 0
    &&& all_digits(frag_digits(f))
    &&& i64::MIN <= frag_sign(f) * digits_val(frag_digits(f)) <= i64::MAX
}

pub open spec fn literal_val(f: Seq<char>) -> int {
    frag_sign(f) * digits_val(frag_digits(f))
}

/// How one fragment is classified; `None` is the fatal parse error.
pub open spec fn frag_token(f: Seq<char>) -> Option<Token> {
    if is_literal_frag(f) {
        Some(Token::Literal(literal_val(f) as i64))
    } else if f.len() == 1 && f[0] == '+' {
        Some(Token::Operation(Operation::Add))
    } else if f.len() == 1 && f[0] == '-' {
        Some(Token::Operation(Operation::Sub))
    } else if f.len() == 1 && f[0] == '*' {
        Some(Token::Operation(Operation::Mul))
    } else if f.len() == 1 && f[0] == '/' {
        Some(Token::Operation(Operation::Div))
    } else if f.len() == 1 && (f[0] == 'q' || f[0] == 'Q') {
        Some(Token::Exit)
    } else {
        None
    }
}

/// Whether every fragment of the line classifies.
pub open spec fn line_valid(s: Seq<char>) -> bool {
    forall|k: int|
        0 <= k < frags_of(line_body(s)).len() ==> frag_token(
            #[trigger] frags_of(line_body(s))[k],
        ) is Some
}

/// The line's tokens in left-to-right fragment order (meaningful when
/// `line_valid(s)` holds).
pub open spec fn line_tokens(s: Seq<char>) -> Seq<Token> {
    frags_of(line_body(s)).map_values(|f: Seq<char>| frag_token(f).unwrap())
}

/// The line's commands in left-to-right fragment order.
pub open spec fn line_cmds(s: Seq<char>) -> Seq<Cmd> {
    line_tokens(s).map_values(|t: Token| cmd_of_token(t))
}

/// A digit string's value is never negative.
pub proof fn lemma_digits_val_nonneg(s: Seq<char>)
    requires
        all_digits(s),
    ensures
        digits_val(s) >= 0,
    decreases s.len(),
{
    if s.len() > 0 {
        lemma_digits_val_nonneg(s.drop_last());
    }
}

/// Extending a digit string never shrinks its value.
pub proof fn lemma_digits_val_mono(s: Seq<char>, k: int)
    requires
        all_digits(s),
        0 <= k <= s.len(),
    ensures
        digits_val(s.take(k)) <= digits_val(s),
    decreases s.len(),
{
    if k == s.len() {
        assert(s.take(k) =~= s);
    } else if s.len() > 0 {
        let p = s.drop_last();
        assert(s.take(k) =~= p.take(k));
        lemma_digits_val_mono(p, k);
        lemma_digits_val_nonneg(p);
    }
}

/// Reads a fragment as a signed 64-bit decimal literal, exactly as the
/// grammar of `is_literal_frag` has it: `Some` for each in-range literal and
/// `None` for everything else, including values outside the `i64` range.
pub fn parse_literal(frag: &Vec<char>) -> (r: Option<i64>)
    ensures
        r is Some <==> is_literal_frag(frag@),
        r matches Some(v) ==> v as int == literal_val(frag@),
{
    let n = frag.len();
    if n == 0 {
        return None;
    }
    let first = frag[0];
    let mut start: usize = 0;
    let mut neg = false;
    if first == '+' {
        start = 1;
    } else if first == '-' {
        start = 1;
        neg = true;
    }
    if start == n {
        // a bare sign has no digits
        return None;
    }
    let ghost digits = frag@.skip(start as int);
    proof {
        assert(digits =~= frag_digits(frag@));
        assert(digits.len() > 0);
    }
    // Accumulate the negated value, so that i64::MIN is reachable.
    let mut acc: i64 = 0;
    let mut j = start;
    while j < n
        invariant
            start <= j <= n,
            n == frag@.len(),
            digits == frag@.skip(start as int),
            digits == frag_digits(frag@),
            digits.len() > 0,
            all_digits(digits.take(j - start)),
            acc as int == -digits_val(digits.take(j - start)),
            acc <= 0,
        decreases n - j,
    {
        let c = frag[j];
        let code = c as u32;
        if code < 48 || code > 57 {
            proof {
                assert(!is_digit(digits[j - start]));
            }
            return None;
        }
        let d = (code - 48) as i64;
        let ghost taken = digits.take(j - start);
        let ghost taken1 = digits.take(j + 1 - start);
        proof {
            assert(taken1.drop_last() =~= taken);
            assert(taken1.last() == digits[j - start]);
            assert(digits_val(taken1) == digits_val(taken) * 10 + d);
        }
        let scaled = match acc.checked_mul(10) {
            Some(x) => x,
            None => {
                proof {
                    lemma_out_of_range(digits, j + 1 - start, frag@);
                }
                return None;
            },
        };
        acc = match scaled.checked_sub(d) {
            Some(y) => y,
            None => {
                proof {
                    lemma_out_of_range(digits, j + 1 - start, frag@);
                }
                return None;
            },
        };
        j = j + 1;
    }
    proof {
        assert(digits.take(n - start) =~= digits);
        lemma_digits_val_nonneg(digits);
    }
    if neg {
        Some(acc)
    } else {
        if acc == i64::MIN {
            // the magnitude is one past i64::MAX and the sign is positive
            return None;
        }
        Some(-acc)
    }
}

/// The helper for `parse_literal`'s overflow exits: once some digit prefix
/// of the fragment values past the 64-bit magnitude, the fragment is no
/// literal, whatever its sign.
proof fn lemma_out_of_range(digits: Seq<char>, k: int, f: Seq<char>)
    requires
        digits == frag_digits(f),
        0 <= k <= digits.len(),
        digits_val(digits.take(k)) > i64::MAX as int + 1,
    ensures
        !is_literal_frag(f),
{
    if all_digits(digits) {
        lemma_digits_val_mono(digits, k);
    }
}

/// Classifies one fragment, exactly as `frag_token` has it.
pub fn classify_fragment(frag: &Vec<char>) -> (r: Option<Token>)
    ensures
        r == frag_token(frag@),
{
    match parse_literal(frag) {
        Some(v) => Some(Token::Literal(v)),
        None => {
            if frag.len() == 1 {
                let c = frag[0];
                if c == '+' {
                    Some(Token::Operation(Operation::Add))
                } else if c == '-' {
                    Some(Token::Operation(Operation::Sub))
                } else if c == '*' {
                    Some(Token::Operation(Operation::Mul))
                } else if c == '/' {
                    Some(Token::Operation(Operation::Div))
                } else if c == 'q' || c == 'Q' {
                    Some(Token::Exit)
                } else {
                    None
                }
            } else {
                None
            }
        },
    }
}

/// Splits the body of the line into its fragments.
fn collect_fragments(line: &str) -> (frags: Vec<Vec<char>>)
    ensures
        frags.deep_view() == frags_of(line_body(line@)),
{
    let n = line.unicode_len();
    let m = if n > 0 && line.get_char(n - 1) == '\n' {
        n - 1
    } else {
        n
    };
    let ghost body = line@.take(m as int);
    proof {
        assert(line@.take(n as int) =~= line@);
        if m < n {
            assert(line@.drop_last() =~= line@.take(n as int - 1));
        }
        assert(body == line_body(line@));
    }
    let mut frags: Vec<Vec<char>> = Vec::new();
    let mut cur: Vec<char> = Vec::new();
    let mut i: usize = 0;
    while i < m
        invariant
            i <= m,
            m <= n,
            n == line@.len(),
            body == line@.take(m as int),
            cur@.len() == 0 ==> frags.deep_view() == frags_of(body.take(i as int)),
            cur@.len() == 0 ==> i == 0 || body[i - 1] == ' ',
            cur@.len() > 0 ==> i > 0 && body[i - 1] != ' ',
            cur@.len() > 0 ==> frags_of(body.take(i as int)) == frags.deep_view().push(cur@),
        decreases m - i,
    {
        let c = line.get_char(i);
        let ghost t1 = body.take(i + 1);
        proof {
            assert(t1.drop_last() =~= body.take(i as int));
            assert(t1.last() == body[i as int]);
            assert(body[i as int] == line@[i as int]);
        }
        if c == ' ' {
            if cur.len() > 0 {
                let ghost dv = frags.deep_view();
                let ghost cv = cur@;
                frags.push(cur);
                cur = Vec::new();
                proof {
                    assert(frags.deep_view() =~~= dv.push(cv));
                }
            }
        } else {
            let ghost dv = frags.deep_view();
            let ghost cv = cur@;
            cur.push(c);
            proof {
                if cv.len() == 0 {
                    assert(frags_of(t1) =~~= dv.push(cur@));
                } else {
                    assert(frags_of(body.take(i as int)) == dv.push(cv));
                    assert(frags_of(t1) =~~= dv.push(cv.push(body[i as int])));
                }
            }
        }
        i = i + 1;
    }
    proof {
        assert(body.take(m as int) =~= body);
    }
    if cur.len() > 0 {
        let ghost dv = frags.deep_view();
        let ghost cv = cur@;
        frags.push(cur);
        proof {
            assert(frags.deep_view() =~~= dv.push(cv));
        }
    }
    frags
}

/// Tokenizes one raw input line. `None` reports the fatal parse error: some
/// fragment is neither an in-range literal, an operator, nor `q`/`Q`. On
/// success the tokens come back reversed, ready to be pushed one by one onto
/// the LIFO queue so that the worker pops them in the line's own order.
pub fn get_input_tokens(line: &str) -> (r: Option<Vec<Token>>)
    ensures
        r is Some <==> line_valid(line@),
        r matches Some(tokens) ==> tokens@ == line_tokens(line@).reverse(),
{
    let frags = collect_fragments(line);
    let ghost fseq = frags_of(line_body(line@));
    let mut tokens: Vec<Token> = Vec::new();
    let mut j: usize = 0;
    while j < frags.len()
        invariant
            j <= frags@.len(),
            fseq == frags_of(line_body(line@)),
            frags.deep_view() == fseq,
            tokens@.len() == j,
            forall|k: int| 0 <= k < j ==> frag_token(fseq[k]) is Some,
            forall|k: int| 0 <= k < j ==> tokens@[k] == frag_token(fseq[k]).unwrap(),
        decreases frags@.len() - j,
    {
        proof {
            assert(frags@[j as int]@ =~= fseq[j as int]);
        }
        let t = match classify_fragment(&frags[j]) {
            Some(t) => t,
            None => {
                proof {
                    assert(!line_valid(line@)) by {
                        assert(frag_token(frags_of(line_body(line@))[j as int]) is None);
                    }
                }
                return None;
            },
        };
        tokens.push(t);
        j = j + 1;
    }
    proof {
        assert(tokens@ =~= line_tokens(line@));
    }
    let mut rev: Vec<Token> = Vec::new();
    let mut k = tokens.len();
    while k > 0
        invariant
            k <= tokens@.len(),
            rev@.len() == tokens@.len() - k,
            forall|idx: int|
                0 <= idx < rev@.len() ==> rev@[idx] == tokens@[tokens@.len() - 1 - idx],
        decreases k,
    {
        k = k - 1;
        rev.push(tokens[k]);
    }
    proof {
        assert(rev@ =~= tokens@.reverse());
    }
    Some(rev)
}

} // verus!
