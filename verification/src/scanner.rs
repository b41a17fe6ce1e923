use crate::engine::{
    drain_run, eval_step, lemma_drain_done_out, lemma_eval_step_no_limit, Drained, Engine,
    MachineView,
};
use crate::error::PsError;
use crate::object::{Object, ObjectView};
use crate::proc_builder::{builder_push, ProcBuilder};
use crate::stack::in_i64;
use crate::token::{object_of, Token, TokenView};
use vstd::prelude::*;
use vstd::string::StrSliceExecFns;

verus! {

/// The blank characters the scanner skips between tokens.
pub open spec fn is_space(c: char) -> bool {
    c == ' ' || c == '\t' || c == '\n' || c == '\u{c}'
}

/// A decimal digit.
pub open spec fn is_digit(c: char) -> bool {
    '0' <= c && c <= '9'
}

/// An ASCII letter, the only way an identifier may start.
pub open spec fn is_letter(c: char) -> bool {
    ('a' <= c && c <= 'z') || ('A' <= c && c <= 'Z')
}

/// A character that may continue an identifier.
pub open spec fn is_ident_char(c: char) -> bool {
    is_letter(c) || is_digit(c) || c == '_' || c == '-'
}

/// The first position at or after `i` that holds neither blank space nor
/// part of a `%` line comment.
pub open spec fn skip_from(s: Seq<char>, i: int, in_comment: bool) -> int
    decreases s.len() - i,
{
    if !(0 <= i < s.len()) {
        i
    } else if in_comment {
        if s[i] == '\n' {
            skip_from(s, i + 1, false)
        } else {
            skip_from(s, i + 1, true)
        }
    } else if is_space(s[i]) {
        skip_from(s, i + 1, false)
    } else if s[i] == '%' {
        skip_from(s, i + 1, true)
    } else {
        i
    }
}

/// The end of the identifier-character run starting at `i`.
pub open spec fn ident_end(s: Seq<char>, i: int) -> int
    decreases s.len() - i,
{
    if 0 <= i < s.len() && is_ident_char(s[i]) {
        ident_end(s, i + 1)
    } else {
        i
    }
}

/// The end of the digit run starting at `i`.
pub open spec fn digits_end(s: Seq<char>, i: int) -> int
    decreases s.len() - i,
{
    if 0 <= i < s.len() && is_digit(s[i]) {
        digits_end(s, i + 1)
    } else {
        i
    }
}

/// The numeric value of one digit character.
pub open spec fn digit_val(c: char) -> int {
    c as int - '0' as int
}

/// The value of a digit string, most significant digit first.
pub open spec fn dec_val(s: Seq<char>) -> int
    decreases s.len(),
{
    if s.len() == 0 {
        0
    } else {
        dec_val(s.drop_last()) * 10 + digit_val(s.last())
    }
}

/// One step of the scanner, as mathematics: the end of the blanks, one
/// token and where it ends, or the position of an unrecognizable byte.
pub enum ScanStepView {
    Done(int),
    Tok(TokenView, int),
    Fail(int),
}

/// One step of the scanner.
pub enum ScanStep {
    /// Only blanks and comments remain.
    Done(usize),
    /// The next token, and the position right after it.
    Tok(Token, usize),
    /// No token class matches at this position.
    Fail(usize),
}

impl View for ScanStep {
    type V = ScanStepView;

    open spec fn view(&self) -> ScanStepView {
        match self {
            ScanStep::Done(e) => ScanStepView::Done(*e as int),
            ScanStep::Tok(t, e) => ScanStepView::Tok(t@, *e as int),
            ScanStep::Fail(p) => ScanStepView::Fail(*p as int),
        }
    }
}

/// What the scanner finds at `pos`: blanks and comments are skipped,
/// then the classes are tried in their priority order, each taking the
/// longest run it can.
pub open spec fn spec_scan(s: Seq<char>, pos: int) -> ScanStepView {
    let i = skip_from(s, pos, false);
    if !(i < s.len()) {
        ScanStepView::Done(i)
    } else {
        let c = s[i];
        if c == '{' {
            ScanStepView::Tok(TokenView::BeginProc, i + 1)
        } else if c == '}' {
            ScanStepView::Tok(TokenView::EndProc, i + 1)
        } else if c == '[' {
            ScanStepView::Tok(TokenView::Mark, i + 1)
        } else if c == ']' {
            ScanStepView::Tok(TokenView::ExeName("]"@), i + 1)
        } else if c == '<' {
            if i + 1 < s.len() && s[i + 1] == '<' {
                ScanStepView::Tok(TokenView::Mark, i + 2)
            } else {
                ScanStepView::Fail(i)
            }
        } else if c == '>' {
            if i + 1 < s.len() && s[i + 1] == '>' {
                ScanStepView::Tok(TokenView::ExeName(">>"@), i + 2)
            } else {
                ScanStepView::Fail(i)
            }
        } else if c == '=' {
            if i + 1 < s.len() && s[i + 1] == '=' {
                ScanStepView::Tok(TokenView::ExeName("=="@), i + 2)
            } else {
                ScanStepView::Tok(TokenView::ExeName("="@), i + 1)
            }
        } else if c == '/' {
            if i + 1 < s.len() && s[i + 1] == '/' {
                if i + 2 < s.len() && is_letter(s[i + 2]) {
                    let e = ident_end(s, i + 3);
                    ScanStepView::Tok(TokenView::ImmName(s.subrange(i + 2, e)), e)
                } else {
                    ScanStepView::Fail(i)
                }
            } else if i + 1 < s.len() && is_letter(s[i + 1]) {
                let e = ident_end(s, i + 2);
                ScanStepView::Tok(TokenView::LitName(s.subrange(i + 1, e)), e)
            } else {
                ScanStepView::Fail(i)
            }
        } else if is_letter(c) {
            let e = ident_end(s, i);
            let w = s.subrange(i, e);
            if w == "true"@ {
                ScanStepView::Tok(TokenView::Bool(true), e)
            } else if w == "false"@ {
                ScanStepView::Tok(TokenView::Bool(false), e)
            } else if w == "mark"@ {
                ScanStepView::Tok(TokenView::Mark, e)
            } else {
                ScanStepView::Tok(TokenView::ExeName(w), e)
            }
        } else if c == '+' || c == '-' || c == '.' || is_digit(c) {
            spec_scan_number(s, i)
        } else {
            ScanStepView::Fail(i)
        }
    }
}

/// A numeric literal at `i`: an optional sign, then either digits with
/// an optional fraction (a real), or digits alone (an integer that must
/// fit the machine range), or a bare fraction (a real).
pub open spec fn spec_scan_number(s: Seq<char>, i: int) -> ScanStepView {
    let q = if s[i] == '+' || s[i] == '-' {
        i + 1
    } else {
        i
    };
    let d1 = digits_end(s, q);
    if d1 > q {
        if d1 < s.len() && s[d1] == '.' {
            let d2 = digits_end(s, d1 + 1);
            ScanStepView::Tok(TokenView::Real(s.subrange(i, d2)), d2)
        } else {
            let v = if s[i] == '-' {
                -dec_val(s.subrange(q, d1))
            } else {
                dec_val(s.subrange(q, d1))
            };
            if in_i64(v) {
                ScanStepView::Tok(TokenView::Integer(v), d1)
            } else {
                ScanStepView::Fail(i)
            }
        }
    } else if q < s.len() && s[q] == '.' {
        let d2 = digits_end(s, q + 1);
        if d2 > q + 1 {
            ScanStepView::Tok(TokenView::Real(s.subrange(i, d2)), d2)
        } else {
            ScanStepView::Fail(i)
        }
    } else {
        ScanStepView::Fail(i)
    }
}

/// The skip never moves backward nor past the end.
pub proof fn lemma_skip_bounds(s: Seq<char>, i: int, in_comment: bool)
    requires
        0 <= i <= s.len(),
    ensures
        i <= skip_from(s, i, in_comment) <= s.len(),
    decreases s.len() - i,
{
    if i < s.len() {
        lemma_skip_bounds(s, i + 1, false);
        lemma_skip_bounds(s, i + 1, true);
    }
}

/// An identifier run never moves backward nor past the end.
pub proof fn lemma_ident_end_bounds(s: Seq<char>, i: int)
    requires
        0 <= i <= s.len(),
    ensures
        i <= ident_end(s, i) <= s.len(),
    decreases s.len() - i,
{
    if i < s.len() && is_ident_char(s[i]) {
        lemma_ident_end_bounds(s, i + 1);
    }
}

/// A digit run never moves backward nor past the end.
pub proof fn lemma_digits_end_bounds(s: Seq<char>, i: int)
    requires
        0 <= i <= s.len(),
    ensures
        i <= digits_end(s, i) <= s.len(),
    decreases s.len() - i,
{
    if i < s.len() && is_digit(s[i]) {
        lemma_digits_end_bounds(s, i + 1);
    }
}

/// Every digit of the run is a digit.
pub proof fn lemma_digits_end_digits(s: Seq<char>, i: int, j: int)
    requires
        0 <= i <= j < digits_end(s, i),
        i <= s.len(),
    ensures
        j < s.len() && is_digit(s[j]),
    decreases s.len() - i,
{
    lemma_digits_end_bounds(s, i);
    if i < s.len() && is_digit(s[i]) {
        if j > i {
            lemma_digits_end_bounds(s, i + 1);
            lemma_digits_end_digits(s, i + 1, j);
        }
    }
}

/// The value of a digit string is never negative.
pub proof fn lemma_dec_val_nonneg(s: Seq<char>)
    requires
        forall|k: int| 0 <= k < s.len() ==> is_digit(#[trigger] s[k]),
    ensures
        dec_val(s) >= 0,
    decreases s.len(),
{
    if s.len() > 0 {
        lemma_dec_val_nonneg(s.drop_last());
    }
}

/// A scanner step stays within the text, and a token takes at least one
/// character.
pub proof fn lemma_scan_bounds(s: Seq<char>, pos: int)
    requires
        0 <= pos <= s.len(),
    ensures
        match spec_scan(s, pos) {
            ScanStepView::Done(e) => pos <= e <= s.len(),
            ScanStepView::Tok(_t, e) => pos < e <= s.len(),
            ScanStepView::Fail(p) => pos <= p <= s.len(),
        },
{
    lemma_skip_bounds(s, pos, false);
    let i = skip_from(s, pos, false);
    if i < s.len() {
        lemma_ident_end_bounds(s, i);
        if i + 1 <= s.len() {
            lemma_ident_end_bounds(s, i + 1);
            lemma_digits_end_bounds(s, i + 1);
        }
        if i + 2 <= s.len() {
            lemma_ident_end_bounds(s, i + 2);
        }
        if i + 3 <= s.len() {
            lemma_ident_end_bounds(s, i + 3);
        }
        lemma_digits_end_bounds(s, i);
        let c = s[i];
        if c == '+' || c == '-' || c == '.' || is_digit(c) {
            let q = if s[i] == '+' || s[i] == '-' {
                i + 1
            } else {
                i
            };
            lemma_digits_end_bounds(s, q);
            let d1 = digits_end(s, q);
            if d1 < s.len() {
                lemma_digits_end_bounds(s, d1 + 1);
            }
            if q < s.len() {
                lemma_digits_end_bounds(s, q + 1);
            }
        }
    }
}

/// Finds the end of the blanks and comments at `pos`.
fn skip_blanks(src: &str, pos: usize) -> (r: usize)
    requires
        pos <= src@.len(),
    ensures
        r == skip_from(src@, pos as int, false),
        pos <= r <= src@.len(),
{
    let n = src.unicode_len();
    let mut i = pos;
    let mut com = false;
    loop
        invariant
            pos <= i <= n,
            n == src@.len(),
            skip_from(src@, pos as int, false) == skip_from(src@, i as int, com),
        decreases n - i,
    {
        if i >= n {
            return i;
        }
        let c = src.get_char(i);
        if com {
            if c == '\n' {
                com = false;
            }
            i = i + 1;
        } else if c == ' ' || c == '\t' || c == '\n' || c == '\u{c}' {
            i = i + 1;
        } else if c == '%' {
            com = true;
            i = i + 1;
        } else {
            return i;
        }
    }
}

/// Finds the end of the identifier run at `i`.
fn scan_ident_end(src: &str, start: usize) -> (r: usize)
    requires
        start <= src@.len(),
    ensures
        r == ident_end(src@, start as int),
        start <= r <= src@.len(),
{
    let n = src.unicode_len();
    let mut i = start;
    loop
        invariant
            start <= i <= n,
            n == src@.len(),
            ident_end(src@, start as int) == ident_end(src@, i as int),
        decreases n - i,
    {
        if i >= n {
            return i;
        }
        let c = src.get_char(i);
        let ok = (c >= 'a' && c <= 'z') || (c >= 'A' && c <= 'Z') || (c >= '0' && c <= '9') || c
            == '_' || c == '-';
        if ok {
            i = i + 1;
        } else {
            return i;
        }
    }
}

/// Finds the end of the digit run at `i`.
fn scan_digits_end(src: &str, start: usize) -> (r: usize)
    requires
        start <= src@.len(),
    ensures
        r == digits_end(src@, start as int),
        start <= r <= src@.len(),
{
    let n = src.unicode_len();
    let mut i = start;
    loop
        invariant
            start <= i <= n,
            n == src@.len(),
            digits_end(src@, start as int) == digits_end(src@, i as int),
        decreases n - i,
    {
        if i >= n {
            return i;
        }
        let c = src.get_char(i);
        if c >= '0' && c <= '9' {
            i = i + 1;
        } else {
            return i;
        }
    }
}

/// Takes a copy of the characters `from..to` of the text.
fn slice_text(src: &str, from: usize, to: usize) -> (r: String)
    requires
        from <= to <= src@.len(),
    ensures
        r@ == src@.subrange(from as int, to as int),
{
    let piece = src.substring_char(from, to);
    piece.to_owned()
}

/// The magnitude of the digit run `q..d1`, when it fits a machine word.
fn digits_value(src: &str, q: usize, d1: usize) -> (r: Option<u64>)
    requires
        q <= d1 <= src@.len(),
        forall|k: int| q <= k < d1 ==> is_digit(#[trigger] src@[k]),
    ensures
        match r {
            Some(m) => m as int == dec_val(src@.subrange(q as int, d1 as int)),
            None => dec_val(src@.subrange(q as int, d1 as int)) > u64::MAX as int,
        },
{
    let mut mag: u64 = 0;
    let mut j = q;
    let mut over = false;
    proof {
        assert(src@.subrange(q as int, q as int) =~= Seq::<char>::empty());
    }
    while j < d1
        invariant
            q <= j <= d1 <= src@.len(),
            forall|k: int| q <= k < d1 ==> is_digit(#[trigger] src@[k]),
            !over ==> mag as int == dec_val(src@.subrange(q as int, j as int)),
            over ==> dec_val(src@.subrange(q as int, j as int)) > u64::MAX as int,
        decreases d1 - j,
    {
        let c = src.get_char(j);
        let d: u64 = (c as u32 as u64) - ('0' as u32 as u64);
        let ghost prefix = src@.subrange(q as int, j as int);
        let ghost extended = src@.subrange(q as int, j + 1);
        proof {
            assert(extended.drop_last() =~= prefix);
            assert(extended.last() == src@[j as int]);
            assert(is_digit(src@[j as int]));
            assert(d as int == digit_val(src@[j as int]));
            lemma_dec_val_nonneg(prefix);
        }
        if over {
            proof {
                assert(dec_val(extended) == dec_val(prefix) * 10 + digit_val(extended.last()));
                assert(dec_val(prefix) * 10 >= dec_val(prefix)) by (nonlinear_arith)
                    requires
                        dec_val(prefix) > u64::MAX as int,
                ;
            }
        } else {
            let m10 = mag.checked_mul(10);
            match m10 {
                Some(m) => {
                    let madd = m.checked_add(d);
                    match madd {
                        Some(m2) => {
                            mag = m2;
                        }
                        None => {
                            over = true;
                        }
                    }
                }
                None => {
                    proof {
                        assert(dec_val(extended) == dec_val(prefix) * 10 + digit_val(
                            extended.last(),
                        ));
                    }
                    over = true;
                }
            }
        }
        j = j + 1;
    }
    if over {
        None
    } else {
        Some(mag)
    }
}

/// The next token of the source text at `pos` (see [`spec_scan`]).
pub fn next_token(src: &str, pos: usize) -> (r: ScanStep)
    requires
        pos <= src@.len(),
    ensures
        r@ == spec_scan(src@, pos as int),
{
    let n = src.unicode_len();
    let i = skip_blanks(src, pos);
    if i >= n {
        return ScanStep::Done(i);
    }
    let c = src.get_char(i);
    if c == '{' {
        ScanStep::Tok(Token::BeginProc, i + 1)
    } else if c == '}' {
        ScanStep::Tok(Token::EndProc, i + 1)
    } else if c == '[' {
        ScanStep::Tok(Token::Mark, i + 1)
    } else if c == ']' {
        proof {
            reveal_strlit("]");
            assert(src@.subrange(i as int, i + 1) =~= "]"@);
        }
        ScanStep::Tok(Token::ExeName(slice_text(src, i, i + 1)), i + 1)
    } else if c == '<' {
        if i + 1 < n && src.get_char(i + 1) == '<' {
            ScanStep::Tok(Token::Mark, i + 2)
        } else {
            ScanStep::Fail(i)
        }
    } else if c == '>' {
        if i + 1 < n && src.get_char(i + 1) == '>' {
            proof {
                reveal_strlit(">>");
                assert(src@.subrange(i as int, i + 2) =~= ">>"@);
            }
            ScanStep::Tok(Token::ExeName(slice_text(src, i, i + 2)), i + 2)
        } else {
            ScanStep::Fail(i)
        }
    } else if c == '=' {
        if i + 1 < n && src.get_char(i + 1) == '=' {
            proof {
                reveal_strlit("==");
                assert(src@.subrange(i as int, i + 2) =~= "=="@);
            }
            ScanStep::Tok(Token::ExeName(slice_text(src, i, i + 2)), i + 2)
        } else {
            proof {
                reveal_strlit("=");
                assert(src@.subrange(i as int, i + 1) =~= "="@);
            }
            ScanStep::Tok(Token::ExeName(slice_text(src, i, i + 1)), i + 1)
        }
    } else if c == '/' {
        if i + 1 < n && src.get_char(i + 1) == '/' {
            let third_is_letter = i + 2 < n && is_letter_exec(src.get_char(i + 2));
            if third_is_letter {
                let e = scan_ident_end(src, i + 3);
                ScanStep::Tok(Token::ImmName(slice_text(src, i + 2, e)), e)
            } else {
                ScanStep::Fail(i)
            }
        } else {
            let second_is_letter = i + 1 < n && is_letter_exec(src.get_char(i + 1));
            if second_is_letter {
                let e = scan_ident_end(src, i + 2);
                ScanStep::Tok(Token::LitName(slice_text(src, i + 1, e)), e)
            } else {
                ScanStep::Fail(i)
            }
        }
    } else if is_letter_exec(c) {
        let e = scan_ident_end(src, i);
        let word = src.substring_char(i, e);
        if crate::text::str_eq(word, "true") {
            ScanStep::Tok(Token::Bool(true), e)
        } else if crate::text::str_eq(word, "false") {
            ScanStep::Tok(Token::Bool(false), e)
        } else if crate::text::str_eq(word, "mark") {
            ScanStep::Tok(Token::Mark, e)
        } else {
            ScanStep::Tok(Token::ExeName(word.to_owned()), e)
        }
    } else if c == '+' || c == '-' || c == '.' || (c >= '0' && c <= '9') {
        scan_number(src, i)
    } else {
        ScanStep::Fail(i)
    }
}

/// An ASCII letter.
fn is_letter_exec(c: char) -> (r: bool)
    ensures
        r == is_letter(c),
{
    (c >= 'a' && c <= 'z') || (c >= 'A' && c <= 'Z')
}

/// Scans a numeric literal (see [`spec_scan_number`]).
fn scan_number(src: &str, i: usize) -> (r: ScanStep)
    requires
        i < src@.len(),
        src@[i as int] == '+' || src@[i as int] == '-' || src@[i as int] == '.' || is_digit(
            src@[i as int],
        ),
    ensures
        r@ == spec_scan_number(src@, i as int),
{
    let n = src.unicode_len();
    let c = src.get_char(i);
    let neg = c == '-';
    let q = if c == '+' || c == '-' {
        i + 1
    } else {
        i
    };
    let d1 = scan_digits_end(src, q);
    if d1 > q {
        if d1 < n && src.get_char(d1) == '.' {
            let d2 = scan_digits_end(src, d1 + 1);
            ScanStep::Tok(Token::Real(slice_text(src, i, d2)), d2)
        } else {
            proof {
                assert forall|k: int| q <= k < d1 implies is_digit(#[trigger] src@[k]) by {
                    lemma_digits_end_digits(src@, q as int, k);
                }
            }
            match digits_value(src, q, d1) {
                Some(mag) => {
                    proof {
                        lemma_dec_val_nonneg(src@.subrange(q as int, d1 as int));
                    }
                    if !neg {
                        if mag <= (i64::MAX as u64) {
                            ScanStep::Tok(Token::Integer(mag as i64), d1)
                        } else {
                            ScanStep::Fail(i)
                        }
                    } else {
                        if mag <= (i64::MAX as u64) {
                            ScanStep::Tok(Token::Integer(-(mag as i64)), d1)
                        } else if mag == (i64::MAX as u64) + 1 {
                            ScanStep::Tok(Token::Integer(i64::MIN), d1)
                        } else {
                            ScanStep::Fail(i)
                        }
                    }
                }
                None => ScanStep::Fail(i),
            }
        }
    } else {
        let dot_here = q < n && src.get_char(q) == '.';
        if dot_here {
            let d2 = scan_digits_end(src, q + 1);
            if d2 > q + 1 {
                ScanStep::Tok(Token::Real(slice_text(src, i, d2)), d2)
            } else {
                ScanStep::Fail(i)
            }
        } else {
            ScanStep::Fail(i)
        }
    }
}

/// What one source token does to the procedure builder and the machine:
/// `{` opens a body; `}` closes one, handing a completed procedure to
/// the operand stack; an immediate name is resolved on the spot and
/// captured or pushed; every other token becomes an object that is
/// captured while a body is open and evaluated otherwise.
pub open spec fn drive_step(t: TokenView, b: Seq<Seq<ObjectView>>, m: MachineView) -> (
    Result<(), PsError>,
    Seq<Seq<ObjectView>>,
    MachineView,
) {
    match t {
        TokenView::BeginProc => (Ok(()), b.push(Seq::empty()), m),
        TokenView::EndProc => {
            if b.len() == 0 {
                (Err(PsError::SyntaxError), b, m)
            } else {
                let body = crate::object::ObjectView::Array(
                    crate::object::ObjectMode::Executable,
                    b.last(),
                );
                if b.len() == 1 {
                    (
                        Ok(()),
                        Seq::empty(),
                        MachineView { ostack: m.ostack.push(body), ..m },
                    )
                } else {
                    (Ok(()), builder_push(b.drop_last(), body), m)
                }
            }
        },
        TokenView::ImmName(n) => match crate::dstack::lookup(m.dicts, n) {
            None => (Err(PsError::UndefinedName), b, m),
            Some(v) => {
                if b.len() > 0 {
                    (Ok(()), builder_push(b, v), m)
                } else {
                    (Ok(()), b, MachineView { ostack: m.ostack.push(v), ..m })
                }
            },
        },
        other => {
            let o = object_of(other);
            if b.len() > 0 {
                (Ok(()), builder_push(b, o), m)
            } else {
                let st = eval_step(o, m);
                (st.0, b, st.1)
            }
        },
    }
}

/// The outcome of running source text, step-indexed.
pub enum SourceOutcome {
    /// The whole text was consumed.
    Finished(Seq<Seq<ObjectView>>, MachineView),
    /// The first failure, with the state as it stood.
    Failed(PsError, Seq<Seq<ObjectView>>, MachineView),
    /// The step budget ran out first.
    Out,
}

/// Running source text as mathematics: deferred work is drained first;
/// with nothing pending the next token is read and applied; scanning
/// past the end finishes the run.  Each evaluated object and each token
/// costs one unit of budget, and the machine is deterministic: the
/// budget only decides how far the one trace is followed.
pub open spec fn run_source(
    s: Seq<char>,
    pos: int,
    b: Seq<Seq<ObjectView>>,
    m: MachineView,
    fuel: nat,
) -> SourceOutcome
    decreases fuel,
{
    if fuel == 0 {
        SourceOutcome::Out
    } else if m.pending.len() > 0 {
        let o = m.pending[0];
        let m1 = MachineView { pending: m.pending.skip(1), ..m };
        let st = eval_step(o, m1);
        match st.0 {
            Ok(()) => run_source(s, pos, b, st.1, (fuel - 1) as nat),
            Err(e) => SourceOutcome::Failed(e, b, st.1),
        }
    } else {
        match spec_scan(s, pos) {
            ScanStepView::Done(_e) => SourceOutcome::Finished(b, m),
            ScanStepView::Fail(p) => SourceOutcome::Failed(PsError::ScanError(p as usize), b, m),
            ScanStepView::Tok(t, end) => {
                let st = drive_step(t, b, m);
                match st.0 {
                    Ok(()) => run_source(s, end, st.1, st.2, (fuel - 1) as nat),
                    Err(e) => SourceOutcome::Failed(e, st.1, st.2),
                }
            },
        }
    }
}

/// The run is deterministic: a budget large enough to finish the trace
/// settles it, and any larger budget gives the same outcome.  Together
/// with the contract of [`Scanner::execute_string`] this pins one
/// canonical behavior for every piece of source text.
pub proof fn lemma_run_source_monotonic(
    s: Seq<char>,
    pos: int,
    b: Seq<Seq<ObjectView>>,
    m: MachineView,
    f1: nat,
    f2: nat,
)
    requires
        f1 <= f2,
        !(run_source(s, pos, b, m, f1) is Out),
    ensures
        run_source(s, pos, b, m, f2) == run_source(s, pos, b, m, f1),
    decreases f1,
{
    if f1 == 0 {
    } else if m.pending.len() > 0 {
        let o = m.pending[0];
        let m1 = MachineView { pending: m.pending.skip(1), ..m };
        let st = eval_step(o, m1);
        match st.0 {
            Ok(()) => {
                lemma_run_source_monotonic(s, pos, b, st.1, (f1 - 1) as nat, (f2 - 1) as nat);
            },
            Err(_e) => {},
        }
    } else {
        match spec_scan(s, pos) {
            ScanStepView::Done(_e) => {},
            ScanStepView::Fail(_p) => {},
            ScanStepView::Tok(t, end) => {
                let st = drive_step(t, b, m);
                match st.0 {
                    Ok(()) => {
                        lemma_run_source_monotonic(
                            s,
                            end,
                            st.1,
                            st.2,
                            (f1 - 1) as nat,
                            (f2 - 1) as nat,
                        );
                    },
                    Err(_e) => {},
                }
            },
        }
    }
}

/// A completed drain is an initial segment of the run: after its steps
/// the run continues from the drained machine.
proof fn lemma_drain_to_run(
    s: Seq<char>,
    pos: int,
    b: Seq<Seq<ObjectView>>,
    m: MachineView,
    m1: MachineView,
    u: nat,
    g: nat,
)
    requires
        drain_run(m, u) == (Drained::Done(m1), 0nat),
    ensures
        run_source(s, pos, b, m, (u + g) as nat) == run_source(s, pos, b, m1, g),
    decreases u,
{
    if m.pending.len() == 0 {
    } else {
        let o = m.pending[0];
        let mm = MachineView { pending: m.pending.skip(1), ..m };
        let st = eval_step(o, mm);
        lemma_drain_to_run(s, pos, b, st.1, m1, (u - 1) as nat, g);
    }
}

/// A drain that fails pins the whole run to that failure.
proof fn lemma_drain_fail_to_run(
    s: Seq<char>,
    pos: int,
    b: Seq<Seq<ObjectView>>,
    m: MachineView,
    m1: MachineView,
    e: PsError,
    u: nat,
    g: nat,
)
    requires
        drain_run(m, u) == (Drained::Failed(e, m1), 0nat),
    ensures
        run_source(s, pos, b, m, (u + g) as nat) == SourceOutcome::Failed(e, b, m1),
    decreases u,
{
    if m.pending.len() == 0 {
    } else {
        let o = m.pending[0];
        let mm = MachineView { pending: m.pending.skip(1), ..m };
        let st = eval_step(o, mm);
        match st.0 {
            Ok(()) => {
                lemma_drain_fail_to_run(s, pos, b, st.1, m1, e, (u - 1) as nat, g);
            },
            Err(_e2) => {},
        }
    }
}

/// A drain that runs out of budget pins the run to the same exhaustion.
proof fn lemma_drain_out_to_run(
    s: Seq<char>,
    pos: int,
    b: Seq<Seq<ObjectView>>,
    m: MachineView,
    f: nat,
)
    requires
        drain_run(m, f).0 is Out,
    ensures
        run_source(s, pos, b, m, f) is Out,
    decreases f,
{
    if f == 0 {
    } else if m.pending.len() == 0 {
    } else {
        let o = m.pending[0];
        let mm = MachineView { pending: m.pending.skip(1), ..m };
        let st = eval_step(o, mm);
        match st.0 {
            Ok(()) => {
                lemma_drain_out_to_run(s, pos, b, st.1, (f - 1) as nat);
            },
            Err(_e) => {},
        }
    }
}

/// The budget error belongs to the scheduler alone: no token produces it.
pub proof fn lemma_drive_step_no_limit(t: TokenView, b: Seq<Seq<ObjectView>>, m: MachineView)
    ensures
        drive_step(t, b, m).0 != Err::<(), PsError>(PsError::LimitError),
{
    match t {
        TokenView::BeginProc => {}
        TokenView::EndProc => {}
        TokenView::ImmName(_n) => {}
        other => {
            if b.len() == 0 {
                lemma_eval_step_no_limit(object_of(other), m);
            }
        },
    }
}

/// A well-formed driver always keeps the system dictionary, immutable
/// after initialization, at the bottom of its dictionary stack.
pub proof fn lemma_scanner_dicts(s: &Scanner)
    requires
        s.wf(),
    ensures
        Engine::dicts_wf(s.machine()),
{
    crate::engine::lemma_wf_dicts(&s.engine);
}

/// A token only ever appends to the output.
pub proof fn lemma_drive_step_extends_out(t: TokenView, b: Seq<Seq<ObjectView>>, m: MachineView)
    ensures
        m.out.is_prefix_of(drive_step(t, b, m).2.out),
{
    assert(m.out.subrange(0, m.out.len() as int) =~= m.out);
    match t {
        TokenView::BeginProc => {}
        TokenView::EndProc => {}
        TokenView::ImmName(_n) => {}
        other => {
            if b.len() == 0 {
                crate::engine::lemma_eval_step_extends_out(object_of(other), m);
            }
        },
    }
}

/// The driver: reads tokens from source text and routes each one into
/// the open procedure body or into the engine, draining the deferred
/// work between tokens.  Its state survives across calls, which is what
/// a read-evaluate loop needs.
pub struct Scanner {
    proc_builder: ProcBuilder,
    engine: Engine,
}

impl Scanner {
    /// The machine behind this driver.
    pub closed spec fn machine(&self) -> MachineView {
        self.engine@
    }

    /// The partially captured procedure bodies.
    pub closed spec fn builder(&self) -> Seq<Seq<ObjectView>> {
        self.proc_builder@
    }

    /// The engine invariants hold.
    pub closed spec fn wf(&self) -> bool {
        self.engine.wf()
    }

    /// A fresh driver over a fresh engine.
    pub fn new() -> (r: Self)
        ensures
            r.wf(),
            r.builder() == Seq::<Seq<ObjectView>>::empty(),
            r.machine().ostack == Seq::<ObjectView>::empty(),
            r.machine().dicts == seq![
                crate::dstack::system_map(),
                Map::<Seq<char>, ObjectView>::empty(),
            ],
            r.machine().pending == Seq::<ObjectView>::empty(),
            r.machine().out == Seq::<Seq<char>>::empty(),
            Engine::dicts_wf(r.machine()),
    {
        Scanner { proc_builder: ProcBuilder::new(), engine: Engine::new() }
    }

    /// How many operands the engine holds.
    pub fn get_stack_size(&self) -> (n: usize)
        ensures
            n == self.machine().ostack.len(),
    {
        self.engine.get_stack_size()
    }

    /// A reference to the operand at position `i` (0 is the bottom).
    pub fn get_stack_object(&self, i: usize) -> (r: &Object)
        requires
            i < self.machine().ostack.len(),
        ensures
            r@ == self.machine().ostack[i as int],
    {
        self.engine.get_stack_object(i)
    }

    /// Takes the output lines collected so far, leaving the buffer empty.
    pub fn take_output(&mut self) -> (r: Vec<String>)
        requires
            old(self).wf(),
        ensures
            final(self).wf(),
            r.deep_view() == old(self).machine().out,
            final(self).machine() == (MachineView {
                out: Seq::<Seq<char>>::empty(),
                ..old(self).machine()
            }),
            final(self).builder() == old(self).builder(),
    {
        self.engine.take_output()
    }

    /// Applies one token to the builder and the machine (see
    /// [`drive_step`]).
    fn consume_token(&mut self, tok: Token) -> (r: Result<(), PsError>)
        requires
            old(self).wf(),
        ensures
            final(self).wf(),
            (r, final(self).builder(), final(self).machine()) == drive_step(
                tok@,
                old(self).builder(),
                old(self).machine(),
            ),
    {
        match tok {
            Token::BeginProc => {
                self.proc_builder.open();
                Ok(())
            }
            Token::EndProc => {
                if !self.proc_builder.is_open() {
                    return Err(PsError::SyntaxError);
                }
                match self.proc_builder.close() {
                    Some(proc) => {
                        self.engine.push(proc);
                    }
                    None => {}
                }
                Ok(())
            }
            Token::ImmName(name) => {
                match self.engine.get_object_by_name(name.as_str()) {
                    Some(object) => {
                        if self.proc_builder.is_open() {
                            self.proc_builder.push(object);
                        } else {
                            self.engine.push(object);
                        }
                        Ok(())
                    }
                    None => Err(PsError::UndefinedName),
                }
            }
            other => {
                let object = other.to_object();
                if self.proc_builder.is_open() {
                    self.proc_builder.push(object);
                    Ok(())
                } else {
                    self.engine.process_object(object)
                }
            }
        }
    }

    /// Runs a piece of source text against the engine: tokens are read
    /// one at a time, the deferred work is drained to empty between
    /// them, and the first failure is surfaced with everything done so
    /// far kept.
    pub fn execute_string(&mut self, contents: &str) -> (r: Result<(), PsError>)
        requires
            old(self).wf(),
        ensures
            final(self).wf(),
            old(self).machine().out.is_prefix_of(final(self).machine().out),
            match r {
                Ok(()) => final(self).machine().pending == Seq::<ObjectView>::empty() && (
                exists|fuel: nat|
                    run_source(contents@, 0, old(self).builder(), old(self).machine(), fuel)
                        == SourceOutcome::Finished(final(self).builder(), final(self).machine())),
                Err(e) => e == PsError::LimitError || (exists|fuel: nat|
                    run_source(contents@, 0, old(self).builder(), old(self).machine(), fuel)
                        == SourceOutcome::Failed(
                        e,
                        final(self).builder(),
                        final(self).machine(),
                    )),
            },
            r == Err::<(), PsError>(PsError::LimitError) ==> forall|f: nat|
                f < u64::MAX as nat ==> (#[trigger] run_source(
                    contents@,
                    0,
                    old(self).builder(),
                    old(self).machine(),
                    f,
                )) is Out,
    {
        let mut pos: usize = 0;
        let ghost mut used: nat = 0nat;
        proof {
            assert(self.machine().out.subrange(
                0,
                self.machine().out.len() as int,
            ) =~= self.machine().out);
        }
        loop
            invariant
                self.wf(),
                pos <= contents@.len(),
                old(self).machine().out.is_prefix_of(self.machine().out),
                forall|f: nat|
                    run_source(
                        contents@,
                        0,
                        old(self).builder(),
                        old(self).machine(),
                        (used + f) as nat,
                    ) == run_source(contents@, pos as int, self.builder(), self.machine(), f),
                forall|f: nat|
                    f < used ==> (#[trigger] run_source(
                        contents@,
                        0,
                        old(self).builder(),
                        old(self).machine(),
                        f,
                    )) is Out,
            decreases contents@.len() - pos,
        {
            let ghost at_top_b = self.builder();
            let ghost at_top = self.machine();
            match self.engine.process_execution_stack() {
                Ok(()) => {
                    proof {
                        crate::engine::lemma_prefix_trans(
                            old(self).machine().out,
                            at_top.out,
                            self.machine().out,
                        );
                        let u2 = choose|u2: nat|
                            drain_run(at_top, u2) == (Drained::Done(self.machine()), 0nat);
                        assert forall|f: nat|
                            run_source(
                                contents@,
                                0,
                                old(self).builder(),
                                old(self).machine(),
                                (used + u2 + f) as nat,
                            ) == run_source(
                                contents@,
                                pos as int,
                                self.builder(),
                                self.machine(),
                                f,
                            ) by {
                            assert(run_source(
                                contents@,
                                0,
                                old(self).builder(),
                                old(self).machine(),
                                (used + ((u2 + f) as nat)) as nat,
                            ) == run_source(contents@, pos as int, at_top_b, at_top, (u2
                                + f) as nat));
                            lemma_drain_to_run(
                                contents@,
                                pos as int,
                                at_top_b,
                                at_top,
                                self.machine(),
                                u2,
                                f,
                            );
                        }
                        assert forall|f: nat|
                            f < used + u2 implies (#[trigger] run_source(
                                contents@,
                                0,
                                old(self).builder(),
                                old(self).machine(),
                                f,
                            )) is Out by {
                            if f >= used {
                                let g = (f - used) as nat;
                                assert(run_source(
                                    contents@,
                                    0,
                                    old(self).builder(),
                                    old(self).machine(),
                                    (used + g) as nat,
                                ) == run_source(contents@, pos as int, at_top_b, at_top, g));
                                lemma_drain_done_out(at_top, self.machine(), u2, g);
                                lemma_drain_out_to_run(
                                    contents@,
                                    pos as int,
                                    at_top_b,
                                    at_top,
                                    g,
                                );
                            }
                        }
                        used = (used + u2) as nat;
                    }
                },
                Err(e) => {
                    proof {
                        crate::engine::lemma_prefix_trans(
                            old(self).machine().out,
                            at_top.out,
                            self.machine().out,
                        );
                        if e != PsError::LimitError {
                            let u2 = choose|u2: nat|
                                drain_run(at_top, u2) == (
                                    Drained::Failed(e, self.machine()),
                                    0nat,
                                );
                            assert(run_source(
                                contents@,
                                0,
                                old(self).builder(),
                                old(self).machine(),
                                (used + u2) as nat,
                            ) == run_source(contents@, pos as int, at_top_b, at_top, u2));
                            lemma_drain_fail_to_run(
                                contents@,
                                pos as int,
                                at_top_b,
                                at_top,
                                self.machine(),
                                e,
                                u2,
                                0nat,
                            );
                            assert((u2 + 0nat) as nat == u2);
                        } else {
                            assert forall|f: nat|
                                f < u64::MAX as nat implies (#[trigger] run_source(
                                    contents@,
                                    0,
                                    old(self).builder(),
                                    old(self).machine(),
                                    f,
                                )) is Out by {
                                if f >= used {
                                    let g = (f - used) as nat;
                                    assert(run_source(
                                        contents@,
                                        0,
                                        old(self).builder(),
                                        old(self).machine(),
                                        (used + g) as nat,
                                    ) == run_source(contents@, pos as int, at_top_b, at_top, g));
                                    assert(drain_run(at_top, g).0 is Out);
                                    lemma_drain_out_to_run(
                                        contents@,
                                        pos as int,
                                        at_top_b,
                                        at_top,
                                        g,
                                    );
                                }
                            }
                        }
                    }
                    return Err(e);
                }
            }
            let step = next_token(contents, pos);
            match step {
                ScanStep::Done(_e) => {
                    proof {
                        assert(run_source(
                            contents@,
                            0,
                            old(self).builder(),
                            old(self).machine(),
                            (used + 1) as nat,
                        ) == run_source(
                            contents@,
                            pos as int,
                            self.builder(),
                            self.machine(),
                            1nat,
                        ));
                        assert(run_source(
                            contents@,
                            pos as int,
                            self.builder(),
                            self.machine(),
                            1nat,
                        ) == SourceOutcome::Finished(self.builder(), self.machine()));
                    }
                    return Ok(());
                }
                ScanStep::Fail(p) => {
                    proof {
                        assert(run_source(
                            contents@,
                            0,
                            old(self).builder(),
                            old(self).machine(),
                            (used + 1) as nat,
                        ) == run_source(
                            contents@,
                            pos as int,
                            self.builder(),
                            self.machine(),
                            1nat,
                        ));
                        assert(run_source(
                            contents@,
                            pos as int,
                            self.builder(),
                            self.machine(),
                            1nat,
                        ) == SourceOutcome::Failed(
                            PsError::ScanError(p),
                            self.builder(),
                            self.machine(),
                        ));
                    }
                    return Err(PsError::ScanError(p));
                }
                ScanStep::Tok(tok, end) => {
                    proof {
                        lemma_scan_bounds(contents@, pos as int);
                    }
                    let ghost prev_pos = pos as int;
                    let ghost before_b = self.builder();
                    let ghost before_m = self.machine();
                    let ghost tv = tok@;
                    pos = end;
                    let outcome = self.consume_token(tok);
                    proof {
                        lemma_drive_step_extends_out(tv, before_b, before_m);
                        crate::engine::lemma_prefix_trans(
                            old(self).machine().out,
                            before_m.out,
                            self.machine().out,
                        );
                    }
                    match outcome {
                        Ok(()) => {
                            proof {
                                assert forall|f: nat|
                                    run_source(
                                        contents@,
                                        0,
                                        old(self).builder(),
                                        old(self).machine(),
                                        (used + 1 + f) as nat,
                                    ) == run_source(
                                        contents@,
                                        pos as int,
                                        self.builder(),
                                        self.machine(),
                                        f,
                                    ) by {
                                    assert(run_source(
                                        contents@,
                                        0,
                                        old(self).builder(),
                                        old(self).machine(),
                                        (used + ((1 + f) as nat)) as nat,
                                    ) == run_source(contents@, prev_pos, before_b, before_m, (1
                                        + f) as nat));
                                }
                                assert forall|f: nat|
                                    f < used + 1 implies (#[trigger] run_source(
                                        contents@,
                                        0,
                                        old(self).builder(),
                                        old(self).machine(),
                                        f,
                                    )) is Out by {
                                    if f == used {
                                        assert(run_source(
                                            contents@,
                                            0,
                                            old(self).builder(),
                                            old(self).machine(),
                                            (used + 0) as nat,
                                        ) == run_source(
                                            contents@,
                                            prev_pos,
                                            before_b,
                                            before_m,
                                            0nat,
                                        ));
                                    }
                                }
                                used = (used + 1) as nat;
                            }
                        },
                        Err(e) => {
                            proof {
                                lemma_drive_step_no_limit(tv, before_b, before_m);
                                assert(run_source(
                                    contents@,
                                    0,
                                    old(self).builder(),
                                    old(self).machine(),
                                    (used + 1) as nat,
                                ) == run_source(contents@, prev_pos, before_b, before_m, 1nat));
                                assert(run_source(contents@, prev_pos, before_b, before_m, 1nat)
                                    == SourceOutcome::Failed(
                                    e,
                                    self.builder(),
                                    self.machine(),
                                ));
                            }
                            return Err(e);
                        }
                    }
                }
            }
        }
    }
}

} // verus!
