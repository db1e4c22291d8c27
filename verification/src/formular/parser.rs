use vstd::prelude::*;
use vstd::string::StrSliceExecFns;
use vstd::string::StringExecFns;

use crate::cells::CellRef;
use crate::formular::FormularError;
use crate::formular::ast::Expr;
use crate::formular::ast::ExprV;
use crate::formular::ast::Op;

verus! {

// ---------------------------------------------------------------------------
// Character classes of the grammar.
// ---------------------------------------------------------------------------
/// An ASCII decimal digit.
pub open spec fn is_digit(c: char) -> bool {
    '0' as u32 <= c as u32 && c as u32 <= '9' as u32
}

/// An ASCII letter, either case.
pub open spec fn is_alpha(c: char) -> bool {
    ('A' as u32 <= c as u32 && c as u32 <= 'Z' as u32) || ('a' as u32 <= c as u32 && c as u32
        <= 'z' as u32)
}

/// Insignificant whitespace between tokens.
pub open spec fn is_space(c: char) -> bool {
    c == ' ' || c == '\t' || c == '\r' || c == '\n'
}

/// The value of a digit, `'0'` being zero.
pub open spec fn digit_val(c: char) -> int {
    c as u32 - '0' as u32
}

/// The base-26 value of a column letter: `A` and `a` are 1, `Z` and `z` are 26.
pub open spec fn letter_index(c: char) -> int {
    if 'a' as u32 <= c as u32 {
        c as u32 - 'a' as u32 + 1
    } else {
        c as u32 - 'A' as u32 + 1
    }
}

fn digit(c: char) -> (b: bool)
    ensures
        b == is_digit(c),
{
    let u = c as u32;
    '0' as u32 <= u && u <= '9' as u32
}

fn alpha(c: char) -> (b: bool)
    ensures
        b == is_alpha(c),
{
    let u = c as u32;
    ('A' as u32 <= u && u <= 'Z' as u32) || ('a' as u32 <= u && u <= 'z' as u32)
}

fn space(c: char) -> (b: bool)
    ensures
        b == is_space(c),
{
    c == ' ' || c == '\t' || c == '\r' || c == '\n'
}

// ---------------------------------------------------------------------------
// Scanning runs of characters.
// ---------------------------------------------------------------------------
/// The first position at or after `i` that does not hold a digit.
pub open spec fn scan_digits(s: Seq<char>, i: int) -> int
    decreases s.len() - i,
{
    if i < s.len() && is_digit(s[i]) {
        scan_digits(s, i + 1)
    } else {
        i
    }
}

/// The first position at or after `i` that does not hold a letter.
pub open spec fn scan_alpha(s: Seq<char>, i: int) -> int
    decreases s.len() - i,
{
    if i < s.len() && is_alpha(s[i]) {
        scan_alpha(s, i + 1)
    } else {
        i
    }
}

proof fn lemma_scan_digits_bounds(s: Seq<char>, i: int)
    requires
        0 <= i <= s.len(),
    ensures
        i <= scan_digits(s, i) <= s.len(),
    decreases s.len() - i,
{
    if i < s.len() && is_digit(s[i]) {
        lemma_scan_digits_bounds(s, i + 1);
    }
}

proof fn lemma_scan_alpha_bounds(s: Seq<char>, i: int)
    requires
        0 <= i <= s.len(),
    ensures
        i <= scan_alpha(s, i) <= s.len(),
    decreases s.len() - i,
{
    if i < s.len() && is_alpha(s[i]) {
        lemma_scan_alpha_bounds(s, i + 1);
    }
}

fn scan_digits_x(s: &str, n: usize, i: usize) -> (j: usize)
    requires
        n == s@.len(),
        i <= n,
    ensures
        j == scan_digits(s@, i as int),
        i <= j <= n,
    decreases n - i,
{
    if i < n && digit(s.get_char(i)) {
        scan_digits_x(s, n, i + 1)
    } else {
        i
    }
}

fn scan_alpha_x(s: &str, n: usize, i: usize) -> (j: usize)
    requires
        n == s@.len(),
        i <= n,
    ensures
        j == scan_alpha(s@, i as int),
        i <= j <= n,
    decreases n - i,
{
    if i < n && alpha(s.get_char(i)) {
        scan_alpha_x(s, n, i + 1)
    } else {
        i
    }
}

/// Where a numeric literal that starts with a digit at `i` ends: a run of
/// digits, then, only if a dot with at least one digit behind it follows,
/// the dot and that second run.
pub open spec fn num_end(s: Seq<char>, i: int) -> int {
    let j = scan_digits(s, i);
    if j < s.len() && s[j] == '.' && j + 1 < s.len() && is_digit(s[j + 1]) {
        scan_digits(s, j + 1)
    } else {
        j
    }
}

proof fn lemma_num_end_after_digit(s: Seq<char>, i: int)
    requires
        0 <= i < s.len(),
        is_digit(s[i]),
    ensures
        i < num_end(s, i) <= s.len(),
{
    lemma_scan_digits_bounds(s, i + 1);
    assert(scan_digits(s, i) == scan_digits(s, i + 1));
    let j = scan_digits(s, i);
    if j < s.len() && s[j] == '.' && j + 1 < s.len() && is_digit(s[j + 1]) {
        lemma_scan_digits_bounds(s, j + 1);
    }
}

fn num_end_x(s: &str, n: usize, i: usize) -> (j: usize)
    requires
        n == s@.len(),
        i <= n,
    ensures
        j == num_end(s@, i as int),
        i <= j <= n,
{
    let j = scan_digits_x(s, n, i);
    if j < n && s.get_char(j) == '.' && j + 1 < n && digit(s.get_char(j + 1)) {
        scan_digits_x(s, n, j + 1)
    } else {
        j
    }
}

// ---------------------------------------------------------------------------
// Tokens.
// ---------------------------------------------------------------------------
/// What a token is, without its position.
#[derive(Clone, Debug, PartialEq)]
pub enum TokenKind {
    /// A numeric literal, as its source text (sign included, if any).
    Num(String),
    /// A cell reference: the run of column letters and the run of row digits.
    Cell { col: String, row: String },
    /// One of the six binary operators.
    Op(Op),
    LParen,
    RParen,
}

/// One lexical token: its kind and the character position at which it starts.
#[derive(Clone, Debug, PartialEq)]
pub struct Token {
    pub pos: usize,
    pub kind: TokenKind,
}

/// The view of a token kind: texts as character sequences.
pub ghost enum TokenKindV {
    Num(Seq<char>),
    Cell { col: Seq<char>, row: Seq<char> },
    Op(Op),
    LParen,
    RParen,
}

/// The view of a token.
pub ghost struct TokenV {
    pub pos: int,
    pub kind: TokenKindV,
}

impl View for TokenKind {
    type V = TokenKindV;

    open spec fn view(&self) -> TokenKindV {
        match self {
            TokenKind::Num(s) => TokenKindV::Num(s@),
            TokenKind::Cell { col, row } => TokenKindV::Cell { col: col@, row: row@ },
            TokenKind::Op(o) => TokenKindV::Op(*o),
            TokenKind::LParen => TokenKindV::LParen,
            TokenKind::RParen => TokenKindV::RParen,
        }
    }
}

impl View for Token {
    type V = TokenV;

    open spec fn view(&self) -> TokenV {
        TokenV { pos: self.pos as int, kind: self.kind@ }
    }
}

/// The views of a sequence of tokens.
pub open spec fn toks_view(ts: Seq<Token>) -> Seq<TokenV> {
    ts.map_values(|t: Token| t@)
}

// ---------------------------------------------------------------------------
// The tokenizer.
// ---------------------------------------------------------------------------
/// Whether a `+` or `-` at this point begins a signed number rather than an
/// operator: only at the start of the input, after an operator, or after an
/// opening parenthesis.
pub open spec fn sign_starts_number(acc: Seq<TokenV>) -> bool {
    acc.len() == 0 || match acc.last().kind {
        TokenKindV::Op(_) => true,
        TokenKindV::LParen => true,
        _ => false,
    }
}

/// The token stream of `s` from position `i` on, appended to `acc`;
/// `None` when some character fits no token. The bound checks on the scan
/// results can never fail; they keep the recursion visibly well-founded.
pub open spec fn spec_tokenize(s: Seq<char>, i: int, acc: Seq<TokenV>) -> Option<Seq<TokenV>>
    decreases s.len() - i,
{
    if i >= s.len() {
        Some(acc)
    } else {
        let c = s[i];
        if is_space(c) {
            spec_tokenize(s, i + 1, acc)
        } else if is_digit(c) {
            let j = num_end(s, i);
            if i < j <= s.len() {
                spec_tokenize(s, j, acc.push(TokenV { pos: i, kind: TokenKindV::Num(s.subrange(i, j)) }))
            } else {
                None
            }
        } else if is_alpha(c) {
            let j = scan_alpha(s, i);
            if j < s.len() && is_digit(s[j]) {
                let k = scan_digits(s, j);
                if i < k <= s.len() {
                    spec_tokenize(
                        s,
                        k,
                        acc.push(
                            TokenV {
                                pos: i,
                                kind: TokenKindV::Cell {
                                    col: s.subrange(i, j),
                                    row: s.subrange(j, k),
                                },
                            },
                        ),
                    )
                } else {
                    None
                }
            } else {
                None
            }
        } else if (c == '+' || c == '-') && i + 1 < s.len() && is_digit(s[i + 1])
            && sign_starts_number(acc) {
            let j = num_end(s, i + 1);
            if i < j <= s.len() {
                spec_tokenize(s, j, acc.push(TokenV { pos: i, kind: TokenKindV::Num(s.subrange(i, j)) }))
            } else {
                None
            }
        } else if c == '+' {
            spec_tokenize(s, i + 1, acc.push(TokenV { pos: i, kind: TokenKindV::Op(Op::Plus) }))
        } else if c == '-' {
            spec_tokenize(s, i + 1, acc.push(TokenV { pos: i, kind: TokenKindV::Op(Op::Minus) }))
        } else if c == '*' {
            spec_tokenize(s, i + 1, acc.push(TokenV { pos: i, kind: TokenKindV::Op(Op::Times) }))
        } else if c == '/' {
            spec_tokenize(s, i + 1, acc.push(TokenV { pos: i, kind: TokenKindV::Op(Op::Div) }))
        } else if c == '%' {
            spec_tokenize(s, i + 1, acc.push(TokenV { pos: i, kind: TokenKindV::Op(Op::Rem) }))
        } else if c == '^' {
            spec_tokenize(s, i + 1, acc.push(TokenV { pos: i, kind: TokenKindV::Op(Op::Power) }))
        } else if c == '(' {
            spec_tokenize(s, i + 1, acc.push(TokenV { pos: i, kind: TokenKindV::LParen }))
        } else if c == ')' {
            spec_tokenize(s, i + 1, acc.push(TokenV { pos: i, kind: TokenKindV::RParen }))
        } else {
            None
        }
    }
}

/// The token stream of the whole of `s`.
pub open spec fn spec_tokens(s: Seq<char>) -> Option<Seq<TokenV>> {
    spec_tokenize(s, 0, Seq::empty())
}

fn sign_starts_number_x(acc: &Vec<Token>) -> (b: bool)
    ensures
        b == sign_starts_number(toks_view(acc@)),
{
    if acc.len() == 0 {
        true
    } else {
        let last = &acc[acc.len() - 1];
        assert(toks_view(acc@).last() == acc@.last()@);
        match &last.kind {
            TokenKind::Op(_) => true,
            TokenKind::LParen => true,
            _ => false,
        }
    }
}

/// Cuts the characters `from .. to` out of `s` as an owned string.
fn cut(s: &str, from: usize, to: usize) -> (r: String)
    requires
        from <= to <= s@.len(),
    ensures
        r@ == s@.subrange(from as int, to as int),
{
    String::from_str(s.substring_char(from, to))
}

fn tokenize_at(s: &str, n: usize, i: usize, acc: Vec<Token>) -> (r: Result<
    Vec<Token>,
    FormularError,
>)
    requires
        n == s@.len(),
        i <= n,
    ensures
        match r {
            Ok(v) => spec_tokenize(s@, i as int, toks_view(acc@)) == Some(toks_view(v@)),
            Err(e) => spec_tokenize(s@, i as int, toks_view(acc@)) is None && e matches
                FormularError::FormularParserError(_, _),
        },
    decreases n - i,
{
    if i >= n {
        return Ok(acc);
    }
    let c = s.get_char(i);
    if space(c) {
        tokenize_at(s, n, i + 1, acc)
    } else if digit(c) {
        let j = num_end_x(s, n, i);
        proof {
            lemma_num_end_after_digit(s@, i as int);
        }
        let text = cut(s, i, j);
        let mut acc2 = acc;
        acc2.push(Token { pos: i, kind: TokenKind::Num(text) });
        assert(toks_view(acc2@) =~= toks_view(acc@).push(
            TokenV { pos: i as int, kind: TokenKindV::Num(s@.subrange(i as int, j as int)) },
        ));
        tokenize_at(s, n, j, acc2)
    } else if alpha(c) {
        let j = scan_alpha_x(s, n, i);
        if j < n && digit(s.get_char(j)) {
            let k = scan_digits_x(s, n, j);
            assert(k > i) by {
                assert(scan_alpha(s@, i as int) == scan_alpha(s@, i + 1));
                lemma_scan_alpha_bounds(s@, i + 1);
                lemma_scan_digits_bounds(s@, j as int);
                assert(scan_digits(s@, j as int) == scan_digits(s@, j + 1));
                lemma_scan_digits_bounds(s@, j + 1);
            }
            let col = cut(s, i, j);
            let row = cut(s, j, k);
            let mut acc2 = acc;
            acc2.push(Token { pos: i, kind: TokenKind::Cell { col, row } });
            assert(toks_view(acc2@) =~= toks_view(acc@).push(
                TokenV {
                    pos: i as int,
                    kind: TokenKindV::Cell {
                        col: s@.subrange(i as int, j as int),
                        row: s@.subrange(j as int, k as int),
                    },
                },
            ));
            tokenize_at(s, n, k, acc2)
        } else {
            Err(
                FormularError::FormularParserError(
                    j,
                    String::from_str("expected row digits after column letters"),
                ),
            )
        }
    } else if (c == '+' || c == '-') && i + 1 < n && digit(s.get_char(i + 1))
        && sign_starts_number_x(&acc) {
        let j = num_end_x(s, n, i + 1);
        proof {
            lemma_num_end_after_digit(s@, i + 1);
        }
        let text = cut(s, i, j);
        let mut acc2 = acc;
        acc2.push(Token { pos: i, kind: TokenKind::Num(text) });
        assert(toks_view(acc2@) =~= toks_view(acc@).push(
            TokenV { pos: i as int, kind: TokenKindV::Num(s@.subrange(i as int, j as int)) },
        ));
        tokenize_at(s, n, j, acc2)
    } else {
        let op_kind: Option<TokenKind> = if c == '+' {
            Some(TokenKind::Op(Op::Plus))
        } else if c == '-' {
            Some(TokenKind::Op(Op::Minus))
        } else if c == '*' {
            Some(TokenKind::Op(Op::Times))
        } else if c == '/' {
            Some(TokenKind::Op(Op::Div))
        } else if c == '%' {
            Some(TokenKind::Op(Op::Rem))
        } else if c == '^' {
            Some(TokenKind::Op(Op::Power))
        } else if c == '(' {
            Some(TokenKind::LParen)
        } else if c == ')' {
            Some(TokenKind::RParen)
        } else {
            None
        };
        match op_kind {
            Some(kind) => {
                let mut acc2 = acc;
                let ghost kv = kind@;
                acc2.push(Token { pos: i, kind });
                assert(toks_view(acc2@) =~= toks_view(acc@).push(
                    TokenV { pos: i as int, kind: kv },
                ));
                tokenize_at(s, n, i + 1, acc2)
            },
            None => Err(
                FormularError::FormularParserError(i, String::from_str("unexpected character")),
            ),
        }
    }
}

/// Splits `s` into the tokens of the grammar. Fails exactly where some
/// character belongs to no token.
fn tokenize(s: &str) -> (r: Result<Vec<Token>, FormularError>)
    ensures
        match r {
            Ok(v) => spec_tokens(s@) == Some(toks_view(v@)),
            Err(e) => spec_tokens(s@) is None && e matches FormularError::FormularParserError(
                _,
                _,
            ),
        },
{
    let n = s.unicode_len();
    let empty: Vec<Token> = Vec::new();
    assert(toks_view(empty@) =~= Seq::<TokenV>::empty());
    tokenize_at(s, n, 0, empty)
}

// ---------------------------------------------------------------------------
// The grammar. An expression is a chain of terms under + and -, a term a
// chain of powers under *, / and %, a power a factor optionally raised by ^
// to another power (so ^ binds to the right), and a factor a number, a cell
// reference or a parenthesised expression. Acceptance takes a position in
// the token stream and yields the position after a match, or nothing.
// ---------------------------------------------------------------------------
/// The additive operator a token holds, if any.
pub open spec fn add_op_of(k: TokenKindV) -> Option<Op> {
    match k {
        TokenKindV::Op(o) => match o {
            Op::Plus => Some(o),
            Op::Minus => Some(o),
            _ => None,
        },
        _ => None,
    }
}

/// The multiplicative operator a token holds, if any.
pub open spec fn mul_op_of(k: TokenKindV) -> Option<Op> {
    match k {
        TokenKindV::Op(o) => match o {
            Op::Times => Some(o),
            Op::Div => Some(o),
            Op::Rem => Some(o),
            _ => None,
        },
        _ => None,
    }
}

/// factor := number | cell_ref | "(" expr ")"
pub open spec fn accept_factor(t: Seq<TokenV>, i: int) -> Option<int>
    decreases t.len() - i, 0int,
{
    if i >= t.len() {
        None
    } else {
        match t[i].kind {
            TokenKindV::Num(_) => Some(i + 1),
            TokenKindV::Cell { .. } => Some(i + 1),
            TokenKindV::LParen => match accept_expr(t, i + 1) {
                Some(j) => if j < t.len() && t[j].kind == TokenKindV::RParen {
                    Some(j + 1)
                } else {
                    None
                },
                None => None,
            },
            _ => None,
        }
    }
}

/// power := factor ( "^" power )?   (right-associative)
pub open spec fn accept_power(t: Seq<TokenV>, i: int) -> Option<int>
    decreases t.len() - i, 1int,
{
    match accept_factor(t, i) {
        Some(j) => if !(i < j <= t.len()) {
            None
        } else if j < t.len() && t[j].kind == TokenKindV::Op(Op::Power) {
            accept_power(t, j + 1)
        } else {
            Some(j)
        },
        None => None,
    }
}

/// term := power ( ("*" | "/" | "%") power )*
pub open spec fn accept_term(t: Seq<TokenV>, i: int) -> Option<int>
    decreases t.len() - i, 2int,
{
    match accept_power(t, i) {
        Some(j) => if i < j <= t.len() {
            accept_term_rest(t, j)
        } else {
            None
        },
        None => None,
    }
}

/// The tail of a term after its first power.
pub open spec fn accept_term_rest(t: Seq<TokenV>, i: int) -> Option<int>
    decreases t.len() - i, 3int,
{
    if 0 <= i < t.len() && mul_op_of(t[i].kind) is Some {
        match accept_power(t, i + 1) {
            Some(j) => if i < j <= t.len() {
                accept_term_rest(t, j)
            } else {
                None
            },
            None => None,
        }
    } else {
        Some(i)
    }
}

/// expr := term ( ("+" | "-") term )*
pub open spec fn accept_expr(t: Seq<TokenV>, i: int) -> Option<int>
    decreases t.len() - i, 4int,
{
    match accept_term(t, i) {
        Some(j) => if i < j <= t.len() {
            accept_expr_rest(t, j)
        } else {
            None
        },
        None => None,
    }
}

/// The tail of an expression after its first term.
pub open spec fn accept_expr_rest(t: Seq<TokenV>, i: int) -> Option<int>
    decreases t.len() - i, 5int,
{
    if 0 <= i < t.len() && add_op_of(t[i].kind) is Some {
        match accept_term(t, i + 1) {
            Some(j) => if i < j <= t.len() {
                accept_expr_rest(t, j)
            } else {
                None
            },
            None => None,
        }
    } else {
        Some(i)
    }
}

/// The position of the token at `i`, or of the end of the stream, for a
/// diagnostic.
fn tok_pos(t: &Vec<Token>, i: usize) -> usize {
    if i < t.len() {
        t[i].pos
    } else if t.len() > 0 {
        t[t.len() - 1].pos
    } else {
        0
    }
}

fn a_factor(t: &Vec<Token>, i: usize) -> (r: Result<usize, FormularError>)
    requires
        i <= t@.len(),
    ensures
        match r {
            Ok(j) => accept_factor(toks_view(t@), i as int) == Some(j as int) && i < j <= t@.len(),
            Err(e) => accept_factor(toks_view(t@), i as int) is None && e matches
                FormularError::FormularParserError(_, _),
        },
    decreases t@.len() - i, 0int,
{
    if i >= t.len() {
        return Err(
            FormularError::FormularParserError(
                tok_pos(t, i),
                String::from_str("expected a number, a cell reference or an opening parenthesis"),
            ),
        );
    }
    assert(toks_view(t@)[i as int] == t@[i as int]@);
    match &t[i].kind {
        TokenKind::Num(_) => Ok(i + 1),
        TokenKind::Cell { .. } => Ok(i + 1),
        TokenKind::LParen => {
            match a_expr(t, i + 1) {
                Ok(j) => {
                    if j < t.len() {
                        assert(toks_view(t@)[j as int] == t@[j as int]@);
                        let closing = matches!(&t[j].kind, TokenKind::RParen);
                        if closing {
                            return Ok(j + 1);
                        }
                    }
                    Err(
                        FormularError::FormularParserError(
                            tok_pos(t, j),
                            String::from_str("expected a closing parenthesis"),
                        ),
                    )
                },
                Err(e) => Err(e),
            }
        },
        _ => Err(
            FormularError::FormularParserError(
                tok_pos(t, i),
                String::from_str("expected a number, a cell reference or an opening parenthesis"),
            ),
        ),
    }
}

fn a_power(t: &Vec<Token>, i: usize) -> (r: Result<usize, FormularError>)
    requires
        i <= t@.len(),
    ensures
        match r {
            Ok(j) => accept_power(toks_view(t@), i as int) == Some(j as int) && i < j <= t@.len(),
            Err(e) => accept_power(toks_view(t@), i as int) is None && e matches
                FormularError::FormularParserError(_, _),
        },
    decreases t@.len() - i, 1int,
{
    let j = match a_factor(t, i) {
        Ok(j) => j,
        Err(e) => {
            return Err(e);
        },
    };
    if j < t.len() {
        assert(toks_view(t@)[j as int] == t@[j as int]@);
        let power_next = matches!(&t[j].kind, TokenKind::Op(Op::Power));
        if power_next {
            return a_power(t, j + 1);
        }
    }
    Ok(j)
}

fn a_term(t: &Vec<Token>, i: usize) -> (r: Result<usize, FormularError>)
    requires
        i <= t@.len(),
    ensures
        match r {
            Ok(j) => accept_term(toks_view(t@), i as int) == Some(j as int) && i < j <= t@.len(),
            Err(e) => accept_term(toks_view(t@), i as int) is None && e matches
                FormularError::FormularParserError(_, _),
        },
    decreases t@.len() - i, 2int,
{
    let j = match a_power(t, i) {
        Ok(j) => j,
        Err(e) => {
            return Err(e);
        },
    };
    a_term_rest(t, j)
}

fn a_term_rest(t: &Vec<Token>, i: usize) -> (r: Result<usize, FormularError>)
    requires
        0 < i <= t@.len(),
    ensures
        match r {
            Ok(j) => accept_term_rest(toks_view(t@), i as int) == Some(j as int) && i <= j
                <= t@.len(),
            Err(e) => accept_term_rest(toks_view(t@), i as int) is None && e matches
                FormularError::FormularParserError(_, _),
        },
    decreases t@.len() - i, 3int,
{
    if i < t.len() {
        assert(toks_view(t@)[i as int] == t@[i as int]@);
        let is_mul = matches!(&t[i].kind, TokenKind::Op(Op::Times | Op::Div | Op::Rem));
        if is_mul {
            let j = match a_power(t, i + 1) {
                Ok(j) => j,
                Err(e) => {
                    return Err(e);
                },
            };
            return a_term_rest(t, j);
        }
    }
    Ok(i)
}

fn a_expr(t: &Vec<Token>, i: usize) -> (r: Result<usize, FormularError>)
    requires
        i <= t@.len(),
    ensures
        match r {
            Ok(j) => accept_expr(toks_view(t@), i as int) == Some(j as int) && i < j <= t@.len(),
            Err(e) => accept_expr(toks_view(t@), i as int) is None && e matches
                FormularError::FormularParserError(_, _),
        },
    decreases t@.len() - i, 4int,
{
    let j = match a_term(t, i) {
        Ok(j) => j,
        Err(e) => {
            return Err(e);
        },
    };
    a_expr_rest(t, j)
}

fn a_expr_rest(t: &Vec<Token>, i: usize) -> (r: Result<usize, FormularError>)
    requires
        0 < i <= t@.len(),
    ensures
        match r {
            Ok(j) => accept_expr_rest(toks_view(t@), i as int) == Some(j as int) && i <= j
                <= t@.len(),
            Err(e) => accept_expr_rest(toks_view(t@), i as int) is None && e matches
                FormularError::FormularParserError(_, _),
        },
    decreases t@.len() - i, 5int,
{
    if i < t.len() {
        assert(toks_view(t@)[i as int] == t@[i as int]@);
        let is_add = matches!(&t[i].kind, TokenKind::Op(Op::Plus | Op::Minus));
        if is_add {
            let j = match a_term(t, i + 1) {
                Ok(j) => j,
                Err(e) => {
                    return Err(e);
                },
            };
            return a_expr_rest(t, j);
        }
    }
    Ok(i)
}

// ---------------------------------------------------------------------------
// Decoding cell references and checking numeric literals.
// ---------------------------------------------------------------------------
/// Every character is an ASCII letter.
pub open spec fn all_alpha(s: Seq<char>) -> bool {
    forall|k: int| 0 <= k < s.len() ==> is_alpha(#[trigger] s[k])
}

/// Every character is an ASCII digit.
pub open spec fn all_digits(s: Seq<char>) -> bool {
    forall|k: int| 0 <= k < s.len() ==> is_digit(#[trigger] s[k])
}

/// The base-26 value of a run of column letters, case-insensitively:
/// each letter stands for 1 to 26, the first being the most significant.
pub open spec fn col_val(s: Seq<char>) -> int
    decreases s.len(),
{
    if s.len() == 0 {
        0
    } else {
        col_val(s.drop_last()) * 26 + letter_index(s.last())
    }
}

/// The decimal value of a run of row digits.
pub open spec fn row_val(s: Seq<char>) -> int
    decreases s.len(),
{
    if s.len() == 0 {
        0
    } else {
        row_val(s.drop_last()) * 10 + digit_val(s.last())
    }
}

/// A run of letters decodes to a coordinate column only when it is all
/// letters and its value fits the machine.
pub open spec fn col_ok(s: Seq<char>) -> bool {
    all_alpha(s) && col_val(s) <= usize::MAX
}

/// A run of digits decodes to a coordinate row only when it is nonempty,
/// all digits, and its value fits the machine.
pub open spec fn row_ok(s: Seq<char>) -> bool {
    s.len() > 0 && all_digits(s) && row_val(s) <= usize::MAX
}

proof fn lemma_col_val_nonneg(s: Seq<char>)
    requires
        all_alpha(s),
    ensures
        col_val(s) >= 0,
    decreases s.len(),
{
    if s.len() > 0 {
        assert(all_alpha(s.drop_last()));
        lemma_col_val_nonneg(s.drop_last());
        assert(letter_index(s.last()) >= 1);
    }
}

proof fn lemma_col_val_prefix(s: Seq<char>, k: int)
    requires
        0 <= k <= s.len(),
        all_alpha(s),
    ensures
        col_val(s.subrange(0, k)) <= col_val(s),
    decreases s.len() - k,
{
    if k == s.len() {
        assert(s.subrange(0, k) =~= s);
    } else {
        let d = s.drop_last();
        assert(all_alpha(d));
        assert(s.subrange(0, k) =~= d.subrange(0, k));
        lemma_col_val_prefix(d, k);
        lemma_col_val_nonneg(d);
        assert(letter_index(s.last()) >= 1);
    }
}

proof fn lemma_row_val_nonneg(s: Seq<char>)
    requires
        all_digits(s),
    ensures
        row_val(s) >= 0,
    decreases s.len(),
{
    if s.len() > 0 {
        assert(all_digits(s.drop_last()));
        lemma_row_val_nonneg(s.drop_last());
        assert(digit_val(s.last()) >= 0);
    }
}

proof fn lemma_row_val_prefix(s: Seq<char>, k: int)
    requires
        0 <= k <= s.len(),
        all_digits(s),
    ensures
        row_val(s.subrange(0, k)) <= row_val(s),
    decreases s.len() - k,
{
    if k == s.len() {
        assert(s.subrange(0, k) =~= s);
    } else {
        let d = s.drop_last();
        assert(all_digits(d));
        assert(s.subrange(0, k) =~= d.subrange(0, k));
        lemma_row_val_prefix(d, k);
        lemma_row_val_nonneg(d);
        assert(digit_val(s.last()) >= 0);
    }
}

/// Decodes a run of column letters, base 26 and case-insensitive: `A` and `a`
/// are 1, `Z` and `z` are 26, `AA` is 27. Fails on any character that is not
/// an ASCII letter, and on a value over what a coordinate can hold.
pub fn parse_cell_ref_col(s: &str) -> (r: Result<usize, FormularError>)
    ensures
        match r {
            Ok(v) => col_ok(s@) && v == col_val(s@),
            Err(e) => !col_ok(s@) && e matches FormularError::CellRefParserError(_),
        },
{
    let n = s.unicode_len();
    let mut acc: usize = 0;
    let mut k: usize = 0;
    assert(s@.subrange(0, 0) =~= Seq::<char>::empty());
    while k < n
        invariant
            n == s@.len(),
            k <= n,
            all_alpha(s@.subrange(0, k as int)),
            acc == col_val(s@.subrange(0, k as int)),
        decreases n - k,
    {
        let c = s.get_char(k);
        if !alpha(c) {
            assert(!all_alpha(s@)) by {
                assert(s@[k as int] == c);
            }
            return Err(
                FormularError::CellRefParserError(
                    String::from_str("invalid character in column letters"),
                ),
            );
        }
        let u = c as u32;
        let li: usize = if u >= 'a' as u32 {
            (u - 'a' as u32 + 1) as usize
        } else {
            (u - 'A' as u32 + 1) as usize
        };
        assert(li as int == letter_index(c));
        proof {
            assert(s@.subrange(0, k + 1).drop_last() =~= s@.subrange(0, k as int));
            assert(s@.subrange(0, k + 1).last() == s@[k as int]);
        }
        let stepped = match acc.checked_mul(26) {
            Some(m) => m.checked_add(li),
            None => None,
        };
        match stepped {
            Some(a2) => {
                acc = a2;
            },
            None => {
                proof {
                    if all_alpha(s@) {
                        lemma_col_val_prefix(s@, k + 1);
                    }
                }
                return Err(
                    FormularError::CellRefParserError(
                        String::from_str("column value out of range"),
                    ),
                );
            },
        }
        k += 1;
    }
    assert(s@.subrange(0, n as int) =~= s@);
    Ok(acc)
}

/// Decodes a run of row digits as a plain decimal number. Fails on an empty
/// run, on any character that is not an ASCII digit, and on a value over what
/// a coordinate can hold.
fn parse_cell_ref_row(s: &str) -> (r: Result<usize, FormularError>)
    ensures
        match r {
            Ok(v) => row_ok(s@) && v == row_val(s@),
            Err(e) => !row_ok(s@) && e matches FormularError::CellRefParserError(_),
        },
{
    let n = s.unicode_len();
    if n == 0 {
        return Err(FormularError::CellRefParserError(String::from_str("empty row number")));
    }
    let mut acc: usize = 0;
    let mut k: usize = 0;
    assert(s@.subrange(0, 0) =~= Seq::<char>::empty());
    while k < n
        invariant
            n == s@.len(),
            k <= n,
            all_digits(s@.subrange(0, k as int)),
            acc == row_val(s@.subrange(0, k as int)),
        decreases n - k,
    {
        let c = s.get_char(k);
        if !digit(c) {
            assert(!all_digits(s@)) by {
                assert(s@[k as int] == c);
            }
            return Err(
                FormularError::CellRefParserError(
                    String::from_str("invalid character in row number"),
                ),
            );
        }
        let dv: usize = ((c as u32) - ('0' as u32)) as usize;
        assert(dv as int == digit_val(c));
        proof {
            assert(s@.subrange(0, k + 1).drop_last() =~= s@.subrange(0, k as int));
            assert(s@.subrange(0, k + 1).last() == s@[k as int]);
        }
        let stepped = match acc.checked_mul(10) {
            Some(m) => m.checked_add(dv),
            None => None,
        };
        match stepped {
            Some(a2) => {
                acc = a2;
            },
            None => {
                proof {
                    if all_digits(s@) {
                        lemma_row_val_prefix(s@, k + 1);
                    }
                }
                return Err(
                    FormularError::CellRefParserError(String::from_str("row value out of range")),
                );
            },
        }
        k += 1;
    }
    assert(s@.subrange(0, n as int) =~= s@);
    Ok(acc)
}

/// Decodes a cell reference from its column letters and row digits; the
/// column is checked first, as it stands first in the reference.
fn parse_cell_ref(col: &str, row: &str) -> (r: Result<CellRef, FormularError>)
    ensures
        match r {
            Ok(cr) => col_ok(col@) && row_ok(row@) && cr == (CellRef {
                r: row_val(row@) as usize,
                c: col_val(col@) as usize,
            }),
            Err(e) => !(col_ok(col@) && row_ok(row@)) && e matches
                FormularError::CellRefParserError(_),
        },
{
    let c = match parse_cell_ref_col(col) {
        Ok(c) => c,
        Err(e) => {
            return Err(e);
        },
    };
    let r = match parse_cell_ref_row(row) {
        Ok(r) => r,
        Err(e) => {
            return Err(e);
        },
    };
    Ok(CellRef::new(r, c))
}

/// Whether a numeric literal starts at `i` and runs to the end of `s`: a run
/// of digits, optionally followed by a dot and a second run of digits.
pub open spec fn number_body_at(s: Seq<char>, i: int) -> bool {
    0 <= i < s.len() && is_digit(s[i]) && {
        let d = scan_digits(s, i);
        d == s.len() || (d < s.len() && s[d] == '.' && d + 1 < s.len() && scan_digits(s, d + 1)
            == s.len())
    }
}

/// Whether `s` is a well-formed numeric literal: an optional sign, then
/// digits with an optional fractional part.
pub open spec fn is_number(s: Seq<char>) -> bool {
    if s.len() > 0 && (s[0] == '+' || s[0] == '-') {
        number_body_at(s, 1)
    } else {
        number_body_at(s, 0)
    }
}

fn is_number_x(s: &str) -> (r: bool)
    ensures
        r == is_number(s@),
{
    let n = s.unicode_len();
    let start: usize = if n > 0 && { let c = s.get_char(0); c == '+' || c == '-' } {
        1
    } else {
        0
    };
    if start >= n || !digit(s.get_char(start)) {
        return false;
    }
    let d = scan_digits_x(s, n, start);
    if d == n {
        true
    } else if s.get_char(d) == '.' && d + 1 < n {
        let e = scan_digits_x(s, n, d + 1);
        e == n && digit(s.get_char(d + 1))
    } else {
        false
    }
}

// ---------------------------------------------------------------------------
// Building the tree. The builder walks the same grammar as acceptance, and
// additionally turns each leaf into a node: a numeric literal is checked and
// kept as text, a cell reference is decoded into a coordinate. The first
// failure, left to right, wins.
// ---------------------------------------------------------------------------
/// The outcome of one building step: a node and the position after it, or
/// the kind of failure.
pub ghost enum ParseStep {
    Done(ExprV, int),
    SyntaxFail,
    CellRefFail,
    ValueFail,
}

/// Whether `e` is the error that a failing step reports.
pub open spec fn step_err(step: ParseStep, e: FormularError) -> bool {
    match step {
        ParseStep::Done(_, _) => false,
        ParseStep::SyntaxFail => e matches FormularError::FormularParserError(_, _),
        ParseStep::CellRefFail => e matches FormularError::CellRefParserError(_),
        ParseStep::ValueFail => e matches FormularError::ValueParserError(_),
    }
}

/// Builds a factor: a literal, a decoded cell reference, or a parenthesised
/// expression.
pub open spec fn build_factor(t: Seq<TokenV>, i: int) -> ParseStep
    decreases t.len() - i, 0int,
{
    if i >= t.len() {
        ParseStep::SyntaxFail
    } else {
        match t[i].kind {
            TokenKindV::Num(text) => if is_number(text) {
                ParseStep::Done(ExprV::Value(text), i + 1)
            } else {
                ParseStep::ValueFail
            },
            TokenKindV::Cell { col, row } => if !col_ok(col) {
                ParseStep::CellRefFail
            } else if !row_ok(row) {
                ParseStep::CellRefFail
            } else {
                ParseStep::Done(
                    ExprV::Cell(CellRef { r: row_val(row) as usize, c: col_val(col) as usize }),
                    i + 1,
                )
            },
            TokenKindV::LParen => match build_expr_at(t, i + 1) {
                ParseStep::Done(e, j) => if j < t.len() && t[j].kind == TokenKindV::RParen {
                    ParseStep::Done(e, j + 1)
                } else {
                    ParseStep::SyntaxFail
                },
                f => f,
            },
            _ => ParseStep::SyntaxFail,
        }
    }
}

/// Builds a power; `^` folds to the right.
pub open spec fn build_power(t: Seq<TokenV>, i: int) -> ParseStep
    decreases t.len() - i, 1int,
{
    match build_factor(t, i) {
        ParseStep::Done(base, j) => if !(i < j <= t.len()) {
            ParseStep::SyntaxFail
        } else if j < t.len() && t[j].kind == TokenKindV::Op(Op::Power) {
            match build_power(t, j + 1) {
                ParseStep::Done(rhs, k) => ParseStep::Done(
                    ExprV::BinOp(Op::Power, Box::new(base), Box::new(rhs)),
                    k,
                ),
                f => f,
            }
        } else {
            ParseStep::Done(base, j)
        },
        f => f,
    }
}

/// Builds a term; `*`, `/` and `%` fold to the left.
pub open spec fn build_term(t: Seq<TokenV>, i: int) -> ParseStep
    decreases t.len() - i, 2int,
{
    match build_power(t, i) {
        ParseStep::Done(e, j) => if i < j <= t.len() {
            build_term_rest(t, e, j)
        } else {
            ParseStep::SyntaxFail
        },
        f => f,
    }
}

/// Folds the tail of a term onto the tree built so far.
pub open spec fn build_term_rest(t: Seq<TokenV>, acc: ExprV, i: int) -> ParseStep
    decreases t.len() - i, 3int,
{
    if 0 <= i < t.len() && mul_op_of(t[i].kind) is Some {
        let op = mul_op_of(t[i].kind)->Some_0;
        match build_power(t, i + 1) {
            ParseStep::Done(rhs, j) => if i < j <= t.len() {
                build_term_rest(t, ExprV::BinOp(op, Box::new(acc), Box::new(rhs)), j)
            } else {
                ParseStep::SyntaxFail
            },
            f => f,
        }
    } else {
        ParseStep::Done(acc, i)
    }
}

/// Builds an expression; `+` and `-` fold to the left.
pub open spec fn build_expr_at(t: Seq<TokenV>, i: int) -> ParseStep
    decreases t.len() - i, 4int,
{
    match build_term(t, i) {
        ParseStep::Done(e, j) => if i < j <= t.len() {
            build_expr_rest(t, e, j)
        } else {
            ParseStep::SyntaxFail
        },
        f => f,
    }
}

/// Folds the tail of an expression onto the tree built so far.
pub open spec fn build_expr_rest(t: Seq<TokenV>, acc: ExprV, i: int) -> ParseStep
    decreases t.len() - i, 5int,
{
    if 0 <= i < t.len() && add_op_of(t[i].kind) is Some {
        let op = add_op_of(t[i].kind)->Some_0;
        match build_term(t, i + 1) {
            ParseStep::Done(rhs, j) => if i < j <= t.len() {
                build_expr_rest(t, ExprV::BinOp(op, Box::new(acc), Box::new(rhs)), j)
            } else {
                ParseStep::SyntaxFail
            },
            f => f,
        }
    } else {
        ParseStep::Done(acc, i)
    }
}

/// Building the whole stream: succeeds only when the expression uses every
/// token.
pub open spec fn build_complete(t: Seq<TokenV>) -> ParseStep {
    match build_expr_at(t, 0) {
        ParseStep::Done(e, j) => if j == t.len() {
            ParseStep::Done(e, j)
        } else {
            ParseStep::SyntaxFail
        },
        f => f,
    }
}

fn p_factor(t: &Vec<Token>, i: usize) -> (r: Result<(Box<Expr>, usize), FormularError>)
    requires
        i <= t@.len(),
    ensures
        match r {
            Ok((e, j)) => build_factor(toks_view(t@), i as int) == ParseStep::Done(e@, j as int)
                && i < j <= t@.len(),
            Err(er) => step_err(build_factor(toks_view(t@), i as int), er),
        },
    decreases t@.len() - i, 0int,
{
    if i >= t.len() {
        return Err(
            FormularError::FormularParserError(
                tok_pos(t, i),
                String::from_str("expected a number, a cell reference or an opening parenthesis"),
            ),
        );
    }
    assert(toks_view(t@)[i as int] == t@[i as int]@);
    match &t[i].kind {
        TokenKind::Num(text) => {
            if is_number_x(text.as_str()) {
                Ok((Box::new(Expr::Value(text.clone())), i + 1))
            } else {
                Err(FormularError::ValueParserError(String::from_str("malformed numeric literal")))
            }
        },
        TokenKind::Cell { col, row } => {
            match parse_cell_ref(col.as_str(), row.as_str()) {
                Ok(cr) => Ok((Box::new(Expr::Cell(cr)), i + 1)),
                Err(e) => Err(e),
            }
        },
        TokenKind::LParen => {
            match p_expr(t, i + 1) {
                Ok((e, j)) => {
                    if j < t.len() {
                        assert(toks_view(t@)[j as int] == t@[j as int]@);
                        let closing = matches!(&t[j].kind, TokenKind::RParen);
                        if closing {
                            return Ok((e, j + 1));
                        }
                    }
                    Err(
                        FormularError::FormularParserError(
                            tok_pos(t, j),
                            String::from_str("expected a closing parenthesis"),
                        ),
                    )
                },
                Err(e) => Err(e),
            }
        },
        _ => Err(
            FormularError::FormularParserError(
                tok_pos(t, i),
                String::from_str("expected a number, a cell reference or an opening parenthesis"),
            ),
        ),
    }
}

fn p_power(t: &Vec<Token>, i: usize) -> (r: Result<(Box<Expr>, usize), FormularError>)
    requires
        i <= t@.len(),
    ensures
        match r {
            Ok((e, j)) => build_power(toks_view(t@), i as int) == ParseStep::Done(e@, j as int)
                && i < j <= t@.len(),
            Err(er) => step_err(build_power(toks_view(t@), i as int), er),
        },
    decreases t@.len() - i, 1int,
{
    let (base, j) = match p_factor(t, i) {
        Ok(p) => p,
        Err(e) => {
            return Err(e);
        },
    };
    if j < t.len() {
        assert(toks_view(t@)[j as int] == t@[j as int]@);
        let power_next = matches!(&t[j].kind, TokenKind::Op(Op::Power));
        if power_next {
            let (rhs, k) = match p_power(t, j + 1) {
                Ok(p) => p,
                Err(e) => {
                    return Err(e);
                },
            };
            return Ok((Box::new(Expr::BinOp(Op::Power, base, rhs)), k));
        }
    }
    Ok((base, j))
}

fn p_term(t: &Vec<Token>, i: usize) -> (r: Result<(Box<Expr>, usize), FormularError>)
    requires
        i <= t@.len(),
    ensures
        match r {
            Ok((e, j)) => build_term(toks_view(t@), i as int) == ParseStep::Done(e@, j as int)
                && i < j <= t@.len(),
            Err(er) => step_err(build_term(toks_view(t@), i as int), er),
        },
    decreases t@.len() - i, 2int,
{
    let (first, j) = match p_power(t, i) {
        Ok(p) => p,
        Err(e) => {
            return Err(e);
        },
    };
    p_term_rest(t, first, j)
}

fn p_term_rest(t: &Vec<Token>, acc: Box<Expr>, i: usize) -> (r: Result<
    (Box<Expr>, usize),
    FormularError,
>)
    requires
        0 < i <= t@.len(),
    ensures
        match r {
            Ok((e, j)) => build_term_rest(toks_view(t@), acc@, i as int) == ParseStep::Done(
                e@,
                j as int,
            ) && i <= j <= t@.len(),
            Err(er) => step_err(build_term_rest(toks_view(t@), acc@, i as int), er),
        },
    decreases t@.len() - i, 3int,
{
    if i < t.len() {
        assert(toks_view(t@)[i as int] == t@[i as int]@);
        let op: Option<Op> = match &t[i].kind {
            TokenKind::Op(o) => match o {
                Op::Times => Some(Op::Times),
                Op::Div => Some(Op::Div),
                Op::Rem => Some(Op::Rem),
                _ => None,
            },
            _ => None,
        };
        if let Some(op) = op {
            let (rhs, j) = match p_power(t, i + 1) {
                Ok(p) => p,
                Err(e) => {
                    return Err(e);
                },
            };
            return p_term_rest(t, Box::new(Expr::BinOp(op, acc, rhs)), j);
        }
    }
    Ok((acc, i))
}

fn p_expr(t: &Vec<Token>, i: usize) -> (r: Result<(Box<Expr>, usize), FormularError>)
    requires
        i <= t@.len(),
    ensures
        match r {
            Ok((e, j)) => build_expr_at(toks_view(t@), i as int) == ParseStep::Done(e@, j as int)
                && i < j <= t@.len(),
            Err(er) => step_err(build_expr_at(toks_view(t@), i as int), er),
        },
    decreases t@.len() - i, 4int,
{
    let (first, j) = match p_term(t, i) {
        Ok(p) => p,
        Err(e) => {
            return Err(e);
        },
    };
    p_expr_rest(t, first, j)
}

fn p_expr_rest(t: &Vec<Token>, acc: Box<Expr>, i: usize) -> (r: Result<
    (Box<Expr>, usize),
    FormularError,
>)
    requires
        0 < i <= t@.len(),
    ensures
        match r {
            Ok((e, j)) => build_expr_rest(toks_view(t@), acc@, i as int) == ParseStep::Done(
                e@,
                j as int,
            ) && i <= j <= t@.len(),
            Err(er) => step_err(build_expr_rest(toks_view(t@), acc@, i as int), er),
        },
    decreases t@.len() - i, 5int,
{
    if i < t.len() {
        assert(toks_view(t@)[i as int] == t@[i as int]@);
        let op: Option<Op> = match &t[i].kind {
            TokenKind::Op(o) => match o {
                Op::Plus => Some(Op::Plus),
                Op::Minus => Some(Op::Minus),
                _ => None,
            },
            _ => None,
        };
        if let Some(op) = op {
            let (rhs, j) = match p_term(t, i + 1) {
                Ok(p) => p,
                Err(e) => {
                    return Err(e);
                },
            };
            return p_expr_rest(t, Box::new(Expr::BinOp(op, acc, rhs)), j);
        }
    }
    Ok((acc, i))
}

/// Consumes a token stream and builds the expression tree over it, honouring
/// precedence and associativity; fails unless the expression uses every
/// token. Literals must be well-formed numbers and cell references must
/// decode into coordinates; the first failure, left to right, wins.
pub fn build_expr(t: &Vec<Token>) -> (r: Result<Box<Expr>, FormularError>)
    ensures
        match r {
            Ok(e) => build_complete(toks_view(t@)) == ParseStep::Done(
                e@,
                toks_view(t@).len() as int,
            ),
            Err(er) => step_err(build_complete(toks_view(t@)), er),
        },
{
    match p_expr(t, 0) {
        Ok((e, j)) => {
            if j == t.len() {
                Ok(e)
            } else {
                Err(
                    FormularError::FormularParserError(
                        tok_pos(t, j),
                        String::from_str("unexpected input after the expression"),
                    ),
                )
            }
        },
        Err(e) => Err(e),
    }
}

// ---------------------------------------------------------------------------
// The structural parser.
// ---------------------------------------------------------------------------
/// Runs the grammar over formula text.
pub struct FormularParser;

/// The token stream of `s`, when `s` as a whole is a well-formed formula.
pub open spec fn spec_parse(s: Seq<char>) -> Option<Seq<TokenV>> {
    match spec_tokens(s) {
        Some(ts) => if accept_expr(ts, 0) == Some(ts.len() as int) {
            Some(ts)
        } else {
            None
        },
        None => None,
    }
}

impl FormularParser {
    /// Checks `s` against the grammar, all or nothing, and hands back its
    /// token stream; any text the grammar rejects yields a syntax error with
    /// a position and a description.
    pub fn parse(s: &str) -> (r: Result<Vec<Token>, FormularError>)
        ensures
            match r {
                Ok(v) => spec_parse(s@) == Some(toks_view(v@)),
                Err(e) => spec_parse(s@) is None && e matches FormularError::FormularParserError(
                    _,
                    _,
                ),
            },
    {
        let toks = match tokenize(s) {
            Ok(v) => v,
            Err(e) => {
                return Err(e);
            },
        };
        let j = match a_expr(&toks, 0) {
            Ok(j) => j,
            Err(e) => {
                return Err(e);
            },
        };
        if j == toks.len() {
            Ok(toks)
        } else {
            Err(
                FormularError::FormularParserError(
                    tok_pos(&toks, j),
                    String::from_str("unexpected input after the expression"),
                ),
            )
        }
    }
}

// ---------------------------------------------------------------------------
// Laws of the builder: precedence and associativity, stated over any token
// stream of the given shape.
// ---------------------------------------------------------------------------
/// Multiplication binds tighter than addition: over the tokens
/// `a + b * c` the builder yields `a + (b * c)`, never `(a + b) * c`.
pub proof fn lemma_mul_binds_tighter(t: Seq<TokenV>, a: Seq<char>, b: Seq<char>, c: Seq<char>)
    requires
        t.len() == 5,
        t[0].kind == TokenKindV::Num(a),
        is_number(a),
        t[1].kind == TokenKindV::Op(Op::Plus),
        t[2].kind == TokenKindV::Num(b),
        is_number(b),
        t[3].kind == TokenKindV::Op(Op::Times),
        t[4].kind == TokenKindV::Num(c),
        is_number(c),
    ensures
        build_complete(t) == ParseStep::Done(
            ExprV::BinOp(
                Op::Plus,
                Box::new(ExprV::Value(a)),
                Box::new(
                    ExprV::BinOp(Op::Times, Box::new(ExprV::Value(b)), Box::new(ExprV::Value(c))),
                ),
            ),
            5,
        ),
{
    assert(build_factor(t, 0) == ParseStep::Done(ExprV::Value(a), 1));
    assert(build_power(t, 0) == ParseStep::Done(ExprV::Value(a), 1));
    assert(build_term_rest(t, ExprV::Value(a), 1) == ParseStep::Done(ExprV::Value(a), 1));
    assert(build_term(t, 0) == ParseStep::Done(ExprV::Value(a), 1));
    assert(build_factor(t, 2) == ParseStep::Done(ExprV::Value(b), 3));
    assert(build_power(t, 2) == ParseStep::Done(ExprV::Value(b), 3));
    assert(build_factor(t, 4) == ParseStep::Done(ExprV::Value(c), 5));
    assert(build_power(t, 4) == ParseStep::Done(ExprV::Value(c), 5));
    let bc = ExprV::BinOp(Op::Times, Box::new(ExprV::Value(b)), Box::new(ExprV::Value(c)));
    assert(build_term_rest(t, bc, 5) == ParseStep::Done(bc, 5));
    assert(build_term_rest(t, ExprV::Value(b), 3) == ParseStep::Done(bc, 5));
    assert(build_term(t, 2) == ParseStep::Done(bc, 5));
    let abc = ExprV::BinOp(Op::Plus, Box::new(ExprV::Value(a)), Box::new(bc));
    assert(build_expr_rest(t, abc, 5) == ParseStep::Done(abc, 5));
    assert(build_expr_rest(t, ExprV::Value(a), 1) == ParseStep::Done(abc, 5));
    assert(build_expr_at(t, 0) == ParseStep::Done(abc, 5));
}

/// Parentheses override precedence: over the tokens `( a + b ) * c` the
/// builder yields `(a + b) * c`.
pub proof fn lemma_parens_override(t: Seq<TokenV>, a: Seq<char>, b: Seq<char>, c: Seq<char>)
    requires
        t.len() == 7,
        t[0].kind == TokenKindV::LParen,
        t[1].kind == TokenKindV::Num(a),
        is_number(a),
        t[2].kind == TokenKindV::Op(Op::Plus),
        t[3].kind == TokenKindV::Num(b),
        is_number(b),
        t[4].kind == TokenKindV::RParen,
        t[5].kind == TokenKindV::Op(Op::Times),
        t[6].kind == TokenKindV::Num(c),
        is_number(c),
    ensures
        build_complete(t) == ParseStep::Done(
            ExprV::BinOp(
                Op::Times,
                Box::new(
                    ExprV::BinOp(Op::Plus, Box::new(ExprV::Value(a)), Box::new(ExprV::Value(b))),
                ),
                Box::new(ExprV::Value(c)),
            ),
            7,
        ),
{
    assert(build_factor(t, 1) == ParseStep::Done(ExprV::Value(a), 2));
    assert(build_power(t, 1) == ParseStep::Done(ExprV::Value(a), 2));
    assert(build_term_rest(t, ExprV::Value(a), 2) == ParseStep::Done(ExprV::Value(a), 2));
    assert(build_term(t, 1) == ParseStep::Done(ExprV::Value(a), 2));
    assert(build_factor(t, 3) == ParseStep::Done(ExprV::Value(b), 4));
    assert(build_power(t, 3) == ParseStep::Done(ExprV::Value(b), 4));
    assert(build_term_rest(t, ExprV::Value(b), 4) == ParseStep::Done(ExprV::Value(b), 4));
    assert(build_term(t, 3) == ParseStep::Done(ExprV::Value(b), 4));
    let ab = ExprV::BinOp(Op::Plus, Box::new(ExprV::Value(a)), Box::new(ExprV::Value(b)));
    assert(build_expr_rest(t, ab, 4) == ParseStep::Done(ab, 4));
    assert(build_expr_rest(t, ExprV::Value(a), 2) == ParseStep::Done(ab, 4));
    assert(build_expr_at(t, 1) == ParseStep::Done(ab, 4));
    assert(build_factor(t, 0) == ParseStep::Done(ab, 5));
    assert(build_power(t, 0) == ParseStep::Done(ab, 5));
    assert(build_factor(t, 6) == ParseStep::Done(ExprV::Value(c), 7));
    assert(build_power(t, 6) == ParseStep::Done(ExprV::Value(c), 7));
    let abc = ExprV::BinOp(Op::Times, Box::new(ab), Box::new(ExprV::Value(c)));
    assert(build_term_rest(t, abc, 7) == ParseStep::Done(abc, 7));
    assert(build_term_rest(t, ab, 5) == ParseStep::Done(abc, 7));
    assert(build_term(t, 0) == ParseStep::Done(abc, 7));
    assert(build_expr_rest(t, abc, 7) == ParseStep::Done(abc, 7));
    assert(build_expr_at(t, 0) == ParseStep::Done(abc, 7));
}

/// Power folds to the right: over the tokens `a ^ b ^ c` the builder yields
/// `a ^ (b ^ c)`, never `(a ^ b) ^ c`.
pub proof fn lemma_power_right_assoc(t: Seq<TokenV>, a: Seq<char>, b: Seq<char>, c: Seq<char>)
    requires
        t.len() == 5,
        t[0].kind == TokenKindV::Num(a),
        is_number(a),
        t[1].kind == TokenKindV::Op(Op::Power),
        t[2].kind == TokenKindV::Num(b),
        is_number(b),
        t[3].kind == TokenKindV::Op(Op::Power),
        t[4].kind == TokenKindV::Num(c),
        is_number(c),
    ensures
        build_complete(t) == ParseStep::Done(
            ExprV::BinOp(
                Op::Power,
                Box::new(ExprV::Value(a)),
                Box::new(
                    ExprV::BinOp(Op::Power, Box::new(ExprV::Value(b)), Box::new(ExprV::Value(c))),
                ),
            ),
            5,
        ),
{
    assert(build_factor(t, 4) == ParseStep::Done(ExprV::Value(c), 5));
    assert(build_power(t, 4) == ParseStep::Done(ExprV::Value(c), 5));
    assert(build_factor(t, 2) == ParseStep::Done(ExprV::Value(b), 3));
    let bc = ExprV::BinOp(Op::Power, Box::new(ExprV::Value(b)), Box::new(ExprV::Value(c)));
    assert(build_power(t, 2) == ParseStep::Done(bc, 5));
    assert(build_factor(t, 0) == ParseStep::Done(ExprV::Value(a), 1));
    let abc = ExprV::BinOp(Op::Power, Box::new(ExprV::Value(a)), Box::new(bc));
    assert(build_power(t, 0) == ParseStep::Done(abc, 5));
    assert(build_term_rest(t, abc, 5) == ParseStep::Done(abc, 5));
    assert(build_term(t, 0) == ParseStep::Done(abc, 5));
    assert(build_expr_rest(t, abc, 5) == ParseStep::Done(abc, 5));
    assert(build_expr_at(t, 0) == ParseStep::Done(abc, 5));
}

/// Subtraction folds to the left: over the tokens `a - b - c` the builder
/// yields `(a - b) - c`, never `a - (b - c)`.
pub proof fn lemma_sub_left_assoc(t: Seq<TokenV>, a: Seq<char>, b: Seq<char>, c: Seq<char>)
    requires
        t.len() == 5,
        t[0].kind == TokenKindV::Num(a),
        is_number(a),
        t[1].kind == TokenKindV::Op(Op::Minus),
        t[2].kind == TokenKindV::Num(b),
        is_number(b),
        t[3].kind == TokenKindV::Op(Op::Minus),
        t[4].kind == TokenKindV::Num(c),
        is_number(c),
    ensures
        build_complete(t) == ParseStep::Done(
            ExprV::BinOp(
                Op::Minus,
                Box::new(
                    ExprV::BinOp(Op::Minus, Box::new(ExprV::Value(a)), Box::new(ExprV::Value(b))),
                ),
                Box::new(ExprV::Value(c)),
            ),
            5,
        ),
{
    assert(build_factor(t, 0) == ParseStep::Done(ExprV::Value(a), 1));
    assert(build_power(t, 0) == ParseStep::Done(ExprV::Value(a), 1));
    assert(build_term_rest(t, ExprV::Value(a), 1) == ParseStep::Done(ExprV::Value(a), 1));
    assert(build_term(t, 0) == ParseStep::Done(ExprV::Value(a), 1));
    assert(build_factor(t, 2) == ParseStep::Done(ExprV::Value(b), 3));
    assert(build_power(t, 2) == ParseStep::Done(ExprV::Value(b), 3));
    assert(build_term_rest(t, ExprV::Value(b), 3) == ParseStep::Done(ExprV::Value(b), 3));
    assert(build_term(t, 2) == ParseStep::Done(ExprV::Value(b), 3));
    assert(build_factor(t, 4) == ParseStep::Done(ExprV::Value(c), 5));
    assert(build_power(t, 4) == ParseStep::Done(ExprV::Value(c), 5));
    assert(build_term_rest(t, ExprV::Value(c), 5) == ParseStep::Done(ExprV::Value(c), 5));
    assert(build_term(t, 4) == ParseStep::Done(ExprV::Value(c), 5));
    let ab = ExprV::BinOp(Op::Minus, Box::new(ExprV::Value(a)), Box::new(ExprV::Value(b)));
    let abc = ExprV::BinOp(Op::Minus, Box::new(ab), Box::new(ExprV::Value(c)));
    assert(build_expr_rest(t, abc, 5) == ParseStep::Done(abc, 5));
    assert(build_expr_rest(t, ab, 3) == ParseStep::Done(abc, 5));
    assert(build_expr_rest(t, ExprV::Value(a), 1) == ParseStep::Done(abc, 5));
    assert(build_expr_at(t, 0) == ParseStep::Done(abc, 5));
}

// ---------------------------------------------------------------------------
// The tokenizer only emits well-formed numbers, so building from text can
// never fail on a literal.
// ---------------------------------------------------------------------------
/// Every numeric token in the stream holds a well-formed number.
pub open spec fn nums_ok(ts: Seq<TokenV>) -> bool {
    forall|k: int|
        0 <= k < ts.len() ==> match #[trigger] ts[k].kind {
            TokenKindV::Num(x) => is_number(x),
            _ => true,
        }
}

proof fn lemma_scan_digits_chars(s: Seq<char>, i: int)
    requires
        0 <= i <= s.len(),
    ensures
        i <= scan_digits(s, i) <= s.len(),
        forall|k: int| i <= k < scan_digits(s, i) ==> is_digit(#[trigger] s[k]),
        scan_digits(s, i) < s.len() ==> !is_digit(s[scan_digits(s, i)]),
    decreases s.len() - i,
{
    lemma_scan_digits_bounds(s, i);
    if i < s.len() && is_digit(s[i]) {
        lemma_scan_digits_chars(s, i + 1);
    }
}

proof fn lemma_scan_digits_exact(u: Seq<char>, a: int, b: int)
    requires
        0 <= a <= b <= u.len(),
        forall|k: int| a <= k < b ==> is_digit(#[trigger] u[k]),
        b == u.len() || !is_digit(u[b]),
    ensures
        scan_digits(u, a) == b,
    decreases b - a,
{
    if a < b {
        lemma_scan_digits_exact(u, a + 1, b);
    }
}

/// The text that the tokenizer cuts for a number that starts with a digit is
/// a well-formed number.
proof fn lemma_num_text_valid(s: Seq<char>, i: int)
    requires
        0 <= i < s.len(),
        is_digit(s[i]),
    ensures
        is_number(s.subrange(i, num_end(s, i))),
{
    let j1 = scan_digits(s, i);
    lemma_scan_digits_chars(s, i);
    let j = num_end(s, i);
    lemma_num_end_after_digit(s, i);
    let sub = s.subrange(i, j);
    if j1 < s.len() && s[j1] == '.' && j1 + 1 < s.len() && is_digit(s[j1 + 1]) {
        lemma_scan_digits_chars(s, j1 + 1);
        assert(forall|k: int| 0 <= k < j1 - i ==> is_digit(#[trigger] sub[k]));
        lemma_scan_digits_exact(sub, 0, j1 - i);
        assert(sub[j1 - i] == '.');
        assert(forall|k: int| j1 - i + 1 <= k < sub.len() ==> is_digit(#[trigger] sub[k]));
        lemma_scan_digits_exact(sub, j1 - i + 1, sub.len() as int);
    } else {
        assert(forall|k: int| 0 <= k < sub.len() ==> is_digit(#[trigger] sub[k]));
        lemma_scan_digits_exact(sub, 0, sub.len() as int);
    }
}

/// The text that the tokenizer cuts for a signed number is a well-formed
/// number.
proof fn lemma_signed_num_text_valid(s: Seq<char>, i: int)
    requires
        0 <= i,
        i + 1 < s.len(),
        s[i] == '+' || s[i] == '-',
        is_digit(s[i + 1]),
    ensures
        is_number(s.subrange(i, num_end(s, i + 1))),
{
    let j1 = scan_digits(s, i + 1);
    lemma_scan_digits_chars(s, i + 1);
    let j = num_end(s, i + 1);
    lemma_num_end_after_digit(s, i + 1);
    let sub = s.subrange(i, j);
    assert(sub[0] == s[i]);
    if j1 < s.len() && s[j1] == '.' && j1 + 1 < s.len() && is_digit(s[j1 + 1]) {
        lemma_scan_digits_chars(s, j1 + 1);
        assert(forall|k: int| 1 <= k < j1 - i ==> is_digit(#[trigger] sub[k]));
        lemma_scan_digits_exact(sub, 1, j1 - i);
        assert(sub[j1 - i] == '.');
        assert(forall|k: int| j1 - i + 1 <= k < sub.len() ==> is_digit(#[trigger] sub[k]));
        lemma_scan_digits_exact(sub, j1 - i + 1, sub.len() as int);
    } else {
        assert(forall|k: int| 1 <= k < sub.len() ==> is_digit(#[trigger] sub[k]));
        lemma_scan_digits_exact(sub, 1, sub.len() as int);
    }
}

/// Tokenizing keeps every numeric token well-formed.
proof fn lemma_tokens_nums_ok(s: Seq<char>, i: int, acc: Seq<TokenV>)
    requires
        0 <= i,
        nums_ok(acc),
    ensures
        spec_tokenize(s, i, acc) matches Some(ts) ==> nums_ok(ts),
    decreases s.len() - i,
{
    if i >= s.len() {
    } else {
        let c = s[i];
        if is_space(c) {
            lemma_tokens_nums_ok(s, i + 1, acc);
        } else if is_digit(c) {
            let j = num_end(s, i);
            if i < j <= s.len() {
                lemma_num_text_valid(s, i);
                let tok = TokenV { pos: i, kind: TokenKindV::Num(s.subrange(i, j)) };
                assert(nums_ok(acc.push(tok)));
                lemma_tokens_nums_ok(s, j, acc.push(tok));
            }
        } else if is_alpha(c) {
            let j = scan_alpha(s, i);
            if j < s.len() && is_digit(s[j]) {
                let k = scan_digits(s, j);
                if i < k <= s.len() {
                    let tok = TokenV {
                        pos: i,
                        kind: TokenKindV::Cell { col: s.subrange(i, j), row: s.subrange(j, k) },
                    };
                    assert(nums_ok(acc.push(tok)));
                    lemma_tokens_nums_ok(s, k, acc.push(tok));
                }
            }
        } else if (c == '+' || c == '-') && i + 1 < s.len() && is_digit(s[i + 1])
            && sign_starts_number(acc) {
            let j = num_end(s, i + 1);
            if i < j <= s.len() {
                lemma_signed_num_text_valid(s, i);
                let tok = TokenV { pos: i, kind: TokenKindV::Num(s.subrange(i, j)) };
                assert(nums_ok(acc.push(tok)));
                lemma_tokens_nums_ok(s, j, acc.push(tok));
            }
        } else if c == '+' || c == '-' || c == '*' || c == '/' || c == '%' || c == '^' || c == '('
            || c == ')' {
            let tok = spec_tokenize_op_token(s, i);
            assert(nums_ok(acc.push(tok)));
            lemma_tokens_nums_ok(s, i + 1, acc.push(tok));
        }
    }
}

/// The non-number, non-cell token the tokenizer emits at `i`.
spec fn spec_tokenize_op_token(s: Seq<char>, i: int) -> TokenV {
    let c = s[i];
    if c == '+' {
        TokenV { pos: i, kind: TokenKindV::Op(Op::Plus) }
    } else if c == '-' {
        TokenV { pos: i, kind: TokenKindV::Op(Op::Minus) }
    } else if c == '*' {
        TokenV { pos: i, kind: TokenKindV::Op(Op::Times) }
    } else if c == '/' {
        TokenV { pos: i, kind: TokenKindV::Op(Op::Div) }
    } else if c == '%' {
        TokenV { pos: i, kind: TokenKindV::Op(Op::Rem) }
    } else if c == '^' {
        TokenV { pos: i, kind: TokenKindV::Op(Op::Power) }
    } else if c == '(' {
        TokenV { pos: i, kind: TokenKindV::LParen }
    } else {
        TokenV { pos: i, kind: TokenKindV::RParen }
    }
}

proof fn lemma_build_no_value_fail_factor(t: Seq<TokenV>, i: int)
    requires
        0 <= i,
        nums_ok(t),
    ensures
        build_factor(t, i) != ParseStep::ValueFail,
    decreases t.len() - i, 0int,
{
    if i < t.len() {
        match t[i].kind {
            TokenKindV::LParen => {
                lemma_build_no_value_fail_expr(t, i + 1);
            },
            _ => {},
        }
    }
}

proof fn lemma_build_no_value_fail_power(t: Seq<TokenV>, i: int)
    requires
        0 <= i,
        nums_ok(t),
    ensures
        build_power(t, i) != ParseStep::ValueFail,
    decreases t.len() - i, 1int,
{
    lemma_build_no_value_fail_factor(t, i);
    if let ParseStep::Done(_, j) = build_factor(t, i) {
        if i < j <= t.len() && j < t.len() && t[j].kind == TokenKindV::Op(Op::Power) {
            lemma_build_no_value_fail_power(t, j + 1);
        }
    }
}

proof fn lemma_build_no_value_fail_term_rest(t: Seq<TokenV>, acc: ExprV, i: int)
    requires
        0 <= i,
        nums_ok(t),
    ensures
        build_term_rest(t, acc, i) != ParseStep::ValueFail,
    decreases t.len() - i, 3int,
{
    if 0 <= i < t.len() && mul_op_of(t[i].kind) is Some {
        let op = mul_op_of(t[i].kind)->Some_0;
        lemma_build_no_value_fail_power(t, i + 1);
        if let ParseStep::Done(rhs, j) = build_power(t, i + 1) {
            if i < j <= t.len() {
                lemma_build_no_value_fail_term_rest(
                    t,
                    ExprV::BinOp(op, Box::new(acc), Box::new(rhs)),
                    j,
                );
            }
        }
    }
}

proof fn lemma_build_no_value_fail_term(t: Seq<TokenV>, i: int)
    requires
        0 <= i,
        nums_ok(t),
    ensures
        build_term(t, i) != ParseStep::ValueFail,
    decreases t.len() - i, 2int,
{
    lemma_build_no_value_fail_power(t, i);
    if let ParseStep::Done(e, j) = build_power(t, i) {
        if i < j <= t.len() {
            lemma_build_no_value_fail_term_rest(t, e, j);
        }
    }
}

proof fn lemma_build_no_value_fail_expr_rest(t: Seq<TokenV>, acc: ExprV, i: int)
    requires
        0 <= i,
        nums_ok(t),
    ensures
        build_expr_rest(t, acc, i) != ParseStep::ValueFail,
    decreases t.len() - i, 5int,
{
    if 0 <= i < t.len() && add_op_of(t[i].kind) is Some {
        let op = add_op_of(t[i].kind)->Some_0;
        lemma_build_no_value_fail_term(t, i + 1);
        if let ParseStep::Done(rhs, j) = build_term(t, i + 1) {
            if i < j <= t.len() {
                lemma_build_no_value_fail_expr_rest(
                    t,
                    ExprV::BinOp(op, Box::new(acc), Box::new(rhs)),
                    j,
                );
            }
        }
    }
}

proof fn lemma_build_no_value_fail_expr(t: Seq<TokenV>, i: int)
    requires
        0 <= i,
        nums_ok(t),
    ensures
        build_expr_at(t, i) != ParseStep::ValueFail,
    decreases t.len() - i, 4int,
{
    lemma_build_no_value_fail_term(t, i);
    if let ParseStep::Done(e, j) = build_term(t, i) {
        if i < j <= t.len() {
            lemma_build_no_value_fail_expr_rest(t, e, j);
        }
    }
}

/// The tokenizer only emits well-formed numbers, and the builder fails on a
/// literal only where one is malformed; so building from text never fails on
/// a literal.
pub proof fn lemma_text_never_value_fails(s: Seq<char>)
    ensures
        spec_tokens(s) matches Some(ts) ==> build_complete(ts) != ParseStep::ValueFail,
{
    lemma_tokens_nums_ok(s, 0, Seq::empty());
    if let Some(ts) = spec_tokens(s) {
        lemma_build_no_value_fail_expr(ts, 0);
    }
}

/// Wherever the builder yields a factor, the grammar accepts one, ending at
/// the same position.
pub proof fn lemma_build_accepted_factor(t: Seq<TokenV>, i: int)
    ensures
        build_factor(t, i) matches ParseStep::Done(_, j) ==> accept_factor(t, i) == Some(j),
    decreases t.len() - i, 0int,
{
    if i < t.len() {
        match t[i].kind {
            TokenKindV::LParen => {
                lemma_build_accepted_expr(t, i + 1);
            },
            _ => {},
        }
    }
}

/// Wherever the builder yields a power, the grammar accepts one, ending at
/// the same position.
pub proof fn lemma_build_accepted_power(t: Seq<TokenV>, i: int)
    ensures
        build_power(t, i) matches ParseStep::Done(_, j) ==> accept_power(t, i) == Some(j),
    decreases t.len() - i, 1int,
{
    lemma_build_accepted_factor(t, i);
    if let ParseStep::Done(_, j) = build_factor(t, i) {
        if i < j <= t.len() && j < t.len() && t[j].kind == TokenKindV::Op(Op::Power) {
            lemma_build_accepted_power(t, j + 1);
        }
    }
}

/// Wherever the builder yields a term, the grammar accepts one, ending at
/// the same position.
pub proof fn lemma_build_accepted_term(t: Seq<TokenV>, i: int)
    ensures
        build_term(t, i) matches ParseStep::Done(_, j) ==> accept_term(t, i) == Some(j),
    decreases t.len() - i, 2int,
{
    lemma_build_accepted_power(t, i);
    if let ParseStep::Done(e, j) = build_power(t, i) {
        if i < j <= t.len() {
            lemma_build_accepted_term_rest(t, e, j);
        }
    }
}

/// Wherever the builder folds the tail of a term, the grammar accepts that
/// tail, ending at the same position.
pub proof fn lemma_build_accepted_term_rest(t: Seq<TokenV>, acc: ExprV, i: int)
    ensures
        build_term_rest(t, acc, i) matches ParseStep::Done(_, j) ==> accept_term_rest(t, i)
            == Some(j),
    decreases t.len() - i, 3int,
{
    if 0 <= i < t.len() && mul_op_of(t[i].kind) is Some {
        let op = mul_op_of(t[i].kind)->Some_0;
        lemma_build_accepted_power(t, i + 1);
        if let ParseStep::Done(rhs, j) = build_power(t, i + 1) {
            if i < j <= t.len() {
                lemma_build_accepted_term_rest(
                    t,
                    ExprV::BinOp(op, Box::new(acc), Box::new(rhs)),
                    j,
                );
            }
        }
    }
}

/// Wherever the builder yields an expression, the grammar accepts one,
/// ending at the same position: the grammar and the builder walk the same
/// language.
pub proof fn lemma_build_accepted_expr(t: Seq<TokenV>, i: int)
    ensures
        build_expr_at(t, i) matches ParseStep::Done(_, j) ==> accept_expr(t, i) == Some(j),
    decreases t.len() - i, 4int,
{
    lemma_build_accepted_term(t, i);
    if let ParseStep::Done(e, j) = build_term(t, i) {
        if i < j <= t.len() {
            lemma_build_accepted_expr_rest(t, e, j);
        }
    }
}

/// Wherever the builder folds the tail of an expression, the grammar accepts
/// that tail, ending at the same position.
pub proof fn lemma_build_accepted_expr_rest(t: Seq<TokenV>, acc: ExprV, i: int)
    ensures
        build_expr_rest(t, acc, i) matches ParseStep::Done(_, j) ==> accept_expr_rest(t, i)
            == Some(j),
    decreases t.len() - i, 5int,
{
    if 0 <= i < t.len() && add_op_of(t[i].kind) is Some {
        let op = add_op_of(t[i].kind)->Some_0;
        lemma_build_accepted_term(t, i + 1);
        if let ParseStep::Done(rhs, j) = build_term(t, i + 1) {
            if i < j <= t.len() {
                lemma_build_accepted_expr_rest(
                    t,
                    ExprV::BinOp(op, Box::new(acc), Box::new(rhs)),
                    j,
                );
            }
        }
    }
}

/// Column decoding is case-insensitive: two runs of letters whose characters
/// stand for the same letter values decode to the same column. A lower-case
/// letter and its upper-case form have the same letter value by definition.
pub proof fn lemma_col_case_insensitive(s1: Seq<char>, s2: Seq<char>)
    requires
        s1.len() == s2.len(),
        forall|k: int| 0 <= k < s1.len() ==> letter_index(#[trigger] s1[k]) == letter_index(s2[k]),
    ensures
        col_val(s1) == col_val(s2),
    decreases s1.len(),
{
    if s1.len() > 0 {
        assert(forall|k: int|
            0 <= k < s1.drop_last().len() ==> letter_index(#[trigger] s1.drop_last()[k])
                == letter_index(s2.drop_last()[k]));
        lemma_col_case_insensitive(s1.drop_last(), s2.drop_last());
        assert(letter_index(s1.last()) == letter_index(s2.last()));
    }
}

} // verus!
