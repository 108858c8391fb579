use vstd::prelude::*;
use crate::expr::{BinOp, Expr, Ty, UnOp, is_untyped, mk_binary, mk_unary};
use crate::smt::{digit_seq, fresh_name, numeral, write_fresh_name, write_numeral};
use crate::typeck::same_tree;

verus! {

/// A token of the condition language.
#[derive(Debug)]
pub enum Token {
    Num(u64),
    Ident(String),
    True,
    False,
    Op(BinOp),
    Bang,
    LParen,
    RParen,
}

/// Malformed condition text: the character span where it went wrong, and
/// what was expected there.
#[derive(Debug)]
pub struct ParseError {
    pub start: usize,
    pub end: usize,
    pub expected: String,
}

fn parse_error(start: usize, end: usize, expected: &str) -> (r: ParseError)
    requires
        expected@.len() > 0,
    ensures
        r.start == start,
        r.end == end,
        r.expected@ == expected@,
{
    ParseError { start, end, expected: expected.to_owned() }
}

pub open spec fn is_digit(c: char) -> bool {
    '0' <= c <= '9'
}

pub open spec fn is_ident_start(c: char) -> bool {
    ('a' <= c <= 'z') || ('A' <= c <= 'Z') || c == '_'
}

pub open spec fn is_ident_char(c: char) -> bool {
    is_ident_start(c) || is_digit(c)
}

fn is_word_char(d: char) -> (r: bool)
    ensures
        r == is_ident_char(d),
{
    ('a' <= d && d <= 'z') || ('A' <= d && d <= 'Z') || d == '_' || ('0' <= d && d <= '9')
}

fn digit_value(c: char) -> (r: u64)
    requires
        is_digit(c),
    ensures
        r == (c as u32 - '0' as u32),
        r < 10,
{
    (c as u32 - '0' as u32) as u64
}

/// A token as the lexer sees it: names as character sequences.
pub enum Lexeme {
    Num(u64),
    Ident(Seq<char>),
    True,
    False,
    Op(BinOp),
    Bang,
    LParen,
    RParen,
}

pub open spec fn lexeme(t: Token) -> Lexeme {
    match t {
        Token::Num(v) => Lexeme::Num(v),
        Token::Ident(n) => Lexeme::Ident(n@),
        Token::True => Lexeme::True,
        Token::False => Lexeme::False,
        Token::Op(op) => Lexeme::Op(op),
        Token::Bang => Lexeme::Bang,
        Token::LParen => Lexeme::LParen,
        Token::RParen => Lexeme::RParen,
    }
}

pub open spec fn lexemes(ts: Seq<Token>) -> Seq<Lexeme> {
    ts.map_values(|t: Token| lexeme(t))
}

pub open spec fn is_space(c: char) -> bool {
    c == ' ' || c == '\t' || c == '\n' || c == '\r'
}

/// The character at `k`, or a space past the end.
pub open spec fn char_at(s: Seq<char>, k: int) -> char {
    if 0 <= k < s.len() {
        s[k]
    } else {
        ' '
    }
}

/// The end of the run of digits that starts at `i`.
pub open spec fn digits_end(s: Seq<char>, i: int) -> int
    decreases s.len() - i,
{
    if 0 <= i < s.len() && is_digit(s[i]) {
        digits_end(s, i + 1)
    } else {
        i
    }
}

/// The end of the run of name characters that starts at `i`.
pub open spec fn word_end(s: Seq<char>, i: int) -> int
    decreases s.len() - i,
{
    if 0 <= i < s.len() && is_ident_char(s[i]) {
        word_end(s, i + 1)
    } else {
        i
    }
}

/// The base-10 value of the characters from `start` to `end`.
pub open spec fn digits_value(s: Seq<char>, start: int, end: int) -> int
    decreases end - start,
{
    if end <= start {
        0
    } else {
        digits_value(s, start, end - 1) * 10 + (s[end - 1] as u32 - '0' as u32)
    }
}

/// The operator that starts at `i`, longest first, with its width.
pub open spec fn operator_at(s: Seq<char>, i: int) -> Option<(Lexeme, int)> {
    let c = char_at(s, i);
    let next = char_at(s, i + 1);
    let third = char_at(s, i + 2);
    if c == '=' && next == '=' && third == '>' {
        Some((Lexeme::Op(BinOp::Implies), 3))
    } else if c == '=' && next == '=' {
        Some((Lexeme::Op(BinOp::Eq), 2))
    } else if c == '!' && next == '=' {
        Some((Lexeme::Op(BinOp::Ne), 2))
    } else if c == '<' && next == '=' {
        Some((Lexeme::Op(BinOp::Le), 2))
    } else if c == '>' && next == '=' {
        Some((Lexeme::Op(BinOp::Ge), 2))
    } else if c == '&' && next == '&' {
        Some((Lexeme::Op(BinOp::And), 2))
    } else if c == '|' && next == '|' {
        Some((Lexeme::Op(BinOp::Or), 2))
    } else if c == '<' {
        Some((Lexeme::Op(BinOp::Lt), 1))
    } else if c == '>' {
        Some((Lexeme::Op(BinOp::Gt), 1))
    } else if c == '+' {
        Some((Lexeme::Op(BinOp::Add), 1))
    } else if c == '-' {
        Some((Lexeme::Op(BinOp::Sub), 1))
    } else if c == '*' {
        Some((Lexeme::Op(BinOp::Mul), 1))
    } else if c == '/' {
        Some((Lexeme::Op(BinOp::Div), 1))
    } else if c == '%' {
        Some((Lexeme::Op(BinOp::Mod), 1))
    } else if c == '!' {
        Some((Lexeme::Bang, 1))
    } else if c == '(' {
        Some((Lexeme::LParen, 1))
    } else if c == ')' {
        Some((Lexeme::RParen, 1))
    } else {
        None
    }
}

/// The lexemes of `s` from `i` on: whitespace separates and is dropped,
/// numerals and names are read as far as they go, `true` and `false` are
/// keywords, operators are read longest first. `None` on a character that
/// starts no token, or a numeral past 64 bits.
pub open spec fn lex(s: Seq<char>, i: int) -> Option<Seq<Lexeme>>
    decreases s.len() - i,
{
    if i < 0 || i >= s.len() {
        Some(Seq::empty())
    } else if is_space(s[i]) {
        lex(s, i + 1)
    } else if is_digit(s[i]) {
        let j = digits_end(s, i);
        let v = digits_value(s, i, j);
        if v > u64::MAX || j <= i || j > s.len() {
            None
        } else {
            match lex(s, j) {
                Some(rest) => Some(seq![Lexeme::Num(v as u64)] + rest),
                None => None,
            }
        }
    } else if is_ident_start(s[i]) {
        let j = word_end(s, i);
        let w = s.subrange(i, j);
        let t = if w == "true"@ {
            Lexeme::True
        } else if w == "false"@ {
            Lexeme::False
        } else {
            Lexeme::Ident(w)
        };
        if j <= i || j > s.len() {
            None
        } else {
            match lex(s, j) {
                Some(rest) => Some(seq![t] + rest),
                None => None,
            }
        }
    } else {
        match operator_at(s, i) {
            Some((t, w)) => if w < 1 {
                None
            } else {
                match lex(s, i + w) {
                    Some(rest) => Some(seq![t] + rest),
                    None => None,
                }
            },
            None => None,
        }
    }
}

pub open spec fn prepend(p: Seq<Lexeme>, o: Option<Seq<Lexeme>>) -> Option<Seq<Lexeme>> {
    match o {
        Some(r) => Some(p + r),
        None => None,
    }
}

proof fn lemma_digits_value_grows(s: Seq<char>, start: int, i: int, k: int)
    requires
        start <= i <= k <= s.len(),
        forall|q: int| start <= q < k ==> is_digit(#[trigger] s[q]),
    ensures
        digits_value(s, start, i) <= digits_value(s, start, k),
        digits_value(s, start, i) >= 0,
    decreases k - start,
{
    if k > start {
        if i < k {
            lemma_digits_value_grows(s, start, i, k - 1);
        } else {
            lemma_digits_value_grows(s, start, k - 1, k - 1);
        }
        let prev = digits_value(s, start, k - 1);
        assert(prev >= 0);
        assert(prev * 10 >= prev) by (nonlinear_arith)
            requires prev >= 0;
    }
}

proof fn lemma_digits_end(s: Seq<char>, i: int, k: int)
    requires
        0 <= i <= k <= s.len(),
        forall|q: int| i <= q < k ==> is_digit(#[trigger] s[q]),
    ensures
        digits_end(s, i) == digits_end(s, k),
    decreases k - i,
{
    if i < k {
        lemma_digits_end(s, i + 1, k);
    }
}

proof fn lemma_digits_end_bound(s: Seq<char>, i: int)
    requires
        0 <= i <= s.len(),
    ensures
        i <= digits_end(s, i) <= s.len(),
        forall|q: int| i <= q < digits_end(s, i) ==> is_digit(#[trigger] s[q]),
    decreases s.len() - i,
{
    if i < s.len() && is_digit(s[i]) {
        lemma_digits_end_bound(s, i + 1);
    }
}

proof fn lemma_word_end(s: Seq<char>, i: int, k: int)
    requires
        0 <= i <= k <= s.len(),
        forall|q: int| i <= q < k ==> is_ident_char(#[trigger] s[q]),
    ensures
        word_end(s, i) == word_end(s, k),
    decreases k - i,
{
    if i < k {
        lemma_word_end(s, i + 1, k);
    }
}

proof fn lemma_word_end_bound(s: Seq<char>, i: int)
    requires
        0 <= i <= s.len(),
    ensures
        i <= word_end(s, i) <= s.len(),
    decreases s.len() - i,
{
    if i < s.len() && is_ident_char(s[i]) {
        lemma_word_end_bound(s, i + 1);
    }
}

proof fn lemma_prepend_push(p: Seq<Lexeme>, t: Lexeme, r: Seq<Lexeme>)
    ensures
        p.push(t) + r == p + (seq![t] + r),
{
    assert(p.push(t) + r =~= p + (seq![t] + r));
}

fn operator_token(c: char, next: char, third: char) -> (r: Option<(Token, usize)>)
    ensures
        match r {
            Some((t, w)) => {
                &&& (c == '=' && next == '=' && third == '>') ==> w == 3
                &&& (w == 2 ==> next != ' ')
                &&& (w == 3 ==> next != ' ' && third != ' ')
                &&& 1 <= w <= 3
            },
            None => true,
        },
        forall|s: Seq<char>, i: int|
            c == char_at(s, i) && next == char_at(s, i + 1) && third == char_at(s, i + 2) ==> (
            match r {
                Some((t, w)) => #[trigger] operator_at(s, i) == Some((lexeme(t), w as int)),
                None => operator_at(s, i) is None,
            }),
{
    if c == '=' && next == '=' && third == '>' {
        Some((Token::Op(BinOp::Implies), 3))
    } else if c == '=' && next == '=' {
        Some((Token::Op(BinOp::Eq), 2))
    } else if c == '!' && next == '=' {
        Some((Token::Op(BinOp::Ne), 2))
    } else if c == '<' && next == '=' {
        Some((Token::Op(BinOp::Le), 2))
    } else if c == '>' && next == '=' {
        Some((Token::Op(BinOp::Ge), 2))
    } else if c == '&' && next == '&' {
        Some((Token::Op(BinOp::And), 2))
    } else if c == '|' && next == '|' {
        Some((Token::Op(BinOp::Or), 2))
    } else if c == '<' {
        Some((Token::Op(BinOp::Lt), 1))
    } else if c == '>' {
        Some((Token::Op(BinOp::Gt), 1))
    } else if c == '+' {
        Some((Token::Op(BinOp::Add), 1))
    } else if c == '-' {
        Some((Token::Op(BinOp::Sub), 1))
    } else if c == '*' {
        Some((Token::Op(BinOp::Mul), 1))
    } else if c == '/' {
        Some((Token::Op(BinOp::Div), 1))
    } else if c == '%' {
        Some((Token::Op(BinOp::Mod), 1))
    } else if c == '!' {
        Some((Token::Bang, 1))
    } else if c == '(' {
        Some((Token::LParen, 1))
    } else if c == ')' {
        Some((Token::RParen, 1))
    } else {
        None
    }
}

fn char_or_space(src: &str, len: usize, k: usize) -> (c: char)
    requires
        len == src@.len(),
    ensures
        c == char_at(src@, k as int),
{
    if k < len {
        src.get_char(k)
    } else {
        ' '
    }
}

/// Splits condition text into tokens, as `lex` states, each with the
/// position of its first character.
pub fn tokenize(src: &str) -> (r: Result<(Vec<Token>, Vec<usize>), ParseError>)
    ensures
        match r {
            Ok((ts, ps)) => lex(src@, 0) == Some(lexemes(ts@)) && ts@.len() == ps@.len() && forall|
                k: int,
            | 0 <= k < ps@.len() ==> #[trigger] ps@[k] < src@.len(),
            Err(err) => lex(src@, 0) is None && err.start <= err.end <= src@.len() && err.expected@.len() > 0,
        },
{
    let len = src.unicode_len();
    let ghost s = src@;
    let mut ts: Vec<Token> = Vec::new();
    let mut ps: Vec<usize> = Vec::new();
    let mut i: usize = 0;
    assert(lexemes(ts@) =~= Seq::<Lexeme>::empty());
    assert(prepend(Seq::empty(), lex(s, 0)) == lex(s, 0)) by {
        if let Some(r) = lex(s, 0) {
            assert(Seq::<Lexeme>::empty() + r =~= r);
        }
    }
    while i < len
        invariant
            len == src@.len(),
            s == src@,
            0 <= i <= len,
            ts@.len() == ps@.len(),
            forall|k: int| 0 <= k < ps@.len() ==> #[trigger] ps@[k] < src@.len(),
            lex(s, 0) == prepend(lexemes(ts@), lex(s, i as int)),
        decreases len - i,
    {
        let c = src.get_char(i);
        let start = i;
        let ghost before = lexemes(ts@);
        if c == ' ' || c == '\t' || c == '\n' || c == '\r' {
            i = i + 1;
            continue ;
        }
        let tok: Token;
        if '0' <= c && c <= '9' {
            let mut v: u64 = 0;
            proof {
                lemma_digits_end_bound(s, start as int);
            }
            while i < len && '0' <= src.get_char(i) && src.get_char(i) <= '9'
                invariant
                    len == src@.len(),
                    s == src@,
                    start < len,
                    start <= i <= len,
                    lex(s, 0) == prepend(lexemes(ts@), lex(s, start as int)),
                    forall|q: int| start <= q < i ==> is_digit(#[trigger] s[q]),
                    v == digits_value(s, start as int, i as int),
                    digits_end(s, start as int) == digits_end(s, i as int),
                    start <= digits_end(s, start as int) <= len,
                    forall|q: int|
                        start <= q < digits_end(s, start as int) ==> is_digit(#[trigger] s[q]),
                decreases len - i,
            {
                let d = digit_value(src.get_char(i));
                if v > (u64::MAX - d) / 10 {
                    proof {
                        assert(v * 10 + d > u64::MAX) by (nonlinear_arith)
                            requires
                                v > (u64::MAX - d) / 10,
                                d < 10,
                        ;
                        assert(digits_value(s, start as int, i + 1) == v * 10 + d);
                        lemma_digits_end(s, i as int, i as int + 1);
                        lemma_digits_end_bound(s, i as int + 1);
                        lemma_digits_value_grows(
                            s,
                            start as int,
                            i as int + 1,
                            digits_end(s, start as int),
                        );
                        assert(lex(s, start as int) is None);
                    }
                    proof {
                        reveal_strlit("an integer that fits in 64 bits");
                    }
                    return Err(parse_error(start, after(i, len), "an integer that fits in 64 bits"));
                }
                assert(v * 10 + d <= u64::MAX) by (nonlinear_arith)
                    requires
                        v <= (u64::MAX - d) / 10,
                        d < 10,
                ;
                v = v * 10 + d;
                proof {
                    lemma_digits_end(s, i as int, i as int + 1);
                }
                i = i + 1;
            }
            proof {
                assert(digits_end(s, i as int) == i);
                assert(i > start) by {
                    assert(is_digit(s[start as int]));
                }
                assert(lex(s, start as int) == prepend(seq![Lexeme::Num(v)], lex(s, i as int)));
            }
            tok = Token::Num(v);
        } else if is_word_char(c) && !('0' <= c && c <= '9') {
            while i < len && is_word_char(src.get_char(i))
                invariant
                    len == src@.len(),
                    s == src@,
                    start < len,
                    start <= i <= len,
                    forall|q: int| start <= q < i ==> is_ident_char(#[trigger] s[q]),
                    word_end(s, start as int) == word_end(s, i as int),
                decreases len - i,
            {
                proof {
                    lemma_word_end(s, i as int, i as int + 1);
                }
                i = i + 1;
            }
            let word = src.substring_char(start, i).to_owned();
            let t_s = String::from_str("true");
            let f_s = String::from_str("false");
            proof {
                assert(word_end(s, i as int) == i);
                assert(i > start);
            }
            if word == t_s {
                tok = Token::True;
            } else if word == f_s {
                tok = Token::False;
            } else {
                tok = Token::Ident(word);
            }
            proof {
                assert(lex(s, start as int) == prepend(seq![lexeme(tok)], lex(s, i as int)));
            }
        } else {
            let next = char_or_space(src, len, i + 1);
            let third = if i + 1 < len {
                char_or_space(src, len, i + 2)
            } else {
                ' '
            };
            assert(third == char_at(s, i + 2));
            match operator_token(c, next, third) {
                Some((t, width)) => {
                    proof {
                        assert(operator_at(s, i as int) == Some((lexeme(t), width as int)));
                        assert(i + width <= len);
                        assert(lex(s, start as int) == prepend(seq![lexeme(t)], lex(s, i + width)));
                    }
                    tok = t;
                    i = i + width;
                },
                None => {
                    proof {
                        assert(operator_at(s, i as int) is None);
                        assert(lex(s, start as int) is None);
                        reveal_strlit("an operator, a name, a number or a parenthesis");
                    }
                    return Err(
                        parse_error(start, after(start, len), "an operator, a name, a number or a parenthesis"),
                    );
                },
            }
        }
        proof {
            match lex(s, i as int) {
                Some(r) => lemma_prepend_push(before, lexeme(tok), r),
                None => {},
            }
        }
        ts.push(tok);
        ps.push(start);
        assert(lexemes(ts@) =~= before.push(lexeme(ts@.last())));
    }
    Ok((ts, ps))
}

/// The precedence level of a binary operator, from `==>` (loosest) to the
/// multiplicative operators; unary operators and atoms bind tighter still.
pub open spec fn op_level(op: BinOp) -> nat {
    match op {
        BinOp::Implies => 0,
        BinOp::Or => 1,
        BinOp::And => 2,
        BinOp::Eq | BinOp::Ne => 3,
        BinOp::Lt | BinOp::Le | BinOp::Gt | BinOp::Ge => 4,
        BinOp::Add | BinOp::Sub => 5,
        BinOp::Mul | BinOp::Div | BinOp::Mod => 6,
    }
}

/// The level of the unary operators and atoms.
pub const ATOM_LEVEL: u8 = 7;

fn level_of(op: BinOp) -> (r: u8)
    ensures
        r == op_level(op),
{
    match op {
        BinOp::Implies => 0,
        BinOp::Or => 1,
        BinOp::And => 2,
        BinOp::Eq | BinOp::Ne => 3,
        BinOp::Lt | BinOp::Le | BinOp::Gt | BinOp::Ge => 4,
        BinOp::Add | BinOp::Sub => 5,
        BinOp::Mul | BinOp::Div | BinOp::Mod => 6,
    }
}

/// The binary operator that token `k` holds, if it is one of level `lvl`.
fn op_at(ts: &Vec<Token>, k: usize, lvl: u8) -> (r: Option<BinOp>)
    ensures
        r is Some ==> k < ts.len() && ts@[k as int] == Token::Op(r->Some_0) && op_level(
            r->Some_0,
        ) == lvl,
        r is None ==> !(k < ts@.len() && ts@[k as int] is Op && op_level(ts@[k as int]->Op_0)
            == lvl),
{
    if k < ts.len() {
        if let Token::Op(op) = &ts[k] {
            if level_of(*op) == lvl {
                return Some(*op);
            }
        }
    }
    None
}

/// The end of a one-character span at `p`, within text of length `end`.
fn after(p: usize, end: usize) -> (r: usize)
    requires
        p <= end,
    ensures
        p <= r <= end,
        p < end ==> r == p + 1,
{
    if p < end {
        p + 1
    } else {
        p
    }
}

fn pos_of(ps: &Vec<usize>, k: usize, end: usize) -> (r: usize)
    requires
        forall|q: int| 0 <= q < ps@.len() ==> #[trigger] ps@[q] < end,
    ensures
        r <= end,
{
    if k < ps.len() {
        ps[k]
    } else {
        end
    }
}

/// The grammar: the expression of level `lvl` or tighter that starts at
/// token `i`, with the index of the first token after it; `None` where the
/// tokens there form none. Binary operators of one level associate to the
/// left, but `==>`, which associates to the right.
pub open spec fn p_level(ts: Seq<Token>, i: int, lvl: int) -> Option<(Expr, int)>
    decreases ts.len() - i, 8 - lvl, 1int,
{
    if i < 0 || i > ts.len() || lvl < 0 || lvl > 7 {
        None
    } else if lvl == 7 {
        if i >= ts.len() {
            None
        } else {
            match ts[i] {
                Token::Num(v) => Some((Expr::IntLit(v), i + 1)),
                Token::True => Some((Expr::BoolLit(true), i + 1)),
                Token::False => Some((Expr::BoolLit(false), i + 1)),
                Token::Ident(n) => Some((Expr::Var(n, Ty::Unknown), i + 1)),
                Token::Bang => match p_level(ts, i + 1, 7) {
                    Some((a, j)) => Some((Expr::Unary(UnOp::Not, Box::new(a)), j)),
                    None => None,
                },
                Token::Op(BinOp::Sub) => match p_level(ts, i + 1, 7) {
                    Some((a, j)) => Some((Expr::Unary(UnOp::Neg, Box::new(a)), j)),
                    None => None,
                },
                Token::LParen => match p_level(ts, i + 1, 0) {
                    Some((a, j)) => if 0 <= j < ts.len() && ts[j] is RParen {
                        Some((a, j + 1))
                    } else {
                        None
                    },
                    None => None,
                },
                _ => None,
            }
        }
    } else {
        match p_level(ts, i, lvl + 1) {
            Some((l, j)) => if j <= i || j > ts.len() {
                None
            } else if lvl == 0 {
                if j < ts.len() && ts[j] == Token::Op(BinOp::Implies) {
                    match p_level(ts, j + 1, 0) {
                        Some((r, k)) => Some((Expr::Binary(BinOp::Implies, Box::new(l), Box::new(r)), k)),
                        None => None,
                    }
                } else {
                    Some((l, j))
                }
            } else {
                p_rest(ts, l, j, lvl)
            },
            None => None,
        }
    }
}

/// The left-associative tail of level `lvl`: `lhs` followed, from token
/// `j`, by operators of that level and their right operands.
pub open spec fn p_rest(ts: Seq<Token>, lhs: Expr, j: int, lvl: int) -> Option<(Expr, int)>
    decreases ts.len() - j, 8 - lvl, 0int,
{
    if j < 0 || j > ts.len() || lvl < 1 || lvl > 6 {
        None
    } else if j < ts.len() && ts[j] is Op && op_level(ts[j]->Op_0) == lvl {
        match p_level(ts, j + 1, lvl + 1) {
            Some((r, k)) => if k <= j || k > ts.len() {
                None
            } else {
                p_rest(ts, Expr::Binary(ts[j]->Op_0, Box::new(lhs), Box::new(r)), k, lvl)
            },
            None => None,
        }
    } else {
        Some((lhs, j))
    }
}

/// Parses an expression of level `lvl` or tighter from token `i` on; on
/// success returns it with the index of the first token after it.
fn parse_level(ts: &Vec<Token>, ps: &Vec<usize>, end: usize, i: usize, lvl: u8) -> (r: Result<
    (Expr, usize),
    ParseError,
>)
    requires
        i <= ts@.len(),
        lvl <= ATOM_LEVEL,
        forall|q: int| 0 <= q < ps@.len() ==> #[trigger] ps@[q] < end,
    ensures
        match r {
            Ok((e, j)) => p_level(ts@, i as int, lvl as int) == Some((e, j as int)) && i < j
                <= ts@.len() && is_untyped(e),
            Err(err) => p_level(ts@, i as int, lvl as int) is None && err.start <= err.end <= end
                && err.expected@.len() > 0,
        },
    decreases ts@.len() - i, ATOM_LEVEL - lvl,
{
    if lvl == ATOM_LEVEL {
        if i >= ts.len() {
            proof {
                reveal_strlit("an operand");
            }
            return Err(parse_error(end, end, "an operand"));
        }
        match &ts[i] {
            Token::Num(v) => Ok((Expr::IntLit(*v), i + 1)),
            Token::True => Ok((Expr::BoolLit(true), i + 1)),
            Token::False => Ok((Expr::BoolLit(false), i + 1)),
            Token::Ident(n) => Ok((Expr::Var(n.clone(), Ty::Unknown), i + 1)),
            Token::Bang => {
                let (a, j) = match parse_level(ts, ps, end, i + 1, ATOM_LEVEL) {
                    Ok(x) => x,
                    Err(err) => {
                        return Err(err);
                    },
                };
                Ok((mk_unary(UnOp::Not, a), j))
            },
            Token::Op(BinOp::Sub) => {
                let (a, j) = match parse_level(ts, ps, end, i + 1, ATOM_LEVEL) {
                    Ok(x) => x,
                    Err(err) => {
                        return Err(err);
                    },
                };
                Ok((mk_unary(UnOp::Neg, a), j))
            },
            Token::LParen => {
                let (a, j) = match parse_level(ts, ps, end, i + 1, 0) {
                    Ok(x) => x,
                    Err(err) => {
                        return Err(err);
                    },
                };
                if j < ts.len() {
                    if let Token::RParen = &ts[j] {
                        return Ok((a, j + 1));
                    }
                }
                let p = pos_of(ps, j, end);
                proof {
                    reveal_strlit("a closing parenthesis");
                }
                Err(parse_error(p, after(p, end), "a closing parenthesis"))
            },
            _ => {
                let p = pos_of(ps, i, end);
                proof {
                    reveal_strlit("an operand");
                }
                Err(parse_error(p, after(p, end), "an operand"))
            },
        }
    } else if lvl == 0 {
        let (lhs, j) = match parse_level(ts, ps, end, i, 1) {
            Ok(x) => x,
            Err(err) => {
                return Err(err);
            },
        };
        match op_at(ts, j, 0) {
            Some(op) => {
                let (rhs, k) = match parse_level(ts, ps, end, j + 1, 0) {
                    Ok(x) => x,
                    Err(err) => {
                        return Err(err);
                    },
                };
                Ok((mk_binary(op, lhs, rhs), k))
            },
            None => {
                proof {
                    if j < ts@.len() && ts@[j as int] == Token::Op(BinOp::Implies) {
                        assert(op_level(BinOp::Implies) == 0);
                    }
                }
                Ok((lhs, j))
            },
        }
    } else {
        let (first, j0) = match parse_level(ts, ps, end, i, lvl + 1) {
            Ok(x) => x,
            Err(err) => {
                return Err(err);
            },
        };
        let mut lhs = first;
        let mut j = j0;
        while j < ts.len()
            invariant
                i < j <= ts@.len(),
                1 <= lvl < ATOM_LEVEL,
                is_untyped(lhs),
                p_level(ts@, i as int, lvl as int) == p_rest(ts@, lhs, j as int, lvl as int),
                forall|q: int| 0 <= q < ps@.len() ==> #[trigger] ps@[q] < end,
            ensures
                i < j <= ts@.len(),
                is_untyped(lhs),
                p_level(ts@, i as int, lvl as int) == Some((lhs, j as int)),
            decreases ts@.len() - j,
        {
            match op_at(ts, j, lvl) {
                Some(op) => {
                    let (rhs, k) = match parse_level(ts, ps, end, j + 1, lvl + 1) {
                        Ok(x) => x,
                        Err(err) => {
                            return Err(err);
                        },
                    };
                    lhs = mk_binary(op, lhs, rhs);
                    j = k;
                },
                None => {
                    assert(p_rest(ts@, lhs, j as int, lvl as int) == Some((lhs, j as int)));
                    break;
                },
            }
        }
        Ok((lhs, j))
    }
}

/// Parses a whole token sequence as one expression, as the grammar
/// `p_level` gives it.
/// Token positions `ps` lie within text of length `end`; an error's span
/// does too.
pub fn parse_tokens(ts: &Vec<Token>, ps: &Vec<usize>, end: usize) -> (r: Result<Expr, ParseError>)
    requires
        forall|q: int| 0 <= q < ps@.len() ==> #[trigger] ps@[q] < end,
    ensures
        match r {
            Ok(e) => p_level(ts@, 0, 0) == Some((e, ts@.len() as int)) && is_untyped(e),
            Err(err) => !(p_level(ts@, 0, 0) matches Some((_, j)) && j == ts@.len()) && err.start
                <= err.end <= end && err.expected@.len() > 0,
        },
{
    let (e, j) = match parse_level(ts, ps, end, 0, 0) {
        Ok(x) => x,
        Err(err) => {
            return Err(err);
        },
    };
    if j < ts.len() {
        let p = pos_of(ps, j, end);
        proof {
            reveal_strlit("an operator or the end of the condition");
        }
        return Err(parse_error(p, after(p, end), "an operator or the end of the condition"));
    }
    Ok(e)
}

/// The condition text `src` reads as `e`: it lexes, and the grammar reads
/// the whole of its tokens as `e`.
pub open spec fn reads_as(src: Seq<char>, e: Expr) -> bool {
    is_untyped(e) && exists|ts: Seq<Token>|
        lex(src, 0) == Some(lexemes(ts)) && #[trigger] p_level(ts, 0, 0) == Some(
            (e, ts.len() as int),
        )
}

/// Parses a condition: `==>` (right-associative) binds loosest, then
/// `||`, `&&`, `==` and `!=`, the orderings, `+` and `-`, `*` `/` `%`, and
/// tightest the unary `!` and `-`; parentheses group. Names are variables
/// of unknown type, numerals are base-10, `true` and `false` are booleans.
pub fn parse(src: &str) -> (r: Result<Expr, ParseError>)
    ensures
        match r {
            Ok(e) => reads_as(src@, e) && idents_ok(e),
            Err(err) => (forall|e: Expr| !#[trigger] reads_as(src@, e)) && err.start <= err.end
                <= src@.len() && err.expected@.len() > 0,
        },
{
    let (ts, ps) = match tokenize(src) {
        Ok(x) => x,
        Err(err) => {
            return Err(err);
        },
    };
    let end = src.unicode_len();
    let r = parse_tokens(&ts, &ps, end);
    assert(lex(src@, 0) == Some(lexemes(ts@)));
    proof {
        lemma_lex_plain(src@, 0);
        assert forall|j: int| 0 <= j < ts@.len() && #[trigger] ts@[j] is Ident implies plain_ident(
            ts@[j]->Ident_0@,
        ) by {
            assert(lexemes(ts@)[j] == lexeme(ts@[j]));
        }
        lemma_level_plain(ts@, 0, 0);
        if r is Err {
            assert forall|e: Expr| !#[trigger] reads_as(src@, e) by {
                if reads_as(src@, e) {
                    let t2 = choose|t2: Seq<Token>|
                        lex(src@, 0) == Some(lexemes(t2)) && #[trigger] p_level(t2, 0, 0) == Some(
                            (e, t2.len() as int),
                        );
                    lemma_level_congruent(ts@, t2, 0, 0);
                    assert(lexemes(ts@).len() == ts@.len());
                    assert(lexemes(t2).len() == t2.len());
                }
            }
        }
    }
    r
}

/// The tokens of an expression printed with each binary node in
/// parentheses.
pub open spec fn toks(e: Expr) -> Seq<Token>
    decreases e,
{
    match e {
        Expr::IntLit(v) => seq![Token::Num(v)],
        Expr::BoolLit(b) => if b {
            seq![Token::True]
        } else {
            seq![Token::False]
        },
        Expr::Var(n, _) => seq![Token::Ident(n)],
        Expr::Fresh(..) => Seq::empty(),
        Expr::Binary(op, l, r) => seq![Token::LParen] + toks(*l) + seq![Token::Op(op)] + toks(*r)
            + seq![Token::RParen],
        Expr::Unary(op, a) => (if op == UnOp::Not {
            seq![Token::Bang]
        } else {
            seq![Token::Op(BinOp::Sub)]
        }) + toks(*a),
    }
}

/// Token `j` ends an expression of level `lvl`: there is no token there,
/// or it is no binary operator of that level or a tighter one.
pub open spec fn stops(ts: Seq<Token>, j: int, lvl: int) -> bool {
    j == ts.len() || !(ts[j] is Op && lvl <= op_level(ts[j]->Op_0))
}

proof fn lemma_lift(ts: Seq<Token>, i: int, lvl: int, hi: int, x: Expr, j: int)
    requires
        0 <= lvl <= hi <= 7,
        0 <= i < j <= ts.len(),
        p_level(ts, i, hi) == Some((x, j)),
        stops(ts, j, lvl),
    ensures
        p_level(ts, i, lvl) == Some((x, j)),
    decreases hi - lvl,
{
    if lvl < hi {
        lemma_lift(ts, i, lvl + 1, hi, x, j);
        if lvl == 0 {
            assert(op_level(BinOp::Implies) == 0);
            if j < ts.len() {
                assert(!(ts[j] is Op));
            }
        } else {
            assert(p_rest(ts, x, j, lvl) == Some((x, j)));
        }
    }
}

proof fn lemma_toks_len(e: Expr)
    requires
        is_untyped(e),
    ensures
        toks(e).len() >= 1,
    decreases e,
{
}

proof fn lemma_read_back(e: Expr, ts: Seq<Token>, i: int)
    requires
        is_untyped(e),
        0 <= i,
        i + toks(e).len() <= ts.len(),
        ts.subrange(i, i + toks(e).len()) == toks(e),
    ensures
        p_level(ts, i, 7) == Some((e, i + toks(e).len())),
    decreases e,
{
    let n = toks(e).len() as int;
    assert(forall|k: int| 0 <= k < n ==> ts[i + k] == #[trigger] toks(e)[k]) by {
        assert forall|k: int| 0 <= k < n implies ts[i + k] == #[trigger] toks(e)[k] by {
            assert(ts.subrange(i, i + n)[k] == ts[i + k]);
        }
    }
    assert(ts[i] == toks(e)[0]);
    match e {
        Expr::Unary(op, a) => {
            let m = toks(*a).len() as int;
            assert(ts.subrange(i + 1, i + 1 + m) =~= toks(*a)) by {
                assert forall|k: int| 0 <= k < m implies ts.subrange(i + 1, i + 1 + m)[k] == toks(
                    *a,
                )[k] by {
                    assert(toks(e)[1 + k] == toks(*a)[k]);
                    assert(ts[i + (1 + k)] == toks(e)[1 + k]);
                }
            }
            lemma_read_back(*a, ts, i + 1);
        },
        Expr::Binary(op, l, r) => {
            let ml = toks(*l).len() as int;
            let mr = toks(*r).len() as int;
            lemma_toks_len(*l);
            lemma_toks_len(*r);
            let j = i + 1 + ml;
            let k = j + 1 + mr;
            assert(ts.subrange(i + 1, j) =~= toks(*l)) by {
                assert forall|q: int| 0 <= q < ml implies ts.subrange(i + 1, j)[q] == toks(
                    *l,
                )[q] by {
                    assert(toks(e)[1 + q] == toks(*l)[q]);
                    assert(ts[i + (1 + q)] == toks(e)[1 + q]);
                }
            }
            assert(ts.subrange(j + 1, k) =~= toks(*r)) by {
                assert forall|q: int| 0 <= q < mr implies ts.subrange(j + 1, k)[q] == toks(
                    *r,
                )[q] by {
                    assert(toks(e)[2 + ml + q] == toks(*r)[q]);
                    assert(ts[i + (2 + ml + q)] == toks(e)[2 + ml + q]);
                }
            }
            assert(toks(e)[1 + ml] == Token::Op(op));
            assert(ts[i + (1 + ml)] == toks(e)[1 + ml]);
            assert(ts[j] == Token::Op(op));
            assert(toks(e)[2 + ml + mr] == Token::RParen);
            assert(ts[i + (2 + ml + mr)] == toks(e)[2 + ml + mr]);
            assert(ts[k] == Token::RParen);
            lemma_read_back(*l, ts, i + 1);
            lemma_read_back(*r, ts, j + 1);
            let lv = op_level(op) as int;
            if lv == 0 {
                lemma_lift(ts, i + 1, 1, 7, *l, j);
                lemma_lift(ts, j + 1, 0, 7, *r, k);
                assert(p_level(ts, i + 1, 0) == Some((e, k)));
            } else {
                lemma_lift(ts, i + 1, lv + 1, 7, *l, j);
                lemma_lift(ts, j + 1, lv + 1, 7, *r, k);
                assert(p_rest(ts, e, k, lv) == Some((e, k)));
                assert(p_rest(ts, *l, j, lv) == Some((e, k)));
                assert(p_level(ts, i + 1, lv) == Some((e, k)));
                lemma_lift(ts, i + 1, 0, lv, e, k);
            }
        },
        _ => {},
    }
}

/// Reading back printed tokens: the grammar reads the tokens of an
/// expression whose variables carry no type as that same expression.
pub proof fn lemma_parse_print_tokens(e: Expr)
    requires
        is_untyped(e),
    ensures
        p_level(toks(e), 0, 0) == Some((e, toks(e).len() as int)),
{
    let ts = toks(e);
    assert(ts.subrange(0, ts.len() as int) =~= ts);
    lemma_toks_len(e);
    lemma_read_back(e, ts, 0);
    lemma_lift(ts, 0, 0, 7, e, ts.len() as int);
}

fn push_tokens(e: &Expr, out: &mut Vec<Token>)
    ensures
        final(out)@ == old(out)@ + toks(*e),
    decreases e,
{
    match e {
        Expr::IntLit(v) => out.push(Token::Num(*v)),
        Expr::BoolLit(b) => out.push(if *b {
            Token::True
        } else {
            Token::False
        }),
        Expr::Var(n, _) => out.push(Token::Ident(n.clone())),
        Expr::Fresh(..) => {},
        Expr::Binary(op, l, r) => {
            out.push(Token::LParen);
            push_tokens(l, out);
            out.push(Token::Op(*op));
            push_tokens(r, out);
            out.push(Token::RParen);
        },
        Expr::Unary(op, a) => {
            out.push(if *op == UnOp::Not {
                Token::Bang
            } else {
                Token::Op(BinOp::Sub)
            });
            push_tokens(a, out);
        },
    }
    assert(final(out)@ =~= old(out)@ + toks(*e));
}

/// The tokens of `e`, each binary node in parentheses; `parse_tokens`
/// reads them back as `e` when its variables carry no type.
pub fn print_tokens(e: &Expr) -> (r: Vec<Token>)
    ensures
        r@ == toks(*e),
{
    let mut out: Vec<Token> = Vec::new();
    push_tokens(e, &mut out);
    assert(out@ =~= toks(*e));
    out
}

/// The surface symbol of a binary operator.
pub open spec fn surface_sym(op: BinOp) -> Seq<char> {
    match op {
        BinOp::Add => "+"@,
        BinOp::Sub => "-"@,
        BinOp::Mul => "*"@,
        BinOp::Div => "/"@,
        BinOp::Mod => "%"@,
        BinOp::Eq => "=="@,
        BinOp::Ne => "!="@,
        BinOp::Lt => "<"@,
        BinOp::Le => "<="@,
        BinOp::Gt => ">"@,
        BinOp::Ge => ">="@,
        BinOp::And => "&&"@,
        BinOp::Or => "||"@,
        BinOp::Implies => "==>"@,
    }
}

/// The condition text of an expression, each binary node in parentheses.
pub open spec fn pretty(e: Expr) -> Seq<char>
    decreases e,
{
    match e {
        Expr::IntLit(n) => numeral(n as nat),
        Expr::BoolLit(b) => if b {
            "true"@
        } else {
            "false"@
        },
        Expr::Var(n, _) => n@,
        Expr::Fresh(b, k, _) => fresh_name(b, k),
        Expr::Binary(op, l, r) => "("@ + pretty(*l) + " "@ + surface_sym(op) + " "@ + pretty(*r)
            + ")"@,
        Expr::Unary(op, a) => match op {
            UnOp::Not => "!"@ + pretty(*a),
            UnOp::Neg => "-"@ + pretty(*a),
        },
    }
}

/// A name that reads back as itself: a letter or `_`, then letters,
/// digits or `_`, and no keyword.
pub open spec fn plain_ident(n: Seq<char>) -> bool {
    &&& n.len() > 0
    &&& is_ident_start(n[0])
    &&& forall|k: int| 0 <= k < n.len() ==> is_ident_char(#[trigger] n[k])
    &&& n != "true"@
    &&& n != "false"@
}

/// Every variable of `e` has a plain name.
pub open spec fn idents_ok(e: Expr) -> bool
    decreases e,
{
    match e {
        Expr::Var(n, _) => plain_ident(n@),
        Expr::Fresh(..) => false,
        Expr::Binary(_, l, r) => idents_ok(*l) && idents_ok(*r),
        Expr::Unary(_, a) => idents_ok(*a),
        _ => true,
    }
}

/// Where a printed expression may end: the end, a space or `)`.
pub open spec fn boundary(s: Seq<char>, k: int) -> bool {
    k == s.len() || (0 <= k < s.len() && (s[k] == ' ' || s[k] == ')'))
}

proof fn lemma_split(s: Seq<char>, i: int, a: Seq<char>, b: Seq<char>)
    requires
        0 <= i,
        i + a.len() + b.len() <= s.len(),
        s.subrange(i, i + a.len() + b.len()) == a + b,
    ensures
        s.subrange(i, i + a.len()) == a,
        s.subrange(i + a.len(), i + a.len() + b.len()) == b,
{
    assert forall|k: int| 0 <= k < a.len() implies s.subrange(i, i + a.len())[k] == a[k] by {
        assert(s.subrange(i, i + a.len() + b.len())[k] == (a + b)[k]);
    }
    assert forall|k: int| 0 <= k < b.len() implies s.subrange(
        i + a.len(),
        i + a.len() + b.len(),
    )[k] == b[k] by {
        assert(s.subrange(i, i + a.len() + b.len())[a.len() + k] == (a + b)[a.len() + k]);
        assert(s.subrange(i, i + a.len() + b.len())[a.len() + k] == s[i + a.len() + k]);
        assert(s.subrange(i + a.len(), i + a.len() + b.len())[k] == s[i + a.len() + k]);
    }
    assert(s.subrange(i, i + a.len()) =~= a);
    assert(s.subrange(i + a.len(), i + a.len() + b.len()) =~= b);
}

proof fn lemma_digit(d: nat)
    requires
        d < 10,
    ensures
        digit_seq(d).len() == 1,
        is_digit(digit_seq(d)[0]),
        digit_seq(d)[0] as u32 - '0' as u32 == d,
{
    reveal_strlit("0");
    reveal_strlit("1");
    reveal_strlit("2");
    reveal_strlit("3");
    reveal_strlit("4");
    reveal_strlit("5");
    reveal_strlit("6");
    reveal_strlit("7");
    reveal_strlit("8");
    reveal_strlit("9");
}

pub(crate) proof fn lemma_numeral(n: nat, s: Seq<char>, i: int)
    requires
        0 <= i,
        i + numeral(n).len() <= s.len(),
        s.subrange(i, i + numeral(n).len()) == numeral(n),
    ensures
        numeral(n).len() >= 1,
        forall|k: int| i <= k < i + numeral(n).len() ==> is_digit(#[trigger] s[k]),
        digits_value(s, i, i + numeral(n).len()) == n,
    decreases n,
{
    let len = numeral(n).len() as int;
    if n < 10 {
        lemma_digit(n);
        assert(numeral(n) == digit_seq(n));
        assert(s[i] == s.subrange(i, i + len)[0]);
        assert(digits_value(s, i, i) == 0);
        assert(digits_value(s, i, i + 1) == n);
    } else {
        let hi = numeral(n / 10);
        let lo = digit_seq(n % 10);
        lemma_digit(n % 10);
        assert(numeral(n) == hi + lo);
        lemma_split(s, i, hi, lo);
        lemma_numeral(n / 10, s, i);
        assert(s[i + hi.len()] == s.subrange(i + hi.len(), i + hi.len() + 1)[0]);
        assert(len == hi.len() + 1);
        assert(digits_value(s, i, i + len) == digits_value(s, i, i + hi.len()) * 10 + (s[i
            + hi.len()] as u32 - '0' as u32));
        assert((n / 10) * 10 + n % 10 == n);
    }
}

proof fn lemma_first_char(e: Expr)
    requires
        idents_ok(e),
    ensures
        pretty(e).len() >= 1,
        pretty(e)[0] != '=',
        pretty(e)[0] != ' ',
    decreases e,
{
    reveal_strlit("(");
    reveal_strlit("!");
    reveal_strlit("-");
    reveal_strlit("true");
    reveal_strlit("false");
    match e {
        Expr::IntLit(n) => {
            assert(numeral(n as nat).subrange(0, numeral(n as nat).len() as int) =~= numeral(n as nat));
            lemma_numeral(n as nat, numeral(n as nat), 0);
            assert(is_digit(numeral(n as nat)[0]));
        },
        Expr::Unary(_, a) => {
            lemma_first_char(*a);
        },
        _ => {},
    }
}

proof fn lemma_sym(op: BinOp, s: Seq<char>, k: int)
    requires
        0 <= k,
        k + surface_sym(op).len() < s.len(),
        s.subrange(k, k + surface_sym(op).len()) == surface_sym(op),
        s[k + surface_sym(op).len()] == ' ',
    ensures
        surface_sym(op).len() >= 1,
        !is_space(s[k]) && !is_digit(s[k]) && !is_ident_start(s[k]),
        operator_at(s, k) == Some((Lexeme::Op(op), surface_sym(op).len() as int)),
{
    reveal_strlit("+");
    reveal_strlit("-");
    reveal_strlit("*");
    reveal_strlit("/");
    reveal_strlit("%");
    reveal_strlit("==");
    reveal_strlit("!=");
    reveal_strlit("<");
    reveal_strlit("<=");
    reveal_strlit(">");
    reveal_strlit(">=");
    reveal_strlit("&&");
    reveal_strlit("||");
    reveal_strlit("==>");
    let w = surface_sym(op);
    assert(s[k] == w[0]) by {
        assert(s.subrange(k, k + w.len())[0] == s[k]);
    }
    if w.len() >= 2 {
        assert(s[k + 1] == w[1]) by {
            assert(s.subrange(k, k + w.len())[1] == s[k + 1]);
        }
    }
    if w.len() >= 3 {
        assert(s[k + 2] == w[2]) by {
            assert(s.subrange(k, k + w.len())[2] == s[k + 2]);
        }
    }
    assert(char_at(s, k + w.len()) == ' ');
}

proof fn lemma_skip(s: Seq<char>, k: int)
    requires
        0 <= k < s.len(),
        s[k] == ' ',
    ensures
        lex(s, k) == lex(s, k + 1),
{
}

proof fn lemma_lexemes_cat(a: Seq<Token>, b: Seq<Token>)
    ensures
        lexemes(a + b) == lexemes(a) + lexemes(b),
{
    assert(lexemes(a + b) =~= lexemes(a) + lexemes(b));
}

proof fn lemma_prepend_cat(a: Seq<Lexeme>, b: Seq<Lexeme>, o: Option<Seq<Lexeme>>)
    ensures
        prepend(a, prepend(b, o)) == prepend(a + b, o),
{
    if let Some(r) = o {
        assert(a + (b + r) =~= (a + b) + r);
    }
}

proof fn lemma_word(s: Seq<char>, i: int, w: Seq<char>)
    requires
        0 <= i,
        i + w.len() <= s.len(),
        s.subrange(i, i + w.len()) == w,
        w.len() > 0,
        forall|k: int| 0 <= k < w.len() ==> is_ident_char(#[trigger] w[k]),
        boundary(s, i + w.len()),
    ensures
        word_end(s, i) == i + w.len(),
        s[i] == w[0],
{
    assert forall|q: int| i <= q < i + w.len() implies is_ident_char(#[trigger] s[q]) by {
        assert(s.subrange(i, i + w.len())[q - i] == s[q]);
        assert(is_ident_char(w[q - i]));
    }
    lemma_word_end(s, i, i + w.len());
    assert(s.subrange(i, i + w.len())[0] == s[i]);
}

/// Lexing printed text: the characters of `pretty(e)`, from `i` on and
/// followed by a space, a `)` or the end, lex as the lexemes of `toks(e)`.
proof fn lemma_lex_pretty(e: Expr, s: Seq<char>, i: int)
    requires
        idents_ok(e),
        0 <= i,
        i + pretty(e).len() <= s.len(),
        s.subrange(i, i + pretty(e).len()) == pretty(e),
        boundary(s, i + pretty(e).len()),
    ensures
        lex(s, i) == prepend(lexemes(toks(e)), lex(s, i + pretty(e).len())),
    decreases e,
{
    reveal_strlit("(");
    reveal_strlit(")");
    reveal_strlit(" ");
    reveal_strlit("!");
    reveal_strlit("-");
    reveal_strlit("true");
    reveal_strlit("false");
    let end = i + pretty(e).len();
    match e {
        Expr::Fresh(..) => {},
        Expr::IntLit(n) => {
            lemma_numeral(n as nat, s, i);
            lemma_digits_end(s, i, end);
            assert(digits_end(s, end) == end);
            assert(lexemes(toks(e)) =~= seq![Lexeme::Num(n)]);
        },
        Expr::BoolLit(b) => {
            let w = pretty(e);
            lemma_word(s, i, w);
            assert(s.subrange(i, word_end(s, i)) == w);
            if b {
                assert(lexemes(toks(e)) =~= seq![Lexeme::True]);
            } else {
                assert(lexemes(toks(e)) =~= seq![Lexeme::False]);
            }
        },
        Expr::Var(n, t) => {
            lemma_word(s, i, n@);
            assert(lexemes(toks(e)) =~= seq![Lexeme::Ident(n@)]);
        },
        Expr::Unary(op, a) => {
            let head: Seq<char> = if op == UnOp::Not {
                "!"@
            } else {
                "-"@
            };
            assert(pretty(e) == head + pretty(*a));
            lemma_split(s, i, head, pretty(*a));
            assert(s[i] == s.subrange(i, i + 1)[0]);
            lemma_first_char(*a);
            assert(s[i + 1] == s.subrange(i + 1, end)[0]);
            lemma_lex_pretty(*a, s, i + 1);
            let t = if op == UnOp::Not {
                Token::Bang
            } else {
                Token::Op(BinOp::Sub)
            };
            assert(toks(e) == seq![t] + toks(*a));
            lemma_lexemes_cat(seq![t], toks(*a));
            assert(lexemes(seq![t]) =~= seq![lexeme(t)]);
            assert(operator_at(s, i) == Some((lexeme(t), 1int)));
            lemma_prepend_cat(seq![lexeme(t)], lexemes(toks(*a)), lex(s, end));
        },
        Expr::Binary(op, l, r) => {
            let pl = pretty(*l);
            let pr = pretty(*r);
            let sym = surface_sym(op);
            let open: Seq<char> = "("@;
            let sp: Seq<char> = " "@;
            let close: Seq<char> = ")"@;
            assert(pretty(e) == open + pl + sp + sym + sp + pr + close);
            let i1 = i + 1;
            let j = i1 + pl.len();
            let k = j + 1;
            let m = k + sym.len();
            let q = m + 1;
            let z = q + pr.len();
            assert(z + 1 == end);
            lemma_split(s, i, open + pl + sp + sym + sp + pr, close);
            lemma_split(s, i, open + pl + sp + sym + sp, pr);
            lemma_split(s, i, open + pl + sp + sym, sp);
            lemma_split(s, i, open + pl + sp, sym);
            lemma_split(s, i, open + pl, sp);
            lemma_split(s, i, open, pl);
            assert(s[i] == '(') by {
                assert(s.subrange(i, i + 1)[0] == s[i]);
            }
            assert(s[j] == ' ') by {
                assert(s.subrange(j, j + 1)[0] == s[j]);
            }
            assert(s[m] == ' ') by {
                assert(s.subrange(m, m + 1)[0] == s[m]);
            }
            assert(s[z] == ')') by {
                assert(s.subrange(z, z + 1)[0] == s[z]);
            }
            lemma_first_char(*l);
            assert(operator_at(s, i) == Some((Lexeme::LParen, 1int)));
            lemma_lex_pretty(*l, s, i1);
            lemma_skip(s, j);
            lemma_sym(op, s, k);
            lemma_skip(s, m);
            lemma_lex_pretty(*r, s, q);
            assert(operator_at(s, z) == Some((Lexeme::RParen, 1int)));
            assert(lex(s, z) == prepend(seq![Lexeme::RParen], lex(s, end)));
            let tl = toks(*l);
            let tr = toks(*r);
            assert(toks(e) == seq![Token::LParen] + tl + seq![Token::Op(op)] + tr + seq![
                Token::RParen,
            ]);
            assert(lexemes(toks(e)) =~= seq![Lexeme::LParen] + lexemes(tl) + seq![Lexeme::Op(op)]
                + lexemes(tr) + seq![Lexeme::RParen]) by {
                lemma_lexemes_cat(seq![Token::LParen] + tl + seq![Token::Op(op)] + tr, seq![Token::RParen]);
                lemma_lexemes_cat(seq![Token::LParen] + tl + seq![Token::Op(op)], tr);
                lemma_lexemes_cat(seq![Token::LParen] + tl, seq![Token::Op(op)]);
                lemma_lexemes_cat(seq![Token::LParen], tl);
                assert(lexemes(seq![Token::LParen]) =~= seq![Lexeme::LParen]);
                assert(lexemes(seq![Token::Op(op)]) =~= seq![Lexeme::Op(op)]);
                assert(lexemes(seq![Token::RParen]) =~= seq![Lexeme::RParen]);
            }
            lemma_prepend_cat(lexemes(tr), seq![Lexeme::RParen], lex(s, end));
            lemma_prepend_cat(seq![Lexeme::Op(op)], lexemes(tr) + seq![Lexeme::RParen], lex(s, end));
            lemma_prepend_cat(
                lexemes(tl),
                seq![Lexeme::Op(op)] + (lexemes(tr) + seq![Lexeme::RParen]),
                lex(s, end),
            );
            lemma_prepend_cat(
                seq![Lexeme::LParen],
                lexemes(tl) + (seq![Lexeme::Op(op)] + (lexemes(tr) + seq![Lexeme::RParen])),
                lex(s, end),
            );
            assert(seq![Lexeme::LParen] + (lexemes(tl) + (seq![Lexeme::Op(op)] + (lexemes(tr)
                + seq![Lexeme::RParen]))) =~= lexemes(toks(e)));
        },
    }
}

/// Printed text lexes as the printed tokens: for an expression whose
/// names are plain, `lex(pretty(e))` gives the lexemes of `toks(e)`, which
/// the grammar reads back as `e` (see `lemma_parse_print_tokens`).
pub proof fn lemma_lex_print(e: Expr)
    requires
        idents_ok(e),
    ensures
        lex(pretty(e), 0) == Some(lexemes(toks(e))),
{
    let s = pretty(e);
    assert(s.subrange(0, s.len() as int) =~= s);
    lemma_lex_pretty(e, s, 0);
    assert(lexemes(toks(e)) + Seq::<Lexeme>::empty() =~= lexemes(toks(e)));
}

/// Every name among the tokens is plain.
pub open spec fn tokens_plain(ts: Seq<Token>) -> bool {
    forall|j: int| 0 <= j < ts.len() && #[trigger] ts[j] is Ident ==> plain_ident(ts[j]->Ident_0@)
}

/// Every name among the lexemes is plain.
pub open spec fn lexemes_plain(r: Seq<Lexeme>) -> bool {
    forall|j: int| 0 <= j < r.len() && #[trigger] r[j] is Ident ==> plain_ident(r[j]->Ident_0)
}

proof fn lemma_word_chars(s: Seq<char>, i: int)
    requires
        0 <= i <= s.len(),
    ensures
        i <= word_end(s, i) <= s.len(),
        forall|q: int| i <= q < word_end(s, i) ==> is_ident_char(#[trigger] s[q]),
    decreases s.len() - i,
{
    if i < s.len() && is_ident_char(s[i]) {
        lemma_word_chars(s, i + 1);
    }
}

proof fn lemma_prepend_plain(t: Lexeme, r: Seq<Lexeme>)
    requires
        lexemes_plain(r),
        t is Ident ==> plain_ident(t->Ident_0),
    ensures
        lexemes_plain(seq![t] + r),
{
    assert forall|j: int| 0 <= j < (seq![t] + r).len() && #[trigger] (seq![t] + r)[j] is Ident implies plain_ident(
        (seq![t] + r)[j]->Ident_0,
    ) by {
        if j > 0 {
            assert((seq![t] + r)[j] == r[j - 1]);
        }
    }
}

/// The lexer gives plain names only.
proof fn lemma_lex_plain(s: Seq<char>, i: int)
    ensures
        lex(s, i) matches Some(r) ==> lexemes_plain(r),
    decreases s.len() - i,
{
    if i < 0 || i >= s.len() {
    } else if is_space(s[i]) {
        lemma_lex_plain(s, i + 1);
    } else if is_digit(s[i]) {
        let j = digits_end(s, i);
        if j > i && j <= s.len() {
            lemma_lex_plain(s, j);
            if let Some(rest) = lex(s, j) {
                lemma_prepend_plain(Lexeme::Num(0), rest);
                let v = digits_value(s, i, j);
                if v <= u64::MAX {
                    lemma_prepend_plain(Lexeme::Num(v as u64), rest);
                }
            }
        }
    } else if is_ident_start(s[i]) {
        let j = word_end(s, i);
        lemma_word_chars(s, i);
        if j > i {
            lemma_lex_plain(s, j);
            let w = s.subrange(i, j);
            if let Some(rest) = lex(s, j) {
                if w != "true"@ && w != "false"@ {
                    assert forall|k: int| 0 <= k < w.len() implies is_ident_char(#[trigger] w[k]) by {
                        assert(w[k] == s[i + k]);
                    }
                    assert(w[0] == s[i]);
                    lemma_prepend_plain(Lexeme::Ident(w), rest);
                } else if w == "true"@ {
                    lemma_prepend_plain(Lexeme::True, rest);
                } else {
                    lemma_prepend_plain(Lexeme::False, rest);
                }
            }
        }
    } else {
        if let Some((t, w)) = operator_at(s, i) {
            if w >= 1 {
                lemma_lex_plain(s, i + w);
                if let Some(rest) = lex(s, i + w) {
                    lemma_prepend_plain(t, rest);
                }
            }
        }
    }
}

proof fn lemma_level_plain(ts: Seq<Token>, i: int, lvl: int)
    requires
        tokens_plain(ts),
    ensures
        p_level(ts, i, lvl) matches Some((e, _)) ==> idents_ok(e),
    decreases ts.len() - i, 8 - lvl, 1int,
{
    if i < 0 || i > ts.len() || lvl < 0 || lvl > 7 {
    } else if lvl == 7 {
        if i < ts.len() {
            match ts[i] {
                Token::Bang => lemma_level_plain(ts, i + 1, 7),
                Token::Op(BinOp::Sub) => lemma_level_plain(ts, i + 1, 7),
                Token::LParen => lemma_level_plain(ts, i + 1, 0),
                _ => {},
            }
        }
    } else {
        lemma_level_plain(ts, i, lvl + 1);
        if let Some((l, j)) = p_level(ts, i, lvl + 1) {
            if j <= i || j > ts.len() {
            } else if lvl == 0 {
                if j < ts.len() {
                    lemma_level_plain(ts, j + 1, 0);
                }
            } else {
                lemma_rest_plain(ts, l, j, lvl);
            }
        }
    }
}

proof fn lemma_rest_plain(ts: Seq<Token>, lhs: Expr, j: int, lvl: int)
    requires
        tokens_plain(ts),
        idents_ok(lhs),
    ensures
        p_rest(ts, lhs, j, lvl) matches Some((e, _)) ==> idents_ok(e),
    decreases ts.len() - j, 8 - lvl, 0int,
{
    if j < 0 || j > ts.len() || lvl < 1 || lvl > 6 {
    } else if j < ts.len() && ts[j] is Op && op_level(ts[j]->Op_0) == lvl {
        lemma_level_plain(ts, j + 1, lvl + 1);
        if let Some((r, k)) = p_level(ts, j + 1, lvl + 1) {
            if k > j && k <= ts.len() {
                lemma_rest_plain(ts, Expr::Binary(ts[j]->Op_0, Box::new(lhs), Box::new(r)), k, lvl);
            }
        }
    }
}

/// Two results of the grammar that agree: both fail, or both give the
/// same tree ending at the same token.
pub open spec fn agree(a: Option<(Expr, int)>, b: Option<(Expr, int)>) -> bool {
    match (a, b) {
        (Some((x, j)), Some((y, k))) => j == k && same_tree(x, y),
        (None, None) => true,
        _ => false,
    }
}

proof fn lemma_same_tree_refl(x: Expr)
    ensures
        same_tree(x, x),
    decreases x,
{
    match x {
        Expr::Binary(_, l, r) => {
            lemma_same_tree_refl(*l);
            lemma_same_tree_refl(*r);
        },
        Expr::Unary(_, a) => {
            lemma_same_tree_refl(*a);
        },
        _ => {},
    }
}

proof fn lemma_level_congruent(t1: Seq<Token>, t2: Seq<Token>, i: int, lvl: int)
    requires
        lexemes(t1) == lexemes(t2),
    ensures
        agree(p_level(t1, i, lvl), p_level(t2, i, lvl)),
    decreases t1.len() - i, 8 - lvl, 1int,
{
    assert(t1.len() == lexemes(t1).len() && t2.len() == lexemes(t2).len());
    if i < 0 || i > t1.len() || lvl < 0 || lvl > 7 {
    } else if lvl == 7 {
        if i < t1.len() {
            assert(lexeme(t1[i]) == lexemes(t1)[i]);
            assert(lexeme(t2[i]) == lexemes(t2)[i]);
            match t1[i] {
                Token::Bang => {
                    lemma_level_congruent(t1, t2, i + 1, 7);
                },
                Token::Op(BinOp::Sub) => {
                    lemma_level_congruent(t1, t2, i + 1, 7);
                },
                Token::LParen => {
                    lemma_level_congruent(t1, t2, i + 1, 0);
                    if let Some((_, j)) = p_level(t1, i + 1, 0) {
                        if 0 <= j < t1.len() {
                            assert(lexeme(t1[j]) == lexemes(t1)[j]);
                            assert(lexeme(t2[j]) == lexemes(t2)[j]);
                        }
                    }
                },
                _ => {},
            }
        }
    } else {
        lemma_level_congruent(t1, t2, i, lvl + 1);
        if let Some((l1, j)) = p_level(t1, i, lvl + 1) {
            let (l2, _) = p_level(t2, i, lvl + 1)->Some_0;
            if j <= i || j > t1.len() {
            } else if lvl == 0 {
                if j < t1.len() {
                    assert(lexeme(t1[j]) == lexemes(t1)[j]);
                    assert(lexeme(t2[j]) == lexemes(t2)[j]);
                    lemma_level_congruent(t1, t2, j + 1, 0);
                }
            } else {
                lemma_rest_congruent(t1, t2, l1, l2, j, lvl);
            }
        }
    }
}

proof fn lemma_rest_congruent(t1: Seq<Token>, t2: Seq<Token>, a: Expr, b: Expr, j: int, lvl: int)
    requires
        lexemes(t1) == lexemes(t2),
        same_tree(a, b),
    ensures
        agree(p_rest(t1, a, j, lvl), p_rest(t2, b, j, lvl)),
    decreases t1.len() - j, 8 - lvl, 0int,
{
    assert(t1.len() == lexemes(t1).len() && t2.len() == lexemes(t2).len());
    if j < 0 || j > t1.len() || lvl < 1 || lvl > 6 {
    } else {
        if j < t1.len() {
            assert(lexeme(t1[j]) == lexemes(t1)[j]);
            assert(lexeme(t2[j]) == lexemes(t2)[j]);
        }
        if j < t1.len() && t1[j] is Op && op_level(t1[j]->Op_0) == lvl {
            lemma_level_congruent(t1, t2, j + 1, lvl + 1);
            if let Some((r1, k)) = p_level(t1, j + 1, lvl + 1) {
                let (r2, _) = p_level(t2, j + 1, lvl + 1)->Some_0;
                if k <= j || k > t1.len() {
                } else {
                    let op = t1[j]->Op_0;
                    lemma_rest_congruent(
                        t1,
                        t2,
                        Expr::Binary(op, Box::new(a), Box::new(r1)),
                        Expr::Binary(op, Box::new(b), Box::new(r2)),
                        k,
                        lvl,
                    );
                }
            }
        }
    }
}

/// Round trip: printing an expression whose variables are untyped and
/// plainly named, and reading the text back, gives the same tree. Any
/// tokens that lex from the printed text parse, to their end, as `e`.
pub proof fn lemma_round_trip(e: Expr, ts: Seq<Token>)
    requires
        is_untyped(e),
        idents_ok(e),
        lex(pretty(e), 0) == Some(lexemes(ts)),
    ensures
        p_level(ts, 0, 0) matches Some((x, j)) && j == ts.len() && same_tree(x, e),
{
    lemma_lex_print(e);
    lemma_parse_print_tokens(e);
    lemma_level_congruent(toks(e), ts, 0, 0);
    assert(lexemes(toks(e)).len() == toks(e).len());
    lemma_same_tree_refl(e);
    let (x, _) = p_level(ts, 0, 0)->Some_0;
    lemma_same_tree_sym(e, x);
}

proof fn lemma_same_tree_sym(a: Expr, b: Expr)
    requires
        same_tree(a, b),
    ensures
        same_tree(b, a),
    decreases a,
{
    match a {
        Expr::Binary(_, l, r) => {
            let (l2, r2) = match b {
                Expr::Binary(_, x, y) => (*x, *y),
                _ => (b, b),
            };
            lemma_same_tree_sym(*l, l2);
            lemma_same_tree_sym(*r, r2);
        },
        Expr::Unary(_, x) => {
            let x2 = match b {
                Expr::Unary(_, y) => *y,
                _ => b,
            };
            lemma_same_tree_sym(*x, x2);
        },
        _ => {},
    }
}

fn surface_text(op: BinOp) -> (r: &'static str)
    ensures
        r@ == surface_sym(op),
{
    match op {
        BinOp::Add => "+",
        BinOp::Sub => "-",
        BinOp::Mul => "*",
        BinOp::Div => "/",
        BinOp::Mod => "%",
        BinOp::Eq => "==",
        BinOp::Ne => "!=",
        BinOp::Lt => "<",
        BinOp::Le => "<=",
        BinOp::Gt => ">",
        BinOp::Ge => ">=",
        BinOp::And => "&&",
        BinOp::Or => "||",
        BinOp::Implies => "==>",
    }
}

fn write_pretty(out: &mut String, e: &Expr)
    ensures
        final(out)@ == old(out)@ + pretty(*e),
    decreases e,
{
    match e {
        Expr::IntLit(n) => write_numeral(out, *n),
        Expr::BoolLit(b) => {
            if *b {
                out.append("true");
            } else {
                out.append("false");
            }
        },
        Expr::Var(n, _) => {
            out.append(n.as_str());
        },
        Expr::Fresh(b, k, _) => {
            write_fresh_name(out, *b, *k);
        },
        Expr::Binary(op, l, r) => {
            out.append("(");
            write_pretty(out, l);
            out.append(" ");
            out.append(surface_text(*op));
            out.append(" ");
            write_pretty(out, r);
            out.append(")");
            assert(final(out)@ =~= old(out)@ + pretty(*e));
        },
        Expr::Unary(op, a) => {
            if *op == UnOp::Not {
                out.append("!");
            } else {
                out.append("-");
            }
            write_pretty(out, a);
            assert(final(out)@ =~= old(out)@ + pretty(*e));
        },
    }
}

/// The condition text of `e`, which `parse` reads back as `e`.
pub fn show(e: &Expr) -> (r: String)
    ensures
        r@ == pretty(*e),
{
    let mut out = String::new();
    write_pretty(&mut out, e);
    assert(out@ =~= pretty(*e));
    out
}

} // verus!
