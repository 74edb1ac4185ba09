//! Expression text to expression trees: tokenizing, then precedence climbing.
use vstd::prelude::*;
use crate::expr::{eval_spec, EvalError, Node, Op};
use crate::expr::{eval_v, node_view, path_view, ExprV};
use crate::expr::fits_i64;
use crate::lexer::{
    classified, has_dot, is_number, is_quote, number_body, op_word, signed_value, split_spec,
    ParseError, Token,
};
use crate::text::{chars_of, slice_chars, string_of};
use crate::value::Value;

verus! {

pub open spec fn is_space(c: char) -> bool {
    c == ' ' || c == '\t' || c == '\n' || c == '\r'
}

pub open spec fn is_op_char(c: char) -> bool {
    c == '+' || c == '-' || c == '*' || c == '/' || c == '%' || c == '=' || c == '!' || c == '>'
        || c == '<' || c == '&' || c == '|'
}

pub open spec fn is_word_char(c: char) -> bool {
    !is_space(c) && !is_op_char(c) && !is_quote(c) && c != '(' && c != ')'
}

/// The model of a token.
pub enum TokV {
    Open,
    Close,
    Oper(Op),
    Null,
    Bool(bool),
    Int(int),
    Str(Seq<char>),
    Arg(Seq<Seq<char>>),
    Tree,
}

pub open spec fn tok_view(t: Token) -> TokV {
    match t {
        Token::Open => TokV::Open,
        Token::Close => TokV::Close,
        Token::Operator(op) => TokV::Oper(op),
        Token::Operand(Node::Null) => TokV::Null,
        Token::Operand(Node::Bool(b)) => TokV::Bool(b),
        Token::Operand(Node::Int(i)) => TokV::Int(i as int),
        Token::Operand(Node::Str(s)) => TokV::Str(s@),
        Token::Operand(Node::Arg(p)) => TokV::Arg(path_view(p@)),
        Token::Operand(Node::Binary(..)) => TokV::Tree,
    }
}

pub open spec fn toks_view(t: Seq<Token>) -> Seq<TokV> {
    t.map_values(|x: Token| tok_view(x))
}

/// The token of one word: a keyword, an operator, a quoted string, a signed
/// integer, or a dotted path.
pub open spec fn word_tok(w: Seq<char>) -> Result<TokV, ParseError> {
    if w == "null"@ {
        Ok(TokV::Null)
    } else if w == "true"@ {
        Ok(TokV::Bool(true))
    } else if w == "false"@ {
        Ok(TokV::Bool(false))
    } else if op_word(w) is Some {
        Ok(TokV::Oper(op_word(w)->Some_0))
    } else if w.len() > 0 && is_quote(w[0]) {
        if w.len() >= 2 && w[w.len() - 1] == w[0] {
            Ok(TokV::Str(w.subrange(1, w.len() - 1)))
        } else {
            Err(ParseError::UnterminatedQuote)
        }
    } else if is_number(w) {
        if has_dot(number_body(w)) {
            Err(ParseError::FloatLiteral)
        } else if fits_i64(signed_value(w)) {
            Ok(TokV::Int(signed_value(w)))
        } else {
            Err(ParseError::NumberTooLarge)
        }
    } else {
        Ok(TokV::Arg(split_spec(w)))
    }
}

/// The operator spelled at the start of `t`, and its length.
pub open spec fn op_spec(t: Seq<char>) -> Result<(Op, int), ParseError> {
    let c = t[0];
    let next = if t.len() > 1 {
        t[1]
    } else {
        ' '
    };
    if next == '=' && (c == '=' || c == '!' || c == '>' || c == '<') {
        Ok(
            (
                if c == '=' {
                    Op::Eq
                } else if c == '!' {
                    Op::Ne
                } else if c == '>' {
                    Op::Ge
                } else {
                    Op::Le
                },
                2,
            ),
        )
    } else if c == '&' && next == '&' {
        Ok((Op::And, 2))
    } else if c == '|' && next == '|' {
        Ok((Op::Or, 2))
    } else if c == '+' {
        Ok((Op::Add, 1))
    } else if c == '-' {
        Ok((Op::Sub, 1))
    } else if c == '*' {
        Ok((Op::Mul, 1))
    } else if c == '/' {
        Ok((Op::Div, 1))
    } else if c == '%' {
        Ok((Op::Rem, 1))
    } else if c == '!' {
        Ok((Op::Not, 1))
    } else if c == '>' {
        Ok((Op::Gt, 1))
    } else if c == '<' {
        Ok((Op::Lt, 1))
    } else {
        Err(ParseError::BadOperator)
    }
}

/// The first position at or after `k` that holds `q`.
pub open spec fn find_char(t: Seq<char>, q: char, k: int) -> Option<int>
    decreases t.len() - k,
{
    if k < 0 || k >= t.len() {
        None
    } else if t[k] == q {
        Some(k)
    } else {
        find_char(t, q, k + 1)
    }
}

/// The end of the word that runs from `k`.
pub open spec fn word_end(t: Seq<char>, k: int) -> int
    decreases t.len() - k,
{
    if k < 0 || k >= t.len() {
        t.len() as int
    } else if !is_word_char(t[k]) {
        k
    } else {
        word_end(t, k + 1)
    }
}

/// The token at the start of `t` (which starts with no whitespace), and how
/// many characters it takes. A quoted string runs to the next quote of the
/// same kind and is taken verbatim.
pub open spec fn first_token(t: Seq<char>) -> Result<(TokV, int), ParseError> {
    let c = t[0];
    if c == '(' {
        Ok((TokV::Open, 1))
    } else if c == ')' {
        Ok((TokV::Close, 1))
    } else if is_quote(c) {
        match find_char(t, c, 1) {
            None => Err(ParseError::UnterminatedQuote),
            Some(j) => Ok((TokV::Str(t.subrange(1, j)), j + 1)),
        }
    } else if is_op_char(c) {
        match op_spec(t) {
            Ok((op, n)) => Ok((TokV::Oper(op), n)),
            Err(e) => Err(e),
        }
    } else {
        let j = word_end(t, 0);
        let n = if j == 0 {
            1
        } else {
            j
        };
        match word_tok(t.subrange(0, n)) {
            Ok(v) => Ok((v, n)),
            Err(e) => Err(e),
        }
    }
}

pub open spec fn prepend(acc: Seq<TokV>, m: Result<Seq<TokV>, ParseError>) -> Result<Seq<TokV>, ParseError> {
    match m {
        Ok(rest) => Ok(acc + rest),
        Err(e) => Err(e),
    }
}

/// The tokens of expression text: whitespace separates, and the first
/// malformed token is the error.
pub open spec fn lex(t: Seq<char>) -> Result<Seq<TokV>, ParseError>
    decreases t.len(),
{
    if t.len() == 0 {
        Ok(Seq::empty())
    } else if is_space(t[0]) {
        lex(t.drop_first())
    } else {
        match first_token(t) {
            Err(e) => Err(e),
            Ok((v, n)) => {
                let m = if 1 <= n <= t.len() {
                    n
                } else {
                    1
                };
                prepend(seq![v], lex(t.subrange(m, t.len() as int)))
            },
        }
    }
}

pub open spec fn lexed(r: Result<Vec<Token>, ParseError>, m: Result<Seq<TokV>, ParseError>) -> bool {
    match m {
        Ok(v) => r matches Ok(t) && toks_view(t@) == v,
        Err(e) => r matches Err(x) && x == e,
    }
}

proof fn lemma_word_tok(w: Seq<char>, r: Result<Token, ParseError>)
    requires
        classified(w, r),
    ensures
        match word_tok(w) {
            Ok(v) => r matches Ok(t) && tok_view(t) == v,
            Err(e) => r matches Err(x) && x == e,
        },
{
}

fn space(c: char) -> (r: bool)
    ensures
        r == is_space(c),
{
    c == ' ' || c == '\t' || c == '\n' || c == '\r'
}

fn op_char(c: char) -> (r: bool)
    ensures
        r == is_op_char(c),
{
    c == '+' || c == '-' || c == '*' || c == '/' || c == '%' || c == '=' || c == '!' || c == '>'
        || c == '<' || c == '&' || c == '|'
}

fn word_char(c: char) -> (r: bool)
    ensures
        r == is_word_char(c),
{
    !space(c) && !op_char(c) && c != '\'' && c != '`' && c != '(' && c != ')'
}

/// The operator spelled by one or two characters at `s[i..]`, and its length.
fn operator_at(s: &Vec<char>, i: usize) -> (r: Result<(Op, usize), ParseError>)
    requires
        i < s.len(),
    ensures
        r matches Ok((_, n)) ==> 1 <= n <= 2 && i + n <= s.len(),
        match op_spec(s@.subrange(i as int, s.len() as int)) {
            Ok((op, n)) => r matches Ok((o, m)) && o == op && m == n,
            Err(e) => r matches Err(x) && x == e,
        },
{
    let ghost t = s@.subrange(i as int, s.len() as int);
    assert(t[0] == s@[i as int]);
    assert(t.len() > 1 ==> t[1] == s@[i + 1]);
    let c = s[i];
    let next = if i + 1 < s.len() {
        s[i + 1]
    } else {
        ' '
    };
    if next == '=' && (c == '=' || c == '!' || c == '>' || c == '<') {
        let op = if c == '=' {
            Op::Eq
        } else if c == '!' {
            Op::Ne
        } else if c == '>' {
            Op::Ge
        } else {
            Op::Le
        };
        return Ok((op, 2));
    }
    if c == '&' && next == '&' {
        return Ok((Op::And, 2));
    }
    if c == '|' && next == '|' {
        return Ok((Op::Or, 2));
    }
    if c == '+' {
        Ok((Op::Add, 1))
    } else if c == '-' {
        Ok((Op::Sub, 1))
    } else if c == '*' {
        Ok((Op::Mul, 1))
    } else if c == '/' {
        Ok((Op::Div, 1))
    } else if c == '%' {
        Ok((Op::Rem, 1))
    } else if c == '!' {
        Ok((Op::Not, 1))
    } else if c == '>' {
        Ok((Op::Gt, 1))
    } else if c == '<' {
        Ok((Op::Lt, 1))
    } else {
        Err(ParseError::BadOperator)
    }
}

proof fn lemma_prepend(a: Seq<TokV>, b: Seq<TokV>, m: Result<Seq<TokV>, ParseError>)
    ensures
        prepend(a, prepend(b, m)) == prepend(a + b, m),
{
    if let Ok(rest) = m {
        assert(a + (b + rest) =~= (a + b) + rest);
    }
}

/// The tokens of expression text.
fn tokenize(s: &Vec<char>) -> (r: Result<Vec<Token>, ParseError>)
    ensures
        lexed(r, lex(s@)),
{
    let mut out: Vec<Token> = Vec::new();
    let mut i: usize = 0;
    assert(s@.subrange(0, s@.len() as int) =~= s@);
    assert(toks_view(out@) =~= Seq::empty());
    assert(prepend(Seq::empty(), lex(s@)) == lex(s@)) by {
        if let Ok(rest) = lex(s@) {
            assert(Seq::<TokV>::empty() + rest =~= rest);
        }
    }
    while i < s.len()
        invariant
            i <= s.len(),
            lex(s@) == prepend(toks_view(out@), lex(s@.subrange(i as int, s@.len() as int))),
        decreases s.len() - i,
    {
        let ghost t = s@.subrange(i as int, s@.len() as int);
        let ghost acc = toks_view(out@);
        assert(t[0] == s@[i as int]);
        let c = s[i];
        if space(c) {
            assert(t.drop_first() =~= s@.subrange(i + 1, s@.len() as int));
            i = i + 1;
        } else if c == '(' || c == ')' {
            let tok = if c == '(' {
                Token::Open
            } else {
                Token::Close
            };
            out.push(tok);
            assert(t.subrange(1, t.len() as int) =~= s@.subrange(i + 1, s@.len() as int));
            assert(toks_view(out@) =~= acc + seq![tok_view(tok)]);
            proof {
                lemma_prepend(acc, seq![tok_view(tok)], lex(t.subrange(1, t.len() as int)));
            }
            i = i + 1;
        } else if c == '\'' || c == '`' {
            let mut j: usize = i + 1;
            while j < s.len() && s[j] != c
                invariant
                    i < j <= s.len(),
                    t == s@.subrange(i as int, s@.len() as int),
                    c == t[0],
                    find_char(t, c, 1) == find_char(t, c, j - i),
                decreases s.len() - j,
            {
                assert(t[j - i] == s@[j as int]);
                j = j + 1;
            }
            if j == s.len() {
                return Err(ParseError::UnterminatedQuote);
            }
            assert(t[j - i] == s@[j as int]);
            let body = slice_chars(s, i + 1, j);
            let tok = Token::Operand(Node::Str(string_of(body.as_slice())));
            assert(t.subrange(1, j - i) =~= s@.subrange(i + 1, j as int));
            out.push(tok);
            assert(t.subrange(j - i + 1, t.len() as int) =~= s@.subrange(j + 1, s@.len() as int));
            assert(toks_view(out@) =~= acc + seq![tok_view(tok)]);
            proof {
                lemma_prepend(acc, seq![tok_view(tok)], lex(t.subrange(j - i + 1, t.len() as int)));
            }
            i = j + 1;
        } else if op_char(c) {
            match operator_at(s, i) {
                Err(e) => {
                    return Err(e);
                },
                Ok((op, n)) => {
                    let tok = Token::Operator(op);
                    out.push(tok);
                    assert(t.subrange(n as int, t.len() as int) =~= s@.subrange(i + n, s@.len() as int));
                    assert(toks_view(out@) =~= acc + seq![tok_view(tok)]);
                    proof {
                        lemma_prepend(acc, seq![tok_view(tok)], lex(t.subrange(n as int, t.len() as int)));
                    }
                    i = i + n;
                },
            }
        } else {
            let mut j: usize = i;
            while j < s.len() && word_char(s[j])
                invariant
                    i <= j <= s.len(),
                    t == s@.subrange(i as int, s@.len() as int),
                    word_end(t, 0) == word_end(t, j - i),
                decreases s.len() - j,
            {
                assert(t[j - i] == s@[j as int]);
                j = j + 1;
            }
            if j < s.len() {
                assert(t[j - i] == s@[j as int]);
            }
            if j == i {
                j = i + 1;
            }
            let piece = slice_chars(s, i, j);
            assert(piece@ =~= t.subrange(0, j - i));
            let word = string_of(piece.as_slice());
            let res = Node::parser(word.as_str());
            proof {
                lemma_word_tok(word@, res);
            }
            match res {
                Err(e) => {
                    return Err(e);
                },
                Ok(tok) => {
                    out.push(tok);
                    assert(t.subrange(j - i, t.len() as int) =~= s@.subrange(j as int, s@.len() as int));
                    assert(toks_view(out@) =~= acc + seq![tok_view(tok)]);
                    proof {
                        lemma_prepend(acc, seq![tok_view(tok)], lex(t.subrange(j - i, t.len() as int)));
                    }
                    i = j;
                },
            }
        }
    }
    assert(s@.subrange(i as int, s@.len() as int) =~= Seq::<char>::empty());
    assert(toks_view(out@) + Seq::<TokV>::empty() =~= toks_view(out@));
    Ok(out)
}

pub open spec fn no_tree(t: Seq<TokV>) -> bool {
    forall|i: int| 0 <= i < t.len() ==> !(#[trigger] t[i] is Tree)
}

proof fn lemma_lex_no_tree(t: Seq<char>)
    ensures
        lex(t) matches Ok(v) ==> no_tree(v),
    decreases t.len(),
{
    if t.len() > 0 {
        if is_space(t[0]) {
            lemma_lex_no_tree(t.drop_first());
        } else if let Ok((v, n)) = first_token(t) {
            let m = if 1 <= n <= t.len() {
                n
            } else {
                1
            };
            lemma_lex_no_tree(t.subrange(m, t.len() as int));
            if let Ok(rest) = lex(t.subrange(m, t.len() as int)) {
                assert(!(v is Tree));
                assert forall|i: int| 0 <= i < (seq![v] + rest).len() implies !(#[trigger] (seq![v]
                    + rest)[i] is Tree) by {
                    if i > 0 {
                        assert((seq![v] + rest)[i] == rest[i - 1]);
                    }
                }
            }
        }
    }
}

/// The binding strength of a binary operator; higher binds tighter.
pub open spec fn level_of(op: Op) -> int {
    match op {
        Op::Or => 0,
        Op::And => 1,
        Op::Eq | Op::Ne | Op::Gt | Op::Ge | Op::Lt | Op::Le => 2,
        Op::In | Op::Like => 3,
        Op::Add | Op::Sub => 4,
        Op::Mul | Op::Div | Op::Rem => 5,
        Op::Not => 6,
    }
}

fn level(op: Op) -> (r: u8)
    ensures
        r as int == level_of(op),
{
    match op {
        Op::Or => 0,
        Op::And => 1,
        Op::Eq | Op::Ne | Op::Gt | Op::Ge | Op::Lt | Op::Le => 2,
        Op::In | Op::Like => 3,
        Op::Add | Op::Sub => 4,
        Op::Mul | Op::Div | Op::Rem => 5,
        Op::Not => 6,
    }
}

/// The tokens of an exec stack in reading order: the next token is the last element.
pub open spec fn stream(s: Seq<Token>) -> Seq<TokV>
    decreases s.len(),
{
    if s.len() == 0 {
        Seq::empty()
    } else {
        seq![tok_view(s.last())] + stream(s.drop_last())
    }
}

proof fn lemma_stream_len(s: Seq<Token>)
    ensures
        stream(s).len() == s.len(),
    decreases s.len(),
{
    if s.len() > 0 {
        lemma_stream_len(s.drop_last());
    }
}

/// The binary operator of token `v` if it binds at level `lv`.
pub open spec fn binop_at(v: TokV, lv: int) -> Option<Op> {
    match v {
        TokV::Oper(op) => if op != Op::Not && level_of(op) == lv {
            Some(op)
        } else {
            None
        },
        _ => None,
    }
}

pub open spec fn leaf_of(v: TokV) -> ExprV {
    match v {
        TokV::Bool(b) => ExprV::Bool(b),
        TokV::Int(i) => ExprV::Int(i),
        TokV::Str(s) => ExprV::Str(s),
        TokV::Arg(p) => ExprV::Arg(p),
        _ => ExprV::Null,
    }
}

pub open spec fn level_rank(lv: int) -> int {
    if lv >= 6 {
        1
    } else {
        7 - lv
    }
}

/// A prefix `!` or `-`, an operand, or a parenthesized expression, and the
/// tokens after it. `!x` is a `Not` node with a null left operand, `-x` is `0 - x`.
pub open spec fn p_unary(t: Seq<TokV>) -> Result<(ExprV, Seq<TokV>), ParseError>
    decreases t.len(), 0int,
{
    if t.len() == 0 {
        Err(ParseError::MissingOperand)
    } else {
        let rest = t.drop_first();
        match t[0] {
            TokV::Oper(op) => if op == Op::Not || op == Op::Sub {
                match p_unary(rest) {
                    Ok((e, r2)) => Ok(
                        (
                            ExprV::Bin(
                                op,
                                Box::new(
                                    if op == Op::Not {
                                        ExprV::Null
                                    } else {
                                        ExprV::Int(0)
                                    },
                                ),
                                Box::new(e),
                            ),
                            r2,
                        ),
                    ),
                    Err(x) => Err(x),
                }
            } else {
                Err(ParseError::MissingOperand)
            },
            TokV::Close => Err(ParseError::MissingOperand),
            TokV::Open => match p_level(rest, 0) {
                Err(x) => Err(x),
                Ok((e, r2)) => if r2.len() > 0 && r2[0] is Close {
                    Ok((e, r2.drop_first()))
                } else {
                    Err(ParseError::UnmatchedParen)
                },
            },
            v => Ok((leaf_of(v), rest)),
        }
    }
}

/// Operands joined, left to right, by operators of level `lv`, each operand
/// parsed at the next tighter level; and the tokens after them.
pub open spec fn p_level(t: Seq<TokV>, lv: int) -> Result<(ExprV, Seq<TokV>), ParseError>
    decreases t.len(), level_rank(lv),
{
    if lv >= 6 {
        p_unary(t)
    } else {
        match p_level(t, lv + 1) {
            Err(x) => Err(x),
            Ok((l, rest)) => if rest.len() < t.len() {
                p_loop(rest, lv, l)
            } else {
                Err(ParseError::MissingOperand)
            },
        }
    }
}

/// The rest of a level-`lv` chain whose left part is `left`.
pub open spec fn p_loop(t: Seq<TokV>, lv: int, left: ExprV) -> Result<(ExprV, Seq<TokV>), ParseError>
    decreases t.len(), level_rank(lv),
{
    if lv < 6 && t.len() > 0 && binop_at(t[0], lv) is Some {
        let op = binop_at(t[0], lv)->Some_0;
        match p_level(t.drop_first(), lv + 1) {
            Err(x) => Err(x),
            Ok((r, rest)) => if rest.len() < t.len() {
                p_loop(rest, lv, ExprV::Bin(op, Box::new(left), Box::new(r)))
            } else {
                Err(ParseError::MissingOperand)
            },
        }
    } else {
        Ok((left, t))
    }
}

/// The tree of a token sequence: the whole of it must be one expression.
pub open spec fn parse_spec(v: Seq<TokV>) -> Result<ExprV, ParseError> {
    if v.len() == 0 {
        Err(ParseError::Empty)
    } else {
        match p_level(v, 0) {
            Err(x) => Err(x),
            Ok((e, rest)) => if rest.len() == 0 {
                Ok(e)
            } else if rest[0] is Close {
                Err(ParseError::UnmatchedParen)
            } else {
                Err(ParseError::MissingOperator)
            },
        }
    }
}

/// The tree of expression text.
pub open spec fn expr_of(text: Seq<char>) -> Result<ExprV, ParseError> {
    match lex(text) {
        Err(x) => Err(x),
        Ok(v) => parse_spec(v),
    }
}

pub open spec fn parsed_as(r: Result<Node, ParseError>, m: Result<(ExprV, Seq<TokV>), ParseError>, after: Seq<Token>) -> bool {
    match m {
        Ok((e, rest)) => r matches Ok(n) && node_view(n) == e && stream(after) == rest,
        Err(x) => r matches Err(y) && y == x,
    }
}

/// The binary operator that the next token is, if it binds at `lv`.
fn next_binary_at(stack: &Vec<Token>, lv: u8) -> (r: Option<Op>)
    ensures
        r == (if stack@.len() > 0 {
            binop_at(stream(stack@)[0], lv as int)
        } else {
            None
        }),
{
    if stack.len() == 0 {
        return None;
    }
    assert(stream(stack@)[0] == tok_view(stack@.last()));
    match &stack[stack.len() - 1] {
        Token::Operator(op) => {
            if *op != Op::Not && level(*op) == lv {
                Some(*op)
            } else {
                None
            }
        },
        _ => None,
    }
}

/// Parses a sequence of operands joined by operators of binding level `lv` or
/// tighter, from the end of `stack` (the next token is the last element).
fn parse_level(stack: &mut Vec<Token>, lv: u8) -> (r: Result<Node, ParseError>)
    requires
        lv <= 6,
        no_tree(stream(old(stack)@)),
    ensures
        final(stack)@.len() <= old(stack)@.len(),
        r is Ok ==> final(stack)@.len() < old(stack)@.len(),
        !(r matches Err(ParseError::Empty)),
        no_tree(stream(final(stack)@)),
        parsed_as(r, p_level(stream(old(stack)@), lv as int), final(stack)@),
    decreases old(stack)@.len(), 7 - lv,
{
    if lv == 6 {
        return parse_unary(stack);
    }
    proof {
        lemma_stream_len(stack@);
    }
    let ghost goal = p_level(stream(stack@), lv as int);
    let mut left = match parse_level(stack, lv + 1) {
        Ok(x) => x,
        Err(e) => return Err(e),
    };
    proof {
        lemma_stream_len(stack@);
    }
    loop
        invariant
            lv < 6,
            stack@.len() < old(stack)@.len(),
            no_tree(stream(stack@)),
            goal == p_level(stream(old(stack)@), lv as int),
            goal == p_loop(stream(stack@), lv as int, node_view(left)),
        decreases stack@.len(),
    {
        proof {
            lemma_stream_len(stack@);
        }
        match next_binary_at(stack, lv) {
            None => {
                return Ok(left);
            },
            Some(op) => {
                let ghost before = stack@;
                let ghost t = stream(before);
                stack.pop();
                assert(stack@ =~= before.drop_last());
                assert(t.drop_first() =~= stream(stack@));
                assert forall|i: int| 0 <= i < stream(stack@).len() implies !(#[trigger] stream(
                    stack@,
                )[i] is Tree) by {
                    assert(stream(stack@)[i] == t[i + 1]);
                }
                let right = match parse_level(stack, lv + 1) {
                    Ok(x) => x,
                    Err(e) => return Err(e),
                };
                proof {
                    lemma_stream_len(stack@);
                }
                left = Node::Binary(op, Box::new(left), Box::new(right));
            },
        }
    }
}

/// A prefix `!` or `-`, or a primary: an operand or a parenthesized expression.
fn parse_unary(stack: &mut Vec<Token>) -> (r: Result<Node, ParseError>)
    requires
        no_tree(stream(old(stack)@)),
    ensures
        final(stack)@.len() <= old(stack)@.len(),
        r is Ok ==> final(stack)@.len() < old(stack)@.len(),
        !(r matches Err(ParseError::Empty)),
        no_tree(stream(final(stack)@)),
        parsed_as(r, p_unary(stream(old(stack)@)), final(stack)@),
    decreases old(stack)@.len(), 0int,
{
    let ghost before = stack@;
    let ghost t = stream(before);
    proof {
        lemma_stream_len(before);
    }
    let popped = stack.pop();
    proof {
        if before.len() > 0 {
            assert(stack@ =~= before.drop_last());
            assert(t.drop_first() =~= stream(stack@));
            assert(t[0] == tok_view(before.last()));
            assert forall|i: int| 0 <= i < stream(stack@).len() implies !(#[trigger] stream(
                stack@,
            )[i] is Tree) by {
                assert(stream(stack@)[i] == t[i + 1]);
            }
        }
    }
    match popped {
        None => Err(ParseError::MissingOperand),
        Some(Token::Operand(n)) => {
            proof {
                assert(t[0] == tok_view(Token::Operand(n)));
                assert(!(t[0] is Tree));
                match n {
                    Node::Null => {},
                    Node::Bool(_) => {},
                    Node::Int(_) => {},
                    Node::Str(_) => {},
                    Node::Arg(_) => {},
                    Node::Binary(..) => {},
                }
                assert(node_view(n) == leaf_of(t[0]));
            }
            Ok(n)
        },
        Some(Token::Operator(Op::Not)) => {
            assert(t[0] == TokV::Oper(Op::Not));
            let inner = match parse_unary(stack) {
                Ok(x) => x,
                Err(e) => return Err(e),
            };
            assert(node_view(Node::Null) == (if Op::Not == Op::Not {
                ExprV::Null
            } else {
                ExprV::Int(0)
            }));
            Ok(Node::Binary(Op::Not, Box::new(Node::Null), Box::new(inner)))
        },
        Some(Token::Operator(Op::Sub)) => {
            assert(t[0] == TokV::Oper(Op::Sub));
            let inner = match parse_unary(stack) {
                Ok(x) => x,
                Err(e) => return Err(e),
            };
            assert(node_view(Node::Int(0)) == (if Op::Sub == Op::Not {
                ExprV::Null
            } else {
                ExprV::Int(0)
            }));
            Ok(Node::Binary(Op::Sub, Box::new(Node::Int(0)), Box::new(inner)))
        },
        Some(Token::Operator(_)) => Err(ParseError::MissingOperand),
        Some(Token::Close) => Err(ParseError::MissingOperand),
        Some(Token::Open) => {
            let inner = match parse_level(stack, 0) {
                Ok(x) => x,
                Err(e) => return Err(e),
            };
            let ghost mid = stack@;
            proof {
                lemma_stream_len(mid);
            }
            match stack.pop() {
                Some(Token::Close) => {
                    proof {
                        assert(stream(mid)[0] == tok_view(mid.last()));
                        assert(stack@ =~= mid.drop_last());
                        assert(stream(mid).drop_first() =~= stream(stack@));
                        assert forall|i: int| 0 <= i < stream(stack@).len() implies !(
                        #[trigger] stream(stack@)[i] is Tree) by {
                            assert(stream(stack@)[i] == stream(mid)[i + 1]);
                        }
                    }
                    Ok(inner)
                },
                other => {
                    proof {
                        if mid.len() > 0 {
                            assert(stream(mid)[0] == tok_view(mid.last()));
                            assert(stack@ =~= mid.drop_last());
                            assert(stream(mid).drop_first() =~= stream(stack@));
                            assert forall|i: int| 0 <= i < stream(stack@).len() implies !(
                            #[trigger] stream(stack@)[i] is Tree) by {
                                assert(stream(stack@)[i] == stream(mid)[i + 1]);
                            }
                        }
                    }
                    Err(ParseError::UnmatchedParen)
                },
            }
        },
    }
}

/// Parses expression text into a tree. Fails on empty text, an unterminated
/// quote, unmatched parentheses, a missing operand or a missing operator.
pub fn parse_expression(text: &str) -> (r: Result<Node, ParseError>)
    ensures
        match expr_of(text@) {
            Ok(e) => r matches Ok(n) && node_view(n) == e,
            Err(x) => r matches Err(y) && y == x,
        },
{
    let chars = chars_of(text);
    let mut tokens = match tokenize(&chars) {
        Ok(t) => t,
        Err(e) => return Err(e),
    };
    if tokens.len() == 0 {
        return Err(ParseError::Empty);
    }
    let ghost v = toks_view(tokens@);
    proof {
        lemma_lex_no_tree(chars@);
    }
    let mut stack: Vec<Token> = Vec::new();
    assert(toks_view(tokens@) + stream(stack@) =~= v);
    while tokens.len() > 0
        invariant
            toks_view(tokens@) + stream(stack@) == v,
        decreases tokens.len(),
    {
        let ghost tb = tokens@;
        let ghost sb = stack@;
        let t = tokens.pop().unwrap();
        stack.push(t);
        assert(tb =~= tokens@.push(t));
        assert(stack@.drop_last() =~= sb);
        assert(toks_view(tb) =~= toks_view(tokens@).push(tok_view(t)));
        assert(stream(stack@) == seq![tok_view(t)] + stream(sb));
        assert(toks_view(tokens@) + stream(stack@) =~= toks_view(tb) + stream(sb));
    }
    assert(toks_view(tokens@) =~= Seq::<TokV>::empty());
    assert(stream(stack@) =~= v);
    let node = match parse_level(&mut stack, 0) {
        Ok(n) => n,
        Err(e) => return Err(e),
    };
    proof {
        lemma_stream_len(stack@);
    }
    if stack.len() > 0 {
        assert(stream(stack@)[0] == tok_view(stack@.last()));
        match &stack[stack.len() - 1] {
            Token::Close => Err(ParseError::UnmatchedParen),
            _ => Err(ParseError::MissingOperator),
        }
    } else {
        Ok(node)
    }
}

/// Why an expression could not be evaluated from its text.
#[derive(PartialEq, Eq, Structural, Clone, Copy, Debug)]
pub enum ExprError {
    Parse(ParseError),
    Eval(EvalError),
}

/// Parses `text` and evaluates the tree against `env`.
pub fn evaluate(text: &str, env: &Value) -> (r: Result<Value, ExprError>)
    ensures
        match expr_of(text@) {
            Err(x) => r == Err::<Value, ExprError>(ExprError::Parse(x)),
            Ok(e) => match eval_v(e, env@, Seq::empty()) {
                Ok(v) => r matches Ok(y) && y@ == v,
                Err(x) => r == Err::<Value, ExprError>(ExprError::Eval(x)),
            },
        },
{
    match parse_expression(text) {
        Err(e) => Err(ExprError::Parse(e)),
        Ok(n) => match n.eval(env) {
            Ok(v) => Ok(v),
            Err(e) => Err(ExprError::Eval(e)),
        },
    }
}

} // verus!
