//! Splitting expression text into tokens.
use vstd::prelude::*;
use crate::expr::{fits_i64, path_view, Node, Op};
use crate::text::{chars_of, occurs_at, slice_chars, string_of};

verus! {

/// Why expression or template text could not be parsed.
#[derive(PartialEq, Eq, Structural, Clone, Copy, Debug)]
pub enum ParseError {
    Empty,
    UnterminatedQuote,
    UnmatchedParen,
    MissingOperand,
    MissingOperator,
    /// `=`, `&` or `|` standing alone.
    BadOperator,
    /// A number with a decimal point; only integers are represented.
    FloatLiteral,
    NumberTooLarge,
    BadIndent,
    UnterminatedBind,
    UnknownDirective,
}

/// A lexical token of an expression.
#[derive(Debug, PartialEq)]
pub enum Token {
    Open,
    Close,
    Operator(Op),
    Operand(Node),
}

pub open spec fn is_digit(c: char) -> bool {
    '0' <= c && c <= '9'
}

pub open spec fn digit_val(c: char) -> int {
    (c as u32) as int - 48
}

pub open spec fn is_quote(c: char) -> bool {
    c == '\'' || c == '`'
}

/// An unsigned numeric word: it starts with a digit, holds only digits and
/// dots, and at most one dot.
pub open spec fn is_numeric(w: Seq<char>) -> bool {
    &&& w.len() > 0
    &&& is_digit(w[0])
    &&& forall|i: int| 0 <= i < w.len() ==> is_digit(#[trigger] w[i]) || w[i] == '.'
    &&& forall|i: int, j: int|
        #![trigger w[i], w[j]]
        0 <= i < j < w.len() ==> !(w[i] == '.' && w[j] == '.')
}

/// A word without its leading sign, if it has one and more.
pub open spec fn number_body(w: Seq<char>) -> Seq<char> {
    if w.len() > 1 && (w[0] == '-' || w[0] == '+') {
        w.drop_first()
    } else {
        w
    }
}

/// A numeric word with an optional leading sign.
pub open spec fn is_number(w: Seq<char>) -> bool {
    is_numeric(number_body(w))
}

/// The value of a signed digit word.
pub open spec fn signed_value(w: Seq<char>) -> int {
    if w.len() > 1 && w[0] == '-' {
        -digits_value(number_body(w))
    } else {
        digits_value(number_body(w))
    }
}

/// The operator that a word spells, if any.
pub open spec fn op_word(w: Seq<char>) -> Option<Op> {
    if w == "+"@ {
        Some(Op::Add)
    } else if w == "-"@ {
        Some(Op::Sub)
    } else if w == "*"@ {
        Some(Op::Mul)
    } else if w == "/"@ {
        Some(Op::Div)
    } else if w == "%"@ {
        Some(Op::Rem)
    } else if w == "=="@ {
        Some(Op::Eq)
    } else if w == "!="@ {
        Some(Op::Ne)
    } else if w == ">"@ {
        Some(Op::Gt)
    } else if w == ">="@ {
        Some(Op::Ge)
    } else if w == "<"@ {
        Some(Op::Lt)
    } else if w == "<="@ {
        Some(Op::Le)
    } else if w == "&&"@ {
        Some(Op::And)
    } else if w == "||"@ {
        Some(Op::Or)
    } else if w == "!"@ {
        Some(Op::Not)
    } else if w == "in"@ {
        Some(Op::In)
    } else if w == "like"@ {
        Some(Op::Like)
    } else {
        None
    }
}

pub open spec fn has_dot(w: Seq<char>) -> bool {
    exists|i: int| 0 <= i < w.len() && #[trigger] w[i] == '.'
}

/// The decimal value of a string of digits.
pub open spec fn digits_value(w: Seq<char>) -> int
    decreases w.len(),
{
    if w.len() == 0 {
        0
    } else {
        10 * digits_value(w.drop_last()) + digit_val(w.last())
    }
}

/// A word split at its dots: one segment more than there are dots.
pub open spec fn split_spec(w: Seq<char>) -> Seq<Seq<char>>
    decreases w.len(),
{
    if w.len() == 0 {
        seq![Seq::empty()]
    } else {
        let p = split_spec(w.drop_last());
        if w.last() == '.' {
            p.push(Seq::empty())
        } else {
            p.update(p.len() - 1, p.last().push(w.last()))
        }
    }
}

/// What the text of one token denotes: a keyword, an operator, a quoted
/// string (taken verbatim between its quotes), a signed integer, or a dotted
/// path split at its dots. A word that opens a quote and does not close it
/// with the same quote is unterminated.
pub open spec fn classified(w: Seq<char>, r: Result<Token, ParseError>) -> bool {
    if w == "null"@ {
        r matches Ok(Token::Operand(Node::Null))
    } else if w == "true"@ {
        r matches Ok(Token::Operand(Node::Bool(true)))
    } else if w == "false"@ {
        r matches Ok(Token::Operand(Node::Bool(false)))
    } else if op_word(w) is Some {
        r matches Ok(Token::Operator(op)) && op == op_word(w)->Some_0
    } else if w.len() > 0 && is_quote(w[0]) {
        if w.len() >= 2 && w[w.len() - 1] == w[0] {
            r matches Ok(Token::Operand(Node::Str(s))) && s@ == w.subrange(1, w.len() - 1)
        } else {
            r matches Err(ParseError::UnterminatedQuote)
        }
    } else if is_number(w) {
        if has_dot(number_body(w)) {
            r matches Err(ParseError::FloatLiteral)
        } else if fits_i64(signed_value(w)) {
            r matches Ok(Token::Operand(Node::Int(n))) && n == signed_value(w)
        } else {
            r matches Err(ParseError::NumberTooLarge)
        }
    } else {
        r matches Ok(Token::Operand(Node::Arg(p))) && path_view(p@) == split_spec(w)
    }
}

fn same_word(w: &Vec<char>, lit: &str) -> (r: bool)
    ensures
        r == (w@ == lit@),
{
    let l = chars_of(lit);
    let r = w.len() == l.len() && occurs_at(w, 0, &l);
    proof {
        if w@.len() == l@.len() {
            assert(w@.subrange(0, l@.len() as int) =~= w@);
        }
    }
    r
}

proof fn lemma_value_grows(w: Seq<char>, i: int)
    requires
        0 <= i <= w.len(),
        forall|j: int| 0 <= j < w.len() ==> is_digit(#[trigger] w[j]),
    ensures
        digits_value(w.subrange(0, i)) <= digits_value(w),
        0 <= digits_value(w.subrange(0, i)),
    decreases w.len() - i,
{
    if i == w.len() {
        assert(w.subrange(0, i) =~= w);
        lemma_value_nonneg(w);
    } else {
        lemma_value_grows(w, i + 1);
        assert(w.subrange(0, i + 1).drop_last() =~= w.subrange(0, i));
        lemma_value_nonneg(w.subrange(0, i));
    }
}

proof fn lemma_value_nonneg(w: Seq<char>)
    requires
        forall|j: int| 0 <= j < w.len() ==> is_digit(#[trigger] w[j]),
    ensures
        0 <= digits_value(w),
    decreases w.len(),
{
    if w.len() > 0 {
        lemma_value_nonneg(w.drop_last());
    }
}

fn numeric_token(w: &Vec<char>, neg: bool) -> (r: Result<Token, ParseError>)
    requires
        is_numeric(w@),
    ensures
        if has_dot(w@) {
            r matches Err(ParseError::FloatLiteral)
        } else if fits_i64(if neg { -digits_value(w@) } else { digits_value(w@) }) {
            r matches Ok(Token::Operand(Node::Int(n))) && n == (if neg {
                -digits_value(w@)
            } else {
                digits_value(w@)
            })
        } else {
            r matches Err(ParseError::NumberTooLarge)
        },
{
    let mut i: usize = 0;
    while i < w.len()
        invariant
            i <= w.len(),
            forall|j: int| 0 <= j < i ==> w@[j] != '.',
        decreases w.len() - i,
    {
        if w[i] == '.' {
            return Err(ParseError::FloatLiteral);
        }
        i = i + 1;
    }
    assert(!has_dot(w@));
    assert(forall|j: int| 0 <= j < w@.len() ==> is_digit(#[trigger] w@[j]));
    let limit: u64 = if neg {
        9223372036854775808u64
    } else {
        9223372036854775807u64
    };
    let mut acc: u64 = 0;
    let mut k: usize = 0;
    assert(w@.subrange(0, 0) =~= Seq::<char>::empty());
    while k < w.len()
        invariant
            k <= w.len(),
            forall|j: int| 0 <= j < w@.len() ==> is_digit(#[trigger] w@[j]),
            acc as int == digits_value(w@.subrange(0, k as int)),
            acc <= limit,
            limit == (if neg {
                9223372036854775808u64
            } else {
                9223372036854775807u64
            }),
        decreases w.len() - k,
    {
        let d = (w[k] as u32 - 48) as u64;
        assert(0 <= d <= 9);
        assert(w@.subrange(0, k + 1).drop_last() =~= w@.subrange(0, k as int));
        if acc > (limit - d) / 10 {
            assert(acc * 10 + d > limit) by (nonlinear_arith)
                requires
                    acc > (limit - d) / 10,
                    0 <= d <= 9,
                    d <= limit,
            ;
            proof {
                lemma_value_grows(w@, k + 1);
            }
            return Err(ParseError::NumberTooLarge);
        }
        assert(acc * 10 + d <= limit) by (nonlinear_arith)
            requires
                0 <= acc <= (limit - d) / 10,
                0 <= d <= 9,
        ;
        acc = acc * 10 + d;
        k = k + 1;
    }
    assert(w@.subrange(0, k as int) =~= w@);
    let n: i64 = if !neg {
        acc as i64
    } else if acc == 9223372036854775808u64 {
        i64::MIN
    } else {
        -(acc as i64)
    };
    Ok(Token::Operand(Node::Int(n)))
}

/// Splits a word at its dots.
fn split_dots(w: &Vec<char>) -> (r: Vec<String>)
    ensures
        path_view(r@) == split_spec(w@),
{
    let mut segs: Vec<String> = Vec::new();
    let mut cur: Vec<char> = Vec::new();
    let mut i: usize = 0;
    assert(path_view(segs@).push(cur@) =~= seq![Seq::<char>::empty()]);
    assert(w@.subrange(0, 0) =~= Seq::<char>::empty());
    while i < w.len()
        invariant
            i <= w.len(),
            path_view(segs@).push(cur@) == split_spec(w@.subrange(0, i as int)),
        decreases w.len() - i,
    {
        let ghost before = path_view(segs@);
        let c = w[i];
        assert(w@.subrange(0, i + 1).drop_last() =~= w@.subrange(0, i as int));
        assert(w@.subrange(0, i + 1).last() == c);
        if c == '.' {
            let s = string_of(cur.as_slice());
            segs.push(s);
            cur = Vec::new();
            assert(path_view(segs@) =~= before.push(s@));
            assert(path_view(segs@).push(cur@) =~= before.push(s@).push(Seq::empty()));
        } else {
            let ghost old_cur = cur@;
            cur.push(c);
            assert(before.push(cur@) =~= before.push(old_cur).update(
                before.len() as int,
                old_cur.push(c),
            ));
        }
        i = i + 1;
    }
    assert(w@.subrange(0, i as int) =~= w@);
    let s = string_of(cur.as_slice());
    let ghost before = path_view(segs@);
    segs.push(s);
    assert(path_view(segs@) =~= before.push(cur@));
    segs
}

#[allow(non_snake_case)]
impl Node {
    /// A path node for a dotted variable reference, split at its dots.
    pub fn newArg(arg: &str) -> (r: Node)
        ensures
            r matches Node::Arg(p) && path_view(p@) == split_spec(arg@),
    {
        let w = chars_of(arg);
        Node::Arg(split_dots(&w))
    }

    /// Classifies the text of one token.
    pub fn parser(word: &str) -> (r: Result<Token, ParseError>)
        ensures
            classified(word@, r),
    {
        let w = chars_of(word);
        if same_word(&w, "null") {
            return Ok(Token::Operand(Node::Null));
        } else if same_word(&w, "true") {
            return Ok(Token::Operand(Node::Bool(true)));
        } else if same_word(&w, "false") {
            return Ok(Token::Operand(Node::Bool(false)));
        }
        match operator_word(&w) {
            Some(op) => {
                return Ok(Token::Operator(op));
            },
            None => {},
        }
        let n = w.len();
        if n > 0 && (w[0] == '\'' || w[0] == '`') {
            if n >= 2 && w[n - 1] == w[0] {
                let body = slice_chars(&w, 1, n - 1);
                return Ok(Token::Operand(Node::Str(string_of(body.as_slice()))));
            } else {
                return Err(ParseError::UnterminatedQuote);
            }
        }
        let signed = n > 1 && (w[0] == '-' || w[0] == '+');
        let start: usize = if signed {
            1
        } else {
            0
        };
        let body = slice_chars(&w, start, n);
        assert(body@ =~= number_body(w@));
        if is_numeric_word(&body) {
            numeric_token(&body, signed && w[0] == '-')
        } else {
            Ok(Token::Operand(Node::Arg(split_dots(&w))))
        }
    }
}

/// The operator that a word spells.
fn operator_word(w: &Vec<char>) -> (r: Option<Op>)
    ensures
        r == op_word(w@),
{
    if same_word(w, "+") {
        Some(Op::Add)
    } else if same_word(w, "-") {
        Some(Op::Sub)
    } else if same_word(w, "*") {
        Some(Op::Mul)
    } else if same_word(w, "/") {
        Some(Op::Div)
    } else if same_word(w, "%") {
        Some(Op::Rem)
    } else if same_word(w, "==") {
        Some(Op::Eq)
    } else if same_word(w, "!=") {
        Some(Op::Ne)
    } else if same_word(w, ">") {
        Some(Op::Gt)
    } else if same_word(w, ">=") {
        Some(Op::Ge)
    } else if same_word(w, "<") {
        Some(Op::Lt)
    } else if same_word(w, "<=") {
        Some(Op::Le)
    } else if same_word(w, "&&") {
        Some(Op::And)
    } else if same_word(w, "||") {
        Some(Op::Or)
    } else if same_word(w, "!") {
        Some(Op::Not)
    } else if same_word(w, "in") {
        Some(Op::In)
    } else if same_word(w, "like") {
        Some(Op::Like)
    } else {
        None
    }
}

fn is_numeric_word(w: &Vec<char>) -> (r: bool)
    ensures
        r == is_numeric(w@),
{
    if w.len() == 0 || !(w[0] >= '0' && w[0] <= '9') {
        return false;
    }
    let mut seen: bool = false;
    let mut at: usize = 0;
    let mut i: usize = 0;
    while i < w.len()
        invariant
            i <= w.len(),
            forall|j: int| 0 <= j < i ==> is_digit(#[trigger] w@[j]) || w@[j] == '.',
            seen ==> at < i && w@[at as int] == '.',
            !seen ==> forall|j: int| 0 <= j < i ==> w@[j] != '.',
            forall|a: int, b: int|
                #![trigger w@[a], w@[b]]
                0 <= a < b < i ==> !(w@[a] == '.' && w@[b] == '.'),
        decreases w.len() - i,
    {
        let c = w[i];
        if !((c >= '0' && c <= '9') || c == '.') {
            return false;
        }
        if c == '.' {
            if seen {
                assert(w@[at as int] == '.' && w@[i as int] == '.');
                return false;
            }
            seen = true;
            at = i;
        }
        i = i + 1;
    }
    true
}

} // verus!
