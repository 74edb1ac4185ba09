//! Expression trees and their evaluation against an environment.
use vstd::prelude::*;
use crate::text::{chars_of, contains_chars, occurs_at, occurs_in, slice_chars};
use crate::value::{
    contains_loose, contains_value, fields_lookup, items_view, loose_eq, member, truthy,
    values_equal, is_truthy, JVal, Value,
};

verus! {

/// The binary operators. `Not` reads only its right operand.
#[derive(PartialEq, Eq, Structural, Clone, Copy, Debug)]
pub enum Op {
    Add,
    Sub,
    Mul,
    Div,
    Rem,
    Eq,
    Ne,
    Gt,
    Ge,
    Lt,
    Le,
    And,
    Or,
    Not,
    In,
    Like,
}

/// Why an evaluation failed.
#[derive(PartialEq, Eq, Structural, Clone, Copy, Debug)]
pub enum EvalError {
    DivideByZero,
    TypeMismatch,
    UnsupportedOperator,
    /// An integer result outside the range of `i64`.
    Overflow,
}

/// The kind of an expression node.
#[derive(PartialEq, Eq, Structural, Clone, Copy, Debug)]
pub enum NodeType {
    NArg,
    NString,
    NNumber,
    NBool,
    NNull,
    NBinary,
}

/// An expression tree. Each binary node owns its two operands.
#[derive(Debug, PartialEq)]
pub enum Node {
    Null,
    Bool(bool),
    Int(i64),
    Str(String),
    /// A dotted variable path, one segment per element.
    Arg(Vec<String>),
    Binary(Op, Box<Node>, Box<Node>),
}

pub open spec fn fits_i64(x: int) -> bool {
    i64::MIN <= x <= i64::MAX
}

pub open spec fn int_val(x: int) -> Result<JVal, EvalError> {
    if fits_i64(x) {
        Ok(JVal::Int(x))
    } else {
        Err(EvalError::Overflow)
    }
}

pub open spec fn abs(x: int) -> int {
    if x < 0 {
        -x
    } else {
        x
    }
}

/// Division rounding toward zero.
pub open spec fn trunc_div(a: int, b: int) -> int {
    if (a < 0) == (b < 0) {
        abs(a) / abs(b)
    } else {
        -(abs(a) / abs(b))
    }
}

/// The remainder of `trunc_div`; it takes the sign of `a`.
pub open spec fn trunc_rem(a: int, b: int) -> int {
    if a < 0 {
        -(abs(a) % abs(b))
    } else {
        abs(a) % abs(b)
    }
}

/// Lexicographic order on characters by code point.
pub open spec fn lex_lt(a: Seq<char>, b: Seq<char>) -> bool
    decreases a.len(),
{
    if a.len() == 0 {
        b.len() > 0
    } else if b.len() == 0 {
        false
    } else if a[0] != b[0] {
        (a[0] as u32) < (b[0] as u32)
    } else {
        lex_lt(a.drop_first(), b.drop_first())
    }
}

/// `s like p`: `%x%` is a substring test, `x%` a prefix test, `%x` a suffix
/// test, and a pattern without `%` at either end an exact match.
pub open spec fn like_match(s: Seq<char>, p: Seq<char>) -> bool {
    let n = p.len();
    if n >= 2 && p[0] == '%' && p[n - 1] == '%' {
        occurs_in(s, p.subrange(1, n - 1))
    } else if n >= 1 && p[n - 1] == '%' {
        s.len() >= n - 1 && s.subrange(0, n - 1) == p.subrange(0, n - 1)
    } else if n >= 1 && p[0] == '%' {
        s.len() >= n - 1 && s.subrange(s.len() - (n - 1), s.len() as int) == p.subrange(1, n as int)
    } else {
        s == p
    }
}

pub open spec fn is_ordering(op: Op) -> bool {
    op == Op::Gt || op == Op::Ge || op == Op::Lt || op == Op::Le
}

/// `<`, `<=`, `>`, `>=` on two numbers or two strings.
pub open spec fn compare(op: Op, l: JVal, r: JVal) -> Result<JVal, EvalError> {
    match (l, r) {
        (JVal::Int(a), JVal::Int(b)) => Ok(
            JVal::Bool(
                match op {
                    Op::Gt => a > b,
                    Op::Ge => a >= b,
                    Op::Lt => a < b,
                    _ => a <= b,
                },
            ),
        ),
        (JVal::Str(a), JVal::Str(b)) => Ok(
            JVal::Bool(
                match op {
                    Op::Gt => lex_lt(b, a),
                    Op::Ge => !lex_lt(a, b),
                    Op::Lt => lex_lt(a, b),
                    _ => !lex_lt(b, a),
                },
            ),
        ),
        _ => Err(EvalError::TypeMismatch),
    }
}

/// The arithmetic operators on two integers.
pub open spec fn arith(op: Op, a: int, b: int) -> Result<JVal, EvalError> {
    match op {
        Op::Add => int_val(a + b),
        Op::Sub => int_val(a - b),
        Op::Mul => int_val(a * b),
        Op::Div => if b == 0 {
            Err(EvalError::DivideByZero)
        } else {
            int_val(trunc_div(a, b))
        },
        _ => if b == 0 {
            Err(EvalError::DivideByZero)
        } else {
            int_val(trunc_rem(a, b))
        },
    }
}

pub open spec fn is_arith(op: Op) -> bool {
    op == Op::Add || op == Op::Sub || op == Op::Mul || op == Op::Div || op == Op::Rem
}

/// What a binary operator gives on two operand values.
pub open spec fn apply(op: Op, l: JVal, r: JVal) -> Result<JVal, EvalError> {
    if is_arith(op) {
        match (l, r) {
            (JVal::Int(a), JVal::Int(b)) => arith(op, a, b),
            (JVal::Str(a), JVal::Str(b)) => if op == Op::Add {
                Ok(JVal::Str(a + b))
            } else {
                Err(EvalError::UnsupportedOperator)
            },
            _ => Err(EvalError::UnsupportedOperator),
        }
    } else if is_ordering(op) {
        compare(op, l, r)
    } else {
        match op {
            Op::Eq => Ok(JVal::Bool(loose_eq(l, r))),
            Op::Ne => Ok(JVal::Bool(!loose_eq(l, r))),
            Op::And => Ok(JVal::Bool(truthy(l) && truthy(r))),
            Op::Or => Ok(JVal::Bool(truthy(l) || truthy(r))),
            Op::Not => Ok(JVal::Bool(!truthy(r))),
            Op::In => match r {
                JVal::Array(elems) => Ok(JVal::Bool(contains_loose(elems, l))),
                _ => Err(EvalError::UnsupportedOperator),
            },
            _ => match (l, r) {
                (JVal::Str(s), JVal::Str(p)) => Ok(JVal::Bool(like_match(s, p))),
                _ => Err(EvalError::UnsupportedOperator),
            },
        }
    }
}

/// An executable result agrees with a modelled one.
pub open spec fn agrees(r: Result<Value, EvalError>, s: Result<JVal, EvalError>) -> bool {
    match s {
        Ok(v) => r matches Ok(x) && x@ == v,
        Err(e) => r == Err::<Value, EvalError>(e),
    }
}

pub open spec fn path_view(p: Seq<String>) -> Seq<Seq<char>> {
    p.map_values(|s: String| s@)
}

pub open spec fn locals_view(l: Seq<(String, Value)>) -> Seq<(Seq<char>, JVal)> {
    l.map_values(|e: (String, Value)| (e.0@, e.1@))
}

/// The innermost local binding of `k`: the last one in `locals`.
pub open spec fn local_get(locals: Seq<(Seq<char>, JVal)>, k: Seq<char>) -> Option<JVal>
    decreases locals.len(),
{
    if locals.len() == 0 {
        None
    } else if locals.last().0 == k {
        Some(locals.last().1)
    } else {
        local_get(locals.drop_last(), k)
    }
}

/// Successive member lookups along `path`.
pub open spec fn walk(v: JVal, path: Seq<Seq<char>>) -> JVal
    decreases path.len(),
{
    if path.len() == 0 {
        v
    } else {
        walk(member(v, path[0]), path.drop_first())
    }
}

/// A dotted path: its first segment is looked up among the local bindings,
/// then in the environment; the rest are member lookups. Absent data is null.
pub open spec fn resolve(env: JVal, locals: Seq<(Seq<char>, JVal)>, path: Seq<Seq<char>>) -> JVal {
    if path.len() == 0 {
        JVal::Null
    } else {
        let head = match local_get(locals, path[0]) {
            Some(v) => v,
            None => member(env, path[0]),
        };
        walk(head, path.drop_first())
    }
}

/// The model of an expression tree.
pub enum ExprV {
    Null,
    Bool(bool),
    Int(int),
    Str(Seq<char>),
    Arg(Seq<Seq<char>>),
    Bin(Op, Box<ExprV>, Box<ExprV>),
}

pub open spec fn node_view(n: Node) -> ExprV
    decreases n,
{
    match n {
        Node::Null => ExprV::Null,
        Node::Bool(b) => ExprV::Bool(b),
        Node::Int(i) => ExprV::Int(i as int),
        Node::Str(s) => ExprV::Str(s@),
        Node::Arg(p) => ExprV::Arg(path_view(p@)),
        Node::Binary(op, l, r) => ExprV::Bin(op, Box::new(node_view(*l)), Box::new(node_view(*r))),
    }
}

/// The value of an expression: operands first, left then right, then the operator.
pub open spec fn eval_v(e: ExprV, env: JVal, locals: Seq<(Seq<char>, JVal)>) -> Result<JVal, EvalError>
    decreases e,
{
    match e {
        ExprV::Null => Ok(JVal::Null),
        ExprV::Bool(b) => Ok(JVal::Bool(b)),
        ExprV::Int(i) => Ok(JVal::Int(i)),
        ExprV::Str(s) => Ok(JVal::Str(s)),
        ExprV::Arg(p) => Ok(resolve(env, locals, p)),
        ExprV::Bin(op, l, r) => match eval_v(*l, env, locals) {
            Err(x) => Err(x),
            Ok(lv) => match eval_v(*r, env, locals) {
                Err(x) => Err(x),
                Ok(rv) => apply(op, lv, rv),
            },
        },
    }
}

/// The value of an expression tree.
pub open spec fn eval_spec(node: Node, env: JVal, locals: Seq<(Seq<char>, JVal)>) -> Result<JVal, EvalError> {
    eval_v(node_view(node), env, locals)
}

proof fn lemma_lex_skip(a: Seq<char>, b: Seq<char>, i: int)
    requires
        0 <= i <= a.len(),
        i <= b.len(),
        forall|j: int| 0 <= j < i ==> a[j] == b[j],
    ensures
        lex_lt(a, b) == lex_lt(a.subrange(i, a.len() as int), b.subrange(i, b.len() as int)),
    decreases i,
{
    if i == 0 {
        assert(a.subrange(0, a.len() as int) =~= a);
        assert(b.subrange(0, b.len() as int) =~= b);
    } else {
        lemma_lex_skip(a.drop_first(), b.drop_first(), i - 1);
        assert(a.drop_first().subrange(i - 1, a.len() - 1) =~= a.subrange(i, a.len() as int));
        assert(b.drop_first().subrange(i - 1, b.len() - 1) =~= b.subrange(i, b.len() as int));
    }
}

fn chars_less(a: &Vec<char>, b: &Vec<char>) -> (r: bool)
    ensures
        r == lex_lt(a@, b@),
{
    let mut i: usize = 0;
    while i < a.len() && i < b.len() && a[i] == b[i]
        invariant
            i <= a.len(),
            i <= b.len(),
            forall|j: int| 0 <= j < i ==> a@[j] == b@[j],
        decreases a.len() - i,
    {
        i = i + 1;
    }
    proof {
        lemma_lex_skip(a@, b@, i as int);
    }
    let ghost sa = a@.subrange(i as int, a.len() as int);
    let ghost sb = b@.subrange(i as int, b.len() as int);
    if i == a.len() {
        i < b.len()
    } else if i == b.len() {
        false
    } else {
        assert(sa[0] == a@[i as int] && sb[0] == b@[i as int]);
        (a[i] as u32) < (b[i] as u32)
    }
}

fn int_result(x: i128) -> (r: Result<Value, EvalError>)
    ensures
        agrees(r, int_val(x as int)),
{
    if x >= i64::MIN as i128 && x <= i64::MAX as i128 {
        Ok(Value::Int(x as i64))
    } else {
        Err(EvalError::Overflow)
    }
}

fn magnitude(a: i64) -> (r: u64)
    ensures
        r as int == abs(a as int),
{
    if a == i64::MIN {
        9223372036854775808u64
    } else if a < 0 {
        (-a) as u64
    } else {
        a as u64
    }
}

fn int_op(op: Op, a: i64, b: i64) -> (r: Result<Value, EvalError>)
    requires
        is_arith(op),
    ensures
        agrees(r, arith(op, a as int, b as int)),
{
    let x = a as i128;
    let y = b as i128;
    match op {
        Op::Add => int_result(x + y),
        Op::Sub => int_result(x - y),
        Op::Mul => {
            assert(-0x4000_0000_0000_0000_0000_0000_0000_0000 <= (x as int) * (y as int)
                <= 0x4000_0000_0000_0000_0000_0000_0000_0000) by (nonlinear_arith)
                requires
                    -0x8000_0000_0000_0000 <= x <= 0x7fff_ffff_ffff_ffff,
                    -0x8000_0000_0000_0000 <= y <= 0x7fff_ffff_ffff_ffff,
            ;
            int_result(x * y)
        },
        _ => {
            if b == 0 {
                return Err(EvalError::DivideByZero);
            }
            let ua = magnitude(a);
            let ub = magnitude(b);
            if op == Op::Div {
                let q = (ua / ub) as i128;
                if (a < 0) == (b < 0) {
                    int_result(q)
                } else {
                    int_result(-q)
                }
            } else {
                let m = (ua % ub) as i128;
                if a < 0 {
                    int_result(-m)
                } else {
                    int_result(m)
                }
            }
        },
    }
}

fn like_chars(s: &Vec<char>, p: &Vec<char>) -> (r: bool)
    ensures
        r == like_match(s@, p@),
{
    let n = p.len();
    if n >= 2 && p[0] == '%' && p[n - 1] == '%' {
        let mid = slice_chars(p, 1, n - 1);
        contains_chars(s, &mid)
    } else if n >= 1 && p[n - 1] == '%' {
        let head = slice_chars(p, 0, n - 1);
        occurs_at(s, 0, &head)
    } else if n >= 1 && p[0] == '%' {
        let tail = slice_chars(p, 1, n);
        if s.len() < n - 1 {
            false
        } else {
            occurs_at(s, s.len() - (n - 1), &tail)
        }
    } else {
        let r = occurs_at(s, 0, p) && s.len() == n;
        proof {
            if s@.len() == n {
                assert(s@.subrange(0, n as int) =~= s@);
            }
        }
        r
    }
}

/// Applies a binary operator to two operand values.
pub fn apply_op(op: Op, l: Value, r: Value) -> (res: Result<Value, EvalError>)
    ensures
        agrees(res, apply(op, l@, r@)),
{
    match op {
        Op::Add | Op::Sub | Op::Mul | Op::Div | Op::Rem => match (l, r) {
            (Value::Int(a), Value::Int(b)) => int_op(op, a, b),
            (Value::Str(a), Value::Str(b)) => {
                if op == Op::Add {
                    Ok(Value::Str(a.concat(b.as_str())))
                } else {
                    Err(EvalError::UnsupportedOperator)
                }
            },
            _ => Err(EvalError::UnsupportedOperator),
        },
        Op::Gt | Op::Ge | Op::Lt | Op::Le => match (l, r) {
            (Value::Int(a), Value::Int(b)) => Ok(
                Value::Bool(
                    match op {
                        Op::Gt => a > b,
                        Op::Ge => a >= b,
                        Op::Lt => a < b,
                        _ => a <= b,
                    },
                ),
            ),
            (Value::Str(a), Value::Str(b)) => {
                let ca = chars_of(a.as_str());
                let cb = chars_of(b.as_str());
                let v = match op {
                    Op::Gt => chars_less(&cb, &ca),
                    Op::Ge => !chars_less(&ca, &cb),
                    Op::Lt => chars_less(&ca, &cb),
                    _ => !chars_less(&cb, &ca),
                };
                Ok(Value::Bool(v))
            },
            _ => Err(EvalError::TypeMismatch),
        },
        Op::Eq => Ok(Value::Bool(values_equal(&l, &r))),
        Op::Ne => Ok(Value::Bool(!values_equal(&l, &r))),
        Op::And => Ok(Value::Bool(is_truthy(&l) && is_truthy(&r))),
        Op::Or => Ok(Value::Bool(is_truthy(&l) || is_truthy(&r))),
        Op::Not => Ok(Value::Bool(!is_truthy(&r))),
        Op::In => match r {
            Value::Array(items) => Ok(Value::Bool(contains_value(&items, &l))),
            _ => Err(EvalError::UnsupportedOperator),
        },
        Op::Like => match (l, r) {
            (Value::Str(s), Value::Str(p)) => {
                let cs = chars_of(s.as_str());
                let cp = chars_of(p.as_str());
                Ok(Value::Bool(like_chars(&cs, &cp)))
            },
            _ => Err(EvalError::UnsupportedOperator),
        },
    }
}

pub open spec fn opt_view(o: Option<&Value>) -> JVal {
    match o {
        Some(x) => x@,
        None => JVal::Null,
    }
}

/// The member `key` of `v`, by reference; `None` where the lookup gives null
/// for want of an entry.
fn member_ref<'a>(v: &'a Value, key: &String) -> (r: Option<&'a Value>)
    ensures
        opt_view(r) == member(v@, key@),
{
    match v {
        Value::Object(fields) => fields_lookup(fields, key),
        _ => None,
    }
}

/// The innermost local binding of `key`.
fn local_lookup<'a>(locals: &'a Vec<(String, Value)>, key: &String) -> (r: Option<&'a Value>)
    ensures
        match local_get(locals_view(locals@), key@) {
            Some(x) => r matches Some(y) && y@ == x,
            None => r is None,
        },
{
    let ghost lv = locals_view(locals@);
    let mut i: usize = locals.len();
    assert(lv.subrange(0, i as int) =~= lv);
    while i > 0
        invariant
            i <= locals.len(),
            lv == locals_view(locals@),
            local_get(lv, key@) == local_get(lv.subrange(0, i as int), key@),
        decreases i,
    {
        let ghost sub = lv.subrange(0, i as int);
        assert(sub.last() == lv[i - 1]);
        assert(sub.drop_last() =~= lv.subrange(0, i - 1));
        if locals[i - 1].0 == *key {
            return Some(&locals[i - 1].1);
        }
        i = i - 1;
    }
    None
}

/// Resolves a dotted path; absent data gives null, never an error.
pub fn resolve_path(env: &Value, locals: &Vec<(String, Value)>, path: &Vec<String>) -> (r: Value)
    ensures
        r@ == resolve(env@, locals_view(locals@), path_view(path@)),
{
    let ghost pv = path_view(path@);
    if path.len() == 0 {
        return Value::Null;
    }
    let mut cur: Option<&Value> = match local_lookup(locals, &path[0]) {
        Some(v) => Some(v),
        None => member_ref(env, &path[0]),
    };
    let ghost head = opt_view(cur);
    assert(pv.drop_first() =~= pv.subrange(1, pv.len() as int));
    let mut i: usize = 1;
    while i < path.len()
        invariant
            1 <= i <= path.len(),
            pv == path_view(path@),
            walk(opt_view(cur), pv.subrange(i as int, pv.len() as int)) == walk(
                head,
                pv.subrange(1, pv.len() as int),
            ),
        decreases path.len() - i,
    {
        let ghost before = opt_view(cur);
        cur = match cur {
            Some(v) => member_ref(v, &path[i]),
            None => None,
        };
        assert(pv.subrange(i as int, pv.len() as int).drop_first() =~= pv.subrange(
            i + 1,
            pv.len() as int,
        ));
        assert(pv.subrange(i as int, pv.len() as int)[0] == pv[i as int]);
        assert(opt_view(cur) == member(before, pv[i as int]));
        i = i + 1;
    }
    assert(pv.subrange(i as int, pv.len() as int) =~= Seq::<Seq<char>>::empty());
    match cur {
        Some(v) => v.copy(),
        None => Value::Null,
    }
}

pub open spec fn node_type_of(n: Node) -> NodeType {
    match n {
        Node::Null => NodeType::NNull,
        Node::Bool(_) => NodeType::NBool,
        Node::Int(_) => NodeType::NNumber,
        Node::Str(_) => NodeType::NString,
        Node::Arg(_) => NodeType::NArg,
        Node::Binary(..) => NodeType::NBinary,
    }
}

#[allow(non_snake_case)]
impl Node {
    pub fn nodeType(&self) -> (r: NodeType)
        ensures
            r == node_type_of(*self),
    {
        match self {
            Node::Null => NodeType::NNull,
            Node::Bool(_) => NodeType::NBool,
            Node::Int(_) => NodeType::NNumber,
            Node::Str(_) => NodeType::NString,
            Node::Arg(_) => NodeType::NArg,
            Node::Binary(..) => NodeType::NBinary,
        }
    }

    pub fn equalNodeType(&self, t: &NodeType) -> (r: bool)
        ensures
            r == (node_type_of(*self) == *t),
    {
        self.nodeType() == *t
    }

    /// The operator of a binary node.
    pub fn opt(&self) -> (r: Option<Op>)
        ensures
            match *self {
                Node::Binary(op, _, _) => r == Some(op),
                _ => r is None,
            },
    {
        match self {
            Node::Binary(op, _, _) => Some(*op),
            _ => None,
        }
    }

    pub fn newNull() -> (r: Node)
        ensures
            r == Node::Null,
    {
        Node::Null
    }

    pub fn newString(s: String) -> (r: Node)
        ensures
            r == Node::Str(s),
    {
        Node::Str(s)
    }

    pub fn newNumberI64(n: i64) -> (r: Node)
        ensures
            r == Node::Int(n),
    {
        Node::Int(n)
    }

    pub fn newBool(b: bool) -> (r: Node)
        ensures
            r == Node::Bool(b),
    {
        Node::Bool(b)
    }

    pub fn newBinary(left: Node, right: Node, op: Op) -> (r: Node)
        ensures
            r == Node::Binary(op, Box::new(left), Box::new(right)),
    {
        Node::Binary(op, Box::new(left), Box::new(right))
    }

    /// Evaluates the tree against `env`, with `locals` as the innermost bindings.
    pub fn eval_in(&self, env: &Value, locals: &Vec<(String, Value)>) -> (r: Result<Value, EvalError>)
        ensures
            agrees(r, eval_spec(*self, env@, locals_view(locals@))),
        decreases self,
    {
        match self {
            Node::Null => Ok(Value::Null),
            Node::Bool(b) => Ok(Value::Bool(*b)),
            Node::Int(i) => Ok(Value::Int(*i)),
            Node::Str(s) => Ok(Value::Str(s.clone())),
            Node::Arg(p) => Ok(resolve_path(env, locals, p)),
            Node::Binary(op, l, r) => {
                let lv = match l.eval_in(env, locals) {
                    Ok(v) => v,
                    Err(e) => return Err(e),
                };
                let rv = match r.eval_in(env, locals) {
                    Ok(v) => v,
                    Err(e) => return Err(e),
                };
                apply_op(*op, lv, rv)
            },
        }
    }

    /// Evaluates the tree against `env`.
    pub fn eval(&self, env: &Value) -> (r: Result<Value, EvalError>)
        ensures
            agrees(r, eval_spec(*self, env@, Seq::empty())),
    {
        let locals: Vec<(String, Value)> = Vec::new();
        assert(locals_view(locals@) =~= Seq::empty());
        self.eval_in(env, &locals)
    }
}

/// Integer `+`, `-` and `*` on two integers give an integer: the exact
/// result wherever it fits in `i64`, the overflow error otherwise.
pub proof fn lemma_int_arith_is_int(op: Op, a: i64, b: i64)
    requires
        op == Op::Add || op == Op::Sub || op == Op::Mul,
    ensures
        apply(op, JVal::Int(a as int), JVal::Int(b as int)) == int_val(
            match op {
                Op::Add => a + b,
                Op::Sub => a - b,
                _ => a * b,
            },
        ),
        apply(op, JVal::Int(a as int), JVal::Int(b as int)) matches Ok(v) ==> v is Int,
{
}

/// Division and remainder by zero fail with the divide-by-zero error.
pub proof fn lemma_divide_by_zero(a: i64)
    ensures
        apply(Op::Div, JVal::Int(a as int), JVal::Int(0)) == Err::<JVal, EvalError>(
            EvalError::DivideByZero,
        ),
        apply(Op::Rem, JVal::Int(a as int), JVal::Int(0)) == Err::<JVal, EvalError>(
            EvalError::DivideByZero,
        ),
{
}

pub proof fn lemma_walk_push(v: JVal, p: Seq<Seq<char>>, k: Seq<char>)
    ensures
        walk(v, p.push(k)) == member(walk(v, p), k),
    decreases p.len(),
{
    if p.len() == 0 {
        assert(p.push(k).drop_first() =~= Seq::<Seq<char>>::empty());
        assert(p.push(k)[0] == k);
        assert(walk(member(v, k), p.push(k).drop_first()) == member(v, k));
        assert(walk(v, p) == v);
    } else {
        assert(p.push(k).drop_first() =~= p.drop_first().push(k));
        assert(p.push(k)[0] == p[0]);
        lemma_walk_push(member(v, p[0]), p.drop_first(), k);
    }
}

/// Path lookup never fails, and one more segment is one more member lookup:
/// a segment that is absent, or applied to a non-object, gives null.
pub proof fn lemma_path_total(env: JVal, locals: Seq<(Seq<char>, JVal)>, p: Seq<Seq<char>>, k: Seq<char>)
    requires
        p.len() > 0,
    ensures
        resolve(env, locals, p.push(k)) == member(resolve(env, locals, p), k),
        member(resolve(env, locals, p), k) == JVal::Null <== !(resolve(env, locals, p) is Object),
{
    let head = match local_get(locals, p[0]) {
        Some(v) => v,
        None => member(env, p[0]),
    };
    assert(p.push(k)[0] == p[0]);
    assert(p.push(k).drop_first() =~= p.drop_first().push(k));
    lemma_walk_push(head, p.drop_first(), k);
}

/// Evaluating a path gives a value, never an error.
pub proof fn lemma_arg_never_fails(p: Vec<String>, env: JVal, locals: Seq<(Seq<char>, JVal)>)
    ensures
        eval_spec(Node::Arg(p), env, locals) == Ok::<JVal, EvalError>(
            resolve(env, locals, path_view(p@)),
        ),
{
}

} // verus!
