//! Template trees and their execution into SQL text and bound arguments.
use vstd::prelude::*;
use crate::expr::{agrees, eval_spec, locals_view, EvalError, Node};
use crate::parse::is_space;
use crate::text::{chars_of, slice_chars, string_of};
use crate::value::{is_truthy, items_view, truthy, Items, JVal, Value};

verus! {

/// A node of a compiled template.
#[derive(Debug, PartialEq)]
pub enum TemplateNode {
    /// Literal SQL.
    Text(String),
    /// An expression whose value becomes one bound argument and one placeholder.
    Bind(Node),
    /// Children that run when the condition is truthy.
    If(Node, Nodes),
    /// Children that run once per element of an array, with the element bound
    /// to the item name and its position to the optional index name.
    For(String, Option<String>, Node, Nodes),
    /// Children whose joined output loses its leading and trailing whitespace
    /// and characters of the given set.
    Trim(String, Nodes),
}

/// An ordered sequence of template nodes.
#[derive(Debug, PartialEq)]
pub enum Nodes {
    Nil,
    Cons(Box<TemplateNode>, Box<Nodes>),
}

/// How a driver writes a positional parameter.
#[derive(PartialEq, Eq, Structural, Clone, Copy, Debug)]
pub enum DriverType {
    /// `?` for each parameter.
    Mysql,
    /// `$1`, `$2`, ... in order.
    Postgres,
    /// `?` for each parameter.
    Sqlite,
}

pub open spec fn nodes_seq(ns: Nodes) -> Seq<TemplateNode>
    decreases ns,
{
    match ns {
        Nodes::Nil => Seq::empty(),
        Nodes::Cons(h, t) => seq![*h] + nodes_seq(*t),
    }
}

pub open spec fn digit_char(d: int) -> char {
    ((d + 48) as u8) as char
}

/// The decimal digits of `n`.
pub open spec fn decimal(n: nat) -> Seq<char>
    decreases n,
{
    if n < 10 {
        seq![digit_char(n as int)]
    } else {
        decimal(n / 10) + seq![digit_char((n % 10) as int)]
    }
}

/// The placeholder of the `n`-th bound argument, counting from 1.
pub open spec fn placeholder(d: DriverType, n: nat) -> Seq<char> {
    if d == DriverType::Postgres {
        seq!['$'] + decimal(n)
    } else {
        seq!['?']
    }
}

pub open spec fn strippable(c: char, set: Seq<char>) -> bool {
    is_space(c) || set.contains(c)
}

pub open spec fn trim_front(s: Seq<char>, set: Seq<char>) -> Seq<char>
    decreases s.len(),
{
    if s.len() > 0 && strippable(s[0], set) {
        trim_front(s.drop_first(), set)
    } else {
        s
    }
}

pub open spec fn trim_back(s: Seq<char>, set: Seq<char>) -> Seq<char>
    decreases s.len(),
{
    if s.len() > 0 && strippable(s.last(), set) {
        trim_back(s.drop_last(), set)
    } else {
        s
    }
}

/// `s` without its leading and trailing run of whitespace and characters of `set`.
pub open spec fn trimmed(s: Seq<char>, set: Seq<char>) -> Seq<char> {
    trim_back(trim_front(s, set), set)
}

/// SQL text and bound arguments produced so far.
pub type Emitted = (Seq<char>, Seq<JVal>);

pub type Locals = Seq<(Seq<char>, JVal)>;

pub open spec fn bind_loop(locals: Locals, item: Seq<char>, index: Option<Seq<char>>, elem: JVal, k: int) -> Locals {
    let l = locals.push((item, elem));
    match index {
        Some(ix) => l.push((ix, JVal::Int(k))),
        None => l,
    }
}

pub open spec fn opt_str_view(o: Option<String>) -> Option<Seq<char>> {
    match o {
        Some(s) => Some(s@),
        None => None,
    }
}

/// The output of one node, appended to `st`.
pub open spec fn run_node(n: TemplateNode, env: JVal, locals: Locals, d: DriverType, st: Emitted) -> Result<Emitted, EvalError>
    decreases n, 0int,
{
    match n {
        TemplateNode::Text(t) => Ok((st.0 + t@, st.1)),
        TemplateNode::Bind(e) => match eval_spec(e, env, locals) {
            Err(x) => Err(x),
            Ok(v) => Ok((st.0 + placeholder(d, st.1.len() + 1), st.1.push(v))),
        },
        TemplateNode::If(c, body) => match eval_spec(c, env, locals) {
            Err(x) => Err(x),
            Ok(v) => if truthy(v) {
                run_nodes(body, env, locals, d, st)
            } else {
                Ok(st)
            },
        },
        TemplateNode::For(item, index, coll, body) => match eval_spec(coll, env, locals) {
            Err(x) => Err(x),
            Ok(JVal::Array(elems)) => run_for(
                elems,
                0,
                item@,
                opt_str_view(index),
                body,
                env,
                locals,
                d,
                st,
            ),
            Ok(_) => Err(EvalError::TypeMismatch),
        },
        TemplateNode::Trim(set, body) => match run_nodes(body, env, locals, d, (Seq::empty(), st.1)) {
            Err(x) => Err(x),
            Ok(inner) => Ok((st.0 + trimmed(inner.0, set@) + seq![' '], inner.1)),
        },
    }
}

/// The output of a sequence of nodes, in order.
pub open spec fn run_nodes(ns: Nodes, env: JVal, locals: Locals, d: DriverType, st: Emitted) -> Result<Emitted, EvalError>
    decreases ns, 0int,
{
    match ns {
        Nodes::Nil => Ok(st),
        Nodes::Cons(h, t) => match run_node(*h, env, locals, d, st) {
            Err(x) => Err(x),
            Ok(st2) => run_nodes(*t, env, locals, d, st2),
        },
    }
}

/// The output of a loop body for the elements from position `k` on.
pub open spec fn run_for(
    elems: Seq<JVal>,
    k: int,
    item: Seq<char>,
    index: Option<Seq<char>>,
    body: Nodes,
    env: JVal,
    locals: Locals,
    d: DriverType,
    st: Emitted,
) -> Result<Emitted, EvalError>
    decreases body, elems.len() - k,
{
    if k < 0 || k >= elems.len() {
        Ok(st)
    } else if k > i64::MAX {
        Err(EvalError::Overflow)
    } else {
        match run_nodes(body, env, bind_loop(locals, item, index, elems[k], k), d, st) {
            Err(x) => Err(x),
            Ok(st2) => run_for(elems, k + 1, item, index, body, env, locals, d, st2),
        }
    }
}

pub open spec fn args_view(args: Seq<Value>) -> Seq<JVal> {
    args.map_values(|v: Value| v@)
}

/// The executable buffers hold what the model says, or the run failed as it says.
pub open spec fn emitted_as(r: Result<(), EvalError>, sql: Seq<char>, args: Seq<Value>, s: Result<Emitted, EvalError>) -> bool {
    match s {
        Ok(st) => r is Ok && sql == st.0 && args_view(args) == st.1,
        Err(e) => r == Err::<(), EvalError>(e),
    }
}

fn push_decimal(n: u64, out: &mut Vec<char>)
    ensures
        final(out)@ == old(out)@ + decimal(n as nat),
    decreases n,
{
    if n >= 10 {
        push_decimal(n / 10, out);
    }
    let d = (n % 10) as u8;
    out.push((d + 48) as char);
    assert(final(out)@ =~= old(out)@ + decimal(n as nat));
}

fn push_all(out: &mut Vec<char>, s: &Vec<char>)
    ensures
        final(out)@ == old(out)@ + s@,
{
    let mut i: usize = 0;
    while i < s.len()
        invariant
            i <= s.len(),
            out@ == old(out)@ + s@.subrange(0, i as int),
        decreases s.len() - i,
    {
        out.push(s[i]);
        i = i + 1;
        assert(out@ =~= old(out)@ + s@.subrange(0, i as int));
    }
    assert(s@.subrange(0, i as int) =~= s@);
}

fn strip_char(c: char, set: &Vec<char>) -> (r: bool)
    ensures
        r == strippable(c, set@),
{
    if c == ' ' || c == '\t' || c == '\n' || c == '\r' {
        return true;
    }
    let mut i: usize = 0;
    while i < set.len()
        invariant
            i <= set.len(),
            forall|j: int| 0 <= j < i ==> set@[j] != c,
        decreases set.len() - i,
    {
        if set[i] == c {
            assert(set@.contains(c));
            return true;
        }
        i = i + 1;
    }
    false
}

/// Removes the leading and trailing run of whitespace and characters of `set`.
pub fn trim_chars(s: &Vec<char>, set: &Vec<char>) -> (r: Vec<char>)
    ensures
        r@ == trimmed(s@, set@),
{
    let mut lo: usize = 0;
    assert(s@.subrange(0, s@.len() as int) =~= s@);
    while lo < s.len() && strip_char(s[lo], set)
        invariant
            lo <= s.len(),
            trim_front(s@, set@) == trim_front(s@.subrange(lo as int, s@.len() as int), set@),
        decreases s.len() - lo,
    {
        assert(s@.subrange(lo as int, s@.len() as int).drop_first() =~= s@.subrange(
            lo + 1,
            s@.len() as int,
        ));
        lo = lo + 1;
    }
    let ghost front = s@.subrange(lo as int, s@.len() as int);
    assert(trim_front(s@, set@) == front);
    let mut hi: usize = s.len();
    while hi > lo && strip_char(s[hi - 1], set)
        invariant
            lo <= hi <= s.len(),
            front == s@.subrange(lo as int, s@.len() as int),
            trim_back(front, set@) == trim_back(s@.subrange(lo as int, hi as int), set@),
        decreases hi,
    {
        assert(s@.subrange(lo as int, hi as int).drop_last() =~= s@.subrange(
            lo as int,
            hi - 1,
        ));
        hi = hi - 1;
    }
    slice_chars(s, lo, hi)
}

/// Appends the output of one node to `sql` and `args`.
fn exec_node(
    n: &TemplateNode,
    env: &Value,
    locals: &mut Vec<(String, Value)>,
    d: DriverType,
    sql: &mut Vec<char>,
    args: &mut Vec<Value>,
) -> (r: Result<(), EvalError>)
    ensures
        final(locals)@ == old(locals)@,
        emitted_as(
            r,
            final(sql)@,
            final(args)@,
            run_node(*n, env@, locals_view(old(locals)@), d, (old(sql)@, args_view(old(args)@))),
        ),
    decreases *n, 0int,
{
    match n {
        TemplateNode::Text(t) => {
            let c = chars_of(t.as_str());
            push_all(sql, &c);
            Ok(())
        },
        TemplateNode::Bind(e) => {
            let v = match e.eval_in(env, locals) {
                Ok(v) => v,
                Err(x) => return Err(x),
            };
            let ghost before = args@;
            args.push(v);
            assert(args_view(args@) =~= args_view(before).push(v@));
            let ghost sql0 = sql@;
            if d == DriverType::Postgres {
                sql.push('$');
                push_decimal(args.len() as u64, sql);
            } else {
                sql.push('?');
            }
            assert(sql@ =~= sql0 + placeholder(d, args@.len() as nat));
            Ok(())
        },
        TemplateNode::If(c, body) => {
            let v = match c.eval_in(env, locals) {
                Ok(v) => v,
                Err(x) => return Err(x),
            };
            if is_truthy(&v) {
                exec_nodes(body, env, locals, d, sql, args)
            } else {
                Ok(())
            }
        },
        TemplateNode::For(item, index, coll, body) => {
            let v = match coll.eval_in(env, locals) {
                Ok(v) => v,
                Err(x) => return Err(x),
            };
            match v {
                Value::Array(items) => exec_for(&items, item, index, body, env, locals, d, sql, args),
                _ => Err(EvalError::TypeMismatch),
            }
        },
        TemplateNode::Trim(set, body) => {
            let mut inner: Vec<char> = Vec::new();
            match exec_nodes(body, env, locals, d, &mut inner, args) {
                Ok(()) => {},
                Err(x) => return Err(x),
            }
            let cs = chars_of(set.as_str());
            let t = trim_chars(&inner, &cs);
            let ghost sql0 = sql@;
            push_all(sql, &t);
            sql.push(' ');
            assert(sql@ =~= sql0 + t@ + seq![' ']);
            Ok(())
        },
    }
}

/// Appends the output of a sequence of nodes.
pub(crate) fn exec_nodes(
    ns: &Nodes,
    env: &Value,
    locals: &mut Vec<(String, Value)>,
    d: DriverType,
    sql: &mut Vec<char>,
    args: &mut Vec<Value>,
) -> (r: Result<(), EvalError>)
    ensures
        final(locals)@ == old(locals)@,
        emitted_as(
            r,
            final(sql)@,
            final(args)@,
            run_nodes(*ns, env@, locals_view(old(locals)@), d, (old(sql)@, args_view(old(args)@))),
        ),
    decreases *ns, 0int,
{
    match ns {
        Nodes::Nil => Ok(()),
        Nodes::Cons(h, t) => {
            match exec_node(h, env, locals, d, sql, args) {
                Ok(()) => {},
                Err(x) => return Err(x),
            }
            exec_nodes(t, env, locals, d, sql, args)
        },
    }
}

/// Runs a loop body once per element of `items`.
fn exec_for(
    items: &Items,
    item: &String,
    index: &Option<String>,
    body: &Nodes,
    env: &Value,
    locals: &mut Vec<(String, Value)>,
    d: DriverType,
    sql: &mut Vec<char>,
    args: &mut Vec<Value>,
) -> (r: Result<(), EvalError>)
    ensures
        final(locals)@ == old(locals)@,
        emitted_as(
            r,
            final(sql)@,
            final(args)@,
            run_for(
                items_view(*items),
                0,
                item@,
                opt_str_view(*index),
                *body,
                env@,
                locals_view(old(locals)@),
                d,
                (old(sql)@, args_view(old(args)@)),
            ),
        ),
    decreases *body, items_view(*items).len() + 1,
{
    let ghost elems = items_view(*items);
    let ghost lv = locals_view(locals@);
    let ghost goal = run_for(
        items_view(*items),
        0,
        item@,
        opt_str_view(*index),
        *body,
        env@,
        locals_view(old(locals)@),
        d,
        (old(sql)@, args_view(old(args)@)),
    );
    assert(goal == run_for(elems, 0, item@, opt_str_view(*index), *body, env@, lv, d, (sql@, args_view(args@))));
    let mut cur: &Items = items;
    let mut k: u64 = 0;
    loop
        invariant
            locals@ == old(locals)@,
            lv == locals_view(locals@),
            elems == items_view(*items),
            goal == run_for(
                items_view(*items),
                0,
                item@,
                opt_str_view(*index),
                *body,
                env@,
                locals_view(old(locals)@),
                d,
                (old(sql)@, args_view(old(args)@)),
            ),
            0 <= k <= elems.len(),
            k <= i64::MAX + 1,
            items_view(*cur) == elems.subrange(k as int, elems.len() as int),
            goal == run_for(elems, k as int, item@, opt_str_view(*index), *body, env@, lv, d, (sql@, args_view(args@))),
        decreases elems.len() - k,
    {
        match cur {
            Items::Nil => {
                assert(elems.subrange(k as int, elems.len() as int).len() == 0);
                return Ok(());
            },
            Items::Cons(h, t) => {
                assert(items_view(*cur)[0] == (**h)@);
                assert(items_view(*cur).drop_first() =~= items_view(**t));
                assert(elems.subrange(k as int, elems.len() as int)[0] == elems[k as int]);
                assert(elems[k as int] == (**h)@);
                if k > i64::MAX as u64 {
                    return Err(EvalError::Overflow);
                }
                let ghost before = locals@;
                locals.push((item.clone(), (**h).copy()));
                match index {
                    Some(ix) => {
                        locals.push((ix.clone(), Value::Int(k as i64)));
                    },
                    None => {},
                }
                assert(locals_view(locals@) =~= bind_loop(lv, item@, opt_str_view(*index), elems[k as int], k as int));
                let res = exec_nodes(body, env, locals, d, sql, args);
                match index {
                    Some(_) => {
                        locals.pop();
                    },
                    None => {},
                }
                locals.pop();
                assert(locals@ =~= before);
                if res.is_err() {
                    return res;
                }
                assert(elems.subrange(k as int, elems.len() as int).drop_first() =~= elems.subrange(
                    k + 1,
                    elems.len() as int,
                ));
                cur = t;
                k = k + 1;
            },
        }
    }
}

pub open spec fn extends<A>(a: Seq<A>, b: Seq<A>) -> bool {
    a.len() <= b.len() && b.subrange(0, a.len() as int) == a
}

proof fn lemma_extends_trans<A>(a: Seq<A>, b: Seq<A>, c: Seq<A>)
    requires
        extends(a, b),
        extends(b, c),
    ensures
        extends(a, c),
{
    assert(c.subrange(0, a.len() as int) =~= c.subrange(0, b.len() as int).subrange(0, a.len() as int));
}

/// A node only appends: the SQL text and the arguments emitted before it are
/// kept. So each placeholder is written when its argument is bound, and is
/// numbered by the count of arguments bound so far (`$1`, `$2`, ... in order).
pub proof fn lemma_run_node_appends(n: TemplateNode, env: JVal, locals: Locals, d: DriverType, st: Emitted)
    ensures
        run_node(n, env, locals, d, st) matches Ok(out) ==> extends(st.0, out.0) && extends(st.1, out.1),
    decreases n, 0int,
{
    match n {
        TemplateNode::Text(t) => {
            assert((st.0 + t@).subrange(0, st.0.len() as int) =~= st.0);
            assert(st.1.subrange(0, st.1.len() as int) =~= st.1);
        },
        TemplateNode::Bind(e) => {
            if let Ok(v) = eval_spec(e, env, locals) {
                let p = placeholder(d, st.1.len() + 1);
                assert((st.0 + p).subrange(0, st.0.len() as int) =~= st.0);
                assert(st.1.push(v).subrange(0, st.1.len() as int) =~= st.1);
            }
        },
        TemplateNode::If(c, body) => {
            lemma_run_nodes_appends(body, env, locals, d, st);
            assert(st.0.subrange(0, st.0.len() as int) =~= st.0);
            assert(st.1.subrange(0, st.1.len() as int) =~= st.1);
        },
        TemplateNode::For(item, index, coll, body) => {
            if let Ok(JVal::Array(elems)) = eval_spec(coll, env, locals) {
                lemma_run_for_appends(elems, 0, item@, opt_str_view(index), body, env, locals, d, st);
            }
        },
        TemplateNode::Trim(set, body) => {
            lemma_run_nodes_appends(body, env, locals, d, (Seq::empty(), st.1));
            if let Ok(inner) = run_nodes(body, env, locals, d, (Seq::empty(), st.1)) {
                let sql = st.0 + trimmed(inner.0, set@) + seq![' '];
                assert(sql.subrange(0, st.0.len() as int) =~= st.0);
            }
        },
    }
}

/// A sequence of nodes only appends to the SQL text and the arguments.
pub proof fn lemma_run_nodes_appends(ns: Nodes, env: JVal, locals: Locals, d: DriverType, st: Emitted)
    ensures
        run_nodes(ns, env, locals, d, st) matches Ok(out) ==> extends(st.0, out.0) && extends(st.1, out.1),
    decreases ns, 0int,
{
    match ns {
        Nodes::Nil => {
            assert(st.0.subrange(0, st.0.len() as int) =~= st.0);
            assert(st.1.subrange(0, st.1.len() as int) =~= st.1);
        },
        Nodes::Cons(h, t) => {
            lemma_run_node_appends(*h, env, locals, d, st);
            if let Ok(st2) = run_node(*h, env, locals, d, st) {
                lemma_run_nodes_appends(*t, env, locals, d, st2);
                if let Ok(out) = run_nodes(*t, env, locals, d, st2) {
                    lemma_extends_trans(st.0, st2.0, out.0);
                    lemma_extends_trans(st.1, st2.1, out.1);
                }
            }
        },
    }
}

proof fn lemma_run_for_appends(
    elems: Seq<JVal>,
    k: int,
    item: Seq<char>,
    index: Option<Seq<char>>,
    body: Nodes,
    env: JVal,
    locals: Locals,
    d: DriverType,
    st: Emitted,
)
    ensures
        run_for(elems, k, item, index, body, env, locals, d, st) matches Ok(out) ==> extends(st.0, out.0)
            && extends(st.1, out.1),
    decreases body, elems.len() - k,
{
    if k < 0 || k >= elems.len() {
        assert(st.0.subrange(0, st.0.len() as int) =~= st.0);
        assert(st.1.subrange(0, st.1.len() as int) =~= st.1);
    } else if k <= i64::MAX {
        let l2 = bind_loop(locals, item, index, elems[k], k);
        lemma_run_nodes_appends(body, env, l2, d, st);
        if let Ok(st2) = run_nodes(body, env, l2, d, st) {
            lemma_run_for_appends(elems, k + 1, item, index, body, env, locals, d, st2);
            if let Ok(out) = run_for(elems, k + 1, item, index, body, env, locals, d, st2) {
                lemma_extends_trans(st.0, st2.0, out.0);
                lemma_extends_trans(st.1, st2.1, out.1);
            }
        }
    }
}

/// Running a tree twice on the same environment and driver gives the same
/// SQL text and the same arguments, or the same error.
pub proof fn lemma_run_deterministic(
    ns: Nodes,
    env: JVal,
    d: DriverType,
    r1: Result<(), EvalError>,
    sql1: Seq<char>,
    args1: Seq<Value>,
    r2: Result<(), EvalError>,
    sql2: Seq<char>,
    args2: Seq<Value>,
)
    requires
        emitted_as(r1, sql1, args1, run_nodes(ns, env, Seq::empty(), d, (Seq::empty(), Seq::empty()))),
        emitted_as(r2, sql2, args2, run_nodes(ns, env, Seq::empty(), d, (Seq::empty(), Seq::empty()))),
    ensures
        r1 is Ok <==> r2 is Ok,
        r1 is Err ==> r1 == r2,
        r1 is Ok ==> sql1 == sql2 && args_view(args1) == args_view(args2),
{
}

} // verus!
