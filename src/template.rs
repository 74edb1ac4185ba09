//! Template source text to compiled templates, and their execution.
use vstd::prelude::*;
use crate::exec::{opt_str_view, trimmed, args_view, exec_nodes, nodes_seq, run_nodes, trim_chars, DriverType, Nodes, TemplateNode};
use crate::expr::EvalError;
use crate::lexer::ParseError;
use crate::expr::{node_view, ExprV};
use crate::parse::{expr_of, parse_expression};
use crate::text::{chars_of, occurs_at, slice_chars, string_of};
use crate::expr::locals_view;
use crate::value::Value;

verus! {

/// The model of a template node.
pub enum TNodeV {
    Text(Seq<char>),
    Bind(ExprV),
    If(ExprV, Seq<TNodeV>),
    For(Seq<char>, Option<Seq<char>>, ExprV, Seq<TNodeV>),
    Trim(Seq<char>, Seq<TNodeV>),
}

pub open spec fn tnode_view(n: TemplateNode) -> TNodeV
    decreases n, 0int,
{
    match n {
        TemplateNode::Text(t) => TNodeV::Text(t@),
        TemplateNode::Bind(e) => TNodeV::Bind(node_view(e)),
        TemplateNode::If(c, body) => TNodeV::If(node_view(c), nodes_view(body)),
        TemplateNode::For(item, index, coll, body) => TNodeV::For(
            item@,
            opt_str_view(index),
            node_view(coll),
            nodes_view(body),
        ),
        TemplateNode::Trim(set, body) => TNodeV::Trim(set@, nodes_view(body)),
    }
}

pub open spec fn nodes_view(ns: Nodes) -> Seq<TNodeV>
    decreases ns, 0int,
{
    match ns {
        Nodes::Nil => Seq::empty(),
        Nodes::Cons(h, t) => seq![tnode_view(*h)] + nodes_view(*t),
    }
}

pub open spec fn tnodes_view(v: Seq<TemplateNode>) -> Seq<TNodeV> {
    v.map_values(|n: TemplateNode| tnode_view(n))
}

/// The first position at or after `k` where `t` occurs in `s`.
pub open spec fn find_seq(s: Seq<char>, t: Seq<char>, k: int) -> Option<int>
    decreases s.len() - k,
{
    if k < 0 || k >= s.len() {
        None
    } else if k + t.len() <= s.len() && s.subrange(k, k + t.len()) == t {
        Some(k)
    } else {
        find_seq(s, t, k + 1)
    }
}

pub proof fn lemma_find_seq(s: Seq<char>, t: Seq<char>, k: int)
    ensures
        find_seq(s, t, k) matches Some(j) ==> 0 <= k <= j < s.len() && j + t.len() <= s.len(),
    decreases s.len() - k,
{
    if 0 <= k < s.len() && !(k + t.len() <= s.len() && s.subrange(k, k + t.len()) == t) {
        lemma_find_seq(s, t, k + 1);
    }
}

pub open spec fn prepend_nodes(acc: Seq<TNodeV>, m: Result<Seq<TNodeV>, ParseError>) -> Result<Seq<TNodeV>, ParseError> {
    match m {
        Ok(rest) => Ok(acc + rest),
        Err(e) => Err(e),
    }
}

/// The nodes of an SQL line from position `i` on: text up to each `#{`, a
/// bind for the expression up to the next `}`, and a closing space.
pub open spec fn text_from(line: Seq<char>, i: int) -> Result<Seq<TNodeV>, ParseError>
    decreases line.len() - i,
{
    if i < 0 || i >= line.len() {
        Ok(seq![TNodeV::Text(seq![' '])])
    } else {
        match find_seq(line, seq!['#', '{'], i) {
            None => Ok(seq![TNodeV::Text(line.subrange(i, line.len() as int)), TNodeV::Text(seq![' '])]),
            Some(start) => {
                let pre = if i < start <= line.len() {
                    seq![TNodeV::Text(line.subrange(i, start))]
                } else {
                    Seq::empty()
                };
                match find_seq(line, seq!['}'], start + 2) {
                    None => Err(ParseError::UnterminatedBind),
                    Some(end) => if i <= start && start + 2 <= end < line.len() {
                        match expr_of(line.subrange(start + 2, end)) {
                            Err(x) => Err(x),
                            Ok(e) => prepend_nodes(
                                pre.push(TNodeV::Bind(e)),
                                text_from(line, end + 1),
                            ),
                        }
                    } else {
                        Err(ParseError::UnterminatedBind)
                    },
                }
            },
        }
    }
}

/// The root node sequence of one template source.
#[derive(Debug, PartialEq)]
pub struct CompiledTemplate {
    pub nodes: Nodes,
}

/// A sequence of nodes holding the elements of `v` in order.
pub fn nodes_from(v: Vec<TemplateNode>) -> (r: Nodes)
    ensures
        nodes_seq(r) == v@,
        nodes_view(r) == tnodes_view(v@),
{
    let mut v = v;
    let ghost all = v@;
    let mut ns = Nodes::Nil;
    let ghost allv = tnodes_view(v@);
    while v.len() > 0
        invariant
            all =~= v@ + nodes_seq(ns),
            allv =~= tnodes_view(v@) + nodes_view(ns),
        decreases v.len(),
    {
        let ghost before = v@;
        let x = v.pop().unwrap();
        assert(before =~= v@.push(x));
        assert(tnodes_view(before) =~= tnodes_view(v@).push(tnode_view(x)));
        ns = Nodes::Cons(Box::new(x), Box::new(ns));
    }
    ns
}

/// The first position at or after `from` where `t` occurs in `s`.
fn find_from(s: &Vec<char>, t: &Vec<char>, from: usize) -> (r: Option<usize>)
    ensures
        r matches Some(i) ==> from <= i < s.len() && i + t.len() <= s.len(),
        r == (match find_seq(s@, t@, from as int) {
            Some(k) => Some(k as usize),
            None => None::<usize>,
        }),
{
    let mut i: usize = from;
    while i < s.len()
        invariant
            from <= i,
            find_seq(s@, t@, from as int) == find_seq(s@, t@, i as int),
        decreases s.len() - i,
    {
        if occurs_at(s, i, t) {
            assert(find_seq(s@, t@, i as int) == Some(i as int));
            return Some(i);
        }
        assert(find_seq(s@, t@, i as int) == find_seq(s@, t@, i + 1));
        i = i + 1;
    }
    assert(find_seq(s@, t@, i as int) is None);
    None
}

fn string_slice(v: &Vec<char>, from: usize, to: usize) -> (r: String)
    requires
        from <= to <= v.len(),
    ensures
        r@ == v@.subrange(from as int, to as int),
{
    let s = slice_chars(v, from, to);
    string_of(s.as_slice())
}

fn trim_ws(v: &Vec<char>) -> (r: Vec<char>)
    ensures
        r@ == ws_trim(v@),
{
    let none: Vec<char> = Vec::new();
    assert(none@ =~= Seq::<char>::empty());
    trim_chars(v, &none)
}

/// Appends the text and bound expressions of one SQL line, then a separating space.
fn parse_text_line(line: &Vec<char>, out: &mut Vec<TemplateNode>) -> (r: Result<(), ParseError>)
    ensures
        match text_from(line@, 0) {
            Ok(parts) => r is Ok && tnodes_view(final(out)@) == tnodes_view(old(out)@) + parts,
            Err(x) => r matches Err(y) && y == x,
        },
{
    let open: Vec<char> = vec!['#', '{'];
    let close: Vec<char> = vec!['}'];
    let ghost goal = text_from(line@, 0);
    let mut i: usize = 0;
    proof {
        if let Ok(parts) = goal {
            assert(tnodes_view(out@) + parts =~= tnodes_view(old(out)@) + parts);
        }
    }
    while i < line.len()
        invariant
            open@ == seq!['#', '{'],
            close@ == seq!['}'],
            i <= line.len(),
            goal == text_from(line@, 0),
            match goal {
                Ok(parts) => prepend_nodes(tnodes_view(out@), text_from(line@, i as int)) == Ok::<
                    Seq<TNodeV>,
                    ParseError,
                >(tnodes_view(old(out)@) + parts),
                Err(x) => text_from(line@, i as int) == Err::<Seq<TNodeV>, ParseError>(x),
            },
        decreases line.len() - i,
    {
        let ghost acc = tnodes_view(out@);
        match find_from(line, &open, i) {
            None => {
                let t = TemplateNode::Text(string_slice(line, i, line.len()));
                out.push(t);
                assert(tnodes_view(out@) =~= acc.push(tnode_view(t)));
                i = line.len();
                proof {
                    if let Ok(parts) = goal {
                        assert(tnodes_view(out@) + seq![TNodeV::Text(seq![' '])] =~= acc + seq![
                            tnode_view(t),
                            TNodeV::Text(seq![' ']),
                        ]);
                    }
                }
            },
            Some(start) => {
                if start > i {
                    let t = TemplateNode::Text(string_slice(line, i, start));
                    out.push(t);
                    assert(tnodes_view(out@) =~= acc.push(tnode_view(t)));
                }
                let ghost acc2 = tnodes_view(out@);
                proof {
                    lemma_find_seq(line@, open@, i as int);
                }
                match find_from(line, &close, start + open.len()) {
                    None => {
                        return Err(ParseError::UnterminatedBind);
                    },
                    Some(end) => {
                        proof {
                            lemma_find_seq(line@, close@, start + 2);
                        }
                        let src = string_slice(line, start + open.len(), end);
                        let e = match parse_expression(src.as_str()) {
                            Ok(e) => e,
                            Err(x) => return Err(x),
                        };
                        let t = TemplateNode::Bind(e);
                        out.push(t);
                        assert(tnodes_view(out@) =~= acc2.push(tnode_view(t)));
                        proof {
                            if let Ok(rest) = text_from(line@, end + 1) {
                                assert(tnodes_view(out@) + rest =~= acc2.push(tnode_view(t))
                                    + rest);
                            }
                            if let Ok(parts) = goal {
                                let pre = if i < start <= line@.len() {
                                    seq![TNodeV::Text(line@.subrange(i as int, start as int))]
                                } else {
                                    Seq::empty()
                                };
                                assert(acc2 =~= acc + pre);
                                if let Ok(rest) = text_from(line@, end + 1) {
                                    assert(acc + (pre.push(tnode_view(t)) + rest) =~= tnodes_view(
                                        out@,
                                    ) + rest);
                                }
                            }
                        }
                        i = end + 1;
                    },
                }
            },
        }
    }
    let ghost acc = tnodes_view(out@);
    let t = TemplateNode::Text(String::from_str(" "));
    proof {
        reveal_strlit(" ");
        assert(" "@ =~= seq![' ']);
    }
    out.push(t);
    assert(tnodes_view(out@) =~= acc.push(tnode_view(t)));
    proof {
        if let Ok(parts) = goal {
            assert(acc + seq![TNodeV::Text(seq![' '])] =~= tnodes_view(out@));
        }
    }
    Ok(())
}

pub open spec fn starts(line: Seq<char>, lit: Seq<char>) -> bool {
    lit.len() <= line.len() && line.subrange(0, lit.len() as int) == lit
}

pub open spec fn ws_trim(s: Seq<char>) -> Seq<char> {
    trimmed(s, Seq::empty())
}

/// The loop names of a `for` line: the item, and the index after a comma.
pub open spec fn loop_names(names: Seq<char>) -> (Seq<char>, Option<Seq<char>>) {
    match find_seq(names, ","@, 0) {
        None => (ws_trim(names), None),
        Some(c) => (ws_trim(names.subrange(0, c)), Some(ws_trim(names.subrange(c + 1, names.len() as int)))),
    }
}

/// The node of a directive line (one that ends with `:`) with children `kids`:
/// `if <expr>:`, `for <item>[, <index>] in <expr>:` or `trim '<chars>':`.
pub open spec fn directive(line: Seq<char>, kids: Seq<TNodeV>) -> Result<TNodeV, ParseError> {
    let end = line.len() - 1;
    if starts(line, "if "@) && end >= 3 {
        match expr_of(line.subrange(3, end)) {
            Ok(c) => Ok(TNodeV::If(c, kids)),
            Err(x) => Err(x),
        }
    } else if starts(line, "for "@) && end >= 4 {
        let head = line.subrange(4, end);
        match find_seq(head, " in "@, 0) {
            None => Err(ParseError::UnknownDirective),
            Some(at) => {
                let (item, index) = loop_names(head.subrange(0, at));
                if item.len() == 0 {
                    Err(ParseError::UnknownDirective)
                } else {
                    match expr_of(head.subrange(at + " in "@.len(), head.len() as int)) {
                        Ok(c) => Ok(TNodeV::For(item, index, c, kids)),
                        Err(x) => Err(x),
                    }
                }
            },
        }
    } else if starts(line, "trim "@) && end >= 5 {
        let arg = ws_trim(line.subrange(5, end));
        let n = arg.len();
        if n >= 2 && arg[0] == '\'' && arg[n - 1] == '\'' {
            Ok(TNodeV::Trim(arg.subrange(1, n - 1), kids))
        } else {
            Err(ParseError::UnknownDirective)
        }
    } else {
        Err(ParseError::UnknownDirective)
    }
}

fn starts_with(line: &Vec<char>, lit: &str) -> (r: bool)
    ensures
        r == starts(line@, lit@),
{
    let l = chars_of(lit);
    occurs_at(line, 0, &l)
}

/// The node of a directive line, with its children.
fn parse_directive(line: &Vec<char>, kids: Nodes) -> (r: Result<TemplateNode, ParseError>)
    requires
        line.len() >= 1,
    ensures
        match directive(line@, nodes_view(kids)) {
            Ok(v) => r matches Ok(n) && tnode_view(n) == v,
            Err(x) => r matches Err(y) && y == x,
        },
{
    let ghost kv = nodes_view(kids);
    let end = line.len() - 1;
    if starts_with(line, "if ") && end >= 3 {
        let src = string_slice(line, 3, end);
        match parse_expression(src.as_str()) {
            Ok(c) => Ok(TemplateNode::If(c, kids)),
            Err(x) => Err(x),
        }
    } else if starts_with(line, "for ") && end >= 4 {
        let head = slice_chars(line, 4, end);
        let sep = chars_of(" in ");
        proof {
            lemma_find_seq(head@, sep@, 0);
        }
        match find_from(&head, &sep, 0) {
            None => Err(ParseError::UnknownDirective),
            Some(at) => {
                let names = slice_chars(&head, 0, at);
                let comma = chars_of(",");
                proof {
                    lemma_find_seq(names@, comma@, 0);
                }
                let found = find_from(&names, &comma, 0);
                let (item, index) = match found {
                    None => {
                        let it = trim_ws(&names);
                        assert(it@ == loop_names(names@).0);
                        (it, None)
                    },
                    Some(c) => {
                        let a = slice_chars(&names, 0, c);
                        let b = slice_chars(&names, c + 1, names.len());
                        let ix = trim_ws(&b);
                        let it = trim_ws(&a);
                        let ixs = string_of(ix.as_slice());
                        assert(it@ == loop_names(names@).0);
                        assert(opt_str_view(Some(ixs)) == loop_names(names@).1);
                        (it, Some(ixs))
                    },
                };
                assert(item@ == loop_names(names@).0);
                assert(opt_str_view(index) == loop_names(names@).1);
                if item.len() == 0 {
                    return Err(ParseError::UnknownDirective);
                }
                let src = string_slice(&head, at + sep.len(), head.len());
                match parse_expression(src.as_str()) {
                    Ok(coll) => Ok(TemplateNode::For(string_of(item.as_slice()), index, coll, kids)),
                    Err(x) => Err(x),
                }
            },
        }
    } else if starts_with(line, "trim ") && end >= 5 {
        let arg0 = slice_chars(line, 5, end);
        let arg = trim_ws(&arg0);
        let n = arg.len();
        if n >= 2 && arg[0] == '\'' && arg[n - 1] == '\'' {
            Ok(TemplateNode::Trim(string_slice(&arg, 1, n - 1), kids))
        } else {
            Err(ParseError::UnknownDirective)
        }
    } else {
        Err(ParseError::UnknownDirective)
    }
}

pub open spec fn prepend_block(acc: Seq<TNodeV>, m: Result<(Seq<TNodeV>, int), ParseError>) -> Result<(Seq<TNodeV>, int), ParseError> {
    match m {
        Ok((v, p)) => Ok((acc + v, p)),
        Err(e) => Err(e),
    }
}

pub open spec fn is_directive_line(line: Seq<char>) -> bool {
    line.len() >= 1 && line[line.len() - 1] == ':'
}

/// The nodes of the lines from `pos` on that are indented exactly `indent`,
/// up to the first line indented less; each directive line takes the deeper
/// lines below it as its children. Also the position after the block.
pub open spec fn p_block(l: Seq<(int, Seq<char>)>, pos: int, indent: int) -> Result<(Seq<TNodeV>, int), ParseError>
    decreases l.len() - pos,
{
    if pos < 0 || pos >= l.len() || l[pos].0 < indent {
        Ok((Seq::empty(), pos))
    } else if l[pos].0 > indent {
        Err(ParseError::BadIndent)
    } else {
        let line = l[pos].1;
        let next = pos + 1;
        if is_directive_line(line) {
            let nested = next < l.len() && l[next].0 > indent;
            let kids = if nested {
                p_block(l, next, l[next].0)
            } else {
                Ok((Seq::empty(), next))
            };
            match kids {
                Err(x) => Err(x),
                Ok((ks, resume)) => if !(next <= resume <= l.len()) {
                    Err(ParseError::BadIndent)
                } else if nested && resume < l.len() && l[resume].0 > indent {
                    Err(ParseError::BadIndent)
                } else {
                    match directive(line, ks) {
                        Err(x) => Err(x),
                        Ok(node) => prepend_block(seq![node], p_block(l, resume, indent)),
                    }
                },
            }
        } else {
            match text_from(line, 0) {
                Err(x) => Err(x),
                Ok(parts) => prepend_block(parts, p_block(l, next, indent)),
            }
        }
    }
}

/// Parses the lines from `*pos` on that are indented exactly `indent`,
/// with the deeper lines under each directive as its children; stops at the
/// first line indented less.
fn parse_block(lines: &Vec<(usize, Vec<char>)>, pos: &mut usize, indent: usize) -> (r: Result<
    Vec<TemplateNode>,
    ParseError,
>)
    requires
        *old(pos) <= lines.len(),
    ensures
        *old(pos) <= *final(pos) <= lines.len(),
        match p_block(lines_view(lines@), *old(pos) as int, indent as int) {
            Ok((v, p)) => r matches Ok(out) && tnodes_view(out@) == v && *final(pos) == p,
            Err(x) => r matches Err(y) && y == x,
        },
    decreases lines.len() - *old(pos),
{
    let ghost lv = lines_view(lines@);
    let ghost goal = p_block(lv, *pos as int, indent as int);
    let mut out: Vec<TemplateNode> = Vec::new();
    proof {
        if let Ok((v, p)) = goal {
            assert(tnodes_view(out@) + v =~= v);
        }
    }
    while *pos < lines.len()
        invariant
            *old(pos) <= *pos <= lines.len(),
            lv == lines_view(lines@),
            goal == p_block(lv, *old(pos) as int, indent as int),
            match goal {
                Ok((v, p)) => prepend_block(tnodes_view(out@), p_block(lv, *pos as int, indent as int))
                    == Ok::<(Seq<TNodeV>, int), ParseError>((v, p)),
                Err(x) => p_block(lv, *pos as int, indent as int) == Err::<(Seq<TNodeV>, int), ParseError>(x),
            },
        decreases lines.len() - *pos,
    {
        let ghost here = *pos as int;
        let ghost acc = tnodes_view(out@);
        assert(lv[here] == (lines@[here].0 as int, lines@[here].1@));
        let ind = lines[*pos].0;
        if ind < indent {
            assert(tnodes_view(out@) + Seq::<TNodeV>::empty() =~= tnodes_view(out@));
            return Ok(out);
        }
        if ind > indent {
            return Err(ParseError::BadIndent);
        }
        let line = &lines[*pos].1;
        *pos = *pos + 1;
        let n = line.len();
        if n >= 1 && line[n - 1] == ':' {
            let mut kids: Vec<TemplateNode> = Vec::new();
            let ghost nested = (here + 1) < lv.len() && lv[here + 1].0 > indent;
            if *pos < lines.len() && lines[*pos].0 > indent {
                assert(lv[here + 1] == (lines@[here + 1].0 as int, lines@[here + 1].1@));
                let inner = lines[*pos].0;
                kids = match parse_block(lines, pos, inner) {
                    Ok(k) => k,
                    Err(x) => return Err(x),
                };
                if *pos < lines.len() && lines[*pos].0 > indent {
                    assert(lv[*pos as int] == (lines@[*pos as int].0 as int, lines@[*pos as int].1@));
                    return Err(ParseError::BadIndent);
                }
                if *pos < lines.len() {
                    assert(lv[*pos as int] == (lines@[*pos as int].0 as int, lines@[*pos as int].1@));
                }
            } else {
                if *pos < lines.len() {
                    assert(lv[here + 1] == (lines@[here + 1].0 as int, lines@[here + 1].1@));
                }
                assert(tnodes_view(kids@) =~= Seq::<TNodeV>::empty());
            }
            let node = match parse_directive(line, nodes_from(kids)) {
                Ok(x) => x,
                Err(x) => return Err(x),
            };
            out.push(node);
            assert(tnodes_view(out@) =~= acc.push(tnode_view(node)));
            proof {
                if let Ok((v, p)) = p_block(lv, *pos as int, indent as int) {
                    assert(tnodes_view(out@) + v =~= acc + (seq![tnode_view(node)] + v));
                }
            }
        } else {
            let ghost before = out@;
            match parse_text_line(line, &mut out) {
                Ok(()) => {},
                Err(x) => {
                    return Err(x);
                },
            }
            proof {
                if let Ok(parts) = text_from(line@, 0) {
                    if let Ok((v, p)) = p_block(lv, *pos as int, indent as int) {
                        assert(tnodes_view(out@) + v =~= acc + (parts + v));
                    }
                }
            }
        }
    }
    proof {
        if *pos < lines.len() {
            assert(lv[*pos as int] == (lines@[*pos as int].0 as int, lines@[*pos as int].1@));
        }
        assert(tnodes_view(out@) + Seq::<TNodeV>::empty() =~= tnodes_view(out@));
    }
    Ok(out)
}

/// The end of the line that starts at `k`: the next newline, or the end.
pub open spec fn line_end(src: Seq<char>, k: int) -> int
    decreases src.len() - k,
{
    if k < 0 || k >= src.len() {
        src.len() as int
    } else if src[k] == '\n' {
        k
    } else {
        line_end(src, k + 1)
    }
}

/// The end of the run of spaces that starts at `k`, before `end`.
pub open spec fn indent_end(src: Seq<char>, k: int, end: int) -> int
    decreases end - k,
{
    if k < 0 || k >= end {
        end
    } else if src[k] != ' ' {
        k
    } else {
        indent_end(src, k + 1, end)
    }
}

/// The non-blank lines of `src` from position `start` on, each with its count
/// of leading spaces and its content without surrounding whitespace.
pub open spec fn lines_from(src: Seq<char>, start: int) -> Seq<(int, Seq<char>)>
    decreases src.len() - start,
{
    if start < 0 || start >= src.len() {
        Seq::empty()
    } else {
        let end = line_end(src, start);
        let ind = indent_end(src, start, end);
        let content = ws_trim(src.subrange(ind, end));
        let next = if end < src.len() {
            end + 1
        } else {
            end
        };
        let rest = if start < next <= src.len() {
            lines_from(src, next)
        } else {
            Seq::empty()
        };
        if content.len() > 0 {
            seq![(ind - start, content)] + rest
        } else {
            rest
        }
    }
}

pub open spec fn lines_view(l: Seq<(usize, Vec<char>)>) -> Seq<(int, Seq<char>)> {
    l.map_values(|x: (usize, Vec<char>)| (x.0 as int, x.1@))
}

/// The non-blank lines of `src`.
fn split_lines(src: &Vec<char>) -> (r: Vec<(usize, Vec<char>)>)
    ensures
        lines_view(r@) == lines_from(src@, 0),
{
    let mut lines: Vec<(usize, Vec<char>)> = Vec::new();
    let mut start: usize = 0;
    assert(lines_view(lines@) + lines_from(src@, 0) =~= lines_from(src@, 0));
    while start < src.len()
        invariant
            start <= src.len(),
            lines_view(lines@) + lines_from(src@, start as int) == lines_from(src@, 0),
        decreases src.len() - start,
    {
        let mut end: usize = start;
        while end < src.len() && src[end] != '\n'
            invariant
                start <= end <= src.len(),
                line_end(src@, start as int) == line_end(src@, end as int),
            decreases src.len() - end,
        {
            end = end + 1;
        }
        assert(line_end(src@, end as int) == end);
        let mut ind: usize = start;
        while ind < end && src[ind] == ' '
            invariant
                start <= ind <= end,
                end <= src.len(),
                indent_end(src@, start as int, end as int) == indent_end(src@, ind as int, end as int),
            decreases end - ind,
        {
            ind = ind + 1;
        }
        assert(indent_end(src@, ind as int, end as int) == ind);
        let raw = slice_chars(src, ind, end);
        let content = trim_ws(&raw);
        let ghost before = lines@;
        let ghost rest = lines_from(src@, if end < src.len() { end + 1 } else { end as int });
        if content.len() > 0 {
            lines.push((ind - start, content));
            assert(lines_view(lines@) =~= lines_view(before).push(((ind - start) as int, content@)));
            assert(lines_view(lines@) + rest =~= lines_view(before) + (seq![((ind - start) as int, content@)] + rest));
        }
        start = if end < src.len() {
            end + 1
        } else {
            end
        };
        if start >= src.len() {
            assert(lines_from(src@, start as int) =~= Seq::<(int, Seq<char>)>::empty());
        }
    }
    assert(lines_from(src@, start as int) =~= Seq::<(int, Seq<char>)>::empty());
    assert(lines_view(lines@) + Seq::<(int, Seq<char>)>::empty() =~= lines_view(lines@));
    lines
}

/// The root nodes of template source.
pub open spec fn template_of(src: Seq<char>) -> Result<Seq<TNodeV>, ParseError> {
    let l = lines_from(src, 0);
    let base = if l.len() > 0 {
        l[0].0
    } else {
        0
    };
    match p_block(l, 0, base) {
        Err(x) => Err(x),
        Ok((v, p)) => if p < l.len() {
            Err(ParseError::BadIndent)
        } else {
            Ok(v)
        },
    }
}

/// Parses template source: the first line sets the base indentation; lines at deeper indentation are the children of
/// the `if`, `for` or `trim` line above them, and every other line is SQL text
/// with `#{expr}` binds. Fails on bad indentation, an unterminated `#{`, an
/// unknown directive, or a malformed expression.
pub fn compile(source: &str) -> (r: Result<CompiledTemplate, ParseError>)
    ensures
        match template_of(source@) {
            Ok(v) => r matches Ok(t) && nodes_view(t.nodes) == v,
            Err(x) => r matches Err(y) && y == x,
        },
{
    let chars = chars_of(source);
    let lines = split_lines(&chars);
    let mut pos: usize = 0;
    let base = if lines.len() > 0 {
        lines[0].0
    } else {
        0
    };
    proof {
        if lines@.len() > 0 {
            assert(lines_view(lines@)[0] == (lines@[0].0 as int, lines@[0].1@));
        }
    }
    let nodes = match parse_block(&lines, &mut pos, base) {
        Ok(n) => n,
        Err(x) => return Err(x),
    };
    if pos < lines.len() {
        return Err(ParseError::BadIndent);
    }
    Ok(CompiledTemplate { nodes: nodes_from(nodes) })
}

impl CompiledTemplate {
    /// Runs the template against `env`: SQL text with one placeholder per bound
    /// argument, and the arguments in placeholder order.
    pub fn execute(&self, env: &Value, driver: DriverType) -> (r: Result<(String, Vec<Value>), EvalError>)
        ensures
            match run_nodes(self.nodes, env@, Seq::empty(), driver, (Seq::empty(), Seq::empty())) {
                Ok(st) => r matches Ok((sql, args)) && sql@ == st.0 && args_view(args@) == st.1,
                Err(e) => r == Err::<(String, Vec<Value>), EvalError>(e),
            },
    {
        let mut locals: Vec<(String, Value)> = Vec::new();
        let mut sql: Vec<char> = Vec::new();
        let mut args: Vec<Value> = Vec::new();
        assert(locals_view(locals@) =~= Seq::empty());
        assert(args_view(args@) =~= Seq::empty());
        match exec_nodes(&self.nodes, env, &mut locals, driver, &mut sql, &mut args) {
            Ok(()) => Ok((string_of(sql.as_slice()), args)),
            Err(e) => Err(e),
        }
    }
}

} // verus!
