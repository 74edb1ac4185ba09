use rbatis::cache::TemplateCache;
use rbatis::exec::DriverType;
use rbatis::expr::{EvalError, Node, NodeType, Op};
use rbatis::lexer::{ParseError, Token};
use rbatis::parse::{evaluate, parse_expression, ExprError};
use rbatis::sync_map::SyncMap;
use rbatis::template::compile;
use rbatis::value::Value;

fn s(x: &str) -> String {
    x.to_string()
}

fn obj(entries: Vec<(&str, Value)>) -> Value {
    Value::object(entries.into_iter().map(|(k, v)| (s(k), v)).collect())
}

fn ints(xs: &[i64]) -> Value {
    Value::array(xs.iter().map(|x| Value::Int(*x)).collect())
}

fn empty() -> Value {
    obj(vec![])
}

fn eval(text: &str, env: &Value) -> Result<Value, ExprError> {
    evaluate(text, env)
}

const TEMPLATE: &str = "SELECT * FROM t WHERE flag = #{flag}
if name != null:
  AND name like #{name+'%'}
if ids != null:
  AND id in (
  trim ',':
    for item in ids:
      #{item},
  )";

fn squash(sql: &str) -> String {
    sql.split_whitespace().collect::<Vec<_>>().join(" ")
}

#[test]
fn integer_addition_stays_integer() {
    assert_eq!(eval("1+1", &empty()), Ok(Value::Int(2)));
    assert_eq!(eval("7-10", &empty()), Ok(Value::Int(-3)));
    assert_eq!(eval("6*7", &empty()), Ok(Value::Int(42)));
}

#[test]
fn float_literals_are_refused() {
    assert_eq!(eval("1+1.0", &empty()), Err(ExprError::Parse(ParseError::FloatLiteral)));
}

#[test]
fn divide_by_zero_fails() {
    assert_eq!(eval("1/0", &empty()), Err(ExprError::Eval(EvalError::DivideByZero)));
    assert_eq!(eval("1%0", &empty()), Err(ExprError::Eval(EvalError::DivideByZero)));
}

#[test]
fn division_truncates_toward_zero() {
    assert_eq!(eval("7/2", &empty()), Ok(Value::Int(3)));
    assert_eq!(eval("-7/2", &empty()), Ok(Value::Int(-3)));
    assert_eq!(eval("-7%2", &empty()), Ok(Value::Int(-1)));
    assert_eq!(eval("7%-2", &empty()), Ok(Value::Int(1)));
}

#[test]
fn overflow_is_an_error() {
    assert_eq!(
        eval("9223372036854775807 + 1", &empty()),
        Err(ExprError::Eval(EvalError::Overflow))
    );
    assert_eq!(eval("99999999999999999999", &empty()), Err(ExprError::Parse(ParseError::NumberTooLarge)));
}

#[test]
fn missing_path_segment_is_null() {
    let env = obj(vec![("a", empty())]);
    let node = Node::Arg(vec![s("a"), s("missing")]);
    assert_eq!(node.eval(&env), Ok(Value::Null));
    assert_eq!(eval("a.missing.deeper", &env), Ok(Value::Null));
    assert_eq!(eval("nothing", &env), Ok(Value::Null));
}

#[test]
fn dotted_path_reaches_nested_value() {
    let env = obj(vec![("a", obj(vec![("b", Value::Int(5))]))]);
    assert_eq!(eval("a.b + 1", &env), Ok(Value::Int(6)));
}

#[test]
fn in_membership() {
    let env = obj(vec![("arr", ints(&[1, 2, 3]))]);
    assert_eq!(eval("3 in arr", &env), Ok(Value::Bool(true)));
    let env = obj(vec![("arr", ints(&[1, 2]))]);
    assert_eq!(eval("3 in arr", &env), Ok(Value::Bool(false)));
    assert_eq!(eval("3 in 4", &env), Err(ExprError::Eval(EvalError::UnsupportedOperator)));
}

#[test]
fn comparisons_and_logic() {
    let env = obj(vec![("name", Value::Str(s("bob"))), ("n", Value::Null)]);
    assert_eq!(eval("name != null", &env), Ok(Value::Bool(true)));
    assert_eq!(eval("n == null", &env), Ok(Value::Bool(true)));
    assert_eq!(eval("'abc' < 'abd'", &env), Ok(Value::Bool(true)));
    assert_eq!(eval("'b' >= 'abc'", &env), Ok(Value::Bool(true)));
    assert_eq!(eval("2 > 3 || 1 <= 1", &env), Ok(Value::Bool(true)));
    assert_eq!(eval("1 == 1 && 0", &env), Ok(Value::Bool(false)));
    assert_eq!(eval("!n", &env), Ok(Value::Bool(true)));
    assert_eq!(eval("true == 'true'", &env), Ok(Value::Bool(false)));
    assert_eq!(eval("true > 'x'", &env), Err(ExprError::Eval(EvalError::TypeMismatch)));
    assert_eq!(eval("1 + true", &env), Err(ExprError::Eval(EvalError::UnsupportedOperator)));
}

#[test]
fn precedence_and_parentheses() {
    assert_eq!(eval("1 + 2 * 3", &empty()), Ok(Value::Int(7)));
    assert_eq!(eval("(1 + 2) * 3", &empty()), Ok(Value::Int(9)));
    assert_eq!(eval("10 - 4 - 3", &empty()), Ok(Value::Int(3)));
    assert_eq!(eval("-(2 + 3)", &empty()), Ok(Value::Int(-5)));
}

#[test]
fn string_concatenation_and_like() {
    let env = obj(vec![("name", Value::Str(s("alice")))]);
    assert_eq!(eval("name + '%'", &env), Ok(Value::Str(s("alice%"))));
    assert_eq!(eval("name like 'al%'", &env), Ok(Value::Bool(true)));
    assert_eq!(eval("name like '%ice'", &env), Ok(Value::Bool(true)));
    assert_eq!(eval("name like '%lic%'", &env), Ok(Value::Bool(true)));
    assert_eq!(eval("name like 'alice'", &env), Ok(Value::Bool(true)));
    assert_eq!(eval("name like 'bob%'", &env), Ok(Value::Bool(false)));
    assert_eq!(eval("1 like 'x'", &env), Err(ExprError::Eval(EvalError::UnsupportedOperator)));
}

#[test]
fn parse_errors() {
    assert_eq!(parse_expression("").err(), Some(ParseError::Empty));
    assert_eq!(parse_expression("   ").err(), Some(ParseError::Empty));
    assert_eq!(parse_expression("'abc").err(), Some(ParseError::UnterminatedQuote));
    assert_eq!(parse_expression("(1 + 2").err(), Some(ParseError::UnmatchedParen));
    assert_eq!(parse_expression("1 + 2)").err(), Some(ParseError::UnmatchedParen));
    assert_eq!(parse_expression("1 +").err(), Some(ParseError::MissingOperand));
    assert_eq!(parse_expression("1 2").err(), Some(ParseError::MissingOperator));
    assert_eq!(parse_expression("a = b").err(), Some(ParseError::BadOperator));
}

#[test]
fn word_classification() {
    assert_eq!(Node::parser("null"), Ok(Token::Operand(Node::Null)));
    assert_eq!(Node::parser("true"), Ok(Token::Operand(Node::Bool(true))));
    assert_eq!(Node::parser("like"), Ok(Token::Operator(Op::Like)));
    assert_eq!(Node::parser("42"), Ok(Token::Operand(Node::Int(42))));
    assert_eq!(Node::parser("a.b.c"), Ok(Token::Operand(Node::Arg(vec![s("a"), s("b"), s("c")]))));
    assert_eq!(Node::newArg("x.y"), Node::Arg(vec![s("x"), s("y")]));
    let b = Node::newBinary(Node::newNumberI64(1), Node::newNull(), Op::Add);
    assert_eq!(b.nodeType(), NodeType::NBinary);
    assert!(b.equalNodeType(&NodeType::NBinary));
    assert_eq!(b.opt(), Some(Op::Add));
    assert_eq!(Node::newBool(true).nodeType(), NodeType::NBool);
    assert_eq!(Node::newString(s("x")).nodeType(), NodeType::NString);
}

#[test]
fn end_to_end_template() {
    let t = compile(TEMPLATE).unwrap();
    let env = obj(vec![("flag", Value::Int(1)), ("name", Value::Null), ("ids", ints(&[1, 2, 3]))]);
    let (sql, args) = t.execute(&env, DriverType::Mysql).unwrap();
    assert_eq!(squash(&sql), "SELECT * FROM t WHERE flag = ? AND id in ( ?, ?, ? )");
    assert_eq!(sql.matches('?').count(), 4);
    assert_eq!(args, vec![Value::Int(1), Value::Int(1), Value::Int(2), Value::Int(3)]);
}

#[test]
fn name_branch_binds_pattern() {
    let t = compile(TEMPLATE).unwrap();
    let env = obj(vec![("flag", Value::Int(0)), ("name", Value::Str(s("ann"))), ("ids", Value::Null)]);
    let (sql, args) = t.execute(&env, DriverType::Postgres).unwrap();
    assert_eq!(squash(&sql), "SELECT * FROM t WHERE flag = $1 AND name like $2");
    assert_eq!(args, vec![Value::Int(0), Value::Str(s("ann%"))]);
}

#[test]
fn empty_collection_gives_empty_list() {
    let t = compile(TEMPLATE).unwrap();
    let env = obj(vec![("flag", Value::Int(1)), ("name", Value::Null), ("ids", ints(&[]))]);
    let (sql, args) = t.execute(&env, DriverType::Mysql).unwrap();
    assert_eq!(squash(&sql), "SELECT * FROM t WHERE flag = ? AND id in ( )");
    assert_eq!(args, vec![Value::Int(1)]);
}

#[test]
fn postgres_placeholders_are_numbered() {
    let t = compile(TEMPLATE).unwrap();
    let env = obj(vec![("flag", Value::Int(1)), ("name", Value::Null), ("ids", ints(&[7, 8, 9, 10, 11, 12, 13, 14, 15, 16]))]);
    let (sql, args) = t.execute(&env, DriverType::Postgres).unwrap();
    assert_eq!(
        squash(&sql),
        "SELECT * FROM t WHERE flag = $1 AND id in ( $2, $3, $4, $5, $6, $7, $8, $9, $10, $11 )"
    );
    assert_eq!(args.len(), 11);
}

#[test]
fn for_index_is_bound() {
    let t = compile("for x, i in xs:\n  #{i}").unwrap();
    let env = obj(vec![("xs", ints(&[5, 6]))]);
    let (_, args) = t.execute(&env, DriverType::Sqlite).unwrap();
    assert_eq!(args, vec![Value::Int(0), Value::Int(1)]);
}

#[test]
fn for_over_non_array_fails() {
    let t = compile("for x in xs:\n  #{x}").unwrap();
    let env = obj(vec![("xs", Value::Int(3))]);
    assert_eq!(t.execute(&env, DriverType::Mysql), Err(EvalError::TypeMismatch));
}

#[test]
fn execution_is_repeatable() {
    let t = compile(TEMPLATE).unwrap();
    let env = obj(vec![("flag", Value::Int(1)), ("name", Value::Null), ("ids", ints(&[4, 5]))]);
    let first = t.execute(&env, DriverType::Postgres);
    let second = t.execute(&env, DriverType::Postgres);
    assert_eq!(first, second);
}

#[test]
fn template_parse_errors() {
    assert_eq!(compile("a\n    b").err(), Some(ParseError::BadIndent));
    assert_eq!(compile("if x:\n    a\n  b").err(), Some(ParseError::BadIndent));
    assert_eq!(compile("x = #{a").err(), Some(ParseError::UnterminatedBind));
    assert_eq!(compile("while x:\n  a").err(), Some(ParseError::UnknownDirective));
    assert_eq!(compile("if (x:\n  a").err(), Some(ParseError::UnmatchedParen));
}

#[test]
fn cache_compiles_once() {
    let mut cache = TemplateCache::new();
    let env = obj(vec![("flag", Value::Int(1)), ("name", Value::Null), ("ids", ints(&[2]))]);
    let first = cache.compile_and_cache(TEMPLATE).unwrap().execute(&env, DriverType::Mysql);
    let second = cache.compile_and_cache(TEMPLATE).unwrap().execute(&env, DriverType::Mysql);
    assert_eq!(first, second);
    let fresh = compile(TEMPLATE).unwrap();
    assert_eq!(cache.compile_and_cache(TEMPLATE).unwrap(), &fresh);
    assert_eq!(cache.compile_and_cache("x = #{a").err(), Some(ParseError::UnterminatedBind));
}

#[test]
fn sync_map_put_and_pop() {
    let mut map = SyncMap::new();
    map.put("1", s("one"));
    map.put("2", s("two"));
    map.put("1", s("uno"));
    assert_eq!(map.get("1"), Some(&s("uno")));
    assert_eq!(map.pop("1"), Some(s("uno")));
    assert_eq!(map.pop("1"), None);
    assert_eq!(map.get("2"), Some(&s("two")));
}

#[test]
fn test_sync_map() {
    let mut map = SyncMap::new();
    map.put("1", "fuck you".to_string());
    let popped = map.pop("1");
    println!("{:?}", popped);
    assert_eq!(popped, Some("fuck you".to_string()));
}

#[test]
fn malformed_directives() {
    assert_eq!(compile("trim ,:\n  a").err(), Some(ParseError::UnknownDirective));
    assert_eq!(compile("for x of xs:\n  a").err(), Some(ParseError::UnknownDirective));
    assert_eq!(compile("for  in xs:\n  a").err(), Some(ParseError::UnknownDirective));
    assert_eq!(compile("if 1 +:\n  a").err(), Some(ParseError::MissingOperand));
}

#[test]
fn trim_strips_joiners_at_both_ends() {
    let t = compile("trim 'AND':\n  AND a = 1 AND").unwrap();
    let (sql, args) = t.execute(&empty(), DriverType::Mysql).unwrap();
    assert_eq!(squash(&sql), "a = 1");
    assert!(args.is_empty());
}

#[test]
fn false_condition_emits_nothing() {
    let t = compile("if flag:\n  x = #{flag}\ny").unwrap();
    let env = obj(vec![("flag", Value::Int(0))]);
    let (sql, args) = t.execute(&env, DriverType::Mysql).unwrap();
    assert_eq!(squash(&sql), "y");
    assert!(args.is_empty());
}

#[test]
fn loop_variable_shadows_environment() {
    let t = compile("for x in xs:\n  #{x}\n#{x}").unwrap();
    let env = obj(vec![("x", Value::Str(s("outer"))), ("xs", ints(&[1]))]);
    let (_, args) = t.execute(&env, DriverType::Mysql).unwrap();
    assert_eq!(args, vec![Value::Int(1), Value::Str(s("outer"))]);
}

#[test]
fn base_indentation_follows_first_line() {
    let t = compile("    SELECT 1\n    if a:\n      , #{a}").unwrap();
    let env = obj(vec![("a", Value::Int(2))]);
    let (sql, args) = t.execute(&env, DriverType::Postgres).unwrap();
    assert_eq!(squash(&sql), "SELECT 1 , $1");
    assert_eq!(args, vec![Value::Int(2)]);
}

#[test]
fn parser_classifies_operators() {
    let ops = [
        ("+", Op::Add), ("-", Op::Sub), ("*", Op::Mul), ("/", Op::Div), ("%", Op::Rem),
        ("==", Op::Eq), ("!=", Op::Ne), (">", Op::Gt), (">=", Op::Ge), ("<", Op::Lt),
        ("<=", Op::Le), ("&&", Op::And), ("||", Op::Or), ("!", Op::Not), ("in", Op::In),
        ("like", Op::Like),
    ];
    for (text, op) in ops {
        assert_eq!(Node::parser(text), Ok(Token::Operator(op)));
    }
}

#[test]
fn parser_classifies_quoted_strings() {
    assert_eq!(Node::parser("'a'"), Ok(Token::Operand(Node::Str(s("a")))));
    assert_eq!(Node::parser("`b c`"), Ok(Token::Operand(Node::Str(s("b c")))));
    assert_eq!(Node::parser("'a`b'"), Ok(Token::Operand(Node::Str(s("a`b")))));
    assert_eq!(Node::parser("''"), Ok(Token::Operand(Node::Str(s("")))));
    assert_eq!(Node::parser("'abc"), Err(ParseError::UnterminatedQuote));
    assert_eq!(Node::parser("'"), Err(ParseError::UnterminatedQuote));
    assert_eq!(Node::parser("'abc`"), Err(ParseError::UnterminatedQuote));
}

#[test]
fn parser_classifies_signed_numbers() {
    assert_eq!(Node::parser("-5"), Ok(Token::Operand(Node::Int(-5))));
    assert_eq!(Node::parser("+7"), Ok(Token::Operand(Node::Int(7))));
    assert_eq!(Node::parser("-9223372036854775808"), Ok(Token::Operand(Node::Int(i64::MIN))));
    assert_eq!(Node::parser("9223372036854775807"), Ok(Token::Operand(Node::Int(i64::MAX))));
    assert_eq!(Node::parser("9223372036854775808"), Err(ParseError::NumberTooLarge));
    assert_eq!(Node::parser("-9223372036854775809"), Err(ParseError::NumberTooLarge));
    assert_eq!(Node::parser("1.5"), Err(ParseError::FloatLiteral));
    assert_eq!(Node::parser("-1.5"), Err(ParseError::FloatLiteral));
}

#[test]
fn parser_splits_multi_dot_words_as_paths() {
    assert_eq!(Node::parser("1.2.3"), Ok(Token::Operand(Node::Arg(vec![s("1"), s("2"), s("3")]))));
    assert_eq!(Node::parser("name"), Ok(Token::Operand(Node::Arg(vec![s("name")]))));
    assert_eq!(Node::parser("-a"), Ok(Token::Operand(Node::Arg(vec![s("-a")]))));
}
