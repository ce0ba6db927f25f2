use hyperiondb::handler::command::{parse_command, Command, Usage};
use hyperiondb::handler::parser::{
    parse_and, parse_condition, parse_expression, parse_or, parse_term, tokenize, Expr, ParseError,
};

fn strings(words: &[&str]) -> Vec<String> {
    words.iter().map(|w| w.to_string()).collect()
}

/// A compact rendering of an expression.
fn show(e: &Expr) -> String {
    match e {
        Expr::Condition(c) => format!("{}{}{}", c.field, c.operator, c.value),
        Expr::And(l, r) => format!("and({},{})", show(l), show(r)),
        Expr::Or(l, r) => format!("or({},{})", show(l), show(r)),
        Expr::Group(inner) => format!("group({})", show(inner)),
    }
}

fn parsed(text: &str) -> Result<String, ParseError> {
    parse_expression(&tokenize(text)).map(|(e, _)| show(&e))
}

#[test]
fn tokens_are_separated_by_whitespace() {
    assert_eq!(tokenize("age > 25"), strings(&["age", ">", "25"]));
    assert_eq!(tokenize("  age\t>=\n25  "), strings(&["age", ">=", "25"]));
    assert_eq!(tokenize(""), Vec::<String>::new());
    assert_eq!(tokenize("   "), Vec::<String>::new());
    assert_eq!(tokenize("age>25"), strings(&["age>25"]));
}

#[test]
fn every_kind_of_whitespace_separates() {
    assert_eq!(tokenize("age\u{2003}=\u{a0}1\u{3000}"), strings(&["age", "=", "1"]));
    assert_eq!(tokenize("a\u{200b}b"), strings(&["a\u{200b}b"]));
}

#[test]
fn quoted_runs_are_one_token() {
    assert_eq!(tokenize("city = \"San Antonio\""), strings(&["city", "=", "San Antonio"]));
    assert_eq!(tokenize("\"\""), strings(&[""]));
    assert_eq!(tokenize("\"a b\"\"c\""), strings(&["a b", "c"]));
    assert_eq!(tokenize("\"open end"), strings(&["open end"]));
    assert_eq!(tokenize("x \"and\""), strings(&["x", "and"]));
}

#[test]
fn bare_keywords_are_put_in_upper_case() {
    assert_eq!(tokenize("a and b Or c"), strings(&["a", "AND", "b", "OR", "c"]));
    assert_eq!(tokenize("( a )"), strings(&["(", "a", ")"]));
    assert_eq!(tokenize("(a)"), strings(&["(a)"]));
    assert_eq!(tokenize("android"), strings(&["android"]));
}

#[test]
fn a_condition_is_three_tokens() {
    assert_eq!(parsed("age = 30"), Ok("age=30".to_string()));
    assert_eq!(parsed("name CONTAINS \"a b\""), Ok("nameCONTAINSa b".to_string()));
    assert_eq!(parsed("a != AND"), Ok("a!=AND".to_string()));
}

#[test]
fn and_binds_tighter_than_or() {
    assert_eq!(parsed("a = 1 OR b = 2 AND c = 3"), Ok("or(a=1,and(b=2,c=3))".to_string()));
    assert_eq!(parsed("a = 1 AND b = 2 OR c = 3"), Ok("or(and(a=1,b=2),c=3)".to_string()));
}

#[test]
fn chains_lean_to_the_left() {
    assert_eq!(parsed("a = 1 AND b = 2 AND c = 3"), Ok("and(and(a=1,b=2),c=3)".to_string()));
    assert_eq!(parsed("a = 1 OR b = 2 OR c = 3"), Ok("or(or(a=1,b=2),c=3)".to_string()));
}

#[test]
fn parentheses_override_precedence() {
    assert_eq!(
        parsed("( a = 1 OR b = 2 ) AND c = 3"),
        Ok("and(group(or(a=1,b=2)),c=3)".to_string())
    );
    assert_eq!(parsed("( ( a = 1 ) )"), Ok("group(group(a=1))".to_string()));
    assert_eq!(
        parsed("a = 1 AND ( b = 2 OR ( c = 3 AND d = 4 ) )"),
        Ok("and(a=1,group(or(b=2,group(and(c=3,d=4)))))".to_string())
    );
}

#[test]
fn each_parse_error() {
    assert_eq!(parsed(""), Err(ParseError::UnexpectedEnd));
    assert_eq!(parsed("a = 1 AND"), Err(ParseError::UnexpectedEnd));
    assert_eq!(parsed("( a = 1"), Err(ParseError::MissingClosingParen));
    assert_eq!(parsed("( a = 1 b"), Err(ParseError::MissingClosingParen));
    assert_eq!(parsed("a"), Err(ParseError::MissingOperator));
    assert_eq!(parsed("a is 1"), Err(ParseError::MissingOperator));
    assert_eq!(parsed("a contains 1"), Err(ParseError::MissingOperator));
    assert_eq!(parsed("a ="), Err(ParseError::MissingValue));
    assert_eq!(parsed("a = 1 b = 2"), Err(ParseError::TrailingTokens));
    assert_eq!(parsed("a = 1 )"), Err(ParseError::TrailingTokens));
    assert_eq!(parsed("("), Err(ParseError::UnexpectedEnd));
    let mut i = 0;
    assert_eq!(parse_condition(&[], &mut i).err(), Some(ParseError::MissingField));
}

#[test]
fn positions_move_only_on_success() {
    let tokens = tokenize("a = 1 AND b = 2 OR");
    let mut i = 0;
    let (e, j) = parse_term(&tokens, &mut i).unwrap();
    assert_eq!((show(&e), j, i), ("a=1".to_string(), 3, 3));
    let mut i = 0;
    let (e, j) = parse_and(&tokens, &mut i).unwrap();
    assert_eq!((show(&e), j, i), ("and(a=1,b=2)".to_string(), 7, 7));
    let mut i = 0;
    assert_eq!(parse_or(&tokens, &mut i).err(), Some(ParseError::UnexpectedEnd));
    assert_eq!(i, 0);
    let mut i = 4;
    let (e, j) = parse_or(&tokens[..7], &mut i).unwrap();
    assert_eq!((show(&e), j), ("b=2".to_string(), 7));
    let mut i = 9;
    assert_eq!(parse_term(&tokens, &mut i).err(), Some(ParseError::UnexpectedEnd));
    assert_eq!(i, 9);
}

#[test]
fn error_messages() {
    assert_eq!(ParseError::MissingClosingParen.message(), "Falta el paréntesis de cierre");
    assert_eq!(ParseError::MissingField.message(), "Falta el campo en la condición");
    assert_eq!(ParseError::UnexpectedEnd.message(), "Expresión inesperada al analizar la consulta");
}

#[test]
fn lines_are_read_as_commands() {
    assert!(matches!(parse_command("LIST"), Command::List));
    assert!(matches!(parse_command("  list extra words "), Command::List));
    assert!(matches!(parse_command("EXIT"), Command::Exit));
    assert!(matches!(parse_command("DELETE ALL"), Command::DeleteAll));
    assert!(matches!(parse_command("delete ALL"), Command::DeleteAll));
    assert!(matches!(parse_command("nonsense"), Command::Unknown));
    assert!(matches!(parse_command("GET"), Command::Usage(Usage::Get)));
    assert!(matches!(parse_command("QUERY"), Command::Usage(Usage::Query)));
    match parse_command("DELETE all") {
        Command::Delete { key } => assert_eq!(key, "all"),
        other => panic!("read as {:?}", other),
    }
    match parse_command("get  k 1") {
        Command::Get { key } => assert_eq!(key, " k 1"),
        other => panic!("read as {:?}", other),
    }
    match parse_command("Insert   k1    {\"a\": 1}  ") {
        Command::Insert { key, json } => {
            assert_eq!(key, "k1");
            assert_eq!(json, "   {\"a\": 1}");
        },
        other => panic!("read as {:?}", other),
    }
    match parse_command("insert_or_update k [1, 2]") {
        Command::InsertOrUpdate { key, json } => {
            assert_eq!(key, "k");
            assert_eq!(json, "[1, 2]");
        },
        other => panic!("read as {:?}", other),
    }
    match parse_command("QUERY   age > 5  ") {
        Command::Query { expr } => assert_eq!(expr, "age > 5"),
        other => panic!("read as {:?}", other),
    }
    match parse_command("DELETE_MANY [\"a\"]") {
        Command::DeleteMany { json } => assert_eq!(json, "[\"a\"]"),
        other => panic!("read as {:?}", other),
    }
    match parse_command("INSERT_OR_UPDATE_MANY [[\"a\", 1]]") {
        Command::InsertOrUpdateMany { json } => assert_eq!(json, "[[\"a\", 1]]"),
        other => panic!("read as {:?}", other),
    }
}
