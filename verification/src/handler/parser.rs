//! The predicate language of queries: a tokenizer and a recursive-descent
//! parser.
//!
//! ```text
//! expr := or
//! or   := and ( "OR" and )*
//! and  := term ( "AND" term )*
//! term := "(" expr ")" | cond
//! cond := FIELD OP VALUE
//! OP   := "=" | "!=" | ">" | ">=" | "<" | "<=" | "CONTAINS"
//! ```
//!
//! Tokens are separated by whitespace. A double-quoted run is one token,
//! quotes stripped. A bare token whose upper-case form is `AND`, `OR`, `(`
//! or `)` becomes that keyword; the parser knows the keywords by these
//! upper-case spellings.

use crate::text::{
    chars_of, find_char, find_char_from, find_space, find_space_from, white_space, lemma_find_char,
    lemma_find_space, str_eq, string_of, uppercase, views,
};
use vstd::prelude::*;

verus! {

/// One comparison of a field with a literal.
#[derive(Debug)]
pub struct Condition {
    pub field: String,
    pub operator: String,
    pub value: String,
}

/// A parsed predicate.
#[derive(Debug)]
pub enum Expr {
    Condition(Condition),
    And(Box<Expr>, Box<Expr>),
    Or(Box<Expr>, Box<Expr>),
    Group(Box<Expr>),
}

/// What a [`Condition`] says, as texts.
pub struct ConditionView {
    pub field: Seq<char>,
    pub operator: Seq<char>,
    pub value: Seq<char>,
}

/// What an [`Expr`] says, as a tree over texts.
pub enum ExprView {
    Condition(ConditionView),
    And(Box<ExprView>, Box<ExprView>),
    Or(Box<ExprView>, Box<ExprView>),
    Group(Box<ExprView>),
}

impl View for Condition {
    type V = ConditionView;

    open spec fn view(&self) -> ConditionView {
        ConditionView { field: self.field@, operator: self.operator@, value: self.value@ }
    }
}

impl Expr {
    /// The tree of texts that this expression holds.
    pub open spec fn model(self) -> ExprView
        decreases self,
    {
        match self {
            Expr::Condition(c) => ExprView::Condition(c@),
            Expr::And(l, r) => ExprView::And(Box::new((*l).model()), Box::new((*r).model())),
            Expr::Or(l, r) => ExprView::Or(Box::new((*l).model()), Box::new((*r).model())),
            Expr::Group(e) => ExprView::Group(Box::new((*e).model())),
        }
    }
}

impl View for Expr {
    type V = ExprView;

    open spec fn view(&self) -> ExprView {
        self.model()
    }
}

/// Why a token sequence is no predicate.
#[derive(Debug, Clone, Copy, PartialEq, Eq, Structural)]
pub enum ParseError {
    /// A term was expected where the tokens end.
    UnexpectedEnd,
    /// A group was opened and not closed.
    MissingClosingParen,
    /// A condition was expected where the tokens end.
    MissingField,
    /// The token after a field is none of the operators.
    MissingOperator,
    /// The tokens end after an operator.
    MissingValue,
    /// A predicate was read and tokens are left over.
    TrailingTokens,
}

impl ParseError {
    /// The message sent to a client.
    pub fn message(&self) -> (r: &'static str)
        ensures
            r@ == self.message_spec(),
    {
        match self {
            ParseError::UnexpectedEnd => "Expresión inesperada al analizar la consulta",
            ParseError::MissingClosingParen => "Falta el paréntesis de cierre",
            ParseError::MissingField => "Falta el campo en la condición",
            ParseError::MissingOperator => "Falta el operador en la condición",
            ParseError::MissingValue => "Falta el valor en la condición",
            ParseError::TrailingTokens => "Sobran tokens al final de la consulta",
        }
    }

    pub open spec fn message_spec(&self) -> Seq<char> {
        match self {
            ParseError::UnexpectedEnd => "Expresión inesperada al analizar la consulta"@,
            ParseError::MissingClosingParen => "Falta el paréntesis de cierre"@,
            ParseError::MissingField => "Falta el campo en la condición"@,
            ParseError::MissingOperator => "Falta el operador en la condición"@,
            ParseError::MissingValue => "Falta el valor en la condición"@,
            ParseError::TrailingTokens => "Sobran tokens al final de la consulta"@,
        }
    }
}

/// A keyword of the language, in upper case.
pub open spec fn is_keyword(upper: Seq<char>) -> bool {
    upper == "AND"@ || upper == "OR"@ || upper == "("@ || upper == ")"@
}

/// What a bare token stands for: the keyword it spells, or itself.
pub open spec fn keyword_or_word(token: Seq<char>) -> Seq<char> {
    if is_keyword(uppercase(token)) {
        uppercase(token)
    } else {
        token
    }
}

/// The tokens of `s` from position `i` on.
pub open spec fn scan(s: Seq<char>, i: int) -> Seq<Seq<char>>
    decreases s.len() - i,
{
    if i < 0 || i >= s.len() {
        Seq::empty()
    } else if white_space(s[i]) {
        scan(s, i + 1)
    } else if s[i] == '"' {
        let close = find_char(s, '"', i + 1);
        proof {
            lemma_find_char(s, '"', i + 1);
        }
        seq![s.subrange(i + 1, close)] + scan(s, if close < s.len() {
            close + 1
        } else {
            close
        })
    } else {
        let end = find_space(s, i);
        proof {
            lemma_find_space(s, i + 1);
            assert(find_space(s, i) == find_space(s, i + 1));
        }
        seq![keyword_or_word(s.subrange(i, end))] + scan(s, end)
    }
}

/// Picks the keyword or the word, given a bare token and its upper-case form.
pub fn classify(token: String, upper: String) -> (r: String)
    ensures
        r@ == (if is_keyword(upper@) {
            upper@
        } else {
            token@
        }),
{
    if str_eq(upper.as_str(), "AND") || str_eq(upper.as_str(), "OR") || str_eq(upper.as_str(), "(")
        || str_eq(upper.as_str(), ")") {
        upper
    } else {
        token
    }
}

/// Splits a query text into tokens.
pub fn tokenize(s: &str) -> (tokens: Vec<String>)
    ensures
        views(tokens@) == scan(s@, 0),
{
    let chars = chars_of(s);
    let mut tokens: Vec<String> = Vec::new();
    let mut i: usize = 0;
    assert(views(tokens@) + scan(chars@, 0) =~= scan(chars@, 0));
    while i < chars.len()
        invariant
            i <= chars.len(),
            chars@ == s@,
            views(tokens@) + scan(chars@, i as int) == scan(chars@, 0),
        decreases chars.len() - i,
    {
        let c = chars[i];
        let ghost before = views(tokens@);
        if c.is_whitespace() {
            i = i + 1;
        } else if c == '"' {
            let close = find_char_from(&chars, '"', i + 1);
            let token = string_of(&chars, i + 1, close);
            tokens.push(token);
            assert(views(tokens@) =~= before + seq![chars@.subrange(i + 1, close as int)]);
            if close < chars.len() {
                i = close + 1;
            } else {
                i = close;
            }
        } else {
            proof {
                lemma_find_space(chars@, i + 1);
            }
            let end = find_space_from(&chars, i);
            let word = string_of(&chars, i, end);
            let upper = word.as_str().to_uppercase();
            let token = classify(word, upper);
            tokens.push(token);
            assert(views(tokens@) =~= before + seq![
                keyword_or_word(chars@.subrange(i as int, end as int)),
            ]);
            i = end;
        }
    }
    assert(views(tokens@) + scan(chars@, i as int) =~= views(tokens@));
    tokens
}

/// One of the comparison operators of the language.
pub open spec fn is_operator(t: Seq<char>) -> bool {
    t == "="@ || t == "!="@ || t == ">"@ || t == ">="@ || t == "<"@ || t == "<="@ || t
        == "CONTAINS"@
}

/// The token at `i` is the keyword `AND`.
pub open spec fn is_and(t: Seq<Seq<char>>, i: int) -> bool {
    0 <= i < t.len() && t[i] == "AND"@
}

/// The token at `i` is the keyword `OR`.
pub open spec fn is_or(t: Seq<Seq<char>>, i: int) -> bool {
    0 <= i < t.len() && t[i] == "OR"@
}

/// `cond := FIELD OP VALUE` at position `i`: the condition and the position
/// after it.
pub open spec fn parse_condition_spec(t: Seq<Seq<char>>, i: int) -> Result<
    (ConditionView, int),
    ParseError,
> {
    if i < 0 || i >= t.len() {
        Err(ParseError::MissingField)
    } else if i + 1 >= t.len() || !is_operator(t[i + 1]) {
        Err(ParseError::MissingOperator)
    } else if i + 2 >= t.len() {
        Err(ParseError::MissingValue)
    } else {
        Ok((ConditionView { field: t[i], operator: t[i + 1], value: t[i + 2] }, i + 3))
    }
}

/// `term := "(" expr ")" | cond` at position `i`.
pub open spec fn parse_term_spec(t: Seq<Seq<char>>, i: int) -> Result<(ExprView, int), ParseError>
    decreases t.len() - i, 0nat,
{
    if i < 0 || i >= t.len() {
        Err(ParseError::UnexpectedEnd)
    } else if t[i] == "("@ {
        match parse_or_spec(t, i + 1) {
            Ok((e, j)) => if 0 <= j < t.len() && t[j] == ")"@ {
                Ok((ExprView::Group(Box::new(e)), j + 1))
            } else {
                Err(ParseError::MissingClosingParen)
            },
            Err(err) => Err(err),
        }
    } else {
        match parse_condition_spec(t, i) {
            Ok((c, j)) => Ok((ExprView::Condition(c), j)),
            Err(err) => Err(err),
        }
    }
}

/// `( "AND" term )*` at position `j`, joined to `left` from the left.
///
/// The test `j < k <= t.len()` only serves the termination argument: a term
/// always ends after its start ([`lemma_parse_advances`]).
pub open spec fn and_tail_spec(t: Seq<Seq<char>>, left: ExprView, j: int) -> Result<
    (ExprView, int),
    ParseError,
>
    decreases t.len() - j, 0nat,
{
    if is_and(t, j) {
        match parse_term_spec(t, j + 1) {
            Ok((right, k)) => if j < k <= t.len() {
                and_tail_spec(t, ExprView::And(Box::new(left), Box::new(right)), k)
            } else {
                Err(ParseError::UnexpectedEnd)
            },
            Err(err) => Err(err),
        }
    } else {
        Ok((left, j))
    }
}

/// `and := term ( "AND" term )*` at position `i`.
pub open spec fn parse_and_spec(t: Seq<Seq<char>>, i: int) -> Result<(ExprView, int), ParseError>
    decreases t.len() - i, 1nat,
{
    match parse_term_spec(t, i) {
        Ok((left, j)) => if i < j <= t.len() {
            and_tail_spec(t, left, j)
        } else {
            Err(ParseError::UnexpectedEnd)
        },
        Err(err) => Err(err),
    }
}

/// `( "OR" and )*` at position `j`, joined to `left` from the left.
pub open spec fn or_tail_spec(t: Seq<Seq<char>>, left: ExprView, j: int) -> Result<
    (ExprView, int),
    ParseError,
>
    decreases t.len() - j, 0nat,
{
    if is_or(t, j) {
        match parse_and_spec(t, j + 1) {
            Ok((right, k)) => if j < k <= t.len() {
                or_tail_spec(t, ExprView::Or(Box::new(left), Box::new(right)), k)
            } else {
                Err(ParseError::UnexpectedEnd)
            },
            Err(err) => Err(err),
        }
    } else {
        Ok((left, j))
    }
}

/// `or := and ( "OR" and )*` at position `i`.
pub open spec fn parse_or_spec(t: Seq<Seq<char>>, i: int) -> Result<(ExprView, int), ParseError>
    decreases t.len() - i, 2nat,
{
    match parse_and_spec(t, i) {
        Ok((left, j)) => if i < j <= t.len() {
            or_tail_spec(t, left, j)
        } else {
            Err(ParseError::UnexpectedEnd)
        },
        Err(err) => Err(err),
    }
}

/// A whole token sequence read as one predicate.
pub open spec fn parse_expression_spec(t: Seq<Seq<char>>) -> Result<ExprView, ParseError> {
    match parse_or_spec(t, 0) {
        Ok((e, j)) => if j == t.len() {
            Ok(e)
        } else {
            Err(ParseError::TrailingTokens)
        },
        Err(err) => Err(err),
    }
}

/// Whatever is read, more tokens are consumed than none and no more than
/// there are. Proved for terms, and-chains and or-chains together.
pub proof fn lemma_parse_advances(t: Seq<Seq<char>>, i: int, level: nat)
    ensures
        level == 0 ==> (parse_term_spec(t, i) matches Ok((_, j)) ==> i < j <= t.len()),
        level == 1 ==> (parse_and_spec(t, i) matches Ok((_, j)) ==> i < j <= t.len()),
        level >= 2 ==> (parse_or_spec(t, i) matches Ok((_, j)) ==> i < j <= t.len()),
    decreases t.len() - i, level,
{
    if level == 0 {
        if 0 <= i < t.len() && t[i] == "("@ {
            lemma_parse_advances(t, i + 1, 2);
        }
    } else if level == 1 {
        lemma_parse_advances(t, i, 0);
        if let Ok((left, j)) = parse_term_spec(t, i) {
            lemma_and_tail_advances(t, left, j);
        }
    } else {
        lemma_parse_advances(t, i, 1);
        if let Ok((left, j)) = parse_and_spec(t, i) {
            lemma_or_tail_advances(t, left, j);
        }
    }
}

pub proof fn lemma_and_tail_advances(t: Seq<Seq<char>>, left: ExprView, j: int)
    requires
        0 <= j <= t.len(),
    ensures
        and_tail_spec(t, left, j) matches Ok((_, k)) ==> j <= k <= t.len(),
    decreases t.len() - j,
{
    if is_and(t, j) {
        if let Ok((right, k)) = parse_term_spec(t, j + 1) {
            if j < k <= t.len() {
                lemma_and_tail_advances(t, ExprView::And(Box::new(left), Box::new(right)), k);
            }
        }
    }
}

pub proof fn lemma_or_tail_advances(t: Seq<Seq<char>>, left: ExprView, j: int)
    requires
        0 <= j <= t.len(),
    ensures
        or_tail_spec(t, left, j) matches Ok((_, k)) ==> j <= k <= t.len(),
    decreases t.len() - j,
{
    if is_or(t, j) {
        if let Ok((right, k)) = parse_and_spec(t, j + 1) {
            if j < k <= t.len() {
                lemma_or_tail_advances(t, ExprView::Or(Box::new(left), Box::new(right)), k);
            }
        }
    }
}

/// What it means for a parser's result to be the one the grammar gives.
pub open spec fn parsed_as(
    r: Result<(Expr, usize), ParseError>,
    s: Result<(ExprView, int), ParseError>,
) -> bool {
    match r {
        Ok((e, j)) => s == Ok::<(ExprView, int), ParseError>((e@, j as int)),
        Err(err) => s == Err::<(ExprView, int), ParseError>(err),
    }
}

/// Whether `token` is one of the comparison operators.
pub fn operator_known(token: &str) -> (r: bool)
    ensures
        r == is_operator(token@),
{
    str_eq(token, "=") || str_eq(token, "!=") || str_eq(token, ">") || str_eq(token, ">=")
        || str_eq(token, "<") || str_eq(token, "<=") || str_eq(token, "CONTAINS")
}

/// Whether the token at `i` is exactly `word`.
fn token_at(tokens: &[String], i: usize, word: &str) -> (r: bool)
    ensures
        r == (i < tokens.len() && views(tokens@)[i as int] == word@),
{
    if i < tokens.len() {
        str_eq(tokens[i].as_str(), word)
    } else {
        false
    }
}

/// Reads one condition at `*i` and moves `*i` behind it. On an error `*i`
/// stays where it was.
pub fn parse_condition(tokens: &[String], i: &mut usize) -> (r: Result<Condition, ParseError>)
    ensures
        match r {
            Ok(c) => parse_condition_spec(views(tokens@), *old(i) as int) == Ok::<
                (ConditionView, int),
                ParseError,
            >((c@, *final(i) as int)),
            Err(err) => parse_condition_spec(views(tokens@), *old(i) as int) == Err::<
                (ConditionView, int),
                ParseError,
            >(err) && *final(i) == *old(i),
        },
{
    let at: usize = *i;
    if at >= tokens.len() {
        return Err(ParseError::MissingField);
    }
    if tokens.len() - at < 2 || !operator_known(tokens[at + 1].as_str()) {
        return Err(ParseError::MissingOperator);
    }
    if tokens.len() - at < 3 {
        return Err(ParseError::MissingValue);
    }
    let c = Condition {
        field: tokens[at].clone(),
        operator: tokens[at + 1].clone(),
        value: tokens[at + 2].clone(),
    };
    *i = at + 3;
    Ok(c)
}

/// Reads one term at `*i`.
pub fn parse_term(tokens: &[String], i: &mut usize) -> (r: Result<(Expr, usize), ParseError>)
    ensures
        parsed_as(r, parse_term_spec(views(tokens@), *old(i) as int)),
        match r {
            Ok((_, j)) => *final(i) == j,
            Err(_) => *final(i) == *old(i),
        },
    decreases tokens.len() - *old(i), 0nat,
{
    let start: usize = *i;
    if start >= tokens.len() {
        return Err(ParseError::UnexpectedEnd);
    }
    if token_at(tokens, start, "(") {
        *i = start + 1;
        match parse_or(tokens, i) {
            Ok((inner, _)) => {
                if token_at(tokens, *i, ")") {
                    *i = *i + 1;
                    Ok((Expr::Group(Box::new(inner)), *i))
                } else {
                    *i = start;
                    Err(ParseError::MissingClosingParen)
                }
            },
            Err(err) => {
                *i = start;
                Err(err)
            },
        }
    } else {
        match parse_condition(tokens, i) {
            Ok(c) => Ok((Expr::Condition(c), *i)),
            Err(err) => Err(err),
        }
    }
}

/// Reads a chain of terms joined by `AND` at `*i`.
pub fn parse_and(tokens: &[String], i: &mut usize) -> (r: Result<(Expr, usize), ParseError>)
    ensures
        parsed_as(r, parse_and_spec(views(tokens@), *old(i) as int)),
        match r {
            Ok((_, j)) => *final(i) == j,
            Err(_) => *final(i) == *old(i),
        },
    decreases tokens.len() - *old(i), 1nat,
{
    let ghost t = views(tokens@);
    let start: usize = *i;
    let mut left: Expr = match parse_term(tokens, i) {
        Ok((e, _)) => e,
        Err(err) => {
            return Err(err);
        },
    };
    proof {
        lemma_parse_advances(t, start as int, 0);
    }
    while token_at(tokens, *i, "AND")
        invariant
            start == *old(i),
            start < *i <= tokens.len(),
            t == views(tokens@),
            and_tail_spec(t, left@, *i as int) == parse_and_spec(t, start as int),
        decreases tokens.len() - *i,
    {
        let at: usize = *i;
        *i = at + 1;
        match parse_term(tokens, i) {
            Ok((right, _)) => {
                proof {
                    lemma_parse_advances(t, at + 1, 0);
                }
                left = Expr::And(Box::new(left), Box::new(right));
            },
            Err(err) => {
                *i = start;
                return Err(err);
            },
        }
    }
    Ok((left, *i))
}

/// Reads a chain of and-chains joined by `OR` at `*i`.
pub fn parse_or(tokens: &[String], i: &mut usize) -> (r: Result<(Expr, usize), ParseError>)
    ensures
        parsed_as(r, parse_or_spec(views(tokens@), *old(i) as int)),
        match r {
            Ok((_, j)) => *final(i) == j,
            Err(_) => *final(i) == *old(i),
        },
    decreases tokens.len() - *old(i), 2nat,
{
    let ghost t = views(tokens@);
    let start: usize = *i;
    let mut left: Expr = match parse_and(tokens, i) {
        Ok((e, _)) => e,
        Err(err) => {
            return Err(err);
        },
    };
    proof {
        lemma_parse_advances(t, start as int, 1);
    }
    while token_at(tokens, *i, "OR")
        invariant
            start == *old(i),
            start < *i <= tokens.len(),
            t == views(tokens@),
            or_tail_spec(t, left@, *i as int) == parse_or_spec(t, start as int),
        decreases tokens.len() - *i,
    {
        let at: usize = *i;
        *i = at + 1;
        match parse_and(tokens, i) {
            Ok((right, _)) => {
                proof {
                    lemma_parse_advances(t, at + 1, 1);
                }
                left = Expr::Or(Box::new(left), Box::new(right));
            },
            Err(err) => {
                *i = start;
                return Err(err);
            },
        }
    }
    Ok((left, *i))
}

/// Reads a whole token sequence as one predicate. The position handed back
/// is the number of tokens.
pub fn parse_expression(tokens: &[String]) -> (r: Result<(Expr, usize), ParseError>)
    ensures
        match r {
            Ok((e, j)) => parse_expression_spec(views(tokens@)) == Ok::<ExprView, ParseError>(e@)
                && j == tokens.len(),
            Err(err) => parse_expression_spec(views(tokens@)) == Err::<ExprView, ParseError>(err),
        },
{
    let mut i: usize = 0;
    match parse_or(tokens, &mut i) {
        Ok((e, j)) => {
            if j == tokens.len() {
                Ok((e, j))
            } else {
                Err(ParseError::TrailingTokens)
            }
        },
        Err(err) => Err(err),
    }
}

} // verus!
