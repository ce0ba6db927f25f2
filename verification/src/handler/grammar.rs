//! The grammar of predicates, stated on its own, and the proof that the
//! parser reads exactly what the grammar writes.
//!
//! An expression is spelled as a token sequence ([`spelled`]). The parser
//! gives back an expression for a token sequence if and only if the
//! sequence is the spelling of an expression in the shape that the grammar
//! allows ([`is_or_chain`]), and then it gives back that expression.

use crate::handler::parser::{
    and_tail_spec, is_and, is_operator, is_or, or_tail_spec, parse_and_spec, parse_condition_spec,
    parse_expression_spec, parse_or_spec, parse_term_spec, ConditionView, ExprView, ParseError,
};
use vstd::prelude::*;

verus! {

/// The tokens that spell an expression.
pub open spec fn spelled(e: ExprView) -> Seq<Seq<char>>
    decreases e,
{
    match e {
        ExprView::Condition(c) => seq![c.field, c.operator, c.value],
        ExprView::And(l, r) => spelled(*l) + seq!["AND"@] + spelled(*r),
        ExprView::Or(l, r) => spelled(*l) + seq!["OR"@] + spelled(*r),
        ExprView::Group(inner) => seq!["("@] + spelled(*inner) + seq![")"@],
    }
}

/// A condition that the grammar allows: its operator is one of the
/// language, and its field is not an opening parenthesis.
pub open spec fn condition_ok(c: ConditionView) -> bool {
    c.field != "("@ && is_operator(c.operator)
}

/// `term := "(" expr ")" | cond`.
pub open spec fn is_term(e: ExprView) -> bool
    decreases e, 0nat,
{
    match e {
        ExprView::Condition(c) => condition_ok(c),
        ExprView::Group(inner) => is_or_chain(*inner),
        _ => false,
    }
}

/// `and := term ( "AND" term )*`, leaning to the left.
pub open spec fn is_and_chain(e: ExprView) -> bool
    decreases e, 1nat,
{
    match e {
        ExprView::And(l, r) => is_and_chain(*l) && is_term(*r),
        _ => is_term(e),
    }
}

/// `or := and ( "OR" and )*`, leaning to the left.
pub open spec fn is_or_chain(e: ExprView) -> bool
    decreases e, 2nat,
{
    match e {
        ExprView::Or(l, r) => is_or_chain(*l) && is_and_chain(*r),
        _ => is_and_chain(e),
    }
}

/// The tokens of `t` from `i` on start with the spelling of `e`.
pub open spec fn spells_at(t: Seq<Seq<char>>, i: int, e: ExprView) -> bool {
    0 <= i && i + spelled(e).len() <= t.len() && t.subrange(i, i + spelled(e).len()) == spelled(e)
}

/// The keywords and parentheses are pairwise different tokens.
pub proof fn lemma_keywords_differ()
    ensures
        "AND"@ != "OR"@,
        "AND"@ != "("@,
        "AND"@ != ")"@,
        "OR"@ != "("@,
        "OR"@ != ")"@,
        "("@ != ")"@,
{
    reveal_strlit("AND");
    reveal_strlit("OR");
    reveal_strlit("(");
    reveal_strlit(")");
    assert("AND"@.len() == 3 && "OR"@.len() == 2 && "("@.len() == 1 && ")"@.len() == 1);
    assert("("@[0] == '(' && ")"@[0] == ')');
}

/// A spelling has at least three tokens.
pub proof fn lemma_spelled_len(e: ExprView)
    ensures
        spelled(e).len() >= 3,
    decreases e,
{
    match e {
        ExprView::Condition(c) => {},
        ExprView::And(l, r) => {
            lemma_spelled_len(*l);
        },
        ExprView::Or(l, r) => {
            lemma_spelled_len(*l);
        },
        ExprView::Group(inner) => {
            lemma_spelled_len(*inner);
        },
    }
}

/// A term is an and-chain of one, an and-chain an or-chain of one.
pub proof fn lemma_chain_levels(e: ExprView)
    ensures
        is_term(e) ==> is_and_chain(e),
        is_and_chain(e) ==> is_or_chain(e),
{
    match e {
        ExprView::Condition(c) => {
            assert(is_and_chain(e) == is_term(e));
            assert(is_or_chain(e) == is_and_chain(e));
        },
        ExprView::And(l, r) => {
            assert(!is_term(e));
            assert(is_or_chain(e) == is_and_chain(e));
        },
        ExprView::Or(l, r) => {
            assert(!is_term(e));
            assert(is_and_chain(e) == is_term(e));
        },
        ExprView::Group(inner) => {
            assert(is_and_chain(e) == is_term(e));
            assert(is_or_chain(e) == is_and_chain(e));
        },
    }
}

/// A stretch of a stretch of `t` is a stretch of `t`.
proof fn lemma_part(
    t: Seq<Seq<char>>,
    i: int,
    whole: Seq<Seq<char>>,
    off: int,
    part: Seq<Seq<char>>,
)
    requires
        0 <= i,
        i + whole.len() <= t.len(),
        t.subrange(i, i + whole.len()) == whole,
        0 <= off,
        off + part.len() <= whole.len(),
        whole.subrange(off, off + part.len()) == part,
    ensures
        t.subrange(i + off, i + off + part.len()) == part,
        forall|x: int| 0 <= x < whole.len() ==> t[i + x] == #[trigger] whole[x],
{
    assert forall|x: int| 0 <= x < whole.len() implies t[i + x] == #[trigger] whole[x] by {
        assert(t.subrange(i, i + whole.len())[x] == t[i + x]);
    }
    assert(t.subrange(i + off, i + off + part.len()) =~= part) by {
        assert forall|x: int| 0 <= x < part.len() implies t.subrange(
            i + off,
            i + off + part.len(),
        )[x] == part[x] by {
            assert(whole.subrange(off, off + part.len())[x] == whole[off + x]);
        }
    }
}

/// The parser reads what the grammar writes. Where the tokens from `i` on
/// start with the spelling of a term, the parser reads that term there;
/// for an and-chain it reads the chain and stands where more `AND` may
/// follow; for an or-chain that no `AND` follows, likewise with `OR`.
pub proof fn lemma_reads_spelling(t: Seq<Seq<char>>, i: int, e: ExprView, level: nat)
    requires
        spells_at(t, i, e),
        level <= 2,
        level == 0 ==> is_term(e),
        level == 1 ==> is_and_chain(e),
        level == 2 ==> is_or_chain(e) && !is_and(t, i + spelled(e).len()),
    ensures
        level == 0 ==> parse_term_spec(t, i) == Ok::<(ExprView, int), ParseError>(
            (e, i + spelled(e).len()),
        ),
        level == 1 ==> parse_and_spec(t, i) == and_tail_spec(t, e, i + spelled(e).len()),
        level == 2 ==> parse_or_spec(t, i) == or_tail_spec(t, e, i + spelled(e).len()),
    decreases e, level,
{
    lemma_keywords_differ();
    lemma_spelled_len(e);
    let n = spelled(e).len() as int;
    if level == 0 {
        match e {
            ExprView::Condition(c) => {
                assert(spelled(e).subrange(0, n) =~= spelled(e));
                lemma_part(t, i, spelled(e), 0, spelled(e));
                assert(t[i] == spelled(e)[0] && t[i + 1] == spelled(e)[1] && t[i + 2] == spelled(
                    e,
                )[2]);
                assert(parse_condition_spec(t, i) == Ok::<(ConditionView, int), ParseError>(
                    (c, i + 3),
                ));
            },
            ExprView::Group(inner) => {
                let m = spelled(*inner).len() as int;
                lemma_spelled_len(*inner);
                assert(spelled(e).subrange(1, 1 + m) =~= spelled(*inner));
                lemma_part(t, i, spelled(e), 1, spelled(*inner));
                assert(t[i] == spelled(e)[0]);
                assert(t[i + 1 + m] == spelled(e)[1 + m]);
                assert(t[i + 1 + m] == ")"@);
                lemma_reads_spelling(t, i + 1, *inner, 2);
            },
            _ => {},
        }
    } else if level == 1 {
        match e {
            ExprView::And(l, r) => {
                let a = spelled(*l).len() as int;
                let b = spelled(*r).len() as int;
                lemma_spelled_len(*l);
                lemma_spelled_len(*r);
                assert(spelled(e).subrange(0, a) =~= spelled(*l));
                assert(spelled(e).subrange(a + 1, a + 1 + b) =~= spelled(*r));
                lemma_part(t, i, spelled(e), 0, spelled(*l));
                lemma_part(t, i, spelled(e), a + 1, spelled(*r));
                assert(t[i + a] == spelled(e)[a]);
                lemma_reads_spelling(t, i, *l, 1);
                lemma_reads_spelling(t, i + a + 1, *r, 0);
                assert(is_and(t, i + a));
            },
            _ => {
                lemma_reads_spelling(t, i, e, 0);
            },
        }
    } else {
        match e {
            ExprView::Or(l, r) => {
                let a = spelled(*l).len() as int;
                let b = spelled(*r).len() as int;
                lemma_spelled_len(*l);
                lemma_spelled_len(*r);
                assert(spelled(e).subrange(0, a) =~= spelled(*l));
                assert(spelled(e).subrange(a + 1, a + 1 + b) =~= spelled(*r));
                lemma_part(t, i, spelled(e), 0, spelled(*l));
                lemma_part(t, i, spelled(e), a + 1, spelled(*r));
                assert(t[i + a] == spelled(e)[a]);
                assert(is_or(t, i + a) && !is_and(t, i + a));
                lemma_reads_spelling(t, i, *l, 2);
                lemma_reads_spelling(t, i + a + 1, *r, 1);
            },
            _ => {
                lemma_reads_spelling(t, i, e, 1);
            },
        }
    }
}

/// Every expression that the grammar allows is read back from its
/// spelling.
pub proof fn lemma_parses_spelling(e: ExprView)
    requires
        is_or_chain(e),
    ensures
        parse_expression_spec(spelled(e)) == Ok::<ExprView, ParseError>(e),
{
    let t = spelled(e);
    assert(t.subrange(0, t.len() as int) =~= t);
    lemma_reads_spelling(t, 0, e, 2);
}

/// What the parser reads at `i` is allowed by the grammar and is spelled
/// by the tokens that the parser passed over.
pub proof fn lemma_read_is_spelled(t: Seq<Seq<char>>, i: int, level: nat)
    requires
        level <= 2,
    ensures
        level == 0 ==> (parse_term_spec(t, i) matches Ok((e, j)) ==> is_term(e) && 0 <= i <= j
            <= t.len() && t.subrange(i, j) == spelled(e)),
        level == 1 ==> (parse_and_spec(t, i) matches Ok((e, j)) ==> is_and_chain(e) && 0 <= i <= j
            <= t.len() && t.subrange(i, j) == spelled(e)),
        level == 2 ==> (parse_or_spec(t, i) matches Ok((e, j)) ==> is_or_chain(e) && 0 <= i <= j
            <= t.len() && t.subrange(i, j) == spelled(e)),
    decreases t.len() - i, level + 1,
{
    if level == 0 {
        if 0 <= i < t.len() {
            if t[i] == "("@ {
                lemma_read_is_spelled(t, i + 1, 2);
                if let Ok((inner, j)) = parse_or_spec(t, i + 1) {
                    if 0 <= j < t.len() && t[j] == ")"@ {
                        assert(t.subrange(i, j + 1) =~= seq!["("@] + t.subrange(i + 1, j) + seq![
                            ")"@,
                        ]);
                    }
                }
            } else {
                if let Ok((c, j)) = parse_condition_spec(t, i) {
                    assert(t.subrange(i, j) =~= seq![c.field, c.operator, c.value]);
                }
            }
        }
    } else if level == 1 {
        lemma_read_is_spelled(t, i, 0);
        if let Ok((left, j)) = parse_term_spec(t, i) {
            if i < j <= t.len() {
                lemma_chain_levels(left);
                lemma_and_tail_is_spelled(t, left, i, j);
            }
        }
    } else {
        lemma_read_is_spelled(t, i, 1);
        if let Ok((left, j)) = parse_and_spec(t, i) {
            if i < j <= t.len() {
                lemma_chain_levels(left);
                lemma_or_tail_is_spelled(t, left, i, j);
            }
        }
    }
}

/// [`lemma_read_is_spelled`] for what follows an and-chain.
pub proof fn lemma_and_tail_is_spelled(t: Seq<Seq<char>>, left: ExprView, start: int, j: int)
    requires
        is_and_chain(left),
        0 <= start <= j <= t.len(),
        t.subrange(start, j) == spelled(left),
    ensures
        and_tail_spec(t, left, j) matches Ok((e, k)) ==> is_and_chain(e) && j <= k <= t.len()
            && t.subrange(start, k) == spelled(e),
    decreases t.len() - j, 0nat,
{
    if is_and(t, j) {
        lemma_read_is_spelled(t, j + 1, 0);
        if let Ok((right, k)) = parse_term_spec(t, j + 1) {
            if j < k <= t.len() {
                let joined = ExprView::And(Box::new(left), Box::new(right));
                assert(t.subrange(start, k) =~= t.subrange(start, j) + seq!["AND"@] + t.subrange(
                    j + 1,
                    k,
                ));
                lemma_and_tail_is_spelled(t, joined, start, k);
            }
        }
    }
}

/// [`lemma_read_is_spelled`] for what follows an or-chain.
pub proof fn lemma_or_tail_is_spelled(t: Seq<Seq<char>>, left: ExprView, start: int, j: int)
    requires
        is_or_chain(left),
        0 <= start <= j <= t.len(),
        t.subrange(start, j) == spelled(left),
    ensures
        or_tail_spec(t, left, j) matches Ok((e, k)) ==> is_or_chain(e) && j <= k <= t.len()
            && t.subrange(start, k) == spelled(e),
    decreases t.len() - j, 0nat,
{
    if is_or(t, j) {
        lemma_read_is_spelled(t, j + 1, 1);
        if let Ok((right, k)) = parse_and_spec(t, j + 1) {
            if j < k <= t.len() {
                let joined = ExprView::Or(Box::new(left), Box::new(right));
                assert(t.subrange(start, k) =~= t.subrange(start, j) + seq!["OR"@] + t.subrange(
                    j + 1,
                    k,
                ));
                lemma_or_tail_is_spelled(t, joined, start, k);
            }
        }
    }
}

/// Whatever the parser gives back for a token sequence is allowed by the
/// grammar, and the sequence is its spelling.
pub proof fn lemma_parsed_is_spelled(t: Seq<Seq<char>>)
    ensures
        parse_expression_spec(t) matches Ok(e) ==> is_or_chain(e) && spelled(e) == t,
{
    lemma_read_is_spelled(t, 0, 2);
    if let Ok((e, j)) = parse_or_spec(t, 0) {
        if j == t.len() {
            assert(t.subrange(0, t.len() as int) =~= t);
        }
    }
}

/// `AND` binds tighter than `OR`: in `a OR b AND c` the `AND` is read
/// first, and in `a AND b OR c` likewise.
pub proof fn lemma_and_binds_tighter(a: ConditionView, b: ConditionView, c: ConditionView)
    requires
        condition_ok(a),
        condition_ok(b),
        condition_ok(c),
    ensures
        parse_expression_spec(
            seq![a.field, a.operator, a.value, "OR"@, b.field, b.operator, b.value, "AND"@, c.field,
                c.operator, c.value],
        ) == Ok::<ExprView, ParseError>(
            ExprView::Or(
                Box::new(ExprView::Condition(a)),
                Box::new(
                    ExprView::And(
                        Box::new(ExprView::Condition(b)),
                        Box::new(ExprView::Condition(c)),
                    ),
                ),
            ),
        ),
        parse_expression_spec(
            seq![a.field, a.operator, a.value, "AND"@, b.field, b.operator, b.value, "OR"@, c.field,
                c.operator, c.value],
        ) == Ok::<ExprView, ParseError>(
            ExprView::Or(
                Box::new(
                    ExprView::And(
                        Box::new(ExprView::Condition(a)),
                        Box::new(ExprView::Condition(b)),
                    ),
                ),
                Box::new(ExprView::Condition(c)),
            ),
        ),
{
    let ea = ExprView::Condition(a);
    let eb = ExprView::Condition(b);
    let ec = ExprView::Condition(c);
    let first = ExprView::Or(Box::new(ea), Box::new(ExprView::And(Box::new(eb), Box::new(ec))));
    let second = ExprView::Or(Box::new(ExprView::And(Box::new(ea), Box::new(eb))), Box::new(ec));
    lemma_chain_levels(ea);
    lemma_chain_levels(eb);
    lemma_chain_levels(ec);
    assert(is_or_chain(first)) by {
        assert(is_and_chain(ExprView::And(Box::new(eb), Box::new(ec))));
    }
    assert(is_or_chain(second)) by {
        let both = ExprView::And(Box::new(ea), Box::new(eb));
        assert(is_and_chain(both));
        lemma_chain_levels(both);
    }
    lemma_parses_spelling(first);
    lemma_parses_spelling(second);
    reveal_with_fuel(spelled, 3);
    assert(spelled(first) =~= seq![a.field, a.operator, a.value, "OR"@, b.field, b.operator,
        b.value, "AND"@, c.field, c.operator, c.value]);
    assert(spelled(second) =~= seq![a.field, a.operator, a.value, "AND"@, b.field, b.operator,
        b.value, "OR"@, c.field, c.operator, c.value]);
}

/// Parentheses override precedence: in `( a OR b ) AND c` the `OR` is read
/// first.
pub proof fn lemma_parentheses_override(a: ConditionView, b: ConditionView, c: ConditionView)
    requires
        condition_ok(a),
        condition_ok(b),
        condition_ok(c),
    ensures
        parse_expression_spec(
            seq!["("@, a.field, a.operator, a.value, "OR"@, b.field, b.operator, b.value, ")"@,
                "AND"@, c.field, c.operator, c.value],
        ) == Ok::<ExprView, ParseError>(
            ExprView::And(
                Box::new(
                    ExprView::Group(
                        Box::new(
                            ExprView::Or(
                                Box::new(ExprView::Condition(a)),
                                Box::new(ExprView::Condition(b)),
                            ),
                        ),
                    ),
                ),
                Box::new(ExprView::Condition(c)),
            ),
        ),
{
    let ea = ExprView::Condition(a);
    let eb = ExprView::Condition(b);
    let ec = ExprView::Condition(c);
    let either = ExprView::Or(Box::new(ea), Box::new(eb));
    let group = ExprView::Group(Box::new(either));
    let whole = ExprView::And(Box::new(group), Box::new(ec));
    lemma_chain_levels(ea);
    lemma_chain_levels(eb);
    lemma_chain_levels(ec);
    assert(is_or_chain(whole)) by {
        assert(is_or_chain(either));
        assert(is_term(group));
        lemma_chain_levels(group);
        assert(is_and_chain(whole));
        lemma_chain_levels(whole);
    }
    lemma_parses_spelling(whole);
    reveal_with_fuel(spelled, 4);
    assert(spelled(whole) =~= seq!["("@, a.field, a.operator, a.value, "OR"@, b.field, b.operator,
        b.value, ")"@, "AND"@, c.field, c.operator, c.value]);
}

} // verus!
