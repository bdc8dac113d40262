//! The display-filter grammar, and that the parser accepts exactly what it
//! describes.

use vstd::prelude::*;

#[allow(unused_imports)]
use crate::dfilter::{
    any_holds,
    at_most_one,
    compiled,
    digit_value,
    digits_value,
    holds,
    in_word,
    is_blank,
    lemma_lexeme_ends,
    lemma_quote_at,
    lemma_word_end,
    lexeme,
    lexeme_at,
    number_order,
    parse_all,
    parse_and,
    parse_and_more,
    parse_not,
    parse_operand,
    parse_or,
    parse_or_more,
    quote_at,
    quoted,
    token_content,
    token_is,
    tokens,
    trim_back,
    trim_front,
    truth,
    uint,
    unexpected,
    value_holds,
    word_end,
    word_token,
    ExprView,
    Lexeme,
    Parsed,
    Relation,
    TokView,
};
#[allow(unused_imports)]
use crate::field::{
    any_covered,
    covers,
    entries,
    law_extracted_is_present,
    named,
    value_text,
    NodeView,
    ValueView,
};
#[allow(unused_imports)]
use crate::text::{
    dec_text,
    digit,
    hex_fixed,
    hex_text,
    law_order_is_lexicographic,
    lemma_order_equal,
    precedes,
};

verus! {

// ---- the grammar ----

/// The tokens from `i` to `j` are the disjunction `e`: a conjunction, or a
/// disjunction, `||` and a conjunction.
pub open spec fn is_or(t: Seq<TokView>, i: int, j: int, e: ExprView) -> bool
    decreases j - i, 3nat,
{
    &&& 0 <= i < j <= t.len()
    &&& {
        ||| is_and(t, i, j, e)
        ||| {
            &&& e is Or
            &&& exists|k: int|
                i < k < j - 1 && #[trigger] t[k] == TokView::Or && is_or(t, i, k, *e->Or_0)
                    && is_and(t, k + 1, j, *e->Or_1)
        }
    }
}

/// The tokens from `i` to `j` are the conjunction `e`: a negation, or a
/// conjunction, `&&` and a negation.
pub open spec fn is_and(t: Seq<TokView>, i: int, j: int, e: ExprView) -> bool
    decreases j - i, 2nat,
{
    &&& 0 <= i < j <= t.len()
    &&& {
        ||| is_not(t, i, j, e)
        ||| {
            &&& e is And
            &&& exists|k: int|
                i < k < j - 1 && #[trigger] t[k] == TokView::And && is_and(t, i, k, *e->And_0)
                    && is_not(t, k + 1, j, *e->And_1)
        }
    }
}

/// The tokens from `i` to `j` are the negation `e`: an operand, or `!` and a
/// negation.
pub open spec fn is_not(t: Seq<TokView>, i: int, j: int, e: ExprView) -> bool
    decreases j - i, 1nat,
{
    &&& 0 <= i < j <= t.len()
    &&& {
        ||| is_operand(t, i, j, e)
        ||| e is Not && t[i] == TokView::Not && is_not(t, i + 1, j, *e->Not_0)
    }
}

/// The tokens from `i` to `j` are the operand `e`: a disjunction in
/// parentheses, a comparison or a name.
pub open spec fn is_operand(t: Seq<TokView>, i: int, j: int, e: ExprView) -> bool
    decreases j - i, 0nat,
{
    &&& 0 <= i < j <= t.len()
    &&& {
        ||| j - i > 2 && t[i] == TokView::LParen && t[j - 1] == TokView::RParen && is_or(
            t,
            i + 1,
            j - 1,
            e,
        )
        ||| j == i + 3 && t[i] is Word && t[i + 1] is Op && (t[i + 2] is Word || t[i + 2] is Str)
            && e == ExprView::Compare(t[i]->Word_0, t[i + 1]->Op_0, token_content(t[i + 2]))
        ||| j == i + 1 && t[i] is Word && e == ExprView::Exists(t[i]->Word_0)
    }
}

// ---- what is parsed is in the grammar ----

proof fn lemma_sound_operand(t: Seq<TokView>, i: int)
    requires
        0 <= i,
    ensures
        parse_operand(t, i) matches Ok(p) ==> is_operand(t, i, p.end, p.expr),
    decreases t.len() - i, 0nat,
{
    if i < t.len() && t[i] is LParen {
        lemma_sound_or(t, i + 1);
    }
}

proof fn lemma_sound_not(t: Seq<TokView>, i: int)
    requires
        0 <= i,
    ensures
        parse_not(t, i) matches Ok(p) ==> is_not(t, i, p.end, p.expr),
    decreases t.len() - i, 1nat,
{
    if token_is(t, i, TokView::Not) {
        lemma_sound_not(t, i + 1);
    } else {
        lemma_sound_operand(t, i);
    }
}

proof fn lemma_sound_and_more(t: Seq<TokView>, start: int, left: ExprView, i: int)
    requires
        is_and(t, start, i, left),
    ensures
        parse_and_more(t, left, i) matches Ok(p) ==> is_and(t, start, p.end, p.expr),
    decreases t.len() - i, 2nat,
{
    if token_is(t, i, TokView::And) {
        lemma_sound_not(t, i + 1);
        if let Ok(p) = parse_not(t, i + 1) {
            let both = ExprView::And(Box::new(left), Box::new(p.expr));
            assert(is_and(t, start, i, *both->And_0));
            assert(is_and(t, start, p.end, both));
            lemma_sound_and_more(t, start, both, p.end);
        }
    }
}

proof fn lemma_sound_and(t: Seq<TokView>, i: int)
    requires
        0 <= i,
    ensures
        parse_and(t, i) matches Ok(p) ==> is_and(t, i, p.end, p.expr),
    decreases t.len() - i, 3nat,
{
    lemma_sound_not(t, i);
    if let Ok(p) = parse_not(t, i) {
        lemma_sound_and_more(t, i, p.expr, p.end);
    }
}

proof fn lemma_sound_or_more(t: Seq<TokView>, start: int, left: ExprView, i: int)
    requires
        is_or(t, start, i, left),
    ensures
        parse_or_more(t, left, i) matches Ok(p) ==> is_or(t, start, p.end, p.expr),
    decreases t.len() - i, 4nat,
{
    if token_is(t, i, TokView::Or) {
        lemma_sound_and(t, i + 1);
        if let Ok(p) = parse_and(t, i + 1) {
            let both = ExprView::Or(Box::new(left), Box::new(p.expr));
            assert(is_or(t, start, i, *both->Or_0));
            assert(is_or(t, start, p.end, both));
            lemma_sound_or_more(t, start, both, p.end);
        }
    }
}

proof fn lemma_sound_or(t: Seq<TokView>, i: int)
    requires
        0 <= i,
    ensures
        parse_or(t, i) matches Ok(p) ==> is_or(t, i, p.end, p.expr),
    decreases t.len() - i, 5nat,
{
    lemma_sound_and(t, i);
    if let Ok(p) = parse_and(t, i) {
        lemma_sound_or_more(t, i, p.expr, p.end);
    }
}

// ---- what is in the grammar is parsed ----

/// Whether an operator of comparison stands at `j`.
spec fn op_at(t: Seq<TokView>, j: int) -> bool {
    0 <= j < t.len() && t[j] is Op
}

proof fn lemma_complete_operand(t: Seq<TokView>, i: int, j: int, e: ExprView)
    requires
        is_operand(t, i, j, e),
        !op_at(t, j),
    ensures
        parse_operand(t, i) == Ok::<Parsed, Seq<char>>(Parsed { expr: e, end: j }),
    decreases j - i, 0nat,
{
    if t[i] == TokView::LParen {
        lemma_complete_or(t, i + 1, j - 1, e);
    }
}

proof fn lemma_complete_not(t: Seq<TokView>, i: int, j: int, e: ExprView)
    requires
        is_not(t, i, j, e),
        !op_at(t, j),
    ensures
        parse_not(t, i) == Ok::<Parsed, Seq<char>>(Parsed { expr: e, end: j }),
    decreases j - i, 1nat,
{
    if is_operand(t, i, j, e) {
        lemma_complete_operand(t, i, j, e);
    } else {
        lemma_complete_not(t, i + 1, j, *e->Not_0);
    }
}

proof fn lemma_complete_and(t: Seq<TokView>, i: int, j: int, e: ExprView)
    requires
        is_and(t, i, j, e),
        !op_at(t, j),
    ensures
        parse_and(t, i) == parse_and_more(t, e, j),
    decreases j - i, 2nat,
{
    if is_not(t, i, j, e) {
        lemma_complete_not(t, i, j, e);
    } else {
        let k = choose|k: int|
            i < k < j - 1 && #[trigger] t[k] == TokView::And && is_and(t, i, k, *e->And_0)
                && is_not(t, k + 1, j, *e->And_1);
        lemma_complete_and(t, i, k, *e->And_0);
        lemma_complete_not(t, k + 1, j, *e->And_1);
        assert(e == ExprView::And(Box::new(*e->And_0), Box::new(*e->And_1)));
    }
}

proof fn lemma_complete_or(t: Seq<TokView>, i: int, j: int, e: ExprView)
    requires
        is_or(t, i, j, e),
        !op_at(t, j),
        !token_is(t, j, TokView::And),
    ensures
        parse_or(t, i) == parse_or_more(t, e, j),
    decreases j - i, 3nat,
{
    if is_and(t, i, j, e) {
        lemma_complete_and(t, i, j, e);
    } else {
        let k = choose|k: int|
            i < k < j - 1 && #[trigger] t[k] == TokView::Or && is_or(t, i, k, *e->Or_0)
                && is_and(t, k + 1, j, *e->Or_1);
        lemma_complete_or(t, i, k, *e->Or_0);
        lemma_complete_and(t, k + 1, j, *e->Or_1);
        assert(e == ExprView::Or(Box::new(*e->Or_0), Box::new(*e->Or_1)));
    }
}

/// The parser takes a list of tokens for an expression exactly where the
/// grammar says that the whole list is that expression: precedence and
/// grouping are the grammar's.
pub proof fn law_parser_follows_grammar(t: Seq<TokView>, e: ExprView)
    ensures
        parse_all(t) == Ok::<ExprView, Seq<char>>(e) <==> is_or(t, 0, t.len() as int, e),
{
    lemma_sound_or(t, 0);
    if is_or(t, 0, t.len() as int, e) {
        lemma_complete_or(t, 0, t.len() as int, e);
    }
}

/// A list of tokens is at most one expression.
pub proof fn law_grammar_is_unambiguous(t: Seq<TokView>, a: ExprView, b: ExprView)
    requires
        is_or(t, 0, t.len() as int, a),
        is_or(t, 0, t.len() as int, b),
    ensures
        a == b,
{
    law_parser_follows_grammar(t, a);
    law_parser_follows_grammar(t, b);
}

// ---- writing expressions ----

/// An expression as tokens, with parentheses around everything that has an
/// operator.
pub open spec fn written(e: ExprView) -> Seq<TokView>
    decreases e,
{
    match e {
        ExprView::Or(a, b) => seq![TokView::LParen] + written(*a) + seq![TokView::Or] + written(*b)
            + seq![TokView::RParen],
        ExprView::And(a, b) => seq![TokView::LParen] + written(*a) + seq![TokView::And] + written(
            *b,
        ) + seq![TokView::RParen],
        ExprView::Not(a) => seq![TokView::LParen, TokView::Not] + written(*a) + seq![
            TokView::RParen,
        ],
        ExprView::Exists(name) => seq![TokView::Word(name)],
        ExprView::Compare(field, op, value) => seq![
            TokView::Word(field),
            TokView::Op(op),
            TokView::Str(value),
        ],
    }
}

/// An operand is an expression of every level.
proof fn lemma_operand_is_or(t: Seq<TokView>, i: int, j: int, e: ExprView)
    requires
        is_operand(t, i, j, e),
    ensures
        is_not(t, i, j, e),
        is_and(t, i, j, e),
        is_or(t, i, j, e),
{
    assert(is_not(t, i, j, e));
    assert(is_and(t, i, j, e));
}

/// Two operands joined by `||` in parentheses.
proof fn lemma_or_operand(t: Seq<TokView>, i: int, k: int, j: int, a: ExprView, b: ExprView)
    requires
        is_operand(t, i + 1, k, a),
        is_operand(t, k + 1, j - 1, b),
        0 <= i < k < j <= t.len(),
        t[i] == TokView::LParen,
        t[k] == TokView::Or,
        t[j - 1] == TokView::RParen,
    ensures
        is_operand(t, i, j, ExprView::Or(Box::new(a), Box::new(b))),
{
    lemma_operand_is_or(t, i + 1, k, a);
    lemma_operand_is_or(t, k + 1, j - 1, b);
    assert(is_or(t, i + 1, j - 1, ExprView::Or(Box::new(a), Box::new(b))));
}

/// Two operands joined by `&&` in parentheses.
proof fn lemma_and_operand(t: Seq<TokView>, i: int, k: int, j: int, a: ExprView, b: ExprView)
    requires
        is_operand(t, i + 1, k, a),
        is_operand(t, k + 1, j - 1, b),
        0 <= i < k < j <= t.len(),
        t[i] == TokView::LParen,
        t[k] == TokView::And,
        t[j - 1] == TokView::RParen,
    ensures
        is_operand(t, i, j, ExprView::And(Box::new(a), Box::new(b))),
{
    lemma_operand_is_or(t, i + 1, k, a);
    lemma_operand_is_or(t, k + 1, j - 1, b);
    assert(is_and(t, i + 1, j - 1, ExprView::And(Box::new(a), Box::new(b))));
    assert(is_or(t, i + 1, j - 1, ExprView::And(Box::new(a), Box::new(b))));
}

/// A negated operand in parentheses.
proof fn lemma_not_operand(t: Seq<TokView>, i: int, j: int, a: ExprView)
    requires
        is_operand(t, i + 2, j - 1, a),
        0 <= i < j <= t.len(),
        t[i] == TokView::LParen,
        t[i + 1] == TokView::Not,
        t[j - 1] == TokView::RParen,
    ensures
        is_operand(t, i, j, ExprView::Not(Box::new(a))),
{
    lemma_operand_is_or(t, i + 2, j - 1, a);
    assert(is_not(t, i + 1, j - 1, ExprView::Not(Box::new(a))));
    assert(is_and(t, i + 1, j - 1, ExprView::Not(Box::new(a))));
    assert(is_or(t, i + 1, j - 1, ExprView::Not(Box::new(a))));
}

/// Two lists between three tokens, each in its place.
proof fn lemma_places(
    t: Seq<TokView>,
    i: int,
    x: TokView,
    a: Seq<TokView>,
    y: TokView,
    b: Seq<TokView>,
    z: TokView,
)
    requires
        0 <= i,
        ({
            let w = seq![x] + a + seq![y] + b + seq![z];
            i + w.len() <= t.len() && t.subrange(i, i + w.len()) == w
        }),
    ensures
        t[i] == x,
        t.subrange(i + 1, i + 1 + a.len()) == a,
        t[i + 1 + a.len()] == y,
        t.subrange(i + 2 + a.len(), i + 2 + a.len() + b.len()) == b,
        t[i + 2 + a.len() + b.len()] == z,
{
    let w = seq![x] + a + seq![y] + b + seq![z];
    let j = i + w.len();
    assert forall|m: int| i <= m < j implies #[trigger] t[m] == w[m - i] by {
        assert(t.subrange(i, j)[m - i] == w[m - i]);
    }
    assert(t.subrange(i + 1, i + 1 + a.len()) =~= a);
    assert(t.subrange(i + 2 + a.len(), i + 2 + a.len() + b.len()) =~= b);
}

/// What an expression is written as is that expression, wherever it stands.
proof fn lemma_written(t: Seq<TokView>, i: int, e: ExprView)
    requires
        0 <= i,
        i + written(e).len() <= t.len(),
        t.subrange(i, i + written(e).len()) == written(e),
    ensures
        written(e).len() > 0,
        is_operand(t, i, i + written(e).len(), e),
    decreases e,
{
    let w = written(e);
    let j = i + w.len();
    match e {
        ExprView::Or(a, b) => {
            let wa = written(*a);
            lemma_places(
                t,
                i,
                TokView::LParen,
                wa,
                TokView::Or,
                written(*b),
                TokView::RParen,
            );
            let k = i + 1 + wa.len();
            lemma_written(t, i + 1, *a);
            lemma_written(t, k + 1, *b);
            lemma_or_operand(t, i, k, j, *a, *b);
        },
        ExprView::And(a, b) => {
            let wa = written(*a);
            lemma_places(
                t,
                i,
                TokView::LParen,
                wa,
                TokView::And,
                written(*b),
                TokView::RParen,
            );
            let k = i + 1 + wa.len();
            lemma_written(t, i + 1, *a);
            lemma_written(t, k + 1, *b);
            lemma_and_operand(t, i, k, j, *a, *b);
        },
        ExprView::Not(a) => {
            let none = Seq::<TokView>::empty();
            assert(w =~= seq![TokView::LParen] + none + seq![TokView::Not] + written(*a) + seq![
                TokView::RParen,
            ]);
            lemma_places(
                t,
                i,
                TokView::LParen,
                none,
                TokView::Not,
                written(*a),
                TokView::RParen,
            );
            lemma_written(t, i + 2, *a);
            lemma_not_operand(t, i, j, *a);
        },
        ExprView::Exists(_) => {
            assert(t[i] == t.subrange(i, j)[0]);
        },
        ExprView::Compare(_, _, _) => {
            assert(t[i] == t.subrange(i, j)[0]);
            assert(t[i + 1] == t.subrange(i, j)[1]);
            assert(t[i + 2] == t.subrange(i, j)[2]);
        },
    }
}

/// Every expression can be written, and parses back.
pub proof fn law_written_parses_back(e: ExprView)
    ensures
        parse_all(written(e)) == Ok::<ExprView, Seq<char>>(e),
{
    let t = written(e);
    assert(t.subrange(0, t.len() as int) =~= t);
    lemma_written(t, 0, e);
    lemma_operand_is_or(t, 0, t.len() as int, e);
    law_parser_follows_grammar(t, e);
}

// ---- source text ----

/// A token as source text.
pub open spec fn token_source(t: TokView) -> Seq<char> {
    match t {
        TokView::Word(w) => w,
        TokView::Str(s) => seq!['"'] + s + seq!['"'],
        TokView::Op(Relation::Eq) => seq!['=', '='],
        TokView::Op(Relation::Ne) => seq!['!', '='],
        TokView::Op(Relation::Lt) => seq!['<'],
        TokView::Op(Relation::Le) => seq!['<', '='],
        TokView::Op(Relation::Gt) => seq!['>'],
        TokView::Op(Relation::Ge) => seq!['>', '='],
        TokView::And => seq!['&', '&'],
        TokView::Or => seq!['|', '|'],
        TokView::Not => seq!['!'],
        TokView::LParen => seq!['('],
        TokView::RParen => seq![')'],
    }
}

/// Tokens as source text, with a space behind each.
pub open spec fn source(ts: Seq<TokView>) -> Seq<char>
    decreases ts.len(),
{
    if ts.len() == 0 {
        Seq::empty()
    } else {
        token_source(ts[0]) + seq![' '] + source(ts.drop_first())
    }
}

/// Whether a name is made of word characters and names no operator.
pub open spec fn is_name(w: Seq<char>) -> bool {
    &&& w.len() > 0
    &&& forall|i: int| 0 <= i < w.len() ==> in_word(#[trigger] w[i])
    &&& word_token(w) == TokView::Word(w)
}

/// Whether a text can stand between quotes.
pub open spec fn is_quotable(s: Seq<char>) -> bool {
    forall|i: int| 0 <= i < s.len() ==> #[trigger] s[i] != '"'
}

/// Whether a token has a source text.
pub open spec fn has_source(t: TokView) -> bool {
    match t {
        TokView::Word(w) => is_name(w),
        TokView::Str(s) => is_quotable(s),
        _ => true,
    }
}

/// Whether an expression has a source text: its fields are names, its values
/// can be quoted.
pub open spec fn expr_has_source(e: ExprView) -> bool
    decreases e,
{
    match e {
        ExprView::Or(a, b) => expr_has_source(*a) && expr_has_source(*b),
        ExprView::And(a, b) => expr_has_source(*a) && expr_has_source(*b),
        ExprView::Not(a) => expr_has_source(*a),
        ExprView::Exists(name) => is_name(name),
        ExprView::Compare(field, _, value) => is_name(field) && is_quotable(value),
    }
}

proof fn lemma_word_shift(p: Seq<char>, x: Seq<char>, i: int)
    requires
        0 <= i,
    ensures
        word_end(p + x, p.len() + i) == p.len() + word_end(x, i),
    decreases x.len() - i,
{
    if i < x.len() && in_word(x[i]) {
        lemma_word_shift(p, x, i + 1);
    }
}

proof fn lemma_quote_shift(p: Seq<char>, x: Seq<char>, i: int)
    requires
        0 <= i,
    ensures
        quote_at(p + x, p.len() + i) == p.len() + quote_at(x, i),
    decreases x.len() - i,
{
    if i < x.len() && x[i] != '"' {
        lemma_quote_shift(p, x, i + 1);
    }
}

/// What starts somewhere does not depend on what comes before.
proof fn lemma_lexeme_shift(p: Seq<char>, x: Seq<char>, i: int)
    requires
        0 <= i < x.len(),
    ensures
        lexeme_at(p + x, p.len() + i) == match lexeme_at(x, i) {
            Ok(l) => Ok(Lexeme { token: l.token, end: p.len() + l.end }),
            Err(e) => Err(e),
        },
{
    let s = p + x;
    let at = p.len() + i;
    assert(s[at] == x[i]);
    if i + 1 < x.len() {
        assert(s[at + 1] == x[i + 1]);
    }
    lemma_word_end(x, i);
    lemma_quote_at(x, i + 1);
    lemma_word_shift(p, x, i);
    lemma_quote_shift(p, x, i + 1);
    assert(s.subrange(at, p.len() + word_end(x, i)) =~= x.subrange(i, word_end(x, i)));
    assert(s.subrange(at + 1, p.len() + quote_at(x, i + 1)) =~= x.subrange(
        i + 1,
        quote_at(x, i + 1),
    ));
}

proof fn lemma_tokens_shift(p: Seq<char>, x: Seq<char>, i: int)
    requires
        0 <= i,
    ensures
        tokens(p + x, p.len() + i) == tokens(x, i),
    decreases x.len() - i,
{
    if i < x.len() {
        lemma_lexeme_shift(p, x, i);
        lemma_lexeme_ends(x, i);
        if let Ok(l) = lexeme_at(x, i) {
            lemma_tokens_shift(p, x, l.end);
        }
    }
}

/// A word ends where its characters do.
proof fn lemma_word_stops(s: Seq<char>, i: int, n: int)
    requires
        0 <= i <= n < s.len(),
        forall|k: int| i <= k < n ==> in_word(#[trigger] s[k]),
        !in_word(s[n]),
    ensures
        word_end(s, i) == n,
    decreases n - i,
{
    if i < n {
        lemma_word_stops(s, i + 1, n);
    }
}

/// A string ends at the first quote.
proof fn lemma_quote_stops(s: Seq<char>, i: int, n: int)
    requires
        0 <= i <= n < s.len(),
        forall|k: int| i <= k < n ==> #[trigger] s[k] != '"',
        s[n] == '"',
    ensures
        quote_at(s, i) == n,
    decreases n - i,
{
    if i < n {
        lemma_quote_stops(s, i + 1, n);
    }
}

/// A written token is read as itself.
proof fn lemma_token_read(t: TokView, rest: Seq<char>)
    requires
        has_source(t),
    ensures
        token_source(t).len() > 0,
        lexeme_at(token_source(t) + seq![' '] + rest, 0) == lexeme(
            t,
            token_source(t).len() as int,
        ),
{
    let src = token_source(t);
    let s = src + seq![' '] + rest;
    let n = src.len() as int;
    assert(s[n] == ' ');
    assert(src.len() > 0);
    assert(s[0] == src[0]);
    match t {
        TokView::Word(w) => {
            assert forall|k: int| 0 <= k < n implies in_word(#[trigger] s[k]) by {
                assert(s[k] == w[k]);
            }
            lemma_word_stops(s, 0, n);
            assert(s.subrange(0, n) =~= w);
            assert(in_word(s[0]));
        },
        TokView::Str(text) => {
            assert forall|k: int| 1 <= k < n - 1 implies #[trigger] s[k] != '"' by {
                assert(s[k] == text[k - 1]);
            }
            assert(s[n - 1] == '"');
            lemma_quote_stops(s, 1, n - 1);
            assert(s.subrange(1, n - 1) =~= text);
        },
        _ => {
            if n == 2 {
                assert(s[1] == src[1]);
            }
        },
    }
}

/// Tokens that were written with spaces between are read back.
pub proof fn law_tokens_read_back(ts: Seq<TokView>)
    requires
        forall|i: int| 0 <= i < ts.len() ==> has_source(#[trigger] ts[i]),
    ensures
        tokens(source(ts), 0) == Ok::<Seq<TokView>, Seq<char>>(ts),
    decreases ts.len(),
{
    if ts.len() == 0 {
        assert(ts =~= seq![]);
    } else {
        let later = ts.drop_first();
        let rest = source(later);
        let src = token_source(ts[0]);
        let s = source(ts);
        let n = src.len() as int;
        let p = src + seq![' '];
        assert forall|i: int| 0 <= i < later.len() implies has_source(#[trigger] later[i]) by {
            assert(later[i] == ts[i + 1]);
        }
        law_tokens_read_back(later);
        lemma_token_read(ts[0], rest);
        assert(s == p + rest);
        lemma_tokens_shift(p, rest, 0);
        assert(s[n] == ' ');
        assert(lexeme_at(s, n) == Ok::<Lexeme, Seq<char>>(Lexeme { token: None, end: n + 1 }));
        assert(tokens(s, n) == Ok::<Seq<TokView>, Seq<char>>(seq![] + later));
        assert(seq![] + later =~= later);
        assert(seq![ts[0]] + later =~= ts);
    }
}

/// Whether all tokens have a source text.
spec fn all_have_source(ts: Seq<TokView>) -> bool {
    forall|i: int| 0 <= i < ts.len() ==> has_source(#[trigger] ts[i])
}

proof fn lemma_source_concat(a: Seq<TokView>, b: Seq<TokView>)
    requires
        all_have_source(a),
        all_have_source(b),
    ensures
        all_have_source(a + b),
{
    assert forall|i: int| 0 <= i < (a + b).len() implies has_source(#[trigger] (a + b)[i]) by {
        if i < a.len() {
            assert((a + b)[i] == a[i]);
        } else {
            assert((a + b)[i] == b[i - a.len()]);
        }
    }
}

proof fn lemma_written_has_source(e: ExprView)
    requires
        expr_has_source(e),
    ensures
        all_have_source(written(e)),
    decreases e,
{
    let open = seq![TokView::LParen];
    let close = seq![TokView::RParen];
    match e {
        ExprView::Or(a, b) => {
            lemma_written_has_source(*a);
            lemma_written_has_source(*b);
            let (wa, wb) = (written(*a), written(*b));
            let mid = seq![TokView::Or];
            lemma_source_concat(open, wa);
            lemma_source_concat(open + wa, mid);
            lemma_source_concat(open + wa + mid, wb);
            lemma_source_concat(open + wa + mid + wb, close);
        },
        ExprView::And(a, b) => {
            lemma_written_has_source(*a);
            lemma_written_has_source(*b);
            let (wa, wb) = (written(*a), written(*b));
            let mid = seq![TokView::And];
            lemma_source_concat(open, wa);
            lemma_source_concat(open + wa, mid);
            lemma_source_concat(open + wa + mid, wb);
            lemma_source_concat(open + wa + mid + wb, close);
        },
        ExprView::Not(a) => {
            lemma_written_has_source(*a);
            let head = seq![TokView::LParen, TokView::Not];
            lemma_source_concat(head, written(*a));
            lemma_source_concat(head + written(*a), close);
        },
        _ => {},
    }
}

/// Every filter whose fields are names and whose values can be quoted has a
/// source text that compiles to it.
pub proof fn law_filter_reads_back(e: ExprView)
    requires
        expr_has_source(e),
    ensures
        compiled(source(written(e))) == Ok::<ExprView, Seq<char>>(e),
{
    lemma_written_has_source(e);
    law_tokens_read_back(written(e));
    law_written_parses_back(e);
}

// ---- filters put together ----

/// A list of tokens stands in another at `o`.
spec fn stands_at(t: Seq<TokView>, o: int, part: Seq<TokView>) -> bool {
    &&& 0 <= o
    &&& o + part.len() <= t.len()
    &&& forall|k: int| 0 <= k < part.len() ==> #[trigger] part[k] == t[o + k]
}

// What tokens are does not depend on where they stand.

proof fn lemma_operand_anywhere(
    t: Seq<TokView>,
    o: int,
    part: Seq<TokView>,
    i: int,
    j: int,
    e: ExprView,
)
    requires
        stands_at(t, o, part),
        is_operand(part, i, j, e),
    ensures
        is_operand(t, o + i, o + j, e),
    decreases j - i, 0nat,
{
    assert(part[i] == t[o + i]);
    assert(part[j - 1] == t[o + j - 1]);
    if j - i > 2 && part[i] == TokView::LParen && part[j - 1] == TokView::RParen && is_or(
        part,
        i + 1,
        j - 1,
        e,
    ) {
        lemma_or_anywhere(t, o, part, i + 1, j - 1, e);
    } else if j == i + 3 {
        assert(part[i + 1] == t[o + i + 1]);
        assert(part[i + 2] == t[o + i + 2]);
    }
}

proof fn lemma_not_anywhere(
    t: Seq<TokView>,
    o: int,
    part: Seq<TokView>,
    i: int,
    j: int,
    e: ExprView,
)
    requires
        stands_at(t, o, part),
        is_not(part, i, j, e),
    ensures
        is_not(t, o + i, o + j, e),
    decreases j - i, 1nat,
{
    assert(part[i] == t[o + i]);
    if is_operand(part, i, j, e) {
        lemma_operand_anywhere(t, o, part, i, j, e);
    } else {
        lemma_not_anywhere(t, o, part, i + 1, j, *e->Not_0);
    }
}

proof fn lemma_and_anywhere(
    t: Seq<TokView>,
    o: int,
    part: Seq<TokView>,
    i: int,
    j: int,
    e: ExprView,
)
    requires
        stands_at(t, o, part),
        is_and(part, i, j, e),
    ensures
        is_and(t, o + i, o + j, e),
    decreases j - i, 2nat,
{
    if is_not(part, i, j, e) {
        lemma_not_anywhere(t, o, part, i, j, e);
    } else {
        let k = choose|k: int|
            i < k < j - 1 && #[trigger] part[k] == TokView::And && is_and(part, i, k, *e->And_0)
                && is_not(part, k + 1, j, *e->And_1);
        assert(t[o + k] == TokView::And);
        lemma_and_anywhere(t, o, part, i, k, *e->And_0);
        lemma_not_anywhere(t, o, part, k + 1, j, *e->And_1);
    }
}

proof fn lemma_or_anywhere(
    t: Seq<TokView>,
    o: int,
    part: Seq<TokView>,
    i: int,
    j: int,
    e: ExprView,
)
    requires
        stands_at(t, o, part),
        is_or(part, i, j, e),
    ensures
        is_or(t, o + i, o + j, e),
    decreases j - i, 3nat,
{
    if is_and(part, i, j, e) {
        lemma_and_anywhere(t, o, part, i, j, e);
    } else {
        let k = choose|k: int|
            i < k < j - 1 && #[trigger] part[k] == TokView::Or && is_or(part, i, k, *e->Or_0)
                && is_and(part, k + 1, j, *e->Or_1);
        assert(t[o + k] == TokView::Or);
        lemma_or_anywhere(t, o, part, i, k, *e->Or_0);
        lemma_and_anywhere(t, o, part, k + 1, j, *e->Or_1);
    }
}

/// Tokens in parentheses.
spec fn enclosed(t: Seq<TokView>) -> Seq<TokView> {
    seq![TokView::LParen] + t + seq![TokView::RParen]
}

/// An expression in parentheses is an operand, wherever it stands.
proof fn lemma_enclosed(t: Seq<TokView>, o: int, part: Seq<TokView>, e: ExprView)
    requires
        stands_at(t, o, enclosed(part)),
        parse_all(part) == Ok::<ExprView, Seq<char>>(e),
    ensures
        is_operand(t, o, o + enclosed(part).len(), e),
{
    let w = enclosed(part);
    let n = part.len() as int;
    law_parser_follows_grammar(part, e);
    assert(w[0] == t[o]);
    assert(w[n + 1] == t[o + n + 1]);
    assert forall|k: int| 0 <= k < n implies #[trigger] part[k] == t[o + 1 + k] by {
        assert(w[k + 1] == t[o + (k + 1)]);
    }
    lemma_or_anywhere(t, o + 1, part, 0, n, e);
}

/// Two expressions in parentheses, joined by a token.
spec fn joined_by(a: Seq<TokView>, tok: TokView, b: Seq<TokView>) -> Seq<TokView> {
    enclosed(a) + (seq![tok] + enclosed(b))
}

proof fn lemma_joined(a: Seq<TokView>, tok: TokView, b: Seq<TokView>, ea: ExprView, eb: ExprView)
    requires
        parse_all(a) == Ok::<ExprView, Seq<char>>(ea),
        parse_all(b) == Ok::<ExprView, Seq<char>>(eb),
    ensures
        tok == TokView::And ==> parse_all(joined_by(a, tok, b)) == Ok::<ExprView, Seq<char>>(
            ExprView::And(Box::new(ea), Box::new(eb)),
        ),
        tok == TokView::Or ==> parse_all(joined_by(a, tok, b)) == Ok::<ExprView, Seq<char>>(
            ExprView::Or(Box::new(ea), Box::new(eb)),
        ),
{
    let t = joined_by(a, tok, b);
    let k = enclosed(a).len() as int;
    let n = t.len() as int;
    assert(stands_at(t, 0, enclosed(a)));
    assert forall|m: int| 0 <= m < enclosed(b).len() implies #[trigger] enclosed(b)[m] == t[k + 1
        + m] by {
        assert((seq![tok] + enclosed(b))[m + 1] == enclosed(b)[m]);
    }
    lemma_enclosed(t, 0, a, ea);
    lemma_enclosed(t, k + 1, b, eb);
    assert(t[k] == tok);
    lemma_operand_is_or(t, 0, k, ea);
    lemma_operand_is_or(t, k + 1, n, eb);
    if tok == TokView::And {
        let e = ExprView::And(Box::new(ea), Box::new(eb));
        assert(is_and(t, 0, k, *e->And_0));
        assert(is_and(t, 0, n, e));
        assert(is_or(t, 0, n, e));
        law_parser_follows_grammar(t, e);
    } else if tok == TokView::Or {
        let e = ExprView::Or(Box::new(ea), Box::new(eb));
        assert(is_or(t, 0, k, *e->Or_0));
        assert(is_or(t, 0, n, e));
        law_parser_follows_grammar(t, e);
    }
}

proof fn lemma_negated(a: Seq<TokView>, ea: ExprView)
    requires
        parse_all(a) == Ok::<ExprView, Seq<char>>(ea),
    ensures
        parse_all(seq![TokView::Not] + enclosed(a)) == Ok::<ExprView, Seq<char>>(
            ExprView::Not(Box::new(ea)),
        ),
{
    let t = seq![TokView::Not] + enclosed(a);
    let n = t.len() as int;
    let e = ExprView::Not(Box::new(ea));
    assert forall|m: int| 0 <= m < enclosed(a).len() implies #[trigger] enclosed(a)[m] == t[1
        + m] by {}
    lemma_enclosed(t, 1, a, ea);
    lemma_operand_is_or(t, 1, n, ea);
    assert(t[0] == TokView::Not);
    assert(is_not(t, 0, n, e));
    assert(is_and(t, 0, n, e));
    assert(is_or(t, 0, n, e));
    law_parser_follows_grammar(t, e);
}

proof fn lemma_word_before(x: Seq<char>, y: Seq<char>, i: int)
    requires
        0 <= i <= x.len(),
        y.len() > 0,
        !in_word(y[0]),
    ensures
        word_end(x + y, i) == word_end(x, i),
    decreases x.len() - i,
{
    if i < x.len() {
        assert((x + y)[i] == x[i]);
        if in_word(x[i]) {
            lemma_word_before(x, y, i + 1);
        }
    } else {
        assert((x + y)[i] == y[0]);
    }
}

proof fn lemma_quote_before(x: Seq<char>, y: Seq<char>, i: int)
    requires
        0 <= i <= x.len(),
        quote_at(x, i) < x.len(),
    ensures
        quote_at(x + y, i) == quote_at(x, i),
    decreases x.len() - i,
{
    if i < x.len() {
        assert((x + y)[i] == x[i]);
        if x[i] != '"' {
            lemma_quote_before(x, y, i + 1);
        }
    }
}

/// A token of a text stays what it is where a closing parenthesis follows the
/// text.
proof fn lemma_lexeme_before(x: Seq<char>, y: Seq<char>, i: int)
    requires
        0 <= i < x.len(),
        y.len() > 0,
        y[0] == ')',
        lexeme_at(x, i) is Ok,
    ensures
        lexeme_at(x + y, i) == lexeme_at(x, i),
{
    let s = x + y;
    assert(s[i] == x[i]);
    if i + 1 < x.len() {
        assert(s[i + 1] == x[i + 1]);
    } else {
        assert(s[i + 1] == ')');
    }
    lemma_word_end(x, i);
    lemma_quote_at(x, i + 1);
    lemma_word_before(x, y, i);
    assert(s.subrange(i, word_end(x, i)) =~= x.subrange(i, word_end(x, i)));
    if quote_at(x, i + 1) < x.len() {
        lemma_quote_before(x, y, i + 1);
        assert(s.subrange(i + 1, quote_at(x, i + 1)) =~= x.subrange(i + 1, quote_at(x, i + 1)));
    }
}

/// Some tokens before what a text holds.
spec fn with_tokens(ts: Seq<TokView>, more: Result<Seq<TokView>, Seq<char>>) -> Result<
    Seq<TokView>,
    Seq<char>,
> {
    match more {
        Ok(m) => Ok(ts + m),
        Err(e) => Err(e),
    }
}

/// The tokens of a text stay what they are where a closing parenthesis follows
/// the text.
proof fn lemma_tokens_before(x: Seq<char>, y: Seq<char>, i: int, ts: Seq<TokView>)
    requires
        0 <= i <= x.len(),
        y.len() > 0,
        y[0] == ')',
        tokens(x, i) == Ok::<Seq<TokView>, Seq<char>>(ts),
    ensures
        tokens(x + y, i) == with_tokens(ts, tokens(y, 0)),
    decreases x.len() - i,
{
    if i == x.len() {
        lemma_tokens_shift(x, y, 0);
        if let Ok(m) = tokens(y, 0) {
            assert(ts + m =~= m);
        }
    } else {
        lemma_lexeme_ends(x, i);
        lemma_lexeme_before(x, y, i);
        let l = lexeme_at(x, i)->Ok_0;
        let later = tokens(x, l.end)->Ok_0;
        lemma_tokens_before(x, y, l.end, later);
        if let Ok(m) = tokens(y, 0) {
            assert(at_most_one(l.token) + (later + m) =~= ts + m);
        }
    }
}

/// A token or white space at the start of a text, then the rest.
proof fn lemma_tokens_step(head: Seq<char>, rest: Seq<char>, token: Option<TokView>)
    requires
        head.len() > 0,
        lexeme_at(head + rest, 0) == Ok::<Lexeme, Seq<char>>(
            Lexeme { token, end: head.len() as int },
        ),
    ensures
        tokens(head + rest, 0) == with_tokens(at_most_one(token), tokens(rest, 0)),
{
    lemma_tokens_shift(head, rest, 0);
}

/// A filter in parentheses.
pub open spec fn parenthesised(a: Seq<char>) -> Seq<char> {
    "("@ + a + ")"@
}

/// The tokens of a filter in parentheses, and of what follows it.
proof fn lemma_parenthesised(a: Seq<char>, ta: Seq<TokView>, rest: Seq<char>)
    requires
        tokens(a, 0) == Ok::<Seq<TokView>, Seq<char>>(ta),
    ensures
        tokens(parenthesised(a) + rest, 0) == with_tokens(enclosed(ta), tokens(rest, 0)),
{
    reveal_strlit("(");
    reveal_strlit(")");
    let open = seq!['('];
    let close = seq![')'];
    let tail = close + rest;
    assert(parenthesised(a) + rest =~= open + (a + tail));
    assert((open + (a + tail))[0] == '(');
    lemma_tokens_step(open, a + tail, Some(TokView::LParen));
    assert(tail[0] == ')');
    lemma_tokens_before(a, tail, 0, ta);
    lemma_tokens_step(close, rest, Some(TokView::RParen));
    if let Ok(m) = tokens(rest, 0) {
        assert(seq![TokView::LParen] + (ta + (seq![TokView::RParen] + m)) =~= enclosed(ta) + m);
    }
}

/// A connective with a space behind it, then the rest.
proof fn lemma_connective(op: Seq<char>, tok: TokView, rest: Seq<char>)
    requires
        op == "&&"@ && tok == TokView::And || op == "and"@ && tok == TokView::And || op == "||"@
            && tok == TokView::Or || op == "or"@ && tok == TokView::Or || op == "not"@ && tok
            == TokView::Not,
    ensures
        tokens(op + (" "@ + rest), 0) == with_tokens(seq![tok], tokens(rest, 0)),
{
    reveal_strlit(" ");
    reveal_strlit("&&");
    reveal_strlit("and");
    reveal_strlit("||");
    reveal_strlit("or");
    reveal_strlit("not");
    let gap = " "@ + rest;
    let s = op + gap;
    let n = op.len() as int;
    assert forall|k: int| 0 <= k < n implies #[trigger] s[k] == op[k] by {}
    assert(s[n] == ' ');
    if in_word(op[0]) {
        lemma_word_stops(s, 0, n);
        assert(s.subrange(0, n) =~= op);
        assert(word_token(op) == tok) by {
            assert("and"@.len() == 3 && "or"@.len() == 2 && "not"@.len() == 3);
            assert("and"@[0] == 'a' && "not"@[0] == 'n');
        }
    }
    assert(lexeme_at(s, 0) == lexeme(tok, n));
    lemma_tokens_step(op, gap, Some(tok));
    assert(gap[0] == ' ');
    lemma_tokens_step(" "@, rest, None);
    if let Ok(m) = tokens(rest, 0) {
        assert(at_most_one(None) + m =~= m);
    }
}

/// Two filters in parentheses with a connective between.
pub open spec fn connected(a: Seq<char>, op: Seq<char>, b: Seq<char>) -> Seq<char> {
    parenthesised(a) + (" "@ + (op + (" "@ + parenthesised(b))))
}

proof fn lemma_connected(a: Seq<char>, op: Seq<char>, tok: TokView, b: Seq<char>)
    requires
        op == "&&"@ && tok == TokView::And || op == "and"@ && tok == TokView::And || op == "||"@
            && tok == TokView::Or || op == "or"@ && tok == TokView::Or,
        tokens(a, 0) is Ok,
        tokens(b, 0) is Ok,
    ensures
        tokens(connected(a, op, b), 0) == Ok::<Seq<TokView>, Seq<char>>(
            joined_by(tokens(a, 0)->Ok_0, tok, tokens(b, 0)->Ok_0),
        ),
{
    let (ta, tb) = (tokens(a, 0)->Ok_0, tokens(b, 0)->Ok_0);
    let none = Seq::<char>::empty();
    let second = parenthesised(b);
    let behind = op + (" "@ + second);
    lemma_parenthesised(b, tb, none);
    assert(second + none =~= second);
    assert(tokens(none, 0) == Ok::<Seq<TokView>, Seq<char>>(seq![]));
    assert(enclosed(tb) + seq![] =~= enclosed(tb));
    lemma_connective(op, tok, second);
    reveal_strlit(" ");
    assert((" "@ + behind)[0] == ' ');
    lemma_tokens_step(" "@, behind, None);
    let m = seq![tok] + enclosed(tb);
    assert(at_most_one(None) + m =~= m);
    lemma_parenthesised(a, ta, " "@ + behind);
}

/// Two filters joined by `&&` or `and` are true where both are.
pub proof fn law_filters_joined_by_and(
    a: Seq<char>,
    b: Seq<char>,
    ea: ExprView,
    eb: ExprView,
    tree: Seq<NodeView>,
)
    requires
        compiled(a) == Ok::<ExprView, Seq<char>>(ea),
        compiled(b) == Ok::<ExprView, Seq<char>>(eb),
    ensures
        ({
            let both = ExprView::And(Box::new(ea), Box::new(eb));
            &&& compiled(connected(a, "&&"@, b)) == Ok::<ExprView, Seq<char>>(both)
            &&& compiled(connected(a, "and"@, b)) == Ok::<ExprView, Seq<char>>(both)
            &&& truth(both, tree) == (truth(ea, tree) && truth(eb, tree))
        }),
{
    lemma_connected(a, "&&"@, TokView::And, b);
    lemma_connected(a, "and"@, TokView::And, b);
    lemma_joined(tokens(a, 0)->Ok_0, TokView::And, tokens(b, 0)->Ok_0, ea, eb);
}

/// Two filters joined by `||` or `or` are true where one of them is.
pub proof fn law_filters_joined_by_or(
    a: Seq<char>,
    b: Seq<char>,
    ea: ExprView,
    eb: ExprView,
    tree: Seq<NodeView>,
)
    requires
        compiled(a) == Ok::<ExprView, Seq<char>>(ea),
        compiled(b) == Ok::<ExprView, Seq<char>>(eb),
    ensures
        ({
            let either = ExprView::Or(Box::new(ea), Box::new(eb));
            &&& compiled(connected(a, "||"@, b)) == Ok::<ExprView, Seq<char>>(either)
            &&& compiled(connected(a, "or"@, b)) == Ok::<ExprView, Seq<char>>(either)
            &&& truth(either, tree) == (truth(ea, tree) || truth(eb, tree))
        }),
{
    lemma_connected(a, "||"@, TokView::Or, b);
    lemma_connected(a, "or"@, TokView::Or, b);
    lemma_joined(tokens(a, 0)->Ok_0, TokView::Or, tokens(b, 0)->Ok_0, ea, eb);
}

/// A filter behind `!` or `not` is true where the filter is not.
pub proof fn law_filter_negated(a: Seq<char>, ea: ExprView, tree: Seq<NodeView>)
    requires
        compiled(a) == Ok::<ExprView, Seq<char>>(ea),
    ensures
        ({
            let other = ExprView::Not(Box::new(ea));
            &&& compiled("!"@ + parenthesised(a)) == Ok::<ExprView, Seq<char>>(other)
            &&& compiled("not"@ + (" "@ + parenthesised(a))) == Ok::<ExprView, Seq<char>>(other)
            &&& truth(other, tree) == !truth(ea, tree)
        }),
{
    let ta = tokens(a, 0)->Ok_0;
    let none = Seq::<char>::empty();
    let x = parenthesised(a);
    lemma_parenthesised(a, ta, none);
    assert(x + none =~= x);
    assert(tokens(none, 0) == Ok::<Seq<TokView>, Seq<char>>(seq![]));
    assert(enclosed(ta) + seq![] =~= enclosed(ta));
    lemma_connective("not"@, TokView::Not, x);
    reveal_strlit("!");
    reveal_strlit("(");
    assert(("!"@ + x)[0] == '!');
    assert(x[0] == '(');
    assert(("!"@ + x)[1] == '(');
    lemma_tokens_step("!"@, x, Some(TokView::Not));
    lemma_negated(ta, ea);
}

// ---- numbers ----

/// A digit is worth its value.
proof fn lemma_digit(d: nat, base: nat)
    requires
        d < base,
        base == 10 || base == 16,
    ensures
        digit_value(digit(d), base) == Some(d),
        !is_blank(digit(d)),
        digit(d) != '+',
        digit(d) != 'x',
        digit(d) != 'X',
{
    if d < 10 {
        assert(digit(d) as int == 48 + d);
    } else {
        assert(digit(d) as int == 87 + d);
    }
}

/// Whether a text is made of characters that stand in numbers: neither white
/// space nor a sign nor the mark of hexadecimal.
spec fn is_bare(s: Seq<char>) -> bool {
    &&& s.len() > 0
    &&& forall|i: int|
        0 <= i < s.len() ==> {
            &&& !is_blank(#[trigger] s[i])
            &&& s[i] != '+'
            &&& s[i] != 'x'
            &&& s[i] != 'X'
        }
}

proof fn lemma_decimal_digits(n: nat)
    ensures
        digits_value(dec_text(n), 10) == Some(n),
        is_bare(dec_text(n)),
    decreases n,
{
    reveal_with_fuel(digits_value, 2);
    let s = dec_text(n);
    lemma_digit(n % 10, 10);
    if n < 10 {
        assert(s.drop_last() =~= Seq::empty());
    } else {
        lemma_decimal_digits(n / 10);
        assert(s.drop_last() =~= dec_text(n / 10));
    }
}

proof fn lemma_hexadecimal_digits(n: nat)
    ensures
        digits_value(hex_text(n), 16) == Some(n),
        is_bare(hex_text(n)),
    decreases n,
{
    reveal_with_fuel(digits_value, 2);
    let s = hex_text(n);
    lemma_digit(n % 16, 16);
    if n < 16 {
        assert(s.drop_last() =~= Seq::empty());
    } else {
        lemma_hexadecimal_digits(n / 16);
        assert(s.drop_last() =~= hex_text(n / 16));
    }
}

/// A number in decimal, as it is printed, is a value that stands for it.
pub proof fn law_decimal_value(n: u64)
    ensures
        uint(dec_text(n as nat)) == Some(n),
{
    let s = dec_text(n as nat);
    lemma_decimal_digits(n as nat);
    assert(!is_blank(s[0]));
    assert(!is_blank(s[s.len() - 1]));
    assert(trim_back(trim_front(s)) == s);
    if s.len() >= 2 {
        assert(s[1] != 'x' && s[1] != 'X');
    }
    assert(s[0] != '+');
}

/// A number in hexadecimal behind `0x` is a value that stands for it.
pub proof fn law_hexadecimal_value(n: u64)
    ensures
        uint(seq!['0', 'x'] + hex_text(n as nat)) == Some(n),
{
    let digits = hex_text(n as nat);
    let s = seq!['0', 'x'] + digits;
    lemma_hexadecimal_digits(n as nat);
    assert(!is_blank(digits[digits.len() - 1]));
    assert(s[s.len() - 1] == digits[digits.len() - 1]);
    assert(s[0] == '0');
    assert(trim_back(trim_front(s)) == s);
    assert(s[1] == 'x');
    assert(s.skip(2) =~= digits);
    assert(digits[0] != '+');
}

/// A value that is printed for a field equals the field: it can be used in a
/// filter that finds the packet again.
pub proof fn law_printed_value_is_equal(v: ValueView)
    ensures
        v !is Empty ==> value_holds(v, Relation::Eq, value_text(v)),
{
    match v {
        ValueView::Uint(u) => {
            law_decimal_value(u);
        },
        ValueView::Str(s) => {
            lemma_order_equal(s, s);
        },
        ValueView::Empty => {},
    }
}

// ---- truth ----

/// A comparison holds only of a field that is there.
pub proof fn law_comparison_needs_field(
    tree: Seq<NodeView>,
    field: Seq<char>,
    op: Relation,
    value: Seq<char>,
)
    ensures
        truth(ExprView::Compare(field, op, value), tree) ==> truth(ExprView::Exists(field), tree),
{
    law_extracted_is_present(tree, field);
}

// ---- comparisons ----

/// A comparison as source text.
pub open spec fn comparison(field: Seq<char>, op: Seq<char>, value: Seq<char>) -> Seq<char> {
    field + (" "@ + (op + (" "@ + value)))
}

/// Whether source text is a filter that is true of a tree.
pub open spec fn says(source: Seq<char>, tree: Seq<NodeView>) -> bool {
    compiled(source) is Ok && truth(compiled(source)->Ok_0, tree)
}

/// Whether a text spells a relation, with signs or in letters.
spec fn spells(op: Seq<char>, rel: Relation) -> bool {
    match rel {
        Relation::Eq => op == "=="@ || op == "eq"@,
        Relation::Ne => op == "!="@ || op == "ne"@,
        Relation::Lt => op == "<"@ || op == "lt"@,
        Relation::Le => op == "<="@ || op == "le"@,
        Relation::Gt => op == ">"@ || op == "gt"@,
        Relation::Ge => op == ">="@ || op == "ge"@,
    }
}

/// An operator of comparison before a space is read as its relation.
proof fn lemma_operator(op: Seq<char>, rel: Relation, rest: Seq<char>)
    requires
        spells(op, rel),
    ensures
        tokens(op + (" "@ + rest), 0) == with_tokens(seq![TokView::Op(rel)], tokens(rest, 0)),
{
    reveal_strlit(" ");
    reveal_strlit("==");
    reveal_strlit("!=");
    reveal_strlit("<");
    reveal_strlit("<=");
    reveal_strlit(">");
    reveal_strlit(">=");
    reveal_strlit("eq");
    reveal_strlit("ne");
    reveal_strlit("lt");
    reveal_strlit("le");
    reveal_strlit("gt");
    reveal_strlit("ge");
    reveal_strlit("and");
    reveal_strlit("or");
    reveal_strlit("not");
    let gap = " "@ + rest;
    let s = op + gap;
    let n = op.len() as int;
    assert forall|k: int| 0 <= k < n implies #[trigger] s[k] == op[k] by {}
    assert(s[n] == ' ');
    if in_word(op[0]) {
        assert(in_word(op[1]));
        lemma_word_stops(s, 0, n);
        assert(s.subrange(0, n) =~= op);
        assert(word_token(op) == TokView::Op(rel)) by {
            assert("eq"@[0] == 'e' && "ne"@[0] == 'n' && "lt"@[1] == 't' && "le"@[1] == 'e'
                && "gt"@[1] == 't' && "ge"@[1] == 'e' && "or"@[0] == 'o');
            assert("lt"@[0] == 'l' && "le"@[0] == 'l' && "gt"@[0] == 'g' && "ge"@[0] == 'g');
        }
    }
    assert(lexeme_at(s, 0) == lexeme(TokView::Op(rel), n));
    lemma_tokens_step(op, gap, Some(TokView::Op(rel)));
    assert(gap[0] == ' ');
    lemma_tokens_step(" "@, rest, None);
    if let Ok(m) = tokens(rest, 0) {
        assert(at_most_one(None) + m =~= m);
    }
}

/// A word reaches to the end of a text of word characters.
proof fn lemma_word_is_all(s: Seq<char>, i: int)
    requires
        0 <= i <= s.len(),
        forall|k: int| i <= k < s.len() ==> in_word(#[trigger] s[k]),
    ensures
        word_end(s, i) == s.len(),
    decreases s.len() - i,
{
    if i < s.len() {
        lemma_word_is_all(s, i + 1);
    }
}

/// Whether source text is a value alone: a word, or a string in quotes.
spec fn spells_value(source: Seq<char>, value: Seq<char>) -> bool {
    is_name(source) && value == source || is_quotable(value) && source == seq!['"'] + value + seq![
        '"',
    ]
}

proof fn lemma_value_token(source: Seq<char>, value: Seq<char>)
    requires
        spells_value(source, value),
    ensures
        tokens(source, 0) is Ok,
        tokens(source, 0)->Ok_0.len() == 1,
        tokens(source, 0)->Ok_0[0] is Word || tokens(source, 0)->Ok_0[0] is Str,
        token_content(tokens(source, 0)->Ok_0[0]) == value,
{
    let none = Seq::<char>::empty();
    let n = source.len() as int;
    assert(source + none =~= source);
    assert(tokens(none, 0) == Ok::<Seq<TokView>, Seq<char>>(seq![]));
    if is_name(source) && value == source {
        assert(in_word(source[0]));
        lemma_word_is_all(source, 0);
        assert(source.subrange(0, n) =~= source);
        lemma_tokens_step(source, none, Some(TokView::Word(source)));
        assert(seq![TokView::Word(source)] + seq![] =~= seq![TokView::Word(source)]);
    } else {
        assert(source[0] == '"');
        assert forall|k: int| 1 <= k < n - 1 implies #[trigger] source[k] != '"' by {
            assert(source[k] == value[k - 1]);
        }
        assert(source[n - 1] == '"');
        lemma_quote_stops(source, 1, n - 1);
        assert(source.subrange(1, n - 1) =~= value);
        lemma_tokens_step(source, none, Some(TokView::Str(value)));
        assert(seq![TokView::Str(value)] + seq![] =~= seq![TokView::Str(value)]);
    }
}

/// A comparison compiles to the comparison that it spells.
proof fn lemma_comparison(
    field: Seq<char>,
    op: Seq<char>,
    rel: Relation,
    source: Seq<char>,
    value: Seq<char>,
)
    requires
        is_name(field),
        spells(op, rel),
        spells_value(source, value),
    ensures
        compiled(comparison(field, op, source)) == Ok::<ExprView, Seq<char>>(
            ExprView::Compare(field, rel, value),
        ),
{
    let tail = op + (" "@ + source);
    let last = tokens(source, 0)->Ok_0[0];
    lemma_value_token(source, value);
    assert(tokens(source, 0)->Ok_0 =~= seq![last]);
    lemma_operator(op, rel, source);
    reveal_strlit(" ");
    let s = comparison(field, op, source);
    let gap = " "@ + tail;
    lemma_token_read(TokView::Word(field), tail);
    assert(field + seq![' '] + tail =~= field + gap);
    lemma_tokens_step(field, gap, Some(TokView::Word(field)));
    assert(gap[0] == ' ');
    lemma_tokens_step(" "@, tail, None);
    let t = seq![TokView::Word(field), TokView::Op(rel), last];
    let m = seq![TokView::Op(rel)] + seq![last];
    assert(at_most_one(None) + m =~= m);
    assert(seq![TokView::Word(field)] + m =~= t);
    assert(tokens(s, 0) == Ok::<Seq<TokView>, Seq<char>>(t));
    let e = ExprView::Compare(field, rel, value);
    assert(is_operand(t, 0, 3, e));
    lemma_operand_is_or(t, 0, 3, e);
    law_parser_follows_grammar(t, e);
}

/// Whether all occurrences of a field are numbers.
pub open spec fn all_numbers(vs: Seq<ValueView>) -> bool {
    forall|i: int| 0 <= i < vs.len() ==> (#[trigger] vs[i]) is Uint
}

/// Whether some occurrence of a field is a number with a property.
pub open spec fn some_number(vs: Seq<ValueView>, p: spec_fn(int) -> bool) -> bool {
    exists|i: int| 0 <= i < vs.len() && (#[trigger] vs[i]) is Uint && p(vs[i]->Uint_0 as int)
}

/// Comparing a field with a number asks for an occurrence that stands in the
/// relation of that sign to the number, among the integers. `==` and `eq` are
/// the same, and so on.
pub open spec fn compares_numbers(
    tree: Seq<NodeView>,
    field: Seq<char>,
    source: Seq<char>,
    n: int,
) -> bool {
    let vs = named(entries(tree), field);
    &&& compiled(comparison(field, "=="@, source)) is Ok
    &&& says(comparison(field, "=="@, source), tree) == some_number(vs, |u: int| u == n)
    &&& says(comparison(field, "eq"@, source), tree) == some_number(vs, |u: int| u == n)
    &&& says(comparison(field, "!="@, source), tree) == some_number(vs, |u: int| u != n)
    &&& says(comparison(field, "ne"@, source), tree) == some_number(vs, |u: int| u != n)
    &&& says(comparison(field, "<"@, source), tree) == some_number(vs, |u: int| u < n)
    &&& says(comparison(field, "lt"@, source), tree) == some_number(vs, |u: int| u < n)
    &&& says(comparison(field, "<="@, source), tree) == some_number(vs, |u: int| u <= n)
    &&& says(comparison(field, "le"@, source), tree) == some_number(vs, |u: int| u <= n)
    &&& says(comparison(field, ">"@, source), tree) == some_number(vs, |u: int| u > n)
    &&& says(comparison(field, "gt"@, source), tree) == some_number(vs, |u: int| u > n)
    &&& says(comparison(field, ">="@, source), tree) == some_number(vs, |u: int| u >= n)
    &&& says(comparison(field, "ge"@, source), tree) == some_number(vs, |u: int| u >= n)
}

proof fn lemma_numbers(
    tree: Seq<NodeView>,
    field: Seq<char>,
    op: Seq<char>,
    rel: Relation,
    source: Seq<char>,
    n: u64,
    p: spec_fn(int) -> bool,
)
    requires
        is_name(field),
        is_name(source),
        spells(op, rel),
        uint(source) == Some(n),
        all_numbers(named(entries(tree), field)),
        forall|u: u64| #[trigger] holds(rel, number_order(u, n)) == p(u as int),
    ensures
        compiled(comparison(field, op, source)) is Ok,
        says(comparison(field, op, source), tree) == some_number(named(entries(tree), field), p),
{
    let vs = named(entries(tree), field);
    lemma_comparison(field, op, rel, source, source);
    assert forall|i: int| 0 <= i < vs.len() implies value_holds(#[trigger] vs[i], rel, source) == p(
        vs[i]->Uint_0 as int,
    ) by {
        assert(vs[i] is Uint);
        assert(holds(rel, number_order(vs[i]->Uint_0, n)) == p(vs[i]->Uint_0 as int));
    }
    if any_holds(vs, rel, source) {
        let i = choose|i: int| 0 <= i < vs.len() && value_holds(#[trigger] vs[i], rel, source);
        assert(vs[i] is Uint && p(vs[i]->Uint_0 as int));
    }
    if some_number(vs, p) {
        let i = choose|i: int|
            0 <= i < vs.len() && (#[trigger] vs[i]) is Uint && p(vs[i]->Uint_0 as int);
        assert(value_holds(vs[i], rel, source));
    }
}

proof fn lemma_compares_numbers(tree: Seq<NodeView>, field: Seq<char>, source: Seq<char>, n: u64)
    requires
        is_name(field),
        is_name(source),
        uint(source) == Some(n),
        all_numbers(named(entries(tree), field)),
    ensures
        compares_numbers(tree, field, source, n as int),
{
    let m = n as int;
    lemma_numbers(tree, field, "=="@, Relation::Eq, source, n, |u: int| u == m);
    lemma_numbers(tree, field, "eq"@, Relation::Eq, source, n, |u: int| u == m);
    lemma_numbers(tree, field, "!="@, Relation::Ne, source, n, |u: int| u != m);
    lemma_numbers(tree, field, "ne"@, Relation::Ne, source, n, |u: int| u != m);
    lemma_numbers(tree, field, "<"@, Relation::Lt, source, n, |u: int| u < m);
    lemma_numbers(tree, field, "lt"@, Relation::Lt, source, n, |u: int| u < m);
    lemma_numbers(tree, field, "<="@, Relation::Le, source, n, |u: int| u <= m);
    lemma_numbers(tree, field, "le"@, Relation::Le, source, n, |u: int| u <= m);
    lemma_numbers(tree, field, ">"@, Relation::Gt, source, n, |u: int| u > m);
    lemma_numbers(tree, field, "gt"@, Relation::Gt, source, n, |u: int| u > m);
    lemma_numbers(tree, field, ">="@, Relation::Ge, source, n, |u: int| u >= m);
    lemma_numbers(tree, field, "ge"@, Relation::Ge, source, n, |u: int| u >= m);
}

/// A text of digits and letters that starts with a digit is a word.
proof fn lemma_number_is_name(s: Seq<char>)
    requires
        s.len() > 0,
        forall|i: int| 0 <= i < s.len() ==> in_word(#[trigger] s[i]),
        '0' as int <= s[0] as int <= '9' as int,
    ensures
        is_name(s),
{
    reveal_strlit("and");
    reveal_strlit("or");
    reveal_strlit("not");
    reveal_strlit("eq");
    reveal_strlit("ne");
    reveal_strlit("lt");
    reveal_strlit("le");
    reveal_strlit("gt");
    reveal_strlit("ge");
    assert("and"@[0] == 'a' && "or"@[0] == 'o' && "not"@[0] == 'n' && "eq"@[0] == 'e');
    assert("ne"@[0] == 'n' && "lt"@[0] == 'l' && "le"@[0] == 'l' && "gt"@[0] == 'g' && "ge"@[0]
        == 'g');
}

proof fn lemma_decimal_is_word(n: nat)
    ensures
        dec_text(n).len() > 0,
        forall|i: int| 0 <= i < dec_text(n).len() ==> in_word(#[trigger] dec_text(n)[i]),
        forall|i: int|
            0 <= i < dec_text(n).len() ==> '0' as int <= #[trigger] dec_text(n)[i] as int
                <= '9' as int,
    decreases n,
{
    assert(digit(n % 10) as int == 48 + n % 10);
    if n >= 10 {
        lemma_decimal_is_word(n / 10);
    }
}

proof fn lemma_hexadecimal_is_word(n: nat)
    ensures
        forall|i: int| 0 <= i < hex_text(n).len() ==> in_word(#[trigger] hex_text(n)[i]),
    decreases n,
{
    let d = n % 16;
    if d < 10 {
        assert(digit(d) as int == 48 + d);
    } else {
        assert(digit(d) as int == 87 + d);
    }
    assert(in_word(digit(d)));
    if n >= 16 {
        lemma_hexadecimal_is_word(n / 16);
        let high = hex_text(n / 16);
        assert forall|i: int| 0 <= i < hex_text(n).len() implies in_word(
            #[trigger] hex_text(n)[i],
        ) by {
            if i < high.len() {
                assert(hex_text(n)[i] == high[i]);
            }
        }
    } else {
        assert(hex_text(n) == seq![digit(d)]);
    }
}

/// Comparing a numeric field with a number in decimal is comparing integers.
pub proof fn law_decimal_comparisons_are_integer_comparisons(
    tree: Seq<NodeView>,
    field: Seq<char>,
    n: u64,
)
    requires
        is_name(field),
        all_numbers(named(entries(tree), field)),
    ensures
        compares_numbers(tree, field, dec_text(n as nat), n as int),
{
    law_decimal_value(n);
    lemma_decimal_is_word(n as nat);
    lemma_number_is_name(dec_text(n as nat));
    lemma_compares_numbers(tree, field, dec_text(n as nat), n);
}

/// Comparing a numeric field with a number in hexadecimal is comparing
/// integers.
pub proof fn law_hexadecimal_comparisons_are_integer_comparisons(
    tree: Seq<NodeView>,
    field: Seq<char>,
    n: u64,
)
    requires
        is_name(field),
        all_numbers(named(entries(tree), field)),
    ensures
        compares_numbers(tree, field, seq!['0', 'x'] + hex_text(n as nat), n as int),
{
    let s = seq!['0', 'x'] + hex_text(n as nat);
    law_hexadecimal_value(n);
    lemma_hexadecimal_is_word(n as nat);
    assert forall|i: int| 0 <= i < s.len() implies in_word(#[trigger] s[i]) by {
        if i >= 2 {
            assert(s[i] == hex_text(n as nat)[i - 2]);
        }
    }
    lemma_number_is_name(s);
    lemma_compares_numbers(tree, field, s, n);
}

/// The relations of a value to a literal fit together: exactly one of `<`,
/// `==` and `>` holds wherever the value can be compared at all, and the other
/// three are made of these.
pub proof fn law_relations_fit_together(v: ValueView, literal: Seq<char>)
    ensures
        ({
            let lt = value_holds(v, Relation::Lt, literal);
            let eq = value_holds(v, Relation::Eq, literal);
            let gt = value_holds(v, Relation::Gt, literal);
            let comparable = v is Str || (v is Uint && uint(literal) is Some);
            &&& comparable ==> lt || eq || gt
            &&& !comparable ==> !lt && !eq && !gt
            &&& !(lt && eq) && !(lt && gt) && !(eq && gt)
            &&& value_holds(v, Relation::Le, literal) == (lt || eq)
            &&& value_holds(v, Relation::Ge, literal) == (gt || eq)
            &&& value_holds(v, Relation::Ne, literal) == (lt || gt)
        }),
{
}

/// Whether all occurrences of a field are texts.
pub open spec fn all_texts(vs: Seq<ValueView>) -> bool {
    forall|i: int| 0 <= i < vs.len() ==> (#[trigger] vs[i]) is Str
}

/// Whether some occurrence of a field is a text with a property.
pub open spec fn some_text(vs: Seq<ValueView>, p: spec_fn(Seq<char>) -> bool) -> bool {
    exists|i: int| 0 <= i < vs.len() && (#[trigger] vs[i]) is Str && p(vs[i]->Str_0)
}

proof fn lemma_texts(
    tree: Seq<NodeView>,
    field: Seq<char>,
    op: Seq<char>,
    rel: Relation,
    source: Seq<char>,
    value: Seq<char>,
    p: spec_fn(Seq<char>) -> bool,
)
    requires
        is_name(field),
        spells(op, rel),
        spells_value(source, value),
        all_texts(named(entries(tree), field)),
        forall|s: Seq<char>| #[trigger] value_holds(ValueView::Str(s), rel, value) == p(s),
    ensures
        compiled(comparison(field, op, source)) is Ok,
        says(comparison(field, op, source), tree) == some_text(named(entries(tree), field), p),
{
    let vs = named(entries(tree), field);
    lemma_comparison(field, op, rel, source, value);
    assert forall|i: int| 0 <= i < vs.len() implies value_holds(#[trigger] vs[i], rel, value) == p(
        vs[i]->Str_0,
    ) by {
        assert(vs[i] is Str);
        assert(value_holds(ValueView::Str(vs[i]->Str_0), rel, value) == p(vs[i]->Str_0));
    }
    if any_holds(vs, rel, value) {
        let i = choose|i: int| 0 <= i < vs.len() && value_holds(#[trigger] vs[i], rel, value);
        assert(vs[i] is Str && p(vs[i]->Str_0));
    }
    if some_text(vs, p) {
        let i = choose|i: int| 0 <= i < vs.len() && (#[trigger] vs[i]) is Str && p(vs[i]->Str_0);
        assert(value_holds(vs[i], rel, value));
    }
}

/// Comparing a text field with a word, or with a string in quotes, is
/// comparing texts in lexicographic order.
pub proof fn law_text_comparisons_are_lexicographic(
    tree: Seq<NodeView>,
    field: Seq<char>,
    source: Seq<char>,
    value: Seq<char>,
)
    requires
        is_name(field),
        all_texts(named(entries(tree), field)),
        is_name(source) && value == source || is_quotable(value) && source == seq!['"'] + value
            + seq!['"'],
    ensures
        ({
            let vs = named(entries(tree), field);
            &&& says(comparison(field, "=="@, source), tree) == some_text(
                vs,
                |s: Seq<char>| s == value,
            )
            &&& says(comparison(field, "!="@, source), tree) == some_text(
                vs,
                |s: Seq<char>| s != value,
            )
            &&& says(comparison(field, "<"@, source), tree) == some_text(
                vs,
                |s: Seq<char>| precedes(s, value),
            )
            &&& says(comparison(field, "<="@, source), tree) == some_text(
                vs,
                |s: Seq<char>| !precedes(value, s),
            )
            &&& says(comparison(field, ">"@, source), tree) == some_text(
                vs,
                |s: Seq<char>| precedes(value, s),
            )
            &&& says(comparison(field, ">="@, source), tree) == some_text(
                vs,
                |s: Seq<char>| !precedes(s, value),
            )
        }),
{
    assert forall|s: Seq<char>, rel: Relation| #[trigger]
        value_holds(ValueView::Str(s), rel, value) == match rel {
            Relation::Eq => s == value,
            Relation::Ne => s != value,
            Relation::Lt => precedes(s, value),
            Relation::Le => !precedes(value, s),
            Relation::Gt => precedes(value, s),
            Relation::Ge => !precedes(s, value),
        } by {
        law_order_is_lexicographic(s, value);
    }
    let p = |s: Seq<char>| precedes(s, value);
    lemma_texts(tree, field, "=="@, Relation::Eq, source, value, |s: Seq<char>| s == value);
    lemma_texts(tree, field, "!="@, Relation::Ne, source, value, |s: Seq<char>| s != value);
    lemma_texts(tree, field, "<"@, Relation::Lt, source, value, |s: Seq<char>| precedes(s, value));
    lemma_texts(
        tree,
        field,
        "<="@,
        Relation::Le,
        source,
        value,
        |s: Seq<char>| !precedes(value, s),
    );
    lemma_texts(tree, field, ">"@, Relation::Gt, source, value, |s: Seq<char>| precedes(value, s));
    lemma_texts(
        tree,
        field,
        ">="@,
        Relation::Ge,
        source,
        value,
        |s: Seq<char>| !precedes(s, value),
    );
}

/// A bare name is true of a tree exactly if some node has that name, or that
/// name, a dot and more.
pub proof fn law_bare_name_tests_for_existence(tree: Seq<NodeView>, name: Seq<char>)
    requires
        is_name(name),
    ensures
        compiled(name) is Ok,
        says(name, tree) <==> exists|i: int, rest: Seq<char>|
            #![trigger entries(tree)[i], seq!['.'] + rest]
            0 <= i < entries(tree).len() && (entries(tree)[i].abbrev == Some(name) || entries(
                tree,
            )[i].abbrev == Some(name + (seq!['.'] + rest))),
{
    let none = Seq::<char>::empty();
    let es = entries(tree);
    let e = ExprView::Exists(name);
    lemma_value_token(name, name);
    assert(in_word(name[0]));
    lemma_word_is_all(name, 0);
    assert(name.subrange(0, name.len() as int) =~= name);
    assert(name + none =~= name);
    lemma_tokens_step(name, none, Some(TokView::Word(name)));
    let t = seq![TokView::Word(name)];
    assert(tokens(none, 0) == Ok::<Seq<TokView>, Seq<char>>(seq![]));
    assert(t + seq![] =~= t);
    assert(is_operand(t, 0, 1, e));
    lemma_operand_is_or(t, 0, 1, e);
    law_parser_follows_grammar(t, e);
    if any_covered(es, name) {
        let i = choose|i: int|
            0 <= i < es.len() && (#[trigger] es[i]).abbrev is Some && covers(
                name,
                es[i].abbrev->0,
            );
        let a = es[i].abbrev->0;
        if a == name {
            assert(seq!['.'] + none == seq!['.'] + none);
        } else {
            let n = name.len() as int;
            let rest = a.skip(n + 1);
            assert(a =~= a.take(n) + (seq!['.'] + rest));
        }
    }
    assert forall|i: int, rest: Seq<char>|
        #![trigger es[i], seq!['.'] + rest]
        0 <= i < es.len() && (es[i].abbrev == Some(name) || es[i].abbrev == Some(
            name + (seq!['.'] + rest),
        )) implies any_covered(es, name) by {
        let a = es[i].abbrev->0;
        if a != name {
            let n = name.len() as int;
            assert(a.take(n) =~= name);
            assert(a[n] == '.');
        }
        assert(covers(name, a));
    }
}

/// The characters of names and unquoted values are the letters, the digits and
/// `.`, `_`, `:`, `/` and `-`.
pub proof fn law_word_characters(c: char)
    ensures
        in_word(c) <==> ('a' as int <= c as int <= 'z' as int || 'A' as int <= c as int
            <= 'Z' as int || '0' as int <= c as int <= '9' as int || c == '.' || c == '_' || c
            == ':' || c == '/' || c == '-'),
{
}

/// The words that are no names are the nine that spell an operator, in lower
/// case.
pub proof fn law_words_that_are_operators(w: Seq<char>)
    ensures
        word_token(w) == TokView::Word(w) <==> w != "and"@ && w != "or"@ && w != "not"@ && w
            != "eq"@ && w != "ne"@ && w != "lt"@ && w != "le"@ && w != "gt"@ && w != "ge"@,
{
}

/// Space, tab and line ends separate tokens and are no part of any.
pub proof fn law_blanks_separate(c: char, rest: Seq<char>)
    requires
        c == ' ' || c == '\t' || c == '\n' || c == '\r',
    ensures
        tokens(seq![c] + rest, 0) == tokens(rest, 0),
{
    let s = seq![c] + rest;
    assert(s[0] == c);
    lemma_tokens_step(seq![c], rest, None);
    if let Ok(m) = tokens(rest, 0) {
        assert(at_most_one(None) + m =~= m);
    }
}

// ---- precedence ----

/// A filter in parentheses, a connective, and more.
proof fn lemma_then(a: Seq<char>, op: Seq<char>, tok: TokView, rest: Seq<char>)
    requires
        op == "&&"@ && tok == TokView::And || op == "||"@ && tok == TokView::Or,
        tokens(a, 0) is Ok,
        tokens(rest, 0) is Ok,
    ensures
        tokens(parenthesised(a) + (" "@ + (op + (" "@ + rest))), 0) == Ok::<
            Seq<TokView>,
            Seq<char>,
        >(enclosed(tokens(a, 0)->Ok_0) + (seq![tok] + tokens(rest, 0)->Ok_0)),
{
    let behind = op + (" "@ + rest);
    lemma_connective(op, tok, rest);
    reveal_strlit(" ");
    assert((" "@ + behind)[0] == ' ');
    lemma_tokens_step(" "@, behind, None);
    let m = seq![tok] + tokens(rest, 0)->Ok_0;
    assert(at_most_one(None) + m =~= m);
    lemma_parenthesised(a, tokens(a, 0)->Ok_0, " "@ + behind);
}

/// Three filters in parentheses with connectives between.
pub open spec fn chained(
    a: Seq<char>,
    op1: Seq<char>,
    b: Seq<char>,
    op2: Seq<char>,
    c: Seq<char>,
) -> Seq<char> {
    parenthesised(a) + (" "@ + (op1 + (" "@ + connected(b, op2, c))))
}

/// `&&` binds tighter than `||`, on either side of it, and `!` binds tighter
/// than both.
pub proof fn law_connectives_bind(
    a: Seq<char>,
    b: Seq<char>,
    c: Seq<char>,
    ea: ExprView,
    eb: ExprView,
    ec: ExprView,
)
    requires
        compiled(a) == Ok::<ExprView, Seq<char>>(ea),
        compiled(b) == Ok::<ExprView, Seq<char>>(eb),
        compiled(c) == Ok::<ExprView, Seq<char>>(ec),
    ensures
        compiled(chained(a, "||"@, b, "&&"@, c)) == Ok::<ExprView, Seq<char>>(
            ExprView::Or(
                Box::new(ea),
                Box::new(ExprView::And(Box::new(eb), Box::new(ec))),
            ),
        ),
        compiled(chained(a, "&&"@, b, "||"@, c)) == Ok::<ExprView, Seq<char>>(
            ExprView::Or(
                Box::new(ExprView::And(Box::new(ea), Box::new(eb))),
                Box::new(ec),
            ),
        ),
        compiled("!"@ + connected(a, "&&"@, b)) == Ok::<ExprView, Seq<char>>(
            ExprView::And(Box::new(ExprView::Not(Box::new(ea))), Box::new(eb)),
        ),
        compiled("!"@ + connected(a, "||"@, b)) == Ok::<ExprView, Seq<char>>(
            ExprView::Or(Box::new(ExprView::Not(Box::new(ea))), Box::new(eb)),
        ),
{
    lemma_chained(a, "||"@, TokView::Or, b, "&&"@, TokView::And, c);
    lemma_chained(a, "&&"@, TokView::And, b, "||"@, TokView::Or, c);
    lemma_not_binds(a, "&&"@, TokView::And, b);
    lemma_not_binds(a, "||"@, TokView::Or, b);
}

/// The filter that two different connectives make of three filters.
proof fn lemma_chained(
    a: Seq<char>,
    op1: Seq<char>,
    tok1: TokView,
    b: Seq<char>,
    op2: Seq<char>,
    tok2: TokView,
    c: Seq<char>,
)
    requires
        compiled(a) is Ok,
        compiled(b) is Ok,
        compiled(c) is Ok,
        op1 == "||"@ && tok1 == TokView::Or && op2 == "&&"@ && tok2 == TokView::And || op1
            == "&&"@ && tok1 == TokView::And && op2 == "||"@ && tok2 == TokView::Or,
    ensures
        ({
            let (ea, eb, ec) = (compiled(a)->Ok_0, compiled(b)->Ok_0, compiled(c)->Ok_0);
            compiled(chained(a, op1, b, op2, c)) == Ok::<ExprView, Seq<char>>(
                if tok1 == TokView::Or {
                    ExprView::Or(
                        Box::new(ea),
                        Box::new(ExprView::And(Box::new(eb), Box::new(ec))),
                    )
                } else {
                    ExprView::Or(
                        Box::new(ExprView::And(Box::new(ea), Box::new(eb))),
                        Box::new(ec),
                    )
                },
            )
        }),
{
    let (ta, tb, tc) = (tokens(a, 0)->Ok_0, tokens(b, 0)->Ok_0, tokens(c, 0)->Ok_0);
    lemma_connected(b, op2, tok2, c);
    lemma_then(a, op1, tok1, connected(b, op2, c));
    lemma_chain(
        ta,
        tok1,
        tb,
        tok2,
        tc,
        compiled(a)->Ok_0,
        compiled(b)->Ok_0,
        compiled(c)->Ok_0,
    );
}

/// The filter that a negation before two connected filters makes.
proof fn lemma_not_binds(a: Seq<char>, op: Seq<char>, tok: TokView, b: Seq<char>)
    requires
        compiled(a) is Ok,
        compiled(b) is Ok,
        op == "||"@ && tok == TokView::Or || op == "&&"@ && tok == TokView::And,
    ensures
        ({
            let (ea, eb) = (compiled(a)->Ok_0, compiled(b)->Ok_0);
            compiled("!"@ + connected(a, op, b)) == Ok::<ExprView, Seq<char>>(
                if tok == TokView::And {
                    ExprView::And(Box::new(ExprView::Not(Box::new(ea))), Box::new(eb))
                } else {
                    ExprView::Or(Box::new(ExprView::Not(Box::new(ea))), Box::new(eb))
                },
            )
        }),
{
    let (ta, tb) = (tokens(a, 0)->Ok_0, tokens(b, 0)->Ok_0);
    lemma_connected(a, op, tok, b);
    reveal_strlit("!");
    reveal_strlit("(");
    let x = connected(a, op, b);
    assert(parenthesised(a)[0] == '(');
    assert(x[0] == '(');
    assert(("!"@ + x)[0] == '!' && ("!"@ + x)[1] == '(');
    lemma_tokens_step("!"@, x, Some(TokView::Not));
    lemma_negated_first(ta, tok, tb, compiled(a)->Ok_0, compiled(b)->Ok_0);
}

proof fn lemma_chain(
    a: Seq<TokView>,
    op1: TokView,
    b: Seq<TokView>,
    op2: TokView,
    c: Seq<TokView>,
    ea: ExprView,
    eb: ExprView,
    ec: ExprView,
)
    requires
        parse_all(a) == Ok::<ExprView, Seq<char>>(ea),
        parse_all(b) == Ok::<ExprView, Seq<char>>(eb),
        parse_all(c) == Ok::<ExprView, Seq<char>>(ec),
        op1 == TokView::Or && op2 == TokView::And || op1 == TokView::And && op2 == TokView::Or,
    ensures
        parse_all(enclosed(a) + (seq![op1] + joined_by(b, op2, c))) == Ok::<ExprView, Seq<char>>(
            if op1 == TokView::Or {
                ExprView::Or(
                    Box::new(ea),
                    Box::new(ExprView::And(Box::new(eb), Box::new(ec))),
                )
            } else {
                ExprView::Or(
                    Box::new(ExprView::And(Box::new(ea), Box::new(eb))),
                    Box::new(ec),
                )
            },
        ),
{
    let (wa, wb, wc) = (enclosed(a), enclosed(b), enclosed(c));
    let t = wa + (seq![op1] + joined_by(b, op2, c));
    let k1 = wa.len() as int;
    let k2 = k1 + 1 + wb.len();
    let n = t.len() as int;
    assert(stands_at(t, 0, wa));
    assert(t[k1] == op1);
    assert forall|m: int| 0 <= m < wb.len() implies #[trigger] wb[m] == t[k1 + 1 + m] by {
        assert(joined_by(b, op2, c)[m] == wb[m]);
    }
    assert(t[k2] == op2) by {
        assert(joined_by(b, op2, c)[wb.len() as int] == op2);
    }
    assert forall|m: int| 0 <= m < wc.len() implies #[trigger] wc[m] == t[k2 + 1 + m] by {
        assert(joined_by(b, op2, c)[wb.len() + 1 + m] == wc[m]);
    }
    lemma_enclosed(t, 0, a, ea);
    lemma_enclosed(t, k1 + 1, b, eb);
    lemma_enclosed(t, k2 + 1, c, ec);
    lemma_operand_is_or(t, 0, k1, ea);
    lemma_operand_is_or(t, k1 + 1, k2, eb);
    lemma_operand_is_or(t, k2 + 1, n, ec);
    if op1 == TokView::Or {
        let right = ExprView::And(Box::new(eb), Box::new(ec));
        assert(is_and(t, k1 + 1, k2, *right->And_0));
        assert(is_and(t, k1 + 1, n, right));
        let e = ExprView::Or(Box::new(ea), Box::new(right));
        assert(is_or(t, 0, k1, *e->Or_0));
        assert(is_or(t, 0, n, e));
        law_parser_follows_grammar(t, e);
    } else {
        let left = ExprView::And(Box::new(ea), Box::new(eb));
        assert(is_and(t, 0, k1, *left->And_0));
        assert(is_and(t, 0, k2, left));
        assert(is_or(t, 0, k2, left));
        let e = ExprView::Or(Box::new(left), Box::new(ec));
        assert(is_or(t, 0, k2, *e->Or_0));
        assert(is_or(t, 0, n, e));
        law_parser_follows_grammar(t, e);
    }
}

proof fn lemma_negated_first(
    a: Seq<TokView>,
    op: TokView,
    b: Seq<TokView>,
    ea: ExprView,
    eb: ExprView,
)
    requires
        parse_all(a) == Ok::<ExprView, Seq<char>>(ea),
        parse_all(b) == Ok::<ExprView, Seq<char>>(eb),
        op == TokView::And || op == TokView::Or,
    ensures
        parse_all(seq![TokView::Not] + joined_by(a, op, b)) == Ok::<ExprView, Seq<char>>(
            if op == TokView::And {
                ExprView::And(Box::new(ExprView::Not(Box::new(ea))), Box::new(eb))
            } else {
                ExprView::Or(Box::new(ExprView::Not(Box::new(ea))), Box::new(eb))
            },
        ),
{
    let (wa, wb) = (enclosed(a), enclosed(b));
    let j = joined_by(a, op, b);
    let t = seq![TokView::Not] + j;
    let k = 1 + wa.len() as int;
    let n = t.len() as int;
    assert forall|m: int| 0 <= m < wa.len() implies #[trigger] wa[m] == t[1 + m] by {
        assert(j[m] == wa[m]);
    }
    assert(t[k] == op) by {
        assert(j[wa.len() as int] == op);
    }
    assert forall|m: int| 0 <= m < wb.len() implies #[trigger] wb[m] == t[k + 1 + m] by {
        assert(j[wa.len() + 1 + m] == wb[m]);
    }
    lemma_enclosed(t, 1, a, ea);
    lemma_enclosed(t, k + 1, b, eb);
    lemma_operand_is_or(t, 1, k, ea);
    lemma_operand_is_or(t, k + 1, n, eb);
    let no = ExprView::Not(Box::new(ea));
    assert(t[0] == TokView::Not);
    assert(is_not(t, 1, k, *no->Not_0));
    assert(is_not(t, 0, k, no));
    assert(is_and(t, 0, k, no));
    assert(is_or(t, 0, k, no));
    if op == TokView::And {
        let e = ExprView::And(Box::new(no), Box::new(eb));
        assert(is_and(t, 0, k, *e->And_0));
        assert(is_and(t, 0, n, e));
        assert(is_or(t, 0, n, e));
        law_parser_follows_grammar(t, e);
    } else {
        let e = ExprView::Or(Box::new(no), Box::new(eb));
        assert(is_or(t, 0, k, *e->Or_0));
        assert(is_or(t, 0, n, e));
        law_parser_follows_grammar(t, e);
    }
}

// ---- what is no filter ----

/// A single `&`, `|` or `=` is no operator, whatever stands before and behind
/// it.
pub proof fn law_single_signs_are_refused(a: Seq<char>, c: char, b: Seq<char>)
    requires
        c == '&' || c == '|' || c == '=',
        compiled(a) is Ok,
    ensures
        compiled(parenthesised(a) + (" "@ + (seq![c] + (" "@ + b)))) == Err::<
            ExprView,
            Seq<char>,
        >(
            if c == '&' {
                "expected '&&'"@
            } else if c == '|' {
                "expected '||'"@
            } else {
                "expected '==' (single '=' is not valid)"@
            },
        ),
{
    reveal_strlit(" ");
    let tail = seq![c] + (" "@ + b);
    assert(tail[0] == c && tail[1] == ' ');
    assert(lexeme_at(tail, 0) is Err);
    assert((" "@ + tail)[0] == ' ');
    lemma_tokens_step(" "@, tail, None);
    lemma_parenthesised(a, tokens(a, 0)->Ok_0, " "@ + tail);
}

/// A quote that is not closed makes no filter.
pub proof fn law_open_quotes_are_refused(field: Seq<char>, text: Seq<char>)
    requires
        is_name(field),
        is_quotable(text),
    ensures
        compiled(comparison(field, "=="@, seq!['"'] + text)) == Err::<ExprView, Seq<char>>(
            "unterminated string literal"@,
        ),
{
    let source = seq!['"'] + text;
    let tail = "=="@ + (" "@ + source);
    lemma_no_quote(source, 1);
    assert(source[0] == '"');
    assert(lexeme_at(source, 0) is Err);
    lemma_operator("=="@, Relation::Eq, source);
    reveal_strlit(" ");
    let gap = " "@ + tail;
    lemma_token_read(TokView::Word(field), tail);
    assert(field + seq![' '] + tail =~= field + gap);
    lemma_tokens_step(field, gap, Some(TokView::Word(field)));
    assert(gap[0] == ' ');
    lemma_tokens_step(" "@, tail, None);
}

proof fn lemma_no_quote(s: Seq<char>, i: int)
    requires
        0 <= i <= s.len(),
        forall|k: int| i <= k < s.len() ==> #[trigger] s[k] != '"',
    ensures
        quote_at(s, i) == s.len(),
    decreases s.len() - i,
{
    if i < s.len() {
        lemma_no_quote(s, i + 1);
    }
}

/// A filter with no closing parenthesis, or with one too many, is none.
pub proof fn law_parentheses_are_paired(a: Seq<char>)
    requires
        compiled(a) is Ok,
    ensures
        compiled("("@ + a) == Err::<ExprView, Seq<char>>("expected ')'"@),
        compiled(parenthesised(a) + ")"@) == Err::<ExprView, Seq<char>>(
            "unexpected trailing input near token "@ + dec_text(
                (tokens(a, 0)->Ok_0.len() + 3) as nat,
            ),
        ),
        compiled(parenthesised(a)) == compiled(a),
{
    let ta = tokens(a, 0)->Ok_0;
    let ea = compiled(a)->Ok_0;
    let n = ta.len() as int;
    let none = Seq::<char>::empty();
    reveal_strlit("(");
    reveal_strlit(")");
    assert(("("@ + a)[0] == '(');
    lemma_tokens_step("("@, a, Some(TokView::LParen));
    let open = seq![TokView::LParen] + ta;
    law_parser_follows_grammar(ta, ea);
    assert forall|k: int| 0 <= k < n implies #[trigger] ta[k] == open[1 + k] by {}
    lemma_or_anywhere(open, 1, ta, 0, n, ea);
    lemma_complete_or(open, 1, n + 1, ea);
    assert(parse_operand(open, 0) == Err::<Parsed, Seq<char>>("expected ')'"@));
    assert(parse_not(open, 0) == Err::<Parsed, Seq<char>>("expected ')'"@));
    assert(parse_and(open, 0) == Err::<Parsed, Seq<char>>("expected ')'"@));
    assert(parse_or(open, 0) == Err::<Parsed, Seq<char>>("expected ')'"@));
    lemma_parenthesised(a, ta, none);
    assert(parenthesised(a) + none =~= parenthesised(a));
    assert(tokens(none, 0) == Ok::<Seq<TokView>, Seq<char>>(seq![]));
    let w = enclosed(ta);
    assert(w + seq![] =~= w);
    assert(stands_at(w, 0, w));
    lemma_enclosed(w, 0, ta, ea);
    lemma_operand_is_or(w, 0, n + 2, ea);
    law_parser_follows_grammar(w, ea);
    assert(")"@[0] == ')');
    assert(")"@ + none =~= ")"@);
    lemma_tokens_step(")"@, none, Some(TokView::RParen));
    assert(seq![TokView::RParen] + seq![] =~= seq![TokView::RParen]);
    lemma_parenthesised(a, ta, ")"@);
    let more = w + seq![TokView::RParen];
    assert forall|k: int| 0 <= k < w.len() implies #[trigger] w[k] == more[0 + k] by {}
    lemma_enclosed(more, 0, ta, ea);
    lemma_operand_is_or(more, 0, n + 2, ea);
    lemma_complete_or(more, 0, n + 2, ea);
}

// ---- digits ----

/// What digits are worth: `0` to `9`, and in hexadecimal `a` to `f` and `A` to
/// `F`, ten to fifteen; nothing else is a digit.
pub proof fn law_digits_are_worth(c: char)
    ensures
        ({
            let n = c as int;
            let decimal = '0' as int <= n <= '9' as int;
            let lower = 'a' as int <= n <= 'f' as int;
            let upper = 'A' as int <= n <= 'F' as int;
            &&& decimal ==> digit_value(c, 10) == Some((n - '0' as int) as nat) && digit_value(
                c,
                16,
            ) == Some((n - '0' as int) as nat)
            &&& lower ==> digit_value(c, 16) == Some((n - 'a' as int + 10) as nat)
            &&& upper ==> digit_value(c, 16) == Some((n - 'A' as int + 10) as nat)
            &&& !decimal ==> digit_value(c, 10) is None
            &&& !decimal && !lower && !upper ==> digit_value(c, 16) is None
        }),
{
}

/// A number in a fixed number of hexadecimal digits has that many, and they
/// stand for it where it fits.
pub proof fn law_fixed_width_is_the_number(n: nat, width: nat)
    ensures
        hex_fixed(n, width).len() == width,
        n < vstd::arithmetic::power::pow(16, width) ==> digits_value(hex_fixed(n, width), 16)
            == Some(n),
    decreases width,
{
    reveal(vstd::arithmetic::power::pow);
    if width > 0 {
        let w = (width - 1) as nat;
        law_fixed_width_is_the_number(n / 16, w);
        lemma_digit(n % 16, 16);
        let s = hex_fixed(n, width);
        assert(s.drop_last() =~= hex_fixed(n / 16, w));
        let p = vstd::arithmetic::power::pow(16, w);
        assert(vstd::arithmetic::power::pow(16, width) == 16 * p);
        assert(n < 16 * p ==> n / 16 < p);
    }
}

/// A character that neither starts a token nor separates two is refused, and
/// named.
pub proof fn law_odd_characters_are_refused(a: Seq<char>, c: char, b: Seq<char>)
    requires
        compiled(a) is Ok,
        !is_blank(c),
        !in_word(c),
        c != '(' && c != ')' && c != '&' && c != '|' && c != '=' && c != '!' && c != '<' && c
            != '>' && c != '"',
    ensures
        compiled(parenthesised(a) + (seq![c] + b)) == Err::<ExprView, Seq<char>>(
            "unexpected character '"@ + seq![c] + "'"@,
        ),
{
    let tail = seq![c] + b;
    assert(tail[0] == c);
    assert(lexeme_at(tail, 0) is Err);
    lemma_parenthesised(a, tokens(a, 0)->Ok_0, tail);
}

/// Where an operand is missing at the end, the filter ends unexpectedly; an
/// empty filter does too.
pub proof fn law_missing_operands_are_told(a: Seq<char>)
    requires
        compiled(a) is Ok,
    ensures
        compiled(Seq::empty()) == Err::<ExprView, Seq<char>>("unexpected end of filter"@),
        compiled(parenthesised(a) + "&&"@) == Err::<ExprView, Seq<char>>(
            "unexpected end of filter"@,
        ),
        compiled(parenthesised(a) + "||"@) == Err::<ExprView, Seq<char>>(
            "unexpected end of filter"@,
        ),
        compiled("!"@) == Err::<ExprView, Seq<char>>("unexpected end of filter"@),
{
    let none = Seq::<char>::empty();
    let nothing = Seq::<TokView>::empty();
    reveal_strlit("&&");
    reveal_strlit("||");
    reveal_strlit("!");
    assert(tokens(none, 0) == Ok::<Seq<TokView>, Seq<char>>(seq![]));
    let message = Err::<Parsed, Seq<char>>("unexpected end of filter"@);
    assert(parse_operand(nothing, 0) == message);
    assert(parse_not(nothing, 0) == message);
    assert(parse_and(nothing, 0) == message);
    assert("&&"@ + none =~= "&&"@);
    assert("||"@ + none =~= "||"@);
    assert("!"@ + none =~= "!"@);
    lemma_tokens_step("&&"@, none, Some(TokView::And));
    lemma_tokens_step("||"@, none, Some(TokView::Or));
    lemma_tokens_step("!"@, none, Some(TokView::Not));
    assert(seq![TokView::And] + nothing =~= seq![TokView::And]);
    assert(seq![TokView::Or] + nothing =~= seq![TokView::Or]);
    assert(seq![TokView::Not] + nothing =~= seq![TokView::Not]);
    let ta = tokens(a, 0)->Ok_0;
    lemma_parenthesised(a, ta, "&&"@);
    lemma_parenthesised(a, ta, "||"@);
    lemma_left_open(ta, compiled(a)->Ok_0, TokView::And);
    lemma_left_open(ta, compiled(a)->Ok_0, TokView::Or);
    let not = seq![TokView::Not];
    assert(parse_operand(not, 1) == message);
    assert(parse_not(not, 1) == message);
    assert(parse_not(not, 0) == message);
    assert(parse_and(not, 0) == message);
}

/// An operand in parentheses and a connective with nothing behind it.
proof fn lemma_left_open(ta: Seq<TokView>, ea: ExprView, tok: TokView)
    requires
        parse_all(ta) == Ok::<ExprView, Seq<char>>(ea),
        tok == TokView::And || tok == TokView::Or,
    ensures
        parse_all(enclosed(ta) + seq![tok]) == Err::<ExprView, Seq<char>>(
            "unexpected end of filter"@,
        ),
{
    let w = enclosed(ta);
    let t = w + seq![tok];
    let n = w.len() as int;
    assert forall|k: int| 0 <= k < n implies #[trigger] w[k] == t[0 + k] by {}
    lemma_enclosed(t, 0, ta, ea);
    assert(t[n] == tok);
    lemma_complete_operand(t, 0, n, ea);
    assert(t[0] == TokView::LParen);
    assert(parse_not(t, 0) == parse_operand(t, 0));
    let message = Err::<Parsed, Seq<char>>("unexpected end of filter"@);
    assert(parse_operand(t, n + 1) == message);
    assert(parse_not(t, n + 1) == message);
    assert(parse_and(t, n + 1) == message);
    if tok == TokView::And {
        assert(parse_and_more(t, ea, n) == message);
    } else {
        assert(parse_and_more(t, ea, n) == Ok::<Parsed, Seq<char>>(Parsed { expr: ea, end: n }));
        assert(parse_or_more(t, ea, n) == message);
    }
}

/// An operator of comparison needs a value behind it.
pub proof fn law_missing_values_are_told(field: Seq<char>, op: Relation, rest: Seq<TokView>)
    requires
        rest.len() == 0 || !(rest[0] is Word || rest[0] is Str),
    ensures
        parse_all(seq![TokView::Word(field), TokView::Op(op)] + rest) == Err::<
            ExprView,
            Seq<char>,
        >("expected a value after operator for '"@ + field + "'"@),
{
    let t = seq![TokView::Word(field), TokView::Op(op)] + rest;
    assert(t[0] == TokView::Word(field));
    assert(t[1] == TokView::Op(op));
    if rest.len() > 0 {
        assert(t[2] == rest[0]);
    }
    let message = Err::<Parsed, Seq<char>>(
        "expected a value after operator for '"@ + field + "'"@,
    );
    assert(parse_operand(t, 0) == message);
    assert(parse_not(t, 0) == message);
    assert(parse_and(t, 0) == message);
}

/// A token that cannot start a filter is refused by name.
pub proof fn law_unexpected_tokens_are_named(tok: TokView, rest: Seq<TokView>)
    requires
        tok !is Word,
        tok !is LParen,
        tok !is Not,
    ensures
        parse_all(seq![tok] + rest) == Err::<ExprView, Seq<char>>(
            match tok {
                TokView::Str(s) => "unexpected token "@ + ("Str("@ + quoted(s) + ")"@),
                TokView::And => "unexpected token "@ + "And"@,
                TokView::Or => "unexpected token "@ + "Or"@,
                TokView::RParen => "unexpected token "@ + "RParen"@,
                TokView::Op(Relation::Eq) => "unexpected token "@ + "Op(Eq)"@,
                TokView::Op(Relation::Ne) => "unexpected token "@ + "Op(Ne)"@,
                TokView::Op(Relation::Lt) => "unexpected token "@ + "Op(Lt)"@,
                TokView::Op(Relation::Le) => "unexpected token "@ + "Op(Le)"@,
                TokView::Op(Relation::Gt) => "unexpected token "@ + "Op(Gt)"@,
                _ => "unexpected token "@ + "Op(Ge)"@,
            },
        ),
{
    let t = seq![tok] + rest;
    assert(t[0] == tok);
    let message = Err::<Parsed, Seq<char>>(unexpected(tok));
    assert(parse_operand(t, 0) == message);
    assert(parse_not(t, 0) == message);
    assert(parse_and(t, 0) == message);
}

// ---- values ----

/// White space around a value does not matter.
pub proof fn law_values_are_trimmed(c: char, s: Seq<char>)
    requires
        is_blank(c),
        s.len() > 0,
        !is_blank(s[0]),
    ensures
        uint(seq![c] + s) == uint(s),
        uint(s.push(c)) == uint(s),
{
    let front = seq![c] + s;
    assert(front[0] == c);
    assert(front.drop_first() =~= s);
    let back = s.push(c);
    assert(back[0] == s[0]);
    assert(back.drop_last() =~= s);
    assert(trim_front(front) == s);
    assert(trim_front(back) == back);
    assert(trim_back(back) == trim_back(s));
}

/// A number may have a plus sign before it, but no minus sign.
pub proof fn law_signs_of_values(n: u64)
    ensures
        uint(seq!['+'] + dec_text(n as nat)) == Some(n),
        uint(seq!['-'] + dec_text(n as nat)) is None,
{
    let digits = dec_text(n as nat);
    lemma_decimal_digits(n as nat);
    let s = seq!['+'] + digits;
    let t = seq!['-'] + digits;
    assert(s[0] == '+' && t[0] == '-');
    assert(s.last() == digits.last() && t.last() == digits.last());
    assert(trim_back(trim_front(s)) == s);
    assert(trim_back(trim_front(t)) == t);
    assert(s.skip(1) =~= digits);
    lemma_not_a_digit(t, 0);
}

/// A text with a character that is no digit stands for no number.
proof fn lemma_not_a_digit(s: Seq<char>, k: int)
    requires
        0 <= k < s.len(),
        digit_value(s[k], 10) is None,
    ensures
        digits_value(s, 10) is None,
    decreases s.len(),
{
    if k < s.len() - 1 {
        lemma_not_a_digit(s.drop_last(), k);
    }
}

/// A value that is too large for 64 bits is no number.
pub proof fn law_large_values_are_no_numbers(n: nat)
    requires
        n > u64::MAX,
    ensures
        uint(dec_text(n)) is None,
{
    let s = dec_text(n);
    lemma_decimal_digits(n);
    assert(!is_blank(s[0]));
    assert(!is_blank(s[s.len() - 1]));
    assert(trim_back(trim_front(s)) == s);
    if s.len() >= 2 {
        assert(s[1] != 'x' && s[1] != 'X');
    }
    assert(s[0] != '+');
}

/// A number stands in no relation, not even in that of being unequal, to a
/// value that is no number; and a node without a value stands in none at all.
pub proof fn law_numbers_compare_with_numbers_alone(
    u: u64,
    op: Relation,
    literal: Seq<char>,
)
    ensures
        uint(literal) is None ==> !value_holds(ValueView::Uint(u), op, literal),
        !value_holds(ValueView::Empty, op, literal),
{
}

} // verus!
