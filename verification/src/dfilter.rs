//! Display filters: a small expression language over the detail tree.
//!
//! Grammar, lowest to highest precedence:
//!
//! ```text
//!   or   := and  ( ('||' | 'or')  and )*
//!   and  := not  ( ('&&' | 'and') not )*
//!   not  := ('!' | 'not') not | primary
//!   primary := '(' or ')' | comparison | existence
//!   comparison := FIELD op VALUE
//!   existence  := FIELD
//!   op   := '==' | '!=' | '<' | '<=' | '>' | '>='  (or eq/ne/lt/le/gt/ge)
//! ```
//!
//! A FIELD is a dotted name. A VALUE is an unquoted word or a quoted string.
//! A numeric field takes the value as a number (decimal or `0x` hexadecimal),
//! a text field compares by characters. A comparison holds if any occurrence
//! of the field satisfies it; a bare name tests for existence.

use vstd::prelude::*;
use vstd::slice::slice_subrange;

use crate::field::{collect, present, Node, Value};
#[allow(unused_imports)]
use crate::field::{
    any_covered,
    entries,
    named,
    values,
    views,
    NodeView,
    ValueView,
};
use crate::text::{cat2, cat3, chars_of, dec, order, same, string_of, Order};
#[allow(unused_imports)]
use crate::text::{dec_text, text_order};

verus! {

// ---- relations ----

/// A comparison operator.
#[derive(Debug, Clone, Copy, PartialEq, Eq, Structural)]
pub enum Relation {
    Eq,
    Ne,
    Lt,
    Le,
    Gt,
    Ge,
}

/// Whether two values in a given order stand in a relation.
pub open spec fn holds(op: Relation, order: Order) -> bool {
    match op {
        Relation::Eq => order == Order::Equal,
        Relation::Ne => order != Order::Equal,
        Relation::Lt => order == Order::Less,
        Relation::Le => order != Order::Greater,
        Relation::Gt => order == Order::Greater,
        Relation::Ge => order != Order::Less,
    }
}

impl Relation {
    fn apply(self, ord: Order) -> (r: bool)
        ensures
            r == holds(self, ord),
    {
        match self {
            Relation::Eq => ord == Order::Equal,
            Relation::Ne => ord != Order::Equal,
            Relation::Lt => ord == Order::Less,
            Relation::Le => ord != Order::Greater,
            Relation::Gt => ord == Order::Greater,
            Relation::Ge => ord != Order::Less,
        }
    }
}

/// The order of two numbers.
pub open spec fn number_order(a: u64, b: u64) -> Order {
    if a < b {
        Order::Less
    } else if a == b {
        Order::Equal
    } else {
        Order::Greater
    }
}

// ---- characters ----

/// Whether a character is white space.
pub open spec fn is_blank(c: char) -> bool {
    let n = c as int;
    9 <= n <= 13 || n == 0x20 || n == 0x85 || n == 0xa0 || n == 0x1680 || 0x2000 <= n <= 0x200a
        || n == 0x2028 || n == 0x2029 || n == 0x202f || n == 0x205f || n == 0x3000
}

fn blank_char(c: char) -> (r: bool)
    ensures
        r == is_blank(c),
{
    ('\u{9}' <= c && c <= '\u{d}') || c == '\u{20}' || c == '\u{85}' || c == '\u{a0}' || c
        == '\u{1680}' || ('\u{2000}' <= c && c <= '\u{200a}') || c == '\u{2028}' || c
        == '\u{2029}' || c == '\u{202f}' || c == '\u{205f}' || c == '\u{3000}'
}

/// Whether a character can stand in a field name or an unquoted value.
pub open spec fn in_word(c: char) -> bool {
    let n = c as int;
    0x30 <= n <= 0x39 || 0x41 <= n <= 0x5a || 0x61 <= n <= 0x7a || c == '.' || c == '_' || c == ':'
        || c == '/' || c == '-'
}

fn is_word_char(c: char) -> (r: bool)
    ensures
        r == in_word(c),
{
    ('0' <= c && c <= '9') || ('A' <= c && c <= 'Z') || ('a' <= c && c <= 'z') || c == '.' || c
        == '_' || c == ':' || c == '/' || c == '-'
}

// ---- numbers in values ----

/// A text without the white space before it.
pub open spec fn trim_front(s: Seq<char>) -> Seq<char>
    decreases s.len(),
{
    if s.len() > 0 && is_blank(s[0]) {
        trim_front(s.drop_first())
    } else {
        s
    }
}

/// A text without the white space behind it.
pub open spec fn trim_back(s: Seq<char>) -> Seq<char>
    decreases s.len(),
{
    if s.len() > 0 && is_blank(s.last()) {
        trim_back(s.drop_last())
    } else {
        s
    }
}

/// What a character is worth as a digit, if it is one in the given base.
pub open spec fn digit_value(c: char, base: nat) -> Option<nat> {
    let n = c as int;
    let d = if 0x30 <= n <= 0x39 {
        n - 0x30
    } else if 0x41 <= n <= 0x5a {
        n - 0x41 + 10
    } else if 0x61 <= n <= 0x7a {
        n - 0x61 + 10
    } else {
        base as int
    };
    if d < base {
        Some(d as nat)
    } else {
        None
    }
}

/// The number that digits stand for; no digits stand for 0.
pub open spec fn digits_value(s: Seq<char>, base: nat) -> Option<nat>
    decreases s.len(),
{
    if s.len() == 0 {
        Some(0)
    } else {
        match (digits_value(s.drop_last(), base), digit_value(s.last(), base)) {
            (Some(high), Some(low)) => Some(high * base + low),
            _ => None,
        }
    }
}

/// The number that a text stands for in a base: at least one digit, after a
/// plus sign or not, and not too large.
pub open spec fn number(s: Seq<char>, base: nat) -> Option<u64> {
    let digits = if s.len() > 0 && s[0] == '+' {
        s.skip(1)
    } else {
        s
    };
    match digits_value(digits, base) {
        Some(n) => if digits.len() > 0 && n <= u64::MAX {
            Some(n as u64)
        } else {
            None
        },
        None => None,
    }
}

/// The number that a value stands for: hexadecimal behind `0x`, else decimal;
/// white space around it does not matter.
pub open spec fn uint(literal: Seq<char>) -> Option<u64> {
    let s = trim_back(trim_front(literal));
    if s.len() >= 2 && s[0] == '0' && (s[1] == 'x' || s[1] == 'X') {
        number(s.skip(2), 16)
    } else {
        number(s, 10)
    }
}

fn digit_of(c: char, base: u64) -> (r: Option<u64>)
    requires
        base == 10 || base == 16,
    ensures
        match r {
            Some(d) => digit_value(c, base as nat) == Some(d as nat) && d < base,
            None => digit_value(c, base as nat) is None,
        },
{
    let d: u64 = match c {
        '0' => 0,
        '1' => 1,
        '2' => 2,
        '3' => 3,
        '4' => 4,
        '5' => 5,
        '6' => 6,
        '7' => 7,
        '8' => 8,
        '9' => 9,
        'a' | 'A' => 10,
        'b' | 'B' => 11,
        'c' | 'C' => 12,
        'd' | 'D' => 13,
        'e' | 'E' => 14,
        'f' | 'F' => 15,
        _ => return None,
    };
    if d < base {
        Some(d)
    } else {
        None
    }
}

/// More digits make a number no smaller.
proof fn lemma_digits_grow(s: Seq<char>, k: int, base: nat)
    requires
        0 <= k <= s.len(),
        base >= 1,
        digits_value(s, base) is Some,
    ensures
        digits_value(s.take(k), base) is Some,
        digits_value(s.take(k), base)->0 <= digits_value(s, base)->0,
    decreases s.len(),
{
    if k == s.len() {
        assert(s.take(k) =~= s);
    } else {
        lemma_digits_grow(s.drop_last(), k, base);
        assert(s.drop_last().take(k) =~= s.take(k));
        let high = digits_value(s.drop_last(), base)->0;
        assert(high <= high * base) by (nonlinear_arith)
            requires
                base >= 1,
        ;
    }
}

fn parse_digits(s: &[char], base: u64) -> (r: Option<u64>)
    requires
        base == 10 || base == 16,
    ensures
        r == match digits_value(s@, base as nat) {
            Some(n) => if s@.len() > 0 && n <= u64::MAX {
                Some(n as u64)
            } else {
                None
            },
            None => None,
        },
{
    if s.len() == 0 {
        return None;
    }
    let mut value: u64 = 0;
    let mut i: usize = 0;
    while i < s.len()
        invariant
            base == 10 || base == 16,
            i <= s@.len(),
            digits_value(s@.take(i as int), base as nat) == Some(value as nat),
        decreases s@.len() - i,
    {
        let ghost here = s@.take(i + 1);
        proof {
            assert(here.drop_last() =~= s@.take(i as int));
            if digits_value(s@, base as nat) is Some {
                lemma_digits_grow(s@, i + 1, base as nat);
            }
        }
        let d = match digit_of(s[i], base) {
            Some(d) => d,
            None => return None,
        };
        assert(digits_value(here, base as nat) == Some((value * base + d) as nat));
        let shifted = match value.checked_mul(base) {
            Some(v) => v,
            None => return None,
        };
        value = match shifted.checked_add(d) {
            Some(v) => v,
            None => return None,
        };
        i += 1;
    }
    assert(s@.take(s@.len() as int) =~= s@);
    Some(value)
}

fn parse_number(s: &[char], base: u64) -> (r: Option<u64>)
    requires
        base == 10 || base == 16,
    ensures
        r == number(s@, base as nat),
{
    if s.len() > 0 && s[0] == '+' {
        let rest = slice_subrange(s, 1, s.len());
        assert(rest@ =~= s@.skip(1));
        parse_digits(rest, base)
    } else {
        parse_digits(s, base)
    }
}

fn parse_uint(literal: &str) -> (r: Option<u64>)
    ensures
        r == uint(literal@),
{
    let chars = chars_of(literal);
    let mut from: usize = 0;
    assert(chars@.skip(0) =~= chars@);
    while from < chars.len() && blank_char(chars[from])
        invariant
            from <= chars@.len(),
            trim_front(chars@.skip(from as int)) == trim_front(chars@),
        decreases chars@.len() - from,
    {
        assert(chars@.skip(from as int).drop_first() =~= chars@.skip(from + 1));
        from += 1;
    }
    let ghost front = chars@.skip(from as int);
    let mut to = chars.len();
    assert(chars@.subrange(from as int, to as int) =~= front);
    while to > from && blank_char(chars[to - 1])
        invariant
            from <= to <= chars@.len(),
            trim_back(chars@.subrange(from as int, to as int)) == trim_back(front),
        decreases to,
    {
        assert(chars@.subrange(from as int, to as int).drop_last() =~= chars@.subrange(
            from as int,
            to - 1,
        ));
        to -= 1;
    }
    let s = slice_subrange(chars.as_slice(), from, to);
    assert(s@ == trim_back(trim_front(literal@)));
    if s.len() >= 2 && s[0] == '0' && (s[1] == 'x' || s[1] == 'X') {
        let hex = slice_subrange(s, 2, s.len());
        assert(hex@ =~= s@.skip(2));
        parse_number(hex, 16)
    } else {
        parse_number(s, 10)
    }
}

// ---- expressions ----

/// A filter expression.
#[derive(Debug)]
pub enum Expr {
    Or(Box<Expr>, Box<Expr>),
    And(Box<Expr>, Box<Expr>),
    Not(Box<Expr>),
    Exists(String),
    Compare(String, Relation, String),
}

/// What an [`Expr`] says.
pub ghost enum ExprView {
    Or(Box<ExprView>, Box<ExprView>),
    And(Box<ExprView>, Box<ExprView>),
    Not(Box<ExprView>),
    Exists(Seq<char>),
    Compare(Seq<char>, Relation, Seq<char>),
}

/// The view of an expression.
pub open spec fn expr_view(e: Expr) -> ExprView
    decreases e,
{
    match e {
        Expr::Or(a, b) => ExprView::Or(Box::new(expr_view(*a)), Box::new(expr_view(*b))),
        Expr::And(a, b) => ExprView::And(Box::new(expr_view(*a)), Box::new(expr_view(*b))),
        Expr::Not(a) => ExprView::Not(Box::new(expr_view(*a))),
        Expr::Exists(name) => ExprView::Exists(name@),
        Expr::Compare(field, op, value) => ExprView::Compare(field@, op, value@),
    }
}

impl View for Expr {
    type V = ExprView;

    open spec fn view(&self) -> ExprView {
        expr_view(*self)
    }
}

impl Clone for Expr {
    fn clone(&self) -> (r: Self)
        ensures
            r@ == self@,
        decreases self,
    {
        match self {
            Expr::Or(a, b) => Expr::Or(Box::new((&**a).clone()), Box::new((&**b).clone())),
            Expr::And(a, b) => Expr::And(Box::new((&**a).clone()), Box::new((&**b).clone())),
            Expr::Not(a) => Expr::Not(Box::new((&**a).clone())),
            Expr::Exists(name) => Expr::Exists(name.clone()),
            Expr::Compare(field, op, value) => Expr::Compare(field.clone(), *op, value.clone()),
        }
    }
}

/// Whether a field value stands in a relation to a literal. A number compares
/// with the number that the literal stands for, and with no other literal;
/// text compares with the literal as it is.
pub open spec fn value_holds(v: ValueView, op: Relation, literal: Seq<char>) -> bool {
    match v {
        ValueView::Uint(u) => match uint(literal) {
            Some(n) => holds(op, number_order(u, n)),
            None => false,
        },
        ValueView::Str(s) => holds(op, text_order(s, literal)),
        ValueView::Empty => false,
    }
}

/// Whether some value stands in a relation to a literal.
pub open spec fn any_holds(vs: Seq<ValueView>, op: Relation, literal: Seq<char>) -> bool {
    exists|i: int| 0 <= i < vs.len() && value_holds(#[trigger] vs[i], op, literal)
}

/// Whether an expression is true of a tree.
pub open spec fn truth(e: ExprView, tree: Seq<NodeView>) -> bool
    decreases e,
{
    match e {
        ExprView::Or(a, b) => truth(*a, tree) || truth(*b, tree),
        ExprView::And(a, b) => truth(*a, tree) && truth(*b, tree),
        ExprView::Not(a) => !truth(*a, tree),
        ExprView::Exists(name) => any_covered(entries(tree), name),
        ExprView::Compare(field, op, value) => any_holds(
            named(entries(tree), field),
            op,
            value,
        ),
    }
}

fn value_matches(v: &Value, op: Relation, literal: &str) -> (r: bool)
    ensures
        r == value_holds(v@, op, literal@),
{
    match v {
        Value::Uint(u) => match parse_uint(literal) {
            Some(n) => op.apply(
                if *u < n {
                    Order::Less
                } else if *u == n {
                    Order::Equal
                } else {
                    Order::Greater
                },
            ),
            None => false,
        },
        Value::Str(s) => op.apply(order(s.as_str(), literal)),
        Value::Empty => false,
    }
}

impl Expr {
    fn eval(&self, tree: &[Node]) -> (r: bool)
        ensures
            r == truth(self@, views(tree@)),
        decreases self,
    {
        match self {
            Expr::Or(a, b) => (&**a).eval(tree) || (&**b).eval(tree),
            Expr::And(a, b) => (&**a).eval(tree) && (&**b).eval(tree),
            Expr::Not(a) => !(&**a).eval(tree),
            Expr::Exists(name) => present(tree, name.as_str()),
            Expr::Compare(field, op, value) => {
                let found = collect(tree, field.as_str());
                let ghost vs = named(entries(views(tree@)), field@);
                for i in 0..found.len()
                    invariant
                        values(found@) == vs,
                        truth(self@, views(tree@)) == any_holds(vs, *op, value@),
                        forall|j: int|
                            0 <= j < i ==> !value_holds(#[trigger] vs[j], *op, value@),
                {
                    assert(vs[i as int] == found@[i as int]@);
                    if value_matches(found[i], *op, value.as_str()) {
                        assert(any_holds(vs, *op, value@));
                        return true;
                    }
                }
                assert(!any_holds(vs, *op, value@));
                false
            },
        }
    }
}

// ---- lexer ----

/// A token of filter source.
#[derive(Debug)]
pub enum Tok {
    Word(String),
    Str(String),
    Op(Relation),
    And,
    Or,
    Not,
    LParen,
    RParen,
}

/// What a [`Tok`] says.
pub ghost enum TokView {
    Word(Seq<char>),
    Str(Seq<char>),
    Op(Relation),
    And,
    Or,
    Not,
    LParen,
    RParen,
}

impl View for Tok {
    type V = TokView;

    open spec fn view(&self) -> TokView {
        match self {
            Tok::Word(w) => TokView::Word(w@),
            Tok::Str(s) => TokView::Str(s@),
            Tok::Op(op) => TokView::Op(*op),
            Tok::And => TokView::And,
            Tok::Or => TokView::Or,
            Tok::Not => TokView::Not,
            Tok::LParen => TokView::LParen,
            Tok::RParen => TokView::RParen,
        }
    }
}

/// The views of some tokens.
pub open spec fn tok_views(ts: Seq<Tok>) -> Seq<TokView> {
    Seq::new(ts.len(), |i: int| ts[i]@)
}

/// The token of a word: an operator for the words that name one, else the
/// word itself.
pub open spec fn word_token(w: Seq<char>) -> TokView {
    if w == "and"@ {
        TokView::And
    } else if w == "or"@ {
        TokView::Or
    } else if w == "not"@ {
        TokView::Not
    } else if w == "eq"@ {
        TokView::Op(Relation::Eq)
    } else if w == "ne"@ {
        TokView::Op(Relation::Ne)
    } else if w == "lt"@ {
        TokView::Op(Relation::Lt)
    } else if w == "le"@ {
        TokView::Op(Relation::Le)
    } else if w == "gt"@ {
        TokView::Op(Relation::Gt)
    } else if w == "ge"@ {
        TokView::Op(Relation::Ge)
    } else {
        TokView::Word(w)
    }
}

/// Where the word that reaches to `i` ends.
pub open spec fn word_end(s: Seq<char>, i: int) -> int
    decreases s.len() - i,
{
    if 0 <= i < s.len() && in_word(s[i]) {
        word_end(s, i + 1)
    } else {
        i
    }
}

/// Where the next quote from `i` on stands; the length of the text if there is
/// none.
pub open spec fn quote_at(s: Seq<char>, i: int) -> int
    decreases s.len() - i,
{
    if 0 <= i < s.len() && s[i] != '"' {
        quote_at(s, i + 1)
    } else {
        i
    }
}

/// A token, or white space, and where it ends.
pub ghost struct Lexeme {
    pub token: Option<TokView>,
    pub end: int,
}

/// A token that ends at `end`.
pub open spec fn lexeme(token: TokView, end: int) -> Result<Lexeme, Seq<char>> {
    Ok(Lexeme { token: Some(token), end })
}

/// What starts at `i`.
pub open spec fn lexeme_at(s: Seq<char>, i: int) -> Result<Lexeme, Seq<char>> {
    let c = s[i];
    let twice = i + 1 < s.len() && s[i + 1] == c;
    let equals = i + 1 < s.len() && s[i + 1] == '=';
    if is_blank(c) {
        Ok(Lexeme { token: None, end: i + 1 })
    } else if c == '(' {
        lexeme(TokView::LParen, i + 1)
    } else if c == ')' {
        lexeme(TokView::RParen, i + 1)
    } else if c == '&' {
        if twice {
            lexeme(TokView::And, i + 2)
        } else {
            Err("expected '&&'"@)
        }
    } else if c == '|' {
        if twice {
            lexeme(TokView::Or, i + 2)
        } else {
            Err("expected '||'"@)
        }
    } else if c == '=' {
        if equals {
            lexeme(TokView::Op(Relation::Eq), i + 2)
        } else {
            Err("expected '==' (single '=' is not valid)"@)
        }
    } else if c == '!' {
        if equals {
            lexeme(TokView::Op(Relation::Ne), i + 2)
        } else {
            lexeme(TokView::Not, i + 1)
        }
    } else if c == '<' {
        if equals {
            lexeme(TokView::Op(Relation::Le), i + 2)
        } else {
            lexeme(TokView::Op(Relation::Lt), i + 1)
        }
    } else if c == '>' {
        if equals {
            lexeme(TokView::Op(Relation::Ge), i + 2)
        } else {
            lexeme(TokView::Op(Relation::Gt), i + 1)
        }
    } else if c == '"' {
        let end = quote_at(s, i + 1);
        if end < s.len() {
            lexeme(TokView::Str(s.subrange(i + 1, end)), end + 1)
        } else {
            Err("unterminated string literal"@)
        }
    } else if in_word(c) {
        lexeme(word_token(s.subrange(i, word_end(s, i))), word_end(s, i))
    } else {
        Err("unexpected character '"@ + seq![c] + "'"@)
    }
}

/// An optional token as a list.
pub open spec fn at_most_one(t: Option<TokView>) -> Seq<TokView> {
    match t {
        Some(t) => seq![t],
        None => seq![],
    }
}

/// The tokens of a text from `i` on, or what is wrong with the first thing
/// that is none.
pub open spec fn tokens(s: Seq<char>, i: int) -> Result<Seq<TokView>, Seq<char>>
    decreases s.len() - i,
{
    if i < 0 || i >= s.len() {
        Ok(seq![])
    } else {
        match lexeme_at(s, i) {
            Ok(l) => if i < l.end <= s.len() {
                match tokens(s, l.end) {
                    Ok(more) => Ok(at_most_one(l.token) + more),
                    Err(e) => Err(e),
                }
            } else {
                Ok(seq![])
            },
            Err(e) => Err(e),
        }
    }
}

/// A word reaches no further than the text, and not back.
pub proof fn lemma_word_end(s: Seq<char>, i: int)
    requires
        0 <= i <= s.len(),
    ensures
        i <= word_end(s, i) <= s.len(),
        i < s.len() && in_word(s[i]) ==> i < word_end(s, i),
    decreases s.len() - i,
{
    if i < s.len() && in_word(s[i]) {
        lemma_word_end(s, i + 1);
    }
}

/// The next quote does not lie behind.
pub proof fn lemma_quote_at(s: Seq<char>, i: int)
    requires
        0 <= i <= s.len(),
    ensures
        i <= quote_at(s, i) <= s.len(),
    decreases s.len() - i,
{
    if i < s.len() && s[i] != '"' {
        lemma_quote_at(s, i + 1);
    }
}

/// Whatever starts somewhere ends behind that.
pub proof fn lemma_lexeme_ends(s: Seq<char>, i: int)
    requires
        0 <= i < s.len(),
    ensures
        lexeme_at(s, i) matches Ok(l) ==> i < l.end <= s.len(),
{
    lemma_word_end(s, i);
    lemma_quote_at(s, i + 1);
}

fn keyword(w: String) -> (r: Tok)
    ensures
        r@ == word_token(w@),
{
    if same(&w, "and") {
        Tok::And
    } else if same(&w, "or") {
        Tok::Or
    } else if same(&w, "not") {
        Tok::Not
    } else if same(&w, "eq") {
        Tok::Op(Relation::Eq)
    } else if same(&w, "ne") {
        Tok::Op(Relation::Ne)
    } else if same(&w, "lt") {
        Tok::Op(Relation::Lt)
    } else if same(&w, "le") {
        Tok::Op(Relation::Le)
    } else if same(&w, "gt") {
        Tok::Op(Relation::Gt)
    } else if same(&w, "ge") {
        Tok::Op(Relation::Ge)
    } else {
        Tok::Word(w)
    }
}

fn find_word_end(s: &[char], i: usize) -> (end: usize)
    requires
        i <= s.len(),
    ensures
        end == word_end(s@, i as int),
        i <= end <= s.len(),
{
    let mut j = i;
    while j < s.len() && is_word_char(s[j])
        invariant
            i <= j <= s.len(),
            word_end(s@, i as int) == word_end(s@, j as int),
        decreases s.len() - j,
    {
        j += 1;
    }
    j
}

fn find_quote(s: &[char], i: usize) -> (end: usize)
    requires
        i <= s.len(),
    ensures
        end == quote_at(s@, i as int),
        i <= end <= s.len(),
{
    let mut j = i;
    while j < s.len() && s[j] != '"'
        invariant
            i <= j <= s.len(),
            quote_at(s@, i as int) == quote_at(s@, j as int),
        decreases s.len() - j,
    {
        j += 1;
    }
    j
}

/// The view of a token and its end.
pub open spec fn lexed_view(r: Result<(Option<Tok>, usize), String>) -> Result<
    Lexeme,
    Seq<char>,
> {
    match r {
        Ok((Some(t), end)) => Ok(Lexeme { token: Some(t@), end: end as int }),
        Ok((None, end)) => Ok(Lexeme { token: None, end: end as int }),
        Err(e) => Err(e@),
    }
}

fn lex_at(s: &[char], i: usize) -> (r: Result<(Option<Tok>, usize), String>)
    requires
        i < s.len(),
    ensures
        lexed_view(r) == lexeme_at(s@, i as int),
{
    let c = s[i];
    let twice = s.len() - i > 1 && s[i + 1] == c;
    let equals = s.len() - i > 1 && s[i + 1] == '=';
    if blank_char(c) {
        return Ok((None, i + 1));
    }
    match c {
        '(' => Ok((Some(Tok::LParen), i + 1)),
        ')' => Ok((Some(Tok::RParen), i + 1)),
        '&' => if twice {
            Ok((Some(Tok::And), i + 2))
        } else {
            Err(String::from_str("expected '&&'"))
        },
        '|' => if twice {
            Ok((Some(Tok::Or), i + 2))
        } else {
            Err(String::from_str("expected '||'"))
        },
        '=' => if equals {
            Ok((Some(Tok::Op(Relation::Eq)), i + 2))
        } else {
            Err(String::from_str("expected '==' (single '=' is not valid)"))
        },
        '!' => if equals {
            Ok((Some(Tok::Op(Relation::Ne)), i + 2))
        } else {
            Ok((Some(Tok::Not), i + 1))
        },
        '<' => if equals {
            Ok((Some(Tok::Op(Relation::Le)), i + 2))
        } else {
            Ok((Some(Tok::Op(Relation::Lt)), i + 1))
        },
        '>' => if equals {
            Ok((Some(Tok::Op(Relation::Ge)), i + 2))
        } else {
            Ok((Some(Tok::Op(Relation::Gt)), i + 1))
        },
        '"' => {
            let end = find_quote(s, i + 1);
            if end < s.len() {
                let text = string_of(slice_subrange(s, i + 1, end));
                Ok((Some(Tok::Str(text)), end + 1))
            } else {
                Err(String::from_str("unterminated string literal"))
            }
        },
        _ => {
            if is_word_char(c) {
                let end = find_word_end(s, i);
                let word = string_of(slice_subrange(s, i, end));
                Ok((Some(keyword(word)), end))
            } else {
                let mut shown = String::new();
                shown.push(c);
                assert(shown@ =~= seq![c]);
                Err(cat3("unexpected character '", &shown, "'"))
            }
        },
    }
}

/// The view of tokens or an error.
pub open spec fn lex_view(r: Result<Vec<Tok>, String>) -> Result<Seq<TokView>, Seq<char>> {
    match r {
        Ok(ts) => Ok(tok_views(ts@)),
        Err(e) => Err(e@),
    }
}

fn lex(input: &str) -> (r: Result<Vec<Tok>, String>)
    ensures
        lex_view(r) == tokens(input@, 0),
{
    let mut toks: Vec<Tok> = Vec::new();
    let chars = chars_of(input);
    let mut i: usize = 0;
    let ghost all = tokens(input@, 0);
    proof {
        if all is Ok {
            assert(tok_views(toks@) + all->Ok_0 =~= all->Ok_0);
        }
    }
    while i < chars.len()
        invariant
            chars@ == input@,
            i <= chars@.len(),
            all == tokens(input@, 0),
            all == match tokens(input@, i as int) {
                Ok(more) => Ok(tok_views(toks@) + more),
                Err(e) => Err(e),
            },
        decreases chars@.len() - i,
    {
        proof {
            lemma_lexeme_ends(input@, i as int);
        }
        let (tok, end) = match lex_at(chars.as_slice(), i) {
            Ok(l) => l,
            Err(e) => return Err(e),
        };
        let ghost before = tok_views(toks@);
        let ghost more = tokens(input@, end as int);
        if let Some(t) = tok {
            toks.push(t);
            proof {
                assert(tok_views(toks@) =~= before.push(t@));
                if more is Ok {
                    assert(before + (seq![t@] + more->Ok_0) =~= tok_views(toks@) + more->Ok_0);
                }
            }
        } else {
            proof {
                if more is Ok {
                    assert(before + (seq![] + more->Ok_0) =~= before + more->Ok_0);
                }
            }
        }
        i = end;
    }
    assert(tok_views(toks@) + seq![] =~= tok_views(toks@));
    Ok(toks)
}

// ---- parser ----

/// What quoting a text makes of it: std's `Debug` form of a string, with its
/// escapes.
pub uninterp spec fn quoted(s: Seq<char>) -> Seq<char>;

/// `format!` with `{:?}` on a string gives its `Debug` form. What is claimed is
/// that this form, named [`quoted`], depends on the characters of the string
/// alone; which characters are escaped and how is left unsaid.
#[verifier::external_body]
pub(crate) fn quote(s: &str) -> (r: String)
    ensures
        r@ == quoted(s@),
{
    format!("{:?}", s)
}

/// A token as it is named in a message, given the quoted form of its text.
pub open spec fn token_text(t: TokView, quotation: Seq<char>) -> Seq<char> {
    match t {
        TokView::Word(_) => "Word("@ + quotation + ")"@,
        TokView::Str(_) => "Str("@ + quotation + ")"@,
        TokView::Op(op) => match op {
            Relation::Eq => "Op(Eq)"@,
            Relation::Ne => "Op(Ne)"@,
            Relation::Lt => "Op(Lt)"@,
            Relation::Le => "Op(Le)"@,
            Relation::Gt => "Op(Gt)"@,
            Relation::Ge => "Op(Ge)"@,
        },
        TokView::And => "And"@,
        TokView::Or => "Or"@,
        TokView::Not => "Not"@,
        TokView::LParen => "LParen"@,
        TokView::RParen => "RParen"@,
    }
}

/// The text in a token.
pub open spec fn token_content(t: TokView) -> Seq<char> {
    match t {
        TokView::Word(w) => w,
        TokView::Str(s) => s,
        _ => seq![],
    }
}

/// The message for a token that cannot start an operand.
pub open spec fn unexpected(t: TokView) -> Seq<char> {
    "unexpected token "@ + token_text(t, quoted(token_content(t)))
}

/// The message for a token that cannot start an operand, given the quoted form
/// of its text.
pub fn unexpected_token(t: &Tok, quotation: &str) -> (r: String)
    ensures
        r@ == "unexpected token "@ + token_text(t@, quotation@),
{
    let shown = match t {
        Tok::Word(_) => cat3("Word(", quotation, ")"),
        Tok::Str(_) => cat3("Str(", quotation, ")"),
        Tok::Op(op) => String::from_str(
            match op {
                Relation::Eq => "Op(Eq)",
                Relation::Ne => "Op(Ne)",
                Relation::Lt => "Op(Lt)",
                Relation::Le => "Op(Le)",
                Relation::Gt => "Op(Gt)",
                Relation::Ge => "Op(Ge)",
            },
        ),
        Tok::And => String::from_str("And"),
        Tok::Or => String::from_str("Or"),
        Tok::Not => String::from_str("Not"),
        Tok::LParen => String::from_str("LParen"),
        Tok::RParen => String::from_str("RParen"),
    };
    cat2("unexpected token ", &shown)
}

/// A parsed expression and the position behind it.
pub ghost struct Parsed {
    pub expr: ExprView,
    pub end: int,
}

/// Whether a given token stands at `i`.
pub open spec fn token_is(t: Seq<TokView>, i: int, tok: TokView) -> bool {
    0 <= i < t.len() && t[i] == tok
}

/// The operand that starts at `i`: a parenthesised expression, a comparison
/// or a name.
pub open spec fn parse_operand(t: Seq<TokView>, i: int) -> Result<Parsed, Seq<char>>
    decreases t.len() - i, 0nat,
{
    if i < 0 || i >= t.len() {
        Err("unexpected end of filter"@)
    } else {
        match t[i] {
            TokView::LParen => match parse_or(t, i + 1) {
                Ok(p) => if token_is(t, p.end, TokView::RParen) {
                    Ok(Parsed { expr: p.expr, end: p.end + 1 })
                } else {
                    Err("expected ')'"@)
                },
                Err(e) => Err(e),
            },
            TokView::Word(field) => if i + 1 < t.len() && t[i + 1] is Op {
                if i + 2 < t.len() && (t[i + 2] is Word || t[i + 2] is Str) {
                    Ok(
                        Parsed {
                            expr: ExprView::Compare(
                                field,
                                t[i + 1]->Op_0,
                                token_content(t[i + 2]),
                            ),
                            end: i + 3,
                        },
                    )
                } else {
                    Err("expected a value after operator for '"@ + field + "'"@)
                }
            } else {
                Ok(Parsed { expr: ExprView::Exists(field), end: i + 1 })
            },
            other => Err(unexpected(other)),
        }
    }
}

/// The operand that starts at `i`, with the negations before it.
pub open spec fn parse_not(t: Seq<TokView>, i: int) -> Result<Parsed, Seq<char>>
    decreases t.len() - i, 1nat,
{
    if token_is(t, i, TokView::Not) {
        match parse_not(t, i + 1) {
            Ok(p) => Ok(Parsed { expr: ExprView::Not(Box::new(p.expr)), end: p.end }),
            Err(e) => Err(e),
        }
    } else {
        parse_operand(t, i)
    }
}

/// `left` and every operand joined to it by `&&` from `i` on.
pub open spec fn parse_and_more(t: Seq<TokView>, left: ExprView, i: int) -> Result<
    Parsed,
    Seq<char>,
>
    decreases t.len() - i, 2nat,
{
    if token_is(t, i, TokView::And) {
        match parse_not(t, i + 1) {
            Ok(p) => if i < p.end <= t.len() {
                parse_and_more(t, ExprView::And(Box::new(left), Box::new(p.expr)), p.end)
            } else {
                Ok(p)
            },
            Err(e) => Err(e),
        }
    } else {
        Ok(Parsed { expr: left, end: i })
    }
}

/// The conjunction that starts at `i`.
pub open spec fn parse_and(t: Seq<TokView>, i: int) -> Result<Parsed, Seq<char>>
    decreases t.len() - i, 3nat,
{
    match parse_not(t, i) {
        Ok(p) => if i < p.end <= t.len() {
            parse_and_more(t, p.expr, p.end)
        } else {
            Ok(p)
        },
        Err(e) => Err(e),
    }
}

/// `left` and every conjunction joined to it by `||` from `i` on.
pub open spec fn parse_or_more(t: Seq<TokView>, left: ExprView, i: int) -> Result<
    Parsed,
    Seq<char>,
>
    decreases t.len() - i, 4nat,
{
    if token_is(t, i, TokView::Or) {
        match parse_and(t, i + 1) {
            Ok(p) => if i < p.end <= t.len() {
                parse_or_more(t, ExprView::Or(Box::new(left), Box::new(p.expr)), p.end)
            } else {
                Ok(p)
            },
            Err(e) => Err(e),
        }
    } else {
        Ok(Parsed { expr: left, end: i })
    }
}

/// The disjunction that starts at `i`.
pub open spec fn parse_or(t: Seq<TokView>, i: int) -> Result<Parsed, Seq<char>>
    decreases t.len() - i, 5nat,
{
    match parse_and(t, i) {
        Ok(p) => if i < p.end <= t.len() {
            parse_or_more(t, p.expr, p.end)
        } else {
            Ok(p)
        },
        Err(e) => Err(e),
    }
}

/// The expression that a list of tokens is: all of it.
pub open spec fn parse_all(t: Seq<TokView>) -> Result<ExprView, Seq<char>> {
    match parse_or(t, 0) {
        Ok(p) => if p.end == t.len() {
            Ok(p.expr)
        } else {
            Err("unexpected trailing input near token "@ + dec_text((p.end + 1) as nat))
        },
        Err(e) => Err(e),
    }
}

/// What compiling filter source gives.
pub open spec fn compiled(s: Seq<char>) -> Result<ExprView, Seq<char>> {
    match tokens(s, 0) {
        Ok(t) => parse_all(t),
        Err(e) => Err(e),
    }
}

// What is parsed lies within the tokens and is not empty.

proof fn lemma_operand_ends(t: Seq<TokView>, i: int)
    requires
        0 <= i,
    ensures
        parse_operand(t, i) matches Ok(p) ==> i < p.end <= t.len(),
    decreases t.len() - i, 0nat,
{
    if i < t.len() && t[i] is LParen {
        lemma_or_ends(t, i + 1);
    }
}

proof fn lemma_not_ends(t: Seq<TokView>, i: int)
    requires
        0 <= i,
    ensures
        parse_not(t, i) matches Ok(p) ==> i < p.end <= t.len(),
    decreases t.len() - i, 1nat,
{
    if token_is(t, i, TokView::Not) {
        lemma_not_ends(t, i + 1);
    } else {
        lemma_operand_ends(t, i);
    }
}

proof fn lemma_and_more_ends(t: Seq<TokView>, left: ExprView, i: int)
    requires
        0 <= i <= t.len(),
    ensures
        parse_and_more(t, left, i) matches Ok(p) ==> i <= p.end <= t.len(),
    decreases t.len() - i, 2nat,
{
    if token_is(t, i, TokView::And) {
        lemma_not_ends(t, i + 1);
        if let Ok(p) = parse_not(t, i + 1) {
            lemma_and_more_ends(t, ExprView::And(Box::new(left), Box::new(p.expr)), p.end);
        }
    }
}

proof fn lemma_and_ends(t: Seq<TokView>, i: int)
    requires
        0 <= i,
    ensures
        parse_and(t, i) matches Ok(p) ==> i < p.end <= t.len(),
    decreases t.len() - i, 3nat,
{
    lemma_not_ends(t, i);
    if let Ok(p) = parse_not(t, i) {
        lemma_and_more_ends(t, p.expr, p.end);
    }
}

proof fn lemma_or_more_ends(t: Seq<TokView>, left: ExprView, i: int)
    requires
        0 <= i <= t.len(),
    ensures
        parse_or_more(t, left, i) matches Ok(p) ==> i <= p.end <= t.len(),
    decreases t.len() - i, 4nat,
{
    if token_is(t, i, TokView::Or) {
        lemma_and_ends(t, i + 1);
        if let Ok(p) = parse_and(t, i + 1) {
            lemma_or_more_ends(t, ExprView::Or(Box::new(left), Box::new(p.expr)), p.end);
        }
    }
}

proof fn lemma_or_ends(t: Seq<TokView>, i: int)
    requires
        0 <= i,
    ensures
        parse_or(t, i) matches Ok(p) ==> i < p.end <= t.len(),
    decreases t.len() - i, 5nat,
{
    lemma_and_ends(t, i);
    if let Ok(p) = parse_and(t, i) {
        lemma_or_more_ends(t, p.expr, p.end);
    }
}

struct Parser {
    tokens: Vec<Tok>,
    pos: usize,
}

/// The view of an expression or an error.
pub open spec fn expr_result(r: Result<Expr, String>) -> Result<ExprView, Seq<char>> {
    match r {
        Ok(e) => Ok(e@),
        Err(e) => Err(e@),
    }
}

/// The expression of a parse, without its end.
pub open spec fn parsed_expr(r: Result<Parsed, Seq<char>>) -> Result<ExprView, Seq<char>> {
    match r {
        Ok(p) => Ok(p.expr),
        Err(e) => Err(e),
    }
}

impl Parser {
    spec fn view(&self) -> Seq<TokView> {
        tok_views(self.tokens@)
    }

    /// Whether the parser is behind what `r` parsed, over the same tokens.
    spec fn moved(&self, before: &Parser, r: Result<Parsed, Seq<char>>) -> bool {
        &&& self.tokens == before.tokens
        &&& r matches Ok(p) ==> self.pos == p.end
    }

    fn at(&self, tok: &Tok) -> (r: bool)
        requires
            tok@ is And || tok@ is Or || tok@ is Not || tok@ is RParen,
        ensures
            r == token_is(self@, self.pos as int, tok@),
    {
        if self.pos >= self.tokens.len() {
            return false;
        }
        match (&self.tokens[self.pos], tok) {
            (Tok::And, Tok::And) => true,
            (Tok::Or, Tok::Or) => true,
            (Tok::Not, Tok::Not) => true,
            (Tok::RParen, Tok::RParen) => true,
            _ => false,
        }
    }

    fn parse_or(&mut self) -> (r: Result<Expr, String>)
        requires
            old(self).pos <= old(self).tokens.len(),
        ensures
            expr_result(r) == parsed_expr(parse_or(old(self)@, old(self).pos as int)),
            final(self).moved(old(self), parse_or(old(self)@, old(self).pos as int)),
            r is Ok ==> old(self).pos < final(self).pos <= final(self).tokens.len(),
        decreases old(self).tokens.len() - old(self).pos, 5nat,
    {
        let ghost t = self@;
        let ghost whole = parse_or(t, self.pos as int);
        proof {
            lemma_and_ends(t, self.pos as int);
        }
        let mut left = match self.parse_and() {
            Ok(e) => e,
            Err(e) => return Err(e),
        };
        while self.at(&Tok::Or)
            invariant
                self.tokens == old(self).tokens,
                t == self@,
                old(self).pos < self.pos <= self.tokens.len(),
                parse_or_more(t, left@, self.pos as int) == whole,
                whole == parse_or(old(self)@, old(self).pos as int),
            decreases self.tokens.len() - self.pos,
        {
            proof {
                lemma_and_ends(t, self.pos + 1);
            }
            self.pos = self.pos + 1;
            let right = match self.parse_and() {
                Ok(e) => e,
                Err(e) => return Err(e),
            };
            left = Expr::Or(Box::new(left), Box::new(right));
        }
        Ok(left)
    }

    fn parse_and(&mut self) -> (r: Result<Expr, String>)
        requires
            old(self).pos <= old(self).tokens.len(),
        ensures
            expr_result(r) == parsed_expr(parse_and(old(self)@, old(self).pos as int)),
            final(self).moved(old(self), parse_and(old(self)@, old(self).pos as int)),
            r is Ok ==> old(self).pos < final(self).pos <= final(self).tokens.len(),
        decreases old(self).tokens.len() - old(self).pos, 3nat,
    {
        let ghost t = self@;
        let ghost whole = parse_and(t, self.pos as int);
        proof {
            lemma_not_ends(t, self.pos as int);
        }
        let mut left = match self.parse_not() {
            Ok(e) => e,
            Err(e) => return Err(e),
        };
        while self.at(&Tok::And)
            invariant
                self.tokens == old(self).tokens,
                t == self@,
                old(self).pos < self.pos <= self.tokens.len(),
                parse_and_more(t, left@, self.pos as int) == whole,
                whole == parse_and(old(self)@, old(self).pos as int),
            decreases self.tokens.len() - self.pos,
        {
            proof {
                lemma_not_ends(t, self.pos + 1);
            }
            self.pos = self.pos + 1;
            let right = match self.parse_not() {
                Ok(e) => e,
                Err(e) => return Err(e),
            };
            left = Expr::And(Box::new(left), Box::new(right));
        }
        Ok(left)
    }

    fn parse_not(&mut self) -> (r: Result<Expr, String>)
        requires
            old(self).pos <= old(self).tokens.len(),
        ensures
            expr_result(r) == parsed_expr(parse_not(old(self)@, old(self).pos as int)),
            final(self).moved(old(self), parse_not(old(self)@, old(self).pos as int)),
            r is Ok ==> old(self).pos < final(self).pos <= final(self).tokens.len(),
        decreases old(self).tokens.len() - old(self).pos, 1nat,
    {
        if self.at(&Tok::Not) {
            self.pos = self.pos + 1;
            return match self.parse_not() {
                Ok(inner) => Ok(Expr::Not(Box::new(inner))),
                Err(e) => Err(e),
            };
        }
        self.parse_primary()
    }

    fn parse_primary(&mut self) -> (r: Result<Expr, String>)
        requires
            old(self).pos <= old(self).tokens.len(),
        ensures
            expr_result(r) == parsed_expr(parse_operand(old(self)@, old(self).pos as int)),
            final(self).moved(old(self), parse_operand(old(self)@, old(self).pos as int)),
            r is Ok ==> old(self).pos < final(self).pos <= final(self).tokens.len(),
        decreases old(self).tokens.len() - old(self).pos, 0nat,
    {
        let pos = self.pos;
        if pos >= self.tokens.len() {
            return Err(String::from_str("unexpected end of filter"));
        }
        let ghost t = self@;
        assert(t[pos as int] == self.tokens@[pos as int]@);
        match &self.tokens[pos] {
            Tok::LParen => {
                self.pos = pos + 1;
                let e = match self.parse_or() {
                    Ok(e) => e,
                    Err(e) => return Err(e),
                };
                if self.at(&Tok::RParen) {
                    self.pos = self.pos + 1;
                    Ok(e)
                } else {
                    Err(String::from_str("expected ')'"))
                }
            },
            Tok::Word(field) => {
                let field = field.clone();
                self.parse_field(field)
            },
            Tok::Str(s) => Err(unexpected_token(&self.tokens[pos], &quote(s.as_str()))),
            other => Err(unexpected_token(other, &quote(""))),
        }
    }

    /// A comparison or an existence test, at its field name.
    fn parse_field(&mut self, field: String) -> (r: Result<Expr, String>)
        requires
            old(self).pos < old(self).tokens.len(),
            old(self).tokens@[old(self).pos as int]@ == TokView::Word(field@),
        ensures
            expr_result(r) == parsed_expr(parse_operand(old(self)@, old(self).pos as int)),
            final(self).moved(old(self), parse_operand(old(self)@, old(self).pos as int)),
            r is Ok ==> old(self).pos < final(self).pos <= final(self).tokens.len(),
    {
        let n = self.tokens.len();
        let pos = self.pos;
        let ghost t = self@;
        assert(t[pos as int] == self.tokens@[pos as int]@);
        if n - pos > 1 {
            assert(t[pos + 1] == self.tokens@[pos + 1]@);
            if let Tok::Op(op) = &self.tokens[pos + 1] {
                let op = *op;
                if n - pos > 2 {
                    assert(t[pos + 2] == self.tokens@[pos + 2]@);
                    let value = match &self.tokens[pos + 2] {
                        Tok::Word(w) => Some(w.clone()),
                        Tok::Str(s) => Some(s.clone()),
                        _ => None,
                    };
                    if let Some(value) = value {
                        self.pos = pos + 3;
                        return Ok(Expr::Compare(field, op, value));
                    }
                }
                return Err(
                    cat3("expected a value after operator for '", field.as_str(), "'"),
                );
            }
        }
        self.pos = pos + 1;
        Ok(Expr::Exists(field))
    }
}

/// A compiled display filter.
#[derive(Debug)]
pub struct Filter {
    root: Expr,
}

impl Filter {
    /// The expression that the filter evaluates.
    pub closed spec fn expr(&self) -> ExprView {
        self.root@
    }
}

impl View for Filter {
    type V = ExprView;

    open spec fn view(&self) -> ExprView {
        self.expr()
    }
}

impl Clone for Filter {
    fn clone(&self) -> (r: Self)
        ensures
            r@ == self@,
    {
        Filter { root: self.root.clone() }
    }
}

/// The view of a filter or an error.
pub open spec fn filter_result(r: Result<Filter, String>) -> Result<ExprView, Seq<char>> {
    match r {
        Ok(f) => Ok(f@),
        Err(e) => Err(e@),
    }
}

impl Filter {
    /// Compiles filter source, or says what is wrong with it.
    pub fn compile(input: &str) -> (r: Result<Filter, String>)
        ensures
            filter_result(r) == compiled(input@),
    {
        let tokens = match lex(input) {
            Ok(t) => t,
            Err(e) => return Err(e),
        };
        let mut p = Parser { tokens, pos: 0 };
        let root = match p.parse_or() {
            Ok(e) => e,
            Err(e) => return Err(e),
        };
        if p.pos != p.tokens.len() {
            return Err(
                cat2("unexpected trailing input near token ", &dec(p.pos as u64 + 1)),
            );
        }
        Ok(Filter { root })
    }

    /// Whether the filter is true of a packet's detail tree.
    pub fn matches(&self, tree: &[Node]) -> (r: bool)
        ensures
            r == truth(self@, views(tree@)),
    {
        self.root.eval(tree)
    }
}

} // verus!
