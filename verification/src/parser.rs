//! The parser: recursive descent with one token of lookahead over a lexeme
//! cursor. Each call consumes exactly the tokens of one expression and leaves
//! the cursor on that expression's last token. Special forms (`if`, `define`,
//! `lambda`, quoted lists) have bespoke grammar; any other parenthesized form
//! is an application of its first expression to the rest.
use vstd::prelude::*;
use vstd::string::*;

use crate::tokenizer::{SpecToken, TokenIterator, TokenType, spec_get_state};

verus! {

broadcast use vstd::std_specs::vec::axiom_vec_index_decreases;

/// The mathematical form of an abstract syntax tree node. A float literal is
/// the bit pattern of the double it denotes; texts are character sequences.
#[verifier::ext_equal]
pub enum SpecExpr {
    Number(u64),
    Integer(i64),
    Identifier(Seq<char>),
    SExpression(Box<SpecExpr>, Seq<SpecExpr>),
    Lambda(Seq<Seq<char>>, Box<SpecExpr>),
    Define(Seq<char>, Box<SpecExpr>),
    If(Box<SpecExpr>, Box<SpecExpr>, Box<SpecExpr>),
    Bool(bool),
    Pair(Box<SpecExpr>, Box<SpecExpr>),
    Char(char),
    Str(Seq<char>),
    Nil,
}

/// One node of the abstract syntax tree. `SExpression` is an application of
/// its first child to the remaining ones; `Pair` is a dotted-pair literal,
/// produced only by quoted lists.
#[derive(Debug)]
pub enum Expression {
    Number(u64),
    Integer(i64),
    Identifier(String),
    SExpression(Box<Expression>, Vec<Expression>),
    Lambda(Vec<String>, Box<Expression>),
    Define(String, Box<Expression>),
    If(Box<Expression>, Box<Expression>, Box<Expression>),
    Bool(bool),
    Pair(Box<Expression>, Box<Expression>),
    Char(char),
    String(String),
    Nil,
}

/// The mathematical form of an expression.
pub open spec fn expr_view(e: Expression) -> SpecExpr
    decreases e,
    via expr_view_decreases
{
    match e {
        Expression::Number(b) => SpecExpr::Number(b),
        Expression::Integer(n) => SpecExpr::Integer(n),
        Expression::Identifier(s) => SpecExpr::Identifier(s@),
        Expression::SExpression(h, args) => SpecExpr::SExpression(
            Box::new(expr_view(*h)),
            Seq::new(
                args@.len(),
                |k: int|
                    if 0 <= k < args@.len() {
                        expr_view(args@[k])
                    } else {
                        SpecExpr::Nil
                    },
            ),
        ),
        Expression::Lambda(ps, b) => SpecExpr::Lambda(ps.deep_view(), Box::new(expr_view(*b))),
        Expression::Define(s, b) => SpecExpr::Define(s@, Box::new(expr_view(*b))),
        Expression::If(c, t, e2) => SpecExpr::If(
            Box::new(expr_view(*c)),
            Box::new(expr_view(*t)),
            Box::new(expr_view(*e2)),
        ),
        Expression::Bool(b) => SpecExpr::Bool(b),
        Expression::Pair(a, d) => SpecExpr::Pair(Box::new(expr_view(*a)), Box::new(expr_view(*d))),
        Expression::Char(c) => SpecExpr::Char(c),
        Expression::String(s) => SpecExpr::Str(s@),
        Expression::Nil => SpecExpr::Nil,
    }
}

#[via_fn]
proof fn expr_view_decreases(e: Expression) {
    match e {
        Expression::SExpression(h, args) => {
            assert forall|k: int| 0 <= k < args@.len() implies (decreases_to!(e => args@[k])) by {
                assert(decreases_to!(e => args));
                vstd::std_specs::vec::axiom_vec_index_decreases::<Expression>(args, k);
                assert(decreases_to!(args => args@[k]));
            }
        },
        _ => {},
    }
}

impl View for Expression {
    type V = SpecExpr;

    open spec fn view(&self) -> SpecExpr {
        expr_view(*self)
    }
}

impl DeepView for Expression {
    type V = SpecExpr;

    open spec fn deep_view(&self) -> SpecExpr {
        expr_view(*self)
    }
}

/// A deep copy of every expression in `v`.
pub fn clone_expr_vec(v: &Vec<Expression>) -> (r: Vec<Expression>)
    ensures
        r@.len() == v@.len(),
        forall|m: int| 0 <= m < v@.len() ==> #[trigger] expr_view(r@[m]) == expr_view(v@[m]),
    decreases *v,
{
    let mut r: Vec<Expression> = Vec::new();
    let mut k: usize = 0;
    while k < v.len()
        invariant
            k <= v.len(),
            r@.len() == k,
            forall|m: int| 0 <= m < k ==> #[trigger] expr_view(r@[m]) == expr_view(v@[m]),
        decreases v.len() - k,
    {
        let e = v[k].clone();
        r.push(e);
        k += 1;
    }
    r
}

/// A deep copy of every string in `v`.
pub fn clone_string_vec(v: &Vec<String>) -> (r: Vec<String>)
    ensures
        r.deep_view() == v.deep_view(),
        r@.len() == v@.len(),
        forall|m: int| 0 <= m < v@.len() ==> #[trigger] r@[m]@ == v@[m]@,
{
    let mut r: Vec<String> = Vec::new();
    let mut k: usize = 0;
    while k < v.len()
        invariant
            k <= v.len(),
            r@.len() == k,
            forall|m: int| 0 <= m < k ==> #[trigger] r@[m]@ == v@[m]@,
        decreases v.len() - k,
    {
        r.push(v[k].clone());
        k += 1;
    }
    proof {
        assert(r.deep_view() =~= v.deep_view());
    }
    r
}

impl Clone for Expression {
    /// A deep copy with the same mathematical form.
    fn clone(&self) -> (res: Expression)
        ensures
            res@ == self@,
        decreases *self,
    {
        match self {
            Expression::Number(b) => Expression::Number(*b),
            Expression::Integer(n) => Expression::Integer(*n),
            Expression::Identifier(s) => Expression::Identifier(s.clone()),
            Expression::SExpression(h, args) => {
                let ch = Box::new((&**h).clone());
                let ca = clone_expr_vec(args);
                let r = Expression::SExpression(ch, ca);
                proof {
                    let s1 = r@->SExpression_1;
                    let s2 = (*self)@->SExpression_1;
                    assert(s1.len() == s2.len());
                    assert forall|k: int| 0 <= k < s1.len() implies s1[k] == s2[k] by {
                        assert(expr_view(ca@[k]) == expr_view(args@[k]));
                    }
                    assert(s1 =~= s2);
                    assert(r@ =~= (*self)@);
                }
                r
            },
            Expression::Lambda(ps, b) => Expression::Lambda(
                clone_string_vec(ps),
                Box::new((&**b).clone()),
            ),
            Expression::Define(s, b) => Expression::Define(s.clone(), Box::new((&**b).clone())),
            Expression::If(c, t, e2) => Expression::If(
                Box::new((&**c).clone()),
                Box::new((&**t).clone()),
                Box::new((&**e2).clone()),
            ),
            Expression::Bool(b) => Expression::Bool(*b),
            Expression::Pair(a, d) => Expression::Pair(
                Box::new((&**a).clone()),
                Box::new((&**d).clone()),
            ),
            Expression::Char(c) => Expression::Char(*c),
            Expression::String(s) => Expression::String(s.clone()),
            Expression::Nil => Expression::Nil,
        }
    }
}

/// What one parse returns: an expression and the position of its last token,
/// a failure with its message, or the mark that the fuel bound was hit.
pub enum SpecParse {
    Found(SpecExpr, int),
    Fail(Seq<char>),
    NoFuel,
}

/// What a parameter-list parse returns.
pub enum SpecParams {
    ParamsFound(Seq<Seq<char>>, int),
    ParamsFail(Seq<char>),
}

/// What an argument-list parse returns.
pub enum SpecArgs {
    ArgsFound(Seq<SpecExpr>, int),
    ArgsFail(Seq<char>),
    ArgsNoFuel,
}

/// The position after moving one token forward from `i` (the cursor stays
/// put at the end of the lexemes).
pub open spec fn spec_advance(lexemes: Seq<Seq<char>>, i: int) -> int {
    if i < lexemes.len() {
        i + 1
    } else {
        i
    }
}

/// The fuel that suffices for a parse of `lexemes` starting at `i`:
/// `lemma_parse_fuel_suffices` shows the parse never runs out of it.
pub open spec fn parse_fuel(lexemes: Seq<Seq<char>>, i: int) -> nat {
    if i <= lexemes.len() {
        (2 * (lexemes.len() - i) + 2) as nat
    } else {
        2
    }
}

/// Parses the parameter list of a lambda form: identifiers up to the closing
/// parenthesis. `i` is the position of the token before the next parameter.
pub open spec fn spec_parse_params(lexemes: Seq<Seq<char>>, i: int) -> SpecParams
    decreases lexemes.len() - i,
{
    let j = spec_advance(lexemes, i);
    match spec_get_state(lexemes, j) {
        Option::None => SpecParams::ParamsFail("Unexpected EOF!"@),
        Option::Some(t) => match t {
            SpecToken::Identifier(s) => {
                match spec_parse_params(lexemes, j) {
                    SpecParams::ParamsFound(rest, end) => SpecParams::ParamsFound(
                        seq![s].add(rest),
                        end,
                    ),
                    f => f,
                }
            },
            SpecToken::CloseParen => SpecParams::ParamsFound(Seq::empty(), j),
            _ => SpecParams::ParamsFail("Invalid token in lambda parameter list!"@),
        },
    }
}

/// Parses one expression starting at position `i`, which must hold its first
/// token. Returns the expression and the position of its last token. The
/// `fuel` bounds the recursion; `parse_fuel` is always enough.
pub open spec fn spec_parse(lexemes: Seq<Seq<char>>, i: int, fuel: nat) -> SpecParse
    decreases fuel,
{
    if fuel == 0 {
        SpecParse::NoFuel
    } else {
        match spec_get_state(lexemes, i) {
            Option::None => SpecParse::Fail("Error!"@),
            Option::Some(tok) => match tok {
                SpecToken::OpenParen => {
                    let j = spec_advance(lexemes, i);
                    match spec_get_state(lexemes, j) {
                        Option::None => SpecParse::Fail("Unexpected EOF!"@),
                        Option::Some(t2) => match t2 {
                            SpecToken::CloseParen => SpecParse::Found(SpecExpr::Nil, j),
                            SpecToken::If => spec_parse_if(lexemes, j, (fuel - 1) as nat),
                            SpecToken::Define => spec_parse_define(lexemes, j, (fuel - 1) as nat),
                            SpecToken::Lambda => spec_parse_lambda(lexemes, j, (fuel - 1) as nat),
                            _ => {
                                // A generic application: the head expression
                                // begins right here at `j`.
                                match spec_parse(lexemes, j, (fuel - 1) as nat) {
                                    SpecParse::Found(head, e0) => {
                                        match spec_parse_args(lexemes, e0, (fuel - 1) as nat) {
                                            SpecArgs::ArgsFound(args, end) => SpecParse::Found(
                                                SpecExpr::SExpression(Box::new(head), args),
                                                end,
                                            ),
                                            SpecArgs::ArgsFail(m) => SpecParse::Fail(m),
                                            SpecArgs::ArgsNoFuel => SpecParse::NoFuel,
                                        }
                                    },
                                    other => other,
                                }
                            },
                        },
                    }
                },
                SpecToken::CloseParen => SpecParse::Fail("Unexpected ')'!"@),
                SpecToken::Identifier(s) => SpecParse::Found(SpecExpr::Identifier(s), i),
                SpecToken::Integer(n) => SpecParse::Found(SpecExpr::Integer(n), i),
                SpecToken::Number(b) => SpecParse::Found(SpecExpr::Number(b), i),
                SpecToken::Lambda => SpecParse::Fail("Lambda not expected in this position!"@),
                SpecToken::Define => SpecParse::Fail("Define not expected in this position!"@),
                SpecToken::If => SpecParse::Fail("If not expected in this position!"@),
                SpecToken::True => SpecParse::Found(SpecExpr::Bool(true), i),
                SpecToken::False => SpecParse::Found(SpecExpr::Bool(false), i),
                SpecToken::Char(c) => SpecParse::Found(SpecExpr::Char(c), i),
                SpecToken::Str(s) => {
                    if s.len() >= 2 {
                        SpecParse::Found(SpecExpr::Str(s.subrange(1, s.len() - 1)), i)
                    } else {
                        SpecParse::Fail("Malformed string literal!"@)
                    }
                },
                SpecToken::SingleQuote => spec_parse_quoted(lexemes, i, (fuel - 1) as nat),
            },
        }
    }
}

/// Parses the rest of an `if` form, the cursor standing on the `if` keyword:
/// three expressions and the closing parenthesis.
pub open spec fn spec_parse_if(lexemes: Seq<Seq<char>>, j: int, fuel: nat) -> SpecParse
    decreases fuel,
{
    if fuel == 0 {
        SpecParse::NoFuel
    } else {
        match spec_parse(lexemes, spec_advance(lexemes, j), (fuel - 1) as nat) {
            SpecParse::Found(cond, e1) => {
                match spec_parse(lexemes, spec_advance(lexemes, e1), (fuel - 1) as nat) {
                    SpecParse::Found(thn, e2) => {
                        match spec_parse(lexemes, spec_advance(lexemes, e2), (fuel - 1) as nat) {
                            SpecParse::Found(els, e3) => {
                                let k = spec_advance(lexemes, e3);
                                if spec_get_state(lexemes, k) == Option::Some(
                                    SpecToken::CloseParen,
                                ) {
                                    SpecParse::Found(
                                        SpecExpr::If(Box::new(cond), Box::new(thn), Box::new(els)),
                                        k,
                                    )
                                } else {
                                    SpecParse::Fail("Expected ')'!"@)
                                }
                            },
                            other => other,
                        }
                    },
                    other => other,
                }
            },
            other => other,
        }
    }
}

/// Parses the rest of a `define` form, the cursor standing on the `define`
/// keyword: an identifier, one expression and the closing parenthesis.
pub open spec fn spec_parse_define(lexemes: Seq<Seq<char>>, j: int, fuel: nat) -> SpecParse
    decreases fuel,
{
    if fuel == 0 {
        SpecParse::NoFuel
    } else {
        let j1 = spec_advance(lexemes, j);
        match spec_get_state(lexemes, j1) {
            Option::Some(SpecToken::Identifier(name)) => {
                match spec_parse(lexemes, spec_advance(lexemes, j1), (fuel - 1) as nat) {
                    SpecParse::Found(value, e1) => {
                        let k = spec_advance(lexemes, e1);
                        if spec_get_state(lexemes, k) == Option::Some(SpecToken::CloseParen) {
                            SpecParse::Found(SpecExpr::Define(name, Box::new(value)), k)
                        } else {
                            SpecParse::Fail("Expected ')'!"@)
                        }
                    },
                    other => other,
                }
            },
            _ => SpecParse::Fail("Expected identifier after define!"@),
        }
    }
}

/// Parses the rest of a `lambda` form, the cursor standing on the `lambda`
/// keyword: a parenthesized parameter list, one body expression and the
/// closing parenthesis.
pub open spec fn spec_parse_lambda(lexemes: Seq<Seq<char>>, j: int, fuel: nat) -> SpecParse
    decreases fuel,
{
    if fuel == 0 {
        SpecParse::NoFuel
    } else {
        let j1 = spec_advance(lexemes, j);
        if spec_get_state(lexemes, j1) == Option::Some(SpecToken::OpenParen) {
            match spec_parse_params(lexemes, j1) {
                SpecParams::ParamsFound(params, pend) => {
                    match spec_parse(lexemes, spec_advance(lexemes, pend), (fuel - 1) as nat) {
                        SpecParse::Found(body, e1) => {
                            let k = spec_advance(lexemes, e1);
                            if spec_get_state(lexemes, k) == Option::Some(SpecToken::CloseParen) {
                                SpecParse::Found(SpecExpr::Lambda(params, Box::new(body)), k)
                            } else {
                                SpecParse::Fail("Expected ')'!"@)
                            }
                        },
                        other => other,
                    }
                },
                SpecParams::ParamsFail(m) => SpecParse::Fail(m),
            }
        } else {
            SpecParse::Fail("Expected '(' after 'lambda'!"@)
        }
    }
}

/// Parses the arguments of an application up to the closing parenthesis. `i`
/// is the position of the last token already consumed.
pub open spec fn spec_parse_args(lexemes: Seq<Seq<char>>, i: int, fuel: nat) -> SpecArgs
    decreases fuel,
{
    if fuel == 0 {
        SpecArgs::ArgsNoFuel
    } else {
        let j = spec_advance(lexemes, i);
        match spec_get_state(lexemes, j) {
            Option::None => SpecArgs::ArgsFail("Unexpected EOF!"@),
            Option::Some(SpecToken::CloseParen) => SpecArgs::ArgsFound(Seq::empty(), j),
            Option::Some(_) => {
                match spec_parse(lexemes, j, (fuel - 1) as nat) {
                    SpecParse::Found(e, end) => {
                        match spec_parse_args(lexemes, end, (fuel - 1) as nat) {
                            SpecArgs::ArgsFound(rest, fin) => SpecArgs::ArgsFound(
                                seq![e].add(rest),
                                fin,
                            ),
                            other => other,
                        }
                    },
                    SpecParse::Fail(m) => SpecArgs::ArgsFail(m),
                    SpecParse::NoFuel => SpecArgs::ArgsNoFuel,
                }
            },
        }
    }
}

/// Parses the elements of a quoted list, the cursor standing on the quote
/// mark, and folds them right into a `Pair`/`Nil` list literal.
pub open spec fn spec_parse_quoted(lexemes: Seq<Seq<char>>, i: int, fuel: nat) -> SpecParse
    decreases fuel,
{
    if fuel == 0 {
        SpecParse::NoFuel
    } else {
        let j = spec_advance(lexemes, i);
        if spec_get_state(lexemes, j) == Option::Some(SpecToken::OpenParen) {
            match spec_parse_args(lexemes, j, (fuel - 1) as nat) {
                SpecArgs::ArgsFound(elems, end) => SpecParse::Found(spec_quote_fold(elems), end),
                SpecArgs::ArgsFail(m) => SpecParse::Fail(m),
                SpecArgs::ArgsNoFuel => SpecParse::NoFuel,
            }
        } else {
            SpecParse::Fail("Expected '(' after quote!"@)
        }
    }
}

/// Folds quoted list elements right into a `Pair` chain ending in `Nil`.
pub open spec fn spec_quote_fold(elems: Seq<SpecExpr>) -> SpecExpr
    decreases elems.len(),
{
    if elems.len() == 0 {
        SpecExpr::Nil
    } else {
        SpecExpr::Pair(Box::new(elems[0]), Box::new(spec_quote_fold(elems.drop_first())))
    }
}

/// The parse of `lexemes` from position `i`, with fuel that always suffices.
pub open spec fn spec_parse_at(lexemes: Seq<Seq<char>>, i: int) -> SpecParse {
    spec_parse(lexemes, i, parse_fuel(lexemes, i))
}

/// Whether the outcome `r` with final cursor position `endpos` is what the
/// parse result `sp` prescribes.
pub open spec fn parse_outcome_ok(sp: SpecParse, r: Result<Expression, String>, endpos: int) -> bool {
    match sp {
        SpecParse::Found(e, end) => r is Ok && r->Ok_0@ == e && endpos == end,
        SpecParse::Fail(m) => r is Err && r->Err_0@ == m,
        SpecParse::NoFuel => r is Err && r->Err_0@ == "Parse recursion limit exceeded!"@,
    }
}

/// Parses the parameter list of a lambda form, the cursor standing on its
/// opening parenthesis, exactly as `spec_parse_params` describes.
fn parse_params(current: &mut TokenIterator) -> (r: Result<Vec<String>, String>)
    ensures
        final(current).lexemes() == old(current).lexemes(),
        match spec_parse_params(old(current).lexemes(), old(current).pos()) {
            SpecParams::ParamsFound(ps, end) => r is Ok && r->Ok_0.deep_view() == ps
                && final(current).pos() == end,
            SpecParams::ParamsFail(m) => r is Err && r->Err_0@ == m,
        },
    decreases current.lexemes().len() - current.pos(),
{
    let ghost pre = *current;
    match current.next() {
        Option::None => Err(String::from_str("Unexpected EOF!")),
        Option::Some(TokenType::Identifier(s)) => {
            proof {
                // The cursor saw a token, so it moved strictly forward.
                assert(current.pos() < current.lexemes().len());
                assert(current.pos() == pre.pos() + 1);
            }
            match parse_params(current) {
                Ok(mut ps) => {
                    let ghost rest = ps.deep_view();
                    ps.insert(0, s);
                    proof {
                        assert(ps.deep_view() =~= seq![s@].add(rest));
                    }
                    Ok(ps)
                },
                Err(e) => Err(e),
            }
        },
        Option::Some(TokenType::CloseParen) => {
            let ps: Vec<String> = Vec::new();
            proof {
                assert(ps.deep_view() =~= Seq::<Seq<char>>::empty());
            }
            Ok(ps)
        },
        Option::Some(_) => Err(String::from_str("Invalid token in lambda parameter list!")),
    }
}

/// Parses one expression, the cursor standing on its first token, exactly as
/// `spec_parse` describes; on success the cursor stands on its last token.
pub fn parse_with_fuel(current: &mut TokenIterator, fuel: u128) -> (r: Result<Expression, String>)
    ensures
        final(current).lexemes() == old(current).lexemes(),
        parse_outcome_ok(
            spec_parse(old(current).lexemes(), old(current).pos(), fuel as nat),
            r,
            final(current).pos(),
        ),
    decreases fuel,
{
    if fuel == 0 {
        return Err(String::from_str("Parse recursion limit exceeded!"));
    }
    match current.get_state() {
        Option::None => Err(String::from_str("Error!")),
        Option::Some(tok) => match tok {
            TokenType::OpenParen => {
                match current.next() {
                    Option::None => Err(String::from_str("Unexpected EOF!")),
                    Option::Some(TokenType::CloseParen) => Ok(Expression::Nil),
                    Option::Some(TokenType::If) => parse_if(current, fuel - 1),
                    Option::Some(TokenType::Define) => parse_define(current, fuel - 1),
                    Option::Some(TokenType::Lambda) => parse_lambda(current, fuel - 1),
                    Option::Some(_) => {
                        match parse_with_fuel(current, fuel - 1) {
                            Ok(head) => {
                                match parse_args(current, fuel - 1) {
                                    Ok(args) => {
                                        let r = Expression::SExpression(Box::new(head), args);
                                        proof {
                                            lemma_sexpression_view(r);
                                        }
                                        Ok(r)
                                    },
                                    Err(m) => Err(m),
                                }
                            },
                            Err(m) => Err(m),
                        }
                    },
                }
            },
            TokenType::CloseParen => Err(String::from_str("Unexpected ')'!")),
            TokenType::Identifier(s) => Ok(Expression::Identifier(s)),
            TokenType::Integer(n) => Ok(Expression::Integer(n)),
            TokenType::Number(b) => Ok(Expression::Number(b)),
            TokenType::Lambda => Err(String::from_str("Lambda not expected in this position!")),
            TokenType::Define => Err(String::from_str("Define not expected in this position!")),
            TokenType::If => Err(String::from_str("If not expected in this position!")),
            TokenType::True => Ok(Expression::Bool(true)),
            TokenType::False => Ok(Expression::Bool(false)),
            TokenType::Char(c) => Ok(Expression::Char(c)),
            TokenType::String(s) => {
                let n = s.as_str().unicode_len();
                if n >= 2 {
                    let inner = s.as_str().substring_char(1, n - 1);
                    Ok(Expression::String(String::from_str(inner)))
                } else {
                    Err(String::from_str("Malformed string literal!"))
                }
            },
            TokenType::SingleQuote => parse_quoted(current, fuel - 1),
        },
    }
}

/// The view of a freshly built application node, spelled out.
proof fn lemma_sexpression_view(r: Expression)
    requires
        r is SExpression,
    ensures
        (r@ matches SpecExpr::SExpression(h, a) && h == Box::new(expr_view(*r->SExpression_0))
            && a =~= r->SExpression_1.deep_view()),
{
    let args = r->SExpression_1;
    assert(r@->SExpression_1 =~= args.deep_view());
}

/// Parses the rest of an `if` form, the cursor standing on the keyword,
/// exactly as `spec_parse_if` describes.
fn parse_if(current: &mut TokenIterator, fuel: u128) -> (r: Result<Expression, String>)
    ensures
        final(current).lexemes() == old(current).lexemes(),
        parse_outcome_ok(
            spec_parse_if(old(current).lexemes(), old(current).pos(), fuel as nat),
            r,
            final(current).pos(),
        ),
    decreases fuel,
{
    if fuel == 0 {
        return Err(String::from_str("Parse recursion limit exceeded!"));
    }
    let _ = current.next();
    let cond = match parse_with_fuel(current, fuel - 1) {
        Ok(e) => e,
        Err(m) => {
            return Err(m);
        },
    };
    let _ = current.next();
    let thn = match parse_with_fuel(current, fuel - 1) {
        Ok(e) => e,
        Err(m) => {
            return Err(m);
        },
    };
    let _ = current.next();
    let els = match parse_with_fuel(current, fuel - 1) {
        Ok(e) => e,
        Err(m) => {
            return Err(m);
        },
    };
    match current.next() {
        Option::Some(TokenType::CloseParen) => Ok(
            Expression::If(Box::new(cond), Box::new(thn), Box::new(els)),
        ),
        _ => Err(String::from_str("Expected ')'!")),
    }
}

/// Parses the rest of a `define` form, the cursor standing on the keyword,
/// exactly as `spec_parse_define` describes.
fn parse_define(current: &mut TokenIterator, fuel: u128) -> (r: Result<Expression, String>)
    ensures
        final(current).lexemes() == old(current).lexemes(),
        parse_outcome_ok(
            spec_parse_define(old(current).lexemes(), old(current).pos(), fuel as nat),
            r,
            final(current).pos(),
        ),
    decreases fuel,
{
    if fuel == 0 {
        return Err(String::from_str("Parse recursion limit exceeded!"));
    }
    match current.next() {
        Option::Some(TokenType::Identifier(name)) => {
            let _ = current.next();
            match parse_with_fuel(current, fuel - 1) {
                Ok(value) => {
                    match current.next() {
                        Option::Some(TokenType::CloseParen) => Ok(
                            Expression::Define(name, Box::new(value)),
                        ),
                        _ => Err(String::from_str("Expected ')'!")),
                    }
                },
                Err(m) => Err(m),
            }
        },
        _ => Err(String::from_str("Expected identifier after define!")),
    }
}

/// Parses the rest of a `lambda` form, the cursor standing on the keyword,
/// exactly as `spec_parse_lambda` describes.
fn parse_lambda(current: &mut TokenIterator, fuel: u128) -> (r: Result<Expression, String>)
    ensures
        final(current).lexemes() == old(current).lexemes(),
        parse_outcome_ok(
            spec_parse_lambda(old(current).lexemes(), old(current).pos(), fuel as nat),
            r,
            final(current).pos(),
        ),
    decreases fuel,
{
    if fuel == 0 {
        return Err(String::from_str("Parse recursion limit exceeded!"));
    }
    match current.next() {
        Option::Some(TokenType::OpenParen) => {
            match parse_params(current) {
                Ok(params) => {
                    let _ = current.next();
                    match parse_with_fuel(current, fuel - 1) {
                        Ok(body) => {
                            match current.next() {
                                Option::Some(TokenType::CloseParen) => Ok(
                                    Expression::Lambda(params, Box::new(body)),
                                ),
                                _ => Err(String::from_str("Expected ')'!")),
                            }
                        },
                        Err(m) => Err(m),
                    }
                },
                Err(m) => Err(m),
            }
        },
        _ => Err(String::from_str("Expected '(' after 'lambda'!")),
    }
}

/// Parses the arguments of an application up to the closing parenthesis, the
/// cursor standing on the last consumed token, exactly as `spec_parse_args`
/// describes.
fn parse_args(current: &mut TokenIterator, fuel: u128) -> (r: Result<Vec<Expression>, String>)
    ensures
        final(current).lexemes() == old(current).lexemes(),
        match spec_parse_args(old(current).lexemes(), old(current).pos(), fuel as nat) {
            SpecArgs::ArgsFound(es, end) => r is Ok && r->Ok_0.deep_view() == es
                && final(current).pos() == end,
            SpecArgs::ArgsFail(m) => r is Err && r->Err_0@ == m,
            SpecArgs::ArgsNoFuel => r is Err && r->Err_0@ == "Parse recursion limit exceeded!"@,
        },
    decreases fuel,
{
    if fuel == 0 {
        return Err(String::from_str("Parse recursion limit exceeded!"));
    }
    match current.next() {
        Option::None => Err(String::from_str("Unexpected EOF!")),
        Option::Some(TokenType::CloseParen) => {
            let es: Vec<Expression> = Vec::new();
            proof {
                assert(es.deep_view() =~= Seq::<SpecExpr>::empty());
            }
            Ok(es)
        },
        Option::Some(_) => {
            match parse_with_fuel(current, fuel - 1) {
                Ok(e) => {
                    match parse_args(current, fuel - 1) {
                        Ok(mut rest) => {
                            let ghost rest_dv = rest.deep_view();
                            rest.insert(0, e);
                            proof {
                                assert(rest.deep_view() =~= seq![expr_view(rest@[0])].add(rest_dv));
                            }
                            Ok(rest)
                        },
                        Err(m) => Err(m),
                    }
                },
                Err(m) => Err(m),
            }
        },
    }
}

/// Parses the elements of a quoted list, the cursor standing on the quote
/// mark, exactly as `spec_parse_quoted` describes.
fn parse_quoted(current: &mut TokenIterator, fuel: u128) -> (r: Result<Expression, String>)
    ensures
        final(current).lexemes() == old(current).lexemes(),
        parse_outcome_ok(
            spec_parse_quoted(old(current).lexemes(), old(current).pos(), fuel as nat),
            r,
            final(current).pos(),
        ),
    decreases fuel,
{
    if fuel == 0 {
        return Err(String::from_str("Parse recursion limit exceeded!"));
    }
    match current.next() {
        Option::Some(TokenType::OpenParen) => {
            match parse_args(current, fuel - 1) {
                Ok(elems) => Ok(quote_fold(elems)),
                Err(m) => Err(m),
            }
        },
        _ => Err(String::from_str("Expected '(' after quote!")),
    }
}

/// Folds quoted list elements right into a `Pair` chain ending in `Nil`,
/// exactly as `spec_quote_fold` describes.
fn quote_fold(elems: Vec<Expression>) -> (r: Expression)
    ensures
        r@ == spec_quote_fold(elems.deep_view()),
{
    let ghost whole = elems.deep_view();
    let mut v = elems;
    let mut acc = Expression::Nil;
    while v.len() > 0
        invariant
            v@.len() <= whole.len(),
            forall|m: int| 0 <= m < v@.len() ==> #[trigger] expr_view(v@[m]) == whole[m],
            spec_quote_fold(whole.skip(v@.len() as int)) == acc@,
        decreases v.len(),
    {
        let ghost pre_len = v@.len() as int;
        let e = match v.pop() {
            Some(e) => e,
            None => Expression::Nil,
        };
        proof {
            assert(expr_view(e) == whole[pre_len - 1]);
            assert(whole.skip(pre_len - 1)[0] == whole[pre_len - 1]);
            assert(whole.skip(pre_len - 1).drop_first() =~= whole.skip(pre_len));
        }
        acc = Expression::Pair(Box::new(e), Box::new(acc));
        proof {
            assert(spec_quote_fold(whole.skip(pre_len - 1)) == acc@);
        }
    }
    proof {
        assert(whole.skip(0) =~= whole);
    }
    acc
}

/// Parses one expression from the cursor, consuming exactly its tokens: the
/// cursor is left on the expression's last token. Fails with a descriptive
/// message on malformed input, leaving the lexemes unchanged.
pub fn parse_expression(current: &mut TokenIterator) -> (r: Result<Expression, String>)
    ensures
        final(current).lexemes() == old(current).lexemes(),
        !(spec_parse_at(old(current).lexemes(), old(current).pos()) is NoFuel),
        parse_outcome_ok(
            spec_parse_at(old(current).lexemes(), old(current).pos()),
            r,
            final(current).pos(),
        ),
{
    proof {
        lemma_parse_fuel_suffices(current.lexemes(), current.pos());
    }
    let len = current.data.len();
    let rem: usize = if current.index <= len {
        len - current.index
    } else {
        0
    };
    let fuel: u128 = 2 * (rem as u128) + 2;
    proof {
        assert(fuel as nat == parse_fuel(current.lexemes(), current.pos()));
    }
    parse_with_fuel(current, fuel)
}

/// A found parameter list ends on a close parenthesis inside the lexemes,
/// strictly after where it started.
proof fn lemma_params_bounds(lexemes: Seq<Seq<char>>, i: int)
    requires
        0 <= i,
    ensures
        spec_parse_params(lexemes, i) matches SpecParams::ParamsFound(ps, end) ==> i < end
            < lexemes.len(),
    decreases lexemes.len() - i,
{
    let j = spec_advance(lexemes, i);
    match spec_get_state(lexemes, j) {
        Option::Some(SpecToken::Identifier(s)) => {
            lemma_params_bounds(lexemes, j);
        },
        _ => {},
    }
}

/// With fuel at least `2 * (remaining lexemes) + 2`, a parse never runs out
/// of fuel, and a found expression ends inside the lexemes, no earlier than
/// where it started.
proof fn lemma_parse_total(lexemes: Seq<Seq<char>>, i: int, fuel: nat)
    requires
        0 <= i,
        fuel >= 2,
        fuel >= 2 * (lexemes.len() - i) + 2,
    ensures
        !(spec_parse(lexemes, i, fuel) is NoFuel),
        spec_parse(lexemes, i, fuel) matches SpecParse::Found(e, end) ==> i <= end
            < lexemes.len(),
    decreases fuel,
{
    let len = lexemes.len() as int;
    match spec_get_state(lexemes, i) {
        Option::None => {},
        Option::Some(tok) => {
            assert(i < len);
            match tok {
                SpecToken::OpenParen => {
                    let j = spec_advance(lexemes, i);
                    match spec_get_state(lexemes, j) {
                        Option::None => {},
                        Option::Some(t2) => {
                            assert(j < len);
                            match t2 {
                                SpecToken::CloseParen => {},
                                SpecToken::If => {
                                    lemma_parse_if_total(lexemes, j, (fuel - 1) as nat);
                                },
                                SpecToken::Define => {
                                    lemma_parse_define_total(lexemes, j, (fuel - 1) as nat);
                                },
                                SpecToken::Lambda => {
                                    lemma_parse_lambda_total(lexemes, j, (fuel - 1) as nat);
                                },
                                _ => {
                                    lemma_parse_total(lexemes, j, (fuel - 1) as nat);
                                    match spec_parse(lexemes, j, (fuel - 1) as nat) {
                                        SpecParse::Found(head, e0) => {
                                            lemma_parse_args_total(
                                                lexemes,
                                                e0,
                                                (fuel - 1) as nat,
                                            );
                                        },
                                        _ => {},
                                    }
                                },
                            }
                        },
                    }
                },
                SpecToken::SingleQuote => {
                    lemma_parse_quoted_total(lexemes, i, (fuel - 1) as nat);
                },
                _ => {},
            }
        },
    }
}

/// Fuel sufficiency for the rest of an `if` form.
proof fn lemma_parse_if_total(lexemes: Seq<Seq<char>>, j: int, fuel: nat)
    requires
        0 <= j < lexemes.len(),
        fuel >= 2 * (lexemes.len() - j) + 1,
    ensures
        !(spec_parse_if(lexemes, j, fuel) is NoFuel),
        spec_parse_if(lexemes, j, fuel) matches SpecParse::Found(e, end) ==> j <= end
            < lexemes.len(),
    decreases fuel,
{
    let len = lexemes.len() as int;
    lemma_parse_total(lexemes, spec_advance(lexemes, j), (fuel - 1) as nat);
    match spec_parse(lexemes, spec_advance(lexemes, j), (fuel - 1) as nat) {
        SpecParse::Found(cond, e1) => {
            lemma_parse_total(lexemes, spec_advance(lexemes, e1), (fuel - 1) as nat);
            match spec_parse(lexemes, spec_advance(lexemes, e1), (fuel - 1) as nat) {
                SpecParse::Found(thn, e2) => {
                    lemma_parse_total(lexemes, spec_advance(lexemes, e2), (fuel - 1) as nat);
                },
                _ => {},
            }
        },
        _ => {},
    }
}

/// Fuel sufficiency for the rest of a `define` form.
proof fn lemma_parse_define_total(lexemes: Seq<Seq<char>>, j: int, fuel: nat)
    requires
        0 <= j < lexemes.len(),
        fuel >= 2 * (lexemes.len() - j) + 1,
    ensures
        !(spec_parse_define(lexemes, j, fuel) is NoFuel),
        spec_parse_define(lexemes, j, fuel) matches SpecParse::Found(e, end) ==> j <= end
            < lexemes.len(),
    decreases fuel,
{
    let j1 = spec_advance(lexemes, j);
    match spec_get_state(lexemes, j1) {
        Option::Some(SpecToken::Identifier(name)) => {
            lemma_parse_total(lexemes, spec_advance(lexemes, j1), (fuel - 1) as nat);
        },
        _ => {},
    }
}

/// Fuel sufficiency for the rest of a `lambda` form.
proof fn lemma_parse_lambda_total(lexemes: Seq<Seq<char>>, j: int, fuel: nat)
    requires
        0 <= j < lexemes.len(),
        fuel >= 2 * (lexemes.len() - j) + 1,
    ensures
        !(spec_parse_lambda(lexemes, j, fuel) is NoFuel),
        spec_parse_lambda(lexemes, j, fuel) matches SpecParse::Found(e, end) ==> j <= end
            < lexemes.len(),
    decreases fuel,
{
    let j1 = spec_advance(lexemes, j);
    if spec_get_state(lexemes, j1) == Option::Some(SpecToken::OpenParen) {
        lemma_params_bounds(lexemes, j1);
        match spec_parse_params(lexemes, j1) {
            SpecParams::ParamsFound(params, pend) => {
                lemma_parse_total(lexemes, spec_advance(lexemes, pend), (fuel - 1) as nat);
            },
            _ => {},
        }
    }
}

/// Fuel sufficiency for an argument list.
proof fn lemma_parse_args_total(lexemes: Seq<Seq<char>>, i: int, fuel: nat)
    requires
        0 <= i < lexemes.len(),
        fuel >= 2 * (lexemes.len() - i) + 1,
    ensures
        !(spec_parse_args(lexemes, i, fuel) is ArgsNoFuel),
        spec_parse_args(lexemes, i, fuel) matches SpecArgs::ArgsFound(es, fin) ==> i < fin
            < lexemes.len(),
    decreases fuel,
{
    let j = spec_advance(lexemes, i);
    match spec_get_state(lexemes, j) {
        Option::None => {},
        Option::Some(SpecToken::CloseParen) => {},
        Option::Some(_) => {
            lemma_parse_total(lexemes, j, (fuel - 1) as nat);
            match spec_parse(lexemes, j, (fuel - 1) as nat) {
                SpecParse::Found(e, end) => {
                    lemma_parse_args_total(lexemes, end, (fuel - 1) as nat);
                },
                _ => {},
            }
        },
    }
}

/// Fuel sufficiency for a quoted list.
proof fn lemma_parse_quoted_total(lexemes: Seq<Seq<char>>, i: int, fuel: nat)
    requires
        0 <= i < lexemes.len(),
        fuel >= 2 * (lexemes.len() - i) + 1,
    ensures
        !(spec_parse_quoted(lexemes, i, fuel) is NoFuel),
        spec_parse_quoted(lexemes, i, fuel) matches SpecParse::Found(e, end) ==> i <= end
            < lexemes.len(),
    decreases fuel,
{
    let j = spec_advance(lexemes, i);
    if spec_get_state(lexemes, j) == Option::Some(SpecToken::OpenParen) {
        lemma_parse_args_total(lexemes, j, (fuel - 1) as nat);
    }
}

/// `parse_expression`'s fuel always suffices: the parse of any cursor
/// position either finds an expression or fails with a parse error, never by
/// hitting the recursion bound.
pub proof fn lemma_parse_fuel_suffices(lexemes: Seq<Seq<char>>, i: int)
    requires
        0 <= i,
    ensures
        !(spec_parse_at(lexemes, i) is NoFuel),
{
    if i <= lexemes.len() {
        lemma_parse_total(lexemes, i, parse_fuel(lexemes, i));
    }
}

} // verus!
