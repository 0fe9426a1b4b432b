//! General laws of the interpreter, stated over the spec-level model that
//! the executable code is verified against: numeric promotion in the
//! arithmetic folds, the chained comparison on positive integers, the list
//! and string operations, the elimination of captured names by closure
//! substitution, and the lexical round trip of literals.
use vstd::prelude::*;

use crate::eval::{
    ArithOp, SpecValue, arith_combine, arith_fold, bres, is_numeric, lt_fold, msg_not_pair,
    msg_symbol_not_found, remove_names, spec_builtin, spec_char_walk, spec_chars_to_list,
    spec_eval, spec_render, spec_subst, spec_val_to_expr,
};
use crate::parser::{SpecExpr, SpecParse, parse_fuel, spec_parse, spec_parse_at};
use crate::strutil::{char_is_whitespace, int_text, lemma_parse_int_text, nat_text};
use crate::tokenizer::{SpecToken, spec_classify, spec_get_state, spec_lex, spec_lexemes};

verus! {

/// Folding `+`, `-` or `*` over integers alone yields an integer.
pub proof fn lemma_arith_fold_integers(op: ArithOp, acc: SpecValue, args: Seq<SpecValue>)
    requires
        op is Add || op is Sub || op is Mul,
        acc is Integer,
        forall|k: int| 0 <= k < args.len() ==> (#[trigger] args[k]) is Integer,
    ensures
        arith_fold(op, Ok(acc), args) is Ok,
        arith_fold(op, Ok(acc), args)->Ok_0 is Integer,
    decreases args.len(),
{
    if args.len() > 0 {
        let acc2 = arith_combine(op, acc, args[0]);
        assert(forall|k: int|
            0 <= k < args.drop_first().len() ==> (#[trigger] args.drop_first()[k]) is Integer);
        lemma_arith_fold_integers(op, acc2, args.drop_first());
    }
}

/// Folding `+`, `-`, `*` or `/` with a double as the running value yields a
/// double: one float argument promotes the whole fold.
pub proof fn lemma_arith_fold_promotes(op: ArithOp, acc: SpecValue, args: Seq<SpecValue>)
    requires
        acc is Number,
        forall|k: int| 0 <= k < args.len() ==> is_numeric(#[trigger] args[k]),
    ensures
        arith_fold(op, Ok(acc), args) is Ok,
        arith_fold(op, Ok(acc), args)->Ok_0 is Number,
    decreases args.len(),
{
    if args.len() > 0 {
        let acc2 = arith_combine(op, acc, args[0]);
        assert(forall|k: int|
            0 <= k < args.drop_first().len() ==> is_numeric(#[trigger] args.drop_first()[k]));
        lemma_arith_fold_promotes(op, acc2, args.drop_first());
    }
}

/// The promotion law of the arithmetic folds: over numeric arguments the
/// fold succeeds, it stays an integer when every argument is an integer, and
/// it becomes a double as soon as any argument is one.
pub proof fn lemma_arith_promotion(op: ArithOp, acc: SpecValue, args: Seq<SpecValue>)
    requires
        op is Add || op is Sub || op is Mul,
        acc is Integer,
        forall|k: int| 0 <= k < args.len() ==> is_numeric(#[trigger] args[k]),
    ensures
        arith_fold(op, Ok(acc), args) is Ok,
        (forall|k: int| 0 <= k < args.len() ==> (#[trigger] args[k]) is Integer)
            <==> arith_fold(op, Ok(acc), args)->Ok_0 is Integer,
        (exists|k: int| 0 <= k < args.len() && (#[trigger] args[k]) is Number) <==> arith_fold(
            op,
            Ok(acc),
            args,
        )->Ok_0 is Number,
    decreases args.len(),
{
    if args.len() == 0 {
    } else {
        let acc2 = arith_combine(op, acc, args[0]);
        let rest = args.drop_first();
        assert(forall|k: int| 0 <= k < rest.len() ==> is_numeric(#[trigger] rest[k]));
        if forall|k: int| 0 <= k < args.len() ==> (#[trigger] args[k]) is Integer {
            assert(forall|k: int| 0 <= k < rest.len() ==> (#[trigger] rest[k]) is Integer);
            lemma_arith_fold_integers(op, acc2, rest);
        } else {
            let w = choose|k: int| 0 <= k < args.len() && !((#[trigger] args[k]) is Integer);
            assert(args[w] is Number);
            if args[0] is Integer {
                assert(rest[w - 1] is Number);
                assert(!(forall|k: int| 0 <= k < rest.len() ==> (#[trigger] rest[k]) is Integer));
                assert(exists|k: int| 0 <= k < rest.len() && (#[trigger] rest[k]) is Number) by {
                    assert(rest[w - 1] is Number);
                }
                lemma_arith_promotion(op, acc2, rest);
            } else {
                lemma_arith_fold_promotes(op, acc2, rest);
            }
        }
        if exists|k: int| 0 <= k < args.len() && (#[trigger] args[k]) is Number {
            let w2 = choose|k: int| 0 <= k < args.len() && (#[trigger] args[k]) is Number;
            assert(!((args[w2]) is Integer));
        }
    }
}

/// The character sequences of the builtin names, spelled out so that the
/// dispatch in `spec_builtin` can be unfolded.
pub proof fn lemma_builtin_name_views()
    ensures
        "+"@ == seq!['+'],
        "*"@ == seq!['*'],
        "-"@ == seq!['-'],
        "/"@ == seq!['/'],
        "<"@ == seq!['<'],
        "="@ == seq!['='],
        "int"@ == seq!['i', 'n', 't'],
        "not"@ == seq!['n', 'o', 't'],
        "display"@ == seq!['d', 'i', 's', 'p', 'l', 'a', 'y'],
        "newline"@ == seq!['n', 'e', 'w', 'l', 'i', 'n', 'e'],
        "cons"@ == seq!['c', 'o', 'n', 's'],
        "car"@ == seq!['c', 'a', 'r'],
        "cdr"@ == seq!['c', 'd', 'r'],
        "list"@ == seq!['l', 'i', 's', 't'],
        "null?"@ == seq!['n', 'u', 'l', 'l', '?'],
        "string->list"@ == seq!['s', 't', 'r', 'i', 'n', 'g', '-', '>', 'l', 'i', 's', 't'],
        "list->string"@ == seq!['l', 'i', 's', 't', '-', '>', 's', 't', 'r', 'i', 'n', 'g'],
{
    reveal_strlit("+");
    reveal_strlit("*");
    reveal_strlit("-");
    reveal_strlit("/");
    reveal_strlit("<");
    reveal_strlit("=");
    reveal_strlit("int");
    reveal_strlit("not");
    reveal_strlit("display");
    reveal_strlit("newline");
    reveal_strlit("cons");
    reveal_strlit("car");
    reveal_strlit("cdr");
    reveal_strlit("list");
    reveal_strlit("null?");
    reveal_strlit("string->list");
    reveal_strlit("list->string");
    assert("+"@ =~= seq!['+']);
    assert("*"@ =~= seq!['*']);
    assert("-"@ =~= seq!['-']);
    assert("/"@ =~= seq!['/']);
    assert("<"@ =~= seq!['<']);
    assert("="@ =~= seq!['=']);
    assert("int"@ =~= seq!['i', 'n', 't']);
    assert("not"@ =~= seq!['n', 'o', 't']);
    assert("display"@ =~= seq!['d', 'i', 's', 'p', 'l', 'a', 'y']);
    assert("newline"@ =~= seq!['n', 'e', 'w', 'l', 'i', 'n', 'e']);
    assert("cons"@ =~= seq!['c', 'o', 'n', 's']);
    assert("car"@ =~= seq!['c', 'a', 'r']);
    assert("cdr"@ =~= seq!['c', 'd', 'r']);
    assert("list"@ =~= seq!['l', 'i', 's', 't']);
    assert("null?"@ =~= seq!['n', 'u', 'l', 'l', '?']);
    assert("string->list"@ =~= seq!['s', 't', 'r', 'i', 'n', 'g', '-', '>', 'l', 'i', 's', 't']);
    assert("list->string"@ =~= seq!['l', 'i', 's', 't', '-', '>', 's', 't', 'r', 'i', 'n', 'g']);
}

/// A chain poisoned to the integer zero stays zero over integer arguments.
proof fn lemma_lt_fold_zero(args: Seq<SpecValue>)
    requires
        forall|k: int| 0 <= k < args.len() ==> (#[trigger] args[k]) is Integer,
    ensures
        lt_fold(Ok(SpecValue::Integer(0)), args) == Ok::<SpecValue, Seq<char>>(
            SpecValue::Integer(0),
        ),
    decreases args.len(),
{
    if args.len() > 0 {
        assert(forall|k: int|
            0 <= k < args.drop_first().len() ==> (#[trigger] args.drop_first()[k]) is Integer);
        lemma_lt_fold_zero(args.drop_first());
    }
}

/// Whether consecutive integer arguments are strictly increasing from `a`.
pub open spec fn chain_up(a: i64, args: Seq<SpecValue>) -> bool
    decreases args.len(),
{
    args.len() == 0 || (a < args[0]->Integer_0 && chain_up(args[0]->Integer_0, args.drop_first()))
}

/// The chained `<` over positive integers: the running value ends as the
/// last argument when the chain is strictly increasing and as zero when it
/// is not.
proof fn lemma_lt_fold_positive(a: i64, args: Seq<SpecValue>)
    requires
        a > 0,
        forall|k: int|
            0 <= k < args.len() ==> (#[trigger] args[k]) is Integer && args[k]->Integer_0 > 0,
    ensures
        lt_fold(Ok(SpecValue::Integer(a)), args) == Ok::<SpecValue, Seq<char>>(
            SpecValue::Integer(
                if chain_up(a, args) {
                    if args.len() == 0 {
                        a
                    } else {
                        args.last()->Integer_0
                    }
                } else {
                    0
                },
            ),
        ),
    decreases args.len(),
{
    if args.len() > 0 {
        let x = args[0]->Integer_0;
        assert(forall|k: int|
            0 <= k < args.drop_first().len() ==> (#[trigger] args.drop_first()[k]) is Integer
                && args.drop_first()[k]->Integer_0 > 0);
        if a < x {
            lemma_lt_fold_positive(x, args.drop_first());
            if args.len() > 1 {
                assert(args.drop_first().last() == args.last());
            }
        } else {
            lemma_lt_fold_zero(args.drop_first());
        }
    }
}

/// The chained comparison law: on one or more positive integers, `<` returns
/// the boolean that says whether the arguments are strictly increasing.
pub proof fn lemma_lt_chain_positive(args: Seq<SpecValue>)
    requires
        args.len() >= 1,
        forall|k: int|
            0 <= k < args.len() ==> (#[trigger] args[k]) is Integer && args[k]->Integer_0 > 0,
    ensures
        spec_builtin("<"@, args) == bres(
            Ok(SpecValue::Bool(chain_up(args[0]->Integer_0, args.drop_first()))),
        ),
{
    lemma_builtin_name_views();
    assert(("<"@)[0] == '<' && ("+"@)[0] == '+' && ("*"@)[0] == '*' && ("-"@)[0] == '-' && ("/"@)[0]
        == '/');
    assert("<"@ != "+"@ && "<"@ != "*"@ && "<"@ != "-"@ && "<"@ != "/"@);
    let a = args[0]->Integer_0;
    assert(forall|k: int|
        0 <= k < args.drop_first().len() ==> (#[trigger] args.drop_first()[k]) is Integer
            && args.drop_first()[k]->Integer_0 > 0);
    lemma_lt_fold_positive(a, args.drop_first());
    if chain_up(a, args.drop_first()) {
        if args.len() > 1 {
            assert(args.drop_first().last()->Integer_0 > 0);
        }
    }
    assert(args[0] == SpecValue::Integer(a));
}

/// Taking the car of a fresh cons gives the first argument back.
pub proof fn lemma_car_cons(a: SpecValue, b: SpecValue)
    ensures
        spec_builtin("cons"@, seq![a, b]) == bres(
            Ok(SpecValue::Pair(Box::new(a), Box::new(b))),
        ),
        spec_builtin("car"@, seq![SpecValue::Pair(Box::new(a), Box::new(b))]) == bres(Ok(a)),
        spec_builtin("cdr"@, seq![SpecValue::Pair(Box::new(a), Box::new(b))]) == bres(Ok(b)),
{
    lemma_builtin_name_views();
}

/// `(null? (list))` is true: the empty list is nil.
pub proof fn lemma_null_empty_list()
    ensures
        spec_builtin("list"@, Seq::empty()) == bres(Ok(SpecValue::Nil)),
        spec_builtin("null?"@, seq![SpecValue::Nil]) == bres(Ok(SpecValue::Bool(true))),
{
    lemma_builtin_name_views();
    assert(Seq::<SpecValue>::empty() =~= Seq::empty());
}

/// Walking the list of the characters of a nonempty text gives the text
/// back.
proof fn lemma_char_walk_chars(s: Seq<char>)
    requires
        s.len() > 0,
    ensures
        spec_char_walk(spec_chars_to_list(s)) == Option::Some(s),
    decreases s.len(),
{
    let v = spec_chars_to_list(s);
    if s.len() == 1 {
        assert(spec_chars_to_list(s.drop_first()) == SpecValue::Nil);
        assert(seq![s[0]] =~= s);
    } else {
        lemma_char_walk_chars(s.drop_first());
        assert(seq![s[0]].add(s.drop_first()) =~= s);
    }
}

/// The string round trip law: exploding a nonempty string into a character
/// list and imploding it back yields the same string.
pub proof fn lemma_string_list_roundtrip(s: Seq<char>)
    requires
        s.len() > 0,
    ensures
        spec_builtin("string->list"@, seq![SpecValue::Str(s)]) == bres(
            Ok(spec_chars_to_list(s)),
        ),
        spec_builtin("list->string"@, seq![spec_chars_to_list(s)]) == bres(
            Ok(SpecValue::Str(s)),
        ),
{
    lemma_builtin_name_views();
    assert(("list->string"@)[0] == 'l' && ("string->list"@)[0] == 's');
    assert("list->string"@ != "string->list"@);
    assert(("list->string"@).len() == 12 && ("string->list"@).len() == 12);
    assert(("+"@).len() == 1 && ("*"@).len() == 1 && ("-"@).len() == 1 && ("/"@).len() == 1 && (
    "<"@).len() == 1 && ("="@).len() == 1);
    assert(("int"@).len() == 3 && ("not"@).len() == 3 && ("car"@).len() == 3 && ("cdr"@).len()
        == 3);
    assert(("display"@).len() == 7 && ("newline"@).len() == 7 && ("cons"@).len() == 4 && (
    "list"@).len() == 4 && ("null?"@).len() == 5);
    lemma_char_walk_chars(s);
    assert(spec_chars_to_list(s) is Pair);
    assert(seq![spec_chars_to_list(s)][0] == spec_chars_to_list(s));
    assert(spec_char_walk(seq![spec_chars_to_list(s)][0]) == Option::Some(s));
}

/// The free identifiers of an expression: identifiers not bound by an
/// enclosing lambda's parameter list.
pub open spec fn free_vars(e: SpecExpr) -> Set<Seq<char>>
    decreases e,
    via free_vars_decreases
{
    match e {
        SpecExpr::Identifier(s) => Set::empty().insert(s),
        SpecExpr::SExpression(h, args) => free_vars(*h).union(free_vars_seq(args)),
        SpecExpr::Lambda(ps, b) => free_vars(*b).difference(ps.to_set()),
        SpecExpr::Define(n, v) => free_vars(*v),
        SpecExpr::If(c, th, el) => free_vars(*c).union(free_vars(*th)).union(free_vars(*el)),
        SpecExpr::Pair(a, d) => free_vars(*a).union(free_vars(*d)),
        _ => Set::empty(),
    }
}

/// The free identifiers of a sequence of expressions.
pub open spec fn free_vars_seq(es: Seq<SpecExpr>) -> Set<Seq<char>>
    decreases es,
    via free_vars_seq_decreases
{
    if es.len() == 0 {
        Set::empty()
    } else {
        free_vars(es[0]).union(free_vars_seq(es.drop_first()))
    }
}

#[via_fn]
proof fn free_vars_decreases(e: SpecExpr) {
    match e {
        SpecExpr::SExpression(h, args) => {
            assert(decreases_to!(e => args));
        },
        _ => {},
    }
}

#[via_fn]
proof fn free_vars_seq_decreases(es: Seq<SpecExpr>) {
    if es.len() > 0 {
        vstd::seq::axiom_seq_index_decreases::<SpecExpr>(es, 0);
        assert(decreases_to!(es => es[0]));
    }
}

/// A closed value: a function value may mention only its own parameters
/// free, and a pair is closed in both halves.
pub open spec fn value_closed(v: SpecValue) -> bool
    decreases v,
{
    match v {
        SpecValue::Function(ps, b) => free_vars(*b).subset_of(ps.to_set()),
        SpecValue::Pair(a, d) => value_closed(*a) && value_closed(*d),
        _ => true,
    }
}

/// An environment of closed values.
pub open spec fn env_closed(env: Map<Seq<char>, SpecValue>) -> bool {
    forall|k: Seq<char>| #[trigger] env.contains_key(k) ==> value_closed(env[k])
}

/// The literal expression form of a closed value has no free identifiers.
proof fn lemma_val_to_expr_closed(v: SpecValue)
    requires
        value_closed(v),
    ensures
        free_vars(spec_val_to_expr(v)) == Set::<Seq<char>>::empty(),
    decreases v,
{
    match v {
        SpecValue::Function(ps, b) => {
            assert(free_vars(spec_val_to_expr(v)) =~= Set::<Seq<char>>::empty());
        },
        SpecValue::Pair(a, d) => {
            lemma_val_to_expr_closed(*a);
            lemma_val_to_expr_closed(*d);
            assert(free_vars(spec_val_to_expr(v)) =~= Set::<Seq<char>>::empty());
        },
        _ => {
            assert(free_vars(spec_val_to_expr(v)) =~= Set::<Seq<char>>::empty());
        },
    }
}

/// Removing names keeps the other bindings and their values, and keeps the
/// environment closed.
proof fn lemma_remove_names_facts(env: Map<Seq<char>, SpecValue>, names: Seq<Seq<char>>)
    ensures
        forall|k: Seq<char>|
            #[trigger] remove_names(env, names).contains_key(k) <==> (env.contains_key(k)
                && !names.contains(k)),
        forall|k: Seq<char>|
            #[trigger] remove_names(env, names).contains_key(k) ==> remove_names(env, names)[k]
                == env[k],
    decreases names.len(),
{
    if names.len() > 0 {
        lemma_remove_names_facts(env, names.drop_last());
        let prev = remove_names(env, names.drop_last());
        let last = names.last();
        assert forall|k: Seq<char>|
            #[trigger] remove_names(env, names).contains_key(k) <==> (env.contains_key(k)
                && !names.contains(k)) by {
            assert(remove_names(env, names) == prev.remove(last));
            if k == last {
                assert(names[names.len() - 1] == k);
                assert(names.contains(k));
            } else {
                if names.contains(k) {
                    let i = choose|i: int| 0 <= i < names.len() && names[i] == k;
                    assert(i < names.len() - 1);
                    assert(names.drop_last()[i] == k);
                    assert(names.drop_last().contains(k));
                }
                if names.drop_last().contains(k) {
                    let i = choose|i: int|
                        0 <= i < names.drop_last().len() && names.drop_last()[i] == k;
                    assert(names[i] == k);
                    assert(names.contains(k));
                }
            }
        }
        assert forall|k: Seq<char>|
            #[trigger] remove_names(env, names).contains_key(k) implies remove_names(env, names)[k]
            == env[k] by {
            assert(remove_names(env, names) == prev.remove(last));
        }
    }
}

/// The elimination law of closure substitution: over an environment of
/// closed values, substituting a body leaves free exactly the identifiers
/// that were free and are not bound by the environment. A name captured at
/// construction time can never be re-resolved later.
pub proof fn lemma_subst_eliminates(e: SpecExpr, env: Map<Seq<char>, SpecValue>)
    requires
        env_closed(env),
    ensures
        free_vars(spec_subst(e, env)) == free_vars(e).difference(env.dom()),
    decreases e, 0int,
{
    match e {
        SpecExpr::Identifier(s) => {
            if env.contains_key(s) {
                lemma_val_to_expr_closed(env[s]);
                assert(free_vars(spec_subst(e, env)) =~= free_vars(e).difference(env.dom()));
            } else {
                assert(free_vars(spec_subst(e, env)) =~= free_vars(e).difference(env.dom()));
            }
        },
        SpecExpr::Lambda(ps, b) => {
            let env2 = remove_names(env, ps);
            lemma_remove_names_facts(env, ps);
            assert(env_closed(env2));
            lemma_subst_eliminates(*b, env2);
            assert(forall|k: Seq<char>| ps.to_set().contains(k) <==> ps.contains(k));
            assert(free_vars(spec_subst(e, env)) =~= free_vars(e).difference(env.dom())) by {
                assert(forall|k: Seq<char>|
                    #[trigger] env2.dom().contains(k) <==> (env.dom().contains(k) && !ps.contains(
                        k,
                    )));
            }
        },
        SpecExpr::SExpression(h, args) => {
            lemma_subst_eliminates(*h, env);
            lemma_subst_eliminates_seq(args, env);
            let mapped = spec_subst(e, env)->SExpression_1;
            assert(mapped =~= Seq::new(
                args.len(),
                |k: int|
                    if 0 <= k < args.len() {
                        spec_subst(args[k], env)
                    } else {
                        SpecExpr::Nil
                    },
            ));
            assert(free_vars(spec_subst(e, env)) =~= free_vars(e).difference(env.dom()));
        },
        SpecExpr::Define(n, v) => {
            lemma_subst_eliminates(*v, env);
            assert(free_vars(spec_subst(e, env)) =~= free_vars(e).difference(env.dom()));
        },
        SpecExpr::If(c, th, el) => {
            lemma_subst_eliminates(*c, env);
            lemma_subst_eliminates(*th, env);
            lemma_subst_eliminates(*el, env);
            assert(free_vars(spec_subst(e, env)) =~= free_vars(e).difference(env.dom()));
        },
        SpecExpr::Pair(a, d) => {
            lemma_subst_eliminates(*a, env);
            lemma_subst_eliminates(*d, env);
            assert(free_vars(spec_subst(e, env)) =~= free_vars(e).difference(env.dom()));
        },
        _ => {
            assert(free_vars(spec_subst(e, env)) =~= free_vars(e).difference(env.dom()));
        },
    }
}

/// The elimination law over a sequence of expressions, mapped by
/// substitution.
proof fn lemma_subst_eliminates_seq(args: Seq<SpecExpr>, env: Map<Seq<char>, SpecValue>)
    requires
        env_closed(env),
    ensures
        free_vars_seq(
            Seq::new(
                args.len(),
                |k: int|
                    if 0 <= k < args.len() {
                        spec_subst(args[k], env)
                    } else {
                        SpecExpr::Nil
                    },
            ),
        ) == free_vars_seq(args).difference(env.dom()),
    decreases args, 1int,
{
    let mapped = Seq::new(
        args.len(),
        |k: int|
            if 0 <= k < args.len() {
                spec_subst(args[k], env)
            } else {
                SpecExpr::Nil
            },
    );
    if args.len() == 0 {
        assert(free_vars_seq(mapped) =~= free_vars_seq(args).difference(env.dom()));
    } else {
        vstd::seq::axiom_seq_index_decreases::<SpecExpr>(args, 0);
        lemma_subst_eliminates(args[0], env);
        lemma_subst_eliminates_seq(args.drop_first(), env);
        let rest_mapped = Seq::new(
            args.drop_first().len(),
            |k: int|
                if 0 <= k < args.drop_first().len() {
                    spec_subst(args.drop_first()[k], env)
                } else {
                    SpecExpr::Nil
                },
        );
        assert(mapped.drop_first() =~= rest_mapped);
        assert(mapped[0] == spec_subst(args[0], env));
        assert(free_vars_seq(mapped) =~= free_vars_seq(args).difference(env.dom()));
    }
}

/// A character that the lexer accumulates into a plain lexeme: not
/// whitespace, a parenthesis, the quote mark or a double quote.
pub open spec fn plain_char(c: char) -> bool {
    !char_is_whitespace(c) && c != '(' && c != ')' && c != '\'' && c != '"'
}

/// Scanning plain characters accumulates them into one lexeme.
proof fn lemma_lex_plain(s: Seq<char>, i: int, cur: Seq<char>, acc: Seq<Seq<char>>)
    requires
        0 <= i <= s.len(),
        forall|j: int| i <= j < s.len() ==> plain_char(#[trigger] s[j]),
        cur.len() + (s.len() - i) > 0,
    ensures
        spec_lex(s, i, false, cur, acc) == acc.push(cur + s.skip(i)),
    decreases s.len() - i,
{
    if i == s.len() {
        assert(cur + s.skip(i) =~= cur);
    } else {
        lemma_lex_plain(s, i + 1, cur.push(s[i]), acc);
        assert(cur.push(s[i]) + s.skip(i + 1) =~= cur + s.skip(i));
    }
}

/// A nonempty text of plain characters is exactly one lexeme.
pub proof fn lemma_single_lexeme(s: Seq<char>)
    requires
        s.len() > 0,
        forall|j: int| 0 <= j < s.len() ==> plain_char(#[trigger] s[j]),
    ensures
        spec_lexemes(s) == seq![s],
{
    lemma_lex_plain(s, 0, Seq::empty(), Seq::empty());
    assert(Seq::<char>::empty() + s.skip(0) =~= s);
    assert(Seq::<Seq<char>>::empty().push(s) =~= seq![s]);
}

/// The decimal text of an integer is made of plain characters and is
/// classified as that integer.
proof fn lemma_classify_int_text(n: i64)
    ensures
        forall|j: int|
            0 <= j < int_text(n as int).len() ==> plain_char(#[trigger] int_text(n as int)[j]),
        int_text(n as int).len() > 0,
        spec_classify(int_text(n as int)) == Option::Some(SpecToken::Integer(n)),
{
    let s = int_text(n as int);
    lemma_parse_int_text(n);
    if n < 0 {
        crate::strutil::lemma_nat_text_digits(-(n as int));
        assert(s[0] == '-');
        assert(forall|j: int|
            1 <= j < s.len() ==> crate::strutil::is_digit(#[trigger] s[j])) by {
            assert(forall|j: int|
                0 <= j < nat_text(-(n as int)).len() ==> s[j + 1] == #[trigger] nat_text(
                    -(n as int),
                )[j]);
        }
    } else {
        crate::strutil::lemma_nat_text_digits(n as int);
        assert(forall|j: int| 0 <= j < s.len() ==> crate::strutil::is_digit(#[trigger] s[j]));
    }
    assert(forall|j: int| 0 <= j < s.len() ==> plain_char(#[trigger] s[j]));
    assert(s[0] != '#' && s[0] != '"');
    assert(s != seq!['\''] && s != seq!['('] && s != seq![')']) by {
        if s.len() == 1 {
            assert(s[0] != '\'' && s[0] != '(' && s[0] != ')');
        } else {
            assert(seq!['\''].len() == 1);
        }
    }
    assert(s != seq!['#', 't'] && s != seq!['#', 'f']) by {
        if s.len() == 2 {
            assert(s[0] != '#');
        } else {
            assert(seq!['#', 't'].len() == 2);
        }
    }
}

/// The round trip of an integer literal: its decimal text is one lexeme,
/// that lexeme parses to the integer literal, the literal evaluates to the
/// integer value, and the value renders back to the same text.
pub proof fn lemma_roundtrip_integer(n: i64, env: Map<Seq<char>, SpecValue>, fuel: nat)
    ensures
        spec_lexemes(int_text(n as int)) == seq![int_text(n as int)],
        spec_parse_at(seq![int_text(n as int)], 0) == SpecParse::Found(SpecExpr::Integer(n), 0),
        spec_eval(SpecExpr::Integer(n), env, fuel).res == Ok::<SpecValue, Seq<char>>(
            SpecValue::Integer(n),
        ),
        spec_render(SpecValue::Integer(n)) == int_text(n as int),
{
    let s = int_text(n as int);
    lemma_classify_int_text(n);
    lemma_single_lexeme(s);
    let lexemes = seq![s];
    assert(spec_get_state(lexemes, 0) == Option::Some(SpecToken::Integer(n)));
    assert(parse_fuel(lexemes, 0) == 4);
    assert(spec_parse(lexemes, 0, 4) == SpecParse::Found(SpecExpr::Integer(n), 0));
}

/// The round trip of a boolean literal through `#t` and `#f`.
pub proof fn lemma_roundtrip_bool(b: bool, env: Map<Seq<char>, SpecValue>, fuel: nat)
    ensures
        spec_lexemes(spec_render(SpecValue::Bool(b))) == seq![spec_render(SpecValue::Bool(b))],
        spec_parse_at(seq![spec_render(SpecValue::Bool(b))], 0) == SpecParse::Found(
            SpecExpr::Bool(b),
            0,
        ),
        spec_eval(SpecExpr::Bool(b), env, fuel).res == Ok::<SpecValue, Seq<char>>(
            SpecValue::Bool(b),
        ),
{
    reveal_strlit("#t");
    reveal_strlit("#f");
    assert("#t"@ =~= seq!['#', 't']);
    assert("#f"@ =~= seq!['#', 'f']);
    let s = spec_render(SpecValue::Bool(b));
    assert(forall|j: int| 0 <= j < s.len() ==> plain_char(#[trigger] s[j])) by {
        assert(s[0] == '#' && (s[1] == 't' || s[1] == 'f'));
    }
    lemma_single_lexeme(s);
    let lexemes = seq![s];
    assert(spec_classify(s) == Option::Some(if b {
        SpecToken::True
    } else {
        SpecToken::False
    })) by {
        assert(s[0] == '#' && s[0] != '"');
        assert(s != seq!['\''] && s != seq!['('] && s != seq![')']) by {
            assert(seq!['\''].len() == 1 && seq!['('].len() == 1 && seq![')'].len() == 1);
        }
        assert(crate::strutil::spec_parse_int(s) is None) by {
            assert(!crate::strutil::is_digit(s[0]));
        }
        assert(crate::float::spec_float_value(s) is None) by {
            assert(!crate::float::is_decimal_float_text(s)) by {
                crate::float::lemma_first_exp_index_range(s);
                let k = crate::float::first_exp_index(s);
                assert(!crate::float::is_mantissa(s.take(k))) by {
                    assert(forall|i: int| 0 <= i < k ==> #[trigger] s.take(k)[i] == s[i]);
                    if exists|i: int|
                        0 <= i < s.take(k).len() && crate::strutil::is_digit(
                            #[trigger] s.take(k)[i],
                        ) {
                        let i = choose|i: int|
                            0 <= i < s.take(k).len() && crate::strutil::is_digit(
                                #[trigger] s.take(k)[i],
                            );
                        assert(crate::strutil::is_digit(s[i]));
                        assert(s[i] == '#' || s[i] == 't' || s[i] == 'f');
                    }
                }
            }
        }
    }
    assert(spec_parse(lexemes, 0, 4) == SpecParse::Found(SpecExpr::Bool(b), 0));
    assert(parse_fuel(lexemes, 0) == 4);
}

/// The round trip of the nil literal `()`.
pub proof fn lemma_roundtrip_nil(env: Map<Seq<char>, SpecValue>, fuel: nat)
    ensures
        spec_lexemes("()"@) == seq![seq!['('], seq![')']],
        spec_parse_at(seq![seq!['('], seq![')']], 0) == SpecParse::Found(SpecExpr::Nil, 1),
        spec_eval(SpecExpr::Nil, env, fuel).res == Ok::<SpecValue, Seq<char>>(SpecValue::Nil),
        spec_render(SpecValue::Nil) == "()"@,
{
    reveal_strlit("()");
    let s = "()"@;
    assert(s =~= seq!['(', ')']);
    assert(spec_lexemes(s) =~= seq![seq!['('], seq![')']]) by {
        reveal_with_fuel(spec_lex, 4);
        assert(!char_is_whitespace('(') && !char_is_whitespace(')'));
        assert(Seq::<Seq<char>>::empty().push(seq!['(']).push(seq![')']) =~= seq![
            seq!['('],
            seq![')'],
        ]);
    }
    let lexemes = seq![seq!['('], seq![')']];
    assert(spec_classify(seq!['(']) == Option::Some(SpecToken::OpenParen)) by {
        assert(seq!['('][0] == '(');
        assert(seq!['('] != seq!['\'']);
    }
    assert(spec_classify(seq![')']) == Option::Some(SpecToken::CloseParen)) by {
        assert(seq![')'][0] == ')');
        assert(seq![')'] != seq!['\''] && seq![')'] != seq!['(']);
    }
    assert(parse_fuel(lexemes, 0) == 6);
    assert(spec_parse(lexemes, 0, 6) == SpecParse::Found(SpecExpr::Nil, 1));
}

/// The round trip of a character literal `#\c`, for a character the lexer
/// keeps in one lexeme.
pub proof fn lemma_roundtrip_char(c: char, env: Map<Seq<char>, SpecValue>, fuel: nat)
    requires
        plain_char(c),
    ensures
        spec_lexemes(spec_render(SpecValue::Char(c))) == seq![spec_render(SpecValue::Char(c))],
        spec_parse_at(seq![spec_render(SpecValue::Char(c))], 0) == SpecParse::Found(
            SpecExpr::Char(c),
            0,
        ),
        spec_eval(SpecExpr::Char(c), env, fuel).res == Ok::<SpecValue, Seq<char>>(
            SpecValue::Char(c),
        ),
{
    reveal_strlit("#\\");
    assert("#\\"@ =~= seq!['#', '\\']);
    let s = spec_render(SpecValue::Char(c));
    assert(s =~= seq!['#', '\\', c]);
    assert(forall|j: int| 0 <= j < s.len() ==> plain_char(#[trigger] s[j])) by {
        assert(s[0] == '#' && s[1] == '\\' && s[2] == c);
    }
    lemma_single_lexeme(s);
    assert(spec_classify(s) == Option::Some(SpecToken::Char(c)));
    let lexemes = seq![s];
    assert(parse_fuel(lexemes, 0) == 4);
    assert(spec_parse(lexemes, 0, 4) == SpecParse::Found(SpecExpr::Char(c), 0));
}


/// The unbound-symbol error: applying a name that is neither a builtin nor
/// bound is a recoverable failure whose message names the symbol, and the
/// environment is left exactly as it was.
pub proof fn lemma_unbound_symbol_error(
    s: Seq<char>,
    n: i64,
    env: Map<Seq<char>, SpecValue>,
    fuel: nat,
)
    requires
        spec_builtin(s, seq![SpecValue::Integer(n)]) is None,
        !env.contains_key(s),
    ensures
        ({
            let call = SpecExpr::SExpression(
                Box::new(SpecExpr::Identifier(s)),
                seq![SpecExpr::Integer(n)],
            );
            let o = spec_eval(call, env, fuel);
            o.res == Err::<SpecValue, Seq<char>>(msg_symbol_not_found(s)) && o.env == env && o.out
                == Seq::<Seq<char>>::empty()
        }),
        msg_symbol_not_found(s).subrange(7, 7 + s.len() as int) == s,
{
    reveal_with_fuel(crate::eval::spec_eval, 3);
    reveal_with_fuel(crate::eval::spec_eval_seq, 3);
    let args = seq![SpecExpr::Integer(n)];
    let call = SpecExpr::SExpression(Box::new(SpecExpr::Identifier(s)), args);
    let o = spec_eval(call, env, fuel);
    assert(args[0] == SpecExpr::Integer(n));
    assert(args.drop_first() =~= Seq::<SpecExpr>::empty());
    assert(Seq::<Seq<char>>::empty() + Seq::<Seq<char>>::empty() =~= Seq::<Seq<char>>::empty());
    assert(Seq::<SpecValue>::empty().push(SpecValue::Integer(n)) =~= seq![SpecValue::Integer(n)]);
    assert(o.res == Err::<SpecValue, Seq<char>>(msg_symbol_not_found(s)) && o.env == env && o.out
        =~= Seq::<Seq<char>>::empty());
    reveal_strlit("Symbol ");
    assert(("Symbol "@).len() == 7);
    assert(msg_symbol_not_found(s).subrange(7, 7 + s.len() as int) =~= s);
}

/// The not-callable error: applying a number is a recoverable failure whose
/// message begins with the number's own text, and the environment is left
/// exactly as it was.
pub proof fn lemma_apply_number_error(
    h: i64,
    a: i64,
    b: i64,
    env: Map<Seq<char>, SpecValue>,
    fuel: nat,
)
    ensures
        ({
            let call = SpecExpr::SExpression(
                Box::new(SpecExpr::Integer(h)),
                seq![SpecExpr::Integer(a), SpecExpr::Integer(b)],
            );
            let o = spec_eval(call, env, fuel);
            o.res == Err::<SpecValue, Seq<char>>(
                int_text(h as int) + " is an integer, not a function!"@,
            ) && o.env == env && o.out == Seq::<Seq<char>>::empty()
        }),
        (int_text(h as int) + " is an integer, not a function!"@).subrange(
            0,
            int_text(h as int).len() as int,
        ) == int_text(h as int),
{
    reveal_with_fuel(crate::eval::spec_eval, 4);
    reveal_with_fuel(crate::eval::spec_eval_seq, 4);
    let args = seq![SpecExpr::Integer(a), SpecExpr::Integer(b)];
    let call = SpecExpr::SExpression(Box::new(SpecExpr::Integer(h)), args);
    let o = spec_eval(call, env, fuel);
    assert(args[0] == SpecExpr::Integer(a));
    assert(args.drop_first() =~= seq![SpecExpr::Integer(b)]);
    assert(args.drop_first()[0] == SpecExpr::Integer(b));
    assert(args.drop_first().drop_first() =~= Seq::<SpecExpr>::empty());
    assert(Seq::<Seq<char>>::empty() + Seq::<Seq<char>>::empty() =~= Seq::<Seq<char>>::empty());
    assert(o.res == Err::<SpecValue, Seq<char>>(
        int_text(h as int) + " is an integer, not a function!"@,
    ) && o.env == env && o.out =~= Seq::<Seq<char>>::empty());
    assert((int_text(h as int) + " is an integer, not a function!"@).subrange(
        0,
        int_text(h as int).len() as int,
    ) =~= int_text(h as int));
}

/// The not-a-pair half of the law: `car` of anything but a pair is exactly
/// the not-a-pair failure.
pub proof fn lemma_car_non_pair_builtin(v: SpecValue)
    requires
        !(v is Pair),
    ensures
        spec_builtin("car"@, seq![v]) == bres(Err(msg_not_pair(v))),
{
    lemma_builtin_name_views();
}

/// The not-a-pair error at the evaluator: `(car m)` on an integer literal is
/// a recoverable failure whose message states that the value is not a pair,
/// and the environment is left exactly as it was.
pub proof fn lemma_car_non_pair_error(m: i64, env: Map<Seq<char>, SpecValue>, fuel: nat)
    ensures
        ({
            let call = SpecExpr::SExpression(
                Box::new(SpecExpr::Identifier("car"@)),
                seq![SpecExpr::Integer(m)],
            );
            let o = spec_eval(call, env, fuel);
            o.res == Err::<SpecValue, Seq<char>>(msg_not_pair(SpecValue::Integer(m))) && o.env
                == env && o.out == Seq::<Seq<char>>::empty()
        }),
{
    reveal_with_fuel(crate::eval::spec_eval, 3);
    reveal_with_fuel(crate::eval::spec_eval_seq, 3);
    let args = seq![SpecExpr::Integer(m)];
    let call = SpecExpr::SExpression(Box::new(SpecExpr::Identifier("car"@)), args);
    let o = spec_eval(call, env, fuel);
    assert(args[0] == SpecExpr::Integer(m));
    assert(args.drop_first() =~= Seq::<SpecExpr>::empty());
    assert(Seq::<Seq<char>>::empty() + Seq::<Seq<char>>::empty() =~= Seq::<Seq<char>>::empty());
    assert(Seq::<SpecValue>::empty().push(SpecValue::Integer(m)) =~= seq![SpecValue::Integer(m)]);
    assert(seq![SpecValue::Integer(m)][0] == SpecValue::Integer(m));
    lemma_car_non_pair_builtin(SpecValue::Integer(m));
    assert(o.res == Err::<SpecValue, Seq<char>>(msg_not_pair(SpecValue::Integer(m))) && o.env
        == env && o.out =~= Seq::<Seq<char>>::empty());
}

} // verus!
