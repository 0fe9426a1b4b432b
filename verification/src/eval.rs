//! The evaluator: values, the environment, substitution-based closure
//! construction, the built-in procedures, and the big-step evaluation of
//! expressions, each verified against a spec-level model.
use vstd::prelude::*;
use vstd::string::*;

use crate::float::{
    F64_ABS_MASK, F64_SIGN_MASK, F64_EPSILON_BITS, F64_ONE_BITS, F64_ZERO_BITS, float_add,
    float_add_bits, float_div, float_div_bits, float_eq, float_eq_bits, float_floor,
    float_floor_bits, float_lt, float_lt_bits, float_mul, float_mul_bits, float_neg_bits,
    float_of_int, float_of_int_bits, float_shortest, float_shortest_text, float_sub,
    float_sub_bits,
};
use crate::parser::{Expression, SpecExpr, clone_string_vec, expr_view};
use crate::strutil::{concat2, concat3, int_string, int_text, push_char, str_eq};

verus! {

broadcast use vstd::std_specs::vec::axiom_vec_index_decreases;

/// The mathematical form of a runtime value. A number is the bit pattern of
/// the double it denotes; a function carries its parameter names and its
/// already-substituted body.
#[verifier::ext_equal]
pub enum SpecValue {
    Number(u64),
    Function(Seq<Seq<char>>, Box<SpecExpr>),
    Bool(bool),
    Integer(i64),
    Pair(Box<SpecValue>, Box<SpecValue>),
    Char(char),
    Str(Seq<char>),
    Nil,
}

/// A runtime value. `Function` is a closure surrogate: its body has had every
/// binding known at construction time inlined into it, so it carries no
/// captured environment. A name unbound at construction time stays a free
/// identifier and is resolved at call time against the caller's environment,
/// which is what lets top-level definitions refer to themselves.
#[derive(Debug)]
pub enum Value {
    Number(u64),
    Function(Vec<String>, Expression),
    Bool(bool),
    Integer(i64),
    Pair(Box<Value>, Box<Value>),
    Char(char),
    String(String),
    Nil,
}

/// The mathematical form of a value.
pub open spec fn value_view(v: Value) -> SpecValue
    decreases v,
{
    match v {
        Value::Number(b) => SpecValue::Number(b),
        Value::Function(ps, body) => SpecValue::Function(ps.deep_view(), Box::new(expr_view(body))),
        Value::Bool(b) => SpecValue::Bool(b),
        Value::Integer(n) => SpecValue::Integer(n),
        Value::Pair(a, d) => SpecValue::Pair(Box::new(value_view(*a)), Box::new(value_view(*d))),
        Value::Char(c) => SpecValue::Char(c),
        Value::String(s) => SpecValue::Str(s@),
        Value::Nil => SpecValue::Nil,
    }
}

impl View for Value {
    type V = SpecValue;

    open spec fn view(&self) -> SpecValue {
        value_view(*self)
    }
}

impl DeepView for Value {
    type V = SpecValue;

    open spec fn deep_view(&self) -> SpecValue {
        value_view(*self)
    }
}

impl Clone for Value {
    /// A deep copy with the same mathematical form.
    fn clone(&self) -> (res: Value)
        ensures
            res@ == self@,
        decreases *self,
    {
        match self {
            Value::Number(b) => Value::Number(*b),
            Value::Function(ps, body) => Value::Function(clone_string_vec(ps), body.clone()),
            Value::Bool(b) => Value::Bool(*b),
            Value::Integer(n) => Value::Integer(*n),
            Value::Pair(a, d) => Value::Pair(Box::new((&**a).clone()), Box::new((&**d).clone())),
            Value::Char(c) => Value::Char(*c),
            Value::String(s) => Value::String(s.clone()),
            Value::Nil => Value::Nil,
        }
    }
}

/// The literal expression form of a value: what a binding is replaced with
/// when it is inlined into a lambda body at construction time.
pub open spec fn spec_val_to_expr(v: SpecValue) -> SpecExpr
    decreases v,
{
    match v {
        SpecValue::Bool(b) => SpecExpr::Bool(b),
        SpecValue::Number(b) => SpecExpr::Number(b),
        SpecValue::Integer(n) => SpecExpr::Integer(n),
        SpecValue::Function(ps, body) => SpecExpr::Lambda(ps, body),
        SpecValue::Char(c) => SpecExpr::Char(c),
        SpecValue::Str(s) => SpecExpr::Str(s),
        SpecValue::Nil => SpecExpr::Nil,
        SpecValue::Pair(a, d) => SpecExpr::Pair(
            Box::new(spec_val_to_expr(*a)),
            Box::new(spec_val_to_expr(*d)),
        ),
    }
}

/// Turns a value into its literal expression form, exactly as
/// `spec_val_to_expr` describes.
pub fn value_to_expression(val: &Value) -> (r: Expression)
    ensures
        r@ == spec_val_to_expr(val@),
    decreases *val,
{
    match val {
        Value::Bool(b) => Expression::Bool(*b),
        Value::Number(b) => Expression::Number(*b),
        Value::Integer(n) => Expression::Integer(*n),
        Value::Function(ps, body) => Expression::Lambda(clone_string_vec(ps), Box::new(body.clone())),
        Value::Char(c) => Expression::Char(*c),
        Value::String(s) => Expression::String(s.clone()),
        Value::Nil => Expression::Nil,
        Value::Pair(a, d) => Expression::Pair(
            Box::new(value_to_expression(&**a)),
            Box::new(value_to_expression(&**d)),
        ),
    }
}

/// The textual rendering of a value: for a number its decimal rendering
/// with the fewest significant digits that reads back as the same double
/// (`inf`, `-inf` and `NaN` for the non-finite ones), plain decimal for an
/// integer, `#t`/`#f`, `#\` plus the character, the raw characters of a
/// string, `()` for nil, the dotted-pair form for a pair, and the word
/// `function` for a function.
pub open spec fn spec_render(v: SpecValue) -> Seq<char>
    decreases v,
{
    match v {
        SpecValue::Number(b) => float_shortest_text(b),
        SpecValue::Function(ps, body) => "function"@,
        SpecValue::Bool(b) => if b {
            "#t"@
        } else {
            "#f"@
        },
        SpecValue::Integer(n) => int_text(n as int),
        SpecValue::Pair(a, d) => "("@ + spec_render(*a) + " . "@ + spec_render(*d) + ")"@,
        SpecValue::Char(c) => "#\\"@.push(c),
        SpecValue::Str(s) => s,
        SpecValue::Nil => "()"@,
    }
}

impl Value {
    /// The textual rendering of this value, exactly as `spec_render`
    /// describes.
    pub fn render(&self) -> (r: String)
        ensures
            r@ == spec_render(self@),
        decreases *self,
    {
        match self {
            Value::Number(b) => float_shortest(*b),
            Value::Function(ps, body) => String::from_str("function"),
            Value::Bool(b) => {
                if *b {
                    String::from_str("#t")
                } else {
                    String::from_str("#f")
                }
            },
            Value::Integer(n) => int_string(*n),
            Value::Pair(a, d) => {
                let mut s = String::from_str("(");
                s.append((&**a).render().as_str());
                s.append(" . ");
                s.append((&**d).render().as_str());
                s.append(")");
                s
            },
            Value::Char(c) => {
                let mut s = String::from_str("#\\");
                push_char(&mut s, *c);
                s
            },
            Value::String(s) => s.clone(),
            Value::Nil => String::from_str("()"),
        }
    }
}

/// Whether an index of `s` holds the key `k`.
pub open spec fn env_has_key(s: Seq<(String, Value)>, k: Seq<char>) -> bool {
    exists|i: int| 0 <= i < s.len() && #[trigger] s[i].0@ == k
}

/// The index of `s` that holds the key `k`.
pub open spec fn env_key_index(s: Seq<(String, Value)>, k: Seq<char>) -> int {
    choose|i: int| 0 <= i < s.len() && #[trigger] s[i].0@ == k
}

/// Whether the keys of `s` are pairwise distinct.
pub open spec fn env_keys_unique(s: Seq<(String, Value)>) -> bool {
    forall|i: int, j: int|
        0 <= i < j < s.len() ==> #[trigger] s[i].0@ != #[trigger] s[j].0@
}

/// With unique keys, any index holding `k` is the index of `k`.
proof fn lemma_env_key_index(s: Seq<(String, Value)>, k: Seq<char>, i: int)
    requires
        env_keys_unique(s),
        0 <= i < s.len(),
        s[i].0@ == k,
    ensures
        env_has_key(s, k),
        env_key_index(s, k) == i,
{
    assert(env_has_key(s, k));
    let j = env_key_index(s, k);
    assert(0 <= j < s.len() && s[j].0@ == k);
    if i < j {
        assert(s[i].0@ != s[j].0@);
    } else if j < i {
        assert(s[j].0@ != s[i].0@);
    }
}

/// The map view of an environment reads its entries.
proof fn lemma_env_view(e: Environment, k: Seq<char>)
    ensures
        e@.contains_key(k) == env_has_key(e.entries@, k),
        env_has_key(e.entries@, k) ==> e@[k] == e.entries@[env_key_index(e.entries@, k)].1@,
{
}

/// A mapping from identifier names to values: the keys are unique, and the
/// order of the entries does not matter.
#[derive(Debug)]
pub struct Environment {
    entries: Vec<(String, Value)>,
}

impl View for Environment {
    type V = Map<Seq<char>, SpecValue>;

    closed spec fn view(&self) -> Map<Seq<char>, SpecValue> {
        Map::new(
            |k: Seq<char>| env_has_key(self.entries@, k),
            |k: Seq<char>| self.entries@[env_key_index(self.entries@, k)].1@,
        )
    }
}

impl Environment {
    /// The environment is well formed: no name is bound twice.
    pub closed spec fn wf(&self) -> bool {
        env_keys_unique(self.entries@)
    }

    /// The empty environment.
    pub fn new() -> (r: Environment)
        ensures
            r.wf(),
            r@ == Map::<Seq<char>, SpecValue>::empty(),
    {
        let r = Environment { entries: Vec::new() };
        proof {
            assert(r@ =~= Map::<Seq<char>, SpecValue>::empty());
        }
        r
    }

    /// The value bound to `name`, if any.
    pub fn get(&self, name: &str) -> (r: Option<&Value>)
        requires
            self.wf(),
        ensures
            match r {
                Option::Some(v) => self@.contains_key(name@) && v@ == self@[name@],
                Option::None => !self@.contains_key(name@),
            },
    {
        let n = self.entries.len();
        let mut i: usize = 0;
        while i < n
            invariant
                i <= n,
                n == self.entries@.len(),
                self.wf(),
                forall|m: int| 0 <= m < i ==> #[trigger] self.entries@[m].0@ != name@,
            decreases n - i,
        {
            if str_eq(self.entries[i].0.as_str(), name) {
                proof {
                    lemma_env_key_index(self.entries@, name@, i as int);
                }
                return Some(&self.entries[i].1);
            }
            i += 1;
        }
        proof {
            assert(!env_has_key(self.entries@, name@));
        }
        None
    }

    /// Binds `name` to `value`, replacing any earlier binding of that name.
    pub fn insert(&mut self, name: String, value: Value)
        requires
            old(self).wf(),
        ensures
            final(self).wf(),
            final(self)@ == old(self)@.insert(name@, value@),
    {
        let ghost pre = self.entries@;
        let ghost target = old(self)@.insert(name@, value@);
        let n = self.entries.len();
        let mut i: usize = 0;
        while i < n
            invariant
                i <= n,
                n == self.entries@.len(),
                self.wf(),
                self.entries@ == pre,
                pre == old(self).entries@,
                old(self).wf(),
                target == old(self)@.insert(name@, value@),
                forall|m: int| 0 <= m < i ==> #[trigger] self.entries@[m].0@ != name@,
            decreases n - i,
        {
            if str_eq(self.entries[i].0.as_str(), name.as_str()) {
                self.entries[i] = (name, value);
                proof {
                    let post = self.entries@;
                    assert(forall|m: int| 0 <= m < pre.len() && m != i ==> #[trigger] post[m] == pre[m]);
                    assert(post[i as int].0@ == name@ && post[i as int].1@ == value@);
                    assert(env_keys_unique(post)) by {
                        assert(pre[i as int].0@ == name@);
                    }
                    assert forall|k: Seq<char>| #[trigger] self@.contains_key(k) == target.contains_key(k) by {
                        lemma_env_view(*self, k);
                        lemma_env_view(*old(self), k);
                        if k != name@ {
                            if env_has_key(pre, k) {
                                let m = env_key_index(pre, k);
                                assert(pre[m].0@ == k && m != i && post[m].0@ == k);
                                assert(env_has_key(post, k));
                            }
                            if env_has_key(post, k) {
                                let m = env_key_index(post, k);
                                assert(post[m].0@ == k && m != i && pre[m].0@ == k);
                                assert(env_has_key(pre, k));
                            }
                        } else {
                            assert(env_has_key(post, k));
                        }
                    }
                    assert forall|k: Seq<char>| #[trigger] self@.contains_key(k) implies self@[k] == target[k] by {
                        lemma_env_view(*self, k);
                        lemma_env_view(*old(self), k);
                        if k == name@ {
                            lemma_env_key_index(post, name@, i as int);
                        } else {
                            let m = env_key_index(post, k);
                            assert(post[m].0@ == k && m != i && pre[m].0@ == k);
                            lemma_env_key_index(pre, k, m);
                        }
                    }
                    assert(self@ =~= target);
                }
                return ;
            }
            i += 1;
        }
        self.entries.push((name, value));
        proof {
            let post = self.entries@;
            assert(post.len() == pre.len() + 1);
            assert(post[pre.len() as int].0@ == name@ && post[pre.len() as int].1@ == value@);
            assert(forall|m: int| 0 <= m < pre.len() ==> #[trigger] post[m] == pre[m]);
            assert(env_keys_unique(post)) by {
                assert(forall|m: int| 0 <= m < pre.len() ==> #[trigger] post[m].0@ != name@);
            }
            assert forall|k: Seq<char>| #[trigger] self@.contains_key(k) == target.contains_key(k) by {
                lemma_env_view(*self, k);
                lemma_env_view(*old(self), k);
                if k != name@ {
                    if env_has_key(pre, k) {
                        let m = env_key_index(pre, k);
                        assert(pre[m].0@ == k && post[m].0@ == k);
                        assert(env_has_key(post, k));
                    }
                    if env_has_key(post, k) {
                        let m = env_key_index(post, k);
                        assert(post[m].0@ == k && m != pre.len() as int && pre[m].0@ == k);
                        assert(env_has_key(pre, k));
                    }
                } else {
                    assert(env_has_key(post, k));
                }
            }
            assert forall|k: Seq<char>| #[trigger] self@.contains_key(k) implies self@[k] == target[k] by {
                lemma_env_view(*self, k);
                lemma_env_view(*old(self), k);
                if k == name@ {
                    lemma_env_key_index(post, name@, pre.len() as int);
                } else {
                    let m = env_key_index(post, k);
                    assert(post[m].0@ == k && m != pre.len() as int && pre[m].0@ == k);
                    lemma_env_key_index(pre, k, m);
                }
            }
            assert(self@ =~= target);
        }
    }

    /// Removes any binding of `name`.
    pub fn remove(&mut self, name: &str)
        requires
            old(self).wf(),
        ensures
            final(self).wf(),
            final(self)@ == old(self)@.remove(name@),
    {
        let ghost pre = self.entries@;
        let ghost target = old(self)@.remove(name@);
        let n = self.entries.len();
        let mut i: usize = 0;
        while i < n
            invariant
                i <= n,
                n == self.entries@.len(),
                self.wf(),
                self.entries@ == pre,
                pre == old(self).entries@,
                old(self).wf(),
                target == old(self)@.remove(name@),
                forall|m: int| 0 <= m < i ==> #[trigger] self.entries@[m].0@ != name@,
            decreases n - i,
        {
            if str_eq(self.entries[i].0.as_str(), name) {
                self.entries.remove(i);
                proof {
                    let post = self.entries@;
                    assert(post.len() == pre.len() - 1);
                    assert(forall|m: int| 0 <= m < i ==> #[trigger] post[m] == pre[m]);
                    assert(forall|m: int| i <= m < post.len() ==> #[trigger] post[m] == pre[m + 1]);
                    assert(env_keys_unique(post));
                    assert forall|k: Seq<char>| #[trigger] self@.contains_key(k) == target.contains_key(k) by {
                        lemma_env_view(*self, k);
                        lemma_env_view(*old(self), k);
                        if k != name@ {
                            if env_has_key(pre, k) {
                                let m = env_key_index(pre, k);
                                assert(pre[m].0@ == k && m != i);
                                if m < i {
                                    assert(post[m].0@ == k);
                                } else {
                                    assert(post[m - 1].0@ == k);
                                }
                                assert(env_has_key(post, k));
                            }
                            if env_has_key(post, k) {
                                let m = env_key_index(post, k);
                                assert(post[m].0@ == k);
                                if m < i {
                                    assert(pre[m].0@ == k);
                                } else {
                                    assert(pre[m + 1].0@ == k);
                                }
                                assert(env_has_key(pre, k));
                            }
                        } else {
                            if env_has_key(post, k) {
                                let m = env_key_index(post, k);
                                assert(post[m].0@ == name@);
                                if m < i {
                                } else {
                                    assert(pre[m + 1].0@ == name@);
                                }
                                assert(false);
                            }
                        }
                    }
                    assert forall|k: Seq<char>| #[trigger] self@.contains_key(k) implies self@[k] == target[k] by {
                        lemma_env_view(*self, k);
                        lemma_env_view(*old(self), k);
                        let m = env_key_index(post, k);
                        assert(post[m].0@ == k);
                        if m < i {
                            assert(pre[m].0@ == k);
                            lemma_env_key_index(pre, k, m);
                        } else {
                            assert(pre[m + 1].0@ == k);
                            lemma_env_key_index(pre, k, m + 1);
                        }
                    }
                    assert(self@ =~= target);
                }
                return ;
            }
            i += 1;
        }
        proof {
            assert(!env_has_key(pre, name@));
            assert forall|k: Seq<char>| #[trigger] self@.contains_key(k) == target.contains_key(k) by {
                lemma_env_view(*self, k);
            }
            assert forall|k: Seq<char>| #[trigger] self@.contains_key(k) implies self@[k] == target[k] by {
                lemma_env_view(*self, k);
            }
            assert(self@ =~= target);
        }
    }

    /// A deep copy with the same bindings.
    pub fn duplicate(&self) -> (r: Environment)
        requires
            self.wf(),
        ensures
            r.wf(),
            r@ == self@,
    {
        let n = self.entries.len();
        let mut es: Vec<(String, Value)> = Vec::new();
        let mut i: usize = 0;
        while i < n
            invariant
                i <= n,
                n == self.entries@.len(),
                es@.len() == i,
                forall|m: int|
                    0 <= m < i ==> #[trigger] es@[m].0@ == self.entries@[m].0@ && es@[m].1@
                        == self.entries@[m].1@,
            decreases n - i,
        {
            let name = self.entries[i].0.clone();
            let value = self.entries[i].1.clone();
            es.push((name, value));
            i += 1;
        }
        let r = Environment { entries: es };
        proof {
            let a = r.entries@;
            let b = self.entries@;
            assert(env_keys_unique(a));
            assert(r@ =~= self@) by {
                assert forall|k: Seq<char>| env_has_key(a, k) == env_has_key(b, k) && (env_has_key(
                    b,
                    k,
                ) ==> a[env_key_index(a, k)].1@ == b[env_key_index(b, k)].1@) by {
                    if env_has_key(b, k) {
                        let m = env_key_index(b, k);
                        assert(b[m].0@ == k);
                        assert(a[m].0@ == k);
                        lemma_env_key_index(a, k, m);
                        lemma_env_key_index(b, k, m);
                    }
                    if env_has_key(a, k) {
                        let m = env_key_index(a, k);
                        assert(a[m].0@ == k);
                        assert(b[m].0@ == k);
                        lemma_env_key_index(b, k, m);
                    }
                }
            }
        }
        r
    }
}

/// The environment with the given names removed, leftmost first.
pub open spec fn remove_names(env: Map<Seq<char>, SpecValue>, names: Seq<Seq<char>>) -> Map<
    Seq<char>,
    SpecValue,
>
    decreases names.len(),
{
    if names.len() == 0 {
        env
    } else {
        remove_names(env, names.drop_last()).remove(names.last())
    }
}

/// The environment with each parameter bound to the argument in the same
/// position, leftmost first.
pub open spec fn bind_params(
    env: Map<Seq<char>, SpecValue>,
    ps: Seq<Seq<char>>,
    vs: Seq<SpecValue>,
) -> Map<Seq<char>, SpecValue>
    decreases vs.len(),
{
    if vs.len() == 0 {
        env
    } else {
        bind_params(env.insert(ps[0], vs[0]), ps.drop_first(), vs.drop_first())
    }
}

/// The substitution pass that closure construction performs: every identifier
/// bound in `env` is replaced by the literal expression form of its value,
/// and a nested lambda first shadows its own parameters.
pub open spec fn spec_subst(e: SpecExpr, env: Map<Seq<char>, SpecValue>) -> SpecExpr
    decreases e,
    via spec_subst_decreases
{
    match e {
        SpecExpr::Identifier(s) => if env.contains_key(s) {
            spec_val_to_expr(env[s])
        } else {
            SpecExpr::Identifier(s)
        },
        SpecExpr::Lambda(ps, body) => SpecExpr::Lambda(
            ps,
            Box::new(spec_subst(*body, remove_names(env, ps))),
        ),
        SpecExpr::SExpression(h, args) => SpecExpr::SExpression(
            Box::new(spec_subst(*h, env)),
            Seq::new(
                args.len(),
                |k: int|
                    if 0 <= k < args.len() {
                        spec_subst(args[k], env)
                    } else {
                        SpecExpr::Nil
                    },
            ),
        ),
        SpecExpr::If(c, th, el) => SpecExpr::If(
            Box::new(spec_subst(*c, env)),
            Box::new(spec_subst(*th, env)),
            Box::new(spec_subst(*el, env)),
        ),
        SpecExpr::Define(n, v) => SpecExpr::Define(n, Box::new(spec_subst(*v, env))),
        SpecExpr::Pair(a, d) => SpecExpr::Pair(
            Box::new(spec_subst(*a, env)),
            Box::new(spec_subst(*d, env)),
        ),
        lit => lit,
    }
}

#[via_fn]
proof fn spec_subst_decreases(e: SpecExpr, env: Map<Seq<char>, SpecValue>) {
    match e {
        SpecExpr::SExpression(h, args) => {
            assert forall|k: int| 0 <= k < args.len() implies (decreases_to!(e => args[k])) by {
                assert(decreases_to!(e => args));
                vstd::seq::axiom_seq_index_decreases::<SpecExpr>(args, k);
                assert(decreases_to!(args => args[k]));
            }
        },
        _ => {},
    }
}

/// An error message of the evaluator.
pub open spec fn msg_unbound(s: Seq<char>) -> Seq<char> {
    "Variable "@ + s + " not in environment!"@
}

/// An error message of the evaluator.
pub open spec fn msg_symbol_not_found(s: Seq<char>) -> Seq<char> {
    "Symbol "@ + s + " not found!"@
}

/// An error message of the evaluator.
pub open spec fn msg_not_known_function(s: Seq<char>) -> Seq<char> {
    s + " is not a known function!"@
}

/// An error message of the evaluator.
pub open spec fn msg_bad_condition(v: SpecValue) -> Seq<char> {
    "Expected boolean in condition, got "@ + spec_render(v) + "!"@
}

/// An error message of the evaluator.
pub open spec fn msg_is_not_number(v: SpecValue) -> Seq<char> {
    spec_render(v) + " is not a number!"@
}

/// An error message of the evaluator.
pub open spec fn msg_not_number(v: SpecValue) -> Seq<char> {
    spec_render(v) + " not a number!"@
}

/// An error message of the evaluator.
pub open spec fn msg_not_pair(v: SpecValue) -> Seq<char> {
    spec_render(v) + " not a pair!"@
}

/// Whether a value belongs to the numeric tower.
pub open spec fn is_numeric(v: SpecValue) -> bool {
    v is Integer || v is Number
}

/// The bit pattern of a numeric value as a double.
pub open spec fn as_float_bits(v: SpecValue) -> u64 {
    match v {
        SpecValue::Number(b) => b,
        SpecValue::Integer(n) => float_of_int_bits(n as int),
        _ => 0,
    }
}

/// The arithmetic operators that fold over their arguments.
#[derive(Clone, Copy, Debug)]
pub enum ArithOp {
    Add,
    Sub,
    Mul,
    Div,
}

/// One step of an arithmetic fold: integers stay integers (wrapping on
/// overflow), any double operand promotes the operation to doubles, and
/// division always yields a double. `a` is the running value and `x` the
/// next argument; addition and multiplication combine as `x` then `a`, in
/// the order the operands reach the IEEE operation.
pub open spec fn arith_combine(op: ArithOp, a: SpecValue, x: SpecValue) -> SpecValue {
    match op {
        ArithOp::Add => if a is Integer && x is Integer {
            SpecValue::Integer((x->Integer_0).wrapping_add(a->Integer_0))
        } else {
            SpecValue::Number(float_add_bits(as_float_bits(x), as_float_bits(a)))
        },
        ArithOp::Mul => if a is Integer && x is Integer {
            SpecValue::Integer((x->Integer_0).wrapping_mul(a->Integer_0))
        } else {
            SpecValue::Number(float_mul_bits(as_float_bits(x), as_float_bits(a)))
        },
        ArithOp::Sub => if a is Integer && x is Integer {
            SpecValue::Integer((a->Integer_0).wrapping_sub(x->Integer_0))
        } else {
            SpecValue::Number(float_sub_bits(as_float_bits(a), as_float_bits(x)))
        },
        ArithOp::Div => SpecValue::Number(float_div_bits(as_float_bits(a), as_float_bits(x))),
    }
}

/// One step of an arithmetic fold over a result: a failed fold keeps
/// reporting the argument under the cursor, as the original fold does.
pub open spec fn arith_step(
    op: ArithOp,
    acc: Result<SpecValue, Seq<char>>,
    x: SpecValue,
) -> Result<SpecValue, Seq<char>> {
    if acc is Ok && is_numeric(acc->Ok_0) && is_numeric(x) {
        Ok(arith_combine(op, acc->Ok_0, x))
    } else {
        Err(msg_is_not_number(x))
    }
}

/// The left fold of an arithmetic operator over arguments.
pub open spec fn arith_fold(
    op: ArithOp,
    acc: Result<SpecValue, Seq<char>>,
    args: Seq<SpecValue>,
) -> Result<SpecValue, Seq<char>>
    decreases args.len(),
{
    if args.len() == 0 {
        acc
    } else {
        arith_fold(op, arith_step(op, acc, args[0]), args.drop_first())
    }
}

/// One step of the chained `<` comparison: a running value that compares
/// equal to zero poisons the chain; otherwise the chain continues with the
/// next argument if the running value is below it, and collapses to zero if
/// not. Integer pairs stay exact; any double promotes the step.
pub open spec fn lt_step(acc: Result<SpecValue, Seq<char>>, x: SpecValue) -> Result<
    SpecValue,
    Seq<char>,
> {
    if acc is Ok {
        match (acc->Ok_0, x) {
            (SpecValue::Number(n2), SpecValue::Number(n)) => Ok(
                if float_eq_bits(n2, F64_ZERO_BITS) {
                    SpecValue::Number(F64_ZERO_BITS)
                } else if float_lt_bits(n2, n) {
                    SpecValue::Number(n)
                } else {
                    SpecValue::Number(F64_ZERO_BITS)
                },
            ),
            (SpecValue::Integer(n2), SpecValue::Number(n)) => Ok(
                if n2 == 0 {
                    SpecValue::Number(F64_ZERO_BITS)
                } else if float_lt_bits(float_of_int_bits(n2 as int), n) {
                    SpecValue::Number(n)
                } else {
                    SpecValue::Number(F64_ZERO_BITS)
                },
            ),
            (SpecValue::Number(n2), SpecValue::Integer(n)) => Ok(
                if float_eq_bits(n2, F64_ZERO_BITS) {
                    SpecValue::Number(F64_ZERO_BITS)
                } else if float_lt_bits(n2, float_of_int_bits(n as int)) {
                    SpecValue::Number(float_of_int_bits(n as int))
                } else {
                    SpecValue::Number(F64_ZERO_BITS)
                },
            ),
            (SpecValue::Integer(n2), SpecValue::Integer(n)) => Ok(
                if n2 == 0 {
                    SpecValue::Integer(0)
                } else if n2 < n {
                    SpecValue::Integer(n)
                } else {
                    SpecValue::Integer(0)
                },
            ),
            _ => Err(msg_not_number(x)),
        }
    } else {
        Err(msg_not_number(x))
    }
}

/// The left fold of the chained `<` comparison.
pub open spec fn lt_fold(acc: Result<SpecValue, Seq<char>>, args: Seq<SpecValue>) -> Result<
    SpecValue,
    Seq<char>,
>
    decreases args.len(),
{
    if args.len() == 0 {
        acc
    } else {
        lt_fold(lt_step(acc, args[0]), args.drop_first())
    }
}

/// The final coercion of the `<` chain to a boolean: any nonzero numeric
/// outcome is true, zero is false.
pub open spec fn lt_coerce(r: Result<SpecValue, Seq<char>>) -> Result<SpecValue, Seq<char>> {
    match r {
        Ok(SpecValue::Number(n)) => Ok(SpecValue::Bool(!float_eq_bits(n, F64_ZERO_BITS))),
        Ok(SpecValue::Integer(n)) => Ok(SpecValue::Bool(n != 0)),
        Ok(_) => Ok(SpecValue::Bool(true)),
        Err(m) => Err(m),
    }
}

/// Numeric equality across the tower: integers and doubles compare by value.
pub open spec fn num_eq(v: SpecValue, v0: SpecValue) -> bool {
    match (v, v0) {
        (SpecValue::Number(n), SpecValue::Number(n2)) => float_eq_bits(n, n2),
        (SpecValue::Number(n), SpecValue::Integer(n2)) => float_eq_bits(
            n,
            float_of_int_bits(n2 as int),
        ),
        (SpecValue::Integer(n), SpecValue::Number(n2)) => float_eq_bits(
            float_of_int_bits(n as int),
            n2,
        ),
        (SpecValue::Integer(n), SpecValue::Integer(n2)) => n == n2,
        _ => false,
    }
}

/// Whether a value is an exact integer or a double within machine epsilon of
/// its floor.
pub open spec fn int_like(v: SpecValue) -> bool {
    match v {
        SpecValue::Integer(n) => true,
        SpecValue::Number(n) => float_lt_bits(
            float_sub_bits(n, float_floor_bits(n)) & F64_ABS_MASK,
            F64_EPSILON_BITS,
        ),
        _ => false,
    }
}

/// The right fold of `list`: its arguments as a `Pair` chain ending in `Nil`.
pub open spec fn spec_list_of(args: Seq<SpecValue>) -> SpecValue
    decreases args.len(),
{
    if args.len() == 0 {
        SpecValue::Nil
    } else {
        SpecValue::Pair(Box::new(args[0]), Box::new(spec_list_of(args.drop_first())))
    }
}

/// The characters of `s` as a `Pair`/`Nil` list of character values.
pub open spec fn spec_chars_to_list(s: Seq<char>) -> SpecValue
    decreases s.len(),
{
    if s.len() == 0 {
        SpecValue::Nil
    } else {
        SpecValue::Pair(Box::new(SpecValue::Char(s[0])), Box::new(spec_chars_to_list(s.drop_first())))
    }
}

/// Walks a `Pair` chain whose cars must all be characters, concatenating
/// them; a tail that is not itself a pair ends the walk. Nothing is returned
/// when some car is not a character.
pub open spec fn spec_char_walk(v: SpecValue) -> Option<Seq<char>>
    decreases v,
{
    match v {
        SpecValue::Pair(car, cdr) => match *car {
            SpecValue::Char(c) => match *cdr {
                SpecValue::Pair(a, d) => match spec_char_walk(*cdr) {
                    Option::Some(rest) => Option::Some(seq![c].add(rest)),
                    Option::None => Option::None,
                },
                _ => Option::Some(seq![c]),
            },
            _ => Option::None,
        },
        _ => Option::None,
    }
}

/// What one builtin application leaves behind: its result and its printed
/// output.
#[verifier::ext_equal]
pub struct BuiltinOut {
    pub res: Result<SpecValue, Seq<char>>,
    pub out: Seq<Seq<char>>,
}

/// A builtin result with no output.
pub open spec fn bres(res: Result<SpecValue, Seq<char>>) -> Option<BuiltinOut> {
    Option::Some(BuiltinOut { res, out: Seq::empty() })
}

/// The built-in procedure named `name` applied to evaluated arguments, and
/// nothing when no builtin has that name. Arithmetic and comparison operate
/// over the two-member numeric tower with promotion; `display` and `newline`
/// print; the list and string builtins build and take apart `Pair` chains.
pub open spec fn spec_builtin(name: Seq<char>, args: Seq<SpecValue>) -> Option<BuiltinOut> {
    if name == "+"@ {
        bres(arith_fold(ArithOp::Add, Ok(SpecValue::Integer(0)), args))
    } else if name == "*"@ {
        bres(arith_fold(ArithOp::Mul, Ok(SpecValue::Integer(1)), args))
    } else if name == "-"@ {
        if args.len() == 0 {
            bres(Err("Expected at least one argument to `-`!"@))
        } else if args.len() == 1 {
            match args[0] {
                SpecValue::Number(n) => bres(Ok(SpecValue::Number(float_neg_bits(n)))),
                SpecValue::Integer(n) => bres(Ok(SpecValue::Integer((0i64).wrapping_sub(n)))),
                _ => bres(Err(msg_is_not_number(args[0]))),
            }
        } else if !is_numeric(args[0]) {
            bres(Err(msg_is_not_number(args[0])))
        } else {
            bres(arith_fold(ArithOp::Sub, Ok(args[0]), args.drop_first()))
        }
    } else if name == "/"@ {
        if args.len() == 0 {
            bres(Err("Expected at least one argument to `/`!"@))
        } else if args.len() == 1 {
            match args[0] {
                SpecValue::Number(n) => bres(Ok(SpecValue::Number(float_div_bits(F64_ONE_BITS, n)))),
                SpecValue::Integer(n) => bres(
                    Ok(SpecValue::Number(float_div_bits(F64_ONE_BITS, float_of_int_bits(n as int)))),
                ),
                _ => bres(Err(msg_is_not_number(args[0]))),
            }
        } else if !is_numeric(args[0]) {
            bres(Err(msg_is_not_number(args[0])))
        } else {
            bres(arith_fold(ArithOp::Div, Ok(args[0]), args.drop_first()))
        }
    } else if name == "<"@ {
        if args.len() == 0 {
            bres(Err("Expected at least one argument to `<`!"@))
        } else {
            bres(lt_coerce(lt_fold(Ok(args[0]), args.drop_first())))
        }
    } else if name == "="@ {
        if args.len() == 0 {
            bres(Err("Expected at least one argument to `=`!"@))
        } else {
            bres(Ok(SpecValue::Bool(forall|k: int| 1 <= k < args.len() ==> num_eq(#[trigger] args[k], args[0]))))
        }
    } else if name == "int"@ {
        bres(Ok(SpecValue::Bool(forall|k: int| 0 <= k < args.len() ==> int_like(#[trigger] args[k]))))
    } else if name == "not"@ {
        if args.len() != 1 {
            bres(Err("Expected one argument to `not`!"@))
        } else {
            bres(Ok(SpecValue::Bool(
                match args[0] {
                    SpecValue::Bool(b) => !b,
                    _ => false,
                },
            )))
        }
    } else if name == "display"@ {
        if args.len() == 1 {
            Option::Some(
                BuiltinOut {
                    res: Ok(SpecValue::Nil),
                    out: seq![spec_render(args[0]).push('\n')],
                },
            )
        } else {
            bres(Err("Expected one argument to `display`!"@))
        }
    } else if name == "newline"@ {
        Option::Some(BuiltinOut { res: Ok(SpecValue::Nil), out: seq![seq!['\n']] })
    } else if name == "cons"@ {
        if args.len() != 2 {
            bres(Err("Expected two arguments to `cons`!"@))
        } else {
            bres(Ok(SpecValue::Pair(Box::new(args[0]), Box::new(args[1]))))
        }
    } else if name == "car"@ {
        if args.len() != 1 {
            bres(Err("Expected one argument to `car`!"@))
        } else {
            match args[0] {
                SpecValue::Pair(a, d) => bres(Ok(*a)),
                _ => bres(Err(msg_not_pair(args[0]))),
            }
        }
    } else if name == "cdr"@ {
        if args.len() != 1 {
            bres(Err("Expected one argument to `cdr`!"@))
        } else {
            match args[0] {
                SpecValue::Pair(a, d) => bres(Ok(*d)),
                _ => bres(Err(msg_not_pair(args[0]))),
            }
        }
    } else if name == "list"@ {
        bres(Ok(spec_list_of(args)))
    } else if name == "null?"@ {
        if args.len() != 1 {
            bres(Err("Expected one argument to `null?`!"@))
        } else {
            bres(Ok(SpecValue::Bool(args[0] is Nil)))
        }
    } else if name == "string->list"@ {
        if args.len() != 1 {
            bres(Err("Expected one argument to `string->list`!"@))
        } else {
            match args[0] {
                SpecValue::Str(s) => bres(Ok(spec_chars_to_list(s))),
                _ => bres(
                    Err("Expected string argument to `string->list`, got "@ + spec_render(args[0])),
                ),
            }
        }
    } else if name == "list->string"@ {
        if args.len() != 1 {
            bres(Err("Expected one argument to `list->string`!"@))
        } else {
            match args[0] {
                SpecValue::Pair(a, d) => match spec_char_walk(args[0]) {
                    Option::Some(s) => bres(Ok(SpecValue::Str(s))),
                    Option::None => bres(
                        Err("Expected list of chars, got "@ + spec_render(args[0])),
                    ),
                },
                _ => bres(
                    Err("Expected list argument to `list->string`, got "@ + spec_render(args[0])),
                ),
            }
        }
    } else {
        Option::None
    }
}

/// What evaluating one expression leaves behind: its result, the environment
/// after it (definitions persist), and the text it printed.
#[verifier::ext_equal]
pub struct EvalOut {
    pub res: Result<SpecValue, Seq<char>>,
    pub env: Map<Seq<char>, SpecValue>,
    pub out: Seq<Seq<char>>,
}

/// What evaluating an argument list leaves behind.
#[verifier::ext_equal]
pub struct ArgsOut {
    pub res: Result<Seq<SpecValue>, Seq<char>>,
    pub env: Map<Seq<char>, SpecValue>,
    pub out: Seq<Seq<char>>,
}

/// The big-step evaluation of an expression against an environment, with a
/// recursion budget spent one unit per function application. Literals are
/// themselves; identifiers are looked up; a lambda builds a closure surrogate
/// by substitution; `define` extends the environment and yields nil; `if`
/// branches on a boolean; an application evaluates its arguments left to
/// right, then a builtin, a named function, or an evaluated head.
pub open spec fn spec_eval(e: SpecExpr, env: Map<Seq<char>, SpecValue>, fuel: nat) -> EvalOut
    decreases fuel, e, 0int,
    via spec_eval_decreases
{
    match e {
        SpecExpr::Number(b) => EvalOut { res: Ok(SpecValue::Number(b)), env, out: Seq::empty() },
        SpecExpr::Integer(n) => EvalOut { res: Ok(SpecValue::Integer(n)), env, out: Seq::empty() },
        SpecExpr::Bool(b) => EvalOut { res: Ok(SpecValue::Bool(b)), env, out: Seq::empty() },
        SpecExpr::Char(c) => EvalOut { res: Ok(SpecValue::Char(c)), env, out: Seq::empty() },
        SpecExpr::Str(s) => EvalOut { res: Ok(SpecValue::Str(s)), env, out: Seq::empty() },
        SpecExpr::Nil => EvalOut { res: Ok(SpecValue::Nil), env, out: Seq::empty() },
        SpecExpr::Identifier(s) => if env.contains_key(s) {
            EvalOut { res: Ok(env[s]), env, out: Seq::empty() }
        } else {
            EvalOut { res: Err(msg_unbound(s)), env, out: Seq::empty() }
        },
        SpecExpr::Lambda(ps, body) => EvalOut {
            res: Ok(
                SpecValue::Function(ps, Box::new(spec_subst(*body, remove_names(env, ps)))),
            ),
            env,
            out: Seq::empty(),
        },
        SpecExpr::Pair(a, d) => {
            let ra = spec_eval(*a, env, fuel);
            match ra.res {
                Err(m) => ra,
                Ok(va) => {
                    let rd = spec_eval(*d, ra.env, fuel);
                    match rd.res {
                        Err(m) => EvalOut { res: Err(m), env: rd.env, out: ra.out + rd.out },
                        Ok(vd) => EvalOut {
                            res: Ok(SpecValue::Pair(Box::new(va), Box::new(vd))),
                            env: rd.env,
                            out: ra.out + rd.out,
                        },
                    }
                },
            }
        },
        SpecExpr::Define(n, ve) => {
            let rv = spec_eval(*ve, env, fuel);
            match rv.res {
                Err(m) => rv,
                Ok(v) => EvalOut { res: Ok(SpecValue::Nil), env: rv.env.insert(n, v), out: rv.out },
            }
        },
        SpecExpr::If(c, th, el) => {
            let rc = spec_eval(*c, env, fuel);
            match rc.res {
                Err(m) => rc,
                Ok(SpecValue::Bool(b)) => {
                    let rb = if b {
                        spec_eval(*th, rc.env, fuel)
                    } else {
                        spec_eval(*el, rc.env, fuel)
                    };
                    EvalOut { res: rb.res, env: rb.env, out: rc.out + rb.out }
                },
                Ok(v) => EvalOut { res: Err(msg_bad_condition(v)), env: rc.env, out: rc.out },
            }
        },
        SpecExpr::SExpression(h, args) => {
            let ra = spec_eval_seq(args, env, fuel, Seq::empty(), Seq::empty());
            match ra.res {
                Err(m) => EvalOut { res: Err(m), env: ra.env, out: ra.out },
                Ok(vals) => match *h {
                    SpecExpr::Identifier(s) => match spec_builtin(s, vals) {
                        Option::Some(b) => EvalOut { res: b.res, env: ra.env, out: ra.out + b.out },
                        Option::None => if ra.env.contains_key(s) {
                            match ra.env[s] {
                                SpecValue::Function(ps, body) => if fuel == 0 {
                                    EvalOut {
                                        res: Err("Evaluation depth limit exceeded!"@),
                                        env: ra.env,
                                        out: ra.out,
                                    }
                                } else {
                                    let rap = spec_apply(
                                        ps,
                                        *body,
                                        vals,
                                        ra.env,
                                        (fuel - 1) as nat,
                                    );
                                    EvalOut { res: rap.res, env: ra.env, out: ra.out + rap.out }
                                },
                                _ => EvalOut {
                                    res: Err(msg_not_known_function(s)),
                                    env: ra.env,
                                    out: ra.out,
                                },
                            }
                        } else {
                            EvalOut {
                                res: Err(msg_symbol_not_found(s)),
                                env: ra.env,
                                out: ra.out,
                            }
                        },
                    },
                    _ => {
                        let rh = spec_eval(*h, ra.env, fuel);
                        match rh.res {
                            Err(m) => EvalOut { res: Err(m), env: rh.env, out: ra.out + rh.out },
                            Ok(SpecValue::Function(ps, body)) => if fuel == 0 {
                                EvalOut {
                                    res: Err("Evaluation depth limit exceeded!"@),
                                    env: rh.env,
                                    out: ra.out + rh.out,
                                }
                            } else {
                                let rap = spec_apply(ps, *body, vals, rh.env, (fuel - 1) as nat);
                                EvalOut {
                                    res: rap.res,
                                    env: rh.env,
                                    out: ra.out + rh.out + rap.out,
                                }
                            },
                            Ok(v) => EvalOut {
                                res: Err(msg_not_callable(v)),
                                env: rh.env,
                                out: ra.out + rh.out,
                            },
                        }
                    },
                },
            }
        },
    }
}

/// The error message for applying a value that is not a function.
pub open spec fn msg_not_callable(v: SpecValue) -> Seq<char> {
    match v {
        SpecValue::Number(n) => float_shortest_text(n) + " is a number, not a function!"@,
        SpecValue::Nil => "Nil is not callable!"@,
        SpecValue::Bool(b) => (if b {
            "#t"@
        } else {
            "#f"@
        }) + " is a boolean, not a function!"@,
        SpecValue::Char(c) => seq![c] + " is a char, not a function!"@,
        SpecValue::Integer(n) => int_text(n as int) + " is an integer, not a function!"@,
        SpecValue::Pair(a, d) => "Expected a function, got a pair!"@,
        SpecValue::Str(s) => "Expected a function, got the string "@ + s,
        SpecValue::Function(ps, b) => Seq::empty(),
    }
}

/// The evaluation of an argument list, left to right, threading the
/// environment and stopping at the first failure. `acc` and `outacc` carry
/// the values and output gathered so far.
pub open spec fn spec_eval_seq(
    es: Seq<SpecExpr>,
    env: Map<Seq<char>, SpecValue>,
    fuel: nat,
    acc: Seq<SpecValue>,
    outacc: Seq<Seq<char>>,
) -> ArgsOut
    decreases fuel, es, 0int,
    via spec_eval_seq_decreases
{
    if es.len() == 0 {
        ArgsOut { res: Ok(acc), env, out: outacc }
    } else {
        let r0 = spec_eval(es[0], env, fuel);
        match r0.res {
            Err(m) => ArgsOut { res: Err(m), env: r0.env, out: outacc + r0.out },
            Ok(v) => spec_eval_seq(
                es.drop_first(),
                r0.env,
                fuel,
                acc.push(v),
                outacc + r0.out,
            ),
        }
    }
}

/// The application of a function value: at most as many arguments as
/// parameters, each parameter bound positionally in a copy of the caller's
/// environment, the body evaluated there. The caller's environment is left
/// as it was.
pub open spec fn spec_apply(
    ps: Seq<Seq<char>>,
    body: SpecExpr,
    vals: Seq<SpecValue>,
    env: Map<Seq<char>, SpecValue>,
    fuel: nat,
) -> EvalOut
    decreases fuel, body, 1int,
{
    if vals.len() > ps.len() {
        EvalOut { res: Err("Too many arguments to function!"@), env, out: Seq::empty() }
    } else {
        let r = spec_eval(body, bind_params(env, ps, vals), fuel);
        EvalOut { res: r.res, env, out: r.out }
    }
}

#[via_fn]
proof fn spec_eval_decreases(e: SpecExpr, env: Map<Seq<char>, SpecValue>, fuel: nat) {
    match e {
        SpecExpr::SExpression(h, args) => {
            assert(decreases_to!(e => args));
        },
        _ => {},
    }
}

#[via_fn]
proof fn spec_eval_seq_decreases(
    es: Seq<SpecExpr>,
    env: Map<Seq<char>, SpecValue>,
    fuel: nat,
    acc: Seq<SpecValue>,
    outacc: Seq<Seq<char>>,
) {
    if es.len() > 0 {
        vstd::seq::axiom_seq_index_decreases::<SpecExpr>(es, 0);
        assert(decreases_to!(es => es[0]));
    }
}

/// The spec image of an executable result.
pub open spec fn res_view(r: Result<Value, String>) -> Result<SpecValue, Seq<char>> {
    match r {
        Ok(v) => Ok(v@),
        Err(m) => Err(m@),
    }
}

/// Rewrites an expression by the substitution pass that closure construction
/// performs, exactly as `spec_subst` describes.
pub fn check_environment(expr: &Expression, env: &Environment) -> (r: Expression)
    requires
        env.wf(),
    ensures
        r@ == spec_subst(expr@, env@),
    decreases *expr,
{
    match expr {
        Expression::Identifier(s) => match env.get(s.as_str()) {
            Option::Some(v) => value_to_expression(v),
            Option::None => Expression::Identifier(s.clone()),
        },
        Expression::Lambda(ps, body) => {
            let mut env2 = env.duplicate();
            let ghost ps_dv = ps.deep_view();
            let mut k: usize = 0;
            while k < ps.len()
                invariant
                    k <= ps@.len(),
                    ps_dv == ps.deep_view(),
                    ps_dv.len() == ps@.len(),
                    forall|m: int| 0 <= m < ps@.len() ==> #[trigger] ps_dv[m] == ps@[m]@,
                    env2.wf(),
                    env2@ == remove_names(env@, ps_dv.take(k as int)),
                decreases ps@.len() - k,
            {
                env2.remove(ps[k].as_str());
                proof {
                    assert(ps_dv.take(k + 1 as int).drop_last() =~= ps_dv.take(k as int));
                    assert(ps_dv.take(k + 1 as int).last() == ps@[k as int]@);
                }
                k += 1;
            }
            proof {
                assert(ps_dv.take(ps@.len() as int) =~= ps_dv);
            }
            let body2 = check_environment(&**body, &env2);
            Expression::Lambda(clone_string_vec(ps), Box::new(body2))
        },
        Expression::SExpression(h, args) => {
            let h2 = check_environment(&**h, env);
            let mut out_args: Vec<Expression> = Vec::new();
            let n = args.len();
            let mut k: usize = 0;
            while k < n
                invariant
                    k <= n,
                    n == args@.len(),
                    env.wf(),
                    (decreases_to!(*expr => *args)),
                    out_args@.len() == k,
                    forall|m: int|
                        0 <= m < k ==> #[trigger] expr_view(out_args@[m]) == spec_subst(
                            expr_view(args@[m]),
                            env@,
                        ),
                decreases n - k,
            {
                proof {
                    assert(decreases_to!(*expr => *args));
                    vstd::std_specs::vec::axiom_vec_index_decreases::<Expression>(*args, k as int);
                }
                let sub = check_environment(&args[k], env);
                out_args.push(sub);
                k += 1;
            }
            let r = Expression::SExpression(Box::new(h2), out_args);
            proof {
                let s1 = r@->SExpression_1;
                let s2 = spec_subst(expr@, env@)->SExpression_1;
                assert(s1.len() == s2.len());
                assert forall|m: int| 0 <= m < s1.len() implies s1[m] == s2[m] by {
                    assert(expr@->SExpression_1[m] == expr_view(args@[m]));
                    assert(s2[m] == spec_subst(expr@->SExpression_1[m], env@));
                    assert(s1[m] == expr_view(out_args@[m]));
                }
                assert(s1 =~= s2);
                assert(r@ =~= spec_subst(expr@, env@));
            }
            r
        },
        Expression::If(c, th, el) => Expression::If(
            Box::new(check_environment(&**c, env)),
            Box::new(check_environment(&**th, env)),
            Box::new(check_environment(&**el, env)),
        ),
        Expression::Define(n, v) => Expression::Define(
            n.clone(),
            Box::new(check_environment(&**v, env)),
        ),
        Expression::Pair(a, d) => Expression::Pair(
            Box::new(check_environment(&**a, env)),
            Box::new(check_environment(&**d, env)),
        ),
        Expression::Number(b) => Expression::Number(*b),
        Expression::Integer(n) => Expression::Integer(*n),
        Expression::Bool(b) => Expression::Bool(*b),
        Expression::Char(c) => Expression::Char(*c),
        Expression::String(s) => Expression::String(s.clone()),
        Expression::Nil => Expression::Nil,
    }
}

/// The bit pattern of a numeric value as a double, exactly as
/// `as_float_bits` describes.
fn as_float_exec(v: &Value) -> (r: u64)
    requires
        v@ is Integer || v@ is Number,
    ensures
        r == as_float_bits(v@),
{
    match v {
        Value::Number(b) => *b,
        Value::Integer(n) => float_of_int(*n),
        _ => 0,
    }
}

/// One step of an arithmetic fold, exactly as `arith_step` describes.
fn arith_step_exec(op: ArithOp, st: Result<Value, String>, x: &Value) -> (r: Result<Value, String>)
    ensures
        res_view(r) == arith_step(op, res_view(st), x@),
{
    let numeric_x = match x {
        Value::Integer(_) => true,
        Value::Number(_) => true,
        _ => false,
    };
    match st {
        Ok(a) => {
            let numeric_a = match &a {
                Value::Integer(_) => true,
                Value::Number(_) => true,
                _ => false,
            };
            if numeric_a && numeric_x {
                match op {
                    ArithOp::Add => {
                        if let (Value::Integer(xa), Value::Integer(aa)) = (x, &a) {
                            Ok(Value::Integer(xa.wrapping_add(*aa)))
                        } else {
                            Ok(Value::Number(float_add(as_float_exec(x), as_float_exec(&a))))
                        }
                    },
                    ArithOp::Mul => {
                        if let (Value::Integer(xa), Value::Integer(aa)) = (x, &a) {
                            Ok(Value::Integer(xa.wrapping_mul(*aa)))
                        } else {
                            Ok(Value::Number(float_mul(as_float_exec(x), as_float_exec(&a))))
                        }
                    },
                    ArithOp::Sub => {
                        if let (Value::Integer(xa), Value::Integer(aa)) = (x, &a) {
                            Ok(Value::Integer(aa.wrapping_sub(*xa)))
                        } else {
                            Ok(Value::Number(float_sub(as_float_exec(&a), as_float_exec(x))))
                        }
                    },
                    ArithOp::Div => Ok(
                        Value::Number(float_div(as_float_exec(&a), as_float_exec(x))),
                    ),
                }
            } else {
                Err(concat2(x.render().as_str(), " is not a number!"))
            }
        },
        Err(_) => Err(concat2(x.render().as_str(), " is not a number!")),
    }
}

/// The left fold of an arithmetic operator over the arguments from position
/// `from`, exactly as `arith_fold` describes.
fn arith_fold_exec(op: ArithOp, acc: Result<Value, String>, args: &Vec<Value>, from: usize) -> (r:
    Result<Value, String>)
    requires
        from <= args@.len(),
    ensures
        res_view(r) == arith_fold(op, res_view(acc), args.deep_view().skip(from as int)),
{
    let ghost dv = args.deep_view();
    let n = args.len();
    let mut st = acc;
    let mut k = from;
    proof {
        assert(dv.len() == args@.len());
        assert(forall|m: int| 0 <= m < dv.len() ==> #[trigger] dv[m] == args@[m]@);
    }
    while k < n
        invariant
            from <= k <= n,
            n == args@.len(),
            dv == args.deep_view(),
            dv.len() == n,
            forall|m: int| 0 <= m < dv.len() ==> #[trigger] dv[m] == args@[m]@,
            arith_fold(op, res_view(st), dv.skip(k as int)) == arith_fold(
                op,
                res_view(acc),
                dv.skip(from as int),
            ),
        decreases n - k,
    {
        let ghost pre = res_view(st);
        st = arith_step_exec(op, st, &args[k]);
        proof {
            assert(dv.skip(k as int)[0] == dv[k as int]);
            assert(dv.skip(k as int).drop_first() =~= dv.skip(k + 1 as int));
        }
        k += 1;
    }
    proof {
        assert(dv.skip(n as int) =~= Seq::<SpecValue>::empty());
    }
    st
}

/// One step of the chained `<` comparison, exactly as `lt_step` describes.
fn lt_step_exec(st: Result<Value, String>, x: &Value) -> (r: Result<Value, String>)
    ensures
        res_view(r) == lt_step(res_view(st), x@),
{
    match st {
        Ok(a) => {
            match (&a, x) {
                (Value::Number(n2), Value::Number(n)) => Ok(
                    if float_eq(*n2, F64_ZERO_BITS) {
                        Value::Number(F64_ZERO_BITS)
                    } else if float_lt(*n2, *n) {
                        Value::Number(*n)
                    } else {
                        Value::Number(F64_ZERO_BITS)
                    },
                ),
                (Value::Integer(n2), Value::Number(n)) => Ok(
                    if *n2 == 0 {
                        Value::Number(F64_ZERO_BITS)
                    } else if float_lt(float_of_int(*n2), *n) {
                        Value::Number(*n)
                    } else {
                        Value::Number(F64_ZERO_BITS)
                    },
                ),
                (Value::Number(n2), Value::Integer(n)) => Ok(
                    if float_eq(*n2, F64_ZERO_BITS) {
                        Value::Number(F64_ZERO_BITS)
                    } else if float_lt(*n2, float_of_int(*n)) {
                        Value::Number(float_of_int(*n))
                    } else {
                        Value::Number(F64_ZERO_BITS)
                    },
                ),
                (Value::Integer(n2), Value::Integer(n)) => Ok(
                    if *n2 == 0 {
                        Value::Integer(0)
                    } else if *n2 < *n {
                        Value::Integer(*n)
                    } else {
                        Value::Integer(0)
                    },
                ),
                _ => Err(concat2(x.render().as_str(), " not a number!")),
            }
        },
        Err(_) => Err(concat2(x.render().as_str(), " not a number!")),
    }
}

/// The chained `<` comparison over all arguments, coerced to a boolean,
/// exactly as `lt_coerce` of `lt_fold` describes.
fn lt_chain_exec(args: &Vec<Value>) -> (r: Result<Value, String>)
    requires
        args@.len() >= 1,
    ensures
        res_view(r) == lt_coerce(
            lt_fold(Ok(args.deep_view()[0]), args.deep_view().skip(1)),
        ),
{
    let ghost dv = args.deep_view();
    let n = args.len();
    let mut st: Result<Value, String> = Ok(args[0].clone());
    let mut k: usize = 1;
    proof {
        assert(forall|m: int| 0 <= m < dv.len() ==> #[trigger] dv[m] == args@[m]@);
    }
    while k < n
        invariant
            1 <= k <= n,
            n == args@.len(),
            dv == args.deep_view(),
            dv.len() == n,
            forall|m: int| 0 <= m < dv.len() ==> #[trigger] dv[m] == args@[m]@,
            lt_fold(res_view(st), dv.skip(k as int)) == lt_fold(Ok(dv[0]), dv.skip(1)),
        decreases n - k,
    {
        st = lt_step_exec(st, &args[k]);
        proof {
            assert(dv.skip(k as int)[0] == dv[k as int]);
            assert(dv.skip(k as int).drop_first() =~= dv.skip(k + 1 as int));
        }
        k += 1;
    }
    proof {
        assert(dv.skip(n as int) =~= Seq::<SpecValue>::empty());
    }
    match st {
        Ok(Value::Number(n2)) => Ok(Value::Bool(!float_eq(n2, F64_ZERO_BITS))),
        Ok(Value::Integer(n2)) => Ok(Value::Bool(n2 != 0)),
        Ok(_) => Ok(Value::Bool(true)),
        Err(m) => Err(m),
    }
}

/// Numeric equality across the tower, exactly as `num_eq` describes.
fn num_eq_exec(v: &Value, v0: &Value) -> (r: bool)
    ensures
        r == num_eq(v@, v0@),
{
    match (v, v0) {
        (Value::Number(n), Value::Number(n2)) => float_eq(*n, *n2),
        (Value::Number(n), Value::Integer(n2)) => float_eq(*n, float_of_int(*n2)),
        (Value::Integer(n), Value::Number(n2)) => float_eq(float_of_int(*n), *n2),
        (Value::Integer(n), Value::Integer(n2)) => *n == *n2,
        _ => false,
    }
}

/// Whether a value is integral within machine epsilon, exactly as `int_like`
/// describes.
fn int_like_exec(v: &Value) -> (r: bool)
    ensures
        r == int_like(v@),
{
    match v {
        Value::Integer(_) => true,
        Value::Number(n) => {
            let f = float_floor(*n);
            let d = float_sub(*n, f);
            float_lt(d & F64_ABS_MASK, F64_EPSILON_BITS)
        },
        _ => false,
    }
}

/// The arguments as a `Pair` chain ending in `Nil`, exactly as
/// `spec_list_of` describes.
fn list_of_exec(args: &Vec<Value>) -> (r: Value)
    ensures
        r@ == spec_list_of(args.deep_view()),
{
    let ghost dv = args.deep_view();
    let mut acc = Value::Nil;
    let mut k = args.len();
    proof {
        assert(forall|m: int| 0 <= m < dv.len() ==> #[trigger] dv[m] == args@[m]@);
        assert(dv.skip(dv.len() as int) =~= Seq::<SpecValue>::empty());
    }
    while k > 0
        invariant
            k <= args@.len(),
            dv == args.deep_view(),
            dv.len() == args@.len(),
            forall|m: int| 0 <= m < dv.len() ==> #[trigger] dv[m] == args@[m]@,
            acc@ == spec_list_of(dv.skip(k as int)),
        decreases k,
    {
        k -= 1;
        acc = Value::Pair(Box::new(args[k].clone()), Box::new(acc));
        proof {
            assert(dv.skip(k as int)[0] == dv[k as int]);
            assert(dv.skip(k as int).drop_first() =~= dv.skip(k + 1 as int));
        }
    }
    proof {
        assert(dv.skip(0) =~= dv);
    }
    acc
}

/// The characters of `s` as a `Pair`/`Nil` list of character values, exactly
/// as `spec_chars_to_list` describes.
fn chars_to_list_exec(s: &str) -> (r: Value)
    ensures
        r@ == spec_chars_to_list(s@),
{
    let cs = crate::strutil::str_chars(s);
    let mut acc = Value::Nil;
    let mut k = cs.len();
    proof {
        assert(cs@.skip(cs@.len() as int) =~= Seq::<char>::empty());
    }
    while k > 0
        invariant
            k <= cs@.len(),
            cs@ == s@,
            acc@ == spec_chars_to_list(cs@.skip(k as int)),
        decreases k,
    {
        k -= 1;
        acc = Value::Pair(Box::new(Value::Char(cs[k])), Box::new(acc));
        proof {
            reveal_with_fuel(value_view, 3);
            assert(cs@.skip(k as int)[0] == cs@[k as int]);
            assert(cs@.skip(k as int).drop_first() =~= cs@.skip(k + 1 as int));
        }
    }
    proof {
        assert(cs@.skip(0) =~= cs@);
    }
    acc
}

/// Walks a `Pair` chain of characters into a string, exactly as
/// `spec_char_walk` describes.
fn char_walk_exec(v: &Value) -> (r: Option<String>)
    ensures
        match spec_char_walk(v@) {
            Option::Some(s) => r is Some && r->0@ == s,
            Option::None => r is None,
        },
    decreases *v,
{
    proof {
        reveal_with_fuel(value_view, 4);
        reveal_with_fuel(spec_char_walk, 2);
    }
    match v {
        Value::Pair(car, cdr) => match &**car {
            Value::Char(c) => match &**cdr {
                Value::Pair(_, _) => match char_walk_exec(&**cdr) {
                    Option::Some(rest) => {
                        let mut s = String::new();
                        push_char(&mut s, *c);
                        s.append(rest.as_str());
                        proof {
                            assert(s@ =~= seq![*c].add(rest@));
                        }
                        Option::Some(s)
                    },
                    Option::None => Option::None,
                },
                _ => {
                    let mut s = String::new();
                    push_char(&mut s, *c);
                    proof {
                        assert(s@ =~= seq![*c]);
                    }
                    Option::Some(s)
                },
            },
            _ => Option::None,
        },
        _ => Option::None,
    }
}

/// Removes every name in `ps` from a copy of the environment.
fn env_minus(env: &Environment, ps: &Vec<String>) -> (r: Environment)
    requires
        env.wf(),
    ensures
        r.wf(),
        r@ == remove_names(env@, ps.deep_view()),
{
    let mut env2 = env.duplicate();
    let ghost ps_dv = ps.deep_view();
    let mut k: usize = 0;
    while k < ps.len()
        invariant
            k <= ps@.len(),
            ps_dv == ps.deep_view(),
            ps_dv.len() == ps@.len(),
            forall|m: int| 0 <= m < ps@.len() ==> #[trigger] ps_dv[m] == ps@[m]@,
            env2.wf(),
            env2@ == remove_names(env@, ps_dv.take(k as int)),
        decreases ps@.len() - k,
    {
        env2.remove(ps[k].as_str());
        proof {
            assert(ps_dv.take(k + 1 as int).drop_last() =~= ps_dv.take(k as int));
            assert(ps_dv.take(k + 1 as int).last() == ps@[k as int]@);
        }
        k += 1;
    }
    proof {
        assert(ps_dv.take(ps@.len() as int) =~= ps_dv);
    }
    env2
}

/// The error message for applying a value that is not a function, exactly as
/// `msg_not_callable` describes.
fn msg_not_callable_exec(v: &Value) -> (r: String)
    ensures
        r@ == msg_not_callable(v@),
{
    match v {
        Value::Number(n) => concat2(float_shortest(*n).as_str(), " is a number, not a function!"),
        Value::Nil => String::from_str("Nil is not callable!"),
        Value::Bool(b) => {
            if *b {
                concat2("#t", " is a boolean, not a function!")
            } else {
                concat2("#f", " is a boolean, not a function!")
            }
        },
        Value::Char(c) => {
            let mut s = String::new();
            push_char(&mut s, *c);
            proof {
                assert(s@ =~= seq![*c]);
            }
            concat2(s.as_str(), " is a char, not a function!")
        },
        Value::Integer(n) => concat2(int_string(*n).as_str(), " is an integer, not a function!"),
        Value::Pair(a, d) => String::from_str("Expected a function, got a pair!"),
        Value::String(s) => concat2("Expected a function, got the string ", s.as_str()),
        Value::Function(ps, b) => String::new(),
    }
}

/// Applies the built-in procedure named `name` to the evaluated arguments,
/// appending whatever it prints to `out`; exactly as `spec_builtin`
/// describes. Returns nothing when no builtin has that name.
#[verifier::rlimit(100)]
fn apply_builtin(name: &str, args: &Vec<Value>, out: &mut Vec<String>) -> (r: Option<
    Result<Value, String>,
>)
    ensures
        match spec_builtin(name@, args.deep_view()) {
            Option::None => r is None && final(out).deep_view() == old(out).deep_view(),
            Option::Some(b) => r is Some && res_view(r->0) == b.res && final(out).deep_view()
                == old(out).deep_view() + b.out,
        },
{
    let ghost dv = args.deep_view();
    let ghost out0 = out.deep_view();
    proof {
        assert(out0 + Seq::<Seq<char>>::empty() =~= out0);
        assert(dv.len() == args@.len());
        assert(forall|m: int| 0 <= m < dv.len() ==> #[trigger] dv[m] == args@[m]@);
        assert(dv.skip(0) =~= dv);
        if dv.len() >= 1 {
            assert(dv.skip(1) =~= dv.drop_first());
        }
    }
    let n = args.len();
    if str_eq(name, "+") {
        Some(arith_fold_exec(ArithOp::Add, Ok(Value::Integer(0)), args, 0))
    } else if str_eq(name, "*") {
        Some(arith_fold_exec(ArithOp::Mul, Ok(Value::Integer(1)), args, 0))
    } else if str_eq(name, "-") {
        if n == 0 {
            Some(Err(String::from_str("Expected at least one argument to `-`!")))
        } else if n == 1 {
            match &args[0] {
                Value::Number(v) => Some(Ok(Value::Number(*v ^ F64_SIGN_MASK))),
                Value::Integer(v) => Some(Ok(Value::Integer((0i64).wrapping_sub(*v)))),
                _ => Some(Err(concat2(args[0].render().as_str(), " is not a number!"))),
            }
        } else {
            let numeric0 = match &args[0] {
                Value::Integer(_) => true,
                Value::Number(_) => true,
                _ => false,
            };
            if !numeric0 {
                Some(Err(concat2(args[0].render().as_str(), " is not a number!")))
            } else {
                Some(arith_fold_exec(ArithOp::Sub, Ok(args[0].clone()), args, 1))
            }
        }
    } else if str_eq(name, "/") {
        if n == 0 {
            Some(Err(String::from_str("Expected at least one argument to `/`!")))
        } else if n == 1 {
            match &args[0] {
                Value::Number(v) => Some(Ok(Value::Number(float_div(F64_ONE_BITS, *v)))),
                Value::Integer(v) => Some(
                    Ok(Value::Number(float_div(F64_ONE_BITS, float_of_int(*v)))),
                ),
                _ => Some(Err(concat2(args[0].render().as_str(), " is not a number!"))),
            }
        } else {
            let numeric0 = match &args[0] {
                Value::Integer(_) => true,
                Value::Number(_) => true,
                _ => false,
            };
            if !numeric0 {
                Some(Err(concat2(args[0].render().as_str(), " is not a number!")))
            } else {
                Some(arith_fold_exec(ArithOp::Div, Ok(args[0].clone()), args, 1))
            }
        }
    } else if str_eq(name, "<") {
        if n == 0 {
            Some(Err(String::from_str("Expected at least one argument to `<`!")))
        } else {
            Some(lt_chain_exec(args))
        }
    } else if str_eq(name, "=") {
        if n == 0 {
            Some(Err(String::from_str("Expected at least one argument to `=`!")))
        } else {
            let mut all = true;
            let mut k: usize = 1;
            while k < n
                invariant
                    1 <= k <= n,
                    n == args@.len(),
                    dv == args.deep_view(),
                    dv.len() == n,
                    forall|m: int| 0 <= m < dv.len() ==> #[trigger] dv[m] == args@[m]@,
                    all == (forall|m: int| 1 <= m < k ==> num_eq(#[trigger] dv[m], dv[0])),
                decreases n - k,
            {
                let e = num_eq_exec(&args[k], &args[0]);
                proof {
                    if all && e {
                        assert forall|m: int| 1 <= m < k + 1 implies num_eq(
                            #[trigger] dv[m],
                            dv[0],
                        ) by {
                            if m == k {
                            }
                        }
                    } else if !e {
                        assert(!num_eq(dv[k as int], dv[0]));
                    } else {
                        let w = choose|m: int| 1 <= m < k && !num_eq(#[trigger] dv[m], dv[0]);
                        assert(1 <= w < k + 1 && !num_eq(dv[w], dv[0]));
                    }
                }
                if !e {
                    all = false;
                }
                k += 1;
            }
            Some(Ok(Value::Bool(all)))
        }
    } else if str_eq(name, "int") {
        let mut all = true;
        let mut k: usize = 0;
        while k < n
            invariant
                k <= n,
                n == args@.len(),
                dv == args.deep_view(),
                dv.len() == n,
                forall|m: int| 0 <= m < dv.len() ==> #[trigger] dv[m] == args@[m]@,
                all == (forall|m: int| 0 <= m < k ==> int_like(#[trigger] dv[m])),
            decreases n - k,
        {
            let e = int_like_exec(&args[k]);
            proof {
                if all && e {
                    assert forall|m: int| 0 <= m < k + 1 implies int_like(#[trigger] dv[m]) by {
                        if m == k {
                        }
                    }
                } else if !e {
                    assert(!int_like(dv[k as int]));
                } else {
                    let w = choose|m: int| 0 <= m < k && !int_like(#[trigger] dv[m]);
                    assert(0 <= w < k + 1 && !int_like(dv[w]));
                }
            }
            if !e {
                all = false;
            }
            k += 1;
        }
        Some(Ok(Value::Bool(all)))
    } else if str_eq(name, "not") {
        if n != 1 {
            Some(Err(String::from_str("Expected one argument to `not`!")))
        } else {
            match &args[0] {
                Value::Bool(b) => Some(Ok(Value::Bool(!*b))),
                _ => Some(Ok(Value::Bool(false))),
            }
        }
    } else if str_eq(name, "display") {
        if n == 1 {
            let mut chunk = args[0].render();
            push_char(&mut chunk, '\n');
            let ghost cv = chunk@;
            out.push(chunk);
            proof {
                assert(out.deep_view() =~= out0.push(cv));
                assert(out0.push(cv) =~= out0 + seq![cv]);
            }
            Some(Ok(Value::Nil))
        } else {
            Some(Err(String::from_str("Expected one argument to `display`!")))
        }
    } else if str_eq(name, "newline") {
        let mut chunk = String::new();
        push_char(&mut chunk, '\n');
        let ghost cv = chunk@;
        out.push(chunk);
        proof {
            assert(cv =~= seq!['\n']);
            assert(out.deep_view() =~= out0.push(cv));
            assert(out0.push(cv) =~= out0 + seq![cv]);
        }
        Some(Ok(Value::Nil))
    } else if str_eq(name, "cons") {
        if n != 2 {
            Some(Err(String::from_str("Expected two arguments to `cons`!")))
        } else {
            Some(Ok(Value::Pair(Box::new(args[0].clone()), Box::new(args[1].clone()))))
        }
    } else if str_eq(name, "car") {
        if n != 1 {
            Some(Err(String::from_str("Expected one argument to `car`!")))
        } else {
            match &args[0] {
                Value::Pair(a, d) => Some(Ok((&**a).clone())),
                _ => Some(Err(concat2(args[0].render().as_str(), " not a pair!"))),
            }
        }
    } else if str_eq(name, "cdr") {
        if n != 1 {
            Some(Err(String::from_str("Expected one argument to `cdr`!")))
        } else {
            match &args[0] {
                Value::Pair(a, d) => Some(Ok((&**d).clone())),
                _ => Some(Err(concat2(args[0].render().as_str(), " not a pair!"))),
            }
        }
    } else if str_eq(name, "list") {
        Some(Ok(list_of_exec(args)))
    } else if str_eq(name, "null?") {
        if n != 1 {
            Some(Err(String::from_str("Expected one argument to `null?`!")))
        } else {
            match &args[0] {
                Value::Nil => Some(Ok(Value::Bool(true))),
                _ => Some(Ok(Value::Bool(false))),
            }
        }
    } else if str_eq(name, "string->list") {
        if n != 1 {
            Some(Err(String::from_str("Expected one argument to `string->list`!")))
        } else {
            match &args[0] {
                Value::String(s) => Some(Ok(chars_to_list_exec(s.as_str()))),
                _ => Some(
                    Err(
                        concat2(
                            "Expected string argument to `string->list`, got ",
                            args[0].render().as_str(),
                        ),
                    ),
                ),
            }
        }
    } else if str_eq(name, "list->string") {
        if n != 1 {
            Some(Err(String::from_str("Expected one argument to `list->string`!")))
        } else {
            match &args[0] {
                Value::Pair(a, d) => match char_walk_exec(&args[0]) {
                    Option::Some(s) => Some(Ok(Value::String(s))),
                    Option::None => Some(
                        Err(concat2("Expected list of chars, got ", args[0].render().as_str())),
                    ),
                },
                _ => Some(
                    Err(
                        concat2(
                            "Expected list argument to `list->string`, got ",
                            args[0].render().as_str(),
                        ),
                    ),
                ),
            }
        }
    } else {
        None
    }
}

/// The recursion budget that `eval_expression` evaluates under: one unit per
/// function application. Exhausting it is a recoverable error, reported well
/// before the native stack could run out; a caller that wants another bound
/// passes its own to `eval_with_fuel`.
pub const EVAL_FUEL: u64 = 1000;

/// Whether the outcome `o` is what the call left behind: the result, the
/// environment after it, and the output it appended.
pub open spec fn eval_matches(
    o: EvalOut,
    r: Result<Value, String>,
    env1: Map<Seq<char>, SpecValue>,
    out0: Seq<Seq<char>>,
    out1: Seq<Seq<char>>,
) -> bool {
    &&& o.res == res_view(r)
    &&& env1 == o.env
    &&& out1 == out0 + o.out
}

/// Applies a function value: at most as many arguments as parameters, each
/// parameter bound positionally in a copy of the caller's environment, the
/// body evaluated there with the given budget; exactly as `spec_apply`
/// describes. The caller's environment is untouched.
fn apply_function(
    params: Vec<String>,
    body: Expression,
    vals: &Vec<Value>,
    env: &Environment,
    out: &mut Vec<String>,
    fuel: u64,
) -> (r: Result<Value, String>)
    requires
        env.wf(),
    ensures
        ({
            let o = spec_apply(params.deep_view(), body@, vals.deep_view(), env@, fuel as nat);
            o.res == res_view(r) && final(out).deep_view() == old(out).deep_view() + o.out
        }),
    decreases fuel, body, 1int,
{
    let ghost out0 = out.deep_view();
    proof {
        assert(out0 + Seq::<Seq<char>>::empty() =~= out0);
    }
    if vals.len() > params.len() {
        return Err(String::from_str("Too many arguments to function!"));
    }
    let ghost ps_dv = params.deep_view();
    let ghost vs_dv = vals.deep_view();
    let mut env2 = env.duplicate();
    let mut k: usize = 0;
    proof {
        assert(ps_dv.len() == params@.len());
        assert(vs_dv.len() == vals@.len());
        assert(forall|m: int| 0 <= m < ps_dv.len() ==> #[trigger] ps_dv[m] == params@[m]@);
        assert(forall|m: int| 0 <= m < vs_dv.len() ==> #[trigger] vs_dv[m] == vals@[m]@);
        assert(ps_dv.skip(0) =~= ps_dv);
        assert(vs_dv.skip(0) =~= vs_dv);
    }
    while k < vals.len()
        invariant
            k <= vals@.len() <= params@.len(),
            ps_dv.len() == params@.len(),
            vs_dv.len() == vals@.len(),
            ps_dv == params.deep_view(),
            vs_dv == vals.deep_view(),
            forall|m: int| 0 <= m < ps_dv.len() ==> #[trigger] ps_dv[m] == params@[m]@,
            forall|m: int| 0 <= m < vs_dv.len() ==> #[trigger] vs_dv[m] == vals@[m]@,
            env2.wf(),
            bind_params(env2@, ps_dv.skip(k as int), vs_dv.skip(k as int)) == bind_params(
                env@,
                ps_dv,
                vs_dv,
            ),
        decreases vals@.len() - k,
    {
        env2.insert(params[k].clone(), vals[k].clone());
        proof {
            assert(ps_dv.skip(k as int)[0] == ps_dv[k as int]);
            assert(vs_dv.skip(k as int)[0] == vs_dv[k as int]);
            assert(ps_dv.skip(k as int).drop_first() =~= ps_dv.skip(k + 1 as int));
            assert(vs_dv.skip(k as int).drop_first() =~= vs_dv.skip(k + 1 as int));
        }
        k += 1;
    }
    proof {
        assert(vs_dv.skip(vals@.len() as int) =~= Seq::<SpecValue>::empty());
    }
    eval_with_fuel(&body, &mut env2, out, fuel)
}

/// Evaluates one expression against the environment with the given recursion
/// budget, appending whatever it prints to `out`; exactly as `spec_eval`
/// describes. Definitions persist in the environment; a failure leaves the
/// definitions made before it.
#[verifier::rlimit(100)]
pub fn eval_with_fuel(
    expr: &Expression,
    env: &mut Environment,
    out: &mut Vec<String>,
    fuel: u64,
) -> (r: Result<Value, String>)
    requires
        old(env).wf(),
    ensures
        final(env).wf(),
        eval_matches(
            spec_eval(expr@, old(env)@, fuel as nat),
            r,
            final(env)@,
            old(out).deep_view(),
            final(out).deep_view(),
        ),
    decreases fuel, *expr, 0int,
{
    let ghost out0 = out.deep_view();
    proof {
        assert(out0 + Seq::<Seq<char>>::empty() =~= out0);
    }
    match expr {
        Expression::Number(b) => Ok(Value::Number(*b)),
        Expression::Integer(n) => Ok(Value::Integer(*n)),
        Expression::Bool(b) => Ok(Value::Bool(*b)),
        Expression::Char(c) => Ok(Value::Char(*c)),
        Expression::String(s) => Ok(Value::String(s.clone())),
        Expression::Nil => Ok(Value::Nil),
        Expression::Identifier(s) => match env.get(s.as_str()) {
            Option::Some(v) => Ok(v.clone()),
            Option::None => Err(concat3("Variable ", s.as_str(), " not in environment!")),
        },
        Expression::Lambda(ps, body) => {
            let env2 = env_minus(env, ps);
            let body2 = check_environment(&**body, &env2);
            Ok(Value::Function(clone_string_vec(ps), body2))
        },
        Expression::Pair(a, d) => {
            let ghost env_in = env@;
            match eval_with_fuel(&**a, env, out, fuel) {
                Err(m) => Err(m),
                Ok(va) => {
                    let ghost env_mid = env@;
                    let r2 = eval_with_fuel(&**d, env, out, fuel);
                    proof {
                        let oa = spec_eval((**a)@, env_in, fuel as nat);
                        let od = spec_eval((**d)@, env_mid, fuel as nat);
                        lemma_concat_assoc(out0, oa.out, od.out);
                    }
                    match r2 {
                        Err(m) => Err(m),
                        Ok(vd) => Ok(Value::Pair(Box::new(va), Box::new(vd))),
                    }
                },
            }
        },
        Expression::Define(n, ve) => {
            match eval_with_fuel(&**ve, env, out, fuel) {
                Err(m) => Err(m),
                Ok(v) => {
                    env.insert(n.clone(), v);
                    Ok(Value::Nil)
                },
            }
        },
        Expression::If(c, th, el) => {
            let ghost env_in = env@;
            match eval_with_fuel(&**c, env, out, fuel) {
                Err(m) => Err(m),
                Ok(Value::Bool(b)) => {
                    let ghost env_mid = env@;
                    let rb = if b {
                        eval_with_fuel(&**th, env, out, fuel)
                    } else {
                        eval_with_fuel(&**el, env, out, fuel)
                    };
                    proof {
                        let oc = spec_eval((**c)@, env_in, fuel as nat);
                        let ob = if b {
                            spec_eval((**th)@, env_mid, fuel as nat)
                        } else {
                            spec_eval((**el)@, env_mid, fuel as nat)
                        };
                        lemma_concat_assoc(out0, oc.out, ob.out);
                    }
                    rb
                },
                Ok(v) => Err(
                    concat3("Expected boolean in condition, got ", v.render().as_str(), "!"),
                ),
            }
        },
        Expression::SExpression(h, args) => {
            let ghost whole = expr@;
            let ghost argsv = whole->SExpression_1;
            let ghost env0 = env@;
            proof {
                assert(argsv.len() == args@.len());
                assert(forall|m: int|
                    0 <= m < argsv.len() ==> #[trigger] argsv[m] == expr_view(args@[m]));
            }
            let n = args.len();
            let mut vals: Vec<Value> = Vec::new();
            let mut k: usize = 0;
            proof {
                assert(argsv.skip(0) =~= argsv);
                assert(vals.deep_view() =~= Seq::<SpecValue>::empty());
                assert(out.deep_view().skip(out0.len() as int) =~= Seq::<Seq<char>>::empty());
            }
            while k < n
                invariant
                    k <= n,
                    n == args@.len(),
                    env.wf(),
                    out0 == old(out).deep_view(),
                    env0 == old(env)@,
                    expr@ is SExpression,
                    argsv == expr@->SExpression_1,
                    (decreases_to!(*expr => *args)),
                    argsv.len() == args@.len(),
                    forall|m: int|
                        0 <= m < argsv.len() ==> #[trigger] argsv[m] == expr_view(args@[m]),
                    out0.len() <= out.deep_view().len(),
                    out.deep_view().subrange(0, out0.len() as int) == out0,
                    spec_eval_seq(
                        argsv.skip(k as int),
                        env@,
                        fuel as nat,
                        vals.deep_view(),
                        out.deep_view().skip(out0.len() as int),
                    ) == spec_eval_seq(argsv, env0, fuel as nat, Seq::empty(), Seq::empty()),
                decreases n - k,
            {
                proof {
                    vstd::std_specs::vec::axiom_vec_index_decreases::<Expression>(*args, k as int);
                }
                let ghost pre_out = out.deep_view();
                let ghost pre_vals = vals.deep_view();
                let ghost pre_env = env@;
                let ghost pre_delta = pre_out.skip(out0.len() as int);
                let rk = eval_with_fuel(&args[k], env, out, fuel);
                proof {
                    let o0 = spec_eval(argsv[k as int], pre_env, fuel as nat);
                    assert(out.deep_view() == pre_out + o0.out);
                    assert(pre_out =~= out0 + pre_delta);
                    lemma_concat_parts(pre_out, o0.out);
                    assert(out.deep_view().subrange(0, out0.len() as int) =~= out0);
                    assert(out.deep_view().skip(out0.len() as int) =~= pre_delta + o0.out);
                    assert(argsv.skip(k as int)[0] == argsv[k as int]);
                    assert(argsv.skip(k as int).drop_first() =~= argsv.skip(k + 1 as int));
                }
                match rk {
                    Err(m) => {
                        proof {
                            let o0 = spec_eval(argsv[k as int], pre_env, fuel as nat);
                            let full = spec_eval_seq(
                                argsv,
                                env0,
                                fuel as nat,
                                Seq::empty(),
                                Seq::empty(),
                            );
                            assert(full == ArgsOut {
                                res: Err(o0.res->Err_0),
                                env: o0.env,
                                out: pre_delta + o0.out,
                            });
                            lemma_concat_assoc(out0, pre_delta, o0.out);
                        }
                        return Err(m);
                    },
                    Ok(v) => {
                        let ghost vv = v@;
                        vals.push(v);
                        proof {
                            assert(vals.deep_view() =~= pre_vals.push(vv));
                        }
                    },
                }
                k += 1;
            }
            proof {
                assert(argsv.skip(n as int) =~= Seq::<SpecExpr>::empty());
            }
            let ghost ra_out = out.deep_view().skip(out0.len() as int);
            proof {
                assert(out.deep_view() =~= out0 + ra_out);
            }
            match &**h {
                Expression::Identifier(s) => {
                    let ghost pre_out = out.deep_view();
                    match apply_builtin(s.as_str(), &vals, out) {
                        Option::Some(res) => {
                            proof {
                                let b = spec_builtin(s@, vals.deep_view());
                                assert(b is Some);
                                lemma_concat_assoc(out0, ra_out, b->0.out);
                            }
                            res
                        },
                        Option::None => {
                            let looked = match env.get(s.as_str()) {
                                Option::Some(v) => Option::Some(v.clone()),
                                Option::None => Option::None,
                            };
                            match looked {
                                Option::Some(Value::Function(ps, fbody)) => {
                                    if fuel == 0 {
                                        Err(String::from_str("Evaluation depth limit exceeded!"))
                                    } else {
                                        let ghost ps_dv = ps.deep_view();
                                        let ghost body_v = fbody@;
                                        let rr = apply_function(ps, fbody, &vals, env, out, fuel - 1);
                                        proof {
                                            let o = spec_apply(
                                                ps_dv,
                                                body_v,
                                                vals.deep_view(),
                                                env@,
                                                (fuel - 1) as nat,
                                            );
                                            lemma_concat_assoc(out0, ra_out, o.out);
                                        }
                                        rr
                                    }
                                },
                                Option::Some(_) => Err(
                                    concat2(s.as_str(), " is not a known function!"),
                                ),
                                Option::None => Err(concat3("Symbol ", s.as_str(), " not found!")),
                            }
                        },
                    }
                },
                _ => {
                    let ghost env_mid = env@;
                    let rh = eval_with_fuel(&**h, env, out, fuel);
                    proof {
                        let oh = spec_eval((**h)@, env_mid, fuel as nat);
                        lemma_concat_assoc(out0, ra_out, oh.out);
                    }
                    match rh {
                        Err(m) => Err(m),
                        Ok(Value::Function(ps, fbody)) => {
                            if fuel == 0 {
                                Err(String::from_str("Evaluation depth limit exceeded!"))
                            } else {
                                let ghost ps_dv = ps.deep_view();
                                let ghost body_v = fbody@;
                                let ghost oh = spec_eval((**h)@, env_mid, fuel as nat);
                                let rr = apply_function(ps, fbody, &vals, env, out, fuel - 1);
                                proof {
                                    let o = spec_apply(
                                        ps_dv,
                                        body_v,
                                        vals.deep_view(),
                                        env@,
                                        (fuel - 1) as nat,
                                    );
                                    lemma_concat_assoc(out0, ra_out, oh.out);
                                    lemma_concat_assoc(out0, ra_out + oh.out, o.out);
                                    lemma_concat_assoc(ra_out, oh.out, o.out);
                                }
                                rr
                            }
                        },
                        Ok(v) => Err(msg_not_callable_exec(&v)),
                    }
                },
            }
        },
    }
}

/// Concatenation of output sequences is associative.
proof fn lemma_concat_assoc(a: Seq<Seq<char>>, b: Seq<Seq<char>>, c: Seq<Seq<char>>)
    ensures
        (a + b) + c == a + (b + c),
{
    assert((a + b) + c =~= a + (b + c));
}

/// Concatenation keeps its prefix and its tail.
proof fn lemma_concat_parts(a: Seq<Seq<char>>, b: Seq<Seq<char>>)
    ensures
        (a + b).subrange(0, a.len() as int) == a,
        (a + b).skip(a.len() as int) == b,
        (a + b).len() == a.len() + b.len(),
{
    assert((a + b).subrange(0, a.len() as int) =~= a);
    assert((a + b).skip(a.len() as int) =~= b);
}

/// Evaluates one top-level expression against the environment, appending
/// whatever it prints to `out`; exactly as `spec_eval` under the default
/// recursion budget describes. Definitions persist in the environment; a
/// failure leaves the definitions made before it in place.
pub fn eval_expression(expr: &Expression, env: &mut Environment, out: &mut Vec<String>) -> (r:
    Result<Value, String>)
    requires
        old(env).wf(),
    ensures
        final(env).wf(),
        eval_matches(
            spec_eval(expr@, old(env)@, EVAL_FUEL as nat),
            r,
            final(env)@,
            old(out).deep_view(),
            final(out).deep_view(),
        ),
{
    eval_with_fuel(expr, env, out, EVAL_FUEL)
}

} // verus!
