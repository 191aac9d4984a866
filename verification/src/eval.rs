//! The evaluator: reduces a form to a value against an environment.
//!
//! A symbol resolves in the environment; a non-empty list evaluates every
//! element and applies the first to the rest; a vector or map evaluates
//! its elements or values in place; everything else evaluates to itself.
//! Every failure is a typed [`RuntimeError`]; a failed evaluation leaves
//! the environment untouched. The mathematical description is
//! [`eval_spec`].

use vstd::prelude::*;

use crate::errors::{ErrVal, ParseError, RuntimeError};
use crate::reader::read_str;
use crate::types::{
    entries_of, form_wf_at, heap_extends, heap_wf, lemma_entries_of_index, lemma_entries_of_prefix,
    lemma_view_at_form, lemma_view_at_prefix, lemma_views_of_index, lemma_views_of_prefix, view_at,
    views_of, Atom, BuiltinOp, Compound, Form, Heap, Object, Val,
};

verus! {

broadcast use vstd::seq::group_seq_axioms;

/// The signed 64-bit truncating quotient, written as the standard library
/// describes it.
pub open spec fn trunc_div(x: int, d: int) -> int {
    if x == 0 {
        0
    } else if x > 0 && d > 0 {
        x / d
    } else if x < 0 && d < 0 {
        ((x * -1) / (d * -1))
    } else if x < 0 {
        ((x * -1) / d) * -1
    } else {
        (x / (d * -1)) * -1
    }
}

/// A number result when it fits the signed 64-bit range, `Overflow`
/// otherwise.
pub open spec fn in_range(n: int) -> Result<Val, ErrVal> {
    if -0x8000_0000_0000_0000 <= n <= 0x7FFF_FFFF_FFFF_FFFF {
        Ok(Val::Number(n))
    } else {
        Err(ErrVal::Overflow)
    }
}

/// What one arithmetic builtin returns on two numbers.
pub open spec fn arith(op: BuiltinOp, x: int, y: int) -> Result<Val, ErrVal> {
    match op {
        BuiltinOp::Add => in_range(x + y),
        BuiltinOp::Sub => in_range(x - y),
        BuiltinOp::Mul => in_range(x * y),
        BuiltinOp::Div => if y == 0 {
            Err(ErrVal::DivisionByZero)
        } else {
            in_range(trunc_div(x, y))
        },
    }
}

/// What applying a value to evaluated arguments returns: a callable
/// demands exactly two numbers; anything else is `NotCallable`.
pub open spec fn apply_spec(f: Val, args: Seq<Val>) -> Result<Val, ErrVal> {
    match f {
        Val::Callable(op, _) => if args.len() != 2 {
            Err(ErrVal::WrongArgumentCount)
        } else {
            match (args[0], args[1]) {
                (Val::Number(x), Val::Number(y)) => arith(op, x, y),
                _ => Err(ErrVal::WrongArgumentType),
            }
        },
        _ => Err(ErrVal::NotCallable),
    }
}

/// The binding of a name, first match wins.
pub open spec fn lookup(env: Seq<(Seq<char>, Val)>, name: Seq<char>) -> Option<Val>
    decreases env.len(),
{
    if env.len() == 0 {
        None
    } else if env[0].0 == name {
        Some(env[0].1)
    } else {
        lookup(env.skip(1), name)
    }
}

/// What evaluating a form returns.
pub open spec fn eval_spec(v: Val, env: Seq<(Seq<char>, Val)>) -> Result<Val, ErrVal>
    decreases v, 2int, 0int,
{
    match v {
        Val::List(l) => if l.len() == 0 {
            Ok(v)
        } else {
            match eval_seq(l, 0, env) {
                Ok(vals) => apply_spec(vals[0], vals.skip(1)),
                Err(e) => Err(e),
            }
        },
        _ => eval_ast_spec(v, env),
    }
}

/// What evaluating a form without the application step returns.
pub open spec fn eval_ast_spec(v: Val, env: Seq<(Seq<char>, Val)>) -> Result<Val, ErrVal>
    decreases v, 1int, 0int,
{
    match v {
        Val::Symbol(s) => match lookup(env, s) {
            Some(x) => Ok(x),
            None => Err(ErrVal::UnboundSymbol(s)),
        },
        Val::List(l) => match eval_seq(l, 0, env) {
            Ok(vals) => Ok(Val::List(vals)),
            Err(e) => Err(e),
        },
        Val::Vector(l) => match eval_seq(l, 0, env) {
            Ok(vals) => Ok(Val::Vector(vals)),
            Err(e) => Err(e),
        },
        Val::Table(es) => match eval_entries_spec(es, 0, env) {
            Ok(ps) => Ok(Val::Table(ps)),
            Err(e) => Err(e),
        },
        _ => Ok(v),
    }
}

/// The evaluations of the elements from `i` on, failing fast.
pub open spec fn eval_seq(l: Seq<Val>, i: int, env: Seq<(Seq<char>, Val)>) -> Result<
    Seq<Val>,
    ErrVal,
>
    decreases l, 0int, l.len() - i,
{
    if i < 0 || i >= l.len() {
        Ok(Seq::empty())
    } else {
        match eval_spec(l[i], env) {
            Err(e) => Err(e),
            Ok(x) => match eval_seq(l, i + 1, env) {
                Ok(rest) => Ok(seq![x] + rest),
                Err(e) => Err(e),
            },
        }
    }
}

/// The evaluations of the entry values from `i` on, keys unchanged.
pub open spec fn eval_entries_spec(
    es: Seq<(Val, Val)>,
    i: int,
    env: Seq<(Seq<char>, Val)>,
) -> Result<Seq<(Val, Val)>, ErrVal>
    decreases es, 0int, es.len() - i,
{
    if i < 0 || i >= es.len() {
        Ok(Seq::empty())
    } else {
        match eval_spec(es[i].1, env) {
            Err(e) => Err(e),
            Ok(x) => match eval_entries_spec(es, i + 1, env) {
                Ok(rest) => Ok(seq![(es[i].0, x)] + rest),
                Err(e) => Err(e),
            },
        }
    }
}

/// The mutable mapping from symbol name to bound object.
pub struct Environment {
    pub entries: Vec<(String, Object)>,
}

/// The bindings as name/tree pairs.
pub open spec fn env_model(nodes: Seq<Form>, es: Seq<(String, Object)>) -> Seq<
    (Seq<char>, Val),
>
    decreases es.len(),
{
    if es.len() == 0 {
        Seq::empty()
    } else {
        seq![(es[0].0@, view_at(nodes, es[0].1.id as int))] + env_model(nodes, es.skip(1))
    }
}

/// The entries after binding a name: the first binding with that name is
/// replaced, otherwise the binding goes at the end.
pub open spec fn env_set(es: Seq<(String, Object)>, name: String, value: Object) -> Seq<
    (String, Object),
>
    decreases es.len(),
{
    if es.len() == 0 {
        seq![(name, value)]
    } else if es[0].0@ == name@ {
        seq![(name, value)] + es.skip(1)
    } else {
        seq![es[0]] + env_set(es.skip(1), name, value)
    }
}

/// When the first binding with the name stands at `i`, setting replaces it.
proof fn lemma_env_set_found(es: Seq<(String, Object)>, name: String, value: Object, i: int)
    requires
        0 <= i < es.len(),
        es[i].0@ == name@,
        forall|q: int| 0 <= q < i ==> (#[trigger] es[q]).0@ != name@,
    ensures
        env_set(es, name, value) == es.update(i, (name, value)),
    decreases i,
{
    if i == 0 {
        assert(seq![(name, value)] + es.skip(1) =~= es.update(0, (name, value)));
    } else {
        assert(es.skip(1)[i - 1].0@ == name@);
        assert forall|q: int| 0 <= q < i - 1 implies (#[trigger] es.skip(1)[q]).0@ != name@ by {
            assert(es.skip(1)[q] == es[q + 1]);
        }
        lemma_env_set_found(es.skip(1), name, value, i - 1);
        assert(seq![es[0]] + es.skip(1).update(i - 1, (name, value)) =~= es.update(
            i,
            (name, value),
        ));
    }
}

/// When no binding has the name, setting appends it.
proof fn lemma_env_set_missing(es: Seq<(String, Object)>, name: String, value: Object)
    requires
        forall|q: int| 0 <= q < es.len() ==> (#[trigger] es[q]).0@ != name@,
    ensures
        env_set(es, name, value) == es.push((name, value)),
    decreases es.len(),
{
    if es.len() == 0 {
        assert(seq![(name, value)] =~= es.push((name, value)));
    } else {
        assert forall|q: int| 0 <= q < es.skip(1).len() implies (#[trigger] es.skip(1)[q]).0@
            != name@ by {
            assert(es.skip(1)[q] == es[q + 1]);
        }
        lemma_env_set_missing(es.skip(1), name, value);
        assert(seq![es[0]] + es.skip(1).push((name, value)) =~= es.push((name, value)));
    }
}

/// The binding of a name, as a handle.
pub open spec fn lookup_obj(es: Seq<(String, Object)>, name: Seq<char>) -> Option<Object>
    decreases es.len(),
{
    if es.len() == 0 {
        None
    } else if es[0].0@ == name {
        Some(es[0].1)
    } else {
        lookup_obj(es.skip(1), name)
    }
}

/// Looking a name up in the model is looking its handle up and reading
/// its tree.
pub proof fn lemma_lookup_model(nodes: Seq<Form>, es: Seq<(String, Object)>, name: Seq<char>)
    ensures
        lookup(env_model(nodes, es), name) == match lookup_obj(es, name) {
            Some(o) => Some(view_at(nodes, o.id as int)),
            None => None::<Val>,
        },
    decreases es.len(),
{
    if es.len() > 0 {
        lemma_lookup_model(nodes, es.skip(1), name);
        assert(env_model(nodes, es)[0] == (es[0].0@, view_at(nodes, es[0].1.id as int)));
        assert(env_model(nodes, es).skip(1) =~= env_model(nodes, es.skip(1)));
    }
}

/// A found handle refers into the heap when every binding does.
pub proof fn lemma_lookup_obj_wf(es: Seq<(String, Object)>, name: Seq<char>, n: int)
    requires
        forall|k: int| 0 <= k < es.len() ==> (#[trigger] es[k]).1.id < n,
    ensures
        match lookup_obj(es, name) {
            Some(o) => o.id < n,
            None => true,
        },
    decreases es.len(),
{
    if es.len() > 0 && es[0].0@ != name {
        assert forall|k: int| 0 <= k < es.skip(1).len() implies (#[trigger] es.skip(1)[k]).1.id
            < n by {
            assert(es.skip(1)[k] == es[k + 1]);
        }
        lemma_lookup_obj_wf(es.skip(1), name, n);
    }
}

/// Growing the arena never changes the bindings' trees.
pub proof fn lemma_env_model_prefix(
    nodes: Seq<Form>,
    nodes2: Seq<Form>,
    es: Seq<(String, Object)>,
)
    requires
        heap_wf(nodes),
        heap_extends(nodes2, nodes),
        forall|k: int| 0 <= k < es.len() ==> (#[trigger] es[k]).1.id < nodes.len(),
    ensures
        env_model(nodes2, es) == env_model(nodes, es),
    decreases es.len(),
{
    if es.len() > 0 {
        lemma_view_at_prefix(nodes, nodes2, es[0].1.id as int);
        assert forall|k: int| 0 <= k < es.skip(1).len() implies (#[trigger] es.skip(1)[k]).1.id
            < nodes.len() by {
            assert(es.skip(1)[k] == es[k + 1]);
        }
        lemma_env_model_prefix(nodes, nodes2, es.skip(1));
    }
}

impl Environment {
    /// The bindings' trees over an arena.
    pub open spec fn model(&self, nodes: Seq<Form>) -> Seq<(Seq<char>, Val)> {
        env_model(nodes, self.entries@)
    }

    /// Every binding refers into the arena.
    pub open spec fn wf(&self, nodes: Seq<Form>) -> bool {
        forall|k: int| 0 <= k < self.entries@.len() ==> (#[trigger] self.entries@[k]).1.id
            < nodes.len()
    }

    /// An empty environment.
    pub fn new() -> (r: Environment)
        ensures
            r.entries@.len() == 0,
    {
        Environment { entries: Vec::new() }
    }

    /// The binding of a name, if any.
    pub fn get(&self, name: &String) -> (r: Option<Object>)
        ensures
            r == lookup_obj(self.entries@, name@),
    {
        let ghost es = self.entries@;
        let n = self.entries.len();
        let mut i: usize = 0;
        while i < n
            invariant
                i <= n,
                n == es.len(),
                es == self.entries@,
                forall|q: int| 0 <= q < i ==> (#[trigger] es[q]).0@ != name@,
            decreases n - i,
        {
            let hit = self.entries[i].0 == *name;
            if hit {
                proof {
                    lemma_lookup_obj_set(es, name@, i as int);
                }
                return Some(self.entries[i].1);
            }
            i = i + 1;
        }
        proof {
            lemma_lookup_obj_missing(es, name@);
        }
        None
    }

    /// Binds a name: the first binding with that name is replaced,
    /// otherwise the binding is added.
    pub fn set(&mut self, name: String, value: Object)
        ensures
            final(self).entries@ == env_set(old(self).entries@, name, value),
            lookup_obj(final(self).entries@, name@) == Some(value),
    {
        let ghost es0 = self.entries@;
        let n = self.entries.len();
        let mut i: usize = 0;
        while i < n
            invariant
                i <= n,
                n == es0.len(),
                es0 == self.entries@,
                self.entries@ == old(self).entries@,
                forall|q: int| 0 <= q < i ==> (#[trigger] es0[q]).0@ != name@,
            decreases n - i,
        {
            let hit = self.entries[i].0 == name;
            if hit {
                proof {
                    lemma_env_set_found(es0, name, value, i as int);
                }
                self.entries.set(i, (name, value));
                proof {
                    assert(self.entries@ =~= env_set(es0, name, value));
                    assert forall|q: int| 0 <= q < i implies (
                    #[trigger] self.entries@[q]).0@ != name@ by {
                        assert(self.entries@[q] == es0[q]);
                    }
                    lemma_lookup_obj_set(self.entries@, name@, i as int);
                }
                return;
            }
            i = i + 1;
        }
        proof {
            lemma_env_set_missing(es0, name, value);
        }
        self.entries.push((name, value));
        proof {
            assert(self.entries@ =~= env_set(es0, name, value));
            lemma_lookup_obj_set(self.entries@, name@, n as int);
        }
    }
}

/// When no key matches, lookup finds nothing.
proof fn lemma_lookup_obj_missing(es: Seq<(String, Object)>, name: Seq<char>)
    requires
        forall|q: int| 0 <= q < es.len() ==> (#[trigger] es[q]).0@ != name,
    ensures
        lookup_obj(es, name) is None,
    decreases es.len(),
{
    if es.len() > 0 {
        assert forall|q: int| 0 <= q < es.skip(1).len() implies (#[trigger] es.skip(1)[q]).0@
            != name by {
            assert(es.skip(1)[q] == es[q + 1]);
        }
        lemma_lookup_obj_missing(es.skip(1), name);
    }
}

/// When every earlier key differs, lookup finds the binding at `i`.
proof fn lemma_lookup_obj_set(es: Seq<(String, Object)>, name: Seq<char>, i: int)
    requires
        0 <= i < es.len(),
        es[i].0@ == name,
        forall|q: int| 0 <= q < i ==> (#[trigger] es[q]).0@ != name,
    ensures
        lookup_obj(es, name) == Some(es[i].1),
    decreases i,
{
    if i > 0 {
        assert(es.skip(1)[i - 1] == es[i]);
        assert forall|q: int| 0 <= q < i - 1 implies (#[trigger] es.skip(1)[q]).0@ != name by {
            assert(es.skip(1)[q] == es[q + 1]);
        }
        lemma_lookup_obj_set(es.skip(1), name, i - 1);
    }
}

/// A copy of a vector of handles.
fn copy_objs(v: &Vec<Object>) -> (r: Vec<Object>)
    ensures
        r@ == v@,
{
    let mut r: Vec<Object> = Vec::new();
    let mut i: usize = 0;
    while i < v.len()
        invariant
            i <= v@.len(),
            r@ == v@.subrange(0, i as int),
        decreases v@.len() - i,
    {
        r.push(v[i]);
        i = i + 1;
        proof {
            assert(r@ =~= v@.subrange(0, i as int));
        }
    }
    proof {
        assert(r@ =~= v@);
    }
    r
}

/// A copy of a vector of map entries.
fn copy_entries(v: &Vec<(Atom, Object)>) -> (r: Vec<(Atom, Object)>)
    ensures
        r@ == v@,
{
    let mut r: Vec<(Atom, Object)> = Vec::new();
    let mut i: usize = 0;
    while i < v.len()
        invariant
            i <= v@.len(),
            r@ == v@.subrange(0, i as int),
        decreases v@.len() - i,
    {
        let a = v[i].0.duplicate();
        r.push((a, v[i].1));
        i = i + 1;
        proof {
            assert(r@ =~= v@.subrange(0, i as int));
        }
    }
    proof {
        assert(r@ =~= v@);
    }
    r
}

/// The owned shape of a form, as the evaluator dispatches on it.
enum Shape {
    Name(String),
    Items(Vec<Object>),
    Slots(Vec<Object>),
    Pairs(Vec<(Atom, Object)>),
    Itself,
}

/// Evaluates one form.
pub fn eval(ast: Object, environment: &mut Environment, heap: &mut Heap) -> (r: Result<
    Object,
    RuntimeError,
>)
    requires
        old(heap).wf(),
        old(heap).contains(ast),
        old(environment).wf(old(heap).nodes@),
    ensures
        *final(environment) == *old(environment),
        final(heap).wf(),
        heap_extends(final(heap).nodes@, old(heap).nodes@),
        match eval_spec(old(heap).tree(ast), old(environment).model(old(heap).nodes@)) {
            Ok(v) => match r {
                Ok(o) => final(heap).contains(o) && final(heap).tree(o) == v,
                Err(_) => false,
            },
            Err(e) => match r {
                Err(re) => re.view_err() == e,
                Ok(_) => false,
            },
        },
    decreases ast.id, 3int, 0int,
{
    let ghost v0 = old(heap).tree(ast);
    let ghost env0 = old(environment).model(old(heap).nodes@);
    let mut list_len: usize = 0;
    let is_list = match heap.get(ast) {
        Form::Compound(Compound::List(l)) => {
            list_len = l.len();
            true
        },
        _ => false,
    };
    proof {
        lemma_view_at_form(heap.nodes@, ast.id as int);
    }
    if is_list && list_len == 0 {
        proof {
            assert(v0 == Val::List(Seq::<Val>::empty())) by {
                assert(form_wf_at(heap.nodes@[ast.id as int], ast.id as int));
                match heap.nodes@[ast.id as int] {
                    Form::Compound(Compound::List(l)) => {
                        lemma_views_of_index(heap.nodes@, l@);
                        assert(views_of(heap.nodes@, l@) =~= Seq::<Val>::empty());
                    },
                    _ => {},
                }
            }
        }
        return Ok(ast);
    }
    if is_list {
        let evaluated = match eval_ast(ast, environment, heap) {
            Ok(o) => o,
            Err(e) => {
                return Err(e);
            },
        };
        proof {
            lemma_view_at_form(heap.nodes@, evaluated.id as int);
        }
        // evaluating a list yields a list, so any other shape is impossible
        let items = match heap.get(evaluated) {
            Form::Compound(Compound::List(l2)) => copy_objs(l2),
            _ => {
                proof {
                    assert(false);
                }
                return Err(RuntimeError::NotCallable);
            },
        };
        let ghost vals = match eval_seq(match v0 {
            Val::List(l) => l,
            _ => Seq::empty(),
        }, 0, env0) {
            Ok(vs) => vs,
            Err(_) => Seq::empty(),
        };
        proof {
            lemma_views_of_index(heap.nodes@, items@);
            assert(views_of(heap.nodes@, items@) == vals);
            assert(vals.len() == items@.len());
            assert(items@.len() > 0);
        }
        let f = items[0];
        let mut args: Vec<Object> = Vec::new();
        let mut i: usize = 1;
        while i < items.len()
            invariant
                1 <= i <= items@.len(),
                args@ == items@.subrange(1, i as int),
            decreases items@.len() - i,
        {
            args.push(items[i]);
            i = i + 1;
            proof {
                assert(args@ =~= items@.subrange(1, i as int));
            }
        }
        proof {
            assert(args@ =~= items@.subrange(1, items@.len() as int));
            lemma_views_of_index(heap.nodes@, args@);
            assert(views_of(heap.nodes@, args@) =~= vals.skip(1));
            assert(view_at(heap.nodes@, f.id as int) == vals[0]);
        }
        f.call(&args, heap)
    } else {
        eval_ast(ast, environment, heap)
    }
}

/// Evaluates a form without the application step.
fn eval_ast(ast: Object, environment: &mut Environment, heap: &mut Heap) -> (r: Result<
    Object,
    RuntimeError,
>)
    requires
        old(heap).wf(),
        old(heap).contains(ast),
        old(environment).wf(old(heap).nodes@),
    ensures
        *final(environment) == *old(environment),
        final(heap).wf(),
        heap_extends(final(heap).nodes@, old(heap).nodes@),
        match eval_ast_spec(old(heap).tree(ast), old(environment).model(old(heap).nodes@)) {
            Ok(v) => match r {
                Ok(o) => final(heap).contains(o) && final(heap).tree(o) == v,
                Err(_) => false,
            },
            Err(e) => match r {
                Err(re) => re.view_err() == e,
                Ok(_) => false,
            },
        },
    decreases ast.id, 2int, 0int,
{
    let ghost nodes0 = heap.nodes@;
    let ghost v0 = old(heap).tree(ast);
    let ghost env0 = old(environment).model(old(heap).nodes@);
    proof {
        lemma_view_at_form(heap.nodes@, ast.id as int);
        assert(form_wf_at(heap.nodes@[ast.id as int], ast.id as int));
    }
    let shape = match heap.get(ast) {
        Form::Atom(Atom::Symbol(s)) => Shape::Name(s.clone()),
        Form::Compound(Compound::List(l)) => Shape::Items(copy_objs(l)),
        Form::Compound(Compound::Vector(vv)) => Shape::Slots(copy_objs(vv)),
        Form::Compound(Compound::Mapping(m)) => Shape::Pairs(copy_entries(m)),
        _ => Shape::Itself,
    };
    match shape {
        Shape::Name(name) => {
            proof {
                lemma_lookup_model(nodes0, environment.entries@, name@);
                lemma_lookup_obj_wf(environment.entries@, name@, nodes0.len() as int);
            }
            match environment.get(&name) {
                Some(o) => Ok(o),
                None => Err(RuntimeError::UnboundSymbol(name)),
            }
        },
        Shape::Items(items) => {
            match eval_items(&items, 0, environment, heap, Ghost(ast.id as int)) {
                Ok(outs) => {
                    let o = heap.intern(Form::list(outs));
                    Ok(o)
                },
                Err(e) => Err(e),
            }
        },
        Shape::Slots(items) => {
            match eval_items(&items, 0, environment, heap, Ghost(ast.id as int)) {
                Ok(outs) => {
                    let o = heap.intern(Form::vector(outs));
                    Ok(o)
                },
                Err(e) => Err(e),
            }
        },
        Shape::Pairs(pairs) => {
            match eval_pairs(&pairs, 0, environment, heap, Ghost(ast.id as int)) {
                Ok(outs) => {
                    let o = heap.intern(Form::map(outs));
                    Ok(o)
                },
                Err(e) => Err(e),
            }
        },
        Shape::Itself => {
            proof {
                match v0 {
                    Val::Symbol(_) => {
                        assert(false);
                    },
                    _ => {},
                }
            }
            Ok(ast)
        },
    }
}

/// Evaluates the elements from `from` on, failing fast.
fn eval_items(
    items: &Vec<Object>,
    from: usize,
    environment: &mut Environment,
    heap: &mut Heap,
    Ghost(b): Ghost<int>,
) -> (r: Result<Vec<Object>, RuntimeError>)
    requires
        old(heap).wf(),
        old(environment).wf(old(heap).nodes@),
        from <= items@.len(),
        b <= old(heap).nodes@.len(),
        forall|k: int| 0 <= k < items@.len() ==> (#[trigger] items@[k]).id < b,
    ensures
        *final(environment) == *old(environment),
        final(heap).wf(),
        heap_extends(final(heap).nodes@, old(heap).nodes@),
        match eval_seq(
            views_of(old(heap).nodes@, items@),
            from as int,
            old(environment).model(old(heap).nodes@),
        ) {
            Ok(vals) => match r {
                Ok(outs) => (forall|k: int|
                    0 <= k < outs@.len() ==> (#[trigger] outs@[k]).id
                        < final(heap).nodes@.len()) && views_of(final(heap).nodes@, outs@)
                    == vals,
                Err(_) => false,
            },
            Err(e) => match r {
                Err(re) => re.view_err() == e,
                Ok(_) => false,
            },
        },
    decreases b, 1int, items@.len() - from,
{
    let ghost nodes0 = heap.nodes@;
    proof {
        lemma_views_of_index(nodes0, items@);
    }
    if from >= items.len() {
        let outs: Vec<Object> = Vec::new();
        proof {
            assert(views_of(heap.nodes@, outs@) =~= Seq::<Val>::empty());
        }
        return Ok(outs);
    }
    let first = match eval(items[from], environment, heap) {
        Ok(o) => o,
        Err(e) => {
            return Err(e);
        },
    };
    let ghost h1 = heap.nodes@;
    proof {
        lemma_views_of_prefix(nodes0, h1, items@, b);
        lemma_env_model_prefix(nodes0, h1, environment.entries@);
    }
    let mut rest = match eval_items(items, from + 1, environment, heap, Ghost(b)) {
        Ok(outs) => outs,
        Err(e) => {
            return Err(e);
        },
    };
    proof {
        lemma_view_at_prefix(h1, heap.nodes@, first.id as int);
    }
    let ghost rest0 = rest@;
    rest.insert(0, first);
    proof {
        assert(rest@ =~= seq![first] + rest0);
        lemma_views_of_index(heap.nodes@, rest@);
        lemma_views_of_index(heap.nodes@, rest0);
        assert(views_of(heap.nodes@, rest@) =~= seq![view_at(heap.nodes@, first.id as int)]
            + views_of(heap.nodes@, rest0));
    }
    Ok(rest)
}

/// Evaluates the entry values from `from` on, keys unchanged.
fn eval_pairs(
    pairs: &Vec<(Atom, Object)>,
    from: usize,
    environment: &mut Environment,
    heap: &mut Heap,
    Ghost(b): Ghost<int>,
) -> (r: Result<Vec<(Atom, Object)>, RuntimeError>)
    requires
        old(heap).wf(),
        old(environment).wf(old(heap).nodes@),
        from <= pairs@.len(),
        b <= old(heap).nodes@.len(),
        forall|k: int| 0 <= k < pairs@.len() ==> (#[trigger] pairs@[k]).1.id < b,
    ensures
        *final(environment) == *old(environment),
        final(heap).wf(),
        heap_extends(final(heap).nodes@, old(heap).nodes@),
        match eval_entries_spec(
            entries_of(old(heap).nodes@, pairs@),
            from as int,
            old(environment).model(old(heap).nodes@),
        ) {
            Ok(ps) => match r {
                Ok(outs) => (forall|k: int|
                    0 <= k < outs@.len() ==> (#[trigger] outs@[k]).1.id
                        < final(heap).nodes@.len()) && entries_of(final(heap).nodes@, outs@)
                    == ps,
                Err(_) => false,
            },
            Err(e) => match r {
                Err(re) => re.view_err() == e,
                Ok(_) => false,
            },
        },
    decreases b, 1int, pairs@.len() - from,
{
    let ghost nodes0 = heap.nodes@;
    let ghost es = entries_of(nodes0, pairs@);
    proof {
        lemma_entries_of_index(nodes0, pairs@);
    }
    if from >= pairs.len() {
        let outs: Vec<(Atom, Object)> = Vec::new();
        proof {
            assert(entries_of(heap.nodes@, outs@) =~= Seq::<(Val, Val)>::empty());
        }
        return Ok(outs);
    }
    let first = match eval(pairs[from].1, environment, heap) {
        Ok(o) => o,
        Err(e) => {
            return Err(e);
        },
    };
    let ghost h1 = heap.nodes@;
    proof {
        lemma_entries_of_prefix(nodes0, h1, pairs@, b);
        lemma_env_model_prefix(nodes0, h1, environment.entries@);
    }
    let mut rest = match eval_pairs(pairs, from + 1, environment, heap, Ghost(b)) {
        Ok(outs) => outs,
        Err(e) => {
            return Err(e);
        },
    };
    proof {
        lemma_view_at_prefix(h1, heap.nodes@, first.id as int);
    }
    let key = pairs[from].0.duplicate();
    let ghost rest0 = rest@;
    rest.insert(0, (key, first));
    proof {
        assert(rest@ =~= seq![(key, first)] + rest0);
        lemma_entries_of_index(heap.nodes@, rest@);
        lemma_entries_of_index(heap.nodes@, rest0);
        assert(entries_of(heap.nodes@, rest@) =~= seq![
            (key@, view_at(heap.nodes@, first.id as int)),
        ] + entries_of(heap.nodes@, rest0));
    }
    Ok(rest)
}

impl Object {
    /// Reads the form this handle refers to.
    pub fn borrow<'a>(&self, heap: &'a Heap) -> (f: &'a Form)
        requires
            heap.contains(*self),
        ensures
            *f == heap.nodes@[self.id as int],
    {
        heap.get(*self)
    }

    /// Calls the form this handle refers to on evaluated arguments. A
    /// builtin checks the count and the types of its arguments and
    /// returns a typed failure instead of aborting.
    pub fn call(&self, args: &Vec<Object>, heap: &mut Heap) -> (r: Result<Object, RuntimeError>)
        requires
            old(heap).wf(),
            old(heap).contains(*self),
            forall|k: int|
                0 <= k < args@.len() ==> (#[trigger] args@[k]).id < old(heap).nodes@.len(),
        ensures
            final(heap).wf(),
            heap_extends(final(heap).nodes@, old(heap).nodes@),
            match apply_spec(old(heap).tree(*self), views_of(old(heap).nodes@, args@)) {
                Ok(v) => match r {
                    Ok(o) => final(heap).contains(o) && final(heap).tree(o) == v,
                    Err(_) => false,
                },
                Err(e) => match r {
                    Err(re) => re.view_err() == e,
                    Ok(_) => false,
                },
            },
    {
        let ghost nodes0 = heap.nodes@;
        let ghost vals = views_of(nodes0, args@);
        proof {
            lemma_view_at_form(nodes0, self.id as int);
            lemma_views_of_index(nodes0, args@);
        }
        let mf = match heap.get(*self) {
            Form::Compound(Compound::Fn(mf)) => *mf,
            _ => {
                return Err(RuntimeError::NotCallable);
            },
        };
        if args.len() != 2 {
            return Err(RuntimeError::WrongArgumentCount);
        }
        let x = match heap.get(args[0]) {
            Form::Atom(Atom::Number(x)) => *x,
            _ => {
                proof {
                    lemma_view_at_form(nodes0, args@[0].id as int);
                }
                return Err(RuntimeError::WrongArgumentType);
            },
        };
        let y = match heap.get(args[1]) {
            Form::Atom(Atom::Number(y)) => *y,
            _ => {
                proof {
                    lemma_view_at_form(nodes0, args@[1].id as int);
                }
                return Err(RuntimeError::WrongArgumentType);
            },
        };
        proof {
            lemma_view_at_form(nodes0, args@[0].id as int);
            lemma_view_at_form(nodes0, args@[1].id as int);
        }
        match arith_op(mf.op, x, y) {
            Ok(z) => {
                let o = heap.intern(Form::number(z));
                Ok(o)
            },
            Err(e) => Err(e),
        }
    }
}

/// Performs one arithmetic builtin with checked operations.
fn arith_op(op: BuiltinOp, x: i64, y: i64) -> (r: Result<i64, RuntimeError>)
    ensures
        match arith(op, x as int, y as int) {
            Ok(v) => match r {
                Ok(z) => v == Val::Number(z as int),
                Err(_) => false,
            },
            Err(e) => match r {
                Err(re) => re.view_err() == e,
                Ok(_) => false,
            },
        },
{
    match op {
        BuiltinOp::Add => match x.checked_add(y) {
            Some(z) => Ok(z),
            None => Err(RuntimeError::Overflow),
        },
        BuiltinOp::Sub => match x.checked_sub(y) {
            Some(z) => Ok(z),
            None => Err(RuntimeError::Overflow),
        },
        BuiltinOp::Mul => match x.checked_mul(y) {
            Some(z) => Ok(z),
            None => Err(RuntimeError::Overflow),
        },
        BuiltinOp::Div => {
            if y == 0 {
                return Err(RuntimeError::DivisionByZero);
            }
            match x.checked_div(y) {
                Some(z) => Ok(z),
                None => Err(RuntimeError::Overflow),
            }
        },
    }
}

/// Reads one form from an input line, as a REPL cycle's first step.
pub fn read(input: String, heap: &mut Heap) -> (r: Result<Object, ParseError>)
    requires
        old(heap).wf(),
    ensures
        final(heap).wf(),
        heap_extends(final(heap).nodes@, old(heap).nodes@),
        match crate::reader::parse_input(input@) {
            Ok(v) => match r {
                Ok(o) => final(heap).contains(o) && final(heap).tree(o) == v,
                Err(_) => false,
            },
            Err(e) => r == Err::<Object, ParseError>(e),
        },
{
    read_str(&input, heap)
}

} // verus!
