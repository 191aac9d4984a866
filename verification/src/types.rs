//! The value representation shared by the reader, the printer and the
//! evaluator.
//!
//! A parsed value is a `Form`: an `Atom` (a self-contained scalar) or a
//! `Compound` (a container or a callable). Containers do not own their
//! children directly: every child is an `Object`, a stable handle into a
//! `Heap`, the arena that owns all forms. Several containers may hold the
//! same handle, so one underlying form can be shared; rewriting an arena
//! slot would be visible through every handle that points at it.
//!
//! The arena satisfies one structural invariant, [`Heap::wf`]: every handle
//! stored inside the form at slot `i` is strictly less than `i`. The reader
//! and the evaluator allocate children before parents, so the invariant
//! holds by construction, and it makes every walk of the arena terminate.
//!
//! The mathematical model of a form is [`Val`], a tree; [`Heap::view_at`]
//! reads the tree rooted at a slot.

use vstd::prelude::*;

verus! {

/// The arithmetic operation a builtin callable performs.
#[derive(Clone, Copy, Debug, PartialEq, Eq, Structural)]
pub enum BuiltinOp {
    Add,
    Sub,
    Mul,
    Div,
}

/// A self-contained scalar value: the only legal map-key type.
#[derive(Clone, Debug)]
pub enum Atom {
    Number(i64),
    Symbol(String),
    String(String),
    Keyword(String),
    Nil,
    True,
    False,
}

/// A callable value: a builtin operation, plus the source form of the
/// definition when the function was defined in-language (used only for
/// display; absent for builtins).
#[derive(Clone, Copy, Debug)]
pub struct MalFn {
    pub op: BuiltinOp,
    pub code: Option<Object>,
}

/// A container or callable value; children are handles into the heap.
#[derive(Clone, Debug)]
pub enum Compound {
    List(Vec<Object>),
    Vector(Vec<Object>),
    Mapping(Vec<(Atom, Object)>),
    Fn(MalFn),
}

/// A parsed value: an atom or a compound.
#[derive(Clone, Debug)]
pub enum Form {
    Atom(Atom),
    Compound(Compound),
}

/// A shared handle to one form: an index into a `Heap`. Copying the handle
/// aliases the same underlying form.
#[derive(Clone, Copy, Debug)]
pub struct Object {
    pub id: usize,
}

/// The arena that owns every form. Slots are only ever appended.
#[derive(Debug)]
pub struct Heap {
    pub nodes: Vec<Form>,
}

/// The mathematical model of a form: a finite tree. A map is modelled as
/// the sequence of its key/value pairs in insertion order, keys unique; a
/// callable carries its operation and at most one code tree.
#[verifier::ext_equal]
pub enum Val {
    Number(int),
    Symbol(Seq<char>),
    Text(Seq<char>),
    Keyword(Seq<char>),
    Nil,
    True,
    False,
    List(Seq<Val>),
    Vector(Seq<Val>),
    Table(Seq<(Val, Val)>),
    Callable(BuiltinOp, Seq<Val>),
}

impl Val {
    /// True of the trees that model atoms.
    pub open spec fn is_atom(self) -> bool {
        match self {
            Val::Number(_) => true,
            Val::Symbol(_) => true,
            Val::Text(_) => true,
            Val::Keyword(_) => true,
            Val::Nil => true,
            Val::True => true,
            Val::False => true,
            _ => false,
        }
    }
}

impl View for Atom {
    type V = Val;

    open spec fn view(&self) -> Val {
        match self {
            Atom::Number(n) => Val::Number(*n as int),
            Atom::Symbol(s) => Val::Symbol(s@),
            Atom::String(s) => Val::Text(s@),
            Atom::Keyword(s) => Val::Keyword(s@),
            Atom::Nil => Val::Nil,
            Atom::True => Val::True,
            Atom::False => Val::False,
        }
    }
}

/// True when every handle held by `f` is strictly below slot `i`.
pub open spec fn form_wf_at(f: Form, i: int) -> bool {
    match f {
        Form::Atom(_) => true,
        Form::Compound(c) => match c {
            Compound::List(l) => forall|k: int|
                0 <= k < l@.len() ==> (#[trigger] l@[k]).id < i,
            Compound::Vector(v) => forall|k: int|
                0 <= k < v@.len() ==> (#[trigger] v@[k]).id < i,
            Compound::Mapping(m) => forall|k: int|
                0 <= k < m@.len() ==> (#[trigger] m@[k]).1.id < i,
            Compound::Fn(mf) => match mf.code {
                Some(o) => o.id < i,
                None => true,
            },
        },
    }
}

/// The heap invariant: handles point strictly downward.
pub open spec fn heap_wf(nodes: Seq<Form>) -> bool {
    forall|i: int| 0 <= i < nodes.len() ==> form_wf_at(#[trigger] nodes[i], i)
}

/// The tree rooted at slot `i`. Out-of-range or upward handles read as
/// `Val::Nil`; under `heap_wf` they never occur.
pub open spec fn view_at(nodes: Seq<Form>, i: int) -> Val
    decreases i, 1int, 0int when i >= 0
{
    if 0 <= i < nodes.len() {
        match nodes[i] {
            Form::Atom(a) => a@,
            Form::Compound(c) => match c {
                Compound::List(l) => Val::List(kids_view(nodes, i, l@)),
                Compound::Vector(v) => Val::Vector(kids_view(nodes, i, v@)),
                Compound::Mapping(m) => Val::Table(entries_view(nodes, i, m@)),
                Compound::Fn(mf) => Val::Callable(
                    mf.op,
                    match mf.code {
                        Some(o) => seq![if o.id < i {
                            view_at(nodes, o.id as int)
                        } else {
                            Val::Nil
                        }],
                        None => Seq::empty(),
                    },
                ),
            },
        }
    } else {
        Val::Nil
    }
}

/// The trees below a sequence of handles, guarded so the walk terminates.
pub open spec fn kids_view(nodes: Seq<Form>, i: int, ids: Seq<Object>) -> Seq<Val>
    decreases i, 0int, ids.len() as int when i >= 0
{
    if ids.len() == 0 {
        Seq::empty()
    } else {
        let hd = if ids[0].id < i {
            view_at(nodes, ids[0].id as int)
        } else {
            Val::Nil
        };
        seq![hd] + kids_view(nodes, i, ids.skip(1))
    }
}

/// The key/value trees below a sequence of map entries, guarded likewise.
pub open spec fn entries_view(nodes: Seq<Form>, i: int, es: Seq<(Atom, Object)>) -> Seq<(Val, Val)>
    decreases i, 0int, es.len() as int when i >= 0
{
    if es.len() == 0 {
        Seq::empty()
    } else {
        let hd = if es[0].1.id < i {
            view_at(nodes, es[0].1.id as int)
        } else {
            Val::Nil
        };
        seq![(es[0].0@, hd)] + entries_view(nodes, i, es.skip(1))
    }
}

/// The trees below a sequence of handles.
pub open spec fn views_of(nodes: Seq<Form>, ids: Seq<Object>) -> Seq<Val>
    decreases ids.len(),
{
    if ids.len() == 0 {
        Seq::empty()
    } else {
        seq![view_at(nodes, ids[0].id as int)] + views_of(nodes, ids.skip(1))
    }
}

/// The key/value trees of a sequence of map entries.
pub open spec fn entries_of(nodes: Seq<Form>, es: Seq<(Atom, Object)>) -> Seq<(Val, Val)>
    decreases es.len(),
{
    if es.len() == 0 {
        Seq::empty()
    } else {
        seq![(es[0].0@, view_at(nodes, es[0].1.id as int))] + entries_of(nodes, es.skip(1))
    }
}

/// The tree a form roots, its children read from the given arena.
pub open spec fn form_view(nodes: Seq<Form>, f: Form) -> Val {
    match f {
        Form::Atom(a) => a@,
        Form::Compound(c) => match c {
            Compound::List(l) => Val::List(views_of(nodes, l@)),
            Compound::Vector(v) => Val::Vector(views_of(nodes, v@)),
            Compound::Mapping(m) => Val::Table(entries_of(nodes, m@)),
            Compound::Fn(mf) => Val::Callable(
                mf.op,
                match mf.code {
                    Some(o) => seq![view_at(nodes, o.id as int)],
                    None => Seq::empty(),
                },
            ),
        },
    }
}

/// `views_of` element by element.
pub proof fn lemma_views_of_index(nodes: Seq<Form>, ids: Seq<Object>)
    ensures
        views_of(nodes, ids).len() == ids.len(),
        forall|k: int|
            0 <= k < ids.len() ==> #[trigger] views_of(nodes, ids)[k] == view_at(
                nodes,
                ids[k].id as int,
            ),
    decreases ids.len(),
{
    if ids.len() > 0 {
        lemma_views_of_index(nodes, ids.skip(1));
        assert forall|k: int| 0 <= k < ids.len() implies #[trigger] views_of(nodes, ids)[k]
            == view_at(nodes, ids[k].id as int) by {
            if k > 0 {
                assert(ids.skip(1)[k - 1] == ids[k]);
            }
        }
    }
}

/// `entries_of` element by element.
pub proof fn lemma_entries_of_index(nodes: Seq<Form>, es: Seq<(Atom, Object)>)
    ensures
        entries_of(nodes, es).len() == es.len(),
        forall|k: int|
            0 <= k < es.len() ==> #[trigger] entries_of(nodes, es)[k] == (es[k].0@, view_at(
                nodes,
                es[k].1.id as int,
            )),
    decreases es.len(),
{
    if es.len() > 0 {
        lemma_entries_of_index(nodes, es.skip(1));
        assert forall|k: int| 0 <= k < es.len() implies #[trigger] entries_of(nodes, es)[k] == (
        es[k].0@, view_at(nodes, es[k].1.id as int)) by {
            if k > 0 {
                assert(es.skip(1)[k - 1] == es[k]);
            }
        }
    }
}

/// When every handle is below the guard, the guarded and unguarded walks
/// agree.
pub proof fn lemma_kids_view_eq(nodes: Seq<Form>, i: int, ids: Seq<Object>)
    requires
        i >= 0,
        forall|k: int| 0 <= k < ids.len() ==> (#[trigger] ids[k]).id < i,
    ensures
        kids_view(nodes, i, ids) == views_of(nodes, ids),
    decreases ids.len(),
{
    if ids.len() > 0 {
        assert(ids[0].id < i);
        assert forall|k: int| 0 <= k < ids.skip(1).len() implies (#[trigger] ids.skip(1)[k]).id
            < i by {
            assert(ids.skip(1)[k] == ids[k + 1]);
        }
        lemma_kids_view_eq(nodes, i, ids.skip(1));
    }
}

/// The same for map entries.
pub proof fn lemma_entries_view_eq(nodes: Seq<Form>, i: int, es: Seq<(Atom, Object)>)
    requires
        i >= 0,
        forall|k: int| 0 <= k < es.len() ==> (#[trigger] es[k]).1.id < i,
    ensures
        entries_view(nodes, i, es) == entries_of(nodes, es),
    decreases es.len(),
{
    if es.len() > 0 {
        assert(es[0].1.id < i);
        assert forall|k: int| 0 <= k < es.skip(1).len() implies (#[trigger] es.skip(1)[k]).1.id
            < i by {
            assert(es.skip(1)[k] == es[k + 1]);
        }
        lemma_entries_view_eq(nodes, i, es.skip(1));
    }
}

/// Under the heap invariant, a slot's tree is its form's tree.
pub proof fn lemma_view_at_form(nodes: Seq<Form>, i: int)
    requires
        heap_wf(nodes),
        0 <= i < nodes.len(),
    ensures
        view_at(nodes, i) == form_view(nodes, nodes[i]),
{
    assert(form_wf_at(nodes[i], i));
    match nodes[i] {
        Form::Atom(_) => {},
        Form::Compound(c) => match c {
            Compound::List(l) => {
                lemma_kids_view_eq(nodes, i, l@);
            },
            Compound::Vector(v) => {
                lemma_kids_view_eq(nodes, i, v@);
            },
            Compound::Mapping(m) => {
                lemma_entries_view_eq(nodes, i, m@);
            },
            Compound::Fn(_) => {},
        },
    }
}

/// Growing the arena never changes the tree rooted at an existing slot.
pub proof fn lemma_view_at_prefix(nodes: Seq<Form>, nodes2: Seq<Form>, i: int)
    requires
        heap_wf(nodes),
        heap_extends(nodes2, nodes),
        0 <= i < nodes.len(),
    ensures
        view_at(nodes2, i) == view_at(nodes, i),
    decreases i,
{
    assert(nodes2[i] == nodes[i]);
    assert(form_wf_at(nodes[i], i));
    match nodes[i] {
        Form::Atom(_) => {},
        Form::Compound(c) => match c {
            Compound::List(l) => {
                lemma_kids_view_eq(nodes, i, l@);
                lemma_kids_view_eq(nodes2, i, l@);
                lemma_views_of_prefix(nodes, nodes2, l@, i);
            },
            Compound::Vector(v) => {
                lemma_kids_view_eq(nodes, i, v@);
                lemma_kids_view_eq(nodes2, i, v@);
                lemma_views_of_prefix(nodes, nodes2, v@, i);
            },
            Compound::Mapping(m) => {
                lemma_entries_view_eq(nodes, i, m@);
                lemma_entries_view_eq(nodes2, i, m@);
                lemma_entries_of_prefix(nodes, nodes2, m@, i);
            },
            Compound::Fn(mf) => {
                match mf.code {
                    Some(o) => {
                        lemma_view_at_prefix(nodes, nodes2, o.id as int);
                    },
                    None => {},
                }
            },
        },
    }
}

/// Growing the arena never changes the trees below existing handles.
pub proof fn lemma_views_of_prefix(nodes: Seq<Form>, nodes2: Seq<Form>, ids: Seq<Object>, b: int)
    requires
        heap_wf(nodes),
        heap_extends(nodes2, nodes),
        b <= nodes.len(),
        forall|k: int| 0 <= k < ids.len() ==> (#[trigger] ids[k]).id < b,
    ensures
        views_of(nodes2, ids) == views_of(nodes, ids),
    decreases b, ids.len(),
{
    lemma_views_of_index(nodes, ids);
    lemma_views_of_index(nodes2, ids);
    assert forall|k: int| 0 <= k < ids.len() implies views_of(nodes2, ids)[k] == views_of(
        nodes,
        ids,
    )[k] by {
        lemma_view_at_prefix(nodes, nodes2, ids[k].id as int);
    }
    assert(views_of(nodes2, ids) =~= views_of(nodes, ids));
}

/// The same for map entries.
pub proof fn lemma_entries_of_prefix(
    nodes: Seq<Form>,
    nodes2: Seq<Form>,
    es: Seq<(Atom, Object)>,
    b: int,
)
    requires
        heap_wf(nodes),
        heap_extends(nodes2, nodes),
        b <= nodes.len(),
        forall|k: int| 0 <= k < es.len() ==> (#[trigger] es[k]).1.id < b,
    ensures
        entries_of(nodes2, es) == entries_of(nodes, es),
    decreases b, es.len(),
{
    lemma_entries_of_index(nodes, es);
    lemma_entries_of_index(nodes2, es);
    assert forall|k: int| 0 <= k < es.len() implies entries_of(nodes2, es)[k] == entries_of(
        nodes,
        es,
    )[k] by {
        lemma_view_at_prefix(nodes, nodes2, es[k].1.id as int);
    }
    assert(entries_of(nodes2, es) =~= entries_of(nodes, es));
}

impl Heap {
    /// The heap invariant: every stored handle points strictly downward.
    pub open spec fn wf(&self) -> bool {
        heap_wf(self.nodes@)
    }

    /// The tree rooted at a handle.
    pub open spec fn tree(&self, o: Object) -> Val {
        view_at(self.nodes@, o.id as int)
    }

    /// True when a handle refers to a slot of this heap.
    pub open spec fn contains(&self, o: Object) -> bool {
        o.id < self.nodes@.len()
    }

    /// An empty arena.
    pub fn new() -> (h: Heap)
        ensures
            h.nodes@.len() == 0,
            h.wf(),
    {
        Heap { nodes: Vec::new() }
    }

    /// Places a form in a fresh slot and returns its handle. The form may
    /// only hold handles to slots that already exist.
    pub fn intern(&mut self, f: Form) -> (o: Object)
        requires
            old(self).wf(),
            form_wf_at(f, old(self).nodes@.len() as int),
        ensures
            final(self).wf(),
            final(self).nodes@ == old(self).nodes@.push(f),
            heap_extends(final(self).nodes@, old(self).nodes@),
            o.id == old(self).nodes@.len(),
            final(self).contains(o),
            final(self).tree(o) == form_view(old(self).nodes@, f),
    {
        let ghost old_nodes = self.nodes@;
        let id = self.nodes.len();
        self.nodes.push(f);
        proof {
            let nodes2 = self.nodes@;
            assert(heap_extends(nodes2, old_nodes));
            assert forall|j: int| 0 <= j < nodes2.len() implies form_wf_at(
                #[trigger] nodes2[j],
                j,
            ) by {
                if j < old_nodes.len() {
                    assert(nodes2[j] == old_nodes[j]);
                }
            }
            lemma_intern_view(old_nodes, nodes2, f);
        }
        Object { id }
    }

    /// Reads the form a handle refers to.
    pub fn get(&self, o: Object) -> (f: &Form)
        requires
            self.contains(o),
        ensures
            *f == self.nodes@[o.id as int],
    {
        &self.nodes[o.id]
    }
}

/// After an append, the new slot roots exactly the tree the appended form
/// described over the old arena.
proof fn lemma_intern_view(nodes: Seq<Form>, nodes2: Seq<Form>, f: Form)
    requires
        heap_wf(nodes),
        nodes2 == nodes.push(f),
        form_wf_at(f, nodes.len() as int),
    ensures
        view_at(nodes2, nodes.len() as int) == form_view(nodes, f),
{
    let i = nodes.len() as int;
    assert(heap_extends(nodes2, nodes));
    assert(nodes2[i] == f);
    match f {
        Form::Atom(_) => {},
        Form::Compound(c) => match c {
            Compound::List(l) => {
                lemma_kids_view_eq(nodes2, i, l@);
                lemma_views_of_prefix(nodes, nodes2, l@, i);
            },
            Compound::Vector(v) => {
                lemma_kids_view_eq(nodes2, i, v@);
                lemma_views_of_prefix(nodes, nodes2, v@, i);
            },
            Compound::Mapping(m) => {
                lemma_entries_view_eq(nodes2, i, m@);
                lemma_entries_of_prefix(nodes, nodes2, m@, i);
            },
            Compound::Fn(mf) => {
                match mf.code {
                    Some(o) => {
                        lemma_view_at_prefix(nodes, nodes2, o.id as int);
                    },
                    None => {},
                }
            },
        },
    }
}

impl Form {
    /// A number atom.
    pub fn number(n: i64) -> (f: Form)
        ensures
            f == Form::Atom(Atom::Number(n)),
    {
        Form::Atom(Atom::Number(n))
    }

    /// A symbol atom with the given name.
    pub fn symbol(s: &str) -> (f: Form)
        ensures
            match f {
                Form::Atom(a) => a@ == Val::Symbol(s@),
                _ => false,
            },
    {
        Form::Atom(Atom::Symbol(s.to_owned()))
    }

    /// A string atom with the given (already un-escaped) text.
    pub fn string(s: &str) -> (f: Form)
        ensures
            match f {
                Form::Atom(a) => a@ == Val::Text(s@),
                _ => false,
            },
    {
        Form::Atom(Atom::String(s.to_owned()))
    }

    /// A keyword atom with the given name (without the leading `:`).
    pub fn keyword(s: &str) -> (f: Form)
        ensures
            match f {
                Form::Atom(a) => a@ == Val::Keyword(s@),
                _ => false,
            },
    {
        Form::Atom(Atom::Keyword(s.to_owned()))
    }

    /// A list of the given children.
    pub fn list(l: Vec<Object>) -> (f: Form)
        ensures
            f == Form::Compound(Compound::List(l)),
    {
        Form::Compound(Compound::List(l))
    }

    /// A vector of the given children.
    pub fn vector(v: Vec<Object>) -> (f: Form)
        ensures
            f == Form::Compound(Compound::Vector(v)),
    {
        Form::Compound(Compound::Vector(v))
    }

    /// A map of the given key/value pairs.
    pub fn map(m: Vec<(Atom, Object)>) -> (f: Form)
        ensures
            f == Form::Compound(Compound::Mapping(m)),
    {
        Form::Compound(Compound::Mapping(m))
    }

    /// A builtin callable with no attached source.
    pub fn builtin(op: BuiltinOp) -> (f: Form)
        ensures
            f == Form::Compound(Compound::Fn(MalFn { op, code: None })),
    {
        Form::Compound(Compound::Fn(MalFn { op, code: None }))
    }
}

/// The tree of a form that holds no handles; meaningful for atoms.
pub open spec fn form_view_atom(f: Form) -> Val {
    form_view(Seq::empty(), f)
}


/// True when `new` is `old` with zero or more slots appended.
pub open spec fn heap_extends(new: Seq<Form>, old: Seq<Form>) -> bool {
    new.len() >= old.len() && forall|i: int| 0 <= i < old.len() ==> new[i] == #[trigger] old[i]
}

/// Extension is transitive.
pub proof fn lemma_heap_extends_trans(c: Seq<Form>, b: Seq<Form>, a: Seq<Form>)
    requires
        heap_extends(c, b),
        heap_extends(b, a),
    ensures
        heap_extends(c, a),
{
}

impl Atom {
    /// An equal copy of this atom.
    pub fn duplicate(&self) -> (a: Atom)
        ensures
            a == *self,
    {
        match self {
            Atom::Number(n) => Atom::Number(*n),
            Atom::Symbol(s) => Atom::Symbol(s.clone()),
            Atom::String(s) => Atom::String(s.clone()),
            Atom::Keyword(s) => Atom::Keyword(s.clone()),
            Atom::Nil => Atom::Nil,
            Atom::True => Atom::True,
            Atom::False => Atom::False,
        }
    }
}

/// Whether two atoms are the same value.
pub fn atom_eq(a: &Atom, b: &Atom) -> (r: bool)
    ensures
        r == (a@ == b@),
{
    match (a, b) {
        (Atom::Number(x), Atom::Number(y)) => *x == *y,
        (Atom::Symbol(x), Atom::Symbol(y)) => *x == *y,
        (Atom::String(x), Atom::String(y)) => *x == *y,
        (Atom::Keyword(x), Atom::Keyword(y)) => *x == *y,
        (Atom::Nil, Atom::Nil) => true,
        (Atom::True, Atom::True) => true,
        (Atom::False, Atom::False) => true,
        _ => false,
    }
}

} // verus!
