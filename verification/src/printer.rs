//! The printer: renders a form back to text.
//!
//! In readable mode a string atom is escaped so that reading the rendering
//! gives the form back; in display mode the raw text is quoted unescaped.
//! The mathematical description is [`print_val`].

use vstd::prelude::*;

use crate::numbers::{i64_to_dec_string, int_to_dec};
use crate::text::{chars_to_string, str_to_chars};
use crate::types::{
    form_wf_at, kids_view, entries_view, lemma_entries_of_index, lemma_entries_view_eq,
    lemma_kids_view_eq, lemma_views_of_index, view_at, views_of, entries_of, Atom, Compound, Form,
    Heap, Object, Val,
};

verus! {

broadcast use vstd::seq::group_seq_axioms;

/// The characters an escaped character prints as: backslash, double quote
/// and newline take a leading backslash.
pub open spec fn esc_char(c: char) -> Seq<char> {
    if c == '\\' {
        seq!['\\', '\\']
    } else if c == '"' {
        seq!['\\', '"']
    } else if c == '\n' {
        seq!['\\', 'n']
    } else {
        seq![c]
    }
}

/// The escaped rendering of a string body from position `i` on.
pub open spec fn escape_from(s: Seq<char>, i: int) -> Seq<char>
    decreases s.len() - i when 0 <= i <= s.len()
{
    if i >= s.len() {
        Seq::empty()
    } else {
        esc_char(s[i]) + escape_from(s, i + 1)
    }
}

/// What a string atom's body prints as in each mode.
pub open spec fn print_body(s: Seq<char>, readable: bool) -> Seq<char> {
    if readable {
        escape_from(s, 0)
    } else {
        s
    }
}

/// The text a form prints as.
pub open spec fn print_val(v: Val, readable: bool) -> Seq<char>
    decreases v, 1int, 0int,
{
    match v {
        Val::Number(n) => int_to_dec(n),
        Val::Symbol(s) => s,
        Val::Text(s) => seq!['"'] + print_body(s, readable) + seq!['"'],
        Val::Keyword(s) => seq![':'] + s,
        Val::Nil => "nil"@,
        Val::True => "true"@,
        Val::False => "false"@,
        Val::List(l) => seq!['('] + join_print(l, 0, readable) + seq![')'],
        Val::Vector(l) => seq!['['] + join_print(l, 0, readable) + seq![']'],
        Val::Table(es) => seq!['{'] + join_entries(es, 0, readable) + seq!['}'],
        Val::Callable(_, code) => if code.len() == 1 {
            join_print(code, 0, readable)
        } else {
            "[built-in function]"@
        },
    }
}

/// The space-joined renderings of the elements from `i` on.
pub open spec fn join_print(l: Seq<Val>, i: int, readable: bool) -> Seq<char>
    decreases l, 0int, l.len() - i,
{
    if i < 0 || i >= l.len() {
        Seq::empty()
    } else if i + 1 == l.len() {
        print_val(l[i], readable)
    } else {
        print_val(l[i], readable) + seq![' '] + join_print(l, i + 1, readable)
    }
}

/// The space-joined `key value` renderings of the entries from `i` on.
pub open spec fn join_entries(es: Seq<(Val, Val)>, i: int, readable: bool) -> Seq<char>
    decreases es, 0int, es.len() - i,
{
    if i < 0 || i >= es.len() {
        Seq::empty()
    } else if i + 1 == es.len() {
        print_val(es[i].0, readable) + seq![' '] + print_val(es[i].1, readable)
    } else {
        print_val(es[i].0, readable) + seq![' '] + print_val(es[i].1, readable) + seq![' ']
            + join_entries(es, i + 1, readable)
    }
}

/// Appends the escaped rendering of the characters from `from` on.
fn push_escaped(cs: &Vec<char>, from: usize, out: &mut Vec<char>)
    requires
        from <= cs@.len(),
    ensures
        final(out)@ == old(out)@ + escape_from(cs@, from as int),
    decreases cs@.len() - from,
{
    if from >= cs.len() {
        proof {
            assert(out@ =~= out@ + escape_from(cs@, from as int));
        }
        return;
    }
    let c = cs[from];
    if c == '\\' {
        out.push('\\');
        out.push('\\');
    } else if c == '"' {
        out.push('\\');
        out.push('"');
    } else if c == '\n' {
        out.push('\\');
        out.push('n');
    } else {
        out.push(c);
    }
    let ghost mid = out@;
    proof {
        assert(mid =~= old(out)@ + esc_char(cs@[from as int]));
    }
    push_escaped(cs, from + 1, out);
    proof {
        assert(out@ =~= old(out)@ + escape_from(cs@, from as int));
    }
}

/// Renders one atom.
pub fn pr_atom(atom: &Atom, print_readably: bool) -> (r: String)
    ensures
        r@ == print_val(atom@, print_readably),
{
    match atom {
        Atom::Symbol(s) => s.clone(),
        Atom::String(s) => {
            let cs = str_to_chars(s.as_str());
            let mut out: Vec<char> = Vec::new();
            out.push('"');
            if print_readably {
                push_escaped(&cs, 0, &mut out);
                proof {
                    assert(out@ =~= seq!['"'] + escape_from(s@, 0));
                }
            } else {
                let mut k: usize = 0;
                while k < cs.len()
                    invariant
                        k <= cs@.len(),
                        cs@ == s@,
                        out@ == seq!['"'] + s@.subrange(0, k as int),
                    decreases cs@.len() - k,
                {
                    out.push(cs[k]);
                    k = k + 1;
                    proof {
                        assert(out@ =~= seq!['"'] + s@.subrange(0, k as int));
                    }
                }
                proof {
                    assert(out@ =~= seq!['"'] + s@);
                }
            }
            out.push('"');
            proof {
                assert(out@ =~= seq!['"'] + print_body(s@, print_readably) + seq!['"']);
            }
            chars_to_string(&out)
        },
        Atom::Keyword(s) => {
            let mut r = String::new();
            proof {
                reveal_strlit(":");
                assert(":"@ =~= seq![':']);
            }
            r.append(":");
            r.append(s.as_str());
            r
        },
        Atom::Number(n) => i64_to_dec_string(*n),
        Atom::Nil => "nil".to_owned(),
        Atom::True => "true".to_owned(),
        Atom::False => "false".to_owned(),
    }
}

/// Renders the form a handle refers to.
pub fn pr_str(heap: &Heap, o: Object, print_readably: bool) -> (r: String)
    requires
        heap.wf(),
        heap.contains(o),
    ensures
        r@ == print_val(heap.tree(o), print_readably),
    decreases o.id, 2int, 0int,
{
    match heap.get(o) {
        Form::Atom(a) => {
            proof {
                assert(heap.tree(o) == a@);
            }
            pr_atom(a, print_readably)
        },
        Form::Compound(c) => pr_compound(heap, c, Ghost(o.id as int), print_readably),
    }
}

/// Renders one compound stored at slot `i`.
fn pr_compound(heap: &Heap, compound: &Compound, Ghost(i): Ghost<int>, print_readably: bool) -> (r:
    String)
    requires
        heap.wf(),
        0 <= i < heap.nodes@.len(),
        heap.nodes@[i] == Form::Compound(*compound),
    ensures
        r@ == print_val(view_at(heap.nodes@, i), print_readably),
    decreases i, 1int, 0int,
{
    let ghost nodes = heap.nodes@;
    proof {
        assert(form_wf_at(nodes[i], i));
    }
    match compound {
        Compound::List(l) => {
            proof {
                lemma_kids_view_eq(nodes, i, l@);
            }
            let mut out = String::new();
            proof {
                reveal_strlit("(");
                reveal_strlit(")");
                assert("("@ =~= seq!['(']);
                assert(")"@ =~= seq![')']);
            }
            out.append("(");
            pr_kids(heap, l, 0, Ghost(i), print_readably, &mut out);
            out.append(")");
            proof {
                assert(out@ =~= seq!['('] + join_print(views_of(nodes, l@), 0, print_readably)
                    + seq![')']);
            }
            out
        },
        Compound::Vector(v) => {
            proof {
                lemma_kids_view_eq(nodes, i, v@);
            }
            let mut out = String::new();
            proof {
                reveal_strlit("[");
                reveal_strlit("]");
                assert("["@ =~= seq!['[']);
                assert("]"@ =~= seq![']']);
            }
            out.append("[");
            pr_kids(heap, v, 0, Ghost(i), print_readably, &mut out);
            out.append("]");
            proof {
                assert(out@ =~= seq!['['] + join_print(views_of(nodes, v@), 0, print_readably)
                    + seq![']']);
            }
            out
        },
        Compound::Mapping(m) => {
            proof {
                lemma_entries_view_eq(nodes, i, m@);
            }
            let mut out = String::new();
            proof {
                reveal_strlit("{");
                reveal_strlit("}");
                assert("{"@ =~= seq!['{']);
                assert("}"@ =~= seq!['}']);
            }
            out.append("{");
            pr_entries(heap, m, 0, Ghost(i), print_readably, &mut out);
            out.append("}");
            proof {
                assert(out@ =~= seq!['{'] + join_entries(
                    entries_of(nodes, m@),
                    0,
                    print_readably,
                ) + seq!['}']);
            }
            out
        },
        Compound::Fn(mf) => {
            match mf.code {
                Some(code) => {
                    let r = pr_str(heap, code, print_readably);
                    proof {
                        let ghost cs = seq![view_at(nodes, code.id as int)];
                        assert(view_at(nodes, i) == Val::Callable(mf.op, cs));
                        assert(join_print(cs, 0, print_readably) == print_val(
                            cs[0],
                            print_readably,
                        ));
                    }
                    r
                },
                None => {
                    proof {
                        assert(view_at(nodes, i) == Val::Callable(mf.op, Seq::<Val>::empty()));
                    }
                    "[built-in function]".to_owned()
                },
            }
        },
    }
}

/// Appends the space-joined renderings of the children from `from` on.
fn pr_kids(
    heap: &Heap,
    ids: &Vec<Object>,
    from: usize,
    Ghost(i): Ghost<int>,
    print_readably: bool,
    out: &mut String,
)
    requires
        heap.wf(),
        0 <= i < heap.nodes@.len(),
        from <= ids@.len(),
        forall|k: int| 0 <= k < ids@.len() ==> (#[trigger] ids@[k]).id < i,
    ensures
        final(out)@ == old(out)@ + join_print(
            views_of(heap.nodes@, ids@),
            from as int,
            print_readably,
        ),
    decreases i, 0int, ids@.len() - from,
{
    let ghost nodes = heap.nodes@;
    let ghost vs = views_of(nodes, ids@);
    proof {
        lemma_views_of_index(nodes, ids@);
    }
    if from >= ids.len() {
        proof {
            assert(out@ =~= out@ + join_print(vs, from as int, print_readably));
        }
        return;
    }
    let piece = pr_str(heap, ids[from], print_readably);
    out.append(piece.as_str());
    if from + 1 < ids.len() {
        proof {
            reveal_strlit(" ");
            assert(" "@ =~= seq![' ']);
        }
        out.append(" ");
        pr_kids(heap, ids, from + 1, Ghost(i), print_readably, out);
        proof {
            assert(out@ =~= old(out)@ + join_print(vs, from as int, print_readably));
        }
    } else {
        proof {
            assert(out@ =~= old(out)@ + join_print(vs, from as int, print_readably));
        }
    }
}

/// Appends the space-joined `key value` renderings of the entries from
/// `from` on.
fn pr_entries(
    heap: &Heap,
    entries: &Vec<(Atom, Object)>,
    from: usize,
    Ghost(i): Ghost<int>,
    print_readably: bool,
    out: &mut String,
)
    requires
        heap.wf(),
        0 <= i < heap.nodes@.len(),
        from <= entries@.len(),
        forall|k: int| 0 <= k < entries@.len() ==> (#[trigger] entries@[k]).1.id < i,
    ensures
        final(out)@ == old(out)@ + join_entries(
            entries_of(heap.nodes@, entries@),
            from as int,
            print_readably,
        ),
    decreases i, 0int, entries@.len() - from,
{
    let ghost nodes = heap.nodes@;
    let ghost es = entries_of(nodes, entries@);
    proof {
        lemma_entries_of_index(nodes, entries@);
    }
    if from >= entries.len() {
        proof {
            assert(out@ =~= out@ + join_entries(es, from as int, print_readably));
        }
        return;
    }
    let key_txt = pr_atom(&entries[from].0, print_readably);
    out.append(key_txt.as_str());
    proof {
        reveal_strlit(" ");
        assert(" "@ =~= seq![' ']);
    }
    out.append(" ");
    let val_txt = pr_str(heap, entries[from].1, print_readably);
    out.append(val_txt.as_str());
    if from + 1 < entries.len() {
        out.append(" ");
        pr_entries(heap, entries, from + 1, Ghost(i), print_readably, out);
        proof {
            assert(out@ =~= old(out)@ + join_entries(es, from as int, print_readably));
        }
    } else {
        proof {
            assert(out@ =~= old(out)@ + join_entries(es, from as int, print_readably));
        }
    }
}

/// Renders a form in readable mode, as one REPL cycle's output.
pub fn print(heap: &Heap, input: Object) -> (r: String)
    requires
        heap.wf(),
        heap.contains(input),
    ensures
        r@ == print_val(heap.tree(input), true),
{
    pr_str(heap, input, true)
}

} // verus!
