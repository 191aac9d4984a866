//! The round-trip law: reading back the readable rendering of a form
//! reproduces the form.
//!
//! The law holds of every *printable* form: one with no function values,
//! whose symbols and keywords consist of characters the lexer keeps inside
//! one token, whose symbols do not collide with number or literal syntax,
//! and whose map keys are distinct atoms. [`lemma_read_back`] states it
//! over [`parse_input`] and [`print_val`], the same descriptions the
//! contracts of `read_str` and `pr_str` use.

use vstd::prelude::*;

use crate::errors::ParseError;
use crate::numbers::{
    all_digits, dec_digits, digits_part, int_to_dec, is_digit_char, is_number_text,
    lemma_dec_digits, lemma_number_round_trip,
};
use crate::printer::{esc_char, escape_from, join_entries, join_print, print_val};
use crate::reader::{
    classify_text, is_sep_char, is_special_char, is_stop_char, lemma_next_token_at,
    lemma_table_insert_missing, lex_all, next_token_at,
    parse_entries, parse_form_at, parse_input, parse_items, run_end, scan_string, skip_sep,
    table_insert, unescape, LexStep, Tok,
};
use crate::types::Val;

verus! {

broadcast use vstd::seq::group_seq_axioms;

/// True of text the lexer reads as one character-sequence token.
pub open spec fn charseq_text(t: Seq<char>) -> bool {
    t.len() >= 1 && t[0] != '"' && t[0] != ';' && forall|k: int|
        0 <= k < t.len() ==> !is_stop_char(#[trigger] t[k])
}

/// True of the forms the reader can produce and the printer renders back
/// into themselves: no function values, token-shaped symbol and keyword
/// names, and maps with distinct atom keys.
pub open spec fn printable(v: Val) -> bool
    decreases v,
{
    match v {
        Val::Number(n) => -0x8000_0000_0000_0000 <= n < 0x8000_0000_0000_0000,
        Val::Symbol(s) => charseq_text(s) && !is_number_text(s) && s != "nil"@ && s != "true"@
            && s != "false"@ && s[0] != ':',
        Val::Text(_) => true,
        Val::Keyword(s) => forall|k: int| 0 <= k < s.len() ==> !is_stop_char(#[trigger] s[k]),
        Val::Nil => true,
        Val::True => true,
        Val::False => true,
        Val::List(l) => forall|k: int| 0 <= k < l.len() ==> printable(#[trigger] l[k]),
        Val::Vector(l) => forall|k: int| 0 <= k < l.len() ==> printable(#[trigger] l[k]),
        Val::Table(es) => (forall|k: int|
            0 <= k < es.len() ==> (#[trigger] es[k]).0.is_atom() && printable(es[k].0)
                && printable(es[k].1)) && (forall|k1: int, k2: int|
            0 <= k1 < k2 < es.len() ==> (#[trigger] es[k1]).0 != (#[trigger] es[k2]).0),
        Val::Callable(_, _) => false,
    }
}

/// The tokens a printable form renders as.
pub open spec fn toks_of(v: Val) -> Seq<Tok>
    decreases v, 1int, 0int,
{
    match v {
        Val::Number(n) => seq![Tok::CharSeq(int_to_dec(n))],
        Val::Symbol(s) => seq![Tok::CharSeq(s)],
        Val::Text(s) => seq![Tok::Text(s)],
        Val::Keyword(s) => seq![Tok::CharSeq(seq![':'] + s)],
        Val::Nil => seq![Tok::CharSeq("nil"@)],
        Val::True => seq![Tok::CharSeq("true"@)],
        Val::False => seq![Tok::CharSeq("false"@)],
        Val::List(l) => seq![Tok::Special('(')] + flat_toks(l, 0) + seq![Tok::Special(')')],
        Val::Vector(l) => seq![Tok::Special('[')] + flat_toks(l, 0) + seq![Tok::Special(']')],
        Val::Table(es) => seq![Tok::Special('{')] + flat_entries(es, 0) + seq![
            Tok::Special('}'),
        ],
        Val::Callable(_, _) => Seq::empty(),
    }
}

/// The tokens of the elements from `i` on.
pub open spec fn flat_toks(l: Seq<Val>, i: int) -> Seq<Tok>
    decreases l, 0int, l.len() - i,
{
    if i < 0 || i >= l.len() {
        Seq::empty()
    } else {
        toks_of(l[i]) + flat_toks(l, i + 1)
    }
}

/// The tokens of the key/value pairs from `i` on.
pub open spec fn flat_entries(es: Seq<(Val, Val)>, i: int) -> Seq<Tok>
    decreases es, 0int, es.len() - i,
{
    if i < 0 || i >= es.len() {
        Seq::empty()
    } else {
        toks_of(es[i].0) + toks_of(es[i].1) + flat_entries(es, i + 1)
    }
}

/// True when the stream holds exactly the given tokens from position `k`.
pub open spec fn toks_match(toks: Seq<Result<Tok, ParseError>>, k: int, ts: Seq<Tok>) -> bool {
    0 <= k && k + ts.len() <= toks.len() && forall|j: int|
        0 <= j < ts.len() ==> toks[k + j] == Ok::<Tok, ParseError>(#[trigger] ts[j])
}

/// A printable form renders as at least one token, and never starts with
/// a closer.
pub proof fn lemma_toks_of_first(v: Val)
    requires
        printable(v),
    ensures
        toks_of(v).len() >= 1,
        toks_of(v)[0] != Tok::Special(')'),
        toks_of(v)[0] != Tok::Special(']'),
        toks_of(v)[0] != Tok::Special('}'),
{
}

/// A printed atom classifies back to itself.
pub proof fn lemma_classify_atom(v: Val, t: Seq<char>)
    requires
        printable(v),
        v.is_atom(),
        toks_of(v) == seq![Tok::CharSeq(t)],
    ensures
        classify_text(t) == v,
{
    reveal_strlit("nil");
    reveal_strlit("true");
    reveal_strlit("false");
    assert(seq![Tok::CharSeq(t)][0] == Tok::CharSeq(t));
    assert(toks_of(v)[0] == Tok::CharSeq(t));
    match v {
        Val::Number(n) => {
            assert(toks_of(v)[0] == Tok::CharSeq(int_to_dec(n)));
            assert(t == int_to_dec(n));
            lemma_number_round_trip(n);
        },
        Val::Symbol(s) => {
            assert(toks_of(v)[0] == Tok::CharSeq(s));
            assert(t == s);
        },
        Val::Keyword(s) => {
            assert(toks_of(v)[0] == Tok::CharSeq(seq![':'] + s));
            assert(t == seq![':'] + s);
            assert(t[0] == ':');
            assert(!is_digit_char(':'));
            assert(!is_number_text(t)) by {
                assert(digits_part(t) == t);
                assert(!all_digits(t));
            }
            assert(t != "nil"@);
            assert(t != "true"@);
            assert(t != "false"@);
            assert(t.skip(1) =~= s);
        },
        Val::Nil => {
            assert(toks_of(v)[0] == Tok::CharSeq("nil"@));
            assert(t == "nil"@);
            assert(t[0] == 'n');
            assert(!is_number_text(t)) by {
                assert(digits_part(t) == t);
                assert(!is_digit_char('n'));
                assert(!all_digits(t));
            }
        },
        Val::True => {
            assert(toks_of(v)[0] == Tok::CharSeq("true"@));
            assert(t == "true"@);
            assert(t[0] == 't');
            assert(!is_number_text(t)) by {
                assert(digits_part(t) == t);
                assert(!is_digit_char('t'));
                assert(!all_digits(t));
            }
        },
        Val::False => {
            assert(toks_of(v)[0] == Tok::CharSeq("false"@));
            assert(t == "false"@);
            assert(t[0] == 'f');
            assert(!is_number_text(t)) by {
                assert(digits_part(t) == t);
                assert(!is_digit_char('f'));
                assert(!all_digits(t));
            }
        },
        _ => {},
    }
}

/// The reader turns the token rendering of a printable form back into the
/// form, ending on its last token.
pub proof fn lemma_parse_toks(toks: Seq<Result<Tok, ParseError>>, k: int, v: Val)
    requires
        printable(v),
        toks_match(toks, k, toks_of(v)),
    ensures
        parse_form_at(toks, k) == Ok::<(Val, int), ParseError>((v, k + toks_of(v).len() - 1)),
    decreases v, 2int, 0int,
{
    let ts = toks_of(v);
    assert(toks[k + 0] == Ok::<Tok, ParseError>(ts[0])) by {
        lemma_toks_of_first(v);
    }
    match v {
        Val::Number(_) => {
            lemma_classify_atom(v, match ts[0] {
                Tok::CharSeq(t) => t,
                _ => Seq::empty(),
            });
        },
        Val::Symbol(_) => {
            lemma_classify_atom(v, match ts[0] {
                Tok::CharSeq(t) => t,
                _ => Seq::empty(),
            });
        },
        Val::Keyword(_) => {
            lemma_classify_atom(v, match ts[0] {
                Tok::CharSeq(t) => t,
                _ => Seq::empty(),
            });
        },
        Val::Nil => {
            lemma_classify_atom(v, match ts[0] {
                Tok::CharSeq(t) => t,
                _ => Seq::empty(),
            });
        },
        Val::True => {
            lemma_classify_atom(v, match ts[0] {
                Tok::CharSeq(t) => t,
                _ => Seq::empty(),
            });
        },
        Val::False => {
            lemma_classify_atom(v, match ts[0] {
                Tok::CharSeq(t) => t,
                _ => Seq::empty(),
            });
        },
        Val::Text(_) => {},
        Val::List(l) => {
            assert(ts == seq![Tok::Special('(')] + flat_toks(l, 0) + seq![Tok::Special(')')]);
            assert(toks_match(toks, k + 1, flat_toks(l, 0) + seq![Tok::Special(')')])) by {
                assert forall|j: int| 0 <= j < flat_toks(l, 0).len() + 1 implies toks[k + 1 + j]
                    == Ok::<Tok, ParseError>((flat_toks(l, 0) + seq![Tok::Special(')')])[j]) by {
                    assert(ts[j + 1] == (flat_toks(l, 0) + seq![Tok::Special(')')])[j]);
                    assert(toks[k + (j + 1)] == Ok::<Tok, ParseError>(ts[j + 1]));
                }
            }
            lemma_parse_items_toks(toks, k + 1, l, 0, ')', ParseError::UnbalancedParens);
            assert(l.skip(0) =~= l);
        },
        Val::Vector(l) => {
            assert(ts == seq![Tok::Special('[')] + flat_toks(l, 0) + seq![Tok::Special(']')]);
            assert(toks_match(toks, k + 1, flat_toks(l, 0) + seq![Tok::Special(']')])) by {
                assert forall|j: int| 0 <= j < flat_toks(l, 0).len() + 1 implies toks[k + 1 + j]
                    == Ok::<Tok, ParseError>((flat_toks(l, 0) + seq![Tok::Special(']')])[j]) by {
                    assert(ts[j + 1] == (flat_toks(l, 0) + seq![Tok::Special(']')])[j]);
                    assert(toks[k + (j + 1)] == Ok::<Tok, ParseError>(ts[j + 1]));
                }
            }
            lemma_parse_items_toks(toks, k + 1, l, 0, ']', ParseError::UnbalancedSquareBrackets);
            assert(l.skip(0) =~= l);
        },
        Val::Table(es) => {
            assert(ts == seq![Tok::Special('{')] + flat_entries(es, 0) + seq![
                Tok::Special('}'),
            ]);
            assert(toks_match(toks, k + 1, flat_entries(es, 0) + seq![Tok::Special('}')])) by {
                assert forall|j: int| 0 <= j < flat_entries(es, 0).len() + 1 implies toks[k + 1
                    + j] == Ok::<Tok, ParseError>(
                    (flat_entries(es, 0) + seq![Tok::Special('}')])[j],
                ) by {
                    assert(ts[j + 1] == (flat_entries(es, 0) + seq![Tok::Special('}')])[j]);
                    assert(toks[k + (j + 1)] == Ok::<Tok, ParseError>(ts[j + 1]));
                }
            }
            lemma_parse_entries_toks(toks, k + 1, es, 0, Seq::empty());
            assert(Seq::<(Val, Val)>::empty() + es.skip(0) =~= es);
        },
        Val::Callable(_, _) => {},
    }
}

/// The element loop of the reader collects exactly the remaining
/// elements, ending on the closer.
pub proof fn lemma_parse_items_toks(
    toks: Seq<Result<Tok, ParseError>>,
    k: int,
    l: Seq<Val>,
    i: int,
    closer: char,
    unbalanced: ParseError,
)
    requires
        0 <= i <= l.len(),
        closer == ')' || closer == ']',
        forall|q: int| 0 <= q < l.len() ==> printable(#[trigger] l[q]),
        toks_match(toks, k, flat_toks(l, i) + seq![Tok::Special(closer)]),
    ensures
        parse_items(toks, k, closer, unbalanced) == Ok::<(Seq<Val>, int), ParseError>((
            l.skip(i),
            k + flat_toks(l, i).len(),
        )),
    decreases l, 1int, l.len() - i,
{
    let fl = flat_toks(l, i);
    if i == l.len() {
        assert(fl =~= Seq::<Tok>::empty());
        assert(toks[k + 0] == Ok::<Tok, ParseError>((fl + seq![Tok::Special(closer)])[0]));
        assert(l.skip(i) =~= Seq::<Val>::empty());
    } else {
        let n_i = toks_of(l[i]).len() as int;
        assert(fl == toks_of(l[i]) + flat_toks(l, i + 1));
        lemma_toks_of_first(l[i]);
        assert(toks[k + 0] == Ok::<Tok, ParseError>((fl + seq![Tok::Special(closer)])[0]));
        assert((fl + seq![Tok::Special(closer)])[0] == toks_of(l[i])[0]);
        assert(toks_of(l[i])[0] != Tok::Special(closer));
        assert(toks_match(toks, k, toks_of(l[i]))) by {
            assert forall|j: int| 0 <= j < n_i implies toks[k + j] == Ok::<Tok, ParseError>(
                toks_of(l[i])[j],
            ) by {
                assert((fl + seq![Tok::Special(closer)])[j] == toks_of(l[i])[j]);
                assert(toks[k + j] == Ok::<Tok, ParseError>(
                    (fl + seq![Tok::Special(closer)])[j],
                ));
            }
        }
        lemma_parse_toks(toks, k, l[i]);
        let j = k + n_i - 1;
        assert(toks_match(toks, k + n_i, flat_toks(l, i + 1) + seq![Tok::Special(closer)])) by {
            assert forall|q: int| 0 <= q < flat_toks(l, i + 1).len() + 1 implies toks[k + n_i
                + q] == Ok::<Tok, ParseError>(
                #[trigger] (flat_toks(l, i + 1) + seq![Tok::Special(closer)])[q],
            ) by {
                assert((fl + seq![Tok::Special(closer)])[n_i + q] == (flat_toks(l, i + 1)
                    + seq![Tok::Special(closer)])[q]);
                assert(toks[k + (n_i + q)] == Ok::<Tok, ParseError>(
                    (fl + seq![Tok::Special(closer)])[n_i + q],
                ));
            }
        }
        lemma_parse_items_toks(toks, k + n_i, l, i + 1, closer, unbalanced);
        assert(seq![l[i]] + l.skip(i + 1) =~= l.skip(i));
    }
}

/// The pair loop of the reader collects exactly the remaining pairs after
/// the pairs already read, ending on the `}`.
pub proof fn lemma_parse_entries_toks(
    toks: Seq<Result<Tok, ParseError>>,
    k: int,
    es: Seq<(Val, Val)>,
    i: int,
    acc: Seq<(Val, Val)>,
)
    requires
        0 <= i <= es.len(),
        forall|q: int|
            0 <= q < es.len() ==> (#[trigger] es[q]).0.is_atom() && printable(es[q].0)
                && printable(es[q].1),
        forall|k1: int, k2: int|
            0 <= k1 < k2 < es.len() ==> (#[trigger] es[k1]).0 != (#[trigger] es[k2]).0,
        forall|a: int, q: int|
            0 <= a < acc.len() && i <= q < es.len() ==> (#[trigger] acc[a]).0 != (
            #[trigger] es[q]).0,
        toks_match(toks, k, flat_entries(es, i) + seq![Tok::Special('}')]),
    ensures
        parse_entries(toks, k, acc) == Ok::<(Seq<(Val, Val)>, int), ParseError>((
            acc + es.skip(i),
            k + flat_entries(es, i).len(),
        )),
    decreases es, 1int, es.len() - i,
{
    let fl = flat_entries(es, i);
    if i == es.len() {
        assert(fl =~= Seq::<Tok>::empty());
        assert(toks[k + 0] == Ok::<Tok, ParseError>((fl + seq![Tok::Special('}')])[0]));
        assert(acc + es.skip(i) =~= acc);
    } else {
        let key = es[i].0;
        let value = es[i].1;
        let nk = toks_of(key).len() as int;
        let nv = toks_of(value).len() as int;
        assert(fl == toks_of(key) + toks_of(value) + flat_entries(es, i + 1));
        lemma_toks_of_first(key);
        lemma_toks_of_first(value);
        assert(toks[k + 0] == Ok::<Tok, ParseError>((fl + seq![Tok::Special('}')])[0]));
        assert((fl + seq![Tok::Special('}')])[0] == toks_of(key)[0]);
        assert(toks_match(toks, k, toks_of(key))) by {
            assert forall|j: int| 0 <= j < nk implies toks[k + j] == Ok::<Tok, ParseError>(
                toks_of(key)[j],
            ) by {
                assert((fl + seq![Tok::Special('}')])[j] == toks_of(key)[j]);
                assert(toks[k + j] == Ok::<Tok, ParseError>((fl + seq![Tok::Special('}')])[j]));
            }
        }
        lemma_parse_toks(toks, k, key);
        let j = k + nk - 1;
        // the value's first token is under the cursor next, and is not `}`
        assert(toks[k + nk] == Ok::<Tok, ParseError>((fl + seq![Tok::Special('}')])[nk]));
        assert((fl + seq![Tok::Special('}')])[nk] == toks_of(value)[0]);
        assert(toks_match(toks, k + nk, toks_of(value))) by {
            assert forall|q: int| 0 <= q < nv implies toks[k + nk + q] == Ok::<
                Tok,
                ParseError,
            >(toks_of(value)[q]) by {
                assert((fl + seq![Tok::Special('}')])[nk + q] == toks_of(value)[q]);
                assert(toks[k + (nk + q)] == Ok::<Tok, ParseError>(
                    (fl + seq![Tok::Special('}')])[nk + q],
                ));
            }
        }
        lemma_parse_toks(toks, k + nk, value);
        assert(toks_match(toks, k + nk + nv, flat_entries(es, i + 1) + seq![
            Tok::Special('}'),
        ])) by {
            assert forall|q: int| 0 <= q < flat_entries(es, i + 1).len() + 1 implies toks[k + nk
                + nv + q] == Ok::<Tok, ParseError>(
                #[trigger] (flat_entries(es, i + 1) + seq![Tok::Special('}')])[q],
            ) by {
                assert((fl + seq![Tok::Special('}')])[nk + nv + q] == (flat_entries(es, i + 1)
                    + seq![Tok::Special('}')])[q]);
                assert(toks[k + (nk + nv + q)] == Ok::<Tok, ParseError>(
                    (fl + seq![Tok::Special('}')])[nk + nv + q],
                ));
            }
        }
        assert(table_insert(acc, key, value) == acc.push((key, value))) by {
            assert forall|a: int| 0 <= a < acc.len() implies (#[trigger] acc[a]).0 != key by {
                assert(acc[a].0 != es[i].0);
            }
            lemma_table_insert_missing(acc, key, value);
        }
        assert forall|a: int, q: int|
            0 <= a < acc.push((key, value)).len() && i + 1 <= q < es.len() implies (
        #[trigger] acc.push((key, value))[a]).0 != (#[trigger] es[q]).0 by {
            if a < acc.len() {
                assert(acc.push((key, value))[a] == acc[a]);
            } else {
                assert(acc.push((key, value))[a] == (key, value));
                assert(es[i].0 != es[q].0);
            }
        }
        lemma_parse_entries_toks(toks, k + nk + nv, es, i + 1, acc.push((key, value)));
        assert(acc.push((key, value)) + es.skip(i + 1) =~= acc + es.skip(i));
    }
}


/// The lexer outputs of a token sequence.
pub open spec fn oks(ts: Seq<Tok>) -> Seq<Result<Tok, ParseError>>
    decreases ts.len(),
{
    if ts.len() == 0 {
        Seq::empty()
    } else {
        seq![Ok(ts[0])] + oks(ts.skip(1))
    }
}

/// `oks` element by element.
pub proof fn lemma_oks_index(ts: Seq<Tok>)
    ensures
        oks(ts).len() == ts.len(),
        forall|j: int| 0 <= j < ts.len() ==> #[trigger] oks(ts)[j] == Ok::<Tok, ParseError>(ts[j]),
    decreases ts.len(),
{
    if ts.len() > 0 {
        lemma_oks_index(ts.skip(1));
        assert forall|j: int| 0 <= j < ts.len() implies #[trigger] oks(ts)[j] == Ok::<
            Tok,
            ParseError,
        >(ts[j]) by {
            if j > 0 {
                assert(ts.skip(1)[j - 1] == ts[j]);
            }
        }
    }
}

/// True when the characters of `t` stand in `s` from position `i`.
pub open spec fn chars_match(s: Seq<char>, i: int, t: Seq<char>) -> bool {
    0 <= i && i + t.len() <= s.len() && forall|j: int|
        0 <= j < t.len() ==> s[i + j] == #[trigger] t[j]
}

/// True when the input ends or holds a token-ending character at `j`.
pub open spec fn delimited(s: Seq<char>, j: int) -> bool {
    j == s.len() || (0 <= j < s.len() && is_stop_char(s[j]))
}

/// The run of non-stop characters from `i` ends exactly at the first stop.
pub proof fn lemma_run_end_at(s: Seq<char>, i: int, j: int)
    requires
        0 <= i <= j <= s.len(),
        forall|k: int| i <= k < j ==> !is_stop_char(#[trigger] s[k]),
        delimited(s, j),
    ensures
        run_end(s, i) == j,
    decreases j - i,
{
    if i < j {
        lemma_run_end_at(s, i + 1, j);
    }
}

/// A separator character never changes what is lexed after it.
pub proof fn lemma_lex_all_sep(s: Seq<char>, j: int)
    requires
        0 <= j < s.len(),
        is_sep_char(s[j]),
    ensures
        lex_all(s, j) == lex_all(s, j + 1),
{
    assert(skip_sep(s, j) == skip_sep(s, j + 1));
    assert(next_token_at(s, j) == next_token_at(s, j + 1));
    match next_token_at(s, j) {
        LexStep::End => {
            assert(lex_all(s, j) =~= lex_all(s, j + 1));
        },
        LexStep::Fail(_) => {
            assert(lex_all(s, j) =~= lex_all(s, j + 1));
        },
        LexStep::Step(t, jj) => {
            lemma_next_token_at(s, j);
            lemma_next_token_at(s, j + 1);
            assert(lex_all(s, j) =~= lex_all(s, j + 1));
        },
    }
}

/// A character-sequence token is lexed whole when a delimiter follows.
pub proof fn lemma_lex_charseq(s: Seq<char>, i: int, t: Seq<char>)
    requires
        charseq_text(t),
        chars_match(s, i, t),
        delimited(s, i + t.len()),
    ensures
        next_token_at(s, i) == LexStep::Step(Tok::CharSeq(t), i + t.len()),
{
    assert(s[i + 0] == t[0]);
    assert(!is_stop_char(t[0]));
    assert(skip_sep(s, i) == i);
    assert forall|k: int| i + 1 <= k < i + t.len() implies !is_stop_char(#[trigger] s[k]) by {
        assert(s[i + (k - i)] == t[k - i]);
    }
    lemma_run_end_at(s, i + 1, i + t.len());
    assert(s.subrange(i, i + t.len() as int) =~= t);
}

/// Scanning an escaped string body from `bi` on yields the body back and
/// stops just past the closing quote.
pub proof fn lemma_scan_escaped(s: Seq<char>, i: int, body: Seq<char>, bi: int)
    requires
        0 <= bi <= body.len(),
        0 <= i,
        i + escape_from(body, bi).len() < s.len(),
        forall|j: int|
            0 <= j < escape_from(body, bi).len() ==> s[i + j] == #[trigger] escape_from(
                body,
                bi,
            )[j],
        s[i + escape_from(body, bi).len()] == '"',
    ensures
        scan_string(s, i) == Ok::<(Seq<char>, int), ParseError>((
            body.skip(bi),
            i + escape_from(body, bi).len() + 1,
        )),
    decreases body.len() - bi,
{
    let esc = escape_from(body, bi);
    if bi == body.len() {
        assert(esc.len() == 0);
        assert(s[i] == '"');
        assert(body.skip(bi) =~= Seq::<char>::empty());
    } else {
        let c = body[bi];
        let e0 = esc_char(c);
        let rest = escape_from(body, bi + 1);
        assert(esc == e0 + rest);
        assert forall|j: int| 0 <= j < rest.len() implies s[i + e0.len() + j] == #[trigger] rest[j] by {
            assert(esc[e0.len() + j] == rest[j]);
            assert(s[i + (e0.len() + j)] == esc[e0.len() + j]);
        }
        assert(s[i + e0.len() + rest.len() as int] == '"') by {
            assert(i + e0.len() + rest.len() == i + esc.len());
        }
        lemma_scan_escaped(s, i + e0.len() as int, body, bi + 1);
        assert(s[i + 0] == esc[0]);
        if c == '\\' || c == '"' || c == '\n' {
            assert(e0.len() == 2);
            assert(s[i + 1] == esc[1]);
            assert(s[i] == '\\');
            assert(esc[1] == e0[1]);
            assert(seq![unescape(s[i + 1])] + body.skip(bi + 1) =~= body.skip(bi));
        } else {
            assert(e0.len() == 1);
            assert(s[i] == c);
            assert(c != '"' && c != '\\');
            assert(seq![s[i]] + body.skip(bi + 1) =~= body.skip(bi));
        }
    }
}

/// Every decimal rendering is one character-sequence token's text.
pub proof fn lemma_number_charseq(n: int)
    ensures
        charseq_text(int_to_dec(n)),
{
    if n < 0 {
        lemma_dec_digits(-n);
        let t = int_to_dec(n);
        assert forall|k: int| 0 <= k < t.len() implies !is_stop_char(#[trigger] t[k]) by {
            if k > 0 {
                assert(t[k] == dec_digits(-n)[k - 1]);
                assert(is_digit_char(t[k]));
            }
        }
        assert(t[0] == '-');
    } else {
        lemma_dec_digits(n);
        let t = int_to_dec(n);
        assert forall|k: int| 0 <= k < t.len() implies !is_stop_char(#[trigger] t[k]) by {
            assert(is_digit_char(t[k]));
        }
        assert(is_digit_char(t[0]));
    }
}

/// Lexing the readable rendering of a printable form yields its tokens
/// and goes on after them, whenever a delimiter follows the rendering.
pub proof fn lemma_lex_print(s: Seq<char>, i: int, v: Val)
    requires
        printable(v),
        chars_match(s, i, print_val(v, true)),
        delimited(s, i + print_val(v, true).len()),
    ensures
        lex_all(s, i) == oks(toks_of(v)) + lex_all(s, i + print_val(v, true).len()),
    decreases v, 2int, 0int,
{
    let p = print_val(v, true);
    let end = i + p.len();
    match v {
        Val::Number(n) => {
            lemma_number_charseq(n);
            lemma_lex_charseq(s, i, p);
            lemma_next_token_at(s, i);
            lemma_oks_index(toks_of(v));
            assert(lex_all(s, i) =~= oks(toks_of(v)) + lex_all(s, end));
        },
        Val::Symbol(t) => {
            lemma_lex_charseq(s, i, p);
            lemma_next_token_at(s, i);
            lemma_oks_index(toks_of(v));
            assert(lex_all(s, i) =~= oks(toks_of(v)) + lex_all(s, end));
        },
        Val::Keyword(t) => {
            assert(charseq_text(p)) by {
                assert(p == seq![':'] + t);
                assert(p[0] == ':');
                assert forall|k: int| 0 <= k < p.len() implies !is_stop_char(#[trigger] p[k]) by {
                    if k > 0 {
                        assert(p[k] == t[k - 1]);
                    }
                }
            }
            lemma_lex_charseq(s, i, p);
            lemma_next_token_at(s, i);
            assert(p =~= seq![':'] + t);
            lemma_oks_index(toks_of(v));
            assert(lex_all(s, i) =~= oks(toks_of(v)) + lex_all(s, end));
        },
        Val::Nil => {
            reveal_strlit("nil");
            assert(charseq_text(p));
            lemma_lex_charseq(s, i, p);
            lemma_next_token_at(s, i);
            lemma_oks_index(toks_of(v));
            assert(lex_all(s, i) =~= oks(toks_of(v)) + lex_all(s, end));
        },
        Val::True => {
            reveal_strlit("true");
            assert(charseq_text(p));
            lemma_lex_charseq(s, i, p);
            lemma_next_token_at(s, i);
            lemma_oks_index(toks_of(v));
            assert(lex_all(s, i) =~= oks(toks_of(v)) + lex_all(s, end));
        },
        Val::False => {
            reveal_strlit("false");
            assert(charseq_text(p));
            lemma_lex_charseq(s, i, p);
            lemma_next_token_at(s, i);
            lemma_oks_index(toks_of(v));
            assert(lex_all(s, i) =~= oks(toks_of(v)) + lex_all(s, end));
        },
        Val::Text(body) => {
            let esc = escape_from(body, 0);
            assert(p == seq!['"'] + esc + seq!['"']);
            assert(s[i + 0] == p[0]);
            assert(p[0] == '"');
            assert(skip_sep(s, i) == i);
            assert forall|j: int| 0 <= j < esc.len() implies s[i + 1 + j] == #[trigger] esc[j] by {
                assert(p[1 + j] == esc[j]);
                assert(s[i + (1 + j)] == p[1 + j]);
            }
            assert(s[i + 1 + esc.len() as int] == '"') by {
                assert(p[1 + esc.len() as int] == '"');
                assert(s[i + (1 + esc.len() as int)] == p[1 + esc.len() as int]);
            }
            lemma_scan_escaped(s, i + 1, body, 0);
            assert(body.skip(0) =~= body);
            assert(next_token_at(s, i) == LexStep::Step(Tok::Text(body), end));
            lemma_next_token_at(s, i);
            lemma_oks_index(toks_of(v));
            assert(lex_all(s, i) =~= oks(toks_of(v)) + lex_all(s, end));
        },
        Val::List(l) => {
            lemma_lex_compound(s, i, v);
        },
        Val::Vector(l) => {
            lemma_lex_compound(s, i, v);
        },
        Val::Table(es) => {
            lemma_lex_compound(s, i, v);
        },
        Val::Callable(_, _) => {},
    }
}

/// The compound cases of [`lemma_lex_print`]: an opener token, the joined
/// children, a closer token.
proof fn lemma_lex_compound(s: Seq<char>, i: int, v: Val)
    requires
        printable(v),
        v is List || v is Vector || v is Table,
        chars_match(s, i, print_val(v, true)),
        delimited(s, i + print_val(v, true).len()),
    ensures
        lex_all(s, i) == oks(toks_of(v)) + lex_all(s, i + print_val(v, true).len()),
    decreases v, 1int, 0int,
{
    let p = print_val(v, true);
    let end = i + p.len();
    let (op, cl, inner, flat) = match v {
        Val::List(l) => ('(', ')', join_print(l, 0, true), flat_toks(l, 0)),
        Val::Vector(l) => ('[', ']', join_print(l, 0, true), flat_toks(l, 0)),
        Val::Table(es) => ('{', '}', join_entries(es, 0, true), flat_entries(es, 0)),
        _ => (' ', ' ', Seq::empty(), Seq::empty()),
    };
    assert(p == seq![op] + inner + seq![cl]);
    assert(s[i + 0] == p[0]);
    assert(p[0] == op);
    assert(is_special_char(op));
    assert(skip_sep(s, i) == i);
    assert(op != '~');
    assert(next_token_at(s, i) == LexStep::Step(Tok::Special(op), i + 1));
    lemma_next_token_at(s, i);
    // the joined children
    assert forall|j: int| 0 <= j < inner.len() implies s[i + 1 + j] == #[trigger] inner[j] by {
        assert(p[1 + j] == inner[j]);
        assert(s[i + (1 + j)] == p[1 + j]);
    }
    let after = i + 1 + inner.len() as int;
    assert(s[after] == cl) by {
        assert(p[1 + inner.len() as int] == cl);
        assert(s[i + (1 + inner.len() as int)] == p[1 + inner.len() as int]);
    }
    assert(is_stop_char(cl));
    match v {
        Val::List(l) => {
            lemma_lex_join(s, i + 1, l, 0);
        },
        Val::Vector(l) => {
            lemma_lex_join(s, i + 1, l, 0);
        },
        Val::Table(es) => {
            lemma_lex_entries(s, i + 1, es, 0);
        },
        _ => {},
    }
    // the closer
    assert(skip_sep(s, after) == after);
    assert(next_token_at(s, after) == LexStep::Step(Tok::Special(cl), after + 1));
    lemma_next_token_at(s, after);
    assert(after + 1 == end);
    assert(lex_all(s, after) == seq![Ok::<Tok, ParseError>(Tok::Special(cl))] + lex_all(s, end));
    // glue the three parts
    assert(toks_of(v) == seq![Tok::Special(op)] + flat + seq![Tok::Special(cl)]);
    lemma_oks_index(toks_of(v));
    lemma_oks_index(flat);
    assert(lex_all(s, i) =~= oks(toks_of(v)) + lex_all(s, end)) by {
        assert(lex_all(s, i) == seq![Ok::<Tok, ParseError>(Tok::Special(op))] + lex_all(
            s,
            i + 1,
        ));
        assert(lex_all(s, i + 1) == oks(flat) + lex_all(s, after));
    }
}

/// Lexing the space-joined renderings of the elements from `idx` on.
proof fn lemma_lex_join(s: Seq<char>, i: int, l: Seq<Val>, idx: int)
    requires
        0 <= idx <= l.len(),
        forall|k: int| 0 <= k < l.len() ==> printable(#[trigger] l[k]),
        chars_match(s, i, join_print(l, idx, true)),
        i + join_print(l, idx, true).len() < s.len(),
        is_stop_char(s[i + join_print(l, idx, true).len()]),
    ensures
        lex_all(s, i) == oks(flat_toks(l, idx)) + lex_all(s, i + join_print(l, idx, true).len()),
    decreases l, 1int, l.len() - idx,
{
    let jn = join_print(l, idx, true);
    if idx >= l.len() {
        assert(oks(flat_toks(l, idx)) =~= Seq::<Result<Tok, ParseError>>::empty());
        assert(lex_all(s, i) =~= oks(flat_toks(l, idx)) + lex_all(s, i));
    } else if idx + 1 == l.len() {
        let pe = print_val(l[idx], true);
        assert(jn == pe);
        lemma_lex_print(s, i, l[idx]);
        assert(flat_toks(l, idx) =~= toks_of(l[idx]) + flat_toks(l, idx + 1));
        assert(flat_toks(l, idx + 1) =~= Seq::<Tok>::empty());
        assert(flat_toks(l, idx) =~= toks_of(l[idx]));
    } else {
        let pe = print_val(l[idx], true);
        let rest = join_print(l, idx + 1, true);
        assert(jn == pe + seq![' '] + rest);
        assert forall|j: int| 0 <= j < pe.len() implies s[i + j] == #[trigger] pe[j] by {
            assert(jn[j] == pe[j]);
        }
        assert(s[i + pe.len() as int] == ' ') by {
            assert(jn[pe.len() as int] == ' ');
        }
        assert(is_stop_char(' '));
        lemma_lex_print(s, i, l[idx]);
        let mid = i + pe.len() as int;
        lemma_lex_all_sep(s, mid);
        assert forall|j: int| 0 <= j < rest.len() implies s[mid + 1 + j] == #[trigger] rest[j] by {
            assert(jn[pe.len() + 1 + j] == rest[j]);
            assert(s[i + (pe.len() + 1 + j)] == jn[pe.len() + 1 + j]);
        }
        assert(s[mid + 1 + rest.len() as int] == s[i + jn.len() as int]);
        lemma_lex_join(s, mid + 1, l, idx + 1);
        lemma_oks_index(toks_of(l[idx]));
        lemma_oks_index(flat_toks(l, idx + 1));
        lemma_oks_index(flat_toks(l, idx));
        assert(flat_toks(l, idx) == toks_of(l[idx]) + flat_toks(l, idx + 1));
        assert(lex_all(s, i) =~= oks(flat_toks(l, idx)) + lex_all(s, i + jn.len())) by {
            assert(lex_all(s, i) == oks(toks_of(l[idx])) + lex_all(s, mid));
            assert(lex_all(s, mid) == lex_all(s, mid + 1));
            assert(lex_all(s, mid + 1) == oks(flat_toks(l, idx + 1)) + lex_all(
                s,
                mid + 1 + rest.len(),
            ));
            assert(mid + 1 + rest.len() == i + jn.len());
            assert(oks(flat_toks(l, idx)) =~= oks(toks_of(l[idx])) + oks(flat_toks(l, idx + 1)));
        }
    }
}

/// Lexing the space-joined `key value` renderings of the entries from
/// `idx` on.
proof fn lemma_lex_entries(s: Seq<char>, i: int, es: Seq<(Val, Val)>, idx: int)
    requires
        0 <= idx <= es.len(),
        forall|k: int|
            0 <= k < es.len() ==> (#[trigger] es[k]).0.is_atom() && printable(es[k].0)
                && printable(es[k].1),
        chars_match(s, i, join_entries(es, idx, true)),
        i + join_entries(es, idx, true).len() < s.len(),
        is_stop_char(s[i + join_entries(es, idx, true).len()]),
    ensures
        lex_all(s, i) == oks(flat_entries(es, idx)) + lex_all(
            s,
            i + join_entries(es, idx, true).len(),
        ),
    decreases es, 1int, es.len() - idx,
{
    let jn = join_entries(es, idx, true);
    if idx >= es.len() {
        assert(oks(flat_entries(es, idx)) =~= Seq::<Result<Tok, ParseError>>::empty());
        assert(lex_all(s, i) =~= oks(flat_entries(es, idx)) + lex_all(s, i));
    } else {
        let pk = print_val(es[idx].0, true);
        let pv = print_val(es[idx].1, true);
        let last = idx + 1 == es.len();
        let rest = join_entries(es, idx + 1, true);
        if last {
            assert(jn == pk + seq![' '] + pv);
        } else {
            assert(jn == pk + seq![' '] + pv + seq![' '] + rest);
        }
        // the key
        assert forall|j: int| 0 <= j < pk.len() implies s[i + j] == #[trigger] pk[j] by {
            assert(jn[j] == pk[j]);
        }
        assert(s[i + pk.len() as int] == ' ') by {
            assert(jn[pk.len() as int] == ' ');
        }
        assert(is_stop_char(' '));
        lemma_lex_print(s, i, es[idx].0);
        let mid = i + pk.len() as int;
        lemma_lex_all_sep(s, mid);
        // the value
        assert forall|j: int| 0 <= j < pv.len() implies s[mid + 1 + j] == #[trigger] pv[j] by {
            assert(jn[pk.len() + 1 + j] == pv[j]);
            assert(s[i + (pk.len() + 1 + j)] == jn[pk.len() + 1 + j]);
        }
        let vend = mid + 1 + pv.len() as int;
        if last {
            assert(vend == i + jn.len());
        } else {
            assert(s[vend] == ' ') by {
                assert(jn[pk.len() + 1 + pv.len() as int] == ' ');
                assert(s[i + (pk.len() + 1 + pv.len() as int)] == jn[pk.len() + 1
                    + pv.len() as int]);
            }
        }
        lemma_lex_print(s, mid + 1, es[idx].1);
        lemma_oks_index(toks_of(es[idx].0));
        lemma_oks_index(toks_of(es[idx].1));
        lemma_oks_index(flat_entries(es, idx + 1));
        lemma_oks_index(flat_entries(es, idx));
        assert(flat_entries(es, idx) == toks_of(es[idx].0) + toks_of(es[idx].1) + flat_entries(
            es,
            idx + 1,
        ));
        if last {
            assert(flat_entries(es, idx + 1) =~= Seq::<Tok>::empty());
            assert(lex_all(s, i) =~= oks(flat_entries(es, idx)) + lex_all(s, i + jn.len())) by {
                assert(lex_all(s, i) == oks(toks_of(es[idx].0)) + lex_all(s, mid));
                assert(lex_all(s, mid) == lex_all(s, mid + 1));
                assert(lex_all(s, mid + 1) == oks(toks_of(es[idx].1)) + lex_all(s, vend));
                assert(oks(flat_entries(es, idx)) =~= oks(toks_of(es[idx].0)) + oks(
                    toks_of(es[idx].1),
                ));
            }
        } else {
            lemma_lex_all_sep(s, vend);
            assert forall|j: int| 0 <= j < rest.len() implies s[vend + 1 + j] == #[trigger] rest[j] by {
                assert(jn[pk.len() + 1 + pv.len() + 1 + j] == rest[j]);
                assert(s[i + (pk.len() + 1 + pv.len() + 1 + j)] == jn[pk.len() + 1 + pv.len() + 1
                    + j]);
            }
            assert(s[vend + 1 + rest.len() as int] == s[i + jn.len() as int]);
            lemma_lex_entries(s, vend + 1, es, idx + 1);
            assert(lex_all(s, i) =~= oks(flat_entries(es, idx)) + lex_all(s, i + jn.len())) by {
                assert(lex_all(s, i) == oks(toks_of(es[idx].0)) + lex_all(s, mid));
                assert(lex_all(s, mid) == lex_all(s, mid + 1));
                assert(lex_all(s, mid + 1) == oks(toks_of(es[idx].1)) + lex_all(s, vend));
                assert(lex_all(s, vend) == lex_all(s, vend + 1));
                assert(lex_all(s, vend + 1) == oks(flat_entries(es, idx + 1)) + lex_all(
                    s,
                    vend + 1 + rest.len(),
                ));
                assert(vend + 1 + rest.len() == i + jn.len());
                assert(oks(flat_entries(es, idx)) =~= oks(toks_of(es[idx].0)) + oks(
                    toks_of(es[idx].1),
                ) + oks(flat_entries(es, idx + 1)));
            }
        }
    }
}

/// The round trip: reading back the readable rendering of any printable
/// form reproduces the form exactly.
pub proof fn lemma_read_back(v: Val)
    requires
        printable(v),
    ensures
        parse_input(print_val(v, true)) == Ok::<Val, ParseError>(v),
{
    let p = print_val(v, true);
    lemma_lex_print(p, 0, v);
    assert(skip_sep(p, p.len() as int) == p.len());
    assert(next_token_at(p, p.len() as int) == LexStep::End);
    assert(lex_all(p, p.len() as int) =~= Seq::<Result<Tok, ParseError>>::empty());
    assert(lex_all(p, 0) =~= oks(toks_of(v)));
    lemma_oks_index(toks_of(v));
    assert(toks_match(lex_all(p, 0), 0, toks_of(v)));
    lemma_parse_toks(lex_all(p, 0), 0, v);
}


/// True of a token the lexer can emit.
pub open spec fn tok_wf(t: Tok) -> bool {
    match t {
        Tok::CharSeq(s) => charseq_text(s),
        _ => true,
    }
}

/// True when every successful token of the stream is one the lexer can
/// emit.
pub open spec fn toks_wf(toks: Seq<Result<Tok, ParseError>>) -> bool {
    forall|k: int|
        0 <= k < toks.len() ==> match #[trigger] toks[k] {
            Ok(t) => tok_wf(t),
            Err(_) => true,
        }
}

/// No character before the end of a run stops it.
proof fn lemma_run_end_chars(s: Seq<char>, i: int)
    requires
        0 <= i <= s.len(),
    ensures
        forall|k: int| i <= k < run_end(s, i) ==> !is_stop_char(#[trigger] s[k]),
    decreases s.len() - i,
{
    crate::reader::lemma_run_end(s, i);
    if i < s.len() && !is_stop_char(s[i]) {
        lemma_run_end_chars(s, i + 1);
    }
}

/// Every token the lexer emits is well formed.
pub proof fn lemma_lex_all_wf(s: Seq<char>, i: int)
    requires
        0 <= i <= s.len(),
    ensures
        toks_wf(lex_all(s, i)),
    decreases s.len() - i,
{
    crate::reader::lemma_skip_sep(s, i);
    lemma_next_token_at(s, i);
    match next_token_at(s, i) {
        LexStep::End => {},
        LexStep::Fail(_) => {},
        LexStep::Step(t, j) => {
            let j0 = skip_sep(s, i);
            assert(tok_wf(t)) by {
                match t {
                    Tok::CharSeq(txt) => {
                        let e = run_end(s, j0 + 1);
                        crate::reader::lemma_run_end(s, j0 + 1);
                        lemma_run_end_chars(s, j0 + 1);
                        assert(txt == s.subrange(j0, e));
                        assert(txt[0] == s[j0]);
                        assert(!is_sep_char(s[j0]));
                        assert(!is_special_char(s[j0]));
                        assert forall|k: int| 0 <= k < txt.len() implies !is_stop_char(
                            #[trigger] txt[k],
                        ) by {
                            assert(txt[k] == s[j0 + k]);
                        }
                    },
                    _ => {},
                }
            }
            lemma_lex_all_wf(s, j);
            assert forall|k: int| 0 <= k < lex_all(s, i).len() implies match #[trigger] lex_all(
                s,
                i,
            )[k] {
                Ok(tk) => tok_wf(tk),
                Err(_) => true,
            } by {
                if k > 0 {
                    assert(lex_all(s, i)[k] == lex_all(s, j)[k - 1]);
                }
            }
        },
    }
}

/// True of a map entry the reader can build.
pub open spec fn entry_ok(p: (Val, Val)) -> bool {
    p.0.is_atom() && printable(p.0) && printable(p.1)
}

/// True when a key already stands in the pairs.
pub open spec fn has_key(pairs: Seq<(Val, Val)>, key: Val) -> bool {
    exists|q: int| 0 <= q < pairs.len() && (#[trigger] pairs[q]).0 == key
}

/// True of the pair sequences the reader can build: well-formed entries
/// with pairwise distinct keys.
pub open spec fn entries_ok(pairs: Seq<(Val, Val)>) -> bool {
    (forall|q: int| 0 <= q < pairs.len() ==> entry_ok(#[trigger] pairs[q])) && (forall|
        q1: int,
        q2: int,
    |
        0 <= q1 < q2 < pairs.len() ==> (#[trigger] pairs[q1]).0 != (#[trigger] pairs[q2]).0)
}

/// Inserting a well-formed pair keeps the entries well formed, and adds no
/// key other than the one inserted.
pub proof fn lemma_table_insert_ok(pairs: Seq<(Val, Val)>, key: Val, value: Val)
    requires
        entries_ok(pairs),
        key.is_atom(),
        printable(key),
        printable(value),
    ensures
        entries_ok(table_insert(pairs, key, value)),
        forall|j: int|
            0 <= j < table_insert(pairs, key, value).len() ==> (#[trigger] table_insert(
                pairs,
                key,
                value,
            )[j]).0 == key || has_key(pairs, table_insert(pairs, key, value)[j].0),
    decreases pairs.len(),
{
    let out = table_insert(pairs, key, value);
    if pairs.len() == 0 {
        assert(out =~= seq![(key, value)]);
    } else if pairs[0].0 == key {
        assert(out == seq![(key, value)] + pairs.skip(1));
        assert forall|j: int| 0 <= j < out.len() implies entry_ok(#[trigger] out[j]) && (out[j].0
            == key || has_key(pairs, out[j].0)) by {
            if j > 0 {
                assert(out[j] == pairs.skip(1)[j - 1]);
                assert(pairs.skip(1)[j - 1] == pairs[j]);
            }
        }
        assert forall|q1: int, q2: int| 0 <= q1 < q2 < out.len() implies (#[trigger] out[q1]).0
            != (#[trigger] out[q2]).0 by {
            if q1 > 0 {
                assert(out[q1] == pairs[q1]);
            }
            assert(out[q2] == pairs[q2]);
        }
    } else {
        assert(entries_ok(pairs.skip(1))) by {
            assert(forall|q: int|
                0 <= q < pairs.skip(1).len() ==> #[trigger] pairs.skip(1)[q] == pairs[q + 1]);
        }
        lemma_table_insert_ok(pairs.skip(1), key, value);
        let rec = table_insert(pairs.skip(1), key, value);
        assert(out == seq![pairs[0]] + rec);
        assert forall|j: int| 0 <= j < out.len() implies entry_ok(#[trigger] out[j]) && (out[j].0
            == key || has_key(pairs, out[j].0)) by {
            if j == 0 {
                assert(out[0] == pairs[0]);
                assert(has_key(pairs, pairs[0].0));
            } else {
                assert(out[j] == rec[j - 1]);
                if rec[j - 1].0 != key {
                    assert(has_key(pairs.skip(1), rec[j - 1].0));
                    let q = choose|q: int|
                        0 <= q < pairs.skip(1).len() && (#[trigger] pairs.skip(1)[q]).0 == rec[j
                            - 1].0;
                    assert(pairs.skip(1)[q] == pairs[q + 1]);
                    assert(has_key(pairs, rec[j - 1].0));
                }
            }
        }
        assert forall|q1: int, q2: int| 0 <= q1 < q2 < out.len() implies (#[trigger] out[q1]).0
            != (#[trigger] out[q2]).0 by {
            if q1 == 0 {
                assert(out[0] == pairs[0]);
                assert(out[q2] == rec[q2 - 1]);
                if rec[q2 - 1].0 == key {
                } else {
                    let q = choose|q: int|
                        0 <= q < pairs.skip(1).len() && (#[trigger] pairs.skip(1)[q]).0 == rec[q2
                            - 1].0;
                    assert(pairs.skip(1)[q] == pairs[q + 1]);
                }
            } else {
                assert(out[q1] == rec[q1 - 1]);
                assert(out[q2] == rec[q2 - 1]);
            }
        }
    }
}

/// The name a reader macro desugars to is a printable symbol.
proof fn lemma_macro_symbol(name: Seq<char>)
    requires
        name == "quote"@ || name == "quasiquote"@ || name == "unquote"@ || name
            == "splice-unquote"@ || name == "deref"@ || name == "with-meta"@,
    ensures
        printable(Val::Symbol(name)),
{
    reveal_strlit("quote");
    reveal_strlit("quasiquote");
    reveal_strlit("unquote");
    reveal_strlit("splice-unquote");
    reveal_strlit("deref");
    reveal_strlit("with-meta");
    reveal_strlit("nil");
    reveal_strlit("true");
    reveal_strlit("false");
    assert(!is_number_text(name)) by {
        assert(!is_digit_char(name[0]));
        assert(name[0] != '-');
        assert(digits_part(name) == name);
    }
}

/// What a character-sequence token classifies as is printable.
proof fn lemma_classify_printable(t: Seq<char>)
    requires
        charseq_text(t),
    ensures
        printable(classify_text(t)),
{
    reveal_strlit("nil");
    reveal_strlit("true");
    reveal_strlit("false");
    if is_number_text(t) {
        let digs = digits_part(t);
        assert(all_digits(digs));
        crate::numbers::lemma_digits_val_nonneg(digs);
    } else if t == "nil"@ || t == "true"@ || t == "false"@ {
    } else if t.len() > 0 && t[0] == ':' {
        assert forall|k: int| 0 <= k < t.skip(1).len() implies !is_stop_char(
            #[trigger] t.skip(1)[k],
        ) by {
            assert(t.skip(1)[k] == t[k + 1]);
        }
    } else {
    }
}

/// Every form the reader yields is printable, so the round trip applies
/// to everything it can produce.
pub proof fn lemma_parse_printable(toks: Seq<Result<Tok, ParseError>>, k: int)
    requires
        0 <= k,
        toks_wf(toks),
    ensures
        match parse_form_at(toks, k) {
            Ok((v, _)) => printable(v),
            Err(_) => true,
        },
    decreases toks.len() - k, 1int,
{
    if k < toks.len() {
        match toks[k] {
            Err(_) => {},
            Ok(t) => match t {
                Tok::Special(c) => {
                    if c == '[' || c == '(' {
                        let closer = if c == '[' {
                            ']'
                        } else {
                            ')'
                        };
                        let uerr = if c == '[' {
                            ParseError::UnbalancedSquareBrackets
                        } else {
                            ParseError::UnbalancedParens
                        };
                        lemma_parse_items_printable(toks, k + 1, closer, uerr);
                    } else if c == '{' {
                        lemma_parse_entries_printable(toks, k + 1, Seq::empty());
                    } else if c == '\'' {
                        lemma_parse_wrap_printable(toks, k, "quote"@);
                    } else if c == '`' {
                        lemma_parse_wrap_printable(toks, k, "quasiquote"@);
                    } else if c == '~' {
                        lemma_parse_wrap_printable(toks, k, "unquote"@);
                    } else if c == '@' {
                        lemma_parse_wrap_printable(toks, k, "deref"@);
                    } else if c == '^' {
                        lemma_parse_meta_printable(toks, k);
                    }
                },
                Tok::TwoChar => {
                    lemma_parse_wrap_printable(toks, k, "splice-unquote"@);
                },
                Tok::Note(_) => {
                    lemma_parse_printable(toks, k + 1);
                },
                Tok::Text(_) => {},
                Tok::CharSeq(txt) => {
                    lemma_classify_printable(txt);
                },
            },
        }
    }
}

proof fn lemma_parse_wrap_printable(toks: Seq<Result<Tok, ParseError>>, k: int, name: Seq<char>)
    requires
        0 <= k < toks.len(),
        toks_wf(toks),
        name == "quote"@ || name == "quasiquote"@ || name == "unquote"@ || name
            == "splice-unquote"@ || name == "deref"@,
    ensures
        match crate::reader::parse_wrap(toks, k, name) {
            Ok((v, _)) => printable(v),
            Err(_) => true,
        },
    decreases toks.len() - k, 0int,
{
    lemma_parse_printable(toks, k + 1);
    lemma_macro_symbol(name);
    match crate::reader::parse_wrap(toks, k, name) {
        Ok((v, _)) => {
            match parse_form_at(toks, k + 1) {
                Ok((x, _)) => {
                    let l = seq![Val::Symbol(name), x];
                    assert(printable(l[0]));
                    assert(printable(l[1]));
                    assert(forall|q: int| 0 <= q < l.len() ==> printable(#[trigger] l[q]));
                },
                Err(_) => {},
            }
        },
        Err(_) => {},
    }
}

proof fn lemma_parse_meta_printable(toks: Seq<Result<Tok, ParseError>>, k: int)
    requires
        0 <= k < toks.len(),
        toks_wf(toks),
    ensures
        match crate::reader::parse_meta(toks, k) {
            Ok((v, _)) => printable(v),
            Err(_) => true,
        },
    decreases toks.len() - k, 0int,
{
    lemma_parse_printable(toks, k + 1);
    lemma_macro_symbol("with-meta"@);
    match parse_form_at(toks, k + 1) {
        Ok((meta, j)) => {
            let jc = if j < k {
                k
            } else {
                j
            };
            if jc < toks.len() {
                lemma_parse_printable(toks, jc + 1);
                match parse_form_at(toks, jc + 1) {
                    Ok((value, _)) => {
                        let l = seq![Val::Symbol("with-meta"@), value, meta];
                        assert(printable(l[0]));
                        assert(printable(l[1]));
                        assert(printable(l[2]));
                        assert(forall|q: int| 0 <= q < l.len() ==> printable(#[trigger] l[q]));
                    },
                    Err(_) => {},
                }
            }
        },
        Err(_) => {},
    }
}

proof fn lemma_parse_items_printable(
    toks: Seq<Result<Tok, ParseError>>,
    k: int,
    closer: char,
    unbalanced: ParseError,
)
    requires
        0 <= k,
        toks_wf(toks),
    ensures
        match parse_items(toks, k, closer, unbalanced) {
            Ok((vals, _)) => forall|q: int| 0 <= q < vals.len() ==> printable(#[trigger] vals[q]),
            Err(_) => true,
        },
    decreases toks.len() - k, 2int,
{
    if k < toks.len() {
        match toks[k] {
            Err(_) => {},
            Ok(t) => {
                if t != Tok::Special(closer) {
                    lemma_parse_printable(toks, k);
                    match parse_form_at(toks, k) {
                        Err(_) => {},
                        Ok((v, j)) => {
                            let jc = if j < k || j >= toks.len() {
                                k
                            } else {
                                j
                            };
                            lemma_parse_items_printable(toks, jc + 1, closer, unbalanced);
                            match parse_items(toks, jc + 1, closer, unbalanced) {
                                Ok((rest, _)) => {
                                    assert forall|q: int|
                                        0 <= q < (seq![v] + rest).len() implies printable(
                                        #[trigger] (seq![v] + rest)[q],
                                    ) by {
                                        if q > 0 {
                                            assert((seq![v] + rest)[q] == rest[q - 1]);
                                        }
                                    }
                                },
                                Err(_) => {},
                            }
                        },
                    }
                }
            },
        }
    }
}

proof fn lemma_parse_entries_printable(
    toks: Seq<Result<Tok, ParseError>>,
    k: int,
    acc: Seq<(Val, Val)>,
)
    requires
        0 <= k,
        toks_wf(toks),
        entries_ok(acc),
    ensures
        match parse_entries(toks, k, acc) {
            Ok((pairs, _)) => entries_ok(pairs),
            Err(_) => true,
        },
    decreases toks.len() - k, 2int,
{
    if k < toks.len() {
        match toks[k] {
            Err(_) => {},
            Ok(t) => {
                if t != Tok::Special('}') {
                    lemma_parse_printable(toks, k);
                    match parse_form_at(toks, k) {
                        Err(_) => {},
                        Ok((key, j)) => {
                            let jc = if j < k || j >= toks.len() {
                                k
                            } else {
                                j
                            };
                            if key.is_atom() && jc + 1 < toks.len() && toks[jc + 1] is Ok {
                                lemma_parse_printable(toks, jc + 1);
                                match toks[jc + 1] {
                                    Err(_) => {},
                                    Ok(t2) => {
                                        if t2 != Tok::Special('}') {
                                            match parse_form_at(toks, jc + 1) {
                                                Err(_) => {},
                                                Ok((value, j2)) => {
                                                    let j2c = if j2 < jc + 1 || j2
                                                        >= toks.len() {
                                                        jc + 1
                                                    } else {
                                                        j2
                                                    };
                                                    lemma_table_insert_ok(acc, key, value);
                                                    lemma_parse_entries_printable(
                                                        toks,
                                                        j2c + 1,
                                                        table_insert(acc, key, value),
                                                    );
                                                },
                                            }
                                        }
                                    },
                                }
                            }
                        },
                    }
                }
            },
        }
    }
}

/// Everything one input string reads as is printable: the round-trip law
/// covers every form the reader can produce.
pub proof fn lemma_read_printable(s: Seq<char>)
    ensures
        match parse_input(s) {
            Ok(v) => printable(v),
            Err(_) => true,
        },
{
    lemma_lex_all_wf(s, 0);
    lemma_parse_printable(lex_all(s, 0), 0);
}

} // verus!
