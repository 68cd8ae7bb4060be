//! The payload decoder: a recursive-descent parser for the protocol's
//! s-expression subset, and the projection of parsed payloads into the typed
//! `SlynkAnswer` variants.

use vstd::prelude::*;
use vstd::multiset::Multiset;
use crate::error::BackendError;
use crate::models::{
    ChannelMethod,
    CompilerNotes,
    ContinuationCallback,
    DebugCondition,
    FoundDefinition,
    Restart,
    ReturnStatus,
    SlynkAnswer,
};
use crate::text::str_chars;

verus! {

/// `"<text>"` for a present value, the literal `nil` for an absent one.
pub open spec fn nil_or_string_spec(form: Option<Seq<char>>) -> Seq<char> {
    match form {
        Some(s) => "\""@ + s + "\""@,
        None => "nil"@,
    }
}

/// Renders an optional string as a quoted Lisp string or `nil`.
pub fn nil_or_string(form: Option<String>) -> (r: String)
    ensures
        match form {
            Some(s) => r@ == nil_or_string_spec(Some(s@)),
            None => r@ == nil_or_string_spec(None),
        },
{
    match form {
        Some(is) => {
            let mut s = String::new();
            s.append("\"");
            s.append(is.as_str());
            s.append("\"");
            proof {
                assert(Seq::<char>::empty() + "\""@ =~= "\""@);
            }
            s
        },
        None => String::from_str("nil"),
    }
}

/// `None` for the literal `nil`, the text itself otherwise.
pub open spec fn option_str_spec(form: Seq<char>) -> Option<Seq<char>> {
    if form == "nil"@ {
        None
    } else {
        Some(form)
    }
}

/// Reads an optional value: the literal `nil` becomes `None`, any other text
/// is kept.
pub fn option_str(form: &str) -> (r: Option<String>)
    ensures
        match r {
            Some(s) => option_str_spec(form@) == Some(s@) && s@ == form@,
            None => option_str_spec(form@) is None,
        },
{
    let chars = str_chars(form);
    proof {
        reveal_strlit("nil");
    }
    if chars.len() == 3 && chars[0] == 'n' && chars[1] == 'i' && chars[2] == 'l' {
        proof {
            assert(form@ =~= "nil"@);
        }
        None
    } else {
        proof {
            assert(form@ != "nil"@) by {
                if form@ == "nil"@ {
                    assert(chars@.len() == 3);
                    assert(chars@[0] == 'n' && chars@[1] == 'i' && chars@[2] == 'l');
                }
            }
        }
        Some(form.to_owned())
    }
}

/// `T` for true, `nil` for false.
pub open spec fn bool_to_nil_or_t_spec(val: bool) -> Seq<char> {
    if val {
        "T"@
    } else {
        "nil"@
    }
}

/// Renders a boolean in the protocol's form: `T` or `nil`.
pub fn bool_to_nil_or_t(val: &bool) -> (r: String)
    ensures
        r@ == bool_to_nil_or_t_spec(*val),
{
    if *val {
        String::from_str("T")
    } else {
        String::from_str("nil")
    }
}

//
// The s-expression subset the protocol emits: atoms, strings with escaped
// quotes, and lists.
//

/// An atom: a bare symbol token, a quoted string (stored unescaped), or an
/// unsigned integer.
#[derive(Debug, Clone)]
pub enum Atom {
    Sym(String),
    Str(String),
    Int(usize),
}

/// One parsed s-expression.
#[derive(Debug)]
pub enum Sexp {
    Atom(Atom),
    List(Vec<Sexp>),
}

/// The printed form of an atom: symbols bare, strings quoted with `"` and
/// `\` escaped, integers in decimal.
pub open spec fn atom_text(a: Atom) -> Seq<char> {
    match a {
        Atom::Sym(s) => s@,
        Atom::Str(s) => "\""@ + crate::text::escape_form_spec(s@) + "\""@,
        Atom::Int(n) => crate::repl::dec_digits_of(n as int),
    }
}

/// The printed form of an s-expression.
pub open spec fn sexp_text(s: Sexp) -> Seq<char>
    decreases s,
{
    match s {
        Sexp::Atom(a) => atom_text(a),
        Sexp::List(items) => "("@ + list_text(items@) + ")"@,
    }
}

/// The printed forms of list items, separated by single spaces.
pub open spec fn list_text(items: Seq<Sexp>) -> Seq<char>
    decreases items,
{
    if items.len() == 0 {
        Seq::empty()
    } else if items.len() == 1 {
        sexp_text(items[0])
    } else {
        list_text(items.drop_last()) + " "@ + sexp_text(items.last())
    }
}

/// Prints an s-expression back into protocol text.
pub fn sexp_to_text(s: &Sexp) -> (r: String)
    ensures
        r@ == sexp_text(*s),
    decreases *s,
{
    match s {
        Sexp::Atom(Atom::Sym(v)) => v.clone(),
        Sexp::Atom(Atom::Str(v)) => {
            let mut out = String::new();
            out.append("\"");
            out.append(crate::text::escape_form(v.as_str()).as_str());
            out.append("\"");
            proof {
                assert(Seq::<char>::empty() + "\""@ =~= "\""@);
            }
            out
        },
        Sexp::Atom(Atom::Int(n)) => crate::repl::usize_to_dec(*n),
        Sexp::List(items) => {
            let mut out = String::new();
            out.append("(");
            proof {
                assert(Seq::<char>::empty() + "("@ =~= "("@);
                assert(items@.take(0) =~= Seq::<Sexp>::empty());
            }
            let mut i: usize = 0;
            while i < items.len()
                invariant
                    i <= items@.len(),
                    *s == Sexp::List(*items),
                    out@ == "("@ + list_text(items@.take(i as int)),
                decreases items@.len() - i,
            {
                if i > 0 {
                    out.append(" ");
                }
                proof {
                    assert((*s)->List_0 == *items);
                    assert(decreases_to!(*s => (*s)->List_0));
                    assert(decreases_to!(*items => items@));
                    assert(decreases_to!(items@ => items@[i as int]));
                    assert(decreases_to!(*s => items@[i as int]));
                }
                let t = sexp_to_text(&items[i]);
                out.append(t.as_str());
                proof {
                    assert(items@.take(i + 1 as int).drop_last() =~= items@.take(i as int));
                    assert(items@.take(i + 1 as int).last() == items@[i as int]);
                    if i == 0 {
                        assert(items@.take(1)[0] == items@[0]);
                    }
                }
                i += 1;
            }
            out.append(")");
            proof {
                assert(items@.take(items@.len() as int) =~= items@);
            }
            out
        },
    }
}

//
// The recursive-descent parser.
//

/// Whitespace for the parser: space, tab, newline, carriage return.
pub open spec fn is_ws(c: char) -> bool {
    c == ' ' || c == '\t' || c == '\n' || c == '\r'
}

/// Whether the character is a decimal digit.
pub open spec fn is_digit(c: char) -> bool {
    0 <= crate::codec::hex_char_val(c) <= 9
}

/// The first position at or after `pos` holding a non-whitespace character.
pub open spec fn spec_skip_ws(s: Seq<char>, pos: int) -> int
    decreases s.len() - pos
        when pos <= s.len()
{
    if pos < s.len() && is_ws(s[pos]) {
        spec_skip_ws(s, pos + 1)
    } else {
        pos
    }
}

/// A character that ends a bare atom token.
pub open spec fn is_delim(c: char) -> bool {
    is_ws(c) || c == '(' || c == ')' || c == '"'
}

/// The first position at or after `pos` holding a delimiter.
pub open spec fn token_end(s: Seq<char>, pos: int) -> int
    decreases s.len() - pos
        when pos <= s.len()
{
    if pos < s.len() && !is_delim(s[pos]) {
        token_end(s, pos + 1)
    } else {
        pos
    }
}

/// Scans a quoted string body from `pos`, `acc` being the unescaped content
/// read so far: the content and the position after the closing quote, or
/// `None` where the text ends before one.
pub open spec fn string_scan(s: Seq<char>, pos: int, acc: Seq<char>) -> Option<(Seq<char>, int)>
    decreases s.len() - pos
        when pos <= s.len()
{
    if pos >= s.len() {
        None
    } else if s[pos] == '\\' && pos + 1 < s.len() {
        string_scan(s, pos + 2, acc.push(s[pos + 1]))
    } else if s[pos] == '"' {
        Some((acc, pos + 1))
    } else {
        string_scan(s, pos + 1, acc.push(s[pos]))
    }
}

/// How a parsed value relates to the text: `t` is the one value that a read
/// starting exactly at `pos` yields, and `end` the position after it.  A
/// token of digits whose value fits the machine word is an integer, any
/// other token a symbol.
pub open spec fn parses_to(s: Seq<char>, pos: int, t: Sexp, end: int) -> bool
    decreases t, 0int,
{
    if !(0 <= pos < s.len()) {
        false
    } else if s[pos] == '(' {
        t matches Sexp::List(items) && list_parses_to(s, pos + 1, items@, 0, end)
    } else if s[pos] == '"' {
        string_scan(s, pos + 1, Seq::empty()) matches Some(p) && (t matches Sexp::Atom(a)
            && a matches Atom::Str(cs) && cs@ == p.0) && end == p.1
    } else if s[pos] == ')' {
        false
    } else {
        let e = token_end(s, pos + 1);
        let tok = s.subrange(pos, e);
        end == e && (t matches Sexp::Atom(a) && (if all_digits(tok) && dec_value(tok)
            <= usize::MAX {
            a matches Atom::Int(n) && n as int == dec_value(tok)
        } else {
            a matches Atom::Sym(st) && st@ == tok
        }))
    }
}

/// The position after the value read at `pos`, where the value has the
/// shape of `t`.
pub open spec fn value_end(s: Seq<char>, pos: int, t: Sexp) -> int
    decreases t, 0int,
{
    if !(0 <= pos < s.len()) {
        pos
    } else if s[pos] == '(' {
        match t {
            Sexp::List(items) => list_end(s, pos + 1, items@, 0),
            Sexp::Atom(_) => pos,
        }
    } else if s[pos] == '"' {
        match string_scan(s, pos + 1, Seq::empty()) {
            Some(p) => p.1,
            None => pos,
        }
    } else {
        token_end(s, pos + 1)
    }
}

/// The position after the closing parenthesis, reading elements shaped like
/// `items` from index `i` on.
pub open spec fn list_end(s: Seq<char>, pos: int, items: Seq<Sexp>, i: int) -> int
    decreases items, items.len() - i, 1int
        when 0 <= i <= items.len()
{
    let p = spec_skip_ws(s, pos);
    if p >= s.len() {
        p
    } else if s[p] == ')' {
        p + 1
    } else if i < items.len() {
        list_end(s, value_end(s, p, items[i]), items, i + 1)
    } else {
        p
    }
}

/// How the elements of a list from index `i` on relate to the text from
/// `pos`: the remaining elements are read in order, each after the
/// whitespace before it, and `end` stands after the closing parenthesis.
pub open spec fn list_parses_to(s: Seq<char>, pos: int, items: Seq<Sexp>, i: int, end: int) -> bool
    decreases items, items.len() - i, 1int
        when 0 <= i <= items.len()
{
    let p = spec_skip_ws(s, pos);
    if p >= s.len() {
        false
    } else if s[p] == ')' {
        i == items.len() && end == p + 1
    } else {
        i < items.len() && parses_to(s, p, items[i], value_end(s, p, items[i]))
            && list_parses_to(s, value_end(s, p, items[i]), items, i + 1, end)
    }
}

/// A value that the whole text yields, with nothing after it.
pub open spec fn complete_parse(s: Seq<char>, t: Sexp) -> bool {
    parses_to(s, 0, t, s.len() as int)
}

/// Whether the two values agree in shape and in text content; two `String`s
/// of the same characters stand for the same atom.
pub open spec fn sexp_same_text(a: Sexp, b: Sexp) -> bool
    decreases a,
{
    match a {
        Sexp::Atom(aa) => b matches Sexp::Atom(ba) && (match aa {
            Atom::Sym(x) => ba matches Atom::Sym(y) && x@ == y@,
            Atom::Str(x) => ba matches Atom::Str(y) && x@ == y@,
            Atom::Int(x) => ba matches Atom::Int(y) && x == y,
        }),
        Sexp::List(xs) => b matches Sexp::List(ys) && xs@.len() == ys@.len() && (forall|k: int|
            0 <= k < xs@.len() ==> sexp_same_text(xs@[k], #[trigger] ys@[k])),
    }
}

/// Two values read from the same position end at the same place and agree in
/// shape and text: the relation is a function of the text, up to the
/// identity of the `String`s inside the tree.
pub proof fn lemma_parse_agree(s: Seq<char>, pos: int, t1: Sexp, e1: int, t2: Sexp, e2: int)
    requires
        parses_to(s, pos, t1, e1),
        parses_to(s, pos, t2, e2),
    ensures
        e1 == e2,
        sexp_same_text(t1, t2),
    decreases t1, 0int,
{
    assert(0 <= pos < s.len());
    if s[pos] == '(' {
        let items1 = t1->List_0@;
        let items2 = t2->List_0@;
        assert(decreases_to!(t1 => t1->List_0));
        assert(decreases_to!(t1->List_0 => items1));
        lemma_list_parse_agree(s, pos + 1, items1, 0, e1, items2, 0, e2);
        assert(sexp_same_text(t1, t2)) by {
            assert(t1 is List && t2 is List);
            assert forall|k: int| 0 <= k < items1.len() implies sexp_same_text(
                items1[k],
                #[trigger] items2[k],
            ) by {
                assert(sexp_same_text(items1[0 + k], items2[0 + k]));
            }
        }
    } else if s[pos] == '"' {
        assert(sexp_same_text(t1, t2));
    } else if s[pos] == ')' {
    } else {
        assert(sexp_same_text(t1, t2));
    }
}

/// The list form of the agreement: the remaining elements pair up one to
/// one and the reads end together.
proof fn lemma_list_parse_agree(
    s: Seq<char>,
    pos: int,
    items1: Seq<Sexp>,
    i1: int,
    e1: int,
    items2: Seq<Sexp>,
    i2: int,
    e2: int,
)
    requires
        0 <= i1 <= items1.len(),
        0 <= i2 <= items2.len(),
        list_parses_to(s, pos, items1, i1, e1),
        list_parses_to(s, pos, items2, i2, e2),
    ensures
        e1 == e2,
        items1.len() - i1 == items2.len() - i2,
        forall|k: int|
            0 <= k < items1.len() - i1 ==> sexp_same_text(
                items1[i1 + k],
                #[trigger] items2[i2 + k],
            ),
    decreases items1, items1.len() - i1, 1int,
{
    let p = spec_skip_ws(s, pos);
    assert(p < s.len());
    if s[p] == ')' {
    } else {
        let m1 = value_end(s, p, items1[i1]);
        let m2 = value_end(s, p, items2[i2]);
        assert(decreases_to!(items1 => items1[i1]));
        lemma_parse_agree(s, p, items1[i1], m1, items2[i2], m2);
        lemma_list_parse_agree(s, m1, items1, i1 + 1, e1, items2, i2 + 1, e2);
        assert(forall|k: int|
            0 <= k < items1.len() - i1 ==> sexp_same_text(
                items1[i1 + k],
                #[trigger] items2[i2 + k],
            )) by {
            assert forall|k: int| 0 <= k < items1.len() - i1 implies sexp_same_text(
                items1[i1 + k],
                #[trigger] items2[i2 + k],
            ) by {
                if k > 0 {
                    assert(sexp_same_text(items1[i1 + 1 + (k - 1)], items2[i2 + 1 + (k - 1)]));
                }
            }
        }
    }
}

/// A read ends exactly where the shape says it does.
proof fn lemma_parses_end(s: Seq<char>, pos: int, t: Sexp, e: int)
    requires
        parses_to(s, pos, t, e),
    ensures
        e == value_end(s, pos, t),
    decreases t, 0int,
{
    if s[pos] == '(' {
        assert(decreases_to!(t => t->List_0));
        assert(decreases_to!(t->List_0 => t->List_0@));
        lemma_list_end(s, pos + 1, t->List_0@, 0, e);
    }
}

/// The list form: the read of the remaining elements ends at `list_end`.
proof fn lemma_list_end(s: Seq<char>, pos: int, items: Seq<Sexp>, i: int, e: int)
    requires
        0 <= i <= items.len(),
        list_parses_to(s, pos, items, i, e),
    ensures
        e == list_end(s, pos, items, i),
    decreases items, items.len() - i, 1int,
{
    let p = spec_skip_ws(s, pos);
    if s[p] == ')' {
    } else {
        lemma_list_end(s, value_end(s, p, items[i]), items, i + 1, e);
    }
}

/// The first position at or after `pos` holding a non-whitespace character.
fn skip_ws(chars: &Vec<char>, pos: usize) -> (p: usize)
    requires
        pos <= chars@.len(),
    ensures
        pos <= p <= chars@.len(),
        forall|j: int| pos <= j < p ==> is_ws(#[trigger] chars@[j]),
        p < chars@.len() ==> !is_ws(chars@[p as int]),
        p == spec_skip_ws(chars@, pos as int),
    decreases chars@.len() - pos,
{
    let mut p = pos;
    while p < chars.len()
        invariant
            pos <= p <= chars@.len(),
            forall|j: int| pos <= j < p ==> is_ws(#[trigger] chars@[j]),
            spec_skip_ws(chars@, pos as int) == spec_skip_ws(chars@, p as int),
        decreases chars@.len() - p,
    {
        let c = chars[p];
        if !(c == ' ' || c == '\t' || c == '\n' || c == '\r') {
            return p;
        }
        p += 1;
    }
    p
}

/// Whether the character is whitespace for the parser.
fn is_ws_char(c: char) -> (r: bool)
    ensures
        r == is_ws(c),
{
    c == ' ' || c == '\t' || c == '\n' || c == '\r'
}

/// Finds the first position at or after `i` holding a delimiter.
fn find_token_end(chars: &Vec<char>, i: usize) -> (e: usize)
    requires
        i <= chars@.len(),
    ensures
        e == token_end(chars@, i as int),
        i <= e <= chars@.len(),
    decreases chars@.len() - i,
{
    let mut e = i;
    while e < chars.len() && !(chars[e] == ' ' || chars[e] == '\t' || chars[e] == '\n' || chars[e]
        == '\r' || chars[e] == '(' || chars[e] == ')' || chars[e] == '"')
        invariant
            i <= e <= chars@.len(),
            token_end(chars@, i as int) == token_end(chars@, e as int),
        decreases chars@.len() - e,
    {
        e += 1;
    }
    e
}

/// Parses one value starting exactly at `pos`; returns it with the position
/// after it.  The relation `parses_to` says which value a read yields, and a
/// read fails exactly where the relation holds of no value.
fn parse_value(chars: &Vec<char>, pos: usize) -> (r: Result<(Sexp, usize), BackendError>)
    requires
        pos <= chars@.len(),
    ensures
        r matches Ok(t) ==> pos < t.1 <= chars@.len() && parses_to(
            chars@,
            pos as int,
            t.0,
            t.1 as int,
        ),
        r is Err ==> (forall|t: Sexp, e: int| !parses_to(chars@, pos as int, t, e)),
    decreases chars@.len() - pos,
{
    let ghost s = chars@;
    if pos >= chars.len() {
        return Err(BackendError(String::from_str("Failed to parse sexp.")));
    }
    let c = chars[pos];
    if c == '(' {
        let mut items: Vec<Sexp> = Vec::new();
        let mut cur: usize = pos + 1;
        loop
            invariant
                pos < cur <= s.len(),
                s == chars@,
                pos < s.len(),
                s[pos as int] == '(',
                forall|full: Seq<Sexp>, e: int|
                    #[trigger] list_parses_to(s, pos + 1, full, 0, e) ==> full.len()
                        >= items@.len() && 0 <= items@.len() <= full.len() && list_parses_to(
                        s,
                        cur as int,
                        full,
                        items@.len() as int,
                        e,
                    ),
                forall|full: Seq<Sexp>, e: int|
                    (full.len() >= items@.len() && full.take(items@.len() as int) == items@
                        && #[trigger] list_parses_to(s, cur as int, full, items@.len() as int, e))
                        ==> list_parses_to(s, pos + 1, full, 0, e),
            decreases s.len() - cur,
        {
            let ghost n = items@.len() as int;
            let p = skip_ws(chars, cur);
            if p >= chars.len() {
                proof {
                    assert forall|t: Sexp, e: int| !parses_to(s, pos as int, t, e) by {
                        if parses_to(s, pos as int, t, e) {
                            let full = t->List_0@;
                            assert(list_parses_to(s, pos + 1, full, 0, e));
                            assert(!list_parses_to(s, cur as int, full, n, e));
                        }
                    }
                }
                return Err(BackendError(String::from_str("Failed to parse sexp.")));
            }
            if chars[p] == ')' {
                proof {
                    assert(items@.take(n) =~= items@);
                    assert(list_parses_to(s, cur as int, items@, n, p + 1));
                    assert(list_parses_to(s, pos + 1, items@, 0, p + 1));
                }
                return Ok((Sexp::List(items), p + 1));
            }
            match parse_value(chars, p) {
                Ok((v, np)) => {
                    proof {
                        let items2 = items@.push(v);
                        assert forall|full: Seq<Sexp>, e: int|
                            #[trigger] list_parses_to(s, pos + 1, full, 0, e) implies full.len()
                            >= items2.len() && 0 <= items2.len() <= full.len() && list_parses_to(
                            s,
                            np as int,
                            full,
                            items2.len() as int,
                            e,
                        ) by {
                            assert(list_parses_to(s, cur as int, full, n, e));
                            let m = value_end(s, p as int, full[n]);
                            assert(parses_to(s, p as int, full[n], m));
                            lemma_parse_agree(s, p as int, full[n], m, v, np as int);
                        }
                        assert forall|full: Seq<Sexp>, e: int|
                            (full.len() >= items2.len() && full.take(items2.len() as int) == items2
                                && #[trigger] list_parses_to(
                                s,
                                np as int,
                                full,
                                items2.len() as int,
                                e,
                            )) implies list_parses_to(s, pos + 1, full, 0, e) by {
                            assert(full.take(n + 1)[n] == items2[n]);
                            assert(full[n] == v);
                            assert(full.take(n) =~= full.take(n + 1).take(n));
                            assert(items2.take(n) =~= items@);
                            assert(full.take(n) == items@);
                            lemma_parses_end(s, p as int, v, np as int);
                            assert(parses_to(s, p as int, full[n], value_end(s, p as int, full[n])));
                            assert(list_parses_to(s, cur as int, full, n, e));
                        }
                    }
                    items.push(v);
                    cur = np;
                },
                Err(e) => {
                    proof {
                        assert forall|t: Sexp, e2: int| !parses_to(s, pos as int, t, e2) by {
                            if parses_to(s, pos as int, t, e2) {
                                let full = t->List_0@;
                                assert(list_parses_to(s, pos + 1, full, 0, e2));
                                assert(list_parses_to(s, cur as int, full, n, e2));
                                assert(!parses_to(
                                    s,
                                    p as int,
                                    full[n],
                                    value_end(s, p as int, full[n]),
                                ));
                            }
                        }
                    }
                    return Err(e);
                },
            }
        }
    } else if c == '"' {
        let mut content: Vec<char> = Vec::new();
        let mut cur: usize = pos + 1;
        while cur < chars.len()
            invariant
                pos < cur <= s.len(),
                s == chars@,
                pos < s.len(),
                s[pos as int] == '"',
                string_scan(s, pos + 1, Seq::empty()) == string_scan(s, cur as int, content@),
            decreases s.len() - cur,
        {
            let d = chars[cur];
            if d == '\\' && cur + 1 < chars.len() {
                content.push(chars[cur + 1]);
                cur += 2;
            } else if d == '"' {
                let out = chars_vec_to_string(&content);
                proof {
                    assert(string_scan(s, cur as int, content@) == Some((content@, cur + 1 as int)));
                }
                return Ok((Sexp::Atom(Atom::Str(out)), cur + 1));
            } else {
                content.push(d);
                cur += 1;
            }
        }
        proof {
            assert(string_scan(s, cur as int, content@) is None);
        }
        Err(BackendError(String::from_str("Failed to parse sexp.")))
    } else if c == ')' {
        Err(BackendError(String::from_str("Failed to parse sexp.")))
    } else {
        // an atom token: up to whitespace, a parenthesis or a quote
        let cur = find_token_end(chars, pos + 1);
        let ghost tok = s.subrange(pos as int, cur as int);
        // a token of digits whose value fits is an integer, anything else a
        // symbol
        let mut all_digits_f = true;
        let mut value: usize = 0;
        let mut overflow = false;
        let mut i: usize = pos;
        proof {
            assert(s.subrange(pos as int, pos as int) =~= Seq::<char>::empty());
        }
        while i < cur
            invariant
                pos <= i <= cur <= s.len(),
                s == chars@,
                all_digits_f == all_digits(s.subrange(pos as int, i as int)),
                all_digits_f ==> (overflow <==> dec_value(s.subrange(pos as int, i as int))
                    > usize::MAX),
                (all_digits_f && !overflow) ==> value as int == dec_value(
                    s.subrange(pos as int, i as int),
                ),
            decreases cur - i,
        {
            let ghost pre = s.subrange(pos as int, i as int);
            let ghost pre2 = s.subrange(pos as int, i + 1 as int);
            proof {
                assert(pre2.drop_last() =~= pre);
                assert(pre2.last() == s[i as int]);
            }
            let d = chars[i];
            if is_digit_char(d) {
                let dv: usize = digit_value(d);
                proof {
                    if all_digits_f {
                        assert(all_digits(pre2)) by {
                            assert(forall|k: int| 0 <= k < pre.len() ==> pre2[k] == #[trigger] pre[k]);
                        }
                        lemma_dec_value_nonneg(pre);
                        assert(dec_value(pre2) == dec_value(pre) * 10 + dv);
                        if overflow {
                            assert(dec_value(pre) * 10 + dv > usize::MAX) by (nonlinear_arith)
                                requires
                                    dec_value(pre) > usize::MAX,
                                    dv >= 0,
                            ;
                        }
                    }
                }
                if value > (usize::MAX - dv) / 10 {
                    proof {
                        assert(value * 10 + dv > usize::MAX) by (nonlinear_arith)
                            requires
                                value > (usize::MAX - dv) / 10,
                                dv <= usize::MAX,
                                value >= 0,
                        ;
                    }
                    overflow = true;
                } else {
                    proof {
                        assert(value * 10 + dv <= usize::MAX) by (nonlinear_arith)
                            requires
                                value <= (usize::MAX - dv) / 10,
                                dv <= usize::MAX,
                                value >= 0,
                        ;
                    }
                    value = value * 10 + dv;
                }
            } else {
                proof {
                    assert(!all_digits(pre2)) by {
                        assert(pre2[i - pos] == s[i as int]);
                    }
                    if !all_digits_f {
                        let j = choose|j: int| 0 <= j < pre.len() && !is_digit(#[trigger] pre[j]);
                        assert(pre2[j] == pre[j]);
                    }
                }
                all_digits_f = false;
            }
            proof {
                if !all_digits_f && is_digit(s[i as int]) {
                    let j = choose|j: int| 0 <= j < pre.len() && !is_digit(#[trigger] pre[j]);
                    assert(pre2[j] == pre[j]);
                    assert(!all_digits(pre2));
                }
            }
            i += 1;
        }
        let token = slice_to_string(chars, pos, cur);
        if all_digits_f && !overflow {
            Ok((Sexp::Atom(Atom::Int(value)), cur))
        } else {
            Ok((Sexp::Atom(Atom::Sym(token)), cur))
        }
    }
}

/// The value of a decimal digit character.
fn digit_value(c: char) -> (d: usize)
    requires
        is_digit(c),
    ensures
        d == crate::codec::hex_char_val(c),
{
    if c == '0' {
        0
    } else if c == '1' {
        1
    } else if c == '2' {
        2
    } else if c == '3' {
        3
    } else if c == '4' {
        4
    } else if c == '5' {
        5
    } else if c == '6' {
        6
    } else if c == '7' {
        7
    } else if c == '8' {
        8
    } else {
        9
    }
}

/// Copies `v[from..to]` into a string.
fn slice_to_string(v: &Vec<char>, from: usize, to: usize) -> (r: String)
    requires
        from <= to <= v@.len(),
    ensures
        r@ == v@.subrange(from as int, to as int),
{
    let mut out: Vec<char> = Vec::new();
    let mut i: usize = from;
    while i < to
        invariant
            from <= i <= to <= v@.len(),
            out@ == v@.subrange(from as int, i as int),
        decreases to - i,
    {
        out.push(v[i]);
        proof {
            assert(v@.subrange(from as int, i + 1 as int) =~= v@.subrange(from as int, i as int)
                .push(v@[i as int]));
        }
        i += 1;
    }
    crate::text::chars_to_string(&out)
}

/// Copies a character vector into a string.
fn chars_vec_to_string(v: &Vec<char>) -> (r: String)
    ensures
        r@ == v@,
{
    crate::text::chars_to_string(v)
}

/// A top-level read of the text: one value after any leading whitespace,
/// with only whitespace after it.
pub open spec fn top_parse(s: Seq<char>, t: Sexp) -> bool {
    let st = spec_skip_ws(s, 0);
    parses_to(s, st, t, value_end(s, st, t)) && spec_skip_ws(s, value_end(s, st, t)) == s.len()
}

/// Two top-level reads of the same text agree in shape and content.
pub proof fn lemma_top_parse_agree(s: Seq<char>, t1: Sexp, t2: Sexp)
    requires
        top_parse(s, t1),
        top_parse(s, t2),
    ensures
        sexp_same_text(t1, t2),
{
    let st = spec_skip_ws(s, 0);
    lemma_parse_agree(s, st, t1, value_end(s, st, t1), t2, value_end(s, st, t2));
}

/// Parses protocol text into one s-expression; trailing whitespace is
/// allowed, anything else after the value is a parse error.
pub fn parse_sexp(text: &str) -> (r: Result<Sexp, BackendError>)
    ensures
        r matches Ok(t) ==> top_parse(text@, t),
        r is Err ==> (forall|t: Sexp| !top_parse(text@, t)),
        (forall|i: int| 0 <= i < text@.len() ==> is_ws(#[trigger] text@[i])) ==> r is Err,
{
    let ghost s = text@;
    let chars = str_chars(text);
    let start = skip_ws(&chars, 0);
    match parse_value(&chars, start) {
        Ok((v, p)) => {
            let after = skip_ws(&chars, p);
            if after == chars.len() {
                proof {
                    lemma_parses_end(s, start as int, v, p as int);
                    assert(parses_to(s, spec_skip_ws(s, 0), v, p as int) && spec_skip_ws(
                        s,
                        p as int,
                    ) == s.len());
                }
                Ok(v)
            } else {
                proof {
                    assert forall|t: Sexp| !top_parse(s, t) by {
                        if top_parse(s, t) {
                            lemma_parse_agree(
                                s,
                                start as int,
                                t,
                                value_end(s, start as int, t),
                                v,
                                p as int,
                            );
                        }
                    }
                }
                Err(BackendError(String::from_str("Failed to parse sexp.")))
            }
        },
        Err(e) => Err(e),
    }
}

/// The tail position reached by dropping trailing whitespace down from `e`.
pub open spec fn rstrip_ws(s: Seq<char>, e: int) -> int
    decreases e
        when 0 <= e
{
    if e > 0 && is_ws(s[e - 1]) {
        rstrip_ws(s, e - 1)
    } else {
        e
    }
}

/// A newline or tab reads as a space; anything else as itself.
pub open spec fn blank_mapped(c: char) -> char {
    if c == '\n' || c == '\t' {
        ' '
    } else {
        c
    }
}

/// The text as the tree reader sees it: surrounding whitespace dropped, and
/// newlines and tabs inside replaced by spaces.
pub open spec fn cleaned_text(s: Seq<char>) -> Seq<char> {
    let a = spec_skip_ws(s, 0);
    if a == s.len() {
        Seq::empty()
    } else {
        s.subrange(a, rstrip_ws(s, s.len() as int)).map_values(|c: char| blank_mapped(c))
    }
}

/// Trims surrounding whitespace, replaces newlines and tabs inside the text
/// by spaces, and parses the result as one s-expression filling the whole
/// cleaned text.
pub fn clean_and_parse_sexp(sexp_str: &str) -> (r: Result<Sexp, BackendError>)
    ensures
        r matches Ok(t) ==> complete_parse(cleaned_text(sexp_str@), t),
        r is Err ==> (forall|t: Sexp| !complete_parse(cleaned_text(sexp_str@), t)),
        sexp_str@.len() == 0 ==> r is Err,
{
    let ghost s = sexp_str@;
    let chars = str_chars(sexp_str);
    let start = skip_ws(&chars, 0);
    let mut end = chars.len();
    while end > start && is_ws_char(chars[end - 1])
        invariant
            start <= end <= chars@.len(),
            s == chars@,
            start == spec_skip_ws(s, 0),
            start < s.len() ==> !is_ws(s[start as int]),
            start < s.len() ==> start < end,
            rstrip_ws(s, s.len() as int) == rstrip_ws(s, end as int),
        decreases end,
    {
        end -= 1;
    }
    let mut cleaned: Vec<char> = Vec::new();
    let mut i: usize = start;
    proof {
        assert(cleaned@ =~= s.subrange(start as int, start as int).map_values(
            |c: char| blank_mapped(c),
        ));
    }
    while i < end
        invariant
            start <= i <= end <= chars@.len(),
            s == chars@,
            cleaned@ == s.subrange(start as int, i as int).map_values(|c: char| blank_mapped(c)),
        decreases end - i,
    {
        let c = chars[i];
        if c == '\n' || c == '\t' {
            cleaned.push(' ');
        } else {
            cleaned.push(c);
        }
        proof {
            assert(s.subrange(start as int, i + 1 as int).map_values(|c: char| blank_mapped(c))
                =~= s.subrange(start as int, i as int).map_values(|c: char| blank_mapped(c)).push(
                blank_mapped(s[i as int]),
            ));
        }
        i += 1;
    }
    proof {
        if start == s.len() {
            assert(cleaned@ =~= cleaned_text(s));
        } else {
            assert(end == rstrip_ws(s, s.len() as int));
            assert(cleaned@ =~= cleaned_text(s));
        }
    }
    match parse_value(&cleaned, 0) {
        Ok((v, p)) => {
            if p == cleaned.len() {
                Ok(v)
            } else {
                proof {
                    assert forall|t: Sexp| !complete_parse(cleaned_text(s), t) by {
                        if complete_parse(cleaned_text(s), t) {
                            lemma_parse_agree(
                                cleaned@,
                                0,
                                t,
                                cleaned@.len() as int,
                                v,
                                p as int,
                            );
                        }
                    }
                }
                Err(BackendError(String::from_str("Failed to parse sexp.")))
            }
        },
        Err(e) => Err(e),
    }
}

//
// Accessors over parsed trees.
//

/// Whether the atom carries text: a symbol or a string.
pub open spec fn atom_string_content(a: Atom) -> Option<Seq<char>> {
    match a {
        Atom::Sym(s) => Some(s@),
        Atom::Str(s) => Some(s@),
        Atom::Int(_) => None,
    }
}

/// The children of a list.
pub fn sexp_children(sexp: Sexp) -> (r: Result<Vec<Sexp>, BackendError>)
    ensures
        sexp is List <==> r is Ok,
        r matches Ok(v) ==> sexp == Sexp::List(v),
{
    match sexp {
        Sexp::List(children) => Ok(children),
        _ => Err(BackendError(String::from_str("Failed to parse sexp."))),
    }
}

/// The `n`-th child of a list; an atom or a too-short list is an error.
pub fn sexp_list_nth(sexp: &Sexp, n: usize) -> (r: Result<&Sexp, BackendError>)
    ensures
        r is Ok <==> (sexp matches Sexp::List(c) && n < c@.len()),
        r matches Ok(v) ==> (sexp matches Sexp::List(c) && *v == c@[n as int]),
{
    match sexp {
        Sexp::List(children) => {
            if n < children.len() {
                Ok(&children[n])
            } else {
                Err(BackendError(String::from_str("Failed to parse sexp.")))
            }
        },
        _ => Err(BackendError(String::from_str("Failed to parse sexp."))),
    }
}

/// The `n`-th child of a list as its text content; it must be a symbol or a
/// string.
pub fn sexp_list_nth_as_string(sexp: &Sexp, n: usize) -> (r: Result<String, BackendError>)
    ensures
        r is Ok <==> (sexp matches Sexp::List(c) && n < c@.len() && (c@[n as int]
            matches Sexp::Atom(a) && atom_string_content(a) is Some)),
        r matches Ok(v) ==> (sexp matches Sexp::List(c) && c@[n as int] matches Sexp::Atom(a)
            && atom_string_content(a) == Some(v@)),
{
    match sexp {
        Sexp::List(children) => {
            if n < children.len() {
                match &children[n] {
                    Sexp::Atom(Atom::Sym(value)) => Ok(value.clone()),
                    Sexp::Atom(Atom::Str(value)) => Ok(value.clone()),
                    _ => Err(BackendError(String::from_str("Failed to parse sexp."))),
                }
            } else {
                Err(BackendError(String::from_str("Failed to parse sexp.")))
            }
        },
        _ => Err(BackendError(String::from_str("Failed to parse sexp."))),
    }
}

/// The `n`-th child of a list as an integer atom.
pub fn sexp_list_nth_as_usize(sexp: &Sexp, n: usize) -> (r: Result<usize, BackendError>)
    ensures
        r is Ok <==> (sexp matches Sexp::List(c) && n < c@.len() && (c@[n as int]
            matches Sexp::Atom(a) && a is Int)),
        r matches Ok(v) ==> (sexp matches Sexp::List(c) && c@[n as int] == Sexp::Atom(
            Atom::Int(v),
        )),
{
    match sexp {
        Sexp::List(children) => {
            if n < children.len() {
                match &children[n] {
                    Sexp::Atom(Atom::Int(value)) => Ok(*value),
                    _ => Err(BackendError(String::from_str("Failed to parse sexp."))),
                }
            } else {
                Err(BackendError(String::from_str("Failed to parse sexp.")))
            }
        },
        _ => Err(BackendError(String::from_str("Failed to parse sexp."))),
    }
}

/// The `n`-th child of a list as a list.
pub fn sexp_list_nth_as_list(sexp: &Sexp, n: usize) -> (r: Result<&Vec<Sexp>, BackendError>)
    ensures
        r is Ok <==> (sexp matches Sexp::List(c) && n < c@.len() && c@[n as int] is List),
        r matches Ok(v) ==> (sexp matches Sexp::List(c) && c@[n as int] == Sexp::List(*v)),
{
    match sexp {
        Sexp::List(children) => {
            if n < children.len() {
                match &children[n] {
                    Sexp::List(subchildren) => Ok(subchildren),
                    _ => Err(BackendError(String::from_str("Failed to parse sexp."))),
                }
            } else {
                Err(BackendError(String::from_str("Failed to parse sexp.")))
            }
        },
        _ => Err(BackendError(String::from_str("Failed to parse sexp."))),
    }
}

/// Whether the value is the literal `nil` (as a symbol, or the string
/// `"nil"`, which the protocol does not distinguish).
pub open spec fn sexp_is_nil_spec(s: Sexp) -> bool {
    s matches Sexp::Atom(a) && atom_string_content(a) == Some("nil"@)
}

/// Whether the value is the literal `nil`.
pub fn sexp_is_nil(sexp: &Sexp) -> (r: bool)
    ensures
        r == sexp_is_nil_spec(*sexp),
{
    proof {
        reveal_strlit("nil");
    }
    match sexp {
        Sexp::Atom(Atom::Sym(val)) => str_is_nil(val.as_str()),
        Sexp::Atom(Atom::Str(val)) => str_is_nil(val.as_str()),
        _ => false,
    }
}

/// Whether the text is exactly `nil`.
fn str_is_nil(s: &str) -> (r: bool)
    ensures
        r == (s@ == "nil"@),
{
    let chars = str_chars(s);
    proof {
        reveal_strlit("nil");
    }
    if chars.len() == 3 && chars[0] == 'n' && chars[1] == 'i' && chars[2] == 'l' {
        proof {
            assert(s@ =~= "nil"@);
        }
        true
    } else {
        proof {
            assert(s@ != "nil"@) by {
                if s@ == "nil"@ {
                    assert(chars@.len() == 3);
                    assert(chars@[0] == 'n' && chars@[1] == 'i' && chars@[2] == 'l');
                }
            }
        }
        false
    }
}

/// The `n`-th child of a list, with the literal `nil` read as absence; an
/// out-of-range index is an error.
pub fn sexp_list_nth_or_nil(sexp: &Sexp, n: usize) -> (r: Result<Option<&Sexp>, BackendError>)
    ensures
        r is Ok <==> (sexp matches Sexp::List(c) && n < c@.len()),
        r matches Ok(o) ==> (sexp matches Sexp::List(c) && (o matches Some(v) ==> *v == c@[n as int]
            && !sexp_is_nil_spec(c@[n as int])) && (o is None ==> sexp_is_nil_spec(c@[n as int]))),
{
    match sexp {
        Sexp::List(children) => {
            if n >= children.len() {
                return Err(BackendError(String::from_str("Failed to parse sexp.")));
            }
            if sexp_is_nil(&children[n]) {
                Ok(None)
            } else {
                Ok(Some(&children[n]))
            }
        },
        _ => Err(BackendError(String::from_str("Failed to parse sexp."))),
    }
}

/// The text content of a symbol or string atom.
pub fn sexp_string_atom(sexp: &Sexp) -> (r: Result<String, BackendError>)
    ensures
        r is Ok <==> ((*sexp) matches Sexp::Atom(a) && atom_string_content(a) is Some),
        r matches Ok(v) ==> ((*sexp) matches Sexp::Atom(a) && atom_string_content(a) == Some(v@)),
{
    match sexp {
        Sexp::Atom(Atom::Sym(val)) => Ok(val.clone()),
        Sexp::Atom(Atom::Str(val)) => Ok(val.clone()),
        _ => Err(BackendError(String::from_str("Failed to parse sexp."))),
    }
}

/// The value of an integer atom.
pub fn sexp_usize_atom(sexp: &Sexp) -> (r: Result<usize, BackendError>)
    ensures
        r is Ok <==> ((*sexp) matches Sexp::Atom(a) && a is Int),
        r matches Ok(v) ==> *sexp == Sexp::Atom(Atom::Int(v)),
{
    match sexp {
        Sexp::Atom(Atom::Int(val)) => Ok(*val),
        _ => Err(BackendError(String::from_str("Failed to parse sexp."))),
    }
}

//
// Positional extraction from raw payload text.
//

/// Whether `p` is a prefix of `s`.
pub open spec fn starts_with_spec(s: Seq<char>, p: Seq<char>) -> bool {
    p.len() <= s.len() && s.subrange(0, p.len() as int) == p
}

/// Whether the text starts with the pattern.
pub fn str_starts_with(chars: &Vec<char>, pat: &str) -> (r: bool)
    ensures
        r == starts_with_spec(chars@, pat@),
{
    let p = str_chars(pat);
    if p.len() > chars.len() {
        proof {
            assert(!starts_with_spec(chars@, pat@));
        }
        return false;
    }
    let mut i: usize = 0;
    while i < p.len()
        invariant
            p@ == pat@,
            p@.len() <= chars@.len(),
            i <= p@.len(),
            forall|j: int| 0 <= j < i ==> chars@[j] == p@[j],
        decreases p@.len() - i,
    {
        if chars[i] != p[i] {
            proof {
                assert(!starts_with_spec(chars@, pat@)) by {
                    if starts_with_spec(chars@, pat@) {
                        assert(chars@.subrange(0, pat@.len() as int)[i as int] == pat@[i as int]);
                    }
                }
            }
            return false;
        }
        i += 1;
    }
    proof {
        assert(chars@.subrange(0, pat@.len() as int) =~= pat@);
    }
    true
}

/// The value of a string of decimal digits, highest first.
pub open spec fn dec_value(s: Seq<char>) -> int
    decreases s.len(),
{
    if s.len() == 0 {
        0
    } else {
        dec_value(s.drop_last()) * 10 + crate::codec::hex_char_val(s.last())
    }
}

/// Whether every character of `s` is a decimal digit.
pub open spec fn all_digits(s: Seq<char>) -> bool {
    forall|i: int| 0 <= i < s.len() ==> is_digit(#[trigger] s[i])
}

/// A digit string's value is not negative.
proof fn lemma_dec_value_nonneg(s: Seq<char>)
    requires
        all_digits(s),
    ensures
        dec_value(s) >= 0,
    decreases s.len(),
{
    if s.len() > 0 {
        assert(forall|i: int| 0 <= i < s.drop_last().len() ==> is_digit(#[trigger] s.drop_last()[i]));
        lemma_dec_value_nonneg(s.drop_last());
    }
}

/// A digit string's value is at least the value of any of its prefixes.
proof fn lemma_dec_value_prefix(s: Seq<char>, i: int)
    requires
        all_digits(s),
        0 <= i <= s.len(),
    ensures
        dec_value(s) >= dec_value(s.take(i)),
    decreases s.len(),
{
    if i == s.len() {
        assert(s.take(i) =~= s);
    } else {
        let front = s.drop_last();
        assert(forall|j: int| 0 <= j < front.len() ==> is_digit(#[trigger] front[j]));
        lemma_dec_value_prefix(front, i);
        lemma_dec_value_nonneg(front);
        lemma_dec_value_nonneg(s);
        assert(front.take(i) =~= s.take(i));
        assert(dec_value(s) == dec_value(front) * 10 + crate::codec::hex_char_val(s.last()));
        assert(dec_value(front) * 10 >= dec_value(front));
    }
}

/// The start of the maximal run of digits ending at `e`.
pub open spec fn digit_run_start(s: Seq<char>, e: int) -> int
    decreases e,
{
    if e > 0 && e <= s.len() && is_digit(s[e - 1]) {
        digit_run_start(s, e - 1)
    } else {
        e
    }
}

/// The continuation id echoed at the tail of a reply: a run of digits
/// between a space and the final closing parenthesis.
pub open spec fn continuation_of(s: Seq<char>) -> Option<int> {
    if s.len() >= 1 && s.last() == ')' {
        let e = s.len() - 1;
        let d = digit_run_start(s, e);
        if d < e && d >= 1 && s[d - 1] == ' ' {
            Some(dec_value(s.subrange(d, e)))
        } else {
            None
        }
    } else {
        None
    }
}

/// Finds the start of the maximal digit run ending at `e`.
fn find_digit_run_start(chars: &Vec<char>, e: usize) -> (d: usize)
    requires
        e <= chars@.len(),
    ensures
        d == digit_run_start(chars@, e as int),
        d <= e,
        forall|j: int| d <= j < e ==> is_digit(#[trigger] chars@[j]),
    decreases e,
{
    let mut d = e;
    while d > 0 && is_digit_char(chars[d - 1])
        invariant
            d <= e <= chars@.len(),
            digit_run_start(chars@, e as int) == digit_run_start(chars@, d as int),
            forall|j: int| d <= j < e ==> is_digit(#[trigger] chars@[j]),
        decreases d,
    {
        d -= 1;
    }
    d
}

/// Whether the character is a decimal digit.
fn is_digit_char(c: char) -> (r: bool)
    ensures
        r == is_digit(c),
{
    c == '0' || c == '1' || c == '2' || c == '3' || c == '4' || c == '5' || c == '6' || c == '7'
        || c == '8' || c == '9'
}

/// Reads the decimal value of `chars[from..to]`; `None` on overflow.
fn read_digits(chars: &Vec<char>, from: usize, to: usize) -> (r: Option<usize>)
    requires
        from <= to <= chars@.len(),
        forall|j: int| from <= j < to ==> is_digit(#[trigger] chars@[j]),
    ensures
        ({
            let run = chars@.subrange(from as int, to as int);
            match r {
                Some(v) => v as int == dec_value(run),
                None => dec_value(run) > usize::MAX,
            }
        }),
{
    let ghost run = chars@.subrange(from as int, to as int);
    proof {
        assert(all_digits(run));
        assert(run.take(0) =~= Seq::<char>::empty());
    }
    let mut acc: usize = 0;
    let mut i: usize = from;
    while i < to
        invariant
            from <= i <= to <= chars@.len(),
            forall|j: int| from <= j < to ==> is_digit(#[trigger] chars@[j]),
            run == chars@.subrange(from as int, to as int),
            all_digits(run),
            acc as int == dec_value(run.take(i - from)),
        decreases to - i,
    {
        let c = chars[i];
        let dv = digit_value(c);
        proof {
            assert(run.take(i + 1 - from).drop_last() =~= run.take(i - from));
            assert(run.take(i + 1 - from).last() == run[i - from]);
            assert(run[i - from] == chars@[i as int]);
        }
        if acc > (usize::MAX - dv) / 10 {
            proof {
                assert(acc * 10 + dv > usize::MAX) by (nonlinear_arith)
                    requires
                        acc > (usize::MAX - dv) / 10,
                        dv <= usize::MAX,
                        acc >= 0,
                ;
                lemma_dec_value_prefix(run, i + 1 - from);
            }
            return None;
        }
        proof {
            assert(acc * 10 + dv <= usize::MAX) by (nonlinear_arith)
                requires
                    acc <= (usize::MAX - dv) / 10,
                    dv <= usize::MAX,
                    acc >= 0,
            ;
        }
        acc = acc * 10 + dv;
        i += 1;
    }
    proof {
        assert(run.take(to - from) =~= run);
    }
    Some(acc)
}

/// Reads the continuation id echoed at the end of a reply, where the reply
/// has that shape and the id fits the machine word.
pub fn get_continuation(return_value: &str) -> (r: Option<usize>)
    ensures
        !starts_with_spec(return_value@, "(:return "@) ==> r is None,
        starts_with_spec(return_value@, "(:return "@) ==> match r {
            Some(v) => continuation_of(return_value@) == Some(v as int) && digit_run_start(
                return_value@,
                return_value@.len() - 1,
            ) >= 11,
            None => continuation_of(return_value@) is None || digit_run_start(
                return_value@,
                return_value@.len() - 1,
            ) < 11 || (continuation_of(return_value@) matches Some(v) && v > usize::MAX),
        },
{
    let chars = str_chars(return_value);
    if !str_starts_with(&chars, "(:return ") {
        return None;
    }
    if chars.len() < 1 {
        return None;
    }
    let c = chars[chars.len() - 1];
    if c != ')' {
        return None;
    }
    let e = chars.len() - 1;
    let d = find_digit_run_start(&chars, e);
    if d < e && d >= 11 && chars[d - 1] == ' ' {
        read_digits(&chars, d, e)
    } else {
        None
    }
}

/// Drops trailing spaces.
pub open spec fn trim_trailing_spaces(s: Seq<char>) -> Seq<char>
    decreases s.len(),
{
    if s.len() > 0 && s.last() == ' ' {
        trim_trailing_spaces(s.drop_last())
    } else {
        s
    }
}

/// The value body of a `:return` reply: the text between the status marker
/// and the trailing `) <continuation>)`, with trailing spaces ignored.
pub open spec fn return_value_region(s: Seq<char>) -> Option<Seq<char>> {
    let t = trim_trailing_spaces(s);
    let plen: int = if starts_with_spec(s, "(:return (:ok "@) {
        14
    } else if starts_with_spec(s, "(:return (:abort "@) {
        17
    } else {
        -1
    };
    if plen < 0 {
        None
    } else if t.len() < plen + 5 || t.last() != ')' {
        None
    } else {
        let e = t.len() - 1;
        let d = digit_run_start(t, e);
        if d < e && d - 2 > plen && t[d - 1] == ' ' && t[d - 2] == ')' {
            Some(t.subrange(plen, d - 2))
        } else {
            None
        }
    }
}

/// Copies the characters with trailing spaces dropped.
fn trim_trailing(chars: &Vec<char>) -> (r: Vec<char>)
    ensures
        r@ == trim_trailing_spaces(chars@),
{
    let mut end = chars.len();
    proof {
        assert(chars@.take(chars@.len() as int) =~= chars@);
    }
    while end > 0 && chars[end - 1] == ' '
        invariant
            end <= chars@.len(),
            trim_trailing_spaces(chars@) == trim_trailing_spaces(chars@.take(end as int)),
        decreases end,
    {
        proof {
            assert(chars@.take(end as int).drop_last() =~= chars@.take(end - 1 as int));
            assert(chars@.take(end as int).last() == chars@[end - 1]);
        }
        end -= 1;
    }
    let r = slice_range_chars(chars, 0, end);
    proof {
        if end > 0 {
            assert(chars@.take(end as int).last() == chars@[end - 1]);
        }
        assert(trim_trailing_spaces(chars@.take(end as int)) =~= chars@.take(end as int));
        assert(chars@.subrange(0, end as int) =~= chars@.take(end as int));
    }
    r
}

/// Copies the characters in positions `from..to` into a string.
pub(crate) fn copy_text_range(v: &Vec<char>, from: usize, to: usize) -> (r: String)
    requires
        from <= to <= v@.len(),
    ensures
        r@ == v@.subrange(from as int, to as int),
{
    let part = slice_range_chars(v, from, to);
    crate::text::chars_to_string(&part)
}

/// Copies the characters in positions `from..to`.
fn slice_range_chars(v: &Vec<char>, from: usize, to: usize) -> (r: Vec<char>)
    requires
        from <= to <= v@.len(),
    ensures
        r@ == v@.subrange(from as int, to as int),
{
    let mut out: Vec<char> = Vec::new();
    let mut i: usize = from;
    while i < to
        invariant
            from <= i <= to <= v@.len(),
            out@ == v@.subrange(from as int, i as int),
        decreases to - i,
    {
        out.push(v[i]);
        proof {
            assert(v@.subrange(from as int, i + 1 as int) =~= v@.subrange(from as int, i as int)
                .push(v@[i as int]));
        }
        i += 1;
    }
    out
}

//
// Shape helpers over parsed trees.
//

/// The text content of the `n`-th child, where it is a symbol or string atom.
pub open spec fn nth_string_content(s: Sexp, n: int) -> Option<Seq<char>> {
    if s matches Sexp::List(c) && 0 <= n < c@.len() && c@[n] is Atom {
        atom_string_content(s->List_0@[n]->Atom_0)
    } else {
        None
    }
}

/// The value of the `n`-th child, where it is an integer atom.
pub open spec fn nth_int(s: Sexp, n: int) -> Option<int> {
    if s matches Sexp::List(c) && 0 <= n < c@.len() && (c@[n] matches Sexp::Atom(a) && a is Int) {
        Some(s->List_0@[n]->Atom_0->Int_0 as int)
    } else {
        None
    }
}

/// Whether `p` is a suffix of `s`.
pub open spec fn ends_with_spec(s: Seq<char>, p: Seq<char>) -> bool {
    p.len() <= s.len() && s.subrange(s.len() - p.len(), s.len() as int) == p
}

/// Whether the text ends with the pattern.
pub fn str_ends_with(chars: &Vec<char>, pat: &str) -> (r: bool)
    ensures
        r == ends_with_spec(chars@, pat@),
{
    let p = str_chars(pat);
    if p.len() > chars.len() {
        proof {
            assert(!ends_with_spec(chars@, pat@));
        }
        return false;
    }
    let off = chars.len() - p.len();
    let mut i: usize = 0;
    while i < p.len()
        invariant
            p@ == pat@,
            p@.len() <= chars@.len(),
            chars@.len() <= usize::MAX,
            off == chars@.len() - p@.len(),
            i <= p@.len(),
            forall|j: int| 0 <= j < i ==> chars@[off + j] == p@[j],
        decreases p@.len() - i,
    {
        if chars[off + i] != p[i] {
            proof {
                assert(!ends_with_spec(chars@, pat@)) by {
                    if ends_with_spec(chars@, pat@) {
                        assert(chars@.subrange(
                            chars@.len() - pat@.len(),
                            chars@.len() as int,
                        )[i as int] == pat@[i as int]);
                    }
                }
            }
            return false;
        }
        i += 1;
    }
    proof {
        assert(chars@.subrange(chars@.len() - pat@.len(), chars@.len() as int) =~= pat@);
    }
    true
}

/// Whether two texts hold the same characters.
fn str_eq(a: &str, b: &str) -> (r: bool)
    ensures
        r == (a@ == b@),
{
    let av = str_chars(a);
    let bv = str_chars(b);
    if av.len() != bv.len() {
        proof {
            assert(a@ != b@);
        }
        return false;
    }
    let mut i: usize = 0;
    while i < av.len()
        invariant
            av@ == a@,
            bv@ == b@,
            a@.len() == b@.len(),
            i <= a@.len(),
            forall|j: int| 0 <= j < i ==> a@[j] == b@[j],
        decreases av@.len() - i,
    {
        if av[i] != bv[i] {
            return false;
        }
        i += 1;
    }
    proof {
        assert(a@ =~= b@);
    }
    true
}

/// The value following the first occurrence of `key` in a property list;
/// `None` where the key is absent or stands last.
pub open spec fn prop_value(kv: Seq<Sexp>, key: Seq<char>) -> Option<Sexp>
    decreases kv.len(),
{
    if kv.len() == 0 {
        None
    } else if kv[0] matches Sexp::Atom(a) && atom_string_content(a) == Some(key) {
        if kv.len() >= 2 {
            Some(kv[1])
        } else {
            None
        }
    } else {
        prop_value(kv.drop_first(), key)
    }
}

/// Finds the value following the first occurrence of `key` in a property
/// list.
fn find_prop<'a>(kv: &'a Vec<Sexp>, key: &str) -> (r: Option<&'a Sexp>)
    ensures
        match r {
            Some(v) => prop_value(kv@, key@) == Some(*v),
            None => prop_value(kv@, key@) is None,
        },
{
    let mut i: usize = 0;
    proof {
        assert(kv@.skip(0) =~= kv@);
    }
    while i < kv.len()
        invariant
            i <= kv@.len(),
            prop_value(kv@.skip(i as int), key@) == prop_value(kv@, key@),
        decreases kv@.len() - i,
    {
        let ghost rest = kv@.skip(i as int);
        proof {
            assert(rest[0] == kv@[i as int]);
            assert(rest.drop_first() =~= kv@.skip(i + 1 as int));
        }
        let hit = match &kv[i] {
            Sexp::Atom(Atom::Sym(t)) => str_eq(t.as_str(), key),
            Sexp::Atom(Atom::Str(t)) => str_eq(t.as_str(), key),
            _ => false,
        };
        if hit {
            if i + 1 < kv.len() {
                proof {
                    assert(rest[1] == kv@[i + 1]);
                }
                return Some(&kv[i + 1]);
            } else {
                return None;
            }
        }
        i += 1;
    }
    None
}

//
// Find-definitions results.
//

/// How one found-definition record relates to its source tree: a label and
/// either an error string or a location with file, position and snippet.
pub open spec fn definition_matches(def: Sexp, fd: FoundDefinition) -> bool {
    &&& nth_string_content(def, 0) == Some(fd.label@)
    &&& def matches Sexp::List(parts)
    &&& parts@.len() >= 2
    &&& {
        let loc = parts@[1];
        if nth_string_content(loc, 0) == Some(":error"@) {
            &&& (fd.error matches Some(e) && nth_string_content(loc, 1) == Some(e@))
            &&& fd.file is None
            &&& fd.position is None
            &&& fd.snippet is None
        } else {
            &&& loc matches Sexp::List(lc)
            &&& lc@.len() >= 4
            &&& nth_string_content(loc, 0) is Some
            &&& fd.error is None
            &&& (match fd.file {
                Some(f) => nth_string_content(lc@[1], 1) == Some(f@),
                None => nth_string_content(lc@[1], 1) is None,
            })
            &&& (match fd.position {
                Some(p) => nth_int(lc@[2], 1) == Some(p as int),
                None => nth_int(lc@[2], 1) is None,
            })
            &&& (if sexp_is_nil_spec(lc@[3]) {
                fd.snippet is None
            } else {
                fd.snippet matches Some(sn) && nth_string_content(lc@[3], 1) == Some(sn@)
            })
        }
    }
}

/// Whether a find-definitions entry has the decodable shape: a label, and a
/// location or error form holding the fields the projection reads.
pub open spec fn is_definition_entry(e: Sexp) -> bool {
    &&& e matches Sexp::List(parts)
    &&& parts@.len() >= 2
    &&& nth_string_content(e, 0) is Some
    &&& {
        let loc = parts@[1];
        if nth_string_content(loc, 0) == Some(":error"@) {
            nth_string_content(loc, 1) is Some
        } else {
            &&& nth_string_content(loc, 0) is Some
            &&& (loc matches Sexp::List(lc) && lc@.len() >= 4 && (sexp_is_nil_spec(lc@[3])
                || nth_string_content(lc@[3], 1) is Some))
        }
    }
}

/// Agreement in text carries `nil`-ness across.
proof fn lemma_nil_agree(a: Sexp, b: Sexp)
    requires
        sexp_same_text(a, b),
    ensures
        sexp_is_nil_spec(a) == sexp_is_nil_spec(b),
{
}

/// Agreement in text carries the find-definitions entry shape across.
proof fn lemma_def_entry_agree(a: Sexp, b: Sexp)
    requires
        sexp_same_text(a, b),
    ensures
        is_definition_entry(a) == is_definition_entry(b),
{
    match (a, b) {
        (Sexp::List(xs), Sexp::List(ys)) => {
            assert forall|k: int| 0 <= k < xs@.len() implies sexp_same_text(
                xs@[k],
                #[trigger] ys@[k],
            ) by {}
            if xs@.len() >= 2 {
                assert(sexp_same_text(xs@[0], ys@[0]));
                assert(sexp_same_text(xs@[1], ys@[1]));
                match (xs@[1], ys@[1]) {
                    (Sexp::List(l1), Sexp::List(l2)) => {
                        assert forall|k: int| 0 <= k < l1@.len() implies sexp_same_text(
                            l1@[k],
                            #[trigger] l2@[k],
                        ) by {}
                        if l1@.len() >= 4 {
                            assert(sexp_same_text(l1@[3], l2@[3]));
                            lemma_nil_agree(l1@[3], l2@[3]);
                            match (l1@[3], l2@[3]) {
                                (Sexp::List(s1), Sexp::List(s2)) => {
                                    assert forall|k: int| 0 <= k < s1@.len()
                                        implies sexp_same_text(s1@[k], #[trigger] s2@[k]) by {}
                                },
                                _ => {},
                            }
                        }
                    },
                    _ => {},
                }
            }
        },
        _ => {},
    }
}

/// Projects a find-definitions reply value into its records, one per entry,
/// in input order.  The projection succeeds exactly where the value is `nil`
/// or every entry has the decodable shape.
pub fn parse_found_definitions(tree: &Sexp) -> (r: Result<Vec<FoundDefinition>, BackendError>)
    ensures
        r is Ok <==> (sexp_is_nil_spec(*tree) || (*tree matches Sexp::List(c) && (forall|i: int|
            0 <= i < c@.len() ==> is_definition_entry(#[trigger] c@[i])))),
        r matches Ok(v) ==> (if sexp_is_nil_spec(*tree) {
            v@.len() == 0
        } else {
            *tree matches Sexp::List(c) && v@.len() == c@.len() && (forall|i: int|
                0 <= i < c@.len() ==> definition_matches(c@[i], #[trigger] v@[i]))
        }),
{
    let mut definitions: Vec<FoundDefinition> = Vec::new();
    if sexp_is_nil(tree) {
        return Ok(definitions);
    }
    let children = match tree {
        Sexp::List(c) => c,
        _ => {
            return Err(BackendError(String::from_str("Failed to parse sexp.")));
        },
    };
    let mut i: usize = 0;
    while i < children.len()
        invariant
            i <= children@.len(),
            *tree == Sexp::List(*children),
            !sexp_is_nil_spec(*tree),
            definitions@.len() == i,
            forall|j: int|
                0 <= j < i ==> definition_matches(children@[j], #[trigger] definitions@[j]),
            forall|j: int| 0 <= j < i ==> is_definition_entry(#[trigger] children@[j]),
        decreases children@.len() - i,
    {
        let def = &children[i];
        let label = match sexp_list_nth_as_string(def, 0) {
            Ok(l) => l,
            Err(e) => {
                proof {
                    assert(tree->List_0 == *children);
                    assert(!is_definition_entry(tree->List_0@[i as int]));
                }
                return Err(e);
            },
        };
        let location = match sexp_list_nth(def, 1) {
            Ok(l) => l,
            Err(e) => {
                proof {
                    assert(tree->List_0 == *children);
                    assert(!is_definition_entry(tree->List_0@[i as int]));
                }
                return Err(e);
            },
        };
        let location_or_err = match sexp_list_nth_as_string(location, 0) {
            Ok(l) => l,
            Err(e) => {
                proof {
                    assert(tree->List_0 == *children);
                    assert(!is_definition_entry(tree->List_0@[i as int]));
                }
                return Err(e);
            },
        };
        if str_eq(location_or_err.as_str(), ":error") {
            let err_text = match sexp_list_nth_as_string(location, 1) {
                Ok(t) => t,
                Err(e) => {
                    proof {
                        assert(tree->List_0 == *children);
                        assert(!is_definition_entry(tree->List_0@[i as int]));
                    }
                    return Err(e);
                },
            };
            definitions.push(
                FoundDefinition {
                    label,
                    error: Some(err_text),
                    file: None,
                    position: None,
                    snippet: None,
                },
            );
        } else {
            let lfile = match sexp_list_nth(location, 1) {
                Ok(l) => l,
                Err(e) => {
                    proof {
                        assert(tree->List_0 == *children);
                        assert(!is_definition_entry(tree->List_0@[i as int]));
                    }
                    return Err(e);
                },
            };
            let file = match sexp_list_nth_as_string(lfile, 1) {
                Ok(f) => Some(f),
                Err(_) => None,
            };
            let lpos = match sexp_list_nth(location, 2) {
                Ok(l) => l,
                Err(e) => {
                    proof {
                        assert(tree->List_0 == *children);
                        assert(!is_definition_entry(tree->List_0@[i as int]));
                    }
                    return Err(e);
                },
            };
            let position = match sexp_list_nth_as_usize(lpos, 1) {
                Ok(p) => Some(p),
                Err(_) => None,
            };
            let lsnippet = match sexp_list_nth(location, 3) {
                Ok(l) => l,
                Err(e) => {
                    proof {
                        assert(tree->List_0 == *children);
                        assert(!is_definition_entry(tree->List_0@[i as int]));
                    }
                    return Err(e);
                },
            };
            let snippet = if sexp_is_nil(lsnippet) {
                None
            } else {
                match sexp_list_nth_as_string(lsnippet, 1) {
                    Ok(sn) => Some(sn),
                    Err(e) => {
                        proof {
                            assert(tree->List_0 == *children);
                            assert(!is_definition_entry(tree->List_0@[i as int]));
                        }
                        return Err(e);
                    },
                }
            };
            definitions.push(FoundDefinition { label, error: None, file, position, snippet });
        }
        proof {
            assert(is_definition_entry(children@[i as int]));
        }
        i += 1;
    }
    Ok(definitions)
}

//
// Compilation results.
//

/// Whether the value is the boolean-true token `t` (either case).
pub open spec fn sym_is_t(s: Sexp) -> bool {
    s matches Sexp::Atom(a) && (atom_string_content(a) == Some("t"@) || atom_string_content(a)
        == Some("T"@))
}

/// Whether the value is the boolean-true token `t`.
fn atom_is_t(s: &Sexp) -> (r: bool)
    ensures
        r == sym_is_t(*s),
{
    match s {
        Sexp::Atom(Atom::Sym(v)) => str_eq(v.as_str(), "t") || str_eq(v.as_str(), "T"),
        Sexp::Atom(Atom::Str(v)) => str_eq(v.as_str(), "t") || str_eq(v.as_str(), "T"),
        _ => false,
    }
}

/// The artifact path of a compilation result: `nil` is absence, any other
/// atom its text.
pub open spec fn fasl_of(s: Sexp) -> Option<Seq<char>> {
    if sexp_is_nil_spec(s) {
        None
    } else {
        match s {
            Sexp::Atom(a) => match a {
                Atom::Sym(t) => Some(t@),
                Atom::Str(t) => Some(t@),
                Atom::Int(n) => Some(crate::repl::dec_digits_of(n as int)),
            },
            Sexp::List(_) => None,
        }
    }
}

/// Whether a notes-list entry is a well-formed compiler message: a property
/// list with a `:message` string, a `:severity` keyword and a `:location`
/// naming a file.
pub open spec fn is_message_entry(e: Sexp) -> bool {
    &&& e is List
    &&& (prop_value(e->List_0@, ":message"@) matches Some(m) && m matches Sexp::Atom(ma)
        && atom_string_content(ma) is Some)
    &&& (prop_value(e->List_0@, ":severity"@) matches Some(sv) && sv matches Sexp::Atom(sa)
        && (atom_string_content(sa) matches Some(t) && t.len() >= 1 && t[0] == ':'))
    &&& (prop_value(e->List_0@, ":location"@) matches Some(l) && l matches Sexp::List(lc)
        && lc@.len() >= 2 && nth_string_content(lc@[1], 1) is Some)
}

/// How one compiler note relates to its entry: the message text, the
/// severity keyword without its colon, and the file of the location.
pub open spec fn note_matches(e: Sexp, n: CompilerNotes) -> bool {
    &&& is_message_entry(e)
    &&& (prop_value(e->List_0@, ":message"@) matches Some(m) && m matches Sexp::Atom(ma)
        && atom_string_content(ma) == Some(n.message@))
    &&& (prop_value(e->List_0@, ":severity"@) matches Some(sv) && sv matches Sexp::Atom(sa)
        && (atom_string_content(sa) matches Some(t) && n.severity@ == t.skip(1)))
    &&& (n.file matches Some(f) && (prop_value(e->List_0@, ":location"@) matches Some(l) && l
        matches Sexp::List(lc) && nth_string_content(lc@[1], 1) == Some(f@)))
    &&& n.position is None
}

/// The well-formed compiler messages among the entries, in order.
pub open spec fn message_entries(s: Seq<Sexp>) -> Seq<Sexp>
    decreases s.len(),
{
    if s.len() == 0 {
        Seq::empty()
    } else {
        message_entries(s.drop_last()) + (if is_message_entry(s.last()) {
            seq![s.last()]
        } else {
            Seq::empty()
        })
    }
}

/// Whether the entry is a well-formed compiler message.
fn check_message_entry(e: &Sexp) -> (r: bool)
    ensures
        r == is_message_entry(*e),
{
    let kv = match e {
        Sexp::List(kv) => kv,
        _ => {
            return false;
        },
    };
    let m_ok = match find_prop(kv, ":message") {
        Some(Sexp::Atom(Atom::Sym(_))) => true,
        Some(Sexp::Atom(Atom::Str(_))) => true,
        _ => false,
    };
    let s_ok = match find_prop(kv, ":severity") {
        Some(Sexp::Atom(Atom::Sym(t))) => starts_with_colon(t.as_str()),
        Some(Sexp::Atom(Atom::Str(t))) => starts_with_colon(t.as_str()),
        _ => false,
    };
    let l_ok = match find_prop(kv, ":location") {
        Some(Sexp::List(lc)) => {
            if lc.len() >= 2 {
                match sexp_list_nth_as_string(&lc[1], 1) {
                    Ok(_) => true,
                    Err(_) => false,
                }
            } else {
                false
            }
        },
        _ => false,
    };
    m_ok && s_ok && l_ok
}

/// Whether the text starts with a colon.
fn starts_with_colon(t: &str) -> (r: bool)
    ensures
        r == (t@.len() >= 1 && t@[0] == ':'),
{
    let chars = str_chars(t);
    chars.len() >= 1 && chars[0] == ':'
}

/// Projects the notes list of a compilation result: one note per well-formed
/// `:message` entry, in order; an entry of any other shape is passed over
/// rather than refused.
pub fn parse_compiler_notes(entries: &Vec<Sexp>) -> (r: Vec<CompilerNotes>)
    ensures
        r@.len() == message_entries(entries@).len(),
        forall|i: int|
            0 <= i < r@.len() ==> note_matches(message_entries(entries@)[i], #[trigger] r@[i]),
{
    let mut notes: Vec<CompilerNotes> = Vec::new();
    let mut i: usize = 0;
    proof {
        assert(entries@.take(0) =~= Seq::<Sexp>::empty());
    }
    while i < entries.len()
        invariant
            i <= entries@.len(),
            notes@.len() == message_entries(entries@.take(i as int)).len(),
            forall|j: int|
                0 <= j < notes@.len() ==> note_matches(
                    message_entries(entries@.take(i as int))[j],
                    #[trigger] notes@[j],
                ),
        decreases entries@.len() - i,
    {
        let ghost prefix = entries@.take(i as int);
        proof {
            assert(entries@.take(i + 1 as int).drop_last() =~= prefix);
            assert(entries@.take(i + 1 as int).last() == entries@[i as int]);
        }
        let e = &entries[i];
        if check_message_entry(e) {
            let kv = match e {
                Sexp::List(kv) => kv,
                _ => {
                    proof {
                        assert(false);
                    }
                    unreached()
                },
            };
            let message = match find_prop(kv, ":message") {
                Some(Sexp::Atom(Atom::Sym(t))) => t.clone(),
                Some(Sexp::Atom(Atom::Str(t))) => t.clone(),
                _ => {
                    proof {
                        assert(false);
                    }
                    unreached()
                },
            };
            let severity_raw = match find_prop(kv, ":severity") {
                Some(Sexp::Atom(Atom::Sym(t))) => t.clone(),
                Some(Sexp::Atom(Atom::Str(t))) => t.clone(),
                _ => {
                    proof {
                        assert(false);
                    }
                    unreached()
                },
            };
            let severity = drop_first_char(severity_raw.as_str());
            let file = match find_prop(kv, ":location") {
                Some(Sexp::List(lc)) => {
                    if lc.len() >= 2 {
                        match sexp_list_nth_as_string(&lc[1], 1) {
                            Ok(f) => Some(f),
                            Err(_) => None,
                        }
                    } else {
                        None
                    }
                },
                _ => None,
            };
            proof {
                assert(message_entries(entries@.take(i + 1 as int)) =~= message_entries(
                    prefix,
                ).push(entries@[i as int]));
            }
            notes.push(CompilerNotes { message, severity, file, position: None });
        } else {
            proof {
                assert(message_entries(entries@.take(i + 1 as int)) =~= message_entries(prefix));
            }
        }
        i += 1;
    }
    proof {
        assert(entries@.take(entries@.len() as int) =~= entries@);
    }
    notes
}

/// The text without its first character.
fn drop_first_char(t: &str) -> (r: String)
    ensures
        t@.len() >= 1 ==> r@ == t@.skip(1),
        t@.len() == 0 ==> r@ == t@,
{
    let chars = str_chars(t);
    if chars.len() == 0 {
        proof {
            assert(chars@ =~= t@);
        }
        return crate::text::chars_to_string(&chars);
    }
    let rest = slice_range_chars(&chars, 1, chars.len());
    proof {
        assert(t@.subrange(1, t@.len() as int) =~= t@.skip(1));
    }
    crate::text::chars_to_string(&rest)
}

/// Whether a parsed reply value has the compilation-result shape the decoder
/// recognizes: a six-element list headed by the `:compilation-result` tag.
pub open spec fn compilation_shape(t: Sexp) -> bool {
    t matches Sexp::List(c) && c@.len() == 6 && nth_string_content(t, 0) == Some(
        ":compilation-result"@,
    )
}

/// Agreement in text carries the compilation-result shape across.
proof fn lemma_compilation_shape_agree(a: Sexp, b: Sexp)
    requires
        sexp_same_text(a, b),
    ensures
        compilation_shape(a) == compilation_shape(b),
{
    match (a, b) {
        (Sexp::List(xs), Sexp::List(ys)) => {
            if xs@.len() >= 1 {
                assert(sexp_same_text(xs@[0], ys@[0]));
            }
        },
        _ => {},
    }
}

/// How a decoded compilation answer relates to its tree: the success and
/// load flags, the printed duration, the artifact path and the notes, one
/// per well-formed `:message` entry.
pub open spec fn compilation_result_matches(t: Sexp, a: SlynkAnswer) -> bool {
    &&& compilation_shape(t)
    &&& (a matches SlynkAnswer::ReturnCompilationResult {
        notes,
        success,
        duration,
        loadp,
        fasl_file,
        ..
    } && (t matches Sexp::List(c) && success == sym_is_t(c@[2]) && loadp == sym_is_t(c@[4])
        && duration@ == sexp_text(c@[3]) && (match fasl_file {
        Some(f) => fasl_of(c@[5]) == Some(f@),
        None => fasl_of(c@[5]) is None,
    }) && (match notes {
        Some(v) => c@[1] matches Sexp::List(nl) && v@.len() == message_entries(nl@).len()
            && v@.len() >= 1 && (forall|i: int|
            0 <= i < v@.len() ==> note_matches(message_entries(nl@)[i], #[trigger] v@[i])),
        None => c@[1] matches Sexp::List(nl) ==> message_entries(nl@).len() == 0,
    })))
}

/// Projects a `(:compilation-result notes success duration loadp fasl-file)`
/// value into its typed answer.  The one failure is an artifact field that
/// is itself a list; every other tree of the given shape decodes.
pub fn parse_compilation_result(tree: &Sexp, continuation: usize) -> (r: Result<
    SlynkAnswer,
    BackendError,
>)
    requires
        *tree matches Sexp::List(c) && c@.len() == 6,
    ensures
        r is Err <==> (*tree matches Sexp::List(c) && c@[5] is List),
        r matches Ok(a) ==> (compilation_shape(*tree) ==> compilation_result_matches(*tree, a)),
        r matches Ok(a) ==> (*tree matches Sexp::List(c) && (a
            matches SlynkAnswer::ReturnCompilationResult {
                continuation: ct,
                notes,
                success,
                duration,
                loadp,
                fasl_file,
            } && ct == continuation && success == sym_is_t(c@[2]) && loadp == sym_is_t(c@[4])
            && duration@ == sexp_text(c@[3]) && (match fasl_file {
                Some(f) => fasl_of(c@[5]) == Some(f@),
                None => fasl_of(c@[5]) is None,
            }) && (match notes {
                Some(v) => c@[1] matches Sexp::List(nl) && v@.len() == message_entries(nl@).len()
                    && v@.len() >= 1 && (forall|i: int|
                    0 <= i < v@.len() ==> note_matches(
                        message_entries(nl@)[i],
                        #[trigger] v@[i],
                    )),
                None => c@[1] matches Sexp::List(nl) ==> message_entries(nl@).len() == 0,
            }))),
{
    let children = match tree {
        Sexp::List(c) => c,
        _ => {
            proof {
                assert(false);
            }
            unreached()
        },
    };
    let notes = match &children[1] {
        Sexp::List(nl) => {
            let parsed = parse_compiler_notes(nl);
            if parsed.len() > 0 {
                Some(parsed)
            } else {
                None
            }
        },
        _ => None,
    };
    let success = atom_is_t(&children[2]);
    let duration = sexp_to_text(&children[3]);
    let loadp = atom_is_t(&children[4]);
    let fasl_file = if sexp_is_nil(&children[5]) {
        None
    } else {
        match &children[5] {
            Sexp::Atom(Atom::Sym(t)) => Some(t.clone()),
            Sexp::Atom(Atom::Str(t)) => Some(t.clone()),
            Sexp::Atom(Atom::Int(n)) => Some(crate::repl::usize_to_dec(*n)),
            Sexp::List(_) => {
                return Err(BackendError(String::from_str("Failed to parse sexp.")));
            },
        }
    };
    Ok(
        SlynkAnswer::ReturnCompilationResult {
            continuation,
            notes,
            success,
            duration,
            loadp,
            fasl_file,
        },
    )
}

//
// Debugger pushes.
//

/// The text without its last and then its first character; shorter text
/// leaves nothing.
pub open spec fn strip_ends_spec(s: Seq<char>) -> Seq<char> {
    if s.len() >= 2 {
        s.subrange(1, s.len() - 1)
    } else {
        Seq::empty()
    }
}

/// How one restart relates to its entry: the printed short name and the
/// description with its surrounding quotes dropped.
pub open spec fn restart_matches(e: Sexp, r: Restart) -> bool {
    &&& e matches Sexp::List(rp)
    &&& rp@.len() >= 2
    &&& r.short@ == sexp_text(rp@[0])
    &&& r.desc@ == strip_ends_spec(crate::text::unescape_quotes_spec(sexp_text(rp@[1])))
}

/// Whether a debugger push has the decodable shape: integer thread and
/// level, a two-part condition, restart pairs, and a frames list.
pub open spec fn debug_shape(t: Sexp) -> bool {
    &&& t matches Sexp::List(c)
    &&& c@.len() >= 7
    &&& (c@[1] matches Sexp::Atom(a) && a is Int)
    &&& (c@[2] matches Sexp::Atom(a) && a is Int)
    &&& (c@[3] matches Sexp::List(cnd) && cnd@.len() >= 2)
    &&& (c@[4] matches Sexp::List(rs) && (forall|i: int|
        0 <= i < rs@.len() ==> ((#[trigger] rs@[i]) matches Sexp::List(rp) && rp@.len() >= 2)))
    &&& c@[5] is List
}

/// How a decoded debugger push relates to its tree: thread, level, the
/// condition texts, the restarts and frames in order, and the continuation
/// markers, an empty list where the field is an atom.
pub open spec fn debug_matches(t: Sexp, a: SlynkAnswer) -> bool {
    &&& debug_shape(t)
    &&& (a matches SlynkAnswer::Debug {
        thread,
        level,
        condition,
        restarts,
        frames,
        continuations,
    } && (t matches Sexp::List(c) && nth_int(t, 1) == Some(thread as int) && nth_int(t, 2)
        == Some(level as int) && (c@[3] matches Sexp::List(cnd) && condition.desc@
        == crate::text::unescape_quotes_spec(crate::text::trim_quotes_spec(sexp_text(cnd@[0])))
        && condition.ctype@ == crate::text::unescape_quotes_spec(
        crate::text::trim_quotes_spec(sexp_text(cnd@[1])),
    )) && (c@[4] matches Sexp::List(rs) && restarts@.len() == rs@.len() && (forall|i: int|
        0 <= i < rs@.len() ==> restart_matches(rs@[i], #[trigger] restarts@[i]))) && (c@[5]
        matches Sexp::List(fs) && frames@.len() == fs@.len() && (forall|i: int|
        0 <= i < fs@.len() ==> (#[trigger] frames@[i])@ == sexp_text(fs@[i]))) && (match c@[6] {
        Sexp::List(cs) => continuations@.len() == cs@.len() && (forall|i: int|
            0 <= i < cs@.len() ==> (#[trigger] continuations@[i])@ == sexp_text(cs@[i])),
        Sexp::Atom(_) => continuations@.len() == 0,
    })))
}

/// Agreement in text carries the debugger-push shape across.
proof fn lemma_debug_shape_agree(a: Sexp, b: Sexp)
    requires
        sexp_same_text(a, b),
    ensures
        debug_shape(a) == debug_shape(b),
{
    match (a, b) {
        (Sexp::List(xs), Sexp::List(ys)) => {
            assert forall|k: int| 0 <= k < xs@.len() implies sexp_same_text(
                xs@[k],
                #[trigger] ys@[k],
            ) by {}
            assert forall|k: int| 0 <= k < xs@.len() implies sexp_same_text(
                #[trigger] xs@[k],
                ys@[k],
            ) by {}
            if xs@.len() >= 7 {
                assert(sexp_same_text(xs@[1], ys@[1]));
                assert(sexp_same_text(xs@[2], ys@[2]));
                assert(sexp_same_text(xs@[3], ys@[3]));
                assert(sexp_same_text(xs@[5], ys@[5]));
                match (xs@[4], ys@[4]) {
                    (Sexp::List(r1), Sexp::List(r2)) => {
                        assert forall|i: int| 0 <= i < r1@.len() implies sexp_same_text(
                            r1@[i],
                            #[trigger] r2@[i],
                        ) by {}
                        assert forall|i: int| 0 <= i < r1@.len() implies sexp_same_text(
                            #[trigger] r1@[i],
                            r2@[i],
                        ) by {}
                    },
                    _ => {},
                }
            }
        },
        _ => {},
    }
}

/// Projects a `(:debug thread level condition restarts frames continuations)`
/// push into its typed answer; a push whose fields do not have that
/// structure is a per-frame decode error.
#[verifier::loop_isolation(false)]
fn parse_debug(tree: &Sexp) -> (r: Result<SlynkAnswer, BackendError>)
    ensures
        r is Ok <==> debug_shape(*tree),
        r matches Ok(a) ==> debug_matches(*tree, a),
{
    let children = match tree {
        Sexp::List(c) => c,
        _ => {
            return Err(BackendError(String::from_str("Failed to parse sexp.")));
        },
    };
    if children.len() < 7 {
        return Err(BackendError(String::from_str("Failed to parse sexp.")));
    }
    let thread = match &children[1] {
        Sexp::Atom(Atom::Int(t)) => *t,
        _ => {
            return Err(BackendError(String::from_str("Failed to parse sexp.")));
        },
    };
    let level = match &children[2] {
        Sexp::Atom(Atom::Int(l)) => *l,
        _ => {
            return Err(BackendError(String::from_str("Failed to parse sexp.")));
        },
    };
    let condition = match &children[3] {
        Sexp::List(cnd) => {
            if cnd.len() < 2 {
                return Err(BackendError(String::from_str("Failed to parse sexp.")));
            }
            let desc = crate::text::unescape_quotes(
                crate::text::trim_quotes(sexp_to_text(&cnd[0])).as_str(),
            );
            let ctype = crate::text::unescape_quotes(
                crate::text::trim_quotes(sexp_to_text(&cnd[1])).as_str(),
            );
            DebugCondition { desc, ctype }
        },
        _ => {
            return Err(BackendError(String::from_str("Failed to parse sexp.")));
        },
    };
    let restarts = match &children[4] {
        Sexp::List(rs) => {
            let mut restarts: Vec<Restart> = Vec::new();
            let mut i: usize = 0;
            while i < rs.len()
                invariant
                    i <= rs@.len(),
                    children@[4] == Sexp::List(*rs),
                    restarts@.len() == i,
                    forall|j: int|
                        0 <= j < i ==> restart_matches(rs@[j], #[trigger] restarts@[j]),
                    forall|j: int|
                        0 <= j < i ==> ((#[trigger] rs@[j]) matches Sexp::List(rp) && rp@.len()
                            >= 2),
                decreases rs@.len() - i,
            {
                match &rs[i] {
                    Sexp::List(rparts) => {
                        if rparts.len() < 2 {
                            return Err(BackendError(String::from_str("Failed to parse sexp.")));
                        }
                        let short = sexp_to_text(&rparts[0]);
                        let desc_full = crate::text::unescape_quotes(
                            sexp_to_text(&rparts[1]).as_str(),
                        );
                        let desc = strip_first_and_last(desc_full.as_str());
                        restarts.push(Restart { short, desc });
                    },
                    _ => {
                        return Err(BackendError(String::from_str("Failed to parse sexp.")));
                    },
                }
                i += 1;
            }
            restarts
        },
        _ => {
            return Err(BackendError(String::from_str("Failed to parse sexp.")));
        },
    };
    let frames = match &children[5] {
        Sexp::List(fs) => {
            let mut frames: Vec<String> = Vec::new();
            let mut i: usize = 0;
            while i < fs.len()
                invariant
                    i <= fs@.len(),
                    children@[5] == Sexp::List(*fs),
                    frames@.len() == i,
                    forall|j: int| 0 <= j < i ==> (#[trigger] frames@[j])@ == sexp_text(fs@[j]),
                decreases fs@.len() - i,
            {
                frames.push(sexp_to_text(&fs[i]));
                i += 1;
            }
            frames
        },
        _ => {
            return Err(BackendError(String::from_str("Failed to parse sexp.")));
        },
    };
    let continuations = match &children[6] {
        Sexp::List(cs) => {
            let mut continuations: Vec<String> = Vec::new();
            let mut i: usize = 0;
            while i < cs.len()
                invariant
                    i <= cs@.len(),
                    children@[6] == Sexp::List(*cs),
                    continuations@.len() == i,
                    forall|j: int|
                        0 <= j < i ==> (#[trigger] continuations@[j])@ == sexp_text(cs@[j]),
                decreases cs@.len() - i,
            {
                continuations.push(sexp_to_text(&cs[i]));
                i += 1;
            }
            continuations
        },
        Sexp::Atom(_) => Vec::new(),
    };
    proof {
        assert(*tree == Sexp::List(*children));
        assert(debug_shape(*tree));
    }
    Ok(SlynkAnswer::Debug { thread, level, condition, restarts, frames, continuations })
}

/// The text without its last and then its first character, where present.
fn strip_first_and_last(t: &str) -> (r: String)
    ensures
        r@ == strip_ends_spec(t@),
{
    let chars = str_chars(t);
    if chars.len() >= 2 {
        let mid = slice_range_chars(&chars, 1, chars.len() - 1);
        crate::text::chars_to_string(&mid)
    } else if chars.len() == 1 {
        // popping the single character leaves nothing to skip
        let empty: Vec<char> = Vec::new();
        crate::text::chars_to_string(&empty)
    } else {
        let empty: Vec<char> = Vec::new();
        crate::text::chars_to_string(&empty)
    }
}

/// Projects a `(:debug-activate thread level)` or `(:debug-return thread
/// level)` push: the thread and the level it enters or leaves.
fn parse_debug_level(tree: &Sexp, activate: bool) -> (r: Result<SlynkAnswer, BackendError>)
    ensures
        r matches Ok(a) ==> (activate ==> a is DebugActivate) && (!activate ==> a is DebugReturn),
        r matches Ok(a) ==> (*tree matches Sexp::List(c) && c@.len() >= 3 && (activate ==> (a
            matches SlynkAnswer::DebugActivate { level, thread } && nth_int(*tree, 1) == Some(
            thread as int,
        ) && nth_int(*tree, 2) == Some(level as int))) && (!activate ==> (a
            matches SlynkAnswer::DebugReturn { level, thread } && nth_int(*tree, 1) == Some(
            thread as int,
        ) && nth_int(*tree, 2) == Some(level as int)))),
{
    let children = match tree {
        Sexp::List(c) => c,
        _ => {
            return Err(BackendError(String::from_str("Failed to parse sexp.")));
        },
    };
    if children.len() < 3 {
        return Err(BackendError(String::from_str("Failed to parse sexp.")));
    }
    let thread = match &children[1] {
        Sexp::Atom(Atom::Int(t)) => *t,
        _ => {
            return Err(BackendError(String::from_str("Failed to parse sexp.")));
        },
    };
    let level = match &children[2] {
        Sexp::Atom(Atom::Int(l)) => *l,
        _ => {
            return Err(BackendError(String::from_str("Failed to parse sexp.")));
        },
    };
    if activate {
        Ok(SlynkAnswer::DebugActivate { level, thread })
    } else {
        Ok(SlynkAnswer::DebugReturn { level, thread })
    }
}

/// Projects a `(:read-from-minibuffer thread tag prompt initial)` push.
fn parse_read_from_minibuffer(tree: &Sexp) -> (r: Result<SlynkAnswer, BackendError>)
    ensures
        r matches Ok(a) ==> a is ReadFromMinibuffer,
{
    let children = match tree {
        Sexp::List(c) => c,
        _ => {
            return Err(BackendError(String::from_str("Failed to parse sexp.")));
        },
    };
    if children.len() < 5 {
        return Err(BackendError(String::from_str("Failed to parse sexp.")));
    }
    let thread = match &children[1] {
        Sexp::Atom(Atom::Int(t)) => *t,
        _ => {
            return Err(BackendError(String::from_str("Failed to parse sexp.")));
        },
    };
    let tag = match &children[2] {
        Sexp::Atom(Atom::Int(t)) => *t,
        _ => {
            return Err(BackendError(String::from_str("Failed to parse sexp.")));
        },
    };
    let prompt = crate::text::trim_quotes(sexp_to_text(&children[3]));
    let init = sexp_to_text(&children[4]);
    let initial_value = option_str(init.as_str());
    Ok(SlynkAnswer::ReadFromMinibuffer { thread, tag, prompt, initial_value })
}

//
// Channel messages.
//

/// The quoted text of a `(:write-string "...")` push, still escaped; the
/// optional ` :repl-result` marker shortens the tail.
pub open spec fn write_string_region(s: Seq<char>) -> Option<Seq<char>> {
    let tail: int = if ends_with_spec(s, " :repl-result)"@) {
        14
    } else if s.len() >= 1 && s.last() == ')' {
        1
    } else {
        -1
    };
    if tail < 0 {
        None
    } else if starts_with_spec(s, "(:write-string \""@) && s.len() - tail - 1 > 16 && s[s.len()
        - tail - 1] == '"' {
        Some(s.subrange(16, s.len() - tail - 1))
    } else {
        None
    }
}

/// Extracts the quoted text of a `(:write-string ...)` push.
fn write_string_value(chars: &Vec<char>) -> (r: Result<String, BackendError>)
    ensures
        r matches Ok(v) ==> (write_string_region(chars@) matches Some(reg) && v@ == reg),
        r is Err ==> write_string_region(chars@) is None,
{
    let tail: usize = if str_ends_with(chars, " :repl-result)") {
        14
    } else if chars.len() >= 1 && chars[chars.len() - 1] == ')' {
        1
    } else {
        return Err(BackendError(String::from_str("Failed to parse sexp.")));
    };
    if !str_starts_with(chars, "(:write-string \"") {
        return Err(BackendError(String::from_str("Failed to parse sexp.")));
    }
    if !(chars.len() > tail + 1 && chars.len() - tail - 1 > 16) {
        return Err(BackendError(String::from_str("Failed to parse sexp.")));
    }
    if chars[chars.len() - tail - 1] != '"' {
        return Err(BackendError(String::from_str("Failed to parse sexp.")));
    }
    Ok(slice_to_string(chars, 16, chars.len() - tail - 1))
}

/// The message of an `(:evaluation-aborted "...")` push.
pub open spec fn eval_aborted_region(s: Seq<char>) -> Option<Seq<char>> {
    if starts_with_spec(s, "(:evaluation-aborted \""@) && ends_with_spec(s, "\")"@) && s.len() - 2
        > 22 {
        Some(s.subrange(22, s.len() - 2))
    } else {
        None
    }
}

/// Whether a prompt push has the decodable shape: package and prompt
/// strings, two counters, and an optional condition string.
pub open spec fn prompt_shape(t: Sexp) -> bool {
    &&& t matches Sexp::List(c)
    &&& (c@.len() == 5 || c@.len() == 6)
    &&& (c@[1] matches Sexp::Atom(a) && a is Str)
    &&& (c@[2] matches Sexp::Atom(a) && a is Str)
    &&& (c@[3] matches Sexp::Atom(a) && a is Int)
    &&& (c@[4] matches Sexp::Atom(a) && a is Int)
    &&& (c@.len() == 6 ==> (c@[5] matches Sexp::Atom(a) && a is Str))
}

/// How a prompt method relates to its tree.
pub open spec fn prompt_matches(t: Sexp, cm: ChannelMethod) -> bool {
    &&& prompt_shape(t)
    &&& (cm matches ChannelMethod::Prompt { package, prompt, elevel, len_history, condition } && (t
        matches Sexp::List(c) && Some(package@) == nth_string_content(t, 1) && Some(prompt@)
        == nth_string_content(t, 2) && nth_int(t, 3) == Some(elevel as int) && nth_int(t, 4)
        == Some(len_history as int) && (if c@.len() == 6 {
        condition matches Some(cd) && nth_string_content(t, 5) == Some(cd@)
    } else {
        condition is None
    })))
}

/// Agreement in text carries the prompt shape across.
proof fn lemma_prompt_shape_agree(a: Sexp, b: Sexp)
    requires
        sexp_same_text(a, b),
    ensures
        prompt_shape(a) == prompt_shape(b),
{
    match (a, b) {
        (Sexp::List(xs), Sexp::List(ys)) => {
            assert forall|k: int| 0 <= k < xs@.len() implies sexp_same_text(
                xs@[k],
                #[trigger] ys@[k],
            ) by {}
        },
        _ => {},
    }
}

/// A printed-values tuple of the decodable shape: a value, a history length
/// and a symbol.
pub open spec fn wv_tuple_ok(e: Sexp) -> bool {
    &&& e matches Sexp::List(v)
    &&& v@.len() >= 3
    &&& (v@[0] matches Sexp::Atom(a) && atom_string_content(a) is Some)
    &&& (v@[1] matches Sexp::Atom(a) && a is Int)
    &&& (v@[2] matches Sexp::Atom(a) && atom_string_content(a) is Some)
}

/// The list-shaped entries among the tuples, in order; anything else is
/// passed over.
pub open spec fn wv_entries(ts: Seq<Sexp>) -> Seq<Sexp>
    decreases ts.len(),
{
    if ts.len() == 0 {
        Seq::empty()
    } else {
        wv_entries(ts.drop_last()) + (if ts.last() is List {
            seq![ts.last()]
        } else {
            Seq::empty()
        })
    }
}

/// How one printed value relates to its tuple.
pub open spec fn wv_matches(e: Sexp, v: (String, usize, String)) -> bool {
    &&& wv_tuple_ok(e)
    &&& nth_string_content(e, 0) == Some(v.0@)
    &&& nth_int(e, 1) == Some(v.1 as int)
    &&& nth_string_content(e, 2) == Some(v.2@)
}

/// Whether a write-values push has the decodable shape: a `nil` tuples
/// field, or a list whose list-shaped entries each carry a value, a history
/// length and a symbol.
pub open spec fn write_values_shape(t: Sexp) -> bool {
    &&& t matches Sexp::List(c)
    &&& c@.len() >= 2
    &&& (sexp_is_nil_spec(c@[1]) || (c@[1] matches Sexp::List(ts) && (forall|i: int|
        0 <= i < ts@.len() ==> (ts@[i] is List ==> wv_tuple_ok(#[trigger] ts@[i])))))
}

/// How the printed values relate to the tuples field: one per list-shaped
/// entry, in input order.
pub open spec fn write_values_match(t: Sexp, vs: Seq<(String, usize, String)>) -> bool {
    &&& write_values_shape(t)
    &&& (t matches Sexp::List(c) && (if sexp_is_nil_spec(c@[1]) {
        vs.len() == 0
    } else {
        c@[1] matches Sexp::List(ts) && vs.len() == wv_entries(ts@).len() && (forall|i: int|
            0 <= i < vs.len() ==> wv_matches(wv_entries(ts@)[i], #[trigger] vs[i]))
    }))
}

/// Agreement in text carries the write-values shape across.
proof fn lemma_wv_shape_agree(a: Sexp, b: Sexp)
    requires
        sexp_same_text(a, b),
    ensures
        write_values_shape(a) == write_values_shape(b),
{
    match (a, b) {
        (Sexp::List(xs), Sexp::List(ys)) => {
            assert forall|k: int| 0 <= k < xs@.len() implies sexp_same_text(
                xs@[k],
                #[trigger] ys@[k],
            ) by {}
            if xs@.len() >= 2 {
                assert(sexp_same_text(xs@[1], ys@[1]));
                match (xs@[1], ys@[1]) {
                    (Sexp::List(ts1), Sexp::List(ts2)) => {
                        assert forall|i: int| 0 <= i < ts1@.len() implies (wv_tuple_ok(
                            #[trigger] ts1@[i],
                        ) == wv_tuple_ok(ts2@[i]) && (ts1@[i] is List == ts2@[i] is List)) by {
                            assert(sexp_same_text(ts1@[i], ts2@[i]));
                            match (ts1@[i], ts2@[i]) {
                                (Sexp::List(u1), Sexp::List(u2)) => {
                                    assert forall|k: int| 0 <= k < u1@.len()
                                        implies sexp_same_text(u1@[k], #[trigger] u2@[k]) by {}
                                },
                                _ => {},
                            }
                        }
                    },
                    _ => {},
                }
            }
        },
        _ => {},
    }
}

/// How a decoded channel method relates to the form text, by the prefix the
/// decoder dispatches on.
pub open spec fn channel_method_ok(s: Seq<char>, cm: ChannelMethod) -> bool {
    if starts_with_spec(s, "(:write-string "@) {
        cm matches ChannelMethod::WriteString(v) && (write_string_region(s) matches Some(reg)
            && v@ == crate::text::unescape_quotes_spec(reg))
    } else if starts_with_spec(s, "(:prompt "@) {
        exists|t: Sexp| #[trigger] top_parse(s, t) && prompt_matches(t, cm)
    } else if starts_with_spec(s, "(:write-values "@) {
        cm matches ChannelMethod::WriteValues(vals) && (exists|t: Sexp|
            #[trigger] top_parse(s, t) && write_values_match(t, vals@))
    } else if starts_with_spec(s, "(:evaluation-aborted "@) {
        cm matches ChannelMethod::EvaluationAborted(msg) && (eval_aborted_region(s)
            matches Some(reg) && msg@ == reg)
    } else {
        cm matches ChannelMethod::Unknown(t) && t@ == s
    }
}

/// When the channel-method decoder owes no value: the form matches a known
/// prefix but lacks the decodable shape.  An unknown prefix never fails.
pub open spec fn channel_method_fails(s: Seq<char>) -> bool {
    if starts_with_spec(s, "(:write-string "@) {
        write_string_region(s) is None
    } else if starts_with_spec(s, "(:prompt "@) {
        forall|t: Sexp| #[trigger] top_parse(s, t) ==> !prompt_shape(t)
    } else if starts_with_spec(s, "(:write-values "@) {
        forall|t: Sexp| #[trigger] top_parse(s, t) ==> !write_values_shape(t)
    } else if starts_with_spec(s, "(:evaluation-aborted "@) {
        eval_aborted_region(s) is None
    } else {
        false
    }
}

/// Decodes the nested form of a `:channel-send` envelope into a channel
/// method: a prompt update, printed values, printed text, an abort notice,
/// or the raw text passed through as `Unknown`.
#[verifier::loop_isolation(false)]
pub fn parse_channel_method(answer: &str) -> (r: Result<ChannelMethod, BackendError>)
    ensures
        r matches Ok(cm) ==> channel_method_ok(answer@, cm),
        r is Err ==> channel_method_fails(answer@),
{
    let chars = str_chars(answer);
    if str_starts_with(&chars, "(:write-string ") {
        let raw = match write_string_value(&chars) {
            Ok(v) => v,
            Err(e) => {
                return Err(e);
            },
        };
        return Ok(ChannelMethod::WriteString(crate::text::unescape_quotes(raw.as_str())));
    }
    if str_starts_with(&chars, "(:prompt ") {
        let tree = match parse_sexp(answer) {
            Ok(t) => t,
            Err(e) => {
                return Err(e);
            },
        };
        let shape_ok = match &tree {
            Sexp::List(c) => {
                if c.len() == 5 || c.len() == 6 {
                    let head_ok = match (&c[1], &c[2], &c[3], &c[4]) {
                        (
                            Sexp::Atom(Atom::Str(_)),
                            Sexp::Atom(Atom::Str(_)),
                            Sexp::Atom(Atom::Int(_)),
                            Sexp::Atom(Atom::Int(_)),
                        ) => true,
                        _ => false,
                    };
                    if head_ok && c.len() == 6 {
                        match &c[5] {
                            Sexp::Atom(Atom::Str(_)) => true,
                            _ => false,
                        }
                    } else {
                        head_ok
                    }
                } else {
                    false
                }
            },
            _ => false,
        };
        proof {
            assert(shape_ok == prompt_shape(tree));
        }
        if !shape_ok {
            proof {
                assert forall|t: Sexp| #[trigger] top_parse(answer@, t) implies !prompt_shape(
                    t,
                ) by {
                    lemma_top_parse_agree(answer@, t, tree);
                    lemma_prompt_shape_agree(t, tree);
                }
            }
            return Err(BackendError(String::from_str("Failed to parse sexp.")));
        }
        let children = match &tree {
            Sexp::List(c) => c,
            _ => {
                proof {
                    assert(false);
                }
                unreached()
            },
        };
        let package = match &children[1] {
            Sexp::Atom(Atom::Str(p)) => p.clone(),
            _ => {
                proof {
                    assert(false);
                }
                unreached()
            },
        };
        let prompt = match &children[2] {
            Sexp::Atom(Atom::Str(p)) => p.clone(),
            _ => {
                proof {
                    assert(false);
                }
                unreached()
            },
        };
        let elevel = match &children[3] {
            Sexp::Atom(Atom::Int(v)) => *v,
            _ => {
                proof {
                    assert(false);
                }
                unreached()
            },
        };
        let len_history = match &children[4] {
            Sexp::Atom(Atom::Int(v)) => *v,
            _ => {
                proof {
                    assert(false);
                }
                unreached()
            },
        };
        let condition = if children.len() == 6 {
            match &children[5] {
                Sexp::Atom(Atom::Str(c)) => Some(c.clone()),
                _ => {
                    proof {
                        assert(false);
                    }
                    unreached()
                },
            }
        } else {
            None
        };
        let cm = ChannelMethod::Prompt { package, prompt, elevel, len_history, condition };
        proof {
            assert(top_parse(answer@, tree) && prompt_matches(tree, cm));
        }
        return Ok(cm);
    }
    if str_starts_with(&chars, "(:write-values ") {
        let tree = match parse_sexp(answer) {
            Ok(t) => t,
            Err(e) => {
                return Err(e);
            },
        };
        let children = match &tree {
            Sexp::List(c) => c,
            _ => {
                proof {
                    assert forall|t: Sexp| #[trigger] top_parse(answer@, t)
                        implies !write_values_shape(t) by {
                        lemma_top_parse_agree(answer@, t, tree);
                        lemma_wv_shape_agree(t, tree);
                    }
                }
                return Err(BackendError(String::from_str("Failed to parse sexp.")));
            },
        };
        if children.len() < 2 {
            proof {
                assert forall|t: Sexp| #[trigger] top_parse(answer@, t)
                    implies !write_values_shape(t) by {
                    lemma_top_parse_agree(answer@, t, tree);
                    lemma_wv_shape_agree(t, tree);
                }
            }
            return Err(BackendError(String::from_str("Failed to parse sexp.")));
        }
        if sexp_is_nil(&children[1]) {
            let empty_values: Vec<(String, usize, String)> = Vec::new();
            let cm = ChannelMethod::WriteValues(empty_values);
            proof {
                assert(top_parse(answer@, tree) && write_values_match(
                    tree,
                    Seq::<(String, usize, String)>::empty(),
                ));
            }
            return Ok(cm);
        }
        let tuples = match &children[1] {
            Sexp::List(t) => t,
            _ => {
                proof {
                    assert forall|t: Sexp| #[trigger] top_parse(answer@, t)
                        implies !write_values_shape(t) by {
                        lemma_top_parse_agree(answer@, t, tree);
                        lemma_wv_shape_agree(t, tree);
                    }
                }
                return Err(BackendError(String::from_str("Failed to parse sexp.")));
            },
        };
        let mut values: Vec<(String, usize, String)> = Vec::new();
        let mut i: usize = 0;
        proof {
            assert(tuples@.take(0) =~= Seq::<Sexp>::empty());
        }
        while i < tuples.len()
            invariant
                i <= tuples@.len(),
                tree == Sexp::List(*children),
                children@.len() >= 2,
                !sexp_is_nil_spec(children@[1]),
                children@[1] == Sexp::List(*tuples),
                values@.len() == wv_entries(tuples@.take(i as int)).len(),
                forall|j: int|
                    0 <= j < values@.len() ==> wv_matches(
                        wv_entries(tuples@.take(i as int))[j],
                        #[trigger] values@[j],
                    ),
                forall|j: int|
                    0 <= j < i ==> (tuples@[j] is List ==> wv_tuple_ok(#[trigger] tuples@[j])),
            decreases tuples@.len() - i,
        {
            let ghost prefix = tuples@.take(i as int);
            proof {
                assert(tuples@.take(i + 1 as int).drop_last() =~= prefix);
                assert(tuples@.take(i + 1 as int).last() == tuples@[i as int]);
            }
            match &tuples[i] {
                Sexp::List(vlist) => {
                    let tuple_ok = if vlist.len() < 3 {
                        false
                    } else {
                        let a0 = match &vlist[0] {
                            Sexp::Atom(Atom::Sym(_)) => true,
                            Sexp::Atom(Atom::Str(_)) => true,
                            _ => false,
                        };
                        let a1 = match &vlist[1] {
                            Sexp::Atom(Atom::Int(_)) => true,
                            _ => false,
                        };
                        let a2 = match &vlist[2] {
                            Sexp::Atom(Atom::Sym(_)) => true,
                            Sexp::Atom(Atom::Str(_)) => true,
                            _ => false,
                        };
                        a0 && a1 && a2
                    };
                    proof {
                        assert(tuple_ok == wv_tuple_ok(tuples@[i as int]));
                    }
                    if !tuple_ok {
                        proof {
                            assert(!write_values_shape(tree));
                            assert forall|t: Sexp| #[trigger] top_parse(answer@, t)
                                implies !write_values_shape(t) by {
                                lemma_top_parse_agree(answer@, t, tree);
                                lemma_wv_shape_agree(t, tree);
                            }
                        }
                        return Err(BackendError(String::from_str("Failed to parse sexp.")));
                    }
                    let val = match sexp_string_atom(&vlist[0]) {
                        Ok(v) => v,
                        Err(_) => {
                            proof {
                                assert(false);
                            }
                            unreached()
                        },
                    };
                    let hlen = match sexp_usize_atom(&vlist[1]) {
                        Ok(v) => v,
                        Err(_) => {
                            proof {
                                assert(false);
                            }
                            unreached()
                        },
                    };
                    let symbol = match sexp_string_atom(&vlist[2]) {
                        Ok(v) => v,
                        Err(_) => {
                            proof {
                                assert(false);
                            }
                            unreached()
                        },
                    };
                    proof {
                        assert(wv_entries(tuples@.take(i + 1 as int)) =~= wv_entries(prefix).push(
                            tuples@[i as int],
                        ));
                    }
                    values.push((val, hlen, symbol));
                },
                _ => {
                    proof {
                        assert(wv_entries(tuples@.take(i + 1 as int)) =~= wv_entries(prefix));
                    }
                },
            }
            i += 1;
        }
        proof {
            assert(tuples@.take(tuples@.len() as int) =~= tuples@);
        }
        let cm = ChannelMethod::WriteValues(values);
        proof {
            assert(top_parse(answer@, tree) && write_values_match(tree, values@));
        }
        return Ok(cm);
    }
    if str_starts_with(&chars, "(:evaluation-aborted ") {
        if !(str_starts_with(&chars, "(:evaluation-aborted \"") && str_ends_with(&chars, "\")")
            && chars.len() >= 2 && chars.len() - 2 > 22) {
            return Err(BackendError(String::from_str("Failed to parse sexp.")));
        }
        let msg = slice_to_string(&chars, 22, chars.len() - 2);
        return Ok(ChannelMethod::EvaluationAborted(msg));
    }
    Ok(ChannelMethod::Unknown(answer.to_owned()))
}

//
// The top-level payload decoder.
//

/// Whether the pending action is a jump-to-definition resolution.
pub open spec fn ccb_is_jump(ccb: Option<&ContinuationCallback>) -> bool {
    match ccb {
        Some(cb) => *cb is JumpToDef,
        None => false,
    }
}

/// The prefixes the decoder dispatches on.
pub open spec fn known_answer_prefix(s: Seq<char>) -> bool {
    ||| starts_with_spec(s, "(:indentation-update "@)
    ||| starts_with_spec(s, "(:channel-send "@)
    ||| starts_with_spec(s, "(:return "@)
    ||| starts_with_spec(s, "(:new-features "@)
    ||| starts_with_spec(s, "(:debug "@)
    ||| starts_with_spec(s, "(:debug-activate "@)
    ||| starts_with_spec(s, "(:debug-return "@)
    ||| starts_with_spec(s, "(:write-string "@)
    ||| starts_with_spec(s, "(:read-from-minibuffer "@)
}

/// The channel number of a `(:channel-send <n> <form>)` envelope and the
/// region of its nested form.
pub open spec fn channel_send_parts(s: Seq<char>) -> Option<(int, Seq<char>)> {
    if starts_with_spec(s, "(:channel-send "@) && s.len() >= 1 && s.last() == ')' {
        let e = digit_run_end(s, 15);
        if e > 15 && e + 1 < s.len() - 1 && s[e] == ' ' && s[e + 1] == '(' && s[s.len() - 2] == ')' {
            Some((dec_value(s.subrange(15, e)), s.subrange(e + 1, s.len() - 1)))
        } else {
            None
        }
    } else {
        None
    }
}

/// The end of the run of digits starting at `i`.
pub open spec fn digit_run_end(s: Seq<char>, i: int) -> int
    decreases s.len() - i,
{
    if 0 <= i < s.len() && is_digit(s[i]) {
        digit_run_end(s, i + 1)
    } else {
        i
    }
}

/// Finds the end of the run of digits starting at `i`.
fn find_digit_run_end(chars: &Vec<char>, i: usize) -> (e: usize)
    requires
        i <= chars@.len(),
    ensures
        e == digit_run_end(chars@, i as int),
        i <= e <= chars@.len(),
        forall|j: int| i <= j < e ==> is_digit(#[trigger] chars@[j]),
    decreases chars@.len() - i,
{
    let mut e = i;
    while e < chars.len() && is_digit_char(chars[e])
        invariant
            i <= e <= chars@.len(),
            digit_run_end(chars@, i as int) == digit_run_end(chars@, e as int),
            forall|j: int| i <= j < e ==> is_digit(#[trigger] chars@[j]),
        decreases chars@.len() - e,
    {
        e += 1;
    }
    e
}

/// Reads the continuation echoed at the tail of a reply; a missing or
/// oversized id is a decode error.
fn extract_continuation(chars: &Vec<char>) -> (r: Result<usize, BackendError>)
    ensures
        r matches Ok(v) ==> continuation_of(chars@) == Some(v as int),
        r is Err ==> continuation_of(chars@) is None || (continuation_of(chars@) matches Some(v)
            && v > usize::MAX),
{
    if chars.len() < 1 || chars[chars.len() - 1] != ')' {
        return Err(BackendError(String::from_str("Failed to parse sexp.")));
    }
    let e = chars.len() - 1;
    let d = find_digit_run_start(chars, e);
    if d < e && d >= 1 && chars[d - 1] == ' ' {
        match read_digits(chars, d, e) {
            Some(v) => Ok(v),
            None => Err(BackendError(String::from_str("Failed to parse sexp."))),
        }
    } else {
        Err(BackendError(String::from_str("Failed to parse sexp.")))
    }
}

/// Which branch of the decoder handles the payload: the prefixes are tried
/// in a fixed order, so each branch sees only payloads no earlier branch
/// claimed.
pub open spec fn decoder_sees(s: Seq<char>, branch: int) -> bool {
    if branch == 2 {
        !starts_with_spec(s, "(:indentation-update "@) && starts_with_spec(s, "(:channel-send "@)
    } else if branch == 3 {
        !starts_with_spec(s, "(:indentation-update "@) && !starts_with_spec(s, "(:channel-send "@)
            && starts_with_spec(s, "(:return "@)
    } else if branch == 4 {
        !starts_with_spec(s, "(:indentation-update "@) && !starts_with_spec(s, "(:channel-send "@)
            && !starts_with_spec(s, "(:return "@) && starts_with_spec(s, "(:new-features "@)
    } else if branch == 5 {
        !starts_with_spec(s, "(:indentation-update "@) && !starts_with_spec(s, "(:channel-send "@)
            && !starts_with_spec(s, "(:return "@) && !starts_with_spec(s, "(:new-features "@)
            && starts_with_spec(s, "(:debug "@)
    } else if branch == 6 {
        !starts_with_spec(s, "(:indentation-update "@) && !starts_with_spec(s, "(:channel-send "@)
            && !starts_with_spec(s, "(:return "@) && !starts_with_spec(s, "(:new-features "@)
            && !starts_with_spec(s, "(:debug "@) && starts_with_spec(s, "(:debug-activate "@)
    } else if branch == 7 {
        !starts_with_spec(s, "(:indentation-update "@) && !starts_with_spec(s, "(:channel-send "@)
            && !starts_with_spec(s, "(:return "@) && !starts_with_spec(s, "(:new-features "@)
            && !starts_with_spec(s, "(:debug "@) && !starts_with_spec(s, "(:debug-activate "@)
            && starts_with_spec(s, "(:debug-return "@)
    } else if branch == 8 {
        !starts_with_spec(s, "(:indentation-update "@) && !starts_with_spec(s, "(:channel-send "@)
            && !starts_with_spec(s, "(:return "@) && !starts_with_spec(s, "(:new-features "@)
            && !starts_with_spec(s, "(:debug "@) && !starts_with_spec(s, "(:debug-activate "@)
            && !starts_with_spec(s, "(:debug-return "@) && starts_with_spec(
            s,
            "(:write-string "@,
        )
    } else if branch == 9 {
        !starts_with_spec(s, "(:indentation-update "@) && !starts_with_spec(s, "(:channel-send "@)
            && !starts_with_spec(s, "(:return "@) && !starts_with_spec(s, "(:new-features "@)
            && !starts_with_spec(s, "(:debug "@) && !starts_with_spec(s, "(:debug-activate "@)
            && !starts_with_spec(s, "(:debug-return "@) && !starts_with_spec(
            s,
            "(:write-string "@,
        ) && starts_with_spec(s, "(:read-from-minibuffer "@)
    } else {
        false
    }
}

/// Decodes one payload into its typed answer, consulting the pending action
/// registered for its continuation where the wire format is ambiguous.  A
/// payload with no recognized prefix decodes to the no-op
/// `IndentationUpdate`; one that matches a prefix but fails structural
/// extraction is a per-frame decode error.
#[verifier::loop_isolation(false)]
#[verifier::rlimit(60)]
pub fn parse_slynk_answer(m: &str, ccb: Option<&ContinuationCallback>) -> (r: Result<
    SlynkAnswer,
    BackendError,
>)
    ensures
        starts_with_spec(m@, "(:indentation-update "@) ==> (r matches Ok(a)
            && a is IndentationUpdate),
        decoder_sees(m@, 4) ==> (r matches Ok(a) && a is NewFeatures),
        !known_answer_prefix(m@) ==> (r matches Ok(a) && a is IndentationUpdate),
        decoder_sees(m@, 2) ==> match r {
            Ok(a) => a matches SlynkAnswer::ChannelSend { channel, method } && (channel_send_parts(
                m@,
            ) matches Some(p) && p.0 == channel as int && channel_method_ok(p.1, method)),
            Err(_) => channel_send_parts(m@) is None || (channel_send_parts(m@) matches Some(p) && (
            p.0 > usize::MAX || channel_method_fails(p.1))),
        },
        decoder_sees(m@, 5) ==> match r {
            Ok(a) => a is Debug && (exists|t: Sexp|
                #[trigger] top_parse(m@, t) && debug_matches(t, a)),
            Err(_) => forall|t: Sexp| #[trigger] top_parse(m@, t) ==> !debug_shape(t),
        },
        decoder_sees(m@, 6) ==> (r matches Ok(a) ==> a is DebugActivate),
        decoder_sees(m@, 7) ==> (r matches Ok(a) ==> a is DebugReturn),
        decoder_sees(m@, 8) ==> match r {
            Ok(a) => a matches SlynkAnswer::WriteString { value, repl_result } && (
            write_string_region(m@) matches Some(reg) && value@
                == crate::text::unescape_quotes_spec(reg)) && repl_result == ends_with_spec(
                m@,
                ":repl-result)"@,
            ),
            Err(_) => write_string_region(m@) is None,
        },
        decoder_sees(m@, 9) ==> (r matches Ok(a)
            ==> a is ReadFromMinibuffer),
        decoder_sees(m@, 3) ==> match return_value_region(m@) {
            None => r is Err,
            Some(rv) => match continuation_of(m@) {
                None => r is Err,
                Some(cv) => if cv > usize::MAX {
                    r is Err
                } else {
                    let cleaned = cleaned_text(rv);
                    if ccb_is_jump(ccb) {
                        match r {
                            Ok(a) => a matches SlynkAnswer::ReturnFindDefinitionResult {
                                continuation,
                                definitions,
                            } && continuation as int == cv && (exists|t: Sexp|
                                #[trigger] complete_parse(cleaned, t) && (if sexp_is_nil_spec(t) {
                                    definitions@.len() == 0
                                } else {
                                    t matches Sexp::List(c) && definitions@.len() == c@.len() && (
                                    forall|i: int|
                                        0 <= i < c@.len() ==> definition_matches(
                                            c@[i],
                                            #[trigger] definitions@[i],
                                        ))
                                })),
                            Err(_) => forall|t: Sexp|
                                #[trigger] complete_parse(cleaned, t) ==> !(sexp_is_nil_spec(t) || (
                                t matches Sexp::List(c) && (forall|i: int|
                                    0 <= i < c@.len() ==> is_definition_entry(
                                        #[trigger] c@[i],
                                    )))),
                        }
                    } else {
                        match r {
                            Ok(a) => if exists|t: Sexp|
                                #[trigger] complete_parse(cleaned, t) && compilation_shape(t) {
                                a matches SlynkAnswer::ReturnCompilationResult {
                                    continuation: c2,
                                    ..
                                } && c2 as int == cv && (exists|t: Sexp|
                                    #[trigger] complete_parse(cleaned, t)
                                        && compilation_result_matches(t, a))
                            } else {
                                a matches SlynkAnswer::Return { continuation, status, value }
                                    && continuation as int == cv && (status == ReturnStatus::Okay
                                    <==> starts_with_spec(m@, "(:return (:ok"@)) && value@
                                    == crate::text::unescape_quotes_spec(rv)
                            },
                            Err(_) => exists|t: Sexp|
                                #[trigger] complete_parse(cleaned, t) && compilation_shape(t) && (t
                                    matches Sexp::List(c) && c@[5] is List),
                        }
                    }
                },
            },
        },
{
    let chars = str_chars(m);
    if str_starts_with(&chars, "(:indentation-update ") {
        return Ok(SlynkAnswer::IndentationUpdate);
    }
    if str_starts_with(&chars, "(:channel-send ") {
        proof {
            reveal_strlit("(:channel-send ");
        }
        if !(chars.len() >= 1 && chars[chars.len() - 1] == ')') {
            return Err(BackendError(String::from_str("Failed to parse sexp.")));
        }
        let e = find_digit_run_end(&chars, 15);
        if !(e > 15 && e + 1 < chars.len() - 1 && chars[e] == ' ' && chars[e + 1] == '('
            && chars[chars.len() - 2] == ')') {
            return Err(BackendError(String::from_str("Failed to parse sexp.")));
        }
        let channel = match read_digits(&chars, 15, e) {
            Some(v) => v,
            None => {
                return Err(BackendError(String::from_str("Failed to parse sexp.")));
            },
        };
        let form = slice_to_string(&chars, e + 1, chars.len() - 1);
        let method = match parse_channel_method(form.as_str()) {
            Ok(cm) => cm,
            Err(err) => {
                return Err(err);
            },
        };
        return Ok(SlynkAnswer::ChannelSend { channel, method });
    }
    if str_starts_with(&chars, "(:return ") {
        let continuation = match extract_continuation(&chars) {
            Ok(c) => c,
            Err(e) => {
                return Err(e);
            },
        };
        let status = if str_starts_with(&chars, "(:return (:ok") {
            ReturnStatus::Okay
        } else {
            ReturnStatus::Abort
        };
        let plen: usize = if str_starts_with(&chars, "(:return (:ok ") {
            14
        } else if str_starts_with(&chars, "(:return (:abort ") {
            17
        } else {
            return Err(BackendError(String::from_str("Failed to parse sexp.")));
        };
        let t = trim_trailing(&chars);
        if !(t.len() >= plen + 5 && t[t.len() - 1] == ')') {
            return Err(BackendError(String::from_str("Failed to parse sexp.")));
        }
        let e = t.len() - 1;
        let d = find_digit_run_start(&t, e);
        if !(d < e && d >= 2 && d - 2 > plen && t[d - 1] == ' ' && t[d - 2] == ')') {
            return Err(BackendError(String::from_str("Failed to parse sexp.")));
        }
        let value = slice_to_string(&t, plen, d - 2);
        proof {
            assert(return_value_region(m@) == Some(value@));
        }
        if match ccb {
            Some(ContinuationCallback::JumpToDef) => true,
            _ => false,
        } {
            let tree = match clean_and_parse_sexp(value.as_str()) {
                Ok(t2) => t2,
                Err(e2) => {
                    return Err(e2);
                },
            };
            let definitions = match parse_found_definitions(&tree) {
                Ok(d2) => d2,
                Err(e2) => {
                    proof {
                        let cln = cleaned_text(value@);
                        assert forall|t2: Sexp| #[trigger] complete_parse(cln, t2) implies !(
                        sexp_is_nil_spec(t2) || (t2 matches Sexp::List(c) && (forall|i: int|
                            0 <= i < c@.len() ==> is_definition_entry(#[trigger] c@[i])))) by {
                            lemma_parse_agree(cln, 0, t2, cln.len() as int, tree, cln.len() as int);
                            lemma_nil_agree(t2, tree);
                            match (t2, tree) {
                                (Sexp::List(c2), Sexp::List(ct)) => {
                                    assert forall|i: int| 0 <= i < c2@.len()
                                        implies sexp_same_text(c2@[i], #[trigger] ct@[i]) by {}
                                    if forall|i: int|
                                        0 <= i < c2@.len() ==> is_definition_entry(
                                            #[trigger] c2@[i],
                                        ) {
                                        assert forall|i: int| 0 <= i < ct@.len()
                                            implies is_definition_entry(#[trigger] ct@[i]) by {
                                            lemma_def_entry_agree(c2@[i], ct@[i]);
                                            assert(is_definition_entry(c2@[i]));
                                        }
                                        assert(tree->List_0 == ct);
                                        assert(false);
                                    }
                                },
                                _ => {},
                            }
                        }
                    }
                    return Err(e2);
                },
            };
            proof {
                assert(return_value_region(m@) matches Some(rv) && rv == value@);
                assert(continuation_of(m@) matches Some(cv) && cv == continuation as int);
                assert(complete_parse(cleaned_text(value@), tree));
            }
            return Ok(SlynkAnswer::ReturnFindDefinitionResult { continuation, definitions });
        }
        match clean_and_parse_sexp(value.as_str()) {
            Ok(tree) => {
                let is_compilation = match &tree {
                    Sexp::List(c) => {
                        if c.len() == 6 {
                            match sexp_list_nth_as_string(&tree, 0) {
                                Ok(head) => str_eq(head.as_str(), ":compilation-result"),
                                Err(_) => false,
                            }
                        } else {
                            false
                        }
                    },
                    _ => false,
                };
                proof {
                    assert(is_compilation == compilation_shape(tree));
                }
                if is_compilation {
                    proof {
                        assert(return_value_region(m@) matches Some(rv) && rv == value@);
                        assert(continuation_of(m@) matches Some(cv) && cv == continuation as int);
                        assert(complete_parse(cleaned_text(value@), tree));
                    }
                    return parse_compilation_result(&tree, continuation);
                }
                proof {
                    let cln = cleaned_text(value@);
                    assert forall|t2: Sexp| #[trigger] complete_parse(cln, t2)
                        implies !compilation_shape(t2) by {
                        lemma_parse_agree(cln, 0, t2, cln.len() as int, tree, cln.len() as int);
                        lemma_compilation_shape_agree(t2, tree);
                    }
                }
            },
            Err(_) => {},
        }
        return Ok(
            SlynkAnswer::Return {
                continuation,
                status,
                value: crate::text::unescape_quotes(value.as_str()),
            },
        );
    }
    if str_starts_with(&chars, "(:new-features ") {
        return Ok(SlynkAnswer::NewFeatures);
    }
    if str_starts_with(&chars, "(:debug ") {
        let tree = match parse_sexp(m) {
            Ok(t) => t,
            Err(e) => {
                return Err(e);
            },
        };
        let parsed = parse_debug(&tree);
        proof {
            if parsed is Err {
                assert forall|t2: Sexp| #[trigger] top_parse(m@, t2) implies !debug_shape(t2) by {
                    lemma_top_parse_agree(m@, t2, tree);
                    lemma_debug_shape_agree(t2, tree);
                }
            } else {
                assert(top_parse(m@, tree));
            }
        }
        return parsed;
    }
    if str_starts_with(&chars, "(:debug-activate ") {
        let tree = match parse_sexp(m) {
            Ok(t) => t,
            Err(e) => {
                return Err(e);
            },
        };
        return parse_debug_level(&tree, true);
    }
    if str_starts_with(&chars, "(:debug-return ") {
        let tree = match parse_sexp(m) {
            Ok(t) => t,
            Err(e) => {
                return Err(e);
            },
        };
        return parse_debug_level(&tree, false);
    }
    if str_starts_with(&chars, "(:write-string ") {
        let repl_result = str_ends_with(&chars, ":repl-result)");
        let raw = match write_string_value(&chars) {
            Ok(v) => v,
            Err(e) => {
                return Err(e);
            },
        };
        return Ok(
            SlynkAnswer::WriteString {
                value: crate::text::unescape_quotes(raw.as_str()),
                repl_result,
            },
        );
    }
    if str_starts_with(&chars, "(:read-from-minibuffer ") {
        let tree = match parse_sexp(m) {
            Ok(t) => t,
            Err(e) => {
                return Err(e);
            },
        };
        return parse_read_from_minibuffer(&tree);
    }
    Ok(SlynkAnswer::IndentationUpdate)
}

//
// Package and symbol listings.
//

/// Byte-wise lexicographic order on text, the order `String` sorts by.
pub open spec fn bytes_le(a: Seq<u8>, b: Seq<u8>) -> bool
    decreases a.len(),
{
    if a.len() == 0 {
        true
    } else if b.len() == 0 {
        false
    } else if a[0] < b[0] {
        true
    } else if a[0] > b[0] {
        false
    } else {
        bytes_le(a.drop_first(), b.drop_first())
    }
}

/// Lexicographic order on the UTF-8 encodings of two texts.
pub open spec fn str_le(a: Seq<char>, b: Seq<char>) -> bool {
    bytes_le(vstd::utf8::encode_utf8(a), vstd::utf8::encode_utf8(b))
}

/// Compares two texts by their UTF-8 bytes.
fn str_le_exec(a: &str, b: &str) -> (r: bool)
    ensures
        r == str_le(a@, b@),
{
    let ab = a.as_bytes();
    let bb = b.as_bytes();
    let mut i: usize = 0;
    proof {
        assert(ab@.skip(0) =~= ab@);
        assert(bb@.skip(0) =~= bb@);
    }
    while i < ab.len() && i < bb.len()
        invariant
            i <= ab@.len(),
            i <= bb@.len(),
            ab@ == vstd::utf8::encode_utf8(a@),
            bb@ == vstd::utf8::encode_utf8(b@),
            forall|j: int| 0 <= j < i ==> ab@[j] == bb@[j],
            bytes_le(ab@, bb@) == bytes_le(ab@.skip(i as int), bb@.skip(i as int)),
        decreases ab@.len() - i,
    {
        let x = ab[i];
        let y = bb[i];
        let ghost ra = ab@.skip(i as int);
        let ghost rb = bb@.skip(i as int);
        proof {
            assert(ra[0] == ab@[i as int]);
            assert(rb[0] == bb@[i as int]);
            assert(ra.drop_first() =~= ab@.skip(i + 1 as int));
            assert(rb.drop_first() =~= bb@.skip(i + 1 as int));
        }
        if x < y {
            return true;
        }
        if x > y {
            return false;
        }
        i += 1;
    }
    proof {
        if i >= ab@.len() {
            assert(ab@.skip(i as int) =~= Seq::<u8>::empty());
        } else {
            assert(bb@.skip(i as int) =~= Seq::<u8>::empty());
            assert(ab@.skip(i as int).len() > 0);
        }
    }
    ab.len() <= bb.len()
}

/// Whether the texts stand in nondecreasing byte order.
pub open spec fn strings_sorted(s: Seq<String>) -> bool {
    forall|i: int, j: int| 0 <= i < j < s.len() ==> str_le(#[trigger] s[i]@, #[trigger] s[j]@)
}

/// The byte order is total.
proof fn lemma_bytes_le_total(a: Seq<u8>, b: Seq<u8>)
    ensures
        bytes_le(a, b) || bytes_le(b, a),
    decreases a.len(),
{
    if a.len() > 0 && b.len() > 0 && a[0] == b[0] {
        lemma_bytes_le_total(a.drop_first(), b.drop_first());
    }
}

/// The byte order is transitive.
proof fn lemma_bytes_le_trans(a: Seq<u8>, b: Seq<u8>, c: Seq<u8>)
    requires
        bytes_le(a, b),
        bytes_le(b, c),
    ensures
        bytes_le(a, c),
    decreases a.len(),
{
    if a.len() > 0 {
        if b.len() > 0 && c.len() > 0 && a[0] == b[0] && b[0] == c[0] {
            lemma_bytes_le_trans(a.drop_first(), b.drop_first(), c.drop_first());
        }
    }
}

/// Inserting at the scan point keeps the sequence sorted.
proof fn lemma_insert_keeps_sorted(before: Seq<String>, x: String, k: int)
    requires
        0 <= k <= before.len(),
        strings_sorted(before),
        forall|j: int| 0 <= j < k ==> str_le(#[trigger] before[j]@, x@),
        k < before.len() ==> str_le(x@, before[k]@),
    ensures
        strings_sorted(before.insert(k, x)),
{
    let out = before.insert(k, x);
    before.insert_ensures(k, x);
    assert forall|p: int, q: int| 0 <= p < q < out.len() implies str_le(
        #[trigger] out[p]@,
        #[trigger] out[q]@,
    ) by {
        if p == k {
            if q > k {
                assert(out[q] == before[q - 1]);
                if q - 1 > k {
                    lemma_bytes_le_trans(
                        vstd::utf8::encode_utf8(x@),
                        vstd::utf8::encode_utf8(before[k]@),
                        vstd::utf8::encode_utf8(before[q - 1]@),
                    );
                }
            }
        } else if q == k {
            assert(out[p] == before[p]);
        } else if p < k && q < k {
            assert(out[p] == before[p] && out[q] == before[q]);
        } else if p < k && q > k {
            assert(out[p] == before[p] && out[q] == before[q - 1]);
        } else {
            assert(out[p] == before[p - 1] && out[q] == before[q - 1]);
        }
    }
}

/// Inserting an element adds exactly its text to the collection.
proof fn lemma_insert_multiset(before: Seq<String>, x: String, k: int)
    requires
        0 <= k <= before.len(),
    ensures
        before.insert(k, x).map_values(|s: String| s@).to_multiset() == before.map_values(
            |s: String| s@,
        ).to_multiset().insert(x@),
{
    broadcast use vstd::seq_lib::lemma_multiset_commutative;
    broadcast use vstd::seq_lib::group_to_multiset_ensures;

    let mv = |s: String| s@;
    let out = before.insert(k, x);
    assert(out.map_values(mv) =~= before.take(k).map_values(mv) + (seq![x].map_values(mv)
        + before.skip(k).map_values(mv)));
    assert(seq![x].map_values(mv) =~= seq![x@]);
    assert((seq![x@] + before.skip(k).map_values(mv)).to_multiset() =~= before.skip(k).map_values(
        mv,
    ).to_multiset().insert(x@)) by {
        assert(seq![x@] + before.skip(k).map_values(mv) =~= before.skip(k).map_values(mv).insert(
            0,
            x@,
        ));
        lemma_multiset_of_insert_front(before.skip(k).map_values(mv), x@);
    }
    assert(before.take(k).map_values(mv) + before.skip(k).map_values(mv) =~= before.map_values(mv));
    assert(out.map_values(mv).to_multiset() =~= before.map_values(mv).to_multiset().insert(x@));
}

/// Sorts texts into nondecreasing byte order, keeping the collection.
fn sort_strings(v: Vec<String>) -> (r: Vec<String>)
    ensures
        strings_sorted(r@),
        r@.map_values(|s: String| s@).to_multiset() == v@.map_values(
            |s: String| s@,
        ).to_multiset(),
{
    broadcast use vstd::seq_lib::lemma_multiset_commutative;
    broadcast use vstd::seq_lib::group_to_multiset_ensures;

    let mut out: Vec<String> = Vec::new();
    let mut i: usize = 0;
    proof {
        assert(v@.take(0) =~= Seq::<String>::empty());
        assert(out@.map_values(|s: String| s@) =~= Seq::<Seq<char>>::empty());
        assert(v@.take(0).map_values(|s: String| s@) =~= Seq::<Seq<char>>::empty());
        assert(Seq::<Seq<char>>::empty().to_multiset() =~= Seq::<Seq<char>>::empty().to_multiset());
    }
    while i < v.len()
        invariant
            i <= v@.len(),
            strings_sorted(out@),
            out@.map_values(|s: String| s@).to_multiset() == v@.take(i as int).map_values(
                |s: String| s@,
            ).to_multiset(),
        decreases v@.len() - i,
    {
        let x = v[i].clone();
        proof {
            assert(x@ == v@[i as int]@);
        }
        // find the insertion point: the first element not below x stops the scan
        let mut k: usize = 0;
        while k < out.len() && str_le_exec(out[k].as_str(), x.as_str())
            invariant
                k <= out@.len(),
                strings_sorted(out@),
                forall|j: int| 0 <= j < k ==> str_le(#[trigger] out@[j]@, x@),
            decreases out@.len() - k,
        {
            k += 1;
        }
        let ghost before = out@;
        proof {
            if k < before.len() {
                lemma_bytes_le_total(
                    vstd::utf8::encode_utf8(before[k as int]@),
                    vstd::utf8::encode_utf8(x@),
                );
            }
        }
        out.insert(k, x);
        proof {
            broadcast use vstd::seq_lib::group_to_multiset_ensures;

            assert(out@ == before.insert(k as int, x));
            lemma_insert_keeps_sorted(before, x, k as int);
            lemma_insert_multiset(before, x, k as int);
            let mv = |s: String| s@;
            assert(v@.take(i + 1 as int).map_values(mv) =~= v@.take(i as int).map_values(mv).push(
                x@,
            ));
            assert(v@.take(i as int).map_values(mv).push(x@).to_multiset() =~= v@.take(
                i as int,
            ).map_values(mv).to_multiset().insert(x@));
            assert(out@.map_values(mv).to_multiset() =~= v@.take(i + 1 as int).map_values(
                mv,
            ).to_multiset());
        }
        i += 1;
    }
    proof {
        assert(v@.take(v@.len() as int) =~= v@);
    }
    out
}

/// Inserting one element anywhere adds exactly it to the collection.
pub(crate) proof fn lemma_multiset_insert_any<A>(s: Seq<A>, x: A, k: int)
    requires
        0 <= k <= s.len(),
    ensures
        s.insert(k, x).to_multiset() == s.to_multiset().insert(x),
{
    broadcast use vstd::seq_lib::lemma_multiset_commutative;
    broadcast use vstd::seq_lib::group_to_multiset_ensures;

    assert(s.insert(k, x) =~= s.take(k) + (seq![x] + s.skip(k)));
    assert(seq![x] + s.skip(k) =~= s.skip(k).insert(0, x));
    lemma_multiset_of_insert_front(s.skip(k), x);
    assert(s.take(k) + s.skip(k) =~= s);
    assert(s.insert(k, x).to_multiset() =~= s.to_multiset().insert(x));
}

/// Prepending one element adds exactly it to the collection.
pub(crate) proof fn lemma_multiset_of_insert_front<A>(s: Seq<A>, x: A)
    ensures
        s.insert(0, x).to_multiset() == s.to_multiset().insert(x),
{
    broadcast use vstd::seq_lib::lemma_multiset_commutative;
    broadcast use vstd::seq_lib::group_to_multiset_ensures;

    assert(s.insert(0, x) =~= seq![x] + s);
    assert((seq![x] + s).to_multiset() == seq![x].to_multiset().add(s.to_multiset()));
    assert(seq![x].to_multiset() =~= Multiset::empty().insert(x)) by {
        assert(seq![x] =~= Seq::<A>::empty().push(x));
        assert(Seq::<A>::empty().push(x).to_multiset() =~= Seq::<A>::empty().to_multiset().insert(
            x,
        ));
        assert(Seq::<A>::empty().to_multiset() =~= Multiset::<A>::empty());
    }
    assert(Multiset::<A>::empty().insert(x).add(s.to_multiset()) =~= s.to_multiset().insert(x));
}

/// The first position at or after `i` where a `">` pair closes a package
/// name.
pub open spec fn first_close(s: Seq<char>, i: int) -> Option<int>
    decreases s.len() - i,
{
    if i < 0 || i >= s.len() {
        None
    } else if s[i] == '"' && i + 1 < s.len() && s[i + 1] == '>' {
        Some(i)
    } else {
        first_close(s, i + 1)
    }
}

/// The package names printed as `#<PACKAGE "name">`, in occurrence order.
pub open spec fn extract_packages(s: Seq<char>) -> Seq<Seq<char>>
    decreases s.len(),
{
    if s.len() == 0 {
        Seq::empty()
    } else if starts_with_spec(s, "#<PACKAGE \""@) {
        match first_close(s, 12) {
            Some(j) => if 12 <= j && j + 2 <= s.len() {
                seq![s.subrange(11, j)] + extract_packages(s.skip(j + 2))
            } else {
                extract_packages(s.skip(1))
            },
            None => extract_packages(s.skip(1)),
        }
    } else {
        extract_packages(s.skip(1))
    }
}

/// Whether the pattern occurs at position `i` of the text.
fn starts_at(chars: &Vec<char>, i: usize, pat: &str) -> (r: bool)
    requires
        i <= chars@.len(),
    ensures
        r == starts_with_spec(chars@.skip(i as int), pat@),
{
    let p = str_chars(pat);
    if p.len() > chars.len() - i {
        proof {
            assert(!starts_with_spec(chars@.skip(i as int), pat@));
        }
        return false;
    }
    let mut j: usize = 0;
    while j < p.len()
        invariant
            p@ == pat@,
            i + p@.len() <= chars@.len(),
            chars@.len() <= usize::MAX,
            j <= p@.len(),
            forall|k: int| 0 <= k < j ==> chars@[i + k] == p@[k],
        decreases p@.len() - j,
    {
        if chars[i + j] != p[j] {
            proof {
                assert(!starts_with_spec(chars@.skip(i as int), pat@)) by {
                    if starts_with_spec(chars@.skip(i as int), pat@) {
                        assert(chars@.skip(i as int).subrange(0, pat@.len() as int)[j as int]
                            == pat@[j as int]);
                        assert(chars@.skip(i as int)[j as int] == chars@[i + j]);
                    }
                }
            }
            return false;
        }
        j += 1;
    }
    proof {
        assert(chars@.skip(i as int).subrange(0, pat@.len() as int) =~= pat@);
    }
    true
}

/// Reads the package names out of the printed list that
/// `(list-all-packages)` returns, sorted by name.
pub fn parse_package_list(list: &str) -> (r: Result<Vec<String>, BackendError>)
    ensures
        r matches Ok(v) && strings_sorted(v@) && v@.map_values(|s: String| s@).to_multiset()
            == extract_packages(list@).to_multiset(),
{
    broadcast use vstd::seq_lib::group_to_multiset_ensures;

    let chars = str_chars(list);
    let mut names: Vec<String> = Vec::new();
    let mut i: usize = 0;
    proof {
        assert(chars@.skip(0) =~= chars@);
        assert(names@.map_values(|s: String| s@) =~= Seq::<Seq<char>>::empty());
    }
    while i < chars.len()
        invariant
            i <= chars@.len(),
            chars@ == list@,
            names@.map_values(|s: String| s@).to_multiset().add(
                extract_packages(chars@.skip(i as int)).to_multiset(),
            ) == extract_packages(chars@).to_multiset(),
        decreases chars@.len() - i,
    {
        let ghost rest = chars@.skip(i as int);
        if starts_at(&chars, i, "#<PACKAGE \"") {
            proof {
                reveal_strlit("#<PACKAGE \"");
            }
            // look for the closing quote-and-angle pair
            let mut j: usize;
            if chars.len() >= 12 && i <= chars.len() - 12 {
                j = i + 12;
            } else {
                j = chars.len();
            }
            let ghost base = j;
            proof {
                lemma_first_close_shift(chars@, i as int, 12);
                if i + 12 > chars@.len() {
                    assert(shifted_first_close(chars@, i as int, i + 12) is None);
                    assert(shifted_first_close(chars@, i as int, base as int) is None);
                }
                assert(first_close(rest, 12) == shifted_first_close(chars@, i as int, j as int));
            }
            while j < chars.len() && !(chars[j] == '"' && j + 1 < chars.len() && chars[j + 1]
                == '>')
                invariant
                    i + 11 < j + 1,
                    base <= j,
                    j <= chars@.len(),
                    chars@ == list@,
                    shifted_first_close(chars@, i as int, base as int) == shifted_first_close(
                        chars@,
                        i as int,
                        j as int,
                    ),
                decreases chars@.len() - j,
            {
                j += 1;
            }
            let found = j < chars.len();
            proof {
                if found {
                    assert(base < chars@.len());
                    assert(shifted_first_close(chars@, i as int, j as int) == Some(j - i));
                    assert(j - i >= 12);
                } else {
                    assert(shifted_first_close(chars@, i as int, j as int) is None);
                }
            }
            if found {
                let name = slice_to_string(&chars, i + 11, j);
                proof {
                    broadcast use vstd::seq_lib::group_to_multiset_ensures;

                    assert(rest.subrange(11, j - i) =~= chars@.subrange(i + 11, j as int));
                    assert(rest.skip(j - i + 2) =~= chars@.skip(j + 2));
                    assert(extract_packages(rest) =~= seq![chars@.subrange(i + 11, j as int)]
                        + extract_packages(chars@.skip(j + 2)));
                    lemma_multiset_of_insert_front2(
                        extract_packages(chars@.skip(j + 2)),
                        chars@.subrange(i + 11, j as int),
                    );
                    assert(names@.push(name).map_values(|s: String| s@) =~= names@.map_values(
                        |s: String| s@,
                    ).push(name@));
                }
                names.push(name);
                i = j + 2;
            } else {
                proof {
                    assert(shifted_first_close(chars@, i as int, base as int) is None);
                    assert(rest.skip(1) =~= chars@.skip(i + 1 as int));
                }
                i = i + 1;
            }
        } else {
            proof {
                if rest.len() > 0 {
                    assert(rest.skip(1) =~= chars@.skip(i + 1 as int));
                }
            }
            i = i + 1;
        }
    }
    proof {
        assert(chars@.skip(chars@.len() as int) =~= Seq::<char>::empty());
    }
    let sorted = sort_strings(names);
    Ok(sorted)
}

/// `first_close` on a suffix, phrased over absolute positions.
pub open spec fn shifted_first_close(s: Seq<char>, i: int, j: int) -> Option<int>
    decreases s.len() - j,
{
    if j < i || j >= s.len() {
        None
    } else if s[j] == '"' && j + 1 < s.len() && s[j + 1] == '>' {
        Some(j - i)
    } else {
        shifted_first_close(s, i, j + 1)
    }
}

/// `first_close` over a suffix equals the absolute-position scan.
proof fn lemma_first_close_shift(s: Seq<char>, i: int, k: int)
    requires
        0 <= i <= s.len(),
        0 <= k,
    ensures
        first_close(s.skip(i), k) == shifted_first_close(s, i, i + k),
    decreases s.len() - i - k,
{
    let rest = s.skip(i);
    if k >= rest.len() {
    } else if rest[k] == '"' && k + 1 < rest.len() && rest[k + 1] == '>' {
        assert(rest[k] == s[i + k]);
        assert(rest[k + 1] == s[i + k + 1]);
    } else {
        assert(rest[k] == s[i + k]);
        if k + 1 < rest.len() {
            assert(rest[k + 1] == s[i + k + 1]);
        }
        lemma_first_close_shift(s, i, k + 1);
    }
}

/// Adding one text at the front adds exactly it to the collection.
proof fn lemma_multiset_of_insert_front2(s: Seq<Seq<char>>, x: Seq<char>)
    ensures
        (seq![x] + s).to_multiset() == s.to_multiset().insert(x),
{
    assert(seq![x] + s =~= s.insert(0, x));
    lemma_multiset_of_insert_front(s, x);
}

/// Reads the symbol list printed by a `(do-all-symbols ...)` evaluation:
/// the first element of the reply, unwrapped, split at whitespace, sorted.
/// Whether a symbol-listing reply parses as a value whose first element is
/// text: the shape the listing reader accepts.
pub open spec fn sym_reply_shape(s: Seq<char>) -> bool {
    exists|t: Sexp|
        #[trigger] complete_parse(cleaned_text(s), t) && nth_string_content(t, 0) is Some
}

/// Whether the printed list denotes no symbols: empty, `()` or `nil` in any
/// letter case.
pub open spec fn empty_symbol_list_text(l: Seq<char>) -> bool {
    ||| l.len() == 0
    ||| l == "()"@
    ||| (l.len() == 3 && (l[0] == 'n' || l[0] == 'N') && (l[1] == 'i' || l[1] == 'I') && (l[2]
        == 'l' || l[2] == 'L'))
}

/// The names of a printed symbol list, in input order: the list wrappers
/// stripped, the rest split at whitespace runs.
pub open spec fn symbol_names_of(l: Seq<char>) -> Seq<Seq<char>> {
    split_ws_go(strip_trail_wrappers(strip_lead_wrappers(l)), Seq::empty())
}

pub fn parse_symbol_list(return_value: String) -> (r: Result<Vec<String>, BackendError>)
    ensures
        r is Ok <==> sym_reply_shape(return_value@),
        r matches Ok(v) ==> (exists|t: Sexp|
            #[trigger] complete_parse(cleaned_text(return_value@), t) && (nth_string_content(t, 0)
                matches Some(l) && (if empty_symbol_list_text(l) {
                v@.len() == 0
            } else {
                strings_sorted(v@) && v@.map_values(|n: String| n@).to_multiset()
                    == symbol_names_of(l).to_multiset()
            }))),
{
    let ghost cln = cleaned_text(return_value@);
    let tree = match clean_and_parse_sexp(return_value.as_str()) {
        Ok(t) => t,
        Err(e) => {
            proof {
                assert(!sym_reply_shape(return_value@)) by {
                    if sym_reply_shape(return_value@) {
                        let t2 = choose|t2: Sexp|
                            #[trigger] complete_parse(cln, t2) && nth_string_content(t2, 0) is Some;
                        assert(!complete_parse(cln, t2));
                    }
                }
            }
            return Err(e);
        },
    };
    let list = match sexp_list_nth_as_string(&tree, 0) {
        Ok(l) => l,
        Err(e) => {
            proof {
                assert(!sym_reply_shape(return_value@)) by {
                    if sym_reply_shape(return_value@) {
                        let t2 = choose|t2: Sexp|
                            #[trigger] complete_parse(cln, t2) && nth_string_content(t2, 0) is Some;
                        lemma_parse_agree(cln, 0, t2, cln.len() as int, tree, cln.len() as int);
                        let xs = t2->List_0@;
                        let ys = tree->List_0@;
                        assert(sexp_same_text(xs[0], ys[0]));
                        assert(nth_string_content(tree, 0) is Some);
                    }
                }
            }
            return Err(e);
        },
    };
    proof {
        assert(sym_reply_shape(return_value@)) by {
            assert(complete_parse(cln, tree) && nth_string_content(tree, 0) is Some);
        }
        assert(nth_string_content(tree, 0) == Some(list@));
    }
    let chars = str_chars(list.as_str());
    let empty_list = chars.len() == 0 || str_eq(list.as_str(), "()") || (chars.len() == 3 && (
    chars[0] == 'n' || chars[0] == 'N') && (chars[1] == 'i' || chars[1] == 'I') && (chars[2] == 'l'
        || chars[2] == 'L'));
    proof {
        assert(empty_list == empty_symbol_list_text(list@));
    }
    if empty_list {
        let names: Vec<String> = Vec::new();
        Ok(names)
    } else {
        let names = split_symbol_names(list.as_str());
        let sorted = sort_strings(names);
        proof {
            assert(sorted@.map_values(|n: String| n@).to_multiset() == symbol_names_of(
                list@,
            ).to_multiset());
        }
        Ok(sorted)
    }
}

/// Whitespace inside a printed symbol list: space, newline, tab.
pub open spec fn is_ws2(c: char) -> bool {
    c == ' ' || c == '\n' || c == '\t'
}

/// Splits at whitespace runs, `cur` being the name read so far; a leading or
/// trailing run yields an empty name, as a regular-expression split does.
pub open spec fn split_ws_go(s: Seq<char>, cur: Seq<char>) -> Seq<Seq<char>>
    decreases s.len(), 0int,
{
    if s.len() == 0 {
        seq![cur]
    } else if !is_ws2(s[0]) {
        split_ws_go(s.skip(1), cur.push(s[0]))
    } else {
        seq![cur] + split_ws_run(s.skip(1))
    }
}

/// Skips the rest of a whitespace run, then reads the next name.
pub open spec fn split_ws_run(s: Seq<char>) -> Seq<Seq<char>>
    decreases s.len(), 1int,
{
    if s.len() > 0 && is_ws2(s[0]) {
        split_ws_run(s.skip(1))
    } else {
        split_ws_go(s, Seq::empty())
    }
}

/// The text without leading `(` and `"` characters.
pub open spec fn strip_lead_wrappers(s: Seq<char>) -> Seq<char>
    decreases s.len(),
{
    if s.len() > 0 && (s[0] == '(' || s[0] == '"') {
        strip_lead_wrappers(s.skip(1))
    } else {
        s
    }
}

/// The text without trailing `"` and `)` characters.
pub open spec fn strip_trail_wrappers(s: Seq<char>) -> Seq<char>
    decreases s.len(),
{
    if s.len() > 0 && (s.last() == '"' || s.last() == ')') {
        strip_trail_wrappers(s.drop_last())
    } else {
        s
    }
}

/// Strips the list wrappers and splits the names at whitespace runs, in
/// input order.
pub fn split_symbol_names(list: &str) -> (r: Vec<String>)
    ensures
        r@.map_values(|s: String| s@) == split_ws_go(
            strip_trail_wrappers(strip_lead_wrappers(list@)),
            Seq::empty(),
        ),
{
    let chars = str_chars(list);
    // strip leading parens and quotes
    let mut start: usize = 0;
    proof {
        assert(list@.skip(0) =~= list@);
    }
    while start < chars.len() && (chars[start] == '(' || chars[start] == '"')
        invariant
            start <= chars@.len(),
            chars@ == list@,
            strip_lead_wrappers(list@) == strip_lead_wrappers(list@.skip(start as int)),
        decreases chars@.len() - start,
    {
        proof {
            assert(list@.skip(start as int)[0] == list@[start as int]);
            assert(list@.skip(start as int).skip(1) =~= list@.skip(start + 1 as int));
        }
        start += 1;
    }
    proof {
        if start < chars@.len() {
            assert(list@.skip(start as int)[0] == list@[start as int]);
        } else {
            assert(list@.skip(start as int) =~= Seq::<char>::empty());
        }
        assert(strip_lead_wrappers(list@) =~= list@.skip(start as int));
    }
    let ghost led = list@.skip(start as int);
    // strip trailing quotes and parens
    let mut end: usize = chars.len();
    proof {
        assert(led.take(end - start) =~= led);
    }
    while end > start && (chars[end - 1] == '"' || chars[end - 1] == ')')
        invariant
            start <= end <= chars@.len(),
            chars@ == list@,
            led == list@.skip(start as int),
            strip_trail_wrappers(led) == strip_trail_wrappers(led.take(end - start)),
        decreases end,
    {
        proof {
            assert(led.take(end - start).last() == list@[end - 1]);
            assert(led.take(end - start).drop_last() =~= led.take(end - 1 - start));
        }
        end -= 1;
    }
    let ghost t = led.take(end - start);
    proof {
        if end > start {
            assert(t.last() == list@[end - 1]);
        }
        assert(strip_trail_wrappers(led) =~= t);
        assert(t =~= list@.subrange(start as int, end as int));
    }
    // split at whitespace runs
    let mut done: Vec<String> = Vec::new();
    let mut cur: Vec<char> = Vec::new();
    let mut i: usize = start;
    proof {
        assert(t.skip(0) =~= t);
        assert(done@.map_values(|s: String| s@) + split_ws_go(t, cur@) =~= split_ws_go(t, cur@));
    }
    while i < end
        invariant
            start <= i <= end <= chars@.len(),
            chars@ == list@,
            t == list@.subrange(start as int, end as int),
            done@.map_values(|s: String| s@) + split_ws_go(t.skip(i - start), cur@) == split_ws_go(
                t,
                Seq::empty(),
            ),
        decreases end - i,
    {
        let ghost rest = t.skip(i - start);
        let c = chars[i];
        proof {
            assert(rest[0] == list@[i as int]);
            assert(rest.skip(1) =~= t.skip(i + 1 - start));
        }
        if !(c == ' ' || c == '\n' || c == '\t') {
            cur.push(c);
            i += 1;
        } else {
            let finished = chars_vec_to_string(&cur);
            proof {
                assert(done@.push(finished).map_values(|s: String| s@) =~= done@.map_values(
                    |s: String| s@,
                ) + seq![cur@]);
                assert((done@.map_values(|s: String| s@) + seq![cur@]) + split_ws_run(
                    t.skip(i + 1 - start),
                ) =~= done@.map_values(|s: String| s@) + (seq![cur@] + split_ws_run(
                    t.skip(i + 1 - start),
                )));
            }
            done.push(finished);
            cur = Vec::new();
            i += 1;
            // swallow the rest of the whitespace run
            let ghost entered = i as int;
            while i < end && (chars[i] == ' ' || chars[i] == '\n' || chars[i] == '\t')
                invariant
                    entered <= i,
                    start <= i <= end <= chars@.len(),
                    chars@ == list@,
                    t == list@.subrange(start as int, end as int),
                    done@.map_values(|s: String| s@) + split_ws_run(t.skip(i - start))
                        == split_ws_go(t, Seq::empty()),
                decreases end - i,
            {
                proof {
                    assert(t.skip(i - start)[0] == list@[i as int]);
                    assert(t.skip(i - start).skip(1) =~= t.skip(i + 1 - start));
                }
                i += 1;
            }
            proof {
                if i < end {
                    assert(t.skip(i - start)[0] == list@[i as int]);
                } else {
                    assert(t.skip(i - start) =~= Seq::<char>::empty());
                }
                assert(split_ws_run(t.skip(i - start)) == split_ws_go(t.skip(i - start), cur@));
            }
        }
    }
    proof {
        assert(t.skip(end - start) =~= Seq::<char>::empty());
    }
    let last = chars_vec_to_string(&cur);
    proof {
        assert(done@.push(last).map_values(|s: String| s@) =~= done@.map_values(|s: String| s@)
            + seq![cur@]);
    }
    done.push(last);
    done
}

} // verus!
