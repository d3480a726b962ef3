//! Reading back what is written: a well-formed JSON value, written on one
//! line or as people read it, reads back as the same value.

use vstd::prelude::*;
use crate::formats::json::{
    compact_items, compact_member, compact_members, compact_of, json_char, json_escaped, json_quoted,
    is_scalar, pad, pretty_items, pretty_member, pretty_members, pretty_of, JsonView,
};
use crate::formats::json_read::{
    literal, array, char_or_replacement, float_syntax, hex_digit, hex_digits_value, hex_text, insert_member, is_number_char,
    is_ws, number, number_end, object, parse_chars, string_body, value, ws_end, JsonError,
};
use crate::lang::deps::{lemma_seq_lt_irreflexive, seq_lt};
use crate::numtext::{digit_char, digits, hex, hex_padded};

verus! {

/// The text of a number that reads back: it starts with `-` or a digit,
/// holds only number characters, and `f64` reads it.
pub open spec fn number_text_ok(n: Seq<char>) -> bool {
    &&& n.len() > 0
    &&& (n[0] == '-' || ('0' <= n[0] && n[0] <= '9'))
    &&& float_syntax(n)
    &&& forall|k: int| 0 <= k < n.len() ==> is_number_char(#[trigger] n[k])
}

/// Keys in increasing order, each once.
pub open spec fn keys_increasing(ms: Seq<(Seq<char>, JsonView)>) -> bool {
    forall|i: int, j: int| 0 <= i < j < ms.len() ==> seq_lt((#[trigger] ms[i]).0, (#[trigger] ms[j]).0)
}

/// A value that reads back: its numbers read, and its objects keep their
/// keys in order, each once, as the map of an object does.
pub open spec fn json_wf(v: JsonView) -> bool
    decreases v,
{
    match v {
        JsonView::Number(n) => number_text_ok(n),
        JsonView::Array(items) => items_wf(items),
        JsonView::Object(ms) => keys_increasing(ms) && members_wf(ms),
        _ => true,
    }
}

pub open spec fn items_wf(s: Seq<JsonView>) -> bool
    decreases s,
{
    if s.len() == 0 {
        true
    } else {
        items_wf(s.subrange(0, s.len() - 1)) && json_wf(s[s.len() - 1])
    }
}

pub open spec fn members_wf(s: Seq<(Seq<char>, JsonView)>) -> bool
    decreases s,
{
    if s.len() == 0 {
        true
    } else {
        members_wf(s.subrange(0, s.len() - 1)) && json_wf(s[s.len() - 1].1)
    }
}

/// `w` stands in `c` at `i`.
pub open spec fn at(c: Seq<char>, i: int, w: Seq<char>) -> bool {
    0 <= i && i + w.len() <= c.len() && c.subrange(i, i + w.len()) == w
}

pub proof fn lemma_at_concat(c: Seq<char>, i: int, a: Seq<char>, b: Seq<char>)
    ensures
        at(c, i, a + b) <==> (at(c, i, a) && at(c, i + a.len(), b)),
{
    if at(c, i, a + b) {
        assert((a + b).subrange(0, a.len() as int) =~= a);
        assert((a + b).subrange(a.len() as int, (a + b).len() as int) =~= b);
        assert(c.subrange(i, i + a.len()) =~= (a + b).subrange(0, a.len() as int));
        assert(c.subrange(i + a.len(), i + a.len() + b.len()) =~= (a + b).subrange(
            a.len() as int,
            (a + b).len() as int,
        ));
    }
    if at(c, i, a) && at(c, i + a.len(), b) {
        assert forall|k: int| 0 <= k < (a + b).len() implies c.subrange(i, i + (a + b).len())[k] == (a + b)[k] by {
            if k < a.len() {
                assert(c.subrange(i, i + a.len())[k] == c[i + k]);
            } else {
                assert(c.subrange(i + a.len(), i + a.len() + b.len())[k - a.len()] == c[i + k]);
            }
        }
        assert(c.subrange(i, i + (a + b).len()) =~= a + b);
    }
}

pub proof fn lemma_at_index(c: Seq<char>, i: int, w: Seq<char>, k: int)
    requires
        at(c, i, w),
        0 <= k < w.len(),
    ensures
        c[i + k] == w[k],
{
    assert(c.subrange(i, i + w.len())[k] == c[i + k]);
}

pub proof fn lemma_items_wf(s: Seq<JsonView>)
    requires
        items_wf(s),
    ensures
        forall|i: int| 0 <= i < s.len() ==> json_wf(#[trigger] s[i]),
    decreases s.len(),
{
    if s.len() > 0 {
        let t = s.subrange(0, s.len() - 1);
        lemma_items_wf(t);
        assert forall|i: int| 0 <= i < s.len() implies json_wf(#[trigger] s[i]) by {
            if i < s.len() - 1 {
                assert(s[i] == t[i]);
            }
        }
    }
}

pub proof fn lemma_members_wf(s: Seq<(Seq<char>, JsonView)>)
    requires
        members_wf(s),
    ensures
        forall|i: int| 0 <= i < s.len() ==> json_wf((#[trigger] s[i]).1),
    decreases s.len(),
{
    if s.len() > 0 {
        let t = s.subrange(0, s.len() - 1);
        lemma_members_wf(t);
        assert forall|i: int| 0 <= i < s.len() implies json_wf((#[trigger] s[i]).1) by {
            if i < s.len() - 1 {
                assert(s[i] == t[i]);
            }
        }
    }
}

/// Escaping works character by character from the front too.
pub proof fn lemma_escaped_front(s: Seq<char>)
    requires
        s.len() > 0,
    ensures
        json_escaped(s) == json_char(s[0]) + json_escaped(s.drop_first()),
    decreases s.len(),
{
    if s.len() == 1 {
        assert(s.drop_last() =~= Seq::<char>::empty());
        assert(s.drop_first() =~= Seq::<char>::empty());
        assert(json_escaped(s.drop_last()) =~= Seq::<char>::empty());
        assert(json_escaped(s.drop_first()) =~= Seq::<char>::empty());
        assert(s.last() == s[0]);
        assert(json_escaped(s) == json_escaped(s.drop_last()) + json_char(s.last()));
        assert(json_escaped(s) =~= json_char(s[0]));
    } else {
        lemma_escaped_front(s.drop_last());
        assert(s.drop_last().drop_first() =~= s.drop_first().drop_last());
        assert(s.drop_first().last() == s.last());
        assert(json_escaped(s) =~= json_char(s[0]) + json_escaped(s.drop_first()));
    }
}

pub proof fn lemma_char_code(ch: char)
    ensures
        ch as nat == ch as u32,
        (ch as nat) as char == ch,
{
}

pub proof fn lemma_hex_digit_char(k: nat)
    requires
        k < 16,
    ensures
        hex_digit(digit_char(k)) == Some(k),
{
}

/// A control character written as four hexadecimal digits reads back.
pub proof fn lemma_hex_control(n: nat)
    requires
        n < 0x20,
    ensures
        hex_padded(n, 4).len() == 4,
        hex_text(hex_padded(n, 4)) == Some(n),
{
    let z: Seq<char> = seq!['0'];
    if n < 16 {
        assert(hex(n) == seq![digit_char(n % 16)]);
        assert(n % 16 == n);
        let h = hex_padded(n, 4);
        assert(h =~= seq!['0', '0', '0', digit_char(n)]);
        lemma_hex_digit_char(n);
        lemma_hex_digit_char(0);
        assert(digit_char(0) == '0');
        reveal_with_fuel(hex_digits_value, 5);
        assert(h.drop_last() =~= seq!['0', '0', '0']);
        assert(h.drop_last().drop_last() =~= seq!['0', '0']);
        assert(h.drop_last().drop_last().drop_last() =~= seq!['0']);
        assert(h.drop_last().drop_last().drop_last().drop_last() =~= Seq::<char>::empty());
    } else {
        assert(n / 16 == 1);
        assert(hex(n) == digits(1, 16).push(digit_char(n % 16)));
        assert(digits(1, 16) == seq![digit_char(1)]);
        let h = hex_padded(n, 4);
        assert(h =~= seq!['0', '0', digit_char(1), digit_char(n % 16)]);
        lemma_hex_digit_char(n % 16);
        lemma_hex_digit_char(1);
        lemma_hex_digit_char(0);
        assert(digit_char(0) == '0');
        reveal_with_fuel(hex_digits_value, 5);
        assert(h.drop_last() =~= seq!['0', '0', digit_char(1)]);
        assert(h.drop_last().drop_last() =~= seq!['0', '0']);
        assert(h.drop_last().drop_last().drop_last() =~= seq!['0']);
        assert(h.drop_last().drop_last().drop_last().drop_last() =~= Seq::<char>::empty());
    }
}

/// An escaped text and its closing quote read back as the text.
pub proof fn lemma_string_read(s: Seq<char>, c: Seq<char>, i: int, acc: Seq<char>)
    requires
        at(c, i, json_escaped(s).push('"')),
    ensures
        string_body(c, i, acc) == Ok::<(Seq<char>, int), JsonError>((acc + s, i + json_escaped(s).len() + 1)),
    decreases s.len(),
{
    if s.len() == 0 {
        assert(json_escaped(s) =~= Seq::<char>::empty());
        lemma_at_index(c, i, json_escaped(s).push('"'), 0);
        assert(acc + s =~= acc);
    } else {
        let ch = s[0];
        let rest = s.drop_first();
        lemma_escaped_front(s);
        let w = json_char(ch);
        assert(json_escaped(s).push('"') =~= w + json_escaped(rest).push('"'));
        lemma_at_concat(c, i, w, json_escaped(rest).push('"'));
        lemma_string_read(rest, c, i + w.len(), acc.push(ch));
        assert(acc.push(ch) + rest =~= acc + s);
        lemma_at_index(c, i, w, 0);
        if w.len() >= 2 {
            lemma_at_index(c, i, w, 1);
        }
        if ch == '"' || ch == '\\' || ch == '\n' || ch == '\r' || ch == '\t' {
        } else if (ch as u32) < 0x20 {
            let code = ch as nat;
            lemma_char_code(ch);
            lemma_hex_control(code);
            assert(w =~= seq!['\\', 'u'] + hex_padded(code, 4));
            lemma_at_concat(c, i, seq!['\\', 'u'], hex_padded(code, 4));
            assert(c.subrange(i + 2, i + 6) == hex_padded(code, 4));
            assert(char_or_replacement(code) == ch);
        } else {
            assert(w == seq![ch]);
        }
    }
}

pub proof fn lemma_ws_none(c: Seq<char>, p: int)
    requires
        0 <= p < c.len(),
        !is_ws(c[p]),
    ensures
        ws_end(c, p) == p,
{
}

pub proof fn lemma_number_end_exact(c: Seq<char>, i: int, n: int)
    requires
        0 <= i,
        i + n <= c.len(),
        0 <= n,
        forall|k: int| i <= k < i + n ==> is_number_char(#[trigger] c[k]),
        i + n == c.len() || !is_number_char(c[i + n]),
    ensures
        number_end(c, i) == i + n,
    decreases n,
{
    if n > 0 {
        lemma_number_end_exact(c, i + 1, n - 1);
    }
}

pub proof fn lemma_insert_member_append(acc: Seq<(Seq<char>, JsonView)>, k: Seq<char>, v: JsonView)
    requires
        acc.len() == 0 || seq_lt(acc.last().0, k),
    ensures
        insert_member(acc, k, v) == acc.push((k, v)),
{
    if acc.len() > 0 {
        lemma_seq_lt_irreflexive(k);
        assert(acc.last().0 != k);
    } else {
        assert(seq![(k, v)] =~= acc.push((k, v)));
    }
}

/// What a written value starts with: never white space or a closing bracket.
pub proof fn lemma_compact_first(v: JsonView)
    requires
        json_wf(v),
    ensures
        compact_of(v).len() >= 1,
        !is_ws(compact_of(v)[0]),
        compact_of(v)[0] != ']',
        compact_of(v)[0] != '}',
        compact_of(v)[0] == match v {
            JsonView::Null => 'n',
            JsonView::Bool(b) => if b {
                't'
            } else {
                'f'
            },
            JsonView::Number(n) => n[0],
            JsonView::Str(_) => '"',
            JsonView::Array(_) => '[',
            JsonView::Object(_) => '{',
        },
{
    reveal_strlit("null");
    reveal_strlit("true");
    reveal_strlit("false");
    reveal_strlit("[");
    reveal_strlit("]");
    reveal_strlit("{");
    reveal_strlit("}");
    match v {
        JsonView::Array(items) => {
            assert(compact_of(v) == "["@ + compact_items(items, ","@) + "]"@);
            assert(("["@ + compact_items(items, ","@) + "]"@)[0] == '[');
        },
        JsonView::Object(ms) => {
            assert(compact_of(v) == "{"@ + compact_members(ms) + "}"@);
            assert(("{"@ + compact_members(ms) + "}"@)[0] == '{');
        },
        JsonView::Str(t) => {
            assert(json_quoted(t)[0] == '"');
        },
        _ => {},
    }
}

pub proof fn lemma_compact_items_front(items: Seq<JsonView>, sep: Seq<char>)
    requires
        items.len() >= 1,
    ensures
        compact_items(items, sep) == compact_of(items[0]) + if items.len() > 1 {
            sep + compact_items(items.drop_first(), sep)
        } else {
            Seq::empty()
        },
    decreases items.len(),
{
    if items.len() == 1 {
        assert(compact_of(items[0]) + Seq::<char>::empty() =~= compact_of(items[0]));
    } else if items.len() == 2 {
        let t = items.drop_first();
        assert(items.subrange(0, 1)[0] == items[0]);
        assert(compact_items(items.subrange(0, 1), sep) == compact_of(items[0]));
        assert(compact_items(items, sep) == compact_items(items.subrange(0, 1), sep) + sep + compact_of(items[1]));
        assert(t[0] == items[1]);
        assert(compact_items(t, sep) == compact_of(t[0]));
        assert(compact_items(items, sep) =~= compact_of(items[0]) + (sep + compact_items(items.drop_first(), sep)));
    } else {
        let d = items.subrange(0, items.len() - 1);
        let t = items.drop_first();
        lemma_compact_items_front(d, sep);
        assert(d[0] == items[0]);
        assert(d.drop_first() =~= t.subrange(0, t.len() - 1));
        assert(t[t.len() - 1] == items[items.len() - 1]);
        assert(compact_items(items, sep) == compact_items(d, sep) + sep + compact_of(items[items.len() - 1]));
        assert(compact_items(t, sep) == compact_items(t.subrange(0, t.len() - 1), sep) + sep + compact_of(t[t.len() - 1]));
        assert(compact_items(items, sep) =~= compact_of(items[0]) + (sep + compact_items(items.drop_first(), sep)));
    }
}

pub proof fn lemma_compact_members_front(ms: Seq<(Seq<char>, JsonView)>)
    requires
        ms.len() >= 1,
    ensures
        compact_members(ms) == compact_member(ms[0]) + if ms.len() > 1 {
            ","@ + compact_members(ms.drop_first())
        } else {
            Seq::empty()
        },
    decreases ms.len(),
{
    if ms.len() == 1 {
        assert(compact_member(ms[0]) + Seq::<char>::empty() =~= compact_member(ms[0]));
    } else if ms.len() == 2 {
        let t = ms.drop_first();
        assert(ms.subrange(0, 1)[0] == ms[0]);
        assert(compact_members(ms.subrange(0, 1)) == compact_member(ms[0]));
        assert(compact_members(ms) == compact_members(ms.subrange(0, 1)) + ","@ + compact_member(ms[1]));
        assert(t[0] == ms[1]);
        assert(compact_members(t) == compact_member(t[0]));
        assert(compact_members(ms) =~= compact_member(ms[0]) + (","@ + compact_members(ms.drop_first())));
    } else {
        let d = ms.subrange(0, ms.len() - 1);
        let t = ms.drop_first();
        lemma_compact_members_front(d);
        assert(d[0] == ms[0]);
        assert(d.drop_first() =~= t.subrange(0, t.len() - 1));
        assert(t[t.len() - 1] == ms[ms.len() - 1]);
        assert(compact_members(ms) == compact_members(d) + ","@ + compact_member(ms[ms.len() - 1]));
        assert(compact_members(t) == compact_members(t.subrange(0, t.len() - 1)) + ","@ + compact_member(t[t.len() - 1]));
        assert(compact_members(ms) =~= compact_member(ms[0]) + (","@ + compact_members(ms.drop_first())));
    }
}

/// A value written on one line reads back, when what follows it is no
/// character of a number.
pub proof fn lemma_value_compact(v: JsonView, c: Seq<char>, i: int)
    requires
        json_wf(v),
        at(c, i, compact_of(v)),
        i + compact_of(v).len() == c.len() || !is_number_char(c[i + compact_of(v).len()]),
    ensures
        value(c, i) == Ok::<(JsonView, int), JsonError>((v, i + compact_of(v).len())),
    decreases v,
{
    lemma_compact_first(v);
    lemma_at_index(c, i, compact_of(v), 0);
    reveal_strlit("null");
    reveal_strlit("true");
    reveal_strlit("false");
    reveal_strlit("[");
    reveal_strlit("]");
    reveal_strlit("{");
    reveal_strlit("}");
    match v {
        JsonView::Number(n) => {
            assert(compact_of(v) == n);
            assert(at(c, i, n));
            assert forall|k: int| i <= k < i + n.len() implies is_number_char(#[trigger] c[k]) by {
                lemma_at_index(c, i, n, k - i);
            }
            lemma_number_end_exact(c, i, n.len() as int);
            assert(c.subrange(i, i + n.len()) == n);
            assert(number(c, i) == Ok::<(JsonView, int), JsonError>((JsonView::Number(n), i + n.len())));
            assert(c[i] == n[0]);
            assert(0 <= i < c.len());
            assert(value(c, i) == number(c, i));
            assert(v == JsonView::Number(n));
            assert(value(c, i) == Ok::<(JsonView, int), JsonError>((v, i + n.len())));
        },
        JsonView::Str(t) => {
            let w = json_escaped(t).push('"');
            assert(json_quoted(t) =~= seq!['"'] + w);
            lemma_at_concat(c, i, seq!['"'], w);
            lemma_string_read(t, c, i + 1, Seq::empty());
            assert(Seq::<char>::empty() + t =~= t);
            assert(value(c, i) == Ok::<(JsonView, int), JsonError>((v, i + 1 + json_escaped(t).len() + 1)));
        },
        JsonView::Array(items) => {
            let ci = compact_items(items, ","@);
            assert(compact_of(v) == "["@ + ci + "]"@);
            lemma_at_concat(c, i, "["@ + ci, "]"@);
            lemma_at_concat(c, i, "["@, ci);
            assert(value(c, i) == array(c, i + 1, Seq::empty()));
            if items.len() == 0 {
                assert(ci =~= Seq::<char>::empty());
                lemma_at_index(c, i + 1, "]"@, 0);
                lemma_ws_none(c, i + 1);
                assert(items =~= Seq::<JsonView>::empty());
                assert(array(c, i + 1, Seq::empty()) == Ok::<(JsonView, int), JsonError>((v, i + 2)));
            } else {
                lemma_items_wf(items);
                lemma_at_concat(c, i + 1, ci, "]"@);
                assert(Seq::<char>::empty() + (ci + "]"@) =~= ci + "]"@);
                lemma_items_compact(items, ","@, Seq::empty(), c, i + 1, Seq::empty());
                assert(Seq::<JsonView>::empty() + items =~= items);
                assert(array(c, i + 1, Seq::empty()) == Ok::<(JsonView, int), JsonError>((v, i + 1 + ci.len() + 1)));
            }
        },
        JsonView::Object(ms) => {
            let cm = compact_members(ms);
            assert(compact_of(v) == "{"@ + cm + "}"@);
            lemma_at_concat(c, i, "{"@ + cm, "}"@);
            lemma_at_concat(c, i, "{"@, cm);
            assert(value(c, i) == object(c, i + 1, Seq::empty()));
            if ms.len() == 0 {
                assert(cm =~= Seq::<char>::empty());
                lemma_at_index(c, i + 1, "}"@, 0);
                lemma_ws_none(c, i + 1);
                assert(ms =~= Seq::<(Seq<char>, JsonView)>::empty());
                assert(object(c, i + 1, Seq::empty()) == Ok::<(JsonView, int), JsonError>((v, i + 2)));
            } else {
                lemma_members_wf(ms);
                lemma_at_concat(c, i + 1, cm, "}"@);
                assert(ms.subrange(0, ms.len() as int) =~= ms);
                assert(ms.subrange(0, 0) =~= Seq::<(Seq<char>, JsonView)>::empty());
                lemma_members_compact(ms, 0, ms, c, i + 1);
                assert(object(c, i + 1, Seq::empty()) == Ok::<(JsonView, int), JsonError>((v, i + 1 + cm.len() + 1)));
            }
        },
        JsonView::Null => {
            assert(compact_of(v) == "null"@);
            assert(c.subrange(i, i + 4) == "null"@);
            assert(literal(c, i, "null"@, JsonView::Null) == Ok::<(JsonView, int), JsonError>((JsonView::Null, i + 4)));
        },
        JsonView::Bool(b) => {
            if b {
                assert(compact_of(v) == "true"@);
                assert(c.subrange(i, i + 4) == "true"@);
                assert(literal(c, i, "true"@, JsonView::Bool(true)) == Ok::<(JsonView, int), JsonError>((v, i + 4)));
            } else {
                assert(compact_of(v) == "false"@);
                assert(c.subrange(i, i + 5) == "false"@);
                assert(literal(c, i, "false"@, JsonView::Bool(false)) == Ok::<(JsonView, int), JsonError>((v, i + 5)));
            }
        },
    }
}

/// Items written on one line with `sep` between them and `]` after them
/// read back into an array, after those read already.
pub proof fn lemma_items_compact(
    items: Seq<JsonView>,
    sep: Seq<char>,
    lead: Seq<char>,
    c: Seq<char>,
    p: int,
    acc: Seq<JsonView>,
)
    requires
        items.len() >= 1,
        forall|k: int| 0 <= k < items.len() ==> json_wf(#[trigger] items[k]),
        sep == ","@ || sep == ", "@,
        lead == Seq::<char>::empty() || lead == " "@,
        at(c, p, lead + (compact_items(items, sep) + "]"@)),
    ensures
        array(c, p, acc) == Ok::<(JsonView, int), JsonError>((
            JsonView::Array(acc + items),
            p + lead.len() + compact_items(items, sep).len() + 1,
        )),
    decreases items,
{
    reveal_strlit(",");
    reveal_strlit(", ");
    reveal_strlit(" ");
    reveal_strlit("]");
    let w0 = compact_of(items[0]);
    let ci = compact_items(items, sep);
    lemma_compact_items_front(items, sep);
    lemma_compact_first(items[0]);
    lemma_at_concat(c, p, lead, ci + "]"@);
    let a = p + lead.len();
    lemma_at_concat(c, a, ci, "]"@);
    lemma_at_index(c, a, ci, 0);
    if lead.len() == 1 {
        lemma_at_index(c, p, lead, 0);
    }
    lemma_ws_none(c, a);
    let rest = if items.len() > 1 {
        sep + compact_items(items.drop_first(), sep)
    } else {
        Seq::<char>::empty()
    };
    assert(ci == w0 + rest);
    lemma_at_concat(c, a, w0, rest);
    let b = a + w0.len();
    if items.len() > 1 {
        lemma_at_concat(c, b, sep, compact_items(items.drop_first(), sep));
        lemma_at_index(c, b, sep, 0);
    } else {
        lemma_at_index(c, a + ci.len(), "]"@, 0);
    }
    lemma_value_compact(items[0], c, a);
    lemma_ws_none(c, b);
    assert(ws_end(c, p) == a);
    assert(value(c, a) == Ok::<(JsonView, int), JsonError>((items[0], b)));
    assert(!(a < c.len() && c[a] == ']'));
    assert(ws_end(c, b) == b);
    if items.len() > 1 {
        let t = items.drop_first();
        let lead2 = sep.drop_first();
        assert(lead2 == Seq::<char>::empty() || lead2 == " "@);
        lemma_at_concat(c, a, ci, "]"@);
        lemma_at_concat(c, b, rest, "]"@);
        assert(rest + "]"@ =~= seq![','] + (lead2 + (compact_items(t, sep) + "]"@)));
        lemma_at_concat(c, b, seq![','], lead2 + (compact_items(t, sep) + "]"@));
        lemma_items_compact(t, sep, lead2, c, b + 1, acc.push(items[0]));
        assert(acc.push(items[0]) + t =~= acc + items);
        assert(c[b] == ',');
        assert(array(c, p, acc) == array(c, b + 1, acc.push(items[0])));
    } else {
        assert(acc.push(items[0]) =~= acc + items);
        assert(c[b] == ']');
        assert(array(c, p, acc) == array(c, b, acc.push(items[0])));
        assert(array(c, b, acc.push(items[0])) == Ok::<(JsonView, int), JsonError>((
            JsonView::Array(acc.push(items[0])),
            b + 1,
        )));
    }
}

/// A member written on one line reads back: its key as a string, the
/// colon, and its value.
pub proof fn lemma_member_compact(m: (Seq<char>, JsonView), c: Seq<char>, p: int)
    requires
        json_wf(m.1),
        at(c, p, compact_member(m)),
        p + compact_member(m).len() == c.len() || !is_number_char(c[p + compact_member(m).len()]),
    ensures
        c[p] == '"',
        string_body(c, p + 1, Seq::empty()) == Ok::<(Seq<char>, int), JsonError>((
            m.0,
            p + json_escaped(m.0).len() + 2,
        )),
        c[p + json_escaped(m.0).len() + 2] == ':',
        ws_end(c, p + json_escaped(m.0).len() + 2) == p + json_escaped(m.0).len() + 2,
        ws_end(c, p + json_escaped(m.0).len() + 3) == p + json_escaped(m.0).len() + 3,
        value(c, p + json_escaped(m.0).len() + 3) == Ok::<(JsonView, int), JsonError>((
            m.1,
            p + compact_member(m).len(),
        )),
    decreases m,
{
    reveal_strlit(":");
    let esc = json_escaped(m.0);
    let wm = compact_member(m);
    assert(wm =~= seq!['"'] + (esc.push('"') + (":"@ + compact_of(m.1))));
    lemma_at_concat(c, p, seq!['"'], esc.push('"') + (":"@ + compact_of(m.1)));
    lemma_at_concat(c, p + 1, esc.push('"'), ":"@ + compact_of(m.1));
    let b = p + 1 + esc.len() + 1;
    lemma_at_concat(c, b, ":"@, compact_of(m.1));
    lemma_at_index(c, p, wm, 0);
    lemma_string_read(m.0, c, p + 1, Seq::empty());
    assert(Seq::<char>::empty() + m.0 =~= m.0);
    lemma_at_index(c, b, ":"@, 0);
    lemma_ws_none(c, b);
    lemma_compact_first(m.1);
    lemma_at_index(c, b + 1, compact_of(m.1), 0);
    lemma_ws_none(c, b + 1);
    lemma_value_compact(m.1, c, b + 1);
}

/// Members written on one line and `}` after them read back into the
/// object `all`, whose first `j` members are read already.
#[verifier::rlimit(40)]
pub proof fn lemma_members_compact(all: Seq<(Seq<char>, JsonView)>, j: int, rest: Seq<(Seq<char>, JsonView)>, c: Seq<char>, p: int)
    requires
        0 <= j < all.len(),
        rest == all.subrange(j, all.len() as int),
        keys_increasing(all),
        forall|k: int| 0 <= k < all.len() ==> json_wf((#[trigger] all[k]).1),
        at(c, p, compact_members(rest) + "}"@),
    ensures
        object(c, p, all.subrange(0, j)) == Ok::<(JsonView, int), JsonError>((
            JsonView::Object(all),
            p + compact_members(rest).len() + 1,
        )),
    decreases rest,
{
    reveal_strlit(",");
    reveal_strlit("}");
    let m = rest[0];
    assert(m == all[j]);
    let cm = compact_members(rest);
    lemma_compact_members_front(rest);
    let more = if rest.len() > 1 {
        ","@ + compact_members(rest.drop_first())
    } else {
        Seq::<char>::empty()
    };
    let wm = compact_member(m);
    assert(cm == wm + more);
    lemma_at_concat(c, p, cm, "}"@);
    lemma_at_concat(c, p, wm, more);
    let d = p + wm.len();
    if rest.len() > 1 {
        lemma_at_concat(c, d, ","@, compact_members(rest.drop_first()));
        lemma_at_index(c, d, ","@, 0);
    } else {
        lemma_at_index(c, p + cm.len(), "}"@, 0);
    }
    lemma_member_compact(m, c, p);
    lemma_ws_none(c, p);
    lemma_ws_none(c, d);
    let b = p + json_escaped(m.0).len() + 2;
    assert(ws_end(c, p) == p);
    assert(c[p] == '"');
    assert(ws_end(c, b) == b);
    let acc = all.subrange(0, j);
    if j > 0 {
        assert(acc.last() == all[j - 1]);
    }
    lemma_insert_member_append(acc, m.0, m.1);
    assert(acc.push(m) =~= all.subrange(0, j + 1));
    if rest.len() > 1 {
        let t = rest.drop_first();
        assert(t =~= all.subrange(j + 1, all.len() as int));
        lemma_at_concat(c, d, more, "}"@);
        assert(more + "}"@ =~= ","@ + (compact_members(t) + "}"@));
        lemma_at_concat(c, d, ","@, compact_members(t) + "}"@);
        lemma_members_compact(all, j + 1, t, c, d + 1);
        assert(c[d] == ',');
        assert(object(c, p, acc) == object(c, d + 1, acc.push(m)));
    } else {
        assert(all.subrange(0, j + 1) =~= all);
        assert(c[d] == '}');
        assert(object(c, p, acc) == object(c, d, acc.push(m)));
        assert(object(c, d, acc.push(m)) == Ok::<(JsonView, int), JsonError>((JsonView::Object(acc.push(m)), d + 1)));
    }
}

/// A well-formed value written on one line reads back as the same value.
pub proof fn law_compact_round_trip(v: JsonView)
    requires
        json_wf(v),
    ensures
        parse_chars(compact_of(v)) == Ok::<JsonView, JsonError>(v),
{
    let c = compact_of(v);
    lemma_compact_first(v);
    assert(c.subrange(0, c.len() as int) =~= c);
    lemma_ws_none(c, 0);
    lemma_value_compact(v, c, 0);
}

pub proof fn lemma_ws_run(c: Seq<char>, p: int, n: int)
    requires
        0 <= p,
        0 <= n,
        p + n < c.len(),
        forall|k: int| p <= k < p + n ==> is_ws(#[trigger] c[k]),
        !is_ws(c[p + n]),
    ensures
        ws_end(c, p) == p + n,
    decreases n,
{
    if n > 0 {
        lemma_ws_run(c, p + 1, n - 1);
    }
}

/// A line feed, then indentation: all white space.
pub open spec fn indent(depth: nat) -> Seq<char> {
    "\n"@ + pad(depth) + "  "@
}

pub proof fn lemma_indent(depth: nat)
    ensures
        indent(depth).len() == 2 * depth + 3,
        forall|k: int| 0 <= k < indent(depth).len() ==> is_ws(#[trigger] indent(depth)[k]),
        "\n"@ + pad(depth) == indent(depth).subrange(0, 2 * depth as int + 1),
        forall|k: int| 0 <= k < ("\n"@ + pad(depth)).len() ==> is_ws(#[trigger] ("\n"@ + pad(depth))[k]),
{
    reveal_strlit("\n");
    reveal_strlit("  ");
    assert("\n"@ + pad(depth) =~= indent(depth).subrange(0, 2 * depth as int + 1));
}

/// Skipping white space that stands at `p` before `rest`.
pub proof fn lemma_skip_ws(c: Seq<char>, p: int, w: Seq<char>, rest: Seq<char>)
    requires
        forall|k: int| 0 <= k < w.len() ==> is_ws(#[trigger] w[k]),
        at(c, p, w + rest),
        rest.len() > 0,
        !is_ws(rest[0]),
    ensures
        ws_end(c, p) == p + w.len(),
        at(c, p + w.len(), rest),
{
    lemma_at_concat(c, p, w, rest);
    lemma_at_index(c, p + w.len(), rest, 0);
    assert forall|k: int| p <= k < p + w.len() implies is_ws(#[trigger] c[k]) by {
        lemma_at_index(c, p, w, k - p);
    }
    lemma_ws_run(c, p, w.len() as int);
}

pub proof fn lemma_pretty_first(v: JsonView, depth: nat)
    requires
        json_wf(v),
    ensures
        pretty_of(v, depth).len() >= 1,
        pretty_of(v, depth)[0] == compact_of(v)[0],
        !is_ws(pretty_of(v, depth)[0]),
        !is_number_char(pretty_of(v, depth)[0]) || v is Number,
{
    lemma_compact_first(v);
    reveal_strlit("[]");
    reveal_strlit("{}");
    reveal_strlit("[\n");
    reveal_strlit("{\n");
    reveal_strlit("[");
    reveal_strlit("{");
    match v {
        JsonView::Array(items) => {
            if items.len() == 0 {
            } else if forall|i: int| 0 <= i < items.len() ==> is_scalar(#[trigger] items[i]) {
                assert(pretty_of(v, depth) == "["@ + compact_items(items, ", "@) + "]"@);
                assert(("["@ + compact_items(items, ", "@) + "]"@)[0] == '[');
            } else {
                assert(pretty_of(v, depth) == "[\n"@ + pretty_items(items, depth) + "\n"@ + pad(depth) + "]"@);
                assert(("[\n"@ + pretty_items(items, depth) + "\n"@ + pad(depth) + "]"@)[0] == '[');
            }
        },
        JsonView::Object(ms) => {
            if ms.len() == 0 {
            } else {
                assert(pretty_of(v, depth) == "{\n"@ + pretty_members(ms, depth) + "\n"@ + pad(depth) + "}"@);
                assert(("{\n"@ + pretty_members(ms, depth) + "\n"@ + pad(depth) + "}"@)[0] == '{');
            }
        },
        JsonView::Str(t) => {
            assert(json_quoted(t)[0] == '"');
        },
        _ => {},
    }
}

/// One item of an array on its own line: indentation, then the item.
pub open spec fn item_line(x: JsonView, depth: nat) -> Seq<char> {
    pad(depth) + "  "@ + pretty_of(x, depth + 1)
}

pub proof fn lemma_pretty_items_front(items: Seq<JsonView>, depth: nat)
    requires
        items.len() >= 1,
    ensures
        pretty_items(items, depth) == item_line(items[0], depth) + if items.len() > 1 {
            ",\n"@ + pretty_items(items.drop_first(), depth)
        } else {
            Seq::empty()
        },
    decreases items.len(),
{
    if items.len() == 1 {
        assert(item_line(items[0], depth) + Seq::<char>::empty() =~= item_line(items[0], depth));
    } else if items.len() == 2 {
        let t = items.drop_first();
        assert(items.subrange(0, 1)[0] == items[0]);
        assert(pretty_items(items.subrange(0, 1), depth) == item_line(items[0], depth));
        assert(t[0] == items[1]);
        assert(pretty_items(t, depth) == item_line(t[0], depth));
        assert(pretty_items(items, depth) =~= item_line(items[0], depth) + (",\n"@ + pretty_items(t, depth)));
    } else {
        let d = items.subrange(0, items.len() - 1);
        let t = items.drop_first();
        lemma_pretty_items_front(d, depth);
        assert(d[0] == items[0]);
        assert(d.drop_first() =~= t.subrange(0, t.len() - 1));
        assert(t[t.len() - 1] == items[items.len() - 1]);
        assert(pretty_items(items, depth) =~= item_line(items[0], depth) + (",\n"@ + pretty_items(t, depth)));
    }
}

pub proof fn lemma_pretty_members_front(ms: Seq<(Seq<char>, JsonView)>, depth: nat)
    requires
        ms.len() >= 1,
    ensures
        pretty_members(ms, depth) == pretty_member(ms[0], depth) + if ms.len() > 1 {
            ",\n"@ + pretty_members(ms.drop_first(), depth)
        } else {
            Seq::empty()
        },
    decreases ms.len(),
{
    if ms.len() == 1 {
        assert(pretty_member(ms[0], depth) + Seq::<char>::empty() =~= pretty_member(ms[0], depth));
    } else if ms.len() == 2 {
        let t = ms.drop_first();
        assert(ms.subrange(0, 1)[0] == ms[0]);
        assert(pretty_members(ms.subrange(0, 1), depth) == pretty_member(ms[0], depth));
        assert(t[0] == ms[1]);
        assert(pretty_members(t, depth) == pretty_member(t[0], depth));
        assert(pretty_members(ms, depth) =~= pretty_member(ms[0], depth) + (",\n"@ + pretty_members(t, depth)));
    } else {
        let d = ms.subrange(0, ms.len() - 1);
        let t = ms.drop_first();
        lemma_pretty_members_front(d, depth);
        assert(d[0] == ms[0]);
        assert(d.drop_first() =~= t.subrange(0, t.len() - 1));
        assert(t[t.len() - 1] == ms[ms.len() - 1]);
        assert(pretty_members(ms, depth) =~= pretty_member(ms[0], depth) + (",\n"@ + pretty_members(t, depth)));
    }
}

/// A value written as people read it reads back, when what follows it is
/// no character of a number.
pub proof fn lemma_value_pretty(v: JsonView, depth: nat, c: Seq<char>, i: int)
    requires
        json_wf(v),
        at(c, i, pretty_of(v, depth)),
        i + pretty_of(v, depth).len() == c.len() || !is_number_char(c[i + pretty_of(v, depth).len()]),
    ensures
        value(c, i) == Ok::<(JsonView, int), JsonError>((v, i + pretty_of(v, depth).len())),
    decreases v,
{
    reveal_strlit("[]");
    reveal_strlit("{}");
    reveal_strlit("[");
    reveal_strlit("]");
    reveal_strlit("{");
    reveal_strlit("}");
    reveal_strlit("[\n");
    reveal_strlit("{\n");
    reveal_strlit("\n");
    match v {
        JsonView::Array(items) => {
            if items.len() == 0 {
                assert(compact_items(items, ","@) =~= Seq::<char>::empty());
                assert(pretty_of(v, depth) =~= compact_of(v));
                lemma_value_compact(v, c, i);
            } else if forall|k: int| 0 <= k < items.len() ==> is_scalar(#[trigger] items[k]) {
                let ci = compact_items(items, ", "@);
                assert(pretty_of(v, depth) == "["@ + ci + "]"@);
                lemma_at_concat(c, i, "["@ + ci, "]"@);
                lemma_at_concat(c, i, "["@, ci);
                lemma_at_index(c, i, "["@, 0);
                lemma_items_wf(items);
                lemma_at_concat(c, i + 1, ci, "]"@);
                assert(Seq::<char>::empty() + (ci + "]"@) =~= ci + "]"@);
                lemma_items_compact(items, ", "@, Seq::empty(), c, i + 1, Seq::empty());
                assert(Seq::<JsonView>::empty() + items =~= items);
                assert(value(c, i) == array(c, i + 1, Seq::empty()));
            } else {
                let body = "\n"@ + pretty_items(items, depth) + "\n"@ + pad(depth) + "]"@;
                assert(pretty_of(v, depth) == "[\n"@ + pretty_items(items, depth) + "\n"@ + pad(depth) + "]"@);
                assert(pretty_of(v, depth) =~= "["@ + body);
                lemma_at_concat(c, i, "["@, body);
                lemma_at_index(c, i, "["@, 0);
                lemma_items_wf(items);
                lemma_items_pretty(items, depth, c, i + 1, Seq::empty());
                assert(Seq::<JsonView>::empty() + items =~= items);
                assert(value(c, i) == array(c, i + 1, Seq::empty()));
            }
        },
        JsonView::Object(ms) => {
            if ms.len() == 0 {
                assert(compact_members(ms) =~= Seq::<char>::empty());
                assert(pretty_of(v, depth) =~= compact_of(v));
                lemma_value_compact(v, c, i);
            } else {
                let body = "\n"@ + pretty_members(ms, depth) + "\n"@ + pad(depth) + "}"@;
                assert(pretty_of(v, depth) == "{\n"@ + pretty_members(ms, depth) + "\n"@ + pad(depth) + "}"@);
                assert(pretty_of(v, depth) =~= "{"@ + body);
                lemma_at_concat(c, i, "{"@, body);
                lemma_at_index(c, i, "{"@, 0);
                lemma_members_wf(ms);
                assert(ms.subrange(0, ms.len() as int) =~= ms);
                assert(ms.subrange(0, 0) =~= Seq::<(Seq<char>, JsonView)>::empty());
                lemma_members_pretty(ms, 0, ms, depth, c, i + 1);
                assert(value(c, i) == object(c, i + 1, Seq::empty()));
            }
        },
        _ => {
            assert(pretty_of(v, depth) == compact_of(v));
            lemma_value_compact(v, c, i);
        },
    }
}

/// Items on lines of their own, then a line with `]`, read back into an
/// array, after those read already.
#[verifier::rlimit(40)]
pub proof fn lemma_items_pretty(items: Seq<JsonView>, depth: nat, c: Seq<char>, p: int, acc: Seq<JsonView>)
    requires
        items.len() >= 1,
        forall|k: int| 0 <= k < items.len() ==> json_wf(#[trigger] items[k]),
        at(c, p, "\n"@ + pretty_items(items, depth) + "\n"@ + pad(depth) + "]"@),
    ensures
        array(c, p, acc) == Ok::<(JsonView, int), JsonError>((
            JsonView::Array(acc + items),
            p + ("\n"@ + pretty_items(items, depth) + "\n"@ + pad(depth) + "]"@).len(),
        )),
    decreases items,
{
    reveal_strlit("\n");
    reveal_strlit(",\n");
    reveal_strlit("]");
    reveal_strlit("  ");
    let x = items[0];
    let px = pretty_of(x, depth + 1);
    lemma_pretty_items_front(items, depth);
    let more = if items.len() > 1 {
        ",\n"@ + pretty_items(items.drop_first(), depth)
    } else {
        Seq::<char>::empty()
    };
    let tail = "\n"@ + pad(depth) + "]"@;
    let whole = "\n"@ + pretty_items(items, depth) + "\n"@ + pad(depth) + "]"@;
    assert(whole =~= indent(depth) + (px + (more + tail)));
    lemma_indent(depth);
    lemma_pretty_first(x, depth + 1);
    lemma_skip_ws(c, p, indent(depth), px + (more + tail));
    let a = p + indent(depth).len();
    lemma_at_concat(c, a, px, more + tail);
    let b = a + px.len();
    lemma_at_concat(c, b, more, tail);
    if items.len() > 1 {
        lemma_at_concat(c, b, ",\n"@, pretty_items(items.drop_first(), depth));
        lemma_at_index(c, b, ",\n"@, 0);
    } else {
        assert(more + tail =~= tail);
        lemma_at_index(c, b, tail, 0);
    }
    lemma_at_index(c, a, px, 0);
    lemma_value_pretty(x, depth + 1, c, a);
    assert(ws_end(c, p) == a);
    assert(value(c, a) == Ok::<(JsonView, int), JsonError>((x, b)));
    assert(!(a < c.len() && c[a] == ']'));
    if items.len() > 1 {
        let t = items.drop_first();
        lemma_ws_none(c, b);
        reveal_strlit(",");
        assert(",\n"@ =~= ","@ + "\n"@);
        assert(more + tail =~= ","@ + ("\n"@ + pretty_items(t, depth) + "\n"@ + pad(depth) + "]"@));
        lemma_at_concat(c, b, ","@, "\n"@ + pretty_items(t, depth) + "\n"@ + pad(depth) + "]"@);
        lemma_items_pretty(t, depth, c, b + 1, acc.push(x));
        assert(acc.push(x) + t =~= acc + items);
        assert(c[b] == ',');
        assert(array(c, p, acc) == array(c, b + 1, acc.push(x)));
    } else {
        assert(tail =~= ("\n"@ + pad(depth)) + "]"@);
        lemma_skip_ws(c, b, "\n"@ + pad(depth), "]"@);
        let e = b + ("\n"@ + pad(depth)).len();
        lemma_at_index(c, e, "]"@, 0);
        lemma_ws_none(c, e);
        assert(acc.push(x) =~= acc + items);
        assert(c[e] == ']');
        assert(array(c, p, acc) == array(c, e, acc.push(x)));
        assert(array(c, e, acc.push(x)) == Ok::<(JsonView, int), JsonError>((JsonView::Array(acc.push(x)), e + 1)));
    }
}

/// A member as written on its line, after the indentation: its key, `: `
/// and its value read back.
pub proof fn lemma_member_pretty(m: (Seq<char>, JsonView), depth: nat, c: Seq<char>, a: int)
    requires
        json_wf(m.1),
        at(c, a, json_quoted(m.0) + ": "@ + pretty_of(m.1, depth + 1)),
        !is_number_char(c[a + (json_quoted(m.0) + ": "@ + pretty_of(m.1, depth + 1)).len()]),
        a + (json_quoted(m.0) + ": "@ + pretty_of(m.1, depth + 1)).len() < c.len(),
    ensures
        c[a] == '"',
        string_body(c, a + 1, Seq::empty()) == Ok::<(Seq<char>, int), JsonError>((
            m.0,
            a + json_escaped(m.0).len() + 2,
        )),
        c[a + json_escaped(m.0).len() + 2] == ':',
        ws_end(c, a + json_escaped(m.0).len() + 2) == a + json_escaped(m.0).len() + 2,
        ws_end(c, a + json_escaped(m.0).len() + 3) == a + json_escaped(m.0).len() + 4,
        value(c, a + json_escaped(m.0).len() + 4) == Ok::<(JsonView, int), JsonError>((
            m.1,
            a + (json_quoted(m.0) + ": "@ + pretty_of(m.1, depth + 1)).len(),
        )),
    decreases m,
{
    reveal_strlit(": ");
    reveal_strlit(" ");
    let esc = json_escaped(m.0);
    let pv = pretty_of(m.1, depth + 1);
    let w = json_quoted(m.0) + ": "@ + pv;
    assert(w =~= seq!['"'] + (esc.push('"') + (seq![':'] + (seq![' '] + pv))));
    lemma_at_concat(c, a, seq!['"'], esc.push('"') + (seq![':'] + (seq![' '] + pv)));
    lemma_at_concat(c, a + 1, esc.push('"'), seq![':'] + (seq![' '] + pv));
    let b = a + 1 + esc.len() + 1;
    lemma_at_concat(c, b, seq![':'], seq![' '] + pv);
    lemma_at_index(c, a, w, 0);
    lemma_string_read(m.0, c, a + 1, Seq::empty());
    assert(Seq::<char>::empty() + m.0 =~= m.0);
    lemma_at_index(c, b, seq![':'], 0);
    lemma_ws_none(c, b);
    lemma_pretty_first(m.1, depth + 1);
    assert(forall|k: int| 0 <= k < seq![' '].len() ==> is_ws(#[trigger] seq![' '][k]));
    lemma_skip_ws(c, b + 1, seq![' '], pv);
    lemma_value_pretty(m.1, depth + 1, c, b + 2);
}

/// Members on lines of their own, then a line with `}`, read back into the
/// object `all`, whose first `j` members are read already.
#[verifier::rlimit(60)]
pub proof fn lemma_members_pretty(
    all: Seq<(Seq<char>, JsonView)>,
    j: int,
    rest: Seq<(Seq<char>, JsonView)>,
    depth: nat,
    c: Seq<char>,
    p: int,
)
    requires
        0 <= j < all.len(),
        rest == all.subrange(j, all.len() as int),
        keys_increasing(all),
        forall|k: int| 0 <= k < all.len() ==> json_wf((#[trigger] all[k]).1),
        at(c, p, "\n"@ + pretty_members(rest, depth) + "\n"@ + pad(depth) + "}"@),
    ensures
        object(c, p, all.subrange(0, j)) == Ok::<(JsonView, int), JsonError>((
            JsonView::Object(all),
            p + ("\n"@ + pretty_members(rest, depth) + "\n"@ + pad(depth) + "}"@).len(),
        )),
    decreases rest,
{
    reveal_strlit("\n");
    reveal_strlit(",\n");
    reveal_strlit("}");
    reveal_strlit("  ");
    let m = rest[0];
    assert(m == all[j]);
    lemma_pretty_members_front(rest, depth);
    let more = if rest.len() > 1 {
        ",\n"@ + pretty_members(rest.drop_first(), depth)
    } else {
        Seq::<char>::empty()
    };
    let tail = "\n"@ + pad(depth) + "}"@;
    let line = json_quoted(m.0) + ": "@ + pretty_of(m.1, depth + 1);
    let whole = "\n"@ + pretty_members(rest, depth) + "\n"@ + pad(depth) + "}"@;
    assert(pretty_member(m, depth) =~= pad(depth) + "  "@ + line);
    assert(whole =~= indent(depth) + (line + (more + tail)));
    lemma_indent(depth);
    assert(line[0] == '"');
    lemma_skip_ws(c, p, indent(depth), line + (more + tail));
    let a = p + indent(depth).len();
    lemma_at_concat(c, a, line, more + tail);
    let d = a + line.len();
    lemma_at_concat(c, d, more, tail);
    if rest.len() > 1 {
        lemma_at_concat(c, d, ",\n"@, pretty_members(rest.drop_first(), depth));
        lemma_at_index(c, d, ",\n"@, 0);
    } else {
        assert(more + tail =~= tail);
        lemma_at_index(c, d, tail, 0);
    }
    lemma_member_pretty(m, depth, c, a);
    let b = a + json_escaped(m.0).len() + 2;
    assert(ws_end(c, p) == a);
    assert(c[a] == '"');
    assert(ws_end(c, b) == b);
    let acc = all.subrange(0, j);
    if j > 0 {
        assert(acc.last() == all[j - 1]);
    }
    lemma_insert_member_append(acc, m.0, m.1);
    assert(acc.push(m) =~= all.subrange(0, j + 1));
    if rest.len() > 1 {
        let t = rest.drop_first();
        assert(t =~= all.subrange(j + 1, all.len() as int));
        lemma_ws_none(c, d);
        reveal_strlit(",");
        assert(",\n"@ =~= ","@ + "\n"@);
        assert(more + tail =~= ","@ + ("\n"@ + pretty_members(t, depth) + "\n"@ + pad(depth) + "}"@));
        lemma_at_concat(c, d, ","@, "\n"@ + pretty_members(t, depth) + "\n"@ + pad(depth) + "}"@);
        lemma_members_pretty(all, j + 1, t, depth, c, d + 1);
        assert(c[d] == ',');
        assert(object(c, p, acc) == object(c, d + 1, acc.push(m)));
    } else {
        assert(all.subrange(0, j + 1) =~= all);
        assert(tail =~= ("\n"@ + pad(depth)) + "}"@);
        lemma_skip_ws(c, d, "\n"@ + pad(depth), "}"@);
        let e = d + ("\n"@ + pad(depth)).len();
        lemma_at_index(c, e, "}"@, 0);
        lemma_ws_none(c, e);
        assert(c[e] == '}');
        assert(object(c, p, acc) == object(c, e, acc.push(m)));
        assert(object(c, e, acc.push(m)) == Ok::<(JsonView, int), JsonError>((JsonView::Object(acc.push(m)), e + 1)));
    }
}

/// A well-formed value written as people read it, with the line feed that
/// ends the file, reads back as the same value.
pub proof fn law_pretty_round_trip(v: JsonView)
    requires
        json_wf(v),
    ensures
        parse_chars(pretty_of(v, 0) + "\n"@) == Ok::<JsonView, JsonError>(v),
{
    reveal_strlit("\n");
    let pv = pretty_of(v, 0);
    let c = pv + "\n"@;
    lemma_pretty_first(v, 0);
    assert(c.subrange(0, c.len() as int) =~= c);
    lemma_at_concat(c, 0, pv, "\n"@);
    lemma_at_index(c, 0, pv, 0);
    lemma_ws_none(c, 0);
    lemma_at_index(c, pv.len() as int, "\n"@, 0);
    lemma_value_pretty(v, 0, c, 0);
    assert(ws_end(c, pv.len() as int + 1) == c.len());
}

} // verus!
