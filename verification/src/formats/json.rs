//! A small JSON: values, and how they are written, for the native format
//! of a project and the IDE's API. Numbers keep the text they are written
//! with.

use vstd::prelude::*;
use crate::numtext::{hex_padded, push_hex_padded};
use crate::formats::json_read::insert_member;
use crate::stdx::string_push;

verus! {

/// How one character stands inside a JSON string: quote, backslash, line
/// feed, carriage return and tab escaped by a backslash, other control
/// characters as `\u` and four hex digits, the rest as they are.
pub open spec fn json_char(c: char) -> Seq<char> {
    if c == '"' {
        seq!['\\', '"']
    } else if c == '\\' {
        seq!['\\', '\\']
    } else if c == '\n' {
        seq!['\\', 'n']
    } else if c == '\r' {
        seq!['\\', 'r']
    } else if c == '\t' {
        seq!['\\', 't']
    } else if (c as u32) < 0x20 {
        seq!['\\', 'u'] + hex_padded(c as nat, 4)
    } else {
        seq![c]
    }
}

/// A text with each character escaped.
pub open spec fn json_escaped(s: Seq<char>) -> Seq<char>
    decreases s.len(),
{
    if s.len() == 0 {
        Seq::empty()
    } else {
        json_escaped(s.drop_last()) + json_char(s.last())
    }
}

/// A text as a JSON string: in double quotes, escaped.
pub open spec fn json_quoted(s: Seq<char>) -> Seq<char> {
    seq!['"'] + json_escaped(s) + seq!['"']
}

fn push_json_char(out: &mut String, c: char)
    ensures
        final(out)@ == old(out)@ + json_char(c),
{
    if c == '"' || c == '\\' {
        string_push(out, '\\');
        string_push(out, c);
    } else if c == '\n' {
        string_push(out, '\\');
        string_push(out, 'n');
    } else if c == '\r' {
        string_push(out, '\\');
        string_push(out, 'r');
    } else if c == '\t' {
        string_push(out, '\\');
        string_push(out, 't');
    } else if (c as u32) < 0x20 {
        string_push(out, '\\');
        string_push(out, 'u');
        let ghost mid = out@;
        push_hex_padded(out, c as u32 as u64, 4);
        assert(out@ =~= old(out)@ + json_char(c));
        return;
    } else {
        string_push(out, c);
    }
    assert(out@ =~= old(out)@ + json_char(c));
}

/// Appends a text as a JSON string: in double quotes, escaped.
pub fn write_string(out: &mut String, s: &str)
    ensures
        final(out)@ == old(out)@ + json_quoted(s@),
{
    string_push(out, '"');
    let ghost start = out@;
    let ghost all = s@;
    for c in it: s.chars()
        invariant
            it.seq() == all,
            out@ == start + json_escaped(all.take(it.index() as int)),
    {
        proof {
            let t = all.take(it.index() as int + 1);
            assert(t.drop_last() =~= all.take(it.index() as int));
            assert(t.last() == c);
        }
        push_json_char(out, c);
        proof {
            let t = all.take(it.index() as int + 1);
            assert(json_escaped(t) == json_escaped(t.drop_last()) + json_char(t.last()));
        }
    }
    proof {
        assert(all.take(all.len() as int) =~= all);
    }
    string_push(out, '"');
    assert(out@ =~= old(out)@ + json_quoted(s@));
}

/// A JSON value. Members of an object stand in the order of their keys,
/// each key once, as a sorted map keeps them.
#[derive(Debug, PartialEq)]
pub enum Json {
    Null,
    Bool(bool),
    /// A number, as its text.
    Number(String),
    Str(String),
    Array(Vec<Json>),
    Object(Vec<(String, Json)>),
}

pub enum JsonView {
    Null,
    Bool(bool),
    Number(Seq<char>),
    Str(Seq<char>),
    Array(Seq<JsonView>),
    Object(Seq<(Seq<char>, JsonView)>),
}

pub open spec fn json_view(j: Json) -> JsonView
    decreases j,
{
    match j {
        Json::Null => JsonView::Null,
        Json::Bool(b) => JsonView::Bool(b),
        Json::Number(n) => JsonView::Number(n@),
        Json::Str(s) => JsonView::Str(s@),
        Json::Array(items) => JsonView::Array(items_view(items@)),
        Json::Object(ms) => JsonView::Object(members_view(ms@)),
    }
}

pub open spec fn items_view(s: Seq<Json>) -> Seq<JsonView>
    decreases s,
{
    if s.len() == 0 {
        Seq::empty()
    } else {
        items_view(s.subrange(0, s.len() - 1)).push(json_view(s[s.len() - 1]))
    }
}

pub open spec fn members_view(s: Seq<(String, Json)>) -> Seq<(Seq<char>, JsonView)>
    decreases s,
{
    if s.len() == 0 {
        Seq::empty()
    } else {
        members_view(s.subrange(0, s.len() - 1)).push((s[s.len() - 1].0@, json_view(s[s.len() - 1].1)))
    }
}

pub proof fn lemma_items_view(s: Seq<Json>)
    ensures
        items_view(s).len() == s.len(),
        forall|i: int| 0 <= i < s.len() ==> #[trigger] items_view(s)[i] == json_view(s[i]),
    decreases s.len(),
{
    if s.len() > 0 {
        lemma_items_view(s.subrange(0, s.len() - 1));
    }
}

pub proof fn lemma_members_view(s: Seq<(String, Json)>)
    ensures
        members_view(s).len() == s.len(),
        forall|i: int|
            0 <= i < s.len() ==> #[trigger] members_view(s)[i] == (s[i].0@, json_view(s[i].1)),
    decreases s.len(),
{
    if s.len() > 0 {
        lemma_members_view(s.subrange(0, s.len() - 1));
    }
}

/// How deeply arrays and objects nest in a value.
pub open spec fn height(v: JsonView) -> nat
    decreases v,
{
    match v {
        JsonView::Array(items) => 1 + items_height(items),
        JsonView::Object(ms) => 1 + members_height(ms),
        _ => 0,
    }
}

pub open spec fn items_height(s: Seq<JsonView>) -> nat
    decreases s,
{
    if s.len() == 0 {
        0
    } else {
        let a = items_height(s.subrange(0, s.len() - 1));
        let b = height(s[s.len() - 1]);
        if a >= b {
            a
        } else {
            b
        }
    }
}

pub open spec fn members_height(s: Seq<(Seq<char>, JsonView)>) -> nat
    decreases s,
{
    if s.len() == 0 {
        0
    } else {
        let a = members_height(s.subrange(0, s.len() - 1));
        let b = height(s[s.len() - 1].1);
        if a >= b {
            a
        } else {
            b
        }
    }
}

pub proof fn lemma_items_height(s: Seq<JsonView>)
    ensures
        forall|i: int| 0 <= i < s.len() ==> height(#[trigger] s[i]) <= items_height(s),
    decreases s.len(),
{
    if s.len() > 0 {
        let t = s.subrange(0, s.len() - 1);
        lemma_items_height(t);
        assert forall|i: int| 0 <= i < s.len() implies height(#[trigger] s[i]) <= items_height(s) by {
            if i < s.len() - 1 {
                assert(s[i] == t[i]);
            }
        }
    }
}

pub proof fn lemma_members_height(s: Seq<(Seq<char>, JsonView)>)
    ensures
        forall|i: int| 0 <= i < s.len() ==> height((#[trigger] s[i]).1) <= members_height(s),
    decreases s.len(),
{
    if s.len() > 0 {
        let t = s.subrange(0, s.len() - 1);
        lemma_members_height(t);
        assert forall|i: int| 0 <= i < s.len() implies height((#[trigger] s[i]).1) <= members_height(s) by {
            if i < s.len() - 1 {
                assert(s[i] == t[i]);
            }
        }
    }
}

pub proof fn lemma_items_height_below(s: Seq<JsonView>, l: int)
    requires
        l > 0,
        forall|i: int| 0 <= i < s.len() ==> height(#[trigger] s[i]) < l,
    ensures
        items_height(s) < l,
    decreases s.len(),
{
    if s.len() > 0 {
        let t = s.subrange(0, s.len() - 1);
        assert forall|i: int| 0 <= i < t.len() implies height(#[trigger] t[i]) < l by {
            assert(t[i] == s[i]);
        }
        lemma_items_height_below(t, l);
    }
}

pub proof fn lemma_members_height_below(s: Seq<(Seq<char>, JsonView)>, l: int)
    requires
        l > 0,
        forall|i: int| 0 <= i < s.len() ==> height((#[trigger] s[i]).1) < l,
    ensures
        members_height(s) < l,
    decreases s.len(),
{
    if s.len() > 0 {
        let t = s.subrange(0, s.len() - 1);
        assert forall|i: int| 0 <= i < t.len() implies height((#[trigger] t[i]).1) < l by {
            assert(t[i] == s[i]);
        }
        lemma_members_height_below(t, l);
    }
}

/// Two spaces for each level of depth.
pub open spec fn pad(depth: nat) -> Seq<char> {
    Seq::new(2 * depth, |i: int| ' ')
}

/// A value on one line, without spaces.
pub open spec fn compact_of(v: JsonView) -> Seq<char>
    decreases v,
{
    match v {
        JsonView::Null => "null"@,
        JsonView::Bool(b) => if b {
            "true"@
        } else {
            "false"@
        },
        JsonView::Number(n) => n,
        JsonView::Str(s) => json_quoted(s),
        JsonView::Array(items) => "["@ + compact_items(items, ","@) + "]"@,
        JsonView::Object(ms) => "{"@ + compact_members(ms) + "}"@,
    }
}

/// Items written on one line, separated by `sep`.
pub open spec fn compact_items(items: Seq<JsonView>, sep: Seq<char>) -> Seq<char>
    decreases items,
{
    if items.len() == 0 {
        Seq::empty()
    } else if items.len() == 1 {
        compact_of(items[0])
    } else {
        compact_items(items.subrange(0, items.len() - 1), sep) + sep + compact_of(items[items.len() - 1])
    }
}

pub open spec fn compact_member(m: (Seq<char>, JsonView)) -> Seq<char>
    decreases m,
{
    json_quoted(m.0) + ":"@ + compact_of(m.1)
}

pub open spec fn compact_members(ms: Seq<(Seq<char>, JsonView)>) -> Seq<char>
    decreases ms,
{
    if ms.len() == 0 {
        Seq::empty()
    } else if ms.len() == 1 {
        compact_member(ms[0])
    } else {
        compact_members(ms.subrange(0, ms.len() - 1)) + ","@ + compact_member(ms[ms.len() - 1])
    }
}

/// A number, `true`, `false` or `null`.
pub open spec fn is_scalar(v: JsonView) -> bool {
    v is Number || v is Bool || v is Null
}

/// A value as people read it in a file, at the given depth: an empty array
/// or object on one line, an array of scalars on one line with `, `
/// between them, otherwise one item or member on a line, indented.
pub open spec fn pretty_of(v: JsonView, depth: nat) -> Seq<char>
    decreases v,
{
    match v {
        JsonView::Array(items) => if items.len() == 0 {
            "[]"@
        } else if forall|i: int| 0 <= i < items.len() ==> is_scalar(#[trigger] items[i]) {
            "["@ + compact_items(items, ", "@) + "]"@
        } else {
            "[\n"@ + pretty_items(items, depth) + "\n"@ + pad(depth) + "]"@
        },
        JsonView::Object(ms) => if ms.len() == 0 {
            "{}"@
        } else {
            "{\n"@ + pretty_members(ms, depth) + "\n"@ + pad(depth) + "}"@
        },
        _ => compact_of(v),
    }
}

/// Items of an array, each on a line of its own; `,` ends every line but
/// the last.
pub open spec fn pretty_items(items: Seq<JsonView>, depth: nat) -> Seq<char>
    decreases items,
{
    if items.len() == 0 {
        Seq::empty()
    } else if items.len() == 1 {
        pad(depth) + "  "@ + pretty_of(items[0], depth + 1)
    } else {
        pretty_items(items.subrange(0, items.len() - 1), depth) + ",\n"@ + pad(depth) + "  "@ + pretty_of(
            items[items.len() - 1],
            depth + 1,
        )
    }
}

pub open spec fn pretty_member(m: (Seq<char>, JsonView), depth: nat) -> Seq<char>
    decreases m,
{
    pad(depth) + "  "@ + json_quoted(m.0) + ": "@ + pretty_of(m.1, depth + 1)
}

pub open spec fn pretty_members(ms: Seq<(Seq<char>, JsonView)>, depth: nat) -> Seq<char>
    decreases ms,
{
    if ms.len() == 0 {
        Seq::empty()
    } else if ms.len() == 1 {
        pretty_member(ms[0], depth)
    } else {
        pretty_members(ms.subrange(0, ms.len() - 1), depth) + ",\n"@ + pretty_member(ms[ms.len() - 1], depth)
    }
}

fn push_pad(out: &mut String, depth: usize)
    ensures
        final(out)@ == old(out)@ + pad(depth as nat),
{
    let mut k: usize = 0;
    assert(old(out)@ + pad(0) =~= old(out)@);
    while k < depth
        invariant
            k <= depth,
            out@ == old(out)@ + pad(k as nat),
        decreases depth - k,
    {
        out.append("  ");
        proof {
            reveal_strlit("  ");
            assert(old(out)@ + pad(k as nat) + "  "@ =~= old(out)@ + pad(k as nat + 1));
        }
        k = k + 1;
    }
}

pub proof fn lemma_compact_items_step(items: Seq<JsonView>, sep: Seq<char>, i: int)
    requires
        0 <= i < items.len(),
    ensures
        compact_items(items.subrange(0, i + 1), sep) == if i == 0 {
            compact_of(items[0])
        } else {
            compact_items(items.subrange(0, i), sep) + sep + compact_of(items[i])
        },
{
    let t = items.subrange(0, i + 1);
    assert(t.subrange(0, t.len() - 1) =~= items.subrange(0, i));
}

pub proof fn lemma_compact_members_step(ms: Seq<(Seq<char>, JsonView)>, i: int)
    requires
        0 <= i < ms.len(),
    ensures
        compact_members(ms.subrange(0, i + 1)) == if i == 0 {
            compact_member(ms[0])
        } else {
            compact_members(ms.subrange(0, i)) + ","@ + compact_member(ms[i])
        },
{
    let t = ms.subrange(0, i + 1);
    assert(t.subrange(0, t.len() - 1) =~= ms.subrange(0, i));
}

pub proof fn lemma_pretty_items_step(items: Seq<JsonView>, depth: nat, i: int)
    requires
        0 <= i < items.len(),
    ensures
        pretty_items(items.subrange(0, i + 1), depth) == if i == 0 {
            pad(depth) + "  "@ + pretty_of(items[0], depth + 1)
        } else {
            pretty_items(items.subrange(0, i), depth) + ",\n"@ + pad(depth) + "  "@ + pretty_of(items[i], depth + 1)
        },
{
    let t = items.subrange(0, i + 1);
    assert(t.subrange(0, t.len() - 1) =~= items.subrange(0, i));
}

pub proof fn lemma_pretty_members_step(ms: Seq<(Seq<char>, JsonView)>, depth: nat, i: int)
    requires
        0 <= i < ms.len(),
    ensures
        pretty_members(ms.subrange(0, i + 1), depth) == if i == 0 {
            pretty_member(ms[0], depth)
        } else {
            pretty_members(ms.subrange(0, i), depth) + ",\n"@ + pretty_member(ms[i], depth)
        },
{
    let t = ms.subrange(0, i + 1);
    assert(t.subrange(0, t.len() - 1) =~= ms.subrange(0, i));
}

/// Whether all items are numbers, `true`, `false` or `null`.
fn all_scalars(items: &Vec<Json>) -> (b: bool)
    ensures
        b == forall|i: int| 0 <= i < items@.len() ==> is_scalar(#[trigger] items_view(items@)[i]),
{
    proof {
        lemma_items_view(items@);
    }
    let mut i: usize = 0;
    while i < items.len()
        invariant
            i <= items.len(),
            items_view(items@).len() == items@.len(),
            forall|j: int| 0 <= j < items@.len() ==> #[trigger] items_view(items@)[j] == json_view(items@[j]),
            forall|j: int| 0 <= j < i ==> is_scalar(#[trigger] items_view(items@)[j]),
        decreases items.len() - i,
    {
        match &items[i] {
            Json::Number(_) | Json::Bool(_) | Json::Null => {},
            _ => {
                assert(!is_scalar(items_view(items@)[i as int]));
                return false;
            },
        }
        i = i + 1;
    }
    true
}

impl Json {
    /// Appends the value on one line, without spaces.
    pub fn write_compact(&self, out: &mut String)
        ensures
            final(out)@ == old(out)@ + compact_of(json_view(*self)),
        decreases self,
    {
        match self {
            Json::Null => out.append("null"),
            Json::Bool(b) => out.append(if *b { "true" } else { "false" }),
            Json::Number(n) => out.append(n.as_str()),
            Json::Str(s) => write_string(out, s.as_str()),
            Json::Array(items) => {
                out.append("[");
                let ghost start = out@;
                let ghost iv = items_view(items@);
                proof {
                    lemma_items_view(items@);
                }
                let mut i: usize = 0;
                assert(start + compact_items(iv.subrange(0, 0), ","@) =~= start);
                while i < items.len()
                    invariant
                        i <= items.len(),
                        iv == items_view(items@),
                        iv.len() == items@.len(),
                        forall|j: int| 0 <= j < items@.len() ==> #[trigger] iv[j] == json_view(items@[j]),
                        *self matches Json::Array(a) && a == *items,
                        out@ == start + compact_items(iv.subrange(0, i as int), ","@),
                    decreases items.len() - i,
                {
                    if i > 0 {
                        out.append(",");
                    }
                    items[i].write_compact(out);
                    proof {
                        lemma_compact_items_step(iv, ","@, i as int);
                    }
                    i = i + 1;
                }
                assert(iv.subrange(0, items.len() as int) =~= iv);
                out.append("]");
            },
            Json::Object(ms) => {
                out.append("{");
                let ghost start = out@;
                let ghost mv = members_view(ms@);
                proof {
                    lemma_members_view(ms@);
                }
                let mut i: usize = 0;
                assert(start + compact_members(mv.subrange(0, 0)) =~= start);
                while i < ms.len()
                    invariant
                        i <= ms.len(),
                        mv == members_view(ms@),
                        mv.len() == ms@.len(),
                        forall|j: int| 0 <= j < ms@.len() ==> #[trigger] mv[j] == (ms@[j].0@, json_view(ms@[j].1)),
                        *self matches Json::Object(a) && a == *ms,
                        out@ == start + compact_members(mv.subrange(0, i as int)),
                    decreases ms.len() - i,
                {
                    if i > 0 {
                        out.append(",");
                    }
                    write_string(out, ms[i].0.as_str());
                    out.append(":");
                    ms[i].1.write_compact(out);
                    proof {
                        lemma_compact_members_step(mv, i as int);
                    }
                    i = i + 1;
                }
                assert(mv.subrange(0, ms.len() as int) =~= mv);
                out.append("}");
            },
        }
    }

    /// Appends the value as people read it in a file, at the given depth.
    pub fn write(&self, out: &mut String, depth: usize)
        requires
            depth + height(json_view(*self)) < usize::MAX,
        ensures
            final(out)@ == old(out)@ + pretty_of(json_view(*self), depth as nat),
        decreases self,
    {
        match self {
            Json::Array(items) => {
                if items.len() == 0 {
                    out.append("[]");
                    return;
                }
                proof {
                    lemma_items_view(items@);
                    lemma_items_height(items_view(items@));
                }
                if all_scalars(items) {
                    out.append("[");
                    let ghost start = out@;
                    let ghost iv = items_view(items@);
                    let mut i: usize = 0;
                    assert(start + compact_items(iv.subrange(0, 0), ", "@) =~= start);
                    while i < items.len()
                        invariant
                            i <= items.len(),
                            iv == items_view(items@),
                            iv.len() == items@.len(),
                            forall|j: int| 0 <= j < items@.len() ==> #[trigger] iv[j] == json_view(items@[j]),
                            out@ == start + compact_items(iv.subrange(0, i as int), ", "@),
                        decreases items.len() - i,
                    {
                        if i > 0 {
                            out.append(", ");
                        }
                        items[i].write_compact(out);
                        proof {
                            lemma_compact_items_step(iv, ", "@, i as int);
                        }
                        i = i + 1;
                    }
                    assert(iv.subrange(0, items.len() as int) =~= iv);
                    out.append("]");
                    return;
                }
                out.append("[\n");
                let ghost start = out@;
                let ghost iv = items_view(items@);
                let mut i: usize = 0;
                while i < items.len()
                    invariant
                        i <= items.len(),
                        depth + 1 + items_height(iv) < usize::MAX,
                        forall|j: int| 0 <= j < iv.len() ==> height(#[trigger] iv[j]) <= items_height(iv),
                        iv == items_view(items@),
                        iv.len() == items@.len(),
                        forall|j: int| 0 <= j < items@.len() ==> #[trigger] iv[j] == json_view(items@[j]),
                        *self matches Json::Array(a) && a == *items,
                        out@ == start + pretty_items(iv.subrange(0, i as int), depth as nat),
                    decreases items.len() - i,
                {
                    if i > 0 {
                        out.append(",\n");
                    }
                    push_pad(out, depth);
                    out.append("  ");
                    assert(height(iv[i as int]) <= items_height(iv));
                    assert(iv[i as int] == json_view(items@[i as int]));
                    items[i].write(out, depth + 1);
                    proof {
                        lemma_pretty_items_step(iv, depth as nat, i as int);
                    }
                    i = i + 1;
                }
                assert(iv.subrange(0, items.len() as int) =~= iv);
                out.append("\n");
                push_pad(out, depth);
                out.append("]");
            },
            Json::Object(ms) => {
                if ms.len() == 0 {
                    out.append("{}");
                    return;
                }
                out.append("{\n");
                let ghost start = out@;
                let ghost mv = members_view(ms@);
                proof {
                    lemma_members_view(ms@);
                    lemma_members_height(mv);
                }
                let mut i: usize = 0;
                while i < ms.len()
                    invariant
                        i <= ms.len(),
                        depth + 1 + members_height(mv) < usize::MAX,
                        forall|j: int| 0 <= j < mv.len() ==> height((#[trigger] mv[j]).1) <= members_height(mv),
                        mv == members_view(ms@),
                        mv.len() == ms@.len(),
                        forall|j: int| 0 <= j < ms@.len() ==> #[trigger] mv[j] == (ms@[j].0@, json_view(ms@[j].1)),
                        *self matches Json::Object(a) && a == *ms,
                        out@ == start + pretty_members(mv.subrange(0, i as int), depth as nat),
                    decreases ms.len() - i,
                {
                    if i > 0 {
                        out.append(",\n");
                    }
                    push_pad(out, depth);
                    out.append("  ");
                    write_string(out, ms[i].0.as_str());
                    out.append(": ");
                    assert(height(mv[i as int].1) <= members_height(mv));
                    assert(mv[i as int] == (ms@[i as int].0@, json_view(ms@[i as int].1)));
                    ms[i].1.write(out, depth + 1);
                    proof {
                        lemma_pretty_members_step(mv, depth as nat, i as int);
                    }
                    i = i + 1;
                }
                assert(mv.subrange(0, ms.len() as int) =~= mv);
                out.append("\n");
                push_pad(out, depth);
                out.append("}");
            },
            _ => self.write_compact(out),
        }
    }

    /// Whether arrays and objects nest less than `limit` levels deep in the
    /// value (what `pretty` asks of it).
    pub fn nests_below(&self, limit: usize) -> (b: bool)
        ensures
            b == (height(json_view(*self)) < limit),
        decreases *self,
    {
        match self {
            Json::Array(items) => {
                if limit < 2 {
                    proof {
                        lemma_items_view(items@);
                    }
                    return false;
                }
                proof {
                    lemma_items_view(items@);
                    lemma_items_height(items_view(items@));
                }
                let mut k: usize = 0;
                while k < items.len()
                    invariant
                        k <= items@.len(),
                        limit >= 2,
                        items_view(items@).len() == items@.len(),
                        forall|i: int| 0 <= i < items@.len() ==> #[trigger] items_view(items@)[i] == json_view(items@[i]),
                        forall|j: int| 0 <= j < k ==> height(json_view(#[trigger] items@[j])) < limit - 1,
                        forall|j: int|
                            0 <= j < items@.len() ==> height(#[trigger] items_view(items@)[j]) <= items_height(items_view(items@)),
                        *self matches Json::Array(a) && a == *items,
                    decreases items.len() - k,
                {
                    if !items[k].nests_below(limit - 1) {
                        assert(height(items_view(items@)[k as int]) <= items_height(items_view(items@)));
                        return false;
                    }
                    k = k + 1;
                }
                proof {
                    let v = items_view(items@);
                    assert forall|i: int| 0 <= i < v.len() implies height(#[trigger] v[i]) < limit - 1 by {
                        assert(v[i] == json_view(items@[i]));
                    }
                    lemma_items_height_below(v, limit - 1);
                }
                true
            },
            Json::Object(ms) => {
                if limit < 2 {
                    proof {
                        lemma_members_view(ms@);
                    }
                    return false;
                }
                proof {
                    lemma_members_view(ms@);
                    lemma_members_height(members_view(ms@));
                }
                let mut k: usize = 0;
                while k < ms.len()
                    invariant
                        k <= ms@.len(),
                        limit >= 2,
                        members_view(ms@).len() == ms@.len(),
                        forall|i: int|
                            0 <= i < ms@.len() ==> #[trigger] members_view(ms@)[i] == (ms@[i].0@, json_view(ms@[i].1)),
                        forall|j: int| 0 <= j < k ==> height(json_view((#[trigger] ms@[j]).1)) < limit - 1,
                        forall|j: int|
                            0 <= j < ms@.len() ==> height((#[trigger] members_view(ms@)[j]).1) <= members_height(members_view(ms@)),
                        *self matches Json::Object(a) && a == *ms,
                    decreases ms.len() - k,
                {
                    if !ms[k].1.nests_below(limit - 1) {
                        assert(height(members_view(ms@)[k as int].1) <= members_height(members_view(ms@)));
                        return false;
                    }
                    k = k + 1;
                }
                proof {
                    let v = members_view(ms@);
                    assert forall|i: int| 0 <= i < v.len() implies height((#[trigger] v[i]).1) < limit - 1 by {
                        assert(v[i] == (ms@[i].0@, json_view(ms@[i].1)));
                    }
                    lemma_members_height_below(v, limit - 1);
                }
                true
            },
            _ => limit > 0,
        }
    }

    /// The value as people read it in a file, with a line feed at the end.
    pub fn pretty(&self) -> (s: String)
        requires
            height(json_view(*self)) < usize::MAX,
        ensures
            s@ == pretty_of(json_view(*self), 0) + "\n"@,
    {
        let mut out = String::new();
        self.write(&mut out, 0);
        out.append("\n");
        out
    }

    /// The value on one line.
    pub fn compact(&self) -> (s: String)
        ensures
            s@ == compact_of(json_view(*self)),
    {
        let mut out = String::new();
        self.write_compact(&mut out);
        out
    }
}

/// The value of the first member with key `k`.
pub open spec fn member_of(ms: Seq<(Seq<char>, JsonView)>, k: Seq<char>) -> Option<JsonView>
    decreases ms.len(),
{
    if ms.len() == 0 {
        None
    } else if ms[0].0 == k {
        Some(ms[0].1)
    } else {
        member_of(ms.drop_first(), k)
    }
}

/// Members put one by one into a map kept in the order of keys: a later
/// value of a key replaces an earlier one.
pub open spec fn members_of_pairs(ps: Seq<(Seq<char>, JsonView)>) -> Seq<(Seq<char>, JsonView)>
    decreases ps.len(),
{
    if ps.len() == 0 {
        Seq::empty()
    } else {
        insert_member(members_of_pairs(ps.drop_last()), ps.last().0, ps.last().1)
    }
}

pub open spec fn pairs_view(ps: Seq<(&str, Json)>) -> Seq<(Seq<char>, JsonView)> {
    ps.map_values(|p: (&str, Json)| (p.0@, json_view(p.1)))
}

/// An object made of key and value pairs; as in a sorted map, members come
/// in the order of their keys and a later value of a key replaces an
/// earlier one.
pub fn object(pairs: Vec<(&str, Json)>) -> (r: Json)
    ensures
        json_view(r) == JsonView::Object(members_of_pairs(pairs_view(pairs@))),
{
    let ghost all = pairs_view(pairs@);
    let mut rest = pairs;
    let mut ms: Vec<(String, Json)> = Vec::new();
    assert(members_view(ms@) =~= members_of_pairs(all.subrange(0, 0)));
    while rest.len() > 0
        invariant
            rest@.len() <= all.len(),
            pairs_view(rest@) == all.subrange(all.len() - rest@.len(), all.len() as int),
            members_view(ms@) == members_of_pairs(all.subrange(0, all.len() - rest@.len())),
        decreases rest.len(),
    {
        let ghost n = all.len() - rest@.len();
        let ghost before = rest@;
        let (k, v) = rest.remove(0);
        assert(pairs_view(rest@) =~= all.subrange(n + 1, all.len() as int)) by {
            assert(rest@ =~= before.subrange(1, before.len() as int));
            assert forall|j: int| 0 <= j < rest@.len() implies #[trigger] pairs_view(rest@)[j] == all[n + 1 + j] by {
                assert(pairs_view(rest@)[j] == pairs_view(before)[j + 1]);
                assert(pairs_view(before)[j + 1] == all.subrange(n, all.len() as int)[j + 1]);
            }
        }
        assert(pairs_view(before)[0] == (k@, json_view(v)));
        let ghost t = all.subrange(0, n + 1);
        assert(t.drop_last() =~= all.subrange(0, n));
        assert(t.last() == all[n]);
        assert(all[n] == pairs_view(before)[0]);
        crate::formats::json_read::insert_member_into(&mut ms, String::from_str(k), v);
    }
    assert(all.subrange(0, all.len() as int) =~= all);
    Json::Object(ms)
}

impl Json {
    /// The value of member `key` of an object; none for other values.
    pub fn get(&self, key: &str) -> (r: Option<&Json>)
        ensures
            match json_view(*self) {
                JsonView::Object(ms) => match member_of(ms, key@) {
                    Some(v) => r matches Some(x) && json_view(*x) == v,
                    None => r is None,
                },
                _ => r is None,
            },
    {
        match self {
            Json::Object(ms) => {
                let ghost mv = members_view(ms@);
                proof {
                    lemma_members_view(ms@);
                }
                let mut i: usize = 0;
                assert(mv.subrange(0, mv.len() as int) =~= mv);
                while i < ms.len()
                    invariant
                        i <= ms.len(),
                        mv == members_view(ms@),
                        json_view(*self) == JsonView::Object(mv),
                        mv.len() == ms@.len(),
                        forall|j: int| 0 <= j < ms@.len() ==> #[trigger] mv[j] == (ms@[j].0@, json_view(ms@[j].1)),
                        member_of(mv, key@) == member_of(mv.subrange(i as int, mv.len() as int), key@),
                    decreases ms.len() - i,
                {
                    let ghost rest = mv.subrange(i as int, mv.len() as int);
                    assert(rest.drop_first() =~= mv.subrange(i + 1, mv.len() as int));
                    assert(rest[0] == mv[i as int]);
                    if crate::text::str_same(ms[i].0.as_str(), key) {
                        return Some(&ms[i].1);
                    }
                    i = i + 1;
                }
                None
            },
            _ => None,
        }
    }

    /// The text of a string.
    pub fn as_str(&self) -> (r: Option<&str>)
        ensures
            match json_view(*self) {
                JsonView::Str(s) => r matches Some(x) && x@ == s,
                _ => r is None,
            },
    {
        match self {
            Json::Str(s) => Some(s.as_str()),
            _ => None,
        }
    }

    /// The value of `true` or `false`.
    pub fn as_bool(&self) -> (r: Option<bool>)
        ensures
            match json_view(*self) {
                JsonView::Bool(b) => r == Some(b),
                _ => r is None,
            },
    {
        match self {
            Json::Bool(b) => Some(*b),
            _ => None,
        }
    }

    /// The items of an array.
    pub fn as_array(&self) -> (r: Option<&Vec<Json>>)
        ensures
            match json_view(*self) {
                JsonView::Array(items) => r matches Some(x) && items_view(x@) == items,
                _ => r is None,
            },
    {
        match self {
            Json::Array(items) => Some(items),
            _ => None,
        }
    }

    /// The string member `key`, or `default` where there is none.
    pub fn str_or(&self, key: &str, default: &str) -> (r: String)
        ensures
            r@ == match json_view(*self) {
                JsonView::Object(ms) => match member_of(ms, key@) {
                    Some(JsonView::Str(s)) => s,
                    _ => default@,
                },
                _ => default@,
            },
    {
        match self.get(key) {
            Some(v) => match v.as_str() {
                Some(s) => String::from_str(s),
                None => String::from_str(default),
            },
            None => String::from_str(default),
        }
    }
}

} // verus!
