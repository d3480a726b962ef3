//! The description of an image that `class_meta` writes reads back, through
//! `class_from_meta`, as the same image.

use vstd::prelude::*;
use crate::formats::json::{member_of, members_of_pairs, JsonView};
use crate::formats::json_read::insert_member;
use crate::formats::json_round_trip::keys_increasing;
use crate::formats::native_round_trip::lemma_insert_member;
use crate::lang::deps::{lemma_seq_lt_irreflexive, lemma_seq_lt_transitive, seq_lt};
use crate::formats::cls::{Child, Class, ChildView, ClassView, Link, LinkStyle, Variable, VariableView};
use crate::formats::native_load::{
    child_read, class_read, items_of, member, num_read, number_of, pairs_of, style_read, text_or,
    var_read, whole_read, link_read, flag_of, bits_read, opt_num_read, text_of, ClassBlobs, opt_bytes,
};
use crate::formats::native_save::{
    child_meta, class_entry_meta, class_meta_of, link_meta, num, pair_meta, pairs_meta, project_meta_of,
    project_var_meta, property_meta, style_meta, var_meta,
};
use crate::formats::native_load::{
    first_bad_stem, lemma_first_bad_stem, listed_stems, project_read, project_var_read, property_read, stem_ok,
};
use crate::formats::project::{Project, ProjectVariable, Property, PropertyValueView, PropertyView, VariableView as ProjectVariableView};
use crate::formats::native::FORMAT;
use crate::numtext::{decimal, digit_char, digits, lemma_decimal_digits, lemma_digits_len};
use crate::stdx::{digits_value, unsigned_text};

verus! {

/// The value of the last pair with the key `k`.
pub open spec fn lookup(ps: Seq<(Seq<char>, JsonView)>, k: Seq<char>) -> Option<JsonView>
    decreases ps.len(),
{
    if ps.len() == 0 {
        None
    } else if ps.last().0 == k {
        Some(ps.last().1)
    } else {
        lookup(ps.drop_last(), k)
    }
}

pub proof fn lemma_member_of_index(s: Seq<(Seq<char>, JsonView)>, k: Seq<char>)
    ensures
        member_of(s, k) matches Some(v) ==> exists|i: int| 0 <= i < s.len() && s[i] == (k, v),
        member_of(s, k) is None ==> forall|i: int| 0 <= i < s.len() ==> (#[trigger] s[i]).0 != k,
    decreases s.len(),
{
    if s.len() > 0 && s[0].0 != k {
        lemma_member_of_index(s.drop_first(), k);
        if member_of(s, k) is Some {
            let v = member_of(s, k).unwrap();
            let i = choose|i: int| 0 <= i < s.drop_first().len() && s.drop_first()[i] == (k, v);
            assert(s[i + 1] == (k, v));
        } else {
            assert forall|i: int| 0 <= i < s.len() implies (#[trigger] s[i]).0 != k by {
                if i > 0 {
                    assert(s[i] == s.drop_first()[i - 1]);
                }
            }
        }
    } else if s.len() > 0 {
        assert(s[0] == (k, s[0].1));
    }
}

pub proof fn lemma_member_push(s: Seq<(Seq<char>, JsonView)>, x: (Seq<char>, JsonView), k: Seq<char>)
    ensures
        member_of(s.push(x), k) == match member_of(s, k) {
            Some(v) => Some(v),
            None => if x.0 == k {
                Some(x.1)
            } else {
                None
            },
        },
    decreases s.len(),
{
    if s.len() == 0 {
        assert(s.push(x)[0] == x);
        assert(s.push(x).drop_first() =~= Seq::<(Seq<char>, JsonView)>::empty());
        assert(member_of(Seq::<(Seq<char>, JsonView)>::empty(), k) is None);
    } else {
        assert(s.push(x)[0] == s[0]);
        assert(s.push(x).drop_first() =~= s.drop_first().push(x));
        lemma_member_push(s.drop_first(), x, k);
    }
}

/// Looking a key up after a member was put in, in a map whose keys are in
/// order.
pub proof fn lemma_member_insert(ms: Seq<(Seq<char>, JsonView)>, k2: Seq<char>, v: JsonView, k: Seq<char>)
    requires
        keys_increasing(ms),
    ensures
        member_of(insert_member(ms, k2, v), k) == if k == k2 {
            Some(v)
        } else {
            member_of(ms, k)
        },
    decreases ms.len(),
{
    if ms.len() == 0 {
        assert(insert_member(ms, k2, v) == seq![(k2, v)]);
        lemma_member_push(ms, (k2, v), k);
        assert(ms.push((k2, v)) =~= seq![(k2, v)]);
        assert(member_of(ms, k) is None);
    } else {
        let d = ms.drop_last();
        let last = ms.last();
        assert(ms == d.push(last));
        assert forall|i: int, j: int| 0 <= i < j < d.len() implies seq_lt((#[trigger] d[i]).0, (#[trigger] d[j]).0) by {
            assert(d[i] == ms[i] && d[j] == ms[j]);
        }
        assert forall|i: int| 0 <= i < d.len() implies seq_lt((#[trigger] d[i]).0, last.0) by {
            assert(d[i] == ms[i]);
            assert(ms[ms.len() - 1] == last);
        }
        lemma_member_push(d, last, k);
        lemma_member_of_index(d, k);
        if last.0 == k2 {
            assert(insert_member(ms, k2, v) == d.push((k2, v)));
            lemma_member_push(d, (k2, v), k);
            if k == k2 {
                if member_of(d, k) is Some {
                    let i = choose|i: int| 0 <= i < d.len() && d[i] == (k, member_of(d, k).unwrap());
                    assert(seq_lt(d[i].0, last.0));
                    lemma_seq_lt_irreflexive(k);
                }
            }
        } else if seq_lt(last.0, k2) {
            assert(insert_member(ms, k2, v) == ms.push((k2, v)));
            lemma_member_push(ms, (k2, v), k);
            lemma_member_of_index(ms, k);
            if k == k2 && member_of(ms, k) is Some {
                let i = choose|i: int| 0 <= i < ms.len() && ms[i] == (k, member_of(ms, k).unwrap());
                if i < ms.len() - 1 {
                    assert(d[i] == ms[i]);
                    lemma_seq_lt_transitive(ms[i].0, last.0, k2);
                }
                lemma_seq_lt_irreflexive(k);
            }
        } else {
            lemma_member_insert(d, k2, v, k);
            lemma_insert_member(d, k2, v);
            let q = insert_member(d, k2, v);
            assert(insert_member(ms, k2, v) == q.push(last));
            lemma_member_push(q, last, k);
            if k == last.0 {
                crate::lang::deps::lemma_seq_lt_total(last.0, k2);
                if member_of(d, k) is Some {
                    let i = choose|i: int| 0 <= i < d.len() && d[i] == (k, member_of(d, k).unwrap());
                    assert(seq_lt(d[i].0, last.0));
                    lemma_seq_lt_irreflexive(k);
                }
            }
        }
    }
}

/// Looking a key up in an object made of pairs gives the last value paired
/// with it.
pub proof fn lemma_member_of_pairs(ps: Seq<(Seq<char>, JsonView)>, k: Seq<char>)
    ensures
        keys_increasing(members_of_pairs(ps)),
        member_of(members_of_pairs(ps), k) == lookup(ps, k),
    decreases ps.len(),
{
    if ps.len() > 0 {
        lemma_member_of_pairs(ps.drop_last(), k);
        let m = members_of_pairs(ps.drop_last());
        lemma_insert_member(m, ps.last().0, ps.last().1);
        lemma_member_insert(m, ps.last().0, ps.last().1, k);
    }
}

/// Decimal digits read back as their number.
pub proof fn lemma_decimal_value(n: nat)
    ensures
        digits_value(decimal(n)) == n,
    decreases n,
{
    lemma_digits_len(n, 10);
    if n >= 10 {
        vstd::arithmetic::div_mod::lemma_div_decreases(n as int, 10);
        lemma_decimal_value(n / 10);
        assert(decimal(n) == decimal(n / 10).push(digit_char(n % 10)));
        assert(decimal(n).drop_last() =~= decimal(n / 10));
        crate::numtext::lemma_digit_char(n % 10);
        assert(decimal(n).last() == digit_char(n % 10));
        assert(digit_char(n % 10) as nat == 48 + n % 10);
        assert(n == (n / 10) * 10 + n % 10);
    } else {
        assert(n % 16 == n);
        crate::numtext::lemma_digit_char(n);
        assert(decimal(n) == seq![digit_char(n)]);
        assert(decimal(n).drop_last() =~= Seq::<char>::empty());
        assert(decimal(n).last() == digit_char(n));
        assert(digit_char(n) as nat == 48 + n);
        assert(digits_value(Seq::<char>::empty()) == 0);
    }
}

/// A number written in decimal digits is read as itself.
pub proof fn lemma_whole_read_decimal<W: Fn(&str) -> u64>(whole: W, n: u64, r: u64)
    requires
        whole_read(whole, decimal(n as nat), r),
    ensures
        r == n,
{
    lemma_decimal_value(n as nat);
    lemma_decimal_digits(n as nat);
    lemma_digits_len(n as nat, 10);
    assert(decimal(n as nat)[0] != '+');
    assert(unsigned_text(decimal(n as nat)) == Some(n as nat));
}

/// A whole number member below `max` reads back as itself.
pub proof fn lemma_num_back<W: Fn(&str) -> u64>(whole: W, v: JsonView, k: Seq<char>, n: u64, max: u64, r: u64)
    requires
        n <= max,
        member(v, k) == Some(num(n as nat)),
        num_read(whole, v, k, max, r),
    ensures
        r == n,
{
    let w = choose|w: u64| whole_read(whole, decimal(n as nat), w) && r == if w > max {
        max
    } else {
        w
    };
    lemma_whole_read_decimal(whole, n, w);
}

pub proof fn lemma_opt_num_back<W: Fn(&str) -> u64>(whole: W, v: JsonView, k: Seq<char>, n: u64, max: u64, r: Option<u64>)
    requires
        n <= max,
        member(v, k) == Some(num(n as nat)),
        opt_num_read(whole, v, k, max, r),
    ensures
        r == Some(n),
{
    let w = choose|w: u64| whole_read(whole, decimal(n as nat), w) && r == Some(if w > max {
        max
    } else {
        w
    });
    lemma_whole_read_decimal(whole, n, w);
}

pub proof fn lemma_reveal_keys()
    ensures
        "name"@ =~= seq!['n', 'a', 'm', 'e'],
        "type"@ =~= seq!['t', 'y', 'p', 'e'],
        "default"@ =~= seq!['d', 'e', 'f', 'a', 'u', 'l', 't'],
        "description"@ =~= seq!['d', 'e', 's', 'c', 'r', 'i', 'p', 't', 'i', 'o', 'n'],
        "flags"@ =~= seq!['f', 'l', 'a', 'g', 's'],
        "handle"@ =~= seq!['h', 'a', 'n', 'd', 'l', 'e'],
        "class"@ =~= seq!['c', 'l', 'a', 's', 's'],
        "x"@ =~= seq!['x'],
        "y"@ =~= seq!['y'],
        "source"@ =~= seq!['s', 'o', 'u', 'r', 'c', 'e'],
        "target"@ =~= seq!['t', 'a', 'r', 'g', 'e', 't'],
        "vars"@ =~= seq!['v', 'a', 'r', 's'],
        "style"@ =~= seq!['s', 't', 'y', 'l', 'e'],
        "color"@ =~= seq!['c', 'o', 'l', 'o', 'r'],
        "width"@ =~= seq!['w', 'i', 'd', 't', 'h'],
        "disabled"@ =~= seq!['d', 'i', 's', 'a', 'b', 'l', 'e', 'd'],
        "arrows"@ =~= seq!['a', 'r', 'r', 'o', 'w', 's'],
        "layer"@ =~= seq!['l', 'a', 'y', 'e', 'r'],
        "children"@ =~= seq!['c', 'h', 'i', 'l', 'd', 'r', 'e', 'n'],
        "links"@ =~= seq!['l', 'i', 'n', 'k', 's'],
        "iconFile"@ =~= seq!['i', 'c', 'o', 'n', 'F', 'i', 'l', 'e'],
        "iconIndex"@ =~= seq!['i', 'c', 'o', 'n', 'I', 'n', 'd', 'e', 'x'],
        "timestamp"@ =~= seq!['t', 'i', 'm', 'e', 's', 't', 'a', 'm', 'p'],
        ""@ =~= Seq::<char>::empty(),
        "FLOAT"@ =~= seq!['F', 'L', 'O', 'A', 'T'],
{
    reveal_strlit("name");
    reveal_strlit("type");
    reveal_strlit("default");
    reveal_strlit("description");
    reveal_strlit("flags");
    reveal_strlit("handle");
    reveal_strlit("class");
    reveal_strlit("x");
    reveal_strlit("y");
    reveal_strlit("source");
    reveal_strlit("target");
    reveal_strlit("vars");
    reveal_strlit("style");
    reveal_strlit("color");
    reveal_strlit("width");
    reveal_strlit("disabled");
    reveal_strlit("arrows");
    reveal_strlit("layer");
    reveal_strlit("children");
    reveal_strlit("links");
    reveal_strlit("iconFile");
    reveal_strlit("iconIndex");
    reveal_strlit("timestamp");
    reveal_strlit("");
    reveal_strlit("FLOAT");
}

/// A variable written by `class_meta` reads back as itself.
pub proof fn lemma_var_back<W: Fn(&str) -> u64>(whole: W, v: VariableView, x: Variable)
    requires
        var_read(whole, var_meta(v), x),
    ensures
        x@ == v,
{
    lemma_reveal_keys();
    reveal_with_fuel(lookup, 7);
    let ps = seq![
        ("name"@, JsonView::Str(v.name)),
        ("type"@, JsonView::Str(v.var_type)),
        ("default"@, JsonView::Str(v.default)),
        ("description"@, JsonView::Str(v.description)),
        ("flags"@, num(v.flags as nat)),
    ];
    lemma_member_of_pairs(ps, "name"@);
    lemma_member_of_pairs(ps, "type"@);
    lemma_member_of_pairs(ps, "default"@);
    lemma_member_of_pairs(ps, "description"@);
    lemma_member_of_pairs(ps, "flags"@);
    assert(member(var_meta(v), "flags"@) == Some(num(v.flags as nat)));
    lemma_num_back(whole, var_meta(v), "flags"@, v.flags as u64, 0xFFFF_FFFF, x.flags as u64);
}

/// `x` is what `bits` gives for the number text `t`.
pub open spec fn coord_read<B: Fn(&str) -> u64>(bits: B, t: Seq<char>, x: u64) -> bool {
    exists|s: &str| s@ == t && call_ensures(bits, (s,), x)
}

/// The styles have the same fields.
pub open spec fn same_style(a: LinkStyle, b: LinkStyle) -> bool {
    &&& a.color@ == b.color@
    &&& a.width == b.width
    &&& a.disabled == b.disabled
    &&& a.arrows == b.arrows
    &&& a.layer == b.layer
}

/// A block written by `class_meta` reads back as itself, its coordinates
/// as `bits` reads their texts.
pub proof fn lemma_child_back<W: Fn(&str) -> u64, B: Fn(&str) -> u64>(
    whole: W,
    bits: B,
    c: ChildView,
    xt: Seq<char>,
    yt: Seq<char>,
    x: Child,
)
    requires
        child_read(whole, bits, child_meta(c, xt, yt), x),
    ensures
        x@ == (ChildView { x: x.x, y: x.y, ..c }),
        coord_read(bits, xt, x.x),
        coord_read(bits, yt, x.y),
{
    lemma_reveal_keys();
    reveal_with_fuel(lookup, 8);
    let v = child_meta(c, xt, yt);
    let ps = seq![
        ("handle"@, num(c.handle as nat)),
        ("class"@, JsonView::Str(c.class_name)),
        ("name"@, JsonView::Str(c.name)),
        ("x"@, JsonView::Number(xt)),
        ("y"@, JsonView::Number(yt)),
        ("flags"@, num(c.flags as nat)),
    ];
    lemma_member_of_pairs(ps, "handle"@);
    lemma_member_of_pairs(ps, "class"@);
    lemma_member_of_pairs(ps, "name"@);
    lemma_member_of_pairs(ps, "x"@);
    lemma_member_of_pairs(ps, "y"@);
    lemma_member_of_pairs(ps, "flags"@);
    assert("y"@[0] != "x"@[0]);
    assert("y"@ != "x"@);
    assert(number_of(v, "x"@) == Some(xt));
    assert(number_of(v, "y"@) == Some(yt));
    lemma_num_back(whole, v, "handle"@, c.handle as u64, 0xFFFF, x.handle as u64);
    lemma_num_back(whole, v, "flags"@, c.flags as u64, 0xFF, x.flags as u64);
}

/// Pairs written as arrays read back as the same pairs.
pub proof fn lemma_pairs_back(ps: Seq<(Seq<char>, Seq<char>)>, k: int)
    requires
        0 <= k <= ps.len(),
    ensures
        pairs_of(Seq::new(k as nat, |i: int| pair_meta(ps[i]))) == ps.take(k),
    decreases k,
{
    let items = Seq::new(k as nat, |i: int| pair_meta(ps[i]));
    if k > 0 {
        lemma_pairs_back(ps, k - 1);
        assert(items.drop_last() =~= Seq::new((k - 1) as nat, |i: int| pair_meta(ps[i])));
        assert(ps.take(k) =~= ps.take(k - 1).push(ps[k - 1]));
    } else {
        assert(ps.take(0) =~= Seq::<(Seq<char>, Seq<char>)>::empty());
    }
}

/// A style written by `link_style_json` reads back as itself.
pub proof fn lemma_style_back<W: Fn(&str) -> u64>(whole: W, st: LinkStyle, r: LinkStyle)
    requires
        style_read(whole, Some(style_meta(st)), r),
    ensures
        same_style(r, st),
{
    lemma_reveal_keys();
    reveal_with_fuel(lookup, 7);
    let v = style_meta(st);
    let ps = seq![
        ("color"@, JsonView::Str(st.color@)),
        ("width"@, num(st.width as nat)),
        ("disabled"@, JsonView::Bool(st.disabled)),
        ("arrows"@, JsonView::Bool(st.arrows)),
        ("layer"@, num(st.layer as nat)),
    ];
    lemma_member_of_pairs(ps, "color"@);
    lemma_member_of_pairs(ps, "width"@);
    lemma_member_of_pairs(ps, "disabled"@);
    lemma_member_of_pairs(ps, "arrows"@);
    lemma_member_of_pairs(ps, "layer"@);
    lemma_num_back(whole, v, "width"@, st.width as u64, 0xFF, r.width as u64);
    lemma_num_back(whole, v, "layer"@, st.layer as u64, 0xFF, r.layer as u64);
}

/// A link written by `class_meta` reads back as itself.
pub proof fn lemma_link_back<W: Fn(&str) -> u64>(whole: W, l: Link, x: Link)
    requires
        link_read(whole, link_meta(l), x),
    ensures
        x@ == l@,
        same_style(x.style, l.style),
{
    lemma_reveal_keys();
    reveal_with_fuel(lookup, 8);
    let v = link_meta(l);
    let pv = crate::formats::cls::pairs_view(l.vars@);
    let base = seq![
        ("handle"@, num(l.handle as nat)),
        ("source"@, num(l.source as nat)),
        ("target"@, num(l.target as nat)),
        ("flags"@, num(l.flags as nat)),
        ("vars"@, pairs_meta(pv)),
    ];
    let ps = if l.style.spec_is_default() {
        base
    } else {
        base.push(("style"@, style_meta(l.style)))
    };
    lemma_member_of_pairs(ps, "handle"@);
    lemma_member_of_pairs(ps, "source"@);
    lemma_member_of_pairs(ps, "target"@);
    lemma_member_of_pairs(ps, "flags"@);
    lemma_member_of_pairs(ps, "vars"@);
    lemma_member_of_pairs(ps, "style"@);
    lemma_num_back(whole, v, "handle"@, l.handle as u64, 0xFFFF, x.handle as u64);
    lemma_num_back(whole, v, "source"@, l.source as u64, 0xFFFF, x.source as u64);
    lemma_num_back(whole, v, "target"@, l.target as u64, 0xFFFF, x.target as u64);
    lemma_num_back(whole, v, "flags"@, l.flags as u64, 0xFFFF_FFFF, x.flags as u64);
    assert(items_of(v, "vars"@) == Seq::new(pv.len(), |i: int| pair_meta(pv[i])));
    lemma_pairs_back(pv, pv.len() as int);
    assert(pv.take(pv.len() as int) =~= pv);
    if l.style.spec_is_default() {
        assert(member(v, "style"@) is None);
        assert(x.style.color@ =~= l.style.color@);
    } else {
        lemma_style_back(whole, l.style, x.style);
    }
}

/// The blobs of an image, as they go to their own files.
pub open spec fn blobs_of(c: Class) -> ClassBlobs {
    ClassBlobs { icon: c.icon, image: c.image, scheme: c.scheme, equations: c.equations }
}

/// The description of an image that `class_meta` writes (with `coords` the
/// texts of the coordinates of its blocks) reads back through
/// `class_from_meta`, with the image's text, blobs and path, as the same
/// image: the same name, description, variables, blocks, links and their
/// styles, icon, time stamp and flags; the coordinates of each block are
/// what `bits` reads from their texts. The image is one of version 3.003
/// without bytecode, as the native format keeps images.
pub proof fn law_class_meta_reads_back<W: Fn(&str) -> u64, B: Fn(&str) -> u64>(
    whole: W,
    bits: B,
    c: Class,
    coords: Seq<(Seq<char>, Seq<char>)>,
    stem: Seq<char>,
    r: Class,
)
    requires
        coords.len() == c.children@.len(),
        c.version == 0x3003,
        c.bytecode is None,
        class_read(whole, bits, class_meta_of(c, coords), stem, c.source@, c.text@, blobs_of(c), r),
    ensures
        r@ == (ClassView { children: r@.children, ..c@ }),
        r.children@.len() == c.children@.len(),
        forall|i: int|
            0 <= i < c.children@.len() ==> (#[trigger] r.children@[i])@ == (ChildView {
                x: r.children@[i].x,
                y: r.children@[i].y,
                ..c.children@[i]@
            }),
        forall|i: int|
            #![trigger r.children@[i]]
            0 <= i < c.children@.len() ==> coord_read(bits, coords[i].0, r.children@[i].x)
                && coord_read(bits, coords[i].1, r.children@[i].y),
        forall|i: int| 0 <= i < c.links@.len() ==> same_style((#[trigger] r.links@[i]).style, c.links@[i].style),
{
    lemma_reveal_keys();
    reveal_with_fuel(lookup, 11);
    let cv = c@;
    let vars = Seq::new(cv.vars.len(), |i: int| var_meta(cv.vars[i]));
    let children = Seq::new(cv.children.len(), |i: int| child_meta(cv.children[i], coords[i].0, coords[i].1));
    let links = Seq::new(c.links@.len(), |i: int| link_meta(c.links@[i]));
    let base = seq![
        ("name"@, JsonView::Str(cv.name)),
        ("description"@, JsonView::Str(cv.description)),
        ("vars"@, JsonView::Array(vars)),
        ("children"@, JsonView::Array(children)),
        ("links"@, JsonView::Array(links)),
    ];
    let a = match cv.flags {
        Some(f) => base.push(("flags"@, num(f as nat))),
        None => base,
    };
    let b = match cv.icon_file {
        Some(f) => a.push(("iconFile"@, JsonView::Str(f))),
        None => a,
    };
    let d = match cv.icon_index {
        Some(i) => b.push(("iconIndex"@, num(i as nat))),
        None => b,
    };
    let e = match cv.timestamp {
        Some(t) => d.push(("timestamp"@, num(t as nat))),
        None => d,
    };
    let v = class_meta_of(c, coords);
    assert(v == JsonView::Object(crate::formats::json::members_of_pairs(e)));
    lemma_member_of_pairs(e, "name"@);
    lemma_member_of_pairs(e, "description"@);
    lemma_member_of_pairs(e, "vars"@);
    lemma_member_of_pairs(e, "children"@);
    lemma_member_of_pairs(e, "links"@);
    lemma_member_of_pairs(e, "flags"@);
    lemma_member_of_pairs(e, "iconFile"@);
    lemma_member_of_pairs(e, "iconIndex"@);
    lemma_member_of_pairs(e, "timestamp"@);
    assert(items_of(v, "vars"@) == vars);
    assert(items_of(v, "children"@) == children);
    assert(items_of(v, "links"@) == links);
    assert forall|i: int| 0 <= i < cv.vars.len() implies r@.vars[i] == cv.vars[i] by {
        assert(var_read(whole, vars[i], r.vars@[i]));
        lemma_var_back(whole, cv.vars[i], r.vars@[i]);
    }
    assert(r@.vars =~= cv.vars);
    assert forall|i: int| 0 <= i < cv.children.len() implies (#[trigger] r.children@[i])@ == (ChildView {
        x: r.children@[i].x,
        y: r.children@[i].y,
        ..c.children@[i]@
    }) by {
        assert(child_read(whole, bits, children[i], r.children@[i]));
        lemma_child_back(whole, bits, cv.children[i], coords[i].0, coords[i].1, r.children@[i]);
    }
    assert forall|i: int|
        #![trigger r.children@[i]]
        0 <= i < c.children@.len() implies coord_read(bits, coords[i].0, r.children@[i].x)
            && coord_read(bits, coords[i].1, r.children@[i].y) by {
        assert(child_read(whole, bits, children[i], r.children@[i]));
        lemma_child_back(whole, bits, cv.children[i], coords[i].0, coords[i].1, r.children@[i]);
    }
    assert forall|i: int| 0 <= i < c.links@.len() implies r@.links[i] == cv.links[i] && same_style(
        (#[trigger] r.links@[i]).style,
        c.links@[i].style,
    ) by {
        assert(link_read(whole, links[i], r.links@[i]));
        lemma_link_back(whole, c.links@[i], r.links@[i]);
    }
    assert(r@.links =~= cv.links);
    match cv.flags {
        Some(f) => lemma_opt_num_back(whole, v, "flags"@, f as u64, 0xFFFF_FFFF, match r.flags {
            Some(i) => Some(i as u64),
            None => None,
        }),
        None => {},
    }
    match cv.icon_index {
        Some(f) => lemma_opt_num_back(whole, v, "iconIndex"@, f as u64, 0xFFFF, match r.icon_index {
            Some(i) => Some(i as u64),
            None => None,
        }),
        None => {},
    }
    match cv.timestamp {
        Some(f) => lemma_opt_num_back(whole, v, "timestamp"@, f as u64, 0xFFFF_FFFF, match r.timestamp {
            Some(i) => Some(i as u64),
            None => None,
        }),
        None => {},
    }
}

pub proof fn lemma_reveal_project_keys()
    ensures
        "key"@ =~= seq!['k', 'e', 'y'],
        "int"@ =~= seq!['i', 'n', 't'],
        "text"@ =~= seq!['t', 'e', 'x', 't'],
        "kind"@ =~= seq!['k', 'i', 'n', 'd'],
        "file"@ =~= seq!['f', 'i', 'l', 'e'],
        "format"@ =~= seq!['f', 'o', 'r', 'm', 'a', 't'],
        "root"@ =~= seq!['r', 'o', 'o', 't'],
        "properties"@ =~= seq!['p', 'r', 'o', 'p', 'e', 'r', 't', 'i', 'e', 's'],
        "variables"@ =~= seq!['v', 'a', 'r', 'i', 'a', 'b', 'l', 'e', 's'],
        "classes"@ =~= seq!['c', 'l', 'a', 's', 's', 'e', 's'],
        "libraries"@ =~= seq!['l', 'i', 'b', 'r', 'a', 'r', 'i', 'e', 's'],
{
    reveal_strlit("key");
    reveal_strlit("int");
    reveal_strlit("text");
    reveal_strlit("kind");
    reveal_strlit("file");
    reveal_strlit("format");
    reveal_strlit("root");
    reveal_strlit("properties");
    reveal_strlit("variables");
    reveal_strlit("classes");
    reveal_strlit("libraries");
}

pub proof fn lemma_property_back<W: Fn(&str) -> u64>(whole: W, pr: PropertyView, x: Property)
    requires
        property_read(whole, property_meta(pr), x),
    ensures
        x@ == pr,
{
    lemma_reveal_keys();
    lemma_reveal_project_keys();
    reveal_with_fuel(lookup, 3);
    let v = property_meta(pr);
    match pr.value {
        PropertyValueView::Int(n) => {
            let ps = seq![("key"@, JsonView::Str(pr.key)), ("int"@, num(n as nat))];
            lemma_member_of_pairs(ps, "key"@);
            lemma_member_of_pairs(ps, "int"@);
            assert(number_of(v, "int"@) == Some(decimal(n as nat)));
            let w = choose|w: u64| whole_read(whole, decimal(n as nat), w) && x.value == crate::formats::project::PropertyValue::Int(if w > 0xFFFF_FFFF {
                0xFFFF_FFFFu32
            } else {
                w as u32
            });
            lemma_whole_read_decimal(whole, n as u64, w);
        },
        PropertyValueView::Text(t) => {
            let ps = seq![("key"@, JsonView::Str(pr.key)), ("text"@, JsonView::Str(t))];
            lemma_member_of_pairs(ps, "key"@);
            lemma_member_of_pairs(ps, "int"@);
            lemma_member_of_pairs(ps, "text"@);
        },
    }
}

pub proof fn lemma_project_var_back<W: Fn(&str) -> u64>(whole: W, pv: ProjectVariableView, x: ProjectVariable)
    requires
        project_var_read(whole, project_var_meta(pv), x),
    ensures
        x@ == pv,
{
    lemma_reveal_keys();
    lemma_reveal_project_keys();
    reveal_with_fuel(lookup, 6);
    let v = project_var_meta(pv);
    let base = seq![
        ("kind"@, num(pv.kind as nat)),
        ("flags"@, num(pv.flags as nat)),
        ("name"@, JsonView::Str(pv.name)),
        ("description"@, JsonView::Str(pv.description)),
    ];
    let ps = match pv.handle {
        Some(h) => base.push(("handle"@, num(h as nat))),
        None => base,
    };
    lemma_member_of_pairs(ps, "kind"@);
    lemma_member_of_pairs(ps, "flags"@);
    lemma_member_of_pairs(ps, "name"@);
    lemma_member_of_pairs(ps, "description"@);
    lemma_member_of_pairs(ps, "handle"@);
    lemma_num_back(whole, v, "kind"@, pv.kind as u64, 0xFFFF, x.kind as u64);
    lemma_num_back(whole, v, "flags"@, pv.flags as u64, 0xFFFF, x.flags as u64);
    match pv.handle {
        Some(h) => lemma_opt_num_back(whole, v, "handle"@, h as u64, 0xFFFF, match x.handle {
            Some(i) => Some(i as u64),
            None => None,
        }),
        None => {},
    }
}

/// `project.json`, as `project_meta` writes it, reads back through
/// `project_from_meta` as the same project and the same stems of the files
/// of its images, when every stem stays inside the folder of images (as
/// `unique_stems` makes them).
pub proof fn law_project_meta_reads_back<W: Fn(&str) -> u64>(
    whole: W,
    p: crate::formats::project::ProjectView,
    classes: Seq<(Seq<char>, Seq<char>)>,
    libraries: Seq<Seq<char>>,
    r: Result<(Project, Vec<String>), String>,
)
    requires
        forall|i: int| 0 <= i < classes.len() ==> stem_ok((#[trigger] classes[i]).1),
        project_read(whole, project_meta_of(p, classes, libraries), r),
    ensures
        r matches Ok((q, st)) && q@ == p && st@.map_values(|x: String| x@) == classes.map_values(
            |e: (Seq<char>, Seq<char>)| e.1,
        ),
{
    lemma_reveal_keys();
    lemma_reveal_project_keys();
    reveal_with_fuel(lookup, 7);
    let props = Seq::new(p.properties.len(), |i: int| property_meta(p.properties[i]));
    let vars = Seq::new(p.variables.len(), |i: int| project_var_meta(p.variables[i]));
    let list = Seq::new(classes.len(), |i: int| class_entry_meta(classes[i]));
    let libs = Seq::new(libraries.len(), |i: int| JsonView::Str(libraries[i]));
    let ps = seq![
        ("format"@, JsonView::Str(FORMAT@)),
        ("root"@, JsonView::Str(p.root)),
        ("properties"@, JsonView::Array(props)),
        ("variables"@, JsonView::Array(vars)),
        ("classes"@, JsonView::Array(list)),
        ("libraries"@, JsonView::Array(libs)),
    ];
    let v = project_meta_of(p, classes, libraries);
    lemma_member_of_pairs(ps, "format"@);
    lemma_member_of_pairs(ps, "root"@);
    lemma_member_of_pairs(ps, "properties"@);
    lemma_member_of_pairs(ps, "variables"@);
    lemma_member_of_pairs(ps, "classes"@);
    let stems = listed_stems(v);
    assert(items_of(v, "classes"@) == list);
    assert forall|i: int| 0 <= i < classes.len() implies stems[i] == classes[i].1 by {
        let eps = seq![("name"@, JsonView::Str(classes[i].0)), ("file"@, JsonView::Str(classes[i].1))];
        lemma_member_of_pairs(eps, "file"@);
    }
    lemma_first_bad_stem(stems);
    if first_bad_stem(stems) < stems.len() {
        assert(stem_ok(classes[first_bad_stem(stems)].1));
    }
    let (q, st) = r.unwrap();
    assert(items_of(v, "properties"@) == props);
    assert(items_of(v, "variables"@) == vars);
    assert forall|i: int| 0 <= i < props.len() implies q@.properties[i] == p.properties[i] by {
        assert(property_read(whole, props[i], q.properties@[i]));
        lemma_property_back(whole, p.properties[i], q.properties@[i]);
    }
    assert(q@.properties =~= p.properties);
    assert forall|i: int| 0 <= i < vars.len() implies q@.variables[i] == p.variables[i] by {
        assert(project_var_read(whole, vars[i], q.variables@[i]));
        lemma_project_var_back(whole, p.variables[i], q.variables@[i]);
    }
    assert(q@.variables =~= p.variables);
    assert(stems =~= classes.map_values(|e: (Seq<char>, Seq<char>)| e.1));
}

} // verus!
