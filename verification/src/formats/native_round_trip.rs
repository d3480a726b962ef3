//! The files of the native format read back: what the library writes for
//! an image, a project or a snapshot, written out as people read it,
//! parses to the very value that was written.

use vstd::prelude::*;
use crate::formats::cls::{Class, ChildView, Link, LinkStyle, VariableView};
use crate::formats::json::{members_of_pairs, pretty_of, JsonView};
use crate::formats::json_read::{
    all_digits, exp_index, index_of, insert_member, is_number_char, lemma_index_of, mantissa_ok,
    parse_chars, JsonError,
};
use crate::formats::json_round_trip::{
    items_wf, json_wf, keys_increasing, law_pretty_round_trip, members_wf, number_text_ok,
};
use crate::formats::native_save::{
    child_meta, class_entry_meta, class_meta_of, link_meta, num, pair_meta, pairs_meta,
    project_meta_of, project_var_meta, property_meta, state_image_meta, state_meta_of, style_meta,
    var_meta,
};
use crate::formats::project::{ProjectView, PropertyValueView, StateView};
use crate::lang::deps::{lemma_seq_lt_total, lemma_seq_lt_transitive, seq_lt};
use crate::numtext::{decimal, lemma_decimal_digits, lemma_digits_len};

verus! {

pub proof fn lemma_items_wf_of(s: Seq<JsonView>)
    requires
        forall|i: int| 0 <= i < s.len() ==> json_wf(#[trigger] s[i]),
    ensures
        items_wf(s),
    decreases s.len(),
{
    if s.len() > 0 {
        let t = s.subrange(0, s.len() - 1);
        assert forall|i: int| 0 <= i < t.len() implies json_wf(#[trigger] t[i]) by {
            assert(t[i] == s[i]);
        }
        lemma_items_wf_of(t);
    }
}

pub proof fn lemma_members_wf_of(s: Seq<(Seq<char>, JsonView)>)
    requires
        forall|i: int| 0 <= i < s.len() ==> json_wf((#[trigger] s[i]).1),
    ensures
        members_wf(s),
    decreases s.len(),
{
    if s.len() > 0 {
        let t = s.subrange(0, s.len() - 1);
        assert forall|i: int| 0 <= i < t.len() implies json_wf((#[trigger] t[i]).1) by {
            assert(t[i] == s[i]);
        }
        lemma_members_wf_of(t);
    }
}

/// A member put into members in order of their keys keeps them in order;
/// every member after is the new one or one from before.
pub proof fn lemma_insert_member(ms: Seq<(Seq<char>, JsonView)>, k: Seq<char>, v: JsonView)
    requires
        keys_increasing(ms),
    ensures
        keys_increasing(insert_member(ms, k, v)),
        forall|i: int|
            0 <= i < insert_member(ms, k, v).len() ==> (#[trigger] insert_member(ms, k, v)[i] == (k, v)
                || exists|j: int| 0 <= j < ms.len() && insert_member(ms, k, v)[i] == ms[j]),
    decreases ms.len(),
{
    let r = insert_member(ms, k, v);
    if ms.len() == 0 {
    } else {
        let d = ms.drop_last();
        let last = ms.last();
        assert forall|i: int, j: int| 0 <= i < j < d.len() implies seq_lt((#[trigger] d[i]).0, (#[trigger] d[j]).0) by {
            assert(d[i] == ms[i] && d[j] == ms[j]);
        }
        assert forall|i: int| 0 <= i < d.len() implies seq_lt((#[trigger] d[i]).0, last.0) by {
            assert(d[i] == ms[i]);
            assert(ms[ms.len() - 1] == last);
        }
        if last.0 == k {
            assert(r == d.push((k, v)));
            assert forall|i: int| 0 <= i < r.len() implies (#[trigger] r[i] == (k, v) || exists|j: int|
                0 <= j < ms.len() && r[i] == ms[j]) by {
                if i < d.len() {
                    assert(r[i] == ms[i]);
                }
            }
            assert forall|i: int, j: int| 0 <= i < j < r.len() implies seq_lt((#[trigger] r[i]).0, (#[trigger] r[j]).0) by {
                assert(r[i] == d[i]);
                if j < d.len() {
                    assert(r[j] == d[j]);
                }
            }
        } else if seq_lt(last.0, k) {
            assert(r == ms.push((k, v)));
            assert forall|i: int| 0 <= i < r.len() implies (#[trigger] r[i] == (k, v) || exists|j: int|
                0 <= j < ms.len() && r[i] == ms[j]) by {
                if i < ms.len() {
                    assert(r[i] == ms[i]);
                }
            }
            assert forall|i: int, j: int| 0 <= i < j < r.len() implies seq_lt((#[trigger] r[i]).0, (#[trigger] r[j]).0) by {
                assert(r[i] == ms[i]);
                if j < ms.len() {
                    assert(r[j] == ms[j]);
                } else if i < d.len() {
                    assert(d[i] == ms[i]);
                    lemma_seq_lt_transitive(ms[i].0, last.0, k);
                }
            }
        } else {
            lemma_seq_lt_total(last.0, k);
            lemma_insert_member(d, k, v);
            let q = insert_member(d, k, v);
            assert(r == q.push(last));
            assert forall|i: int| 0 <= i < q.len() implies seq_lt((#[trigger] q[i]).0, last.0) by {
                if q[i] != (k, v) {
                    let j = choose|j: int| 0 <= j < d.len() && q[i] == d[j];
                    assert(seq_lt(d[j].0, last.0));
                }
            }
            assert forall|i: int| 0 <= i < r.len() implies (#[trigger] r[i] == (k, v) || exists|j: int|
                0 <= j < ms.len() && r[i] == ms[j]) by {
                if i < q.len() {
                    assert(r[i] == q[i]);
                    if q[i] != (k, v) {
                        let j = choose|j: int| 0 <= j < d.len() && q[i] == d[j];
                        assert(d[j] == ms[j]);
                    }
                } else {
                    assert(r[i] == ms[ms.len() - 1]);
                }
            }
            assert forall|i: int, j: int| 0 <= i < j < r.len() implies seq_lt((#[trigger] r[i]).0, (#[trigger] r[j]).0) by {
                assert(r[i] == q[i]);
                if j < q.len() {
                    assert(r[j] == q[j]);
                }
            }
        }
    }
}

/// An object made of pairs of well-formed values is well formed; each of
/// its members is one of the pairs.
pub proof fn lemma_object_wf(ps: Seq<(Seq<char>, JsonView)>)
    requires
        forall|i: int| 0 <= i < ps.len() ==> json_wf((#[trigger] ps[i]).1),
    ensures
        json_wf(JsonView::Object(members_of_pairs(ps))),
        forall|i: int|
            0 <= i < members_of_pairs(ps).len() ==> exists|j: int|
                0 <= j < ps.len() && #[trigger] members_of_pairs(ps)[i] == ps[j],
    decreases ps.len(),
{
    let m = members_of_pairs(ps);
    if ps.len() > 0 {
        let d = ps.drop_last();
        assert forall|i: int| 0 <= i < d.len() implies json_wf((#[trigger] d[i]).1) by {
            assert(d[i] == ps[i]);
        }
        lemma_object_wf(d);
        let md = members_of_pairs(d);
        lemma_insert_member(md, ps.last().0, ps.last().1);
        assert(m == insert_member(md, ps.last().0, ps.last().1));
        assert forall|i: int| 0 <= i < m.len() implies exists|j: int|
            0 <= j < ps.len() && #[trigger] m[i] == ps[j] by {
            if m[i] == (ps.last().0, ps.last().1) {
                assert(m[i] == ps[ps.len() - 1]);
            } else {
                let j = choose|j: int| 0 <= j < md.len() && m[i] == md[j];
                let j2 = choose|j2: int| 0 <= j2 < d.len() && md[j] == d[j2];
                assert(d[j2] == ps[j2]);
            }
        }
        assert forall|i: int| 0 <= i < m.len() implies json_wf((#[trigger] m[i]).1) by {
            let j = choose|j: int| 0 <= j < ps.len() && m[i] == ps[j];
        }
        lemma_members_wf_of(m);
    }
}

/// The decimal digits of a number read back as a number.
pub proof fn lemma_decimal_ok(n: nat)
    ensures
        number_text_ok(decimal(n)),
        json_wf(num(n)),
{
    let s = decimal(n);
    lemma_digits_len(n, 10);
    lemma_decimal_digits(n);
    lemma_index_of(s, 'e');
    lemma_index_of(s, 'E');
    lemma_index_of(s, '.');
    assert(exp_index(s) == s.len());
    assert(all_digits(s));
    assert(mantissa_ok(s));
    assert forall|k: int| 0 <= k < s.len() implies is_number_char(#[trigger] s[k]) by {}
}

/// Pairs of names make a well-formed value.
pub proof fn lemma_pairs_meta_wf(ps: Seq<(Seq<char>, Seq<char>)>)
    ensures
        json_wf(pairs_meta(ps)),
{
    let items = Seq::new(ps.len(), |i: int| pair_meta(ps[i]));
    assert forall|i: int| 0 <= i < items.len() implies json_wf(#[trigger] items[i]) by {
        let two = seq![JsonView::Str(ps[i].0), JsonView::Str(ps[i].1)];
        assert forall|k: int| 0 <= k < two.len() implies json_wf(#[trigger] two[k]) by {}
        lemma_items_wf_of(two);
    }
    lemma_items_wf_of(items);
}

pub proof fn lemma_style_wf(st: LinkStyle)
    ensures
        json_wf(style_meta(st)),
{
    lemma_decimal_ok(st.width as nat);
    lemma_decimal_ok(st.layer as nat);
    let ps = seq![
        ("color"@, JsonView::Str(st.color@)),
        ("width"@, num(st.width as nat)),
        ("disabled"@, JsonView::Bool(st.disabled)),
        ("arrows"@, JsonView::Bool(st.arrows)),
        ("layer"@, num(st.layer as nat)),
    ];
    assert forall|i: int| 0 <= i < ps.len() implies json_wf((#[trigger] ps[i]).1) by {}
    lemma_object_wf(ps);
}

pub proof fn lemma_link_wf(l: Link)
    ensures
        json_wf(link_meta(l)),
{
    lemma_decimal_ok(l.handle as nat);
    lemma_decimal_ok(l.source as nat);
    lemma_decimal_ok(l.target as nat);
    lemma_decimal_ok(l.flags as nat);
    lemma_pairs_meta_wf(crate::formats::cls::pairs_view(l.vars@));
    lemma_style_wf(l.style);
    let base = seq![
        ("handle"@, num(l.handle as nat)),
        ("source"@, num(l.source as nat)),
        ("target"@, num(l.target as nat)),
        ("flags"@, num(l.flags as nat)),
        ("vars"@, pairs_meta(crate::formats::cls::pairs_view(l.vars@))),
    ];
    let ps = if l.style.spec_is_default() {
        base
    } else {
        base.push(("style"@, style_meta(l.style)))
    };
    assert forall|i: int| 0 <= i < ps.len() implies json_wf((#[trigger] ps[i]).1) by {}
    lemma_object_wf(ps);
}

pub proof fn lemma_var_wf(v: VariableView)
    ensures
        json_wf(var_meta(v)),
{
    lemma_decimal_ok(v.flags as nat);
    let ps = seq![
        ("name"@, JsonView::Str(v.name)),
        ("type"@, JsonView::Str(v.var_type)),
        ("default"@, JsonView::Str(v.default)),
        ("description"@, JsonView::Str(v.description)),
        ("flags"@, num(v.flags as nat)),
    ];
    assert forall|i: int| 0 <= i < ps.len() implies json_wf((#[trigger] ps[i]).1) by {}
    lemma_object_wf(ps);
}

pub proof fn lemma_child_wf(c: ChildView, x: Seq<char>, y: Seq<char>)
    requires
        number_text_ok(x),
        number_text_ok(y),
    ensures
        json_wf(child_meta(c, x, y)),
{
    lemma_decimal_ok(c.handle as nat);
    lemma_decimal_ok(c.flags as nat);
    let ps = seq![
        ("handle"@, num(c.handle as nat)),
        ("class"@, JsonView::Str(c.class_name)),
        ("name"@, JsonView::Str(c.name)),
        ("x"@, JsonView::Number(x)),
        ("y"@, JsonView::Number(y)),
        ("flags"@, num(c.flags as nat)),
    ];
    assert forall|i: int| 0 <= i < ps.len() implies json_wf((#[trigger] ps[i]).1) by {}
    lemma_object_wf(ps);
}

/// The description of an image is well formed when the texts of the
/// coordinates of its blocks are numbers.
pub proof fn lemma_class_meta_wf(c: Class, coords: Seq<(Seq<char>, Seq<char>)>)
    requires
        coords.len() == c.children@.len(),
        forall|i: int|
            0 <= i < coords.len() ==> number_text_ok((#[trigger] coords[i]).0) && number_text_ok(
                coords[i].1,
            ),
    ensures
        json_wf(class_meta_of(c, coords)),
{
    let cv = c@;
    let vars = Seq::new(cv.vars.len(), |i: int| var_meta(cv.vars[i]));
    assert forall|i: int| 0 <= i < vars.len() implies json_wf(#[trigger] vars[i]) by {
        lemma_var_wf(cv.vars[i]);
    }
    lemma_items_wf_of(vars);
    let children = Seq::new(cv.children.len(), |i: int| child_meta(cv.children[i], coords[i].0, coords[i].1));
    assert forall|i: int| 0 <= i < children.len() implies json_wf(#[trigger] children[i]) by {
        lemma_child_wf(cv.children[i], coords[i].0, coords[i].1);
    }
    lemma_items_wf_of(children);
    let links = Seq::new(c.links@.len(), |i: int| link_meta(c.links@[i]));
    assert forall|i: int| 0 <= i < links.len() implies json_wf(#[trigger] links[i]) by {
        lemma_link_wf(c.links@[i]);
    }
    lemma_items_wf_of(links);
    match cv.flags {
        Some(f) => lemma_decimal_ok(f as nat),
        None => {},
    }
    match cv.icon_index {
        Some(i) => lemma_decimal_ok(i as nat),
        None => {},
    }
    match cv.timestamp {
        Some(t) => lemma_decimal_ok(t as nat),
        None => {},
    }
    let base = seq![
        ("name"@, JsonView::Str(cv.name)),
        ("description"@, JsonView::Str(cv.description)),
        ("vars"@, JsonView::Array(vars)),
        ("children"@, JsonView::Array(children)),
        ("links"@, JsonView::Array(links)),
    ];
    let a = match cv.flags {
        Some(f) => base.push(("flags"@, num(f as nat))),
        None => base,
    };
    let b = match cv.icon_file {
        Some(f) => a.push(("iconFile"@, JsonView::Str(f))),
        None => a,
    };
    let d = match cv.icon_index {
        Some(i) => b.push(("iconIndex"@, num(i as nat))),
        None => b,
    };
    let e = match cv.timestamp {
        Some(t) => d.push(("timestamp"@, num(t as nat))),
        None => d,
    };
    assert forall|i: int| 0 <= i < e.len() implies json_wf((#[trigger] e[i]).1) by {
        if i < 5 {
            assert(e[i] == base[i]);
        }
    }
    lemma_object_wf(e);
    assert(class_meta_of(c, coords) == JsonView::Object(members_of_pairs(e)));
}

/// The description of an image, written by `class_meta` and `pretty`,
/// reads back as the value written, when the texts of the coordinates of
/// its blocks are numbers.
pub proof fn law_class_file_round_trip(c: Class, coords: Seq<(Seq<char>, Seq<char>)>)
    requires
        coords.len() == c.children@.len(),
        forall|i: int|
            0 <= i < coords.len() ==> number_text_ok((#[trigger] coords[i]).0) && number_text_ok(
                coords[i].1,
            ),
    ensures
        parse_chars(pretty_of(class_meta_of(c, coords), 0) + "\n"@) == Ok::<JsonView, JsonError>(
            class_meta_of(c, coords),
        ),
{
    lemma_class_meta_wf(c, coords);
    law_pretty_round_trip(class_meta_of(c, coords));
}

/// The content of `project.json` is well formed.
pub proof fn lemma_project_meta_wf(p: ProjectView, classes: Seq<(Seq<char>, Seq<char>)>, libraries: Seq<Seq<char>>)
    ensures
        json_wf(project_meta_of(p, classes, libraries)),
{
    let props = Seq::new(p.properties.len(), |i: int| property_meta(p.properties[i]));
    assert forall|i: int| 0 <= i < props.len() implies json_wf(#[trigger] props[i]) by {
        let pr = p.properties[i];
        match pr.value {
            PropertyValueView::Int(n) => {
                lemma_decimal_ok(n as nat);
                let ps = seq![("key"@, JsonView::Str(pr.key)), ("int"@, num(n as nat))];
                assert forall|k: int| 0 <= k < ps.len() implies json_wf((#[trigger] ps[k]).1) by {}
                lemma_object_wf(ps);
            },
            PropertyValueView::Text(t) => {
                let ps = seq![("key"@, JsonView::Str(pr.key)), ("text"@, JsonView::Str(t))];
                assert forall|k: int| 0 <= k < ps.len() implies json_wf((#[trigger] ps[k]).1) by {}
                lemma_object_wf(ps);
            },
        }
    }
    lemma_items_wf_of(props);
    let vars = Seq::new(p.variables.len(), |i: int| project_var_meta(p.variables[i]));
    assert forall|i: int| 0 <= i < vars.len() implies json_wf(#[trigger] vars[i]) by {
        let v = p.variables[i];
        lemma_decimal_ok(v.kind as nat);
        lemma_decimal_ok(v.flags as nat);
        let base = seq![
            ("kind"@, num(v.kind as nat)),
            ("flags"@, num(v.flags as nat)),
            ("name"@, JsonView::Str(v.name)),
            ("description"@, JsonView::Str(v.description)),
        ];
        let ps = match v.handle {
            Some(h) => {
                lemma_decimal_ok(h as nat);
                base.push(("handle"@, num(h as nat)))
            },
            None => base,
        };
        assert forall|k: int| 0 <= k < ps.len() implies json_wf((#[trigger] ps[k]).1) by {
            if k < 4 {
                assert(ps[k] == base[k]);
            }
        }
        lemma_object_wf(ps);
    }
    lemma_items_wf_of(vars);
    let list = Seq::new(classes.len(), |i: int| class_entry_meta(classes[i]));
    assert forall|i: int| 0 <= i < list.len() implies json_wf(#[trigger] list[i]) by {
        let ps = seq![("name"@, JsonView::Str(classes[i].0)), ("file"@, JsonView::Str(classes[i].1))];
        assert forall|k: int| 0 <= k < ps.len() implies json_wf((#[trigger] ps[k]).1) by {}
        lemma_object_wf(ps);
    }
    lemma_items_wf_of(list);
    let libs = Seq::new(libraries.len(), |i: int| JsonView::Str(libraries[i]));
    assert forall|i: int| 0 <= i < libs.len() implies json_wf(#[trigger] libs[i]) by {}
    lemma_items_wf_of(libs);
    let ps = seq![
        ("format"@, JsonView::Str(crate::formats::native::FORMAT@)),
        ("root"@, JsonView::Str(p.root)),
        ("properties"@, JsonView::Array(props)),
        ("variables"@, JsonView::Array(vars)),
        ("classes"@, JsonView::Array(list)),
        ("libraries"@, JsonView::Array(libs)),
    ];
    assert forall|k: int| 0 <= k < ps.len() implies json_wf((#[trigger] ps[k]).1) by {}
    lemma_object_wf(ps);
}

/// `project.json`, written by `project_meta` and `pretty`, reads back as
/// the value written.
pub proof fn law_project_file_round_trip(p: ProjectView, classes: Seq<(Seq<char>, Seq<char>)>, libraries: Seq<Seq<char>>)
    ensures
        parse_chars(pretty_of(project_meta_of(p, classes, libraries), 0) + "\n"@) == Ok::<
            JsonView,
            JsonError,
        >(project_meta_of(p, classes, libraries)),
{
    lemma_project_meta_wf(p, classes, libraries);
    law_pretty_round_trip(project_meta_of(p, classes, libraries));
}

/// `state.json`, written by `state_meta` and `pretty`, reads back as the
/// value written.
pub proof fn law_state_file_round_trip(st: StateView)
    ensures
        parse_chars(pretty_of(state_meta_of(st), 0) + "\n"@) == Ok::<JsonView, JsonError>(
            state_meta_of(st),
        ),
{
    let images = Seq::new(st.images.len(), |i: int| state_image_meta(st.images[i]));
    assert forall|i: int| 0 <= i < images.len() implies json_wf(#[trigger] images[i]) by {
        let im = st.images[i];
        lemma_decimal_ok(im.reference as nat);
        lemma_decimal_ok(im.handle as nat);
        lemma_pairs_meta_wf(im.vars);
        let ps = seq![
            ("class"@, JsonView::Str(im.class_name)),
            ("ref"@, num(im.reference as nat)),
            ("handle"@, num(im.handle as nat)),
            ("vars"@, pairs_meta(im.vars)),
        ];
        assert forall|k: int| 0 <= k < ps.len() implies json_wf((#[trigger] ps[k]).1) by {}
        lemma_object_wf(ps);
    }
    lemma_items_wf_of(images);
    let ps = seq![("root"@, JsonView::Str(st.root)), ("images"@, JsonView::Array(images))];
    assert forall|k: int| 0 <= k < ps.len() implies json_wf((#[trigger] ps[k]).1) by {}
    lemma_object_wf(ps);
    law_pretty_round_trip(state_meta_of(st));
}

} // verus!
