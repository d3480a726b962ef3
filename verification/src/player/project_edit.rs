//! Edits of the project that the IDE asks for: an own image is renamed
//! (with every use of its name) or deleted (when nothing uses it). Images
//! are found by name without regard to the case of ASCII letters.

use vstd::prelude::*;
use crate::formats::cls::{Child, ChildView, Class, ClassView, Variable};
use crate::player::{field_end, lemma_field_end};
use crate::stdx::{parse_u64, unsigned_text};
use crate::text::{string_of_chars, sub_chars, trim_chars, trim_ws};
use crate::formats::project::{Project, ProjectView, Property, PropertyValue, State, StateImage, StateImageView, StateView};
use crate::text::{eq_ignore_ascii_case, str_eq_ignore_ascii_case};

verus! {

/// A project as it is open for editing: the project file, its images and
/// then those of the libraries (`own_classes` of them are its own), and
/// the snapshot of values.
pub struct OpenProject {
    pub project: Project,
    pub classes: Vec<Class>,
    pub own_classes: usize,
    pub state: Option<State>,
}

pub open spec fn classes_view(cs: Seq<Class>) -> Seq<ClassView> {
    cs.map_values(|c: Class| c@)
}

pub open spec fn state_opt(s: Option<State>) -> Option<StateView> {
    match s {
        Some(x) => Some(x@),
        None => None,
    }
}

/// The index of the first image named `name` (ASCII case aside); the
/// number of images when there is none.
pub open spec fn class_index(cs: Seq<ClassView>, name: Seq<char>) -> int
    decreases cs.len(),
{
    if cs.len() == 0 {
        0
    } else if eq_ignore_ascii_case(cs[0].name, name) {
        0
    } else {
        1 + class_index(cs.drop_first(), name)
    }
}

pub proof fn lemma_class_index(cs: Seq<ClassView>, name: Seq<char>)
    ensures
        0 <= class_index(cs, name) <= cs.len(),
        class_index(cs, name) < cs.len() ==> eq_ignore_ascii_case(cs[class_index(cs, name)].name, name),
        forall|j: int| 0 <= j < class_index(cs, name) ==> !eq_ignore_ascii_case(#[trigger] cs[j].name, name),
    decreases cs.len(),
{
    if cs.len() > 0 && !eq_ignore_ascii_case(cs[0].name, name) {
        lemma_class_index(cs.drop_first(), name);
        assert forall|j: int| 0 <= j < class_index(cs, name) implies !eq_ignore_ascii_case(
            #[trigger] cs[j].name,
            name,
        ) by {
            if j > 0 {
                assert(cs[j] == cs.drop_first()[j - 1]);
            }
        }
    }
}

fn find_class(cs: &Vec<Class>, name: &str) -> (i: usize)
    ensures
        i == class_index(classes_view(cs@), name@),
{
    let ghost cv = classes_view(cs@);
    proof {
        lemma_class_index(cv, name@);
    }
    let mut i: usize = 0;
    while i < cs.len()
        invariant
            cv == classes_view(cs@),
            cv.len() == cs@.len(),
            i <= cs.len(),
            i <= class_index(cv, name@),
            0 <= class_index(cv, name@) <= cv.len(),
            class_index(cv, name@) < cv.len() ==> eq_ignore_ascii_case(cv[class_index(cv, name@)].name, name@),
            forall|j: int| 0 <= j < class_index(cv, name@) ==> !eq_ignore_ascii_case(#[trigger] cv[j].name, name@),
        decreases cs.len() - i,
    {
        assert(cv[i as int] == cs@[i as int]@);
        if str_eq_ignore_ascii_case(cs[i].name.as_str(), name) {
            proof {
                assert(cv[i as int].name == cs@[i as int].name@);
                if (i as int) < class_index(cv, name@) {
                    assert(!eq_ignore_ascii_case(cv[i as int].name, name@));
                }
            }
            return i;
        }
        i = i + 1;
    }
    i
}

/// A use of the image `name` on a sheet now names `to`.
pub open spec fn child_renamed(ch: ChildView, name: Seq<char>, to: Seq<char>) -> ChildView {
    if eq_ignore_ascii_case(ch.class_name, name) {
        ChildView { class_name: to, ..ch }
    } else {
        ch
    }
}

/// An image of the snapshot of the image `name` is now one of `to`.
pub open spec fn image_renamed(im: StateImageView, name: Seq<char>, to: Seq<char>) -> StateImageView {
    if eq_ignore_ascii_case(im.class_name, name) {
        StateImageView { class_name: to, ..im }
    } else {
        im
    }
}

/// The project after the own image `i` (named `name`) was renamed `to`:
/// its name, the blocks of own images that use it, the root and the
/// images of the snapshot.
pub open spec fn renamed(p: OpenProject, i: int, name: Seq<char>, to: Seq<char>, q: OpenProject) -> bool {
    let old_cs = classes_view(p.classes@);
    let new_cs = classes_view(q.classes@);
    &&& q.own_classes == p.own_classes
    &&& new_cs.len() == old_cs.len()
    &&& forall|j: int|
        #![trigger new_cs[j]]
        0 <= j < old_cs.len() ==> new_cs[j] == if j < p.own_classes {
            ClassView {
                name: if j == i {
                    to
                } else {
                    old_cs[j].name
                },
                children: old_cs[j].children.map_values(|ch: ChildView| child_renamed(ch, name, to)),
                ..old_cs[j]
            }
        } else {
            old_cs[j]
        }
    &&& forall|j: int|
        0 <= j < p.classes@.len() ==> (#[trigger] q.classes@[j]).links == p.classes@[j].links
    &&& forall|j: int|
        p.own_classes <= j < p.classes@.len() ==> #[trigger] q.classes@[j] == p.classes@[j]
    &&& q.project@ == ProjectView {
        root: if eq_ignore_ascii_case(p.project@.root, name) {
            to
        } else {
            p.project@.root
        },
        ..p.project@
    }
    &&& state_opt(q.state) == match state_opt(p.state) {
        Some(s) => Some(
            StateView {
                images: s.images.map_values(|im: StateImageView| image_renamed(im, name, to)),
                ..s
            },
        ),
        None => None,
    }
}

fn rename_uses(c: &mut Class, name: &str, to: &String)
    ensures
        final(c)@ == (ClassView {
            children: old(c)@.children.map_values(|ch: ChildView| child_renamed(ch, name@, to@)),
            ..old(c)@
        }),
        final(c).links == old(c).links,
{
    let mut k: usize = 0;
    while k < c.children.len()
        invariant
            k <= c.children.len(),
            c.links == old(c).links,
            c.children@.len() == old(c).children@.len(),
            c@ == (ClassView { children: c@.children, ..old(c)@ }),
            forall|j: int| 0 <= j < k ==> (#[trigger] c.children@[j])@ == child_renamed(old(c).children@[j]@, name@, to@),
            forall|j: int| k <= j < c.children@.len() ==> #[trigger] c.children@[j] == old(c).children@[j],
        decreases c.children.len() - k,
    {
        if str_eq_ignore_ascii_case(c.children[k].class_name.as_str(), name) {
            c.children[k].class_name = to.clone();
        }
        k = k + 1;
    }
    assert(c@.children =~= old(c)@.children.map_values(|ch: ChildView| child_renamed(ch, name@, to@)));
}

/// Renames the own image `name` to `to` (trimmed by the caller; not
/// empty), and every use of it. Errors: `404` when there is no such image,
/// `403` for an image of a library, `409` when another image has the name
/// `to`; then nothing changes.
pub fn rename_class(p: &mut OpenProject, name: &str, to: String) -> (r: Result<(), (&'static str, String)>)
    requires
        old(p).own_classes <= old(p).classes@.len(),
    ensures
        ({
            let cs = classes_view(old(p).classes@);
            let i = class_index(cs, name@);
            if i >= cs.len() {
                r matches Err(e) && e.0 == "404 Not Found" && e.1@ == "нет такого имиджа"@
                    && *final(p) == *old(p)
            } else if i >= old(p).own_classes {
                r matches Err(e) && e.0 == "403 Forbidden" && e.1@
                    == "библиотечный имидж не переименовывается"@ && *final(p) == *old(p)
            } else if !eq_ignore_ascii_case(to@, name@) && class_index(cs, to@) < cs.len() {
                r matches Err(e) && e.0 == "409 Conflict" && e.1@ == "имидж с таким именем уже есть"@
                    && *final(p) == *old(p)
            } else {
                r is Ok && renamed(*old(p), i, name@, to@, *final(p))
            }
        }),
{
    let i = find_class(&p.classes, name);
    if i >= p.classes.len() {
        return Err(("404 Not Found", "нет такого имиджа".to_string()));
    }
    if i >= p.own_classes {
        return Err(("403 Forbidden", "библиотечный имидж не переименовывается".to_string()));
    }
    if !str_eq_ignore_ascii_case(to.as_str(), name) && find_class(&p.classes, to.as_str()) < p.classes.len() {
        return Err(("409 Conflict", "имидж с таким именем уже есть".to_string()));
    }
    let ghost old_cs = classes_view(p.classes@);
    let ghost own = p.own_classes as int;
    let mut j: usize = 0;
    while j < p.own_classes
        invariant
            own == p.own_classes,
            own <= p.classes@.len(),
            old_cs == classes_view(old(p).classes@),
            old_cs.len() == p.classes@.len(),
            i < own,
            j <= own,
            p.project == old(p).project,
            p.state == old(p).state,
            p.own_classes == old(p).own_classes,
            p.classes@.len() == old(p).classes@.len(),
            forall|k: int|
                0 <= k < p.classes@.len() ==> (#[trigger] p.classes@[k]).links == old(p).classes@[k].links,
            forall|k: int|
                own <= k < p.classes@.len() ==> #[trigger] p.classes@[k] == old(p).classes@[k],
            forall|k: int|
                #![trigger p.classes@[k]]
                0 <= k < old_cs.len() ==> p.classes@[k]@ == if k < j {
                    ClassView {
                        name: if k == i {
                            to@
                        } else {
                            old_cs[k].name
                        },
                        children: old_cs[k].children.map_values(|ch: ChildView| child_renamed(ch, name@, to@)),
                        ..old_cs[k]
                    }
                } else {
                    old_cs[k]
                },
        decreases own - j,
    {
        rename_uses(&mut p.classes[j], name, &to);
        if j == i {
            p.classes[j].name = to.clone();
        }
        j = j + 1;
    }
    assert(classes_view(p.classes@) =~= Seq::new(old_cs.len(), |k: int| p.classes@[k]@));
    if str_eq_ignore_ascii_case(p.project.root.as_str(), name) {
        p.project.root = to.clone();
    }
    match &mut p.state {
        Some(st) => {
            let ghost old_st = st@;
            let mut k: usize = 0;
            while k < st.images.len()
                invariant
                    k <= st.images.len(),
                    st.images@.len() == old_st.images.len(),
                    st.root@ == old_st.root,
                    forall|m: int|
                        #![trigger st.images@[m]]
                        0 <= m < old_st.images.len() ==> st.images@[m]@ == if m < k {
                            image_renamed(old_st.images[m], name@, to@)
                        } else {
                            old_st.images[m]
                        },
                decreases st.images.len() - k,
            {
                if str_eq_ignore_ascii_case(st.images[k].class_name.as_str(), name) {
                    st.images[k].class_name = to.clone();
                }
                k = k + 1;
            }
            assert(st@.images =~= old_st.images.map_values(|im: StateImageView| image_renamed(im, name@, to@)));
        },
        None => {},
    }
    Ok(())
}

/// Some block of the image uses the image `name`.
pub open spec fn uses(c: ClassView, name: Seq<char>) -> bool {
    exists|k: int| 0 <= k < c.children.len() && eq_ignore_ascii_case((#[trigger] c.children[k]).class_name, name)
}

/// The names of the first `n` images that use the image `name`, in order.
pub open spec fn users(cs: Seq<ClassView>, n: int, name: Seq<char>) -> Seq<Seq<char>>
    decreases n,
{
    if n <= 0 {
        Seq::empty()
    } else {
        let r = users(cs, n - 1, name);
        if uses(cs[n - 1], name) {
            r.push(cs[n - 1].name)
        } else {
            r
        }
    }
}

/// Names joined by `, `.
pub open spec fn joined(names: Seq<Seq<char>>) -> Seq<char>
    decreases names.len(),
{
    if names.len() == 0 {
        Seq::empty()
    } else if names.len() == 1 {
        names[0]
    } else {
        joined(names.drop_last()) + ", "@ + names.last()
    }
}

fn class_uses(c: &Class, name: &str) -> (b: bool)
    ensures
        b == uses(c@, name@),
{
    let mut k: usize = 0;
    while k < c.children.len()
        invariant
            k <= c.children.len(),
            forall|m: int| 0 <= m < k ==> !eq_ignore_ascii_case((#[trigger] c@.children[m]).class_name, name@),
        decreases c.children.len() - k,
    {
        assert(c@.children[k as int] == c.children@[k as int]@);
        if str_eq_ignore_ascii_case(c.children[k].class_name.as_str(), name) {
            return true;
        }
        k = k + 1;
    }
    false
}

/// Deletes the own image `name`. Errors: `404` when there is no such
/// image, `403` for an image of a library, `409` for the root image and
/// for an image that blocks of own images use (the message names them);
/// then nothing changes.
pub fn delete_class(p: &mut OpenProject, name: &str) -> (r: Result<(), (&'static str, String)>)
    requires
        old(p).own_classes <= old(p).classes@.len(),
    ensures
        ({
            let cs = classes_view(old(p).classes@);
            let i = class_index(cs, name@);
            let us = users(cs, old(p).own_classes as int, name@);
            if i >= cs.len() {
                r matches Err(e) && e.0 == "404 Not Found" && e.1@ == "нет такого имиджа"@
                    && *final(p) == *old(p)
            } else if i >= old(p).own_classes {
                r matches Err(e) && e.0 == "403 Forbidden" && e.1@ == "библиотечный имидж не удаляется"@
                    && *final(p) == *old(p)
            } else if eq_ignore_ascii_case(old(p).project@.root, name@) {
                r matches Err(e) && e.0 == "409 Conflict" && e.1@ == "корневой имидж удалить нельзя"@
                    && *final(p) == *old(p)
            } else if us.len() > 0 {
                r matches Err(e) && e.0 == "409 Conflict" && e.1@ == "имидж используется на схемах: "@
                    + joined(us) && *final(p) == *old(p)
            } else {
                &&& r is Ok
                &&& final(p).classes@ == old(p).classes@.remove(i)
                &&& final(p).own_classes == old(p).own_classes - 1
                &&& final(p).project == old(p).project
                &&& final(p).state == old(p).state
            }
        }),
{
    let i = find_class(&p.classes, name);
    if i >= p.classes.len() {
        return Err(("404 Not Found", "нет такого имиджа".to_string()));
    }
    if i >= p.own_classes {
        return Err(("403 Forbidden", "библиотечный имидж не удаляется".to_string()));
    }
    if str_eq_ignore_ascii_case(p.project.root.as_str(), name) {
        return Err(("409 Conflict", "корневой имидж удалить нельзя".to_string()));
    }
    let ghost cs = classes_view(p.classes@);
    let mut msg = String::new();
    let mut count: usize = 0;
    let mut j: usize = 0;
    while j < p.own_classes
        invariant
            cs == classes_view(p.classes@),
            cs.len() == p.classes@.len(),
            p.own_classes <= p.classes@.len(),
            j <= p.own_classes,
            count == users(cs, j as int, name@).len(),
            count <= j,
            msg@ == joined(users(cs, j as int, name@)),
        decreases p.own_classes - j,
    {
        assert(cs[j as int] == p.classes@[j as int]@);
        if class_uses(&p.classes[j], name) {
            if count > 0 {
                msg.append(", ");
            }
            msg.append(p.classes[j].name.as_str());
            count = count + 1;
            let ghost us = users(cs, j + 1, name@);
            assert(us.drop_last() == users(cs, j as int, name@));
            assert(msg@ =~= joined(us));
        }
        j = j + 1;
    }
    if count > 0 {
        let mut e = String::new();
        e.append("имидж используется на схемах: ");
        e.append(msg.as_str());
        return Err(("409 Conflict", e));
    }
    p.classes.remove(i);
    p.own_classes = p.own_classes - 1;
    Ok(())
}

/// The properties other than those whose key is `key` (ASCII case aside),
/// in their order.
pub open spec fn properties_without(ps: Seq<Property>, key: Seq<char>) -> Seq<Property>
    decreases ps.len(),
{
    if ps.len() == 0 {
        ps
    } else {
        let r = properties_without(ps.drop_last(), key);
        if eq_ignore_ascii_case(ps.last().key@, key) {
            r
        } else {
            r.push(ps.last())
        }
    }
}

/// Sets the property `key` of the project: every property of that key
/// (ASCII case aside) goes, and the new value, if any, is added at the end.
pub fn set_property(p: &mut Project, key: String, value: Option<PropertyValue>)
    ensures
        final(p).root == old(p).root,
        final(p).variables == old(p).variables,
        final(p).properties@ == match value {
            Some(v) => properties_without(old(p).properties@, key@).push(Property { key, value: v }),
            None => properties_without(old(p).properties@, key@),
        },
{
    let ghost op = p.properties@;
    let mut rest: Vec<Property> = Vec::new();
    std::mem::swap(&mut rest, &mut p.properties);
    let mut kept: Vec<Property> = Vec::new();
    let ghost mut k: int = 0;
    while rest.len() > 0
        invariant
            0 <= k <= op.len(),
            rest@ == op.subrange(k, op.len() as int),
            kept@ == properties_without(op.take(k), key@),
        decreases rest.len(),
    {
        let x = rest.remove(0);
        proof {
            assert(x == op[k]);
            assert(op.take(k + 1).drop_last() =~= op.take(k));
            assert(op.take(k + 1).last() == op[k]);
            k = k + 1;
        }
        if !str_eq_ignore_ascii_case(x.key.as_str(), key.as_str()) {
            kept.push(x);
        }
        assert(rest@ =~= op.subrange(k, op.len() as int));
    }
    assert(op.take(op.len() as int) =~= op);
    match value {
        Some(v) => kept.push(Property { key, value: v }),
        None => {},
    }
    p.properties = kept;
}

/// `str::lines` from `i` on: the texts between line feeds, a `\r` before a
/// line feed dropped; nothing after a line feed that ends the text.
pub open spec fn lines_from(s: Seq<char>, i: int) -> Seq<Seq<char>>
    decreases s.len() - i,
{
    if i < 0 || i >= s.len() {
        Seq::empty()
    } else {
        let e = field_end(s, i, '\n');
        let raw = s.subrange(i, e);
        let line = if e < s.len() && raw.len() > 0 && raw.last() == '\r' {
            raw.drop_last()
        } else {
            raw
        };
        if e < s.len() {
            proof {
                lemma_field_end(s, i, '\n');
            }
            seq![line] + lines_from(s, e + 1)
        } else {
            seq![line]
        }
    }
}

/// `str::split('\t')` from `i` on: the fields between tabs.
pub open spec fn fields_from(t: Seq<char>, i: int) -> Seq<Seq<char>>
    decreases t.len() - i,
{
    let e = field_end(t, i, '\t');
    if i < 0 || i > t.len() {
        Seq::empty()
    } else if e < t.len() && e >= i {
        seq![t.subrange(i, e)] + fields_from(t, e + 1)
    } else {
        seq![t.subrange(i, t.len() as int)]
    }
}

pub open spec fn field_or(f: Seq<Seq<char>>, k: int, d: Seq<char>) -> Seq<char> {
    if k < f.len() {
        f[k]
    } else {
        d
    }
}

/// The flags of a variable: the fifth field when it is a number that fits
/// 32 bits, else `0x20000`.
pub open spec fn flags_field(f: Seq<Seq<char>>) -> u32 {
    if f.len() > 4 {
        match unsigned_text(f[4]) {
            Some(n) => if n <= u32::MAX {
                n as u32
            } else {
                0x20000u32
            },
            None => 0x20000u32,
        }
    } else {
        0x20000u32
    }
}

/// A variable from a line `name\ttype\tdefault\tdescription\tflags`;
/// missing fields take `FLOAT`, empty texts and the flags `0x20000`.
pub open spec fn var_of_line(line: Seq<char>, v: Variable) -> bool {
    let f = fields_from(line, 0);
    &&& v.name@ == field_or(f, 0, ""@)
    &&& v.var_type@ == field_or(f, 1, "FLOAT"@)
    &&& v.default@ == field_or(f, 2, ""@)
    &&& v.description@ == field_or(f, 3, ""@)
    &&& v.flags == flags_field(f)
}

/// The lines of a text that hold more than white space.
pub open spec fn filled_lines(ls: Seq<Seq<char>>) -> Seq<Seq<char>>
    decreases ls.len(),
{
    if ls.len() == 0 {
        ls
    } else {
        let r = filled_lines(ls.drop_last());
        if trim_ws(ls.last()).len() > 0 {
            r.push(ls.last())
        } else {
            r
        }
    }
}

fn field_end_of(c: &Vec<char>, i: usize, sep: char) -> (e: usize)
    requires
        i <= c@.len(),
    ensures
        e == field_end(c@, i as int, sep),
        i <= e <= c@.len(),
{
    proof {
        lemma_field_end(c@, i as int, sep);
    }
    let mut e = i;
    while e < c.len() && c[e] != sep
        invariant
            i <= e <= c@.len(),
            field_end(c@, i as int, sep) == field_end(c@, e as int, sep),
        decreases c.len() - e,
    {
        e = e + 1;
    }
    e
}

fn fields_of(t: &Vec<char>) -> (r: Vec<Vec<char>>)
    ensures
        r@.map_values(|x: Vec<char>| x@) == fields_from(t@, 0),
{
    let mut r: Vec<Vec<char>> = Vec::new();
    let mut i: usize = 0;
    let ghost mut acc: Seq<Seq<char>> = Seq::empty();
    loop
        invariant
            i <= t@.len(),
            r@.map_values(|x: Vec<char>| x@) + fields_from(t@, i as int) == fields_from(t@, 0),
        decreases t@.len() - i,
    {
        let e = field_end_of(t, i, '\t');
        let ghost before = r@;
        r.push(sub_chars(t, i, e));
        assert(r@.map_values(|x: Vec<char>| x@) =~= before.map_values(|x: Vec<char>| x@).push(t@.subrange(i as int, e as int)));
        if e < t.len() {
            assert(fields_from(t@, i as int) == seq![t@.subrange(i as int, e as int)] + fields_from(t@, e + 1));
            assert(r@.map_values(|x: Vec<char>| x@) + fields_from(t@, e + 1) =~= before.map_values(|x: Vec<char>| x@) + fields_from(t@, i as int));
            i = e + 1;
        } else {
            assert(fields_from(t@, i as int) == seq![t@.subrange(i as int, t@.len() as int)]);
            assert(r@.map_values(|x: Vec<char>| x@) =~= before.map_values(|x: Vec<char>| x@) + fields_from(t@, i as int));
            return r;
        }
    }
}

fn var_from_line(line: &Vec<char>) -> (v: Variable)
    ensures
        var_of_line(line@, v),
{
    let f = fields_of(line);
    let ghost fv = f@.map_values(|x: Vec<char>| x@);
    proof {
        reveal_strlit("");
        reveal_strlit("FLOAT");
    }
    let name = if f.len() > 0 { string_of_chars(&f[0]) } else { String::new() };
    let var_type = if f.len() > 1 { string_of_chars(&f[1]) } else { "FLOAT".to_string() };
    let default = if f.len() > 2 { string_of_chars(&f[2]) } else { String::new() };
    let description = if f.len() > 3 { string_of_chars(&f[3]) } else { String::new() };
    let mut flags: u32 = 0x20000;
    if f.len() > 4 {
        let t = string_of_chars(&f[4]);
        match parse_u64(t.as_str()) {
            Some(n) => {
                if n <= 0xFFFF_FFFF {
                    flags = n as u32;
                }
            },
            None => {},
        }
    }
    assert(name@ =~= field_or(fv, 0, ""@));
    assert(default@ =~= field_or(fv, 2, ""@));
    assert(description@ =~= field_or(fv, 3, ""@));
    Variable { name, var_type, default, description, flags }
}

/// The variables of an image from the text the editor sends: one line for
/// each variable with more than white space in it (see `var_of_line`).
pub fn vars_from_lines(body: &str) -> (r: Vec<Variable>)
    ensures
        r@.len() == filled_lines(lines_from(body@, 0)).len(),
        forall|k: int| 0 <= k < r@.len() ==> var_of_line(filled_lines(lines_from(body@, 0))[k], #[trigger] r@[k]),
{
    let c = crate::text::chars_of(body);
    let mut out: Vec<Variable> = Vec::new();
    let ghost mut seen: Seq<Seq<char>> = Seq::empty();
    let mut i: usize = 0;
    while i < c.len()
        invariant
            c@ == body@,
            i <= c@.len(),
            seen + lines_from(c@, i as int) == lines_from(c@, 0),
            out@.len() == filled_lines(seen).len(),
            forall|k: int| 0 <= k < out@.len() ==> var_of_line(filled_lines(seen)[k], #[trigger] out@[k]),
        decreases c@.len() - i,
    {
        let e = field_end_of(&c, i, '\n');
        let line = if e < c.len() && e > i && c[e - 1] == '\r' {
            sub_chars(&c, i, e - 1)
        } else {
            sub_chars(&c, i, e)
        };
        proof {
            let raw = c@.subrange(i as int, e as int);
            if e < c@.len() && e > i && c@[e - 1] == '\r' {
                assert(raw.drop_last() =~= c@.subrange(i as int, e - 1));
            }
        }
        let ghost old_seen = seen;
        proof {
            seen = seen.push(line@);
            assert(seen.drop_last() == old_seen);
        }
        let t = trim_chars(&line);
        if t.len() > 0 {
            let v = var_from_line(&line);
            out.push(v);
        }
        if e < c.len() {
            assert(lines_from(c@, i as int) == seq![line@] + lines_from(c@, e + 1));
            assert(seen + lines_from(c@, e + 1) =~= old_seen + lines_from(c@, i as int));
            i = e + 1;
        } else {
            assert(lines_from(c@, i as int) == seq![line@]);
            assert(lines_from(c@, c@.len() as int) == Seq::<Seq<char>>::empty());
            assert(seen + lines_from(c@, c@.len() as int) =~= old_seen + lines_from(c@, i as int));
            i = c.len();
        }
    }
    assert(seen =~= lines_from(c@, 0));
    out
}

/// Sets the description and the flags of an image where they are given;
/// flags are taken when their text is a number that fits 32 bits.
pub fn set_class_props(c: &mut Class, description: Option<String>, flags: Option<&str>)
    ensures
        final(c)@ == (ClassView {
            description: match description {
                Some(d) => d@,
                None => old(c)@.description,
            },
            flags: match flags {
                Some(t) => match unsigned_text(t@) {
                    Some(n) => if n <= u32::MAX {
                        Some(n as u32)
                    } else {
                        old(c)@.flags
                    },
                    None => old(c)@.flags,
                },
                None => old(c)@.flags,
            },
            ..old(c)@
        }),
{
    match description {
        Some(d) => c.description = d,
        None => {},
    }
    match flags {
        Some(t) => match parse_u64(t) {
            Some(n) => {
                if n <= 0xFFFF_FFFF {
                    c.flags = Some(n as u32);
                }
            },
            None => {},
        },
        None => {},
    }
}

/// Adds an empty own image named `name` (trimmed), after the other own
/// images. Errors: `400` for a name of white space only, `409` when an
/// image has that name already.
pub fn new_class(p: &mut OpenProject, name: &str) -> (r: Result<(), (&'static str, String)>)
    requires
        old(p).own_classes <= old(p).classes@.len(),
    ensures
        ({
            let t = trim_ws(name@);
            let cs = classes_view(old(p).classes@);
            if t.len() == 0 {
                r matches Err(e) && e.0 == "400 Bad Request" && e.1@ == "нужно имя"@ && *final(p) == *old(p)
            } else if class_index(cs, t) < cs.len() {
                r matches Err(e) && e.0 == "409 Conflict" && e.1@ == "имидж с таким именем уже есть"@
                    && *final(p) == *old(p)
            } else {
                &&& r is Ok
                &&& final(p).own_classes == old(p).own_classes + 1
                &&& final(p).classes@.len() == old(p).classes@.len() + 1
                &&& final(p).classes@.take(old(p).own_classes as int) == old(p).classes@.take(old(p).own_classes as int)
                &&& final(p).classes@.skip(old(p).own_classes + 1) == old(p).classes@.skip(old(p).own_classes as int)
                &&& final(p).classes@[old(p).own_classes as int]@ == crate::formats::cls::empty_class(t, Seq::empty(), 0x3003)
                &&& final(p).project == old(p).project
                &&& final(p).state == old(p).state
            }
        }),
{
    let t = trim_chars(&crate::text::chars_of(name));
    if t.len() == 0 {
        return Err(("400 Bad Request", "нужно имя".to_string()));
    }
    let n = string_of_chars(&t);
    if find_class(&p.classes, n.as_str()) < p.classes.len() {
        return Err(("409 Conflict", "имидж с таким именем уже есть".to_string()));
    }
    let c = Class::new(n, 0x3003);
    let at = p.own_classes;
    p.classes.insert(at, c);
    let len = p.classes.len();
    assert(at < len);
    p.own_classes = at + 1;
    assert(p.classes@.take(at as int) =~= old(p).classes@.take(at as int));
    assert(p.classes@.skip(at + 1) =~= old(p).classes@.skip(at as int));
    Ok(())
}

} // verus!
