//! What the files of the native format hold, as JSON values: the
//! description of an image (`<stem>.strat.json`), the project
//! (`project.json`) and the snapshot of values (`state.json`).

use vstd::prelude::*;
use crate::formats::cls::{Child, Class, ChildView, Link, LinkStyle, Variable, VariableView};
use crate::formats::json::{items_view, json_view, lemma_items_view, members_of_pairs, object, pairs_view as json_pairs, Json, JsonView};
use crate::formats::native::{link_style_json, FORMAT};
use crate::formats::project::{
    Project, ProjectView, ProjectVariable, Property, PropertyValue, PropertyValueView, PropertyView, State,
    StateImageView, StateView, VariableView as ProjectVariableView,
};
use crate::numtext::{decimal, decimal_text};

verus! {

/// A whole number as a JSON number.
pub open spec fn num(n: nat) -> JsonView {
    JsonView::Number(decimal(n))
}

/// A pair of names as `["a","b"]`.
pub open spec fn pair_meta(p: (Seq<char>, Seq<char>)) -> JsonView {
    JsonView::Array(seq![JsonView::Str(p.0), JsonView::Str(p.1)])
}

/// Pairs of names as an array of such pairs.
pub open spec fn pairs_meta(ps: Seq<(Seq<char>, Seq<char>)>) -> JsonView {
    JsonView::Array(Seq::new(ps.len(), |i: int| pair_meta(ps[i])))
}

pub proof fn lemma_items_push(v: Seq<Json>, x: Json)
    ensures
        items_view(v.push(x)) == items_view(v).push(json_view(x)),
{
    assert(v.push(x).subrange(0, v.len() as int) =~= v);
}

/// Pairs of names as an array of two-element arrays of strings.
pub fn pairs_json(pairs: &Vec<(String, String)>) -> (r: Json)
    ensures
        json_view(r) == pairs_meta(crate::formats::cls::pairs_view(pairs@)),
{
    let ghost pv = crate::formats::cls::pairs_view(pairs@);
    let mut out: Vec<Json> = Vec::new();
    let mut i: usize = 0;
    while i < pairs.len()
        invariant
            pv == crate::formats::cls::pairs_view(pairs@),
            pv.len() == pairs@.len(),
            i <= pairs.len(),
            items_view(out@) == Seq::new(i as nat, |k: int| pair_meta(pv[k])),
        decreases pairs.len() - i,
    {
        let a = pairs[i].0.clone();
        let b = pairs[i].1.clone();
        let two = vec![Json::Str(a), Json::Str(b)];
        proof {
            lemma_items_view(two@);
            assert(items_view(two@) =~= seq![JsonView::Str(pv[i as int].0), JsonView::Str(pv[i as int].1)]);
            lemma_items_push(out@, Json::Array(two));
        }
        out.push(Json::Array(two));
        i = i + 1;
        assert(items_view(out@) =~= Seq::new(i as nat, |k: int| pair_meta(pv[k])));
    }
    Json::Array(out)
}

/// One variable of an image.
pub open spec fn var_meta(v: VariableView) -> JsonView {
    JsonView::Object(
        members_of_pairs(
            seq![
                ("name"@, JsonView::Str(v.name)),
                ("type"@, JsonView::Str(v.var_type)),
                ("default"@, JsonView::Str(v.default)),
                ("description"@, JsonView::Str(v.description)),
                ("flags"@, num(v.flags as nat)),
            ],
        ),
    )
}

/// One block on the sheet of an image; `x` and `y` are the texts of its
/// coordinates.
pub open spec fn child_meta(c: ChildView, x: Seq<char>, y: Seq<char>) -> JsonView {
    JsonView::Object(
        members_of_pairs(
            seq![
                ("handle"@, num(c.handle as nat)),
                ("class"@, JsonView::Str(c.class_name)),
                ("name"@, JsonView::Str(c.name)),
                ("x"@, JsonView::Number(x)),
                ("y"@, JsonView::Number(y)),
                ("flags"@, num(c.flags as nat)),
            ],
        ),
    )
}

/// The style of a link, as `link_style_json` writes it.
pub open spec fn style_meta(st: LinkStyle) -> JsonView {
    JsonView::Object(
        members_of_pairs(
            seq![
                ("color"@, JsonView::Str(st.color@)),
                ("width"@, num(st.width as nat)),
                ("disabled"@, JsonView::Bool(st.disabled)),
                ("arrows"@, JsonView::Bool(st.arrows)),
                ("layer"@, num(st.layer as nat)),
            ],
        ),
    )
}

/// One link of an image; its style only when it is not the default one.
pub open spec fn link_meta(l: Link) -> JsonView {
    let base = seq![
        ("handle"@, num(l.handle as nat)),
        ("source"@, num(l.source as nat)),
        ("target"@, num(l.target as nat)),
        ("flags"@, num(l.flags as nat)),
        ("vars"@, pairs_meta(crate::formats::cls::pairs_view(l.vars@))),
    ];
    JsonView::Object(
        members_of_pairs(
            if l.style.spec_is_default() {
                base
            } else {
                base.push(("style"@, style_meta(l.style)))
            },
        ),
    )
}

/// The description of an image in `<stem>.strat.json`: its name,
/// description, variables, blocks and links, then the flags, the icon and
/// the time stamp where it has them. `coords` holds the texts of the
/// coordinates of each block.
pub open spec fn class_meta_of(c: Class, coords: Seq<(Seq<char>, Seq<char>)>) -> JsonView {
    let cv = c@;
    let base = seq![
        ("name"@, JsonView::Str(cv.name)),
        ("description"@, JsonView::Str(cv.description)),
        ("vars"@, JsonView::Array(Seq::new(cv.vars.len(), |i: int| var_meta(cv.vars[i])))),
        (
            "children"@,
            JsonView::Array(
                Seq::new(
                    cv.children.len(),
                    |i: int| child_meta(cv.children[i], coords[i].0, coords[i].1),
                ),
            ),
        ),
        ("links"@, JsonView::Array(Seq::new(c.links@.len(), |i: int| link_meta(c.links@[i])))),
    ];
    let a = match cv.flags {
        Some(f) => base.push(("flags"@, num(f as nat))),
        None => base,
    };
    let b = match cv.icon_file {
        Some(f) => a.push(("iconFile"@, JsonView::Str(f))),
        None => a,
    };
    let d = match cv.icon_index {
        Some(i) => b.push(("iconIndex"@, num(i as nat))),
        None => b,
    };
    let e = match cv.timestamp {
        Some(t) => d.push(("timestamp"@, num(t as nat))),
        None => d,
    };
    JsonView::Object(members_of_pairs(e))
}

fn var_json(v: &Variable) -> (r: Json)
    ensures
        json_view(r) == var_meta(v@),
{
    let pairs = vec![
        ("name", Json::Str(v.name.clone())),
        ("type", Json::Str(v.var_type.clone())),
        ("default", Json::Str(v.default.clone())),
        ("description", Json::Str(v.description.clone())),
        ("flags", Json::Number(decimal_text(v.flags as u64))),
    ];
    assert(json_pairs(pairs@) =~= seq![
        ("name"@, JsonView::Str(v.name@)),
        ("type"@, JsonView::Str(v.var_type@)),
        ("default"@, JsonView::Str(v.default@)),
        ("description"@, JsonView::Str(v.description@)),
        ("flags"@, num(v.flags as nat)),
    ]);
    object(pairs)
}

fn child_json(c: &Child, x: &String, y: &String) -> (r: Json)
    ensures
        json_view(r) == child_meta(c@, x@, y@),
{
    let pairs = vec![
        ("handle", Json::Number(decimal_text(c.handle as u64))),
        ("class", Json::Str(c.class_name.clone())),
        ("name", Json::Str(c.name.clone())),
        ("x", Json::Number(x.clone())),
        ("y", Json::Number(y.clone())),
        ("flags", Json::Number(decimal_text(c.flags as u64))),
    ];
    assert(json_pairs(pairs@) =~= seq![
        ("handle"@, num(c.handle as nat)),
        ("class"@, JsonView::Str(c.class_name@)),
        ("name"@, JsonView::Str(c.name@)),
        ("x"@, JsonView::Number(x@)),
        ("y"@, JsonView::Number(y@)),
        ("flags"@, num(c.flags as nat)),
    ]);
    object(pairs)
}

fn link_json(l: &Link) -> (r: Json)
    ensures
        json_view(r) == link_meta(*l),
{
    let mut pairs = vec![
        ("handle", Json::Number(decimal_text(l.handle as u64))),
        ("source", Json::Number(decimal_text(l.source as u64))),
        ("target", Json::Number(decimal_text(l.target as u64))),
        ("flags", Json::Number(decimal_text(l.flags as u64))),
        ("vars", pairs_json(&l.vars)),
    ];
    let ghost base = seq![
        ("handle"@, num(l.handle as nat)),
        ("source"@, num(l.source as nat)),
        ("target"@, num(l.target as nat)),
        ("flags"@, num(l.flags as nat)),
        ("vars"@, pairs_meta(crate::formats::cls::pairs_view(l.vars@))),
    ];
    assert(json_pairs(pairs@) =~= base);
    if !l.style.is_default() {
        let st = link_style_json(&l.style);
        assert(json_view(st) == style_meta(l.style));
        pairs.push(("style", st));
        assert(json_pairs(pairs@) =~= base.push(("style"@, style_meta(l.style))));
    }
    object(pairs)
}

/// The description of an image as it goes to `<stem>.strat.json`. The
/// coordinates of the blocks come as texts, one pair for each block.
pub fn class_meta(cls: &Class, coords: &Vec<(String, String)>) -> (r: Json)
    requires
        coords.len() == cls.children.len(),
    ensures
        json_view(r) == class_meta_of(*cls, crate::formats::cls::pairs_view(coords@)),
{
    let ghost cv = cls@;
    let ghost co = crate::formats::cls::pairs_view(coords@);
    let mut vars: Vec<Json> = Vec::new();
    let mut i: usize = 0;
    while i < cls.vars.len()
        invariant
            cv == cls@,
            cv.vars.len() == cls.vars@.len(),
            i <= cls.vars.len(),
            items_view(vars@) == Seq::new(i as nat, |k: int| var_meta(cv.vars[k])),
        decreases cls.vars.len() - i,
    {
        let j = var_json(&cls.vars[i]);
        proof {
            lemma_items_push(vars@, j);
            assert(cv.vars[i as int] == cls.vars@[i as int]@);
        }
        vars.push(j);
        i = i + 1;
        assert(items_view(vars@) =~= Seq::new(i as nat, |k: int| var_meta(cv.vars[k])));
    }
    let mut children: Vec<Json> = Vec::new();
    let mut i: usize = 0;
    while i < cls.children.len()
        invariant
            cv == cls@,
            co == crate::formats::cls::pairs_view(coords@),
            cv.children.len() == cls.children@.len(),
            coords.len() == cls.children.len(),
            i <= cls.children.len(),
            items_view(children@) == Seq::new(
                i as nat,
                |k: int| child_meta(cv.children[k], co[k].0, co[k].1),
            ),
        decreases cls.children.len() - i,
    {
        let j = child_json(&cls.children[i], &coords[i].0, &coords[i].1);
        proof {
            lemma_items_push(children@, j);
            assert(cv.children[i as int] == cls.children@[i as int]@);
        }
        children.push(j);
        i = i + 1;
        assert(items_view(children@) =~= Seq::new(
            i as nat,
            |k: int| child_meta(cv.children[k], co[k].0, co[k].1),
        ));
    }
    let mut links: Vec<Json> = Vec::new();
    let mut i: usize = 0;
    while i < cls.links.len()
        invariant
            i <= cls.links.len(),
            items_view(links@) == Seq::new(i as nat, |k: int| link_meta(cls.links@[k])),
        decreases cls.links.len() - i,
    {
        let j = link_json(&cls.links[i]);
        proof {
            lemma_items_push(links@, j);
        }
        links.push(j);
        i = i + 1;
        assert(items_view(links@) =~= Seq::new(i as nat, |k: int| link_meta(cls.links@[k])));
    }
    let mut pairs = vec![
        ("name", Json::Str(cls.name.clone())),
        ("description", Json::Str(cls.description.clone())),
        ("vars", Json::Array(vars)),
        ("children", Json::Array(children)),
        ("links", Json::Array(links)),
    ];
    let ghost base = seq![
        ("name"@, JsonView::Str(cv.name)),
        ("description"@, JsonView::Str(cv.description)),
        ("vars"@, JsonView::Array(Seq::new(cv.vars.len(), |i: int| var_meta(cv.vars[i])))),
        (
            "children"@,
            JsonView::Array(
                Seq::new(
                    cv.children.len(),
                    |i: int| child_meta(cv.children[i], co[i].0, co[i].1),
                ),
            ),
        ),
        ("links"@, JsonView::Array(Seq::new(cls.links@.len(), |i: int| link_meta(cls.links@[i])))),
    ];
    assert(json_pairs(pairs@) =~= base);
    let ghost a = match cv.flags {
        Some(f) => base.push(("flags"@, num(f as nat))),
        None => base,
    };
    if let Some(f) = cls.flags {
        pairs.push(("flags", Json::Number(decimal_text(f as u64))));
    }
    assert(json_pairs(pairs@) =~= a);
    let ghost b = match cv.icon_file {
        Some(f) => a.push(("iconFile"@, JsonView::Str(f))),
        None => a,
    };
    if let Some(f) = &cls.icon_file {
        pairs.push(("iconFile", Json::Str(f.clone())));
    }
    assert(json_pairs(pairs@) =~= b);
    let ghost d = match cv.icon_index {
        Some(i) => b.push(("iconIndex"@, num(i as nat))),
        None => b,
    };
    if let Some(ix) = cls.icon_index {
        pairs.push(("iconIndex", Json::Number(decimal_text(ix as u64))));
    }
    assert(json_pairs(pairs@) =~= d);
    let ghost e = match cv.timestamp {
        Some(t) => d.push(("timestamp"@, num(t as nat))),
        None => d,
    };
    if let Some(t) = cls.timestamp {
        pairs.push(("timestamp", Json::Number(decimal_text(t as u64))));
    }
    assert(json_pairs(pairs@) =~= e);
    object(pairs)
}

/// One property of the project: its key, then its number (`int`) or its
/// text (`text`).
pub open spec fn property_meta(pr: PropertyView) -> JsonView {
    match pr.value {
        PropertyValueView::Int(i) => JsonView::Object(
            members_of_pairs(seq![("key"@, JsonView::Str(pr.key)), ("int"@, num(i as nat))]),
        ),
        PropertyValueView::Text(t) => JsonView::Object(
            members_of_pairs(seq![("key"@, JsonView::Str(pr.key)), ("text"@, JsonView::Str(t))]),
        ),
    }
}

/// One variable of the project; its handle only where it has one.
pub open spec fn project_var_meta(v: ProjectVariableView) -> JsonView {
    let base = seq![
        ("kind"@, num(v.kind as nat)),
        ("flags"@, num(v.flags as nat)),
        ("name"@, JsonView::Str(v.name)),
        ("description"@, JsonView::Str(v.description)),
    ];
    JsonView::Object(
        members_of_pairs(
            match v.handle {
                Some(h) => base.push(("handle"@, num(h as nat))),
                None => base,
            },
        ),
    )
}

/// One image of the project: its name and the stem of its files.
pub open spec fn class_entry_meta(e: (Seq<char>, Seq<char>)) -> JsonView {
    JsonView::Object(members_of_pairs(seq![("name"@, JsonView::Str(e.0)), ("file"@, JsonView::Str(e.1))]))
}

/// `project.json`: the format, the root image, the properties and
/// variables, the images of the project (name and stem) and the folders of
/// libraries inside the project.
pub open spec fn project_meta_of(
    p: ProjectView,
    classes: Seq<(Seq<char>, Seq<char>)>,
    libraries: Seq<Seq<char>>,
) -> JsonView {
    JsonView::Object(
        members_of_pairs(
            seq![
                ("format"@, JsonView::Str(FORMAT@)),
                ("root"@, JsonView::Str(p.root)),
                (
                    "properties"@,
                    JsonView::Array(Seq::new(p.properties.len(), |i: int| property_meta(p.properties[i]))),
                ),
                (
                    "variables"@,
                    JsonView::Array(Seq::new(p.variables.len(), |i: int| project_var_meta(p.variables[i]))),
                ),
                ("classes"@, JsonView::Array(Seq::new(classes.len(), |i: int| class_entry_meta(classes[i])))),
                ("libraries"@, JsonView::Array(Seq::new(libraries.len(), |i: int| JsonView::Str(libraries[i])))),
            ],
        ),
    )
}

fn property_json(pr: &Property) -> (r: Json)
    ensures
        json_view(r) == property_meta(pr@),
{
    match &pr.value {
        PropertyValue::Int(i) => {
            let pairs = vec![("key", Json::Str(pr.key.clone())), ("int", Json::Number(decimal_text(*i as u64)))];
            assert(json_pairs(pairs@) =~= seq![("key"@, JsonView::Str(pr.key@)), ("int"@, num(*i as nat))]);
            object(pairs)
        },
        PropertyValue::Text(t) => {
            let pairs = vec![("key", Json::Str(pr.key.clone())), ("text", Json::Str(t.clone()))];
            assert(json_pairs(pairs@) =~= seq![("key"@, JsonView::Str(pr.key@)), ("text"@, JsonView::Str(t@))]);
            object(pairs)
        },
    }
}

fn project_var_json(v: &ProjectVariable) -> (r: Json)
    ensures
        json_view(r) == project_var_meta(v@),
{
    let mut pairs = vec![
        ("kind", Json::Number(decimal_text(v.kind as u64))),
        ("flags", Json::Number(decimal_text(v.flags as u64))),
        ("name", Json::Str(v.name.clone())),
        ("description", Json::Str(v.description.clone())),
    ];
    let ghost base = seq![
        ("kind"@, num(v.kind as nat)),
        ("flags"@, num(v.flags as nat)),
        ("name"@, JsonView::Str(v.name@)),
        ("description"@, JsonView::Str(v.description@)),
    ];
    assert(json_pairs(pairs@) =~= base);
    if let Some(h) = v.handle {
        pairs.push(("handle", Json::Number(decimal_text(h as u64))));
        assert(json_pairs(pairs@) =~= base.push(("handle"@, num(h as nat))));
    }
    object(pairs)
}

/// The content of `project.json`. `classes` holds the name and the stem of
/// each image of the project, `libraries` the folders of libraries inside
/// the project, written with `/`.
pub fn project_meta(p: &Project, classes: &Vec<(String, String)>, libraries: &Vec<String>) -> (r: Json)
    ensures
        json_view(r) == project_meta_of(
            p@,
            crate::formats::cls::pairs_view(classes@),
            libraries@.map_values(|l: String| l@),
        ),
{
    let ghost pv = p@;
    let mut props: Vec<Json> = Vec::new();
    let mut i: usize = 0;
    while i < p.properties.len()
        invariant
            pv == p@,
            pv.properties.len() == p.properties@.len(),
            i <= p.properties.len(),
            items_view(props@) == Seq::new(i as nat, |k: int| property_meta(pv.properties[k])),
        decreases p.properties.len() - i,
    {
        let j = property_json(&p.properties[i]);
        proof {
            lemma_items_push(props@, j);
        }
        props.push(j);
        i = i + 1;
        assert(items_view(props@) =~= Seq::new(i as nat, |k: int| property_meta(pv.properties[k])));
    }
    let mut vars: Vec<Json> = Vec::new();
    let mut i: usize = 0;
    while i < p.variables.len()
        invariant
            pv == p@,
            pv.variables.len() == p.variables@.len(),
            i <= p.variables.len(),
            items_view(vars@) == Seq::new(i as nat, |k: int| project_var_meta(pv.variables[k])),
        decreases p.variables.len() - i,
    {
        let j = project_var_json(&p.variables[i]);
        proof {
            lemma_items_push(vars@, j);
        }
        vars.push(j);
        i = i + 1;
        assert(items_view(vars@) =~= Seq::new(i as nat, |k: int| project_var_meta(pv.variables[k])));
    }
    let ghost cs = crate::formats::cls::pairs_view(classes@);
    let mut list: Vec<Json> = Vec::new();
    let mut i: usize = 0;
    while i < classes.len()
        invariant
            cs == crate::formats::cls::pairs_view(classes@),
            cs.len() == classes@.len(),
            i <= classes.len(),
            items_view(list@) == Seq::new(i as nat, |k: int| class_entry_meta(cs[k])),
        decreases classes.len() - i,
    {
        let pairs = vec![("name", Json::Str(classes[i].0.clone())), ("file", Json::Str(classes[i].1.clone()))];
        assert(json_pairs(pairs@) =~= seq![("name"@, JsonView::Str(cs[i as int].0)), ("file"@, JsonView::Str(cs[i as int].1))]);
        let j = object(pairs);
        proof {
            lemma_items_push(list@, j);
        }
        list.push(j);
        i = i + 1;
        assert(items_view(list@) =~= Seq::new(i as nat, |k: int| class_entry_meta(cs[k])));
    }
    let ghost ls = libraries@.map_values(|l: String| l@);
    let mut libs: Vec<Json> = Vec::new();
    let mut i: usize = 0;
    while i < libraries.len()
        invariant
            ls == libraries@.map_values(|l: String| l@),
            i <= libraries.len(),
            items_view(libs@) == Seq::new(i as nat, |k: int| JsonView::Str(ls[k])),
        decreases libraries.len() - i,
    {
        let j = Json::Str(libraries[i].clone());
        proof {
            lemma_items_push(libs@, j);
        }
        libs.push(j);
        i = i + 1;
        assert(items_view(libs@) =~= Seq::new(i as nat, |k: int| JsonView::Str(ls[k])));
    }
    let pairs = vec![
        ("format", Json::Str(String::from_str(FORMAT))),
        ("root", Json::Str(p.root.clone())),
        ("properties", Json::Array(props)),
        ("variables", Json::Array(vars)),
        ("classes", Json::Array(list)),
        ("libraries", Json::Array(libs)),
    ];
    assert(json_pairs(pairs@) =~= seq![
        ("format"@, JsonView::Str(FORMAT@)),
        ("root"@, JsonView::Str(pv.root)),
        ("properties"@, JsonView::Array(Seq::new(pv.properties.len(), |i: int| property_meta(pv.properties[i])))),
        ("variables"@, JsonView::Array(Seq::new(pv.variables.len(), |i: int| project_var_meta(pv.variables[i])))),
        ("classes"@, JsonView::Array(Seq::new(cs.len(), |i: int| class_entry_meta(cs[i])))),
        ("libraries"@, JsonView::Array(Seq::new(ls.len(), |i: int| JsonView::Str(ls[i])))),
    ]);
    object(pairs)
}

/// One image of the snapshot: its class, reference, handle and values.
pub open spec fn state_image_meta(im: StateImageView) -> JsonView {
    JsonView::Object(
        members_of_pairs(
            seq![
                ("class"@, JsonView::Str(im.class_name)),
                ("ref"@, num(im.reference as nat)),
                ("handle"@, num(im.handle as nat)),
                ("vars"@, pairs_meta(im.vars)),
            ],
        ),
    )
}

/// `state.json`: the root image and the images of the snapshot.
pub open spec fn state_meta_of(st: StateView) -> JsonView {
    JsonView::Object(
        members_of_pairs(
            seq![
                ("root"@, JsonView::Str(st.root)),
                ("images"@, JsonView::Array(Seq::new(st.images.len(), |i: int| state_image_meta(st.images[i])))),
            ],
        ),
    )
}

/// The content of `state.json`.
pub fn state_meta(st: &State) -> (r: Json)
    ensures
        json_view(r) == state_meta_of(st@),
{
    let ghost sv = st@;
    let mut images: Vec<Json> = Vec::new();
    let mut i: usize = 0;
    while i < st.images.len()
        invariant
            sv == st@,
            sv.images.len() == st.images@.len(),
            i <= st.images.len(),
            items_view(images@) == Seq::new(i as nat, |k: int| state_image_meta(sv.images[k])),
        decreases st.images.len() - i,
    {
        let im = &st.images[i];
        let pairs = vec![
            ("class", Json::Str(im.class_name.clone())),
            ("ref", Json::Number(decimal_text(im.reference as u64))),
            ("handle", Json::Number(decimal_text(im.handle as u64))),
            ("vars", pairs_json(&im.vars)),
        ];
        assert(sv.images[i as int] == im@);
        assert(crate::formats::cls::pairs_view(im.vars@) == im@.vars);
        assert(json_pairs(pairs@) =~= seq![
            ("class"@, JsonView::Str(im.class_name@)),
            ("ref"@, num(im.reference as nat)),
            ("handle"@, num(im.handle as nat)),
            ("vars"@, pairs_meta(im@.vars)),
        ]);
        let j = object(pairs);
        proof {
            lemma_items_push(images@, j);
        }
        images.push(j);
        i = i + 1;
        assert(items_view(images@) =~= Seq::new(i as nat, |k: int| state_image_meta(sv.images[k])));
    }
    let pairs = vec![("root", Json::Str(st.root.clone())), ("images", Json::Array(images))];
    assert(json_pairs(pairs@) =~= seq![
        ("root"@, JsonView::Str(sv.root)),
        ("images"@, JsonView::Array(Seq::new(sv.images.len(), |i: int| state_image_meta(sv.images[i])))),
    ]);
    object(pairs)
}

/// A text with each `\r\n` turned into `\n`, read from the front.
pub open spec fn lf_only(s: Seq<char>) -> Seq<char>
    decreases s.len(),
{
    if s.len() == 0 {
        s
    } else if s.len() >= 2 && s[0] == '\r' && s[1] == '\n' {
        seq!['\n'] + lf_only(s.subrange(2, s.len() as int))
    } else {
        seq![s[0]] + lf_only(s.drop_first())
    }
}

/// The text of an image as it goes to `<stem>.strat`: line ends `\r\n`
/// become `\n`, so that the file reads and compares as code.
pub fn class_text_file(text: &str) -> (r: String)
    ensures
        r@ == lf_only(text@),
{
    let c = crate::text::chars_of(text);
    let mut out = String::new();
    let mut i: usize = 0;
    assert(c@.subrange(0, c@.len() as int) =~= c@);
    assert(out@ + lf_only(c@) =~= lf_only(c@));
    while i < c.len()
        invariant
            c@ == text@,
            i <= c.len(),
            out@ + lf_only(c@.subrange(i as int, c@.len() as int)) == lf_only(c@),
        decreases c.len() - i,
    {
        let ghost rest = c@.subrange(i as int, c@.len() as int);
        if i + 1 < c.len() && c[i] == '\r' && c[i + 1] == '\n' {
            assert(rest.subrange(2, rest.len() as int) =~= c@.subrange(i + 2, c@.len() as int));
            crate::stdx::string_push(&mut out, '\n');
            i = i + 2;
        } else {
            assert(rest.drop_first() =~= c@.subrange(i + 1, c@.len() as int));
            crate::stdx::string_push(&mut out, c[i]);
            i = i + 1;
        }
    }
    assert(c@.subrange(c@.len() as int, c@.len() as int) =~= Seq::<char>::empty());
    assert(out@ + Seq::<char>::empty() =~= out@);
    out
}

} // verus!
