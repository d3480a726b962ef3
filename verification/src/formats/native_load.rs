//! Reading the description of an image (`<stem>.strat.json`) back into an
//! image. Missing or mistyped members take their defaults. Numbers are read
//! as the JSON reader of Stratum Modern reads them, through `f64`: a whole
//! number written in digits is read here; any other number text is handed
//! to the caller's readers, `whole` (the number truncated toward zero, 0
//! below zero, saturated at `u64::MAX`) and `bits` (the bits of the `f64`).

use vstd::prelude::*;
use crate::formats::cls::{Child, Class, Link, LinkStyle, Variable};
use crate::formats::native::FORMAT;
use crate::formats::project::{Project, ProjectVariable, Property, PropertyValue, State, StateImage};
use crate::formats::json::{items_view, json_view, lemma_items_view, member_of, Json, JsonView};
use crate::stdx::{parse_u64, unsigned_text};

verus! {

/// The member `k` of an object.
pub open spec fn member(v: JsonView, k: Seq<char>) -> Option<JsonView> {
    match v {
        JsonView::Object(ms) => member_of(ms, k),
        _ => None,
    }
}

/// The string member `k`, or `d`.
pub open spec fn text_or(v: JsonView, k: Seq<char>, d: Seq<char>) -> Seq<char> {
    match member(v, k) {
        Some(JsonView::Str(s)) => s,
        _ => d,
    }
}

/// The string member `k`, if there is one.
pub open spec fn text_of(v: JsonView, k: Seq<char>) -> Option<Seq<char>> {
    match member(v, k) {
        Some(JsonView::Str(s)) => Some(s),
        _ => None,
    }
}

/// The boolean member `k`, or `false`.
pub open spec fn flag_of(v: JsonView, k: Seq<char>) -> bool {
    match member(v, k) {
        Some(JsonView::Bool(b)) => b,
        _ => false,
    }
}

/// The text of the number member `k`, if there is one.
pub open spec fn number_of(v: JsonView, k: Seq<char>) -> Option<Seq<char>> {
    match member(v, k) {
        Some(JsonView::Number(t)) => Some(t),
        _ => None,
    }
}

/// The items of the array member `k`; none where it is not an array.
pub open spec fn items_of(v: JsonView, k: Seq<char>) -> Seq<JsonView> {
    match member(v, k) {
        Some(JsonView::Array(a)) => a,
        _ => Seq::empty(),
    }
}

/// `r` is the whole number of the number text `t`: the digits themselves
/// where `t` is a whole number in digits that fits 64 bits, else what
/// `whole` gives for `t`.
pub open spec fn whole_read<W: Fn(&str) -> u64>(whole: W, t: Seq<char>, r: u64) -> bool {
    match unsigned_text(t) {
        Some(n) => if n <= u64::MAX {
            r == n
        } else {
            exists|s: &str| s@ == t && call_ensures(whole, (s,), r)
        },
        None => exists|s: &str| s@ == t && call_ensures(whole, (s,), r),
    }
}

/// `r` is the number member `k` cast to a whole number below `max`
/// (saturating), 0 where there is no such member.
pub open spec fn num_read<W: Fn(&str) -> u64>(whole: W, v: JsonView, k: Seq<char>, max: u64, r: u64) -> bool {
    match number_of(v, k) {
        Some(t) => exists|w: u64| whole_read(whole, t, w) && r == if w > max {
            max
        } else {
            w
        },
        None => r == 0,
    }
}

/// `r` is the number member `k` cast like `num_read`, where there is one.
pub open spec fn opt_num_read<W: Fn(&str) -> u64>(whole: W, v: JsonView, k: Seq<char>, max: u64, r: Option<u64>) -> bool {
    match number_of(v, k) {
        Some(t) => exists|w: u64| whole_read(whole, t, w) && r == Some(if w > max {
            max
        } else {
            w
        }),
        None => r is None,
    }
}

/// `r` is the bits of the `f64` of the number member `k`; 0 (the bits of
/// 0.0) where there is none.
pub open spec fn bits_read<B: Fn(&str) -> u64>(bits: B, v: JsonView, k: Seq<char>, r: u64) -> bool {
    match number_of(v, k) {
        Some(t) => exists|s: &str| s@ == t && call_ensures(bits, (s,), r),
        None => r == 0,
    }
}

/// A pair of names from an array whose first two items are strings.
pub open spec fn pair_of(v: JsonView) -> Option<(Seq<char>, Seq<char>)> {
    match v {
        JsonView::Array(a) => if a.len() >= 2 {
            match (a[0], a[1]) {
                (JsonView::Str(x), JsonView::Str(y)) => Some((x, y)),
                _ => None,
            }
        } else {
            None
        },
        _ => None,
    }
}

/// The pairs among the items, in their order; other items are skipped.
pub open spec fn pairs_of(items: Seq<JsonView>) -> Seq<(Seq<char>, Seq<char>)>
    decreases items.len(),
{
    if items.len() == 0 {
        Seq::empty()
    } else {
        let r = pairs_of(items.drop_last());
        match pair_of(items.last()) {
            Some(p) => r.push(p),
            None => r,
        }
    }
}

/// A variable read from its object.
pub open spec fn var_read<W: Fn(&str) -> u64>(whole: W, v: JsonView, x: Variable) -> bool {
    &&& x.name@ == text_or(v, "name"@, ""@)
    &&& x.var_type@ == text_or(v, "type"@, "FLOAT"@)
    &&& x.default@ == text_or(v, "default"@, ""@)
    &&& x.description@ == text_or(v, "description"@, ""@)
    &&& num_read(whole, v, "flags"@, 0xFFFF_FFFF, x.flags as u64)
}

/// A block read from its object.
pub open spec fn child_read<W: Fn(&str) -> u64, B: Fn(&str) -> u64>(whole: W, bits: B, v: JsonView, x: Child) -> bool {
    &&& num_read(whole, v, "handle"@, 0xFFFF, x.handle as u64)
    &&& x.class_name@ == text_or(v, "class"@, ""@)
    &&& x.name@ == text_or(v, "name"@, ""@)
    &&& bits_read(bits, v, "x"@, x.x)
    &&& bits_read(bits, v, "y"@, x.y)
    &&& num_read(whole, v, "flags"@, 0xFF, x.flags as u64)
}

/// A style of a link read from its object; the plain style where the link
/// has none.
pub open spec fn style_read<W: Fn(&str) -> u64>(whole: W, v: Option<JsonView>, st: LinkStyle) -> bool {
    match v {
        Some(s) => {
            &&& st.color@ == text_or(s, "color"@, ""@)
            &&& num_read(whole, s, "width"@, 0xFF, st.width as u64)
            &&& st.disabled == flag_of(s, "disabled"@)
            &&& st.arrows == flag_of(s, "arrows"@)
            &&& num_read(whole, s, "layer"@, 0xFF, st.layer as u64)
        },
        None => st.spec_is_default(),
    }
}

/// A link read from its object.
pub open spec fn link_read<W: Fn(&str) -> u64>(whole: W, v: JsonView, x: Link) -> bool {
    &&& num_read(whole, v, "handle"@, 0xFFFF, x.handle as u64)
    &&& num_read(whole, v, "source"@, 0xFFFF, x.source as u64)
    &&& num_read(whole, v, "target"@, 0xFFFF, x.target as u64)
    &&& num_read(whole, v, "flags"@, 0xFFFF_FFFF, x.flags as u64)
    &&& crate::formats::cls::pairs_view(x.vars@) == pairs_of(items_of(v, "vars"@))
    &&& style_read(whole, member(v, "style"@), x.style)
}

pub open spec fn opt_bytes(o: Option<Vec<u8>>) -> Option<Seq<u8>> {
    match o {
        Some(v) => Some(v@),
        None => None,
    }
}

/// The blobs of an image that lie in files of their own.
pub struct ClassBlobs {
    pub icon: Option<Vec<u8>>,
    pub image: Option<Vec<u8>>,
    pub scheme: Option<Vec<u8>>,
    pub equations: Option<Vec<u8>>,
}

/// The image read from its description `v`, with `stem` as the name where
/// it gives none, `source` the path of the description, `text` the text of
/// the image and `blobs` the blobs of its files.
pub open spec fn class_read<W: Fn(&str) -> u64, B: Fn(&str) -> u64>(
    whole: W,
    bits: B,
    v: JsonView,
    stem: Seq<char>,
    source: Seq<char>,
    text: Seq<char>,
    blobs: ClassBlobs,
    c: Class,
) -> bool {
    let vars = items_of(v, "vars"@);
    let children = items_of(v, "children"@);
    let links = items_of(v, "links"@);
    &&& c.name@ == text_or(v, "name"@, stem)
    &&& c.source@ == source
    &&& c.version == 0x3003
    &&& c.description@ == text_or(v, "description"@, ""@)
    &&& c.text@ == text
    &&& c.vars@.len() == vars.len()
    &&& (forall|i: int| 0 <= i < vars.len() ==> var_read(whole, #[trigger] vars[i], c.vars@[i]))
    &&& c.children@.len() == children.len()
    &&& (forall|i: int| 0 <= i < children.len() ==> child_read(whole, bits, #[trigger] children[i], c.children@[i]))
    &&& c.links@.len() == links.len()
    &&& (forall|i: int| 0 <= i < links.len() ==> link_read(whole, #[trigger] links[i], c.links@[i]))
    &&& crate::formats::cls::str_opt(c.icon_file) == text_of(v, "iconFile"@)
    &&& opt_num_read(whole, v, "iconIndex"@, 0xFFFF, match c.icon_index {
        Some(i) => Some(i as u64),
        None => None,
    })
    &&& opt_bytes(c.icon) == opt_bytes(blobs.icon)
    &&& opt_bytes(c.image) == opt_bytes(blobs.image)
    &&& opt_bytes(c.scheme) == opt_bytes(blobs.scheme)
    &&& c.bytecode is None
    &&& opt_bytes(c.equations) == opt_bytes(blobs.equations)
    &&& opt_num_read(whole, v, "timestamp"@, 0xFFFF_FFFF, match c.timestamp {
        Some(i) => Some(i as u64),
        None => None,
    })
    &&& opt_num_read(whole, v, "flags"@, 0xFFFF_FFFF, match c.flags {
        Some(i) => Some(i as u64),
        None => None,
    })
}

fn number_member<'a>(j: &'a Json, k: &str) -> (r: Option<&'a str>)
    ensures
        match number_of(json_view(*j), k@) {
            Some(t) => r matches Some(s) && s@ == t,
            None => r is None,
        },
{
    match j.get(k) {
        Some(x) => match x {
            Json::Number(t) => Some(t.as_str()),
            _ => None,
        },
        None => None,
    }
}

fn whole_num<W: Fn(&str) -> u64>(t: &str, whole: &W) -> (r: u64)
    requires
        forall|s: &str| #[trigger] whole.requires((s,)),
    ensures
        whole_read(*whole, t@, r),
{
    match parse_u64(t) {
        Some(n) => n,
        None => {
            let r = whole(t);
            assert(call_ensures(*whole, (t,), r));
            r
        },
    }
}

fn num_member<W: Fn(&str) -> u64>(j: &Json, k: &str, max: u64, whole: &W) -> (r: u64)
    requires
        forall|s: &str| #[trigger] whole.requires((s,)),
    ensures
        num_read(*whole, json_view(*j), k@, max, r),
{
    match number_member(j, k) {
        Some(t) => {
            let w = whole_num(t, whole);
            if w > max {
                max
            } else {
                w
            }
        },
        None => 0,
    }
}

fn opt_num_member<W: Fn(&str) -> u64>(j: &Json, k: &str, max: u64, whole: &W) -> (r: Option<u64>)
    requires
        forall|s: &str| #[trigger] whole.requires((s,)),
    ensures
        opt_num_read(*whole, json_view(*j), k@, max, r),
{
    match number_member(j, k) {
        Some(t) => {
            let w = whole_num(t, whole);
            Some(
                if w > max {
                    max
                } else {
                    w
                },
            )
        },
        None => None,
    }
}

fn bits_member<B: Fn(&str) -> u64>(j: &Json, k: &str, bits: &B) -> (r: u64)
    requires
        forall|s: &str| #[trigger] bits.requires((s,)),
    ensures
        bits_read(*bits, json_view(*j), k@, r),
{
    match number_member(j, k) {
        Some(t) => {
            let r = bits(t);
            assert(call_ensures(*bits, (t,), r));
            r
        },
        None => 0,
    }
}

fn items_member<'a>(j: &'a Json, k: &str) -> (r: Option<&'a Vec<Json>>)
    ensures
        match r {
            Some(x) => items_view(x@) == items_of(json_view(*j), k@),
            None => items_of(json_view(*j), k@) == Seq::<JsonView>::empty(),
        },
{
    match j.get(k) {
        Some(x) => x.as_array(),
        None => None,
    }
}

fn pair_from(v: &Json) -> (r: Option<(String, String)>)
    ensures
        match pair_of(json_view(*v)) {
            Some(p) => r matches Some(x) && x.0@ == p.0 && x.1@ == p.1,
            None => r is None,
        },
{
    match v {
        Json::Array(a) => {
            proof {
                lemma_items_view(a@);
            }
            if a.len() >= 2 {
                match (&a[0], &a[1]) {
                    (Json::Str(x), Json::Str(y)) => Some((x.clone(), y.clone())),
                    _ => None,
                }
            } else {
                None
            }
        },
        _ => None,
    }
}

/// The pairs of names of an array of two-element arrays; other items are
/// skipped.
pub fn pairs_from(items: &Vec<Json>) -> (r: Vec<(String, String)>)
    ensures
        crate::formats::cls::pairs_view(r@) == pairs_of(items_view(items@)),
{
    let ghost iv = items_view(items@);
    proof {
        lemma_items_view(items@);
    }
    let mut out: Vec<(String, String)> = Vec::new();
    let mut i: usize = 0;
    while i < items.len()
        invariant
            iv == items_view(items@),
            iv.len() == items@.len(),
            forall|j: int| 0 <= j < items@.len() ==> #[trigger] iv[j] == json_view(items@[j]),
            i <= items.len(),
            crate::formats::cls::pairs_view(out@) == pairs_of(iv.take(i as int)),
        decreases items.len() - i,
    {
        assert(iv.take(i + 1).drop_last() =~= iv.take(i as int));
        assert(iv.take(i + 1).last() == iv[i as int]);
        match pair_from(&items[i]) {
            Some(p) => {
                out.push(p);
                assert(crate::formats::cls::pairs_view(out@) =~= pairs_of(iv.take(i as int)).push(
                    pair_of(iv[i as int]).unwrap(),
                ));
            },
            None => {},
        }
        i = i + 1;
    }
    assert(iv.take(items.len() as int) =~= iv);
    out
}

fn var_from<W: Fn(&str) -> u64>(v: &Json, whole: &W) -> (r: Variable)
    requires
        forall|s: &str| #[trigger] whole.requires((s,)),
    ensures
        var_read(*whole, json_view(*v), r),
{
    let flags = num_member(v, "flags", 0xFFFF_FFFF, whole);
    Variable {
        name: v.str_or("name", ""),
        var_type: v.str_or("type", "FLOAT"),
        default: v.str_or("default", ""),
        description: v.str_or("description", ""),
        flags: flags as u32,
    }
}

fn child_from<W: Fn(&str) -> u64, B: Fn(&str) -> u64>(v: &Json, whole: &W, bits: &B) -> (r: Child)
    requires
        forall|s: &str| #[trigger] whole.requires((s,)),
        forall|s: &str| #[trigger] bits.requires((s,)),
    ensures
        child_read(*whole, *bits, json_view(*v), r),
{
    let handle = num_member(v, "handle", 0xFFFF, whole);
    let flags = num_member(v, "flags", 0xFF, whole);
    Child {
        handle: handle as u16,
        class_name: v.str_or("class", ""),
        name: v.str_or("name", ""),
        x: bits_member(v, "x", bits),
        y: bits_member(v, "y", bits),
        flags: flags as u8,
    }
}

/// The style of a link from its object (`link_style_json` writes it).
pub fn link_style_from<W: Fn(&str) -> u64>(j: &Json, whole: &W) -> (r: LinkStyle)
    requires
        forall|s: &str| #[trigger] whole.requires((s,)),
    ensures
        style_read(*whole, Some(json_view(*j)), r),
{
    let width = num_member(j, "width", 0xFF, whole);
    let layer = num_member(j, "layer", 0xFF, whole);
    let disabled = match j.get("disabled") {
        Some(b) => match b.as_bool() {
            Some(x) => x,
            None => false,
        },
        None => false,
    };
    let arrows = match j.get("arrows") {
        Some(b) => match b.as_bool() {
            Some(x) => x,
            None => false,
        },
        None => false,
    };
    LinkStyle { color: j.str_or("color", ""), width: width as u8, disabled, arrows, layer: layer as u8 }
}

fn link_from<W: Fn(&str) -> u64>(v: &Json, whole: &W) -> (r: Link)
    requires
        forall|s: &str| #[trigger] whole.requires((s,)),
    ensures
        link_read(*whole, json_view(*v), r),
{
    let handle = num_member(v, "handle", 0xFFFF, whole);
    let source = num_member(v, "source", 0xFFFF, whole);
    let target = num_member(v, "target", 0xFFFF, whole);
    let flags = num_member(v, "flags", 0xFFFF_FFFF, whole);
    let vars = match items_member(v, "vars") {
        Some(items) => pairs_from(items),
        None => {
            let e: Vec<(String, String)> = Vec::new();
            assert(crate::formats::cls::pairs_view(e@) =~= Seq::empty());
            e
        },
    };
    let style = match v.get("style") {
        Some(s) => link_style_from(s, whole),
        None => LinkStyle::new(),
    };
    Link { source: source as u16, target: target as u16, handle: handle as u16, flags: flags as u32, vars, style }
}

/// An image from its description `meta` (as `class_meta` writes it), with
/// `stem` as its name where the description gives none, `source` the path
/// of the description, `text` the text of its `.strat` file and `blobs`
/// its other files. Numbers that are not whole numbers in digits are read
/// by `whole` and `bits` (see the head of this module).
pub fn class_from_meta<W: Fn(&str) -> u64, B: Fn(&str) -> u64>(
    meta: &Json,
    stem: &str,
    source: &str,
    text: String,
    blobs: ClassBlobs,
    whole: W,
    bits: B,
) -> (c: Class)
    requires
        forall|s: &str| #[trigger] whole.requires((s,)),
        forall|s: &str| #[trigger] bits.requires((s,)),
    ensures
        class_read(whole, bits, json_view(*meta), stem@, source@, text@, blobs, c),
{
    let ghost v = json_view(*meta);
    let mut vars: Vec<Variable> = Vec::new();
    match items_member(meta, "vars") {
        Some(items) => {
            proof {
                lemma_items_view(items@);
            }
            let mut i: usize = 0;
            while i < items.len()
                invariant
                    items_view(items@) == items_of(v, "vars"@),
                    forall|j: int| 0 <= j < items@.len() ==> #[trigger] items_view(items@)[j] == json_view(items@[j]),
                    items_view(items@).len() == items@.len(),
                    forall|s: &str| #[trigger] whole.requires((s,)),
                    i <= items.len(),
                    vars@.len() == i,
                    forall|j: int| 0 <= j < i ==> var_read(whole, #[trigger] items_of(v, "vars"@)[j], vars@[j]),
                decreases items.len() - i,
            {
                let x = var_from(&items[i], &whole);
                vars.push(x);
                i = i + 1;
            }
        },
        None => {},
    }
    let mut children: Vec<Child> = Vec::new();
    match items_member(meta, "children") {
        Some(items) => {
            proof {
                lemma_items_view(items@);
            }
            let mut i: usize = 0;
            while i < items.len()
                invariant
                    items_view(items@) == items_of(v, "children"@),
                    forall|j: int| 0 <= j < items@.len() ==> #[trigger] items_view(items@)[j] == json_view(items@[j]),
                    items_view(items@).len() == items@.len(),
                    forall|s: &str| #[trigger] whole.requires((s,)),
                    forall|s: &str| #[trigger] bits.requires((s,)),
                    i <= items.len(),
                    children@.len() == i,
                    forall|j: int| 0 <= j < i ==> child_read(whole, bits, #[trigger] items_of(v, "children"@)[j], children@[j]),
                decreases items.len() - i,
            {
                let x = child_from(&items[i], &whole, &bits);
                children.push(x);
                i = i + 1;
            }
        },
        None => {},
    }
    let mut links: Vec<Link> = Vec::new();
    match items_member(meta, "links") {
        Some(items) => {
            proof {
                lemma_items_view(items@);
            }
            let mut i: usize = 0;
            while i < items.len()
                invariant
                    items_view(items@) == items_of(v, "links"@),
                    forall|j: int| 0 <= j < items@.len() ==> #[trigger] items_view(items@)[j] == json_view(items@[j]),
                    items_view(items@).len() == items@.len(),
                    forall|s: &str| #[trigger] whole.requires((s,)),
                    i <= items.len(),
                    links@.len() == i,
                    forall|j: int| 0 <= j < i ==> link_read(whole, #[trigger] items_of(v, "links"@)[j], links@[j]),
                decreases items.len() - i,
            {
                let x = link_from(&items[i], &whole);
                links.push(x);
                i = i + 1;
            }
        },
        None => {},
    }
    let icon_file = match meta.get("iconFile") {
        Some(x) => match x.as_str() {
            Some(t) => Some(String::from_str(t)),
            None => None,
        },
        None => None,
    };
    let icon_index = match opt_num_member(meta, "iconIndex", 0xFFFF, &whole) {
        Some(n) => Some(n as u16),
        None => None,
    };
    let timestamp = match opt_num_member(meta, "timestamp", 0xFFFF_FFFF, &whole) {
        Some(n) => Some(n as u32),
        None => None,
    };
    let flags = match opt_num_member(meta, "flags", 0xFFFF_FFFF, &whole) {
        Some(n) => Some(n as u32),
        None => None,
    };
    Class {
        name: meta.str_or("name", stem),
        source: String::from_str(source),
        version: 0x3003,
        description: meta.str_or("description", ""),
        vars,
        text,
        children,
        links,
        icon_file,
        icon_index,
        icon: blobs.icon,
        image: blobs.image,
        scheme: blobs.scheme,
        bytecode: None,
        equations: blobs.equations,
        timestamp,
        flags,
    }
}

/// A stem of an image's files that stays inside the folder of images: not
/// empty, without `/`, `\\` or `:`, not starting with a dot.
pub open spec fn stem_ok(s: Seq<char>) -> bool {
    &&& s.len() > 0
    &&& !s.contains('/')
    &&& !s.contains('\\')
    &&& !s.contains(':')
    &&& s[0] != '.'
}

/// A property of the project read from its object: its number (`int`,
/// cast to 32 bits) or else its text.
pub open spec fn property_read<W: Fn(&str) -> u64>(whole: W, v: JsonView, p: Property) -> bool {
    &&& p.key@ == text_or(v, "key"@, ""@)
    &&& match number_of(v, "int"@) {
        Some(t) => exists|w: u64| whole_read(whole, t, w) && p.value == PropertyValue::Int(if w > 0xFFFF_FFFF {
            0xFFFF_FFFFu32
        } else {
            w as u32
        }),
        None => p.value matches PropertyValue::Text(x) && x@ == text_or(v, "text"@, ""@),
    }
}

/// A variable of the project read from its object.
pub open spec fn project_var_read<W: Fn(&str) -> u64>(whole: W, v: JsonView, x: ProjectVariable) -> bool {
    &&& num_read(whole, v, "kind"@, 0xFFFF, x.kind as u64)
    &&& num_read(whole, v, "flags"@, 0xFFFF, x.flags as u64)
    &&& opt_num_read(whole, v, "handle"@, 0xFFFF, match x.handle {
        Some(h) => Some(h as u64),
        None => None,
    })
    &&& x.name@ == text_or(v, "name"@, ""@)
    &&& x.description@ == text_or(v, "description"@, ""@)
}

/// The stems of the images that `project.json` lists.
pub open spec fn listed_stems(v: JsonView) -> Seq<Seq<char>> {
    let cl = items_of(v, "classes"@);
    Seq::new(cl.len(), |i: int| text_or(cl[i], "file"@, ""@))
}

/// The first stem that is not ok; the number of stems when all are.
pub open spec fn first_bad_stem(s: Seq<Seq<char>>) -> int
    decreases s.len(),
{
    if s.len() == 0 {
        0
    } else if !stem_ok(s[0]) {
        0
    } else {
        1 + first_bad_stem(s.drop_first())
    }
}

/// `project.json` read: an error where its format is not this one or where
/// it lists a stem that is not ok (the first one); else the project and
/// the stems of its images, in their order.
pub open spec fn project_read<W: Fn(&str) -> u64>(
    whole: W,
    v: JsonView,
    r: Result<(Project, Vec<String>), String>,
) -> bool {
    let stems = listed_stems(v);
    let k = first_bad_stem(stems);
    if text_of(v, "format"@) != Some(FORMAT@) {
        r matches Err(e) && e@ == "ожидался формат "@ + FORMAT@
    } else if k < stems.len() {
        r matches Err(e) && e@ == "недопустимое имя файла имиджа «"@ + stems[k] + "»"@
    } else {
        r matches Ok((p, st)) && {
            let props = items_of(v, "properties"@);
            let vars = items_of(v, "variables"@);
            &&& p.root@ == text_or(v, "root"@, ""@)
            &&& p.properties@.len() == props.len()
            &&& (forall|i: int| 0 <= i < props.len() ==> property_read(whole, #[trigger] props[i], p.properties@[i]))
            &&& p.variables@.len() == vars.len()
            &&& (forall|i: int| 0 <= i < vars.len() ==> project_var_read(whole, #[trigger] vars[i], p.variables@[i]))
            &&& st@.map_values(|x: String| x@) == stems
        }
    }
}

pub proof fn lemma_first_bad_stem(s: Seq<Seq<char>>)
    ensures
        0 <= first_bad_stem(s) <= s.len(),
        first_bad_stem(s) < s.len() ==> !stem_ok(s[first_bad_stem(s)]),
        forall|j: int| 0 <= j < first_bad_stem(s) ==> stem_ok(#[trigger] s[j]),
    decreases s.len(),
{
    if s.len() > 0 && stem_ok(s[0]) {
        lemma_first_bad_stem(s.drop_first());
        assert forall|j: int| 0 <= j < first_bad_stem(s) implies stem_ok(#[trigger] s[j]) by {
            if j > 0 {
                assert(s[j] == s.drop_first()[j - 1]);
            }
        }
    }
}

fn stem_is_ok(s: &str) -> (b: bool)
    ensures
        b == stem_ok(s@),
{
    let c = crate::text::chars_of(s);
    if c.len() == 0 || c[0] == '.' {
        return false;
    }
    let mut i: usize = 0;
    while i < c.len()
        invariant
            c@ == s@,
            i <= c.len(),
            forall|j: int| 0 <= j < i ==> c@[j] != '/' && c@[j] != '\\' && c@[j] != ':',
        decreases c.len() - i,
    {
        if c[i] == '/' || c[i] == '\\' || c[i] == ':' {
            assert(s@.contains(c@[i as int]));
            return false;
        }
        i = i + 1;
    }
    true
}

fn property_from<W: Fn(&str) -> u64>(v: &Json, whole: &W) -> (r: Property)
    requires
        forall|s: &str| #[trigger] whole.requires((s,)),
    ensures
        property_read(*whole, json_view(*v), r),
{
    let key = v.str_or("key", "");
    let value = match number_member(v, "int") {
        Some(t) => {
            let w = whole_num(t, whole);
            PropertyValue::Int(
                if w > 0xFFFF_FFFF {
                    0xFFFF_FFFFu32
                } else {
                    w as u32
                },
            )
        },
        None => PropertyValue::Text(v.str_or("text", "")),
    };
    Property { key, value }
}

fn project_var_from<W: Fn(&str) -> u64>(v: &Json, whole: &W) -> (r: ProjectVariable)
    requires
        forall|s: &str| #[trigger] whole.requires((s,)),
    ensures
        project_var_read(*whole, json_view(*v), r),
{
    let kind = num_member(v, "kind", 0xFFFF, whole);
    let flags = num_member(v, "flags", 0xFFFF, whole);
    let handle = match opt_num_member(v, "handle", 0xFFFF, whole) {
        Some(h) => Some(h as u16),
        None => None,
    };
    ProjectVariable {
        kind: kind as u16,
        flags: flags as u16,
        handle,
        name: v.str_or("name", ""),
        description: v.str_or("description", ""),
    }
}

/// The project that `project.json` describes and the stems of the files
/// of its images; an error for another format or for a stem that would
/// leave the folder of images.
pub fn project_from_meta<W: Fn(&str) -> u64>(root: &Json, whole: W) -> (r: Result<(Project, Vec<String>), String>)
    requires
        forall|s: &str| #[trigger] whole.requires((s,)),
    ensures
        project_read(whole, json_view(*root), r),
{
    let ghost v = json_view(*root);
    let format_ok = match root.get("format") {
        Some(f) => match f.as_str() {
            Some(t) => crate::text::str_same(t, FORMAT),
            None => false,
        },
        None => false,
    };
    if !format_ok {
        let mut e = String::new();
        e.append("ожидался формат ");
        e.append(FORMAT);
        return Err(e);
    }
    let mut properties: Vec<Property> = Vec::new();
    match items_member(root, "properties") {
        Some(items) => {
            proof {
                lemma_items_view(items@);
            }
            let mut i: usize = 0;
            while i < items.len()
                invariant
                    items_view(items@) == items_of(v, "properties"@),
                    forall|j: int| 0 <= j < items@.len() ==> #[trigger] items_view(items@)[j] == json_view(items@[j]),
                    items_view(items@).len() == items@.len(),
                    forall|s: &str| #[trigger] whole.requires((s,)),
                    i <= items.len(),
                    properties@.len() == i,
                    forall|j: int| 0 <= j < i ==> property_read(whole, #[trigger] items_of(v, "properties"@)[j], properties@[j]),
                decreases items.len() - i,
            {
                let x = property_from(&items[i], &whole);
                properties.push(x);
                i = i + 1;
            }
        },
        None => {},
    }
    let mut variables: Vec<ProjectVariable> = Vec::new();
    match items_member(root, "variables") {
        Some(items) => {
            proof {
                lemma_items_view(items@);
            }
            let mut i: usize = 0;
            while i < items.len()
                invariant
                    items_view(items@) == items_of(v, "variables"@),
                    forall|j: int| 0 <= j < items@.len() ==> #[trigger] items_view(items@)[j] == json_view(items@[j]),
                    items_view(items@).len() == items@.len(),
                    forall|s: &str| #[trigger] whole.requires((s,)),
                    i <= items.len(),
                    variables@.len() == i,
                    forall|j: int| 0 <= j < i ==> project_var_read(whole, #[trigger] items_of(v, "variables"@)[j], variables@[j]),
                decreases items.len() - i,
            {
                let x = project_var_from(&items[i], &whole);
                variables.push(x);
                i = i + 1;
            }
        },
        None => {},
    }
    let ghost stems = listed_stems(v);
    proof {
        lemma_first_bad_stem(stems);
    }
    let mut st: Vec<String> = Vec::new();
    match items_member(root, "classes") {
        Some(items) => {
            proof {
                lemma_items_view(items@);
            }
            let mut i: usize = 0;
            while i < items.len()
                invariant
                    items_view(items@) == items_of(v, "classes"@),
                    forall|j: int| 0 <= j < items@.len() ==> #[trigger] items_view(items@)[j] == json_view(items@[j]),
                    items_view(items@).len() == items@.len(),
                    stems == listed_stems(v),
                    v == json_view(*root),
                    stems.len() == items@.len(),
                    text_of(v, "format"@) == Some(FORMAT@),
                    0 <= first_bad_stem(stems) <= stems.len(),
                    first_bad_stem(stems) < stems.len() ==> !stem_ok(stems[first_bad_stem(stems)]),
                    forall|j: int| 0 <= j < first_bad_stem(stems) ==> stem_ok(#[trigger] stems[j]),
                    i <= items.len(),
                    i <= first_bad_stem(stems),
                    st@.map_values(|x: String| x@) == stems.take(i as int),
                decreases items.len() - i,
            {
                proof {
                    reveal_strlit("");
                }
                let stem = items[i].str_or("file", "");
                assert(stem@ == stems[i as int]);
                if !stem_is_ok(stem.as_str()) {
                    assert(first_bad_stem(stems) == i);
                    let mut e = String::new();
                    e.append("недопустимое имя файла имиджа «");
                    e.append(stem.as_str());
                    e.append("»");
                    assert(e@ =~= "недопустимое имя файла имиджа «"@ + stems[i as int] + "»"@);
                    assert(text_of(v, "format"@) == Some(FORMAT@));
                    assert(listed_stems(json_view(*root)) == stems);
                    let res: Result<(Project, Vec<String>), String> = Err(e);
                    assert(project_read(whole, v, res));
                    return res;
                }
                let ghost before = st@;
                st.push(stem);
                assert(st@ == before.push(stem));
                assert(st@.map_values(|x: String| x@) =~= before.map_values(|x: String| x@).push(stem@));
                assert(stems.take(i + 1) =~= stems.take(i as int).push(stems[i as int]));
                i = i + 1;
            }
            assert(stems.take(items.len() as int) =~= stems);
        },
        None => {
            assert(st@.map_values(|x: String| x@) =~= stems);
        },
    }
    let root_name = root.str_or("root", "");
    Ok((Project { root: root_name, properties, variables }, st))
}

/// An image of the snapshot read from its object.
pub open spec fn state_image_read<W: Fn(&str) -> u64>(whole: W, v: JsonView, x: StateImage) -> bool {
    &&& x.class_name@ == text_or(v, "class"@, ""@)
    &&& num_read(whole, v, "ref"@, 0xFFFF_FFFF, x.reference as u64)
    &&& num_read(whole, v, "handle"@, 0xFFFF, x.handle as u64)
    &&& crate::formats::cls::pairs_view(x.vars@) == pairs_of(items_of(v, "vars"@))
}

/// The snapshot that `state.json` holds.
pub fn state_from_meta<W: Fn(&str) -> u64>(j: &Json, whole: W) -> (r: State)
    requires
        forall|s: &str| #[trigger] whole.requires((s,)),
    ensures
        r.root@ == text_or(json_view(*j), "root"@, ""@),
        r.images@.len() == items_of(json_view(*j), "images"@).len(),
        forall|i: int|
            0 <= i < r.images@.len() ==> state_image_read(
                whole,
                #[trigger] items_of(json_view(*j), "images"@)[i],
                r.images@[i],
            ),
{
    let ghost v = json_view(*j);
    let mut images: Vec<StateImage> = Vec::new();
    match items_member(j, "images") {
        Some(items) => {
            proof {
                lemma_items_view(items@);
            }
            let mut i: usize = 0;
            while i < items.len()
                invariant
                    v == json_view(*j),
                    items_view(items@) == items_of(v, "images"@),
                    forall|k: int| 0 <= k < items@.len() ==> #[trigger] items_view(items@)[k] == json_view(items@[k]),
                    items_view(items@).len() == items@.len(),
                    forall|s: &str| #[trigger] whole.requires((s,)),
                    i <= items.len(),
                    images@.len() == i,
                    forall|k: int| 0 <= k < i ==> state_image_read(whole, #[trigger] items_of(v, "images"@)[k], images@[k]),
                decreases items.len() - i,
            {
                let im = &items[i];
                let reference = num_member(im, "ref", 0xFFFF_FFFF, &whole);
                let handle = num_member(im, "handle", 0xFFFF, &whole);
                let vars = match items_member(im, "vars") {
                    Some(ps) => pairs_from(ps),
                    None => {
                        let e: Vec<(String, String)> = Vec::new();
                        assert(crate::formats::cls::pairs_view(e@) =~= Seq::empty());
                        e
                    },
                };
                images.push(StateImage { class_name: im.str_or("class", ""), reference: reference as u32, handle: handle as u16, vars });
                i = i + 1;
            }
        },
        None => {},
    }
    State { root: j.str_or("root", ""), images }
}

} // verus!
