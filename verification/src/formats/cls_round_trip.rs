//! What `cls::parse` gives back of what `cls::write` wrote.

use vstd::prelude::*;
use crate::formats::cls::{
    block_at, blob_body, child_bytes, children_bytes, children_from, class_body, class_bytes,
    class_head, class_of, coords_at, emit, emit_all, end_marker, equations_end, finished,
    link_bytes, links_bytes, links_from, opt_piece, pairs_bytes, pairs_from, piece_children,
    piece_description, piece_equations, piece_flags, piece_icon, piece_icon_file,
    piece_icon_index, piece_image, piece_links, piece_scheme, piece_text, piece_timestamp,
    piece_vars, pieces, section_at, sections_from, u64_at, var_bytes, vars_bytes, vars_from,
    written_version, ChildView, ClassView, LinkView, Piece, VariableView, CHILDREN, DESCRIPTION,
    END, EQUATIONS, FLAGS, ICON, ICON_FILE, ICON_INDEX, IMAGE, LINKS, SCHEME, TEXT, TIMESTAMP,
    VARS,
};
use crate::formats::project::{fits_string, lemma_string_at};
use crate::formats::reader::{string_at, u16_at, u32_at};
use crate::formats::writer::{
    law_u16_round_trip, law_u32_round_trip, law_u64_round_trip, le16_bytes, le32_bytes,
    le64_bytes, string_bytes,
};

verus! {

/// A variable whose four strings the writer keeps whole.
pub open spec fn writable_var(v: VariableView) -> bool {
    fits_string(v.name) && fits_string(v.description) && fits_string(v.default) && fits_string(
        v.var_type,
    )
}

/// A child whose names the writer keeps whole.
pub open spec fn writable_child(c: ChildView) -> bool {
    fits_string(c.class_name) && fits_string(c.name)
}

/// A pair of variable names that the writer keeps whole.
pub open spec fn fits_pair(p: (Seq<char>, Seq<char>)) -> bool {
    fits_string(p.0) && fits_string(p.1)
}

/// A link whose pairs the writer keeps whole.
pub open spec fn writable_link(l: LinkView) -> bool {
    l.vars.len() <= 65535 && forall|i: int| 0 <= i < l.vars.len() ==> #[trigger] fits_pair(l.vars[i])
}

/// A link as read back: a `.cls` file keeps no style.
pub open spec fn plain_link(l: LinkView) -> LinkView {
    LinkView { plain: true, ..l }
}

/// Links as read back.
pub open spec fn plain_links(ls: Seq<LinkView>) -> Seq<LinkView> {
    ls.map_values(|l: LinkView| plain_link(l))
}

pub proof fn lemma_vars_bytes_concat(a: Seq<VariableView>, b: Seq<VariableView>)
    ensures
        vars_bytes(a + b) == vars_bytes(a) + vars_bytes(b),
    decreases b.len(),
{
    if b.len() == 0 {
        assert(a + b =~= a);
        assert(vars_bytes(b) =~= Seq::<u8>::empty());
        assert(vars_bytes(a) + vars_bytes(b) =~= vars_bytes(a));
    } else {
        lemma_vars_bytes_concat(a, b.drop_last());
        assert((a + b).drop_last() =~= a + b.drop_last());
        assert((a + b).last() == b.last());
        assert(vars_bytes(a + b) =~= vars_bytes(a) + vars_bytes(b));
    }
}

pub proof fn lemma_children_bytes_concat(a: Seq<ChildView>, b: Seq<ChildView>)
    ensures
        children_bytes(a + b) == children_bytes(a) + children_bytes(b),
    decreases b.len(),
{
    if b.len() == 0 {
        assert(a + b =~= a);
        assert(children_bytes(b) =~= Seq::<u8>::empty());
        assert(children_bytes(a) + children_bytes(b) =~= children_bytes(a));
    } else {
        lemma_children_bytes_concat(a, b.drop_last());
        assert((a + b).drop_last() =~= a + b.drop_last());
        assert((a + b).last() == b.last());
        assert(children_bytes(a + b) =~= children_bytes(a) + children_bytes(b));
    }
}

pub proof fn lemma_pairs_bytes_concat(a: Seq<(Seq<char>, Seq<char>)>, b: Seq<(Seq<char>, Seq<char>)>)
    ensures
        pairs_bytes(a + b) == pairs_bytes(a) + pairs_bytes(b),
    decreases b.len(),
{
    if b.len() == 0 {
        assert(a + b =~= a);
        assert(pairs_bytes(b) =~= Seq::<u8>::empty());
        assert(pairs_bytes(a) + pairs_bytes(b) =~= pairs_bytes(a));
    } else {
        lemma_pairs_bytes_concat(a, b.drop_last());
        assert((a + b).drop_last() =~= a + b.drop_last());
        assert((a + b).last() == b.last());
        assert(pairs_bytes(a + b) =~= pairs_bytes(a) + pairs_bytes(b));
    }
}

pub proof fn lemma_links_bytes_concat(a: Seq<LinkView>, b: Seq<LinkView>)
    ensures
        links_bytes(a + b) == links_bytes(a) + links_bytes(b),
    decreases b.len(),
{
    if b.len() == 0 {
        assert(a + b =~= a);
        assert(links_bytes(b) =~= Seq::<u8>::empty());
        assert(links_bytes(a) + links_bytes(b) =~= links_bytes(a));
    } else {
        lemma_links_bytes_concat(a, b.drop_last());
        assert((a + b).drop_last() =~= a + b.drop_last());
        assert((a + b).last() == b.last());
        assert(links_bytes(a + b) =~= links_bytes(a) + links_bytes(b));
    }
}

/// One variable written in the middle of some data reads back as itself.
#[verifier::spinoff_prover]
pub proof fn lemma_var_at(x: Seq<u8>, v: VariableView, r: Seq<u8>)
    requires
        writable_var(v),
    ensures
        ({
            let d = x + var_bytes(v) + r;
            let a0 = x.len() as int;
            let a1 = a0 + string_bytes(v.name).len();
            let a2 = a1 + string_bytes(v.description).len();
            let a3 = a2 + string_bytes(v.default).len();
            let a4 = a3 + string_bytes(v.var_type).len();
            &&& string_at(d, a0) == Some((v.name, a1))
            &&& string_at(d, a1) == Some((v.description, a2))
            &&& string_at(d, a2) == Some((v.default, a3))
            &&& string_at(d, a3) == Some((v.var_type, a4))
            &&& a4 + 4 <= d.len()
            &&& u32_at(d, a4) == v.flags
            &&& a4 + 4 == a0 + var_bytes(v).len()
        }),
{
    let d = x + var_bytes(v) + r;
    let s1 = string_bytes(v.name);
    let s2 = string_bytes(v.description);
    let s3 = string_bytes(v.default);
    let s4 = string_bytes(v.var_type);
    let fl = le32_bytes(v.flags);
    assert(d =~= x + s1 + (s2 + s3 + s4 + fl + r));
    lemma_string_at(x, v.name, s2 + s3 + s4 + fl + r);
    assert(d =~= (x + s1) + s2 + (s3 + s4 + fl + r));
    lemma_string_at(x + s1, v.description, s3 + s4 + fl + r);
    assert(d =~= (x + s1 + s2) + s3 + (s4 + fl + r));
    lemma_string_at(x + s1 + s2, v.default, s4 + fl + r);
    assert(d =~= (x + s1 + s2 + s3) + s4 + (fl + r));
    lemma_string_at(x + s1 + s2 + s3, v.var_type, fl + r);
    assert(d =~= (x + s1 + s2 + s3 + s4) + fl + r);
    law_u32_round_trip(x + s1 + s2 + s3 + s4, v.flags, r);
}

/// Variables written one after another read back as the same list.
#[verifier::spinoff_prover]
#[verifier::rlimit(100)]
pub proof fn lemma_vars_from(x: Seq<u8>, vs: Seq<VariableView>, y: Seq<u8>, acc: Seq<VariableView>)
    requires
        forall|i: int| 0 <= i < vs.len() ==> writable_var(#[trigger] vs[i]),
    ensures
        vars_from(x + vars_bytes(vs) + y, x.len() as int, vs.len(), acc) == Some(
            (acc + vs, x.len() + vars_bytes(vs).len() as int),
        ),
    decreases vs.len(),
{
    if vs.len() == 0 {
        assert(acc + vs =~= acc);
    } else {
        let v = vs[0];
        let rest = vs.drop_first();
        assert(vs =~= seq![v] + rest);
        lemma_vars_bytes_concat(seq![v], rest);
        assert(seq![v].drop_last() =~= Seq::<VariableView>::empty());
        assert(seq![v].last() == v);
        assert(vars_bytes(Seq::<VariableView>::empty()) =~= Seq::<u8>::empty());
        assert(vars_bytes(seq![v]) =~= var_bytes(v));
        assert(writable_var(vs[0]));
        let d = x + vars_bytes(vs) + y;
        assert(d =~= x + var_bytes(v) + (vars_bytes(rest) + y));
        lemma_var_at(x, v, vars_bytes(rest) + y);
        let a4: int = x.len() as int + string_bytes(v.name).len() + string_bytes(v.description).len()
            + string_bytes(v.default).len() + string_bytes(v.var_type).len();
        assert(VariableView {
            name: v.name,
            description: v.description,
            default: v.default,
            var_type: v.var_type,
            flags: u32_at(d, a4),
        } == v);
        assert(vars_from(d, x.len() as int, vs.len(), acc) == vars_from(
            d,
            a4 + 4,
            rest.len(),
            acc.push(v),
        ));
        assert forall|i: int| 0 <= i < rest.len() implies writable_var(#[trigger] rest[i]) by {
            assert(rest[i] == vs[i + 1]);
        }
        lemma_vars_from(x + var_bytes(v), rest, y, acc.push(v));
        assert(d =~= (x + var_bytes(v)) + vars_bytes(rest) + y);
        assert(acc.push(v) + rest =~= acc + vs);
    }
}

/// One child written in the middle of some data reads back as itself.
#[verifier::spinoff_prover]
#[verifier::rlimit(100)]
pub proof fn lemma_child_at(x: Seq<u8>, c: ChildView, r: Seq<u8>, version: u32)
    requires
        writable_child(c),
        version >= 0x3002,
    ensures
        ({
            let d = x + child_bytes(c) + r;
            let a0 = x.len() as int;
            let a1 = a0 + string_bytes(c.class_name).len();
            let a2 = a1 + 2 + string_bytes(c.name).len();
            &&& string_at(d, a0) == Some((c.class_name, a1))
            &&& a1 + 2 <= d.len()
            &&& u16_at(d, a1) == c.handle
            &&& string_at(d, a1 + 2) == Some((c.name, a2))
            &&& coords_at(d, a2, version) == Some((c.x, c.y, a2 + 16))
            &&& a2 + 17 <= d.len()
            &&& d[a2 + 16] == c.flags
            &&& a2 + 17 == a0 + child_bytes(c).len()
        }),
{
    let d = x + child_bytes(c) + r;
    let s1 = string_bytes(c.class_name);
    let h = le16_bytes(c.handle);
    let s2 = string_bytes(c.name);
    let cx = le64_bytes(c.x);
    let cy = le64_bytes(c.y);
    let fl = seq![c.flags];
    assert(d =~= x + s1 + (h + s2 + cx + cy + fl + r));
    lemma_string_at(x, c.class_name, h + s2 + cx + cy + fl + r);
    assert(d =~= (x + s1) + h + (s2 + cx + cy + fl + r));
    law_u16_round_trip(x + s1, c.handle, s2 + cx + cy + fl + r);
    assert(d =~= (x + s1 + h) + s2 + (cx + cy + fl + r));
    lemma_string_at(x + s1 + h, c.name, cx + cy + fl + r);
    assert(d =~= (x + s1 + h + s2) + cx + (cy + fl + r));
    law_u64_round_trip(x + s1 + h + s2, c.x, cy + fl + r);
    assert(d =~= (x + s1 + h + s2 + cx) + cy + (fl + r));
    law_u64_round_trip(x + s1 + h + s2 + cx, c.y, fl + r);
    let a2 = (x + s1 + h + s2).len() as int;
    assert(d[a2 + 16] == c.flags);
}

/// Children written one after another read back as the same list.
#[verifier::spinoff_prover]
#[verifier::rlimit(100)]
pub proof fn lemma_children_from(x: Seq<u8>, cs: Seq<ChildView>, y: Seq<u8>, version: u32, acc: Seq<ChildView>)
    requires
        forall|i: int| 0 <= i < cs.len() ==> writable_child(#[trigger] cs[i]),
        version >= 0x3002,
    ensures
        children_from(x + children_bytes(cs) + y, x.len() as int, cs.len(), version, acc) == Some(
            (acc + cs, x.len() + children_bytes(cs).len() as int),
        ),
    decreases cs.len(),
{
    if cs.len() == 0 {
        assert(acc + cs =~= acc);
    } else {
        let c = cs[0];
        let rest = cs.drop_first();
        assert(cs =~= seq![c] + rest);
        lemma_children_bytes_concat(seq![c], rest);
        assert(seq![c].drop_last() =~= Seq::<ChildView>::empty());
        assert(seq![c].last() == c);
        assert(children_bytes(Seq::<ChildView>::empty()) =~= Seq::<u8>::empty());
        assert(children_bytes(seq![c]) =~= child_bytes(c));
        assert(writable_child(cs[0]));
        let d = x + children_bytes(cs) + y;
        assert(d =~= x + child_bytes(c) + (children_bytes(rest) + y));
        lemma_child_at(x, c, children_bytes(rest) + y, version);
        let a1: int = x.len() as int + string_bytes(c.class_name).len();
        let a2: int = a1 + 2 + string_bytes(c.name).len();
        assert(ChildView {
            class_name: c.class_name,
            handle: u16_at(d, a1),
            name: c.name,
            x: c.x,
            y: c.y,
            flags: d[a2 + 16],
        } == c);
        assert(children_from(d, x.len() as int, cs.len(), version, acc) == children_from(
            d,
            a2 + 17,
            rest.len(),
            version,
            acc.push(c),
        ));
        assert forall|i: int| 0 <= i < rest.len() implies writable_child(#[trigger] rest[i]) by {
            assert(rest[i] == cs[i + 1]);
        }
        lemma_children_from(x + child_bytes(c), rest, y, version, acc.push(c));
        assert(d =~= (x + child_bytes(c)) + children_bytes(rest) + y);
        assert(acc.push(c) + rest =~= acc + cs);
    }
}

/// Pairs of names written one after another read back as the same list.
#[verifier::spinoff_prover]
#[verifier::rlimit(60)]
pub proof fn lemma_pairs_from(
    x: Seq<u8>,
    ps: Seq<(Seq<char>, Seq<char>)>,
    y: Seq<u8>,
    acc: Seq<(Seq<char>, Seq<char>)>,
)
    requires
        forall|i: int| 0 <= i < ps.len() ==> #[trigger] fits_pair(ps[i]),
    ensures
        pairs_from(x + pairs_bytes(ps) + y, x.len() as int, ps.len(), acc) == Some(
            (acc + ps, x.len() + pairs_bytes(ps).len() as int),
        ),
    decreases ps.len(),
{
    if ps.len() == 0 {
        assert(acc + ps =~= acc);
    } else {
        let p = ps[0];
        let rest = ps.drop_first();
        assert(ps =~= seq![p] + rest);
        lemma_pairs_bytes_concat(seq![p], rest);
        let one = string_bytes(p.0) + string_bytes(p.1);
        assert(seq![p].drop_last() =~= Seq::<(Seq<char>, Seq<char>)>::empty());
        assert(seq![p].last() == p);
        assert(pairs_bytes(Seq::<(Seq<char>, Seq<char>)>::empty()) =~= Seq::<u8>::empty());
        assert(pairs_bytes(seq![p]) =~= one);
        assert(fits_pair(ps[0]));
        let d = x + pairs_bytes(ps) + y;
        let r = pairs_bytes(rest) + y;
        assert(d =~= x + string_bytes(p.0) + (string_bytes(p.1) + r));
        lemma_string_at(x, p.0, string_bytes(p.1) + r);
        assert(d =~= (x + string_bytes(p.0)) + string_bytes(p.1) + r);
        lemma_string_at(x + string_bytes(p.0), p.1, r);
        assert forall|i: int| 0 <= i < rest.len() implies #[trigger] fits_pair(rest[i]) by {
            assert(rest[i] == ps[i + 1]);
        }
        lemma_pairs_from(x + one, rest, y, acc.push(p));
        assert(d =~= (x + one) + pairs_bytes(rest) + y);
        assert(acc.push(p) + rest =~= acc + ps);
    }
}

/// One link written in the middle of some data reads back as itself,
/// without its style.
#[verifier::spinoff_prover]
#[verifier::rlimit(60)]
pub proof fn lemma_link_at(x: Seq<u8>, l: LinkView, r: Seq<u8>)
    requires
        writable_link(l),
    ensures
        ({
            let d = x + link_bytes(l) + r;
            let a0 = x.len() as int;
            &&& a0 + 14 <= d.len()
            &&& u16_at(d, a0) == l.source
            &&& u16_at(d, a0 + 2) == l.target
            &&& u16_at(d, a0 + 4) == l.handle
            &&& u32_at(d, a0 + 6) == l.flags
            &&& u16_at(d, a0 + 10) == l.vars.len()
            &&& pairs_from(d, a0 + 14, l.vars.len(), Seq::empty()) == Some(
                (l.vars, a0 + link_bytes(l).len()),
            )
        }),
{
    let d = x + link_bytes(l) + r;
    let n = (l.vars.len() % 65536) as u16;
    let b1 = le16_bytes(l.source);
    let b2 = le16_bytes(l.target);
    let b3 = le16_bytes(l.handle);
    let b4 = le32_bytes(l.flags);
    let b5 = le16_bytes(n);
    let b6 = le16_bytes(0);
    let pb = pairs_bytes(l.vars);
    assert(d =~= x + b1 + (b2 + b3 + b4 + b5 + b6 + pb + r));
    law_u16_round_trip(x, l.source, b2 + b3 + b4 + b5 + b6 + pb + r);
    assert(d =~= (x + b1) + b2 + (b3 + b4 + b5 + b6 + pb + r));
    law_u16_round_trip(x + b1, l.target, b3 + b4 + b5 + b6 + pb + r);
    assert(d =~= (x + b1 + b2) + b3 + (b4 + b5 + b6 + pb + r));
    law_u16_round_trip(x + b1 + b2, l.handle, b4 + b5 + b6 + pb + r);
    assert(d =~= (x + b1 + b2 + b3) + b4 + (b5 + b6 + pb + r));
    law_u32_round_trip(x + b1 + b2 + b3, l.flags, b5 + b6 + pb + r);
    assert(d =~= (x + b1 + b2 + b3 + b4) + b5 + (b6 + pb + r));
    law_u16_round_trip(x + b1 + b2 + b3 + b4, n, b6 + pb + r);
    assert(d =~= (x + b1 + b2 + b3 + b4 + b5 + b6) + pb + r);
    lemma_pairs_from(x + b1 + b2 + b3 + b4 + b5 + b6, l.vars, r, Seq::empty());
    assert(Seq::<(Seq<char>, Seq<char>)>::empty() + l.vars =~= l.vars);
}

/// One step of reading links: a link whose fields are at `a0` and whose
/// pairs end at `next`.
proof fn lemma_links_step(d: Seq<u8>, a0: int, n: nat, acc: Seq<LinkView>, l: LinkView, next: int)
    requires
        n > 0,
        0 <= a0,
        a0 + 14 <= d.len(),
        u16_at(d, a0) == l.source,
        u16_at(d, a0 + 2) == l.target,
        u16_at(d, a0 + 4) == l.handle,
        u32_at(d, a0 + 6) == l.flags,
        u16_at(d, a0 + 10) == l.vars.len(),
        pairs_from(d, a0 + 14, l.vars.len(), Seq::empty()) == Some((l.vars, next)),
    ensures
        links_from(d, a0, n, acc) == links_from(d, next, (n - 1) as nat, acc.push(plain_link(l))),
{
    assert(LinkView {
        source: u16_at(d, a0),
        target: u16_at(d, a0 + 2),
        handle: u16_at(d, a0 + 4),
        flags: u32_at(d, a0 + 6),
        vars: l.vars,
        plain: true,
    } == plain_link(l));
}

/// Links written one after another read back as the same list, each
/// without its style.
#[verifier::spinoff_prover]
#[verifier::rlimit(100)]
pub proof fn lemma_links_from(x: Seq<u8>, ls: Seq<LinkView>, y: Seq<u8>, acc: Seq<LinkView>)
    requires
        forall|i: int| 0 <= i < ls.len() ==> writable_link(#[trigger] ls[i]),
    ensures
        links_from(x + links_bytes(ls) + y, x.len() as int, ls.len(), acc) == Some(
            (acc + plain_links(ls), x.len() + links_bytes(ls).len() as int),
        ),
    decreases ls.len(),
{
    if ls.len() == 0 {
        assert(acc + plain_links(ls) =~= acc);
    } else {
        let l = ls[0];
        let rest = ls.drop_first();
        assert(ls =~= seq![l] + rest);
        lemma_links_bytes_concat(seq![l], rest);
        assert(seq![l].drop_last() =~= Seq::<LinkView>::empty());
        assert(seq![l].last() == l);
        assert(links_bytes(Seq::<LinkView>::empty()) =~= Seq::<u8>::empty());
        assert(links_bytes(seq![l]) =~= link_bytes(l));
        assert(writable_link(ls[0]));
        let d = x + links_bytes(ls) + y;
        assert(d =~= x + link_bytes(l) + (links_bytes(rest) + y));
        lemma_link_at(x, l, links_bytes(rest) + y);
        lemma_links_step(d, x.len() as int, ls.len(), acc, l, x.len() + link_bytes(l).len() as int);
        assert forall|i: int| 0 <= i < rest.len() implies writable_link(#[trigger] rest[i]) by {
            assert(rest[i] == ls[i + 1]);
        }
        lemma_links_from(x + link_bytes(l), rest, y, acc.push(plain_link(l)));
        assert(d =~= (x + link_bytes(l)) + links_bytes(rest) + y);
        assert(plain_links(ls) =~= seq![plain_link(l)] + plain_links(rest));
        assert(acc.push(plain_link(l)) + plain_links(rest) =~= acc + plain_links(ls));
    }
}

/// The bytes of sections written one after another: id, then body.
#[verifier::opaque]
pub open spec fn sections_bytes(ps: Seq<Piece>) -> Seq<u8>
    decreases ps.len(),
{
    if ps.len() == 0 {
        Seq::empty()
    } else {
        sections_bytes(ps.drop_last()) + le16_bytes(ps.last().id) + ps.last().body
    }
}

pub proof fn lemma_emit_all_bytes(st: (Seq<u8>, Seq<(u16, u32)>), ps: Seq<Piece>)
    ensures
        emit_all(st, ps).0 == st.0 + sections_bytes(ps),
    decreases ps.len(),
{
    reveal(sections_bytes);
    if ps.len() == 0 {
        assert(st.0 + sections_bytes(ps) =~= st.0);
    } else {
        lemma_emit_all_bytes(st, ps.drop_last());
        assert(emit_all(st, ps).0 =~= st.0 + sections_bytes(ps));
    }
}

pub proof fn lemma_sections_bytes_concat(a: Seq<Piece>, b: Seq<Piece>)
    ensures
        sections_bytes(a + b) == sections_bytes(a) + sections_bytes(b),
    decreases b.len(),
{
    reveal(sections_bytes);
    if b.len() == 0 {
        assert(a + b =~= a);
        assert(sections_bytes(a) + sections_bytes(b) =~= sections_bytes(a));
    } else {
        lemma_sections_bytes_concat(a, b.drop_last());
        assert((a + b).drop_last() =~= a + b.drop_last());
        assert((a + b).last() == b.last());
        assert(sections_bytes(a + b) =~= sections_bytes(a) + sections_bytes(b));
    }
}

/// The bytes of one optional section.
pub proof fn lemma_opt_bytes(o: Option<Seq<u8>>, id: u16, indexed: bool)
    ensures
        sections_bytes(opt_piece(o, id, indexed)) == match o {
            Some(b) => le16_bytes(id) + b,
            None => Seq::<u8>::empty(),
        },
{
    reveal(sections_bytes);
    match o {
        Some(b) => {
            let one = opt_piece(o, id, indexed);
            assert(one.drop_last() =~= Seq::<Piece>::empty());
            assert(sections_bytes(Seq::<Piece>::empty()) =~= Seq::<u8>::empty());
            assert(one.last() == Piece { id, indexed, body: b });
            assert(sections_bytes(one) =~= le16_bytes(id) + b);
        },
        None => {
            assert(opt_piece(o, id, indexed) =~= Seq::<Piece>::empty());
        },
    }
}

/// The sections of a class, group by group.
pub proof fn lemma_pieces_bytes(c: ClassView)
    ensures
        sections_bytes(pieces(c)) == sections_bytes(piece_flags(c)) + sections_bytes(
            piece_description(c),
        ) + sections_bytes(piece_vars(c)) + sections_bytes(piece_text(c)) + sections_bytes(
            piece_children(c),
        ) + sections_bytes(piece_links(c)) + sections_bytes(piece_icon(c)) + sections_bytes(
            piece_image(c),
        ) + sections_bytes(piece_scheme(c)) + sections_bytes(piece_icon_file(c)) + sections_bytes(
            piece_icon_index(c),
        ) + sections_bytes(piece_equations(c)) + sections_bytes(piece_timestamp(c)),
{
    reveal(pieces);
    let a1 = piece_flags(c);
    let a2 = a1 + piece_description(c);
    let a3 = a2 + piece_vars(c);
    let a4 = a3 + piece_text(c);
    let a5 = a4 + piece_children(c);
    let a6 = a5 + piece_links(c);
    let a7 = a6 + piece_icon(c);
    let a8 = a7 + piece_image(c);
    let a9 = a8 + piece_scheme(c);
    let a10 = a9 + piece_icon_file(c);
    let a11 = a10 + piece_icon_index(c);
    let a12 = a11 + piece_equations(c);
    lemma_sections_bytes_concat(a1, piece_description(c));
    lemma_sections_bytes_concat(a2, piece_vars(c));
    lemma_sections_bytes_concat(a3, piece_text(c));
    lemma_sections_bytes_concat(a4, piece_children(c));
    lemma_sections_bytes_concat(a5, piece_links(c));
    lemma_sections_bytes_concat(a6, piece_icon(c));
    lemma_sections_bytes_concat(a7, piece_image(c));
    lemma_sections_bytes_concat(a8, piece_scheme(c));
    lemma_sections_bytes_concat(a9, piece_icon_file(c));
    lemma_sections_bytes_concat(a10, piece_icon_index(c));
    lemma_sections_bytes_concat(a11, piece_equations(c));
    lemma_sections_bytes_concat(a12, piece_timestamp(c));
}

/// A slice of `d` that equals `b` splits `d` around it.
pub proof fn lemma_split(d: Seq<u8>, p: int, b: Seq<u8>)
    requires
        0 <= p,
        p + b.len() <= d.len(),
        d.subrange(p, p + b.len()) == b,
    ensures
        d == d.take(p) + b + d.skip(p + b.len()),
{
    assert(d =~= d.take(p) + d.subrange(p, p + b.len()) + d.skip(p + b.len()));
}

/// The id at the start of a written section.
pub proof fn lemma_id_at(d: Seq<u8>, pos: int, id: u16, body: Seq<u8>)
    requires
        0 <= pos,
        pos + 2 + body.len() <= d.len(),
        d.subrange(pos, pos + 2 + body.len()) == le16_bytes(id) + body,
    ensures
        u16_at(d, pos) == id,
{
    lemma_split(d, pos, le16_bytes(id) + body);
    assert(d =~= d.take(pos) + le16_bytes(id) + (body + d.skip(pos + 2 + body.len())));
    law_u16_round_trip(d.take(pos), id, body + d.skip(pos + 2 + body.len()));
}

/// A section whose id and body stand at `pos` is read and the reading goes
/// on after it.
pub proof fn lemma_section_step(d: Seq<u8>, pos: int, ia: int, acc: ClassView, id: u16, body: Seq<u8>, acc2: ClassView)
    requires
        0 <= pos,
        pos + 2 + body.len() <= ia <= d.len(),
        d.subrange(pos, pos + 2 + body.len()) == le16_bytes(id) + body,
        id != END,
        section_at(d, pos + 2, id, ia, acc) == Some((acc2, pos + 2 + body.len())),
    ensures
        sections_from(d, pos, ia, acc) == sections_from(d, pos + 2 + body.len(), ia, acc2),
{
    lemma_id_at(d, pos, id, body);
}

/// The body of a written section, right after its id.
pub proof fn lemma_body_slice(d: Seq<u8>, pos: int, id: u16, body: Seq<u8>)
    requires
        0 <= pos,
        pos + 2 + body.len() <= d.len(),
        d.subrange(pos, pos + 2 + body.len()) == le16_bytes(id) + body,
    ensures
        d.subrange(pos + 2, pos + 2 + body.len()) == body,
{
    assert forall|i: int| 0 <= i < body.len() implies d.subrange(pos + 2, pos + 2 + body.len())[i]
        == body[i] by {
        assert(d.subrange(pos, pos + 2 + body.len())[i + 2] == d[pos + 2 + i]);
        assert((le16_bytes(id) + body)[i + 2] == body[i]);
    }
    assert(d.subrange(pos + 2, pos + 2 + body.len()) =~= body);
}

#[verifier::spinoff_prover]
#[verifier::rlimit(100)]
pub proof fn lemma_group_flags(d: Seq<u8>, pos: int, ia: int, acc: ClassView, c: ClassView)
    requires
        0 <= pos,
        pos + sections_bytes(piece_flags(c)).len() <= ia <= d.len(),
        d.subrange(pos, pos + sections_bytes(piece_flags(c)).len()) == sections_bytes(piece_flags(c)),
        acc.flags is None,
    ensures
        sections_from(d, pos, ia, acc) == sections_from(
            d,
            pos + sections_bytes(piece_flags(c)).len(),
            ia,
            ClassView { flags: c.flags, ..acc },
        ),
{
    lemma_opt_bytes(match c.flags { Some(f) => Some(le32_bytes(f)), None => None }, FLAGS, false);
    if c.flags is Some {
        let body = le32_bytes(c.flags.unwrap());
        let p = pos + 2;
        lemma_body_slice(d, pos, FLAGS, body);
        lemma_split(d, p, body);
        assert(section_at(d, p, FLAGS, ia, acc) == Some((ClassView { flags: c.flags, ..acc }, p + body.len()))) by {
            reveal(section_at);
            law_u32_round_trip(d.take(p), c.flags.unwrap(), d.skip(p + 4));
        }
        lemma_section_step(d, pos, ia, acc, FLAGS, body, ClassView { flags: c.flags, ..acc });
    } else {
        assert(ClassView { flags: c.flags, ..acc } == acc);
    }
}

#[verifier::spinoff_prover]
#[verifier::rlimit(100)]
pub proof fn lemma_group_description(d: Seq<u8>, pos: int, ia: int, acc: ClassView, c: ClassView)
    requires
        0 <= pos,
        pos + sections_bytes(piece_description(c)).len() <= ia <= d.len(),
        d.subrange(pos, pos + sections_bytes(piece_description(c)).len()) == sections_bytes(piece_description(c)),
        acc.description == Seq::<char>::empty(),
        fits_string(c.description),
    ensures
        sections_from(d, pos, ia, acc) == sections_from(
            d,
            pos + sections_bytes(piece_description(c)).len(),
            ia,
            ClassView { description: c.description, ..acc },
        ),
{
    lemma_opt_bytes(if c.description.len() > 0 { Some(string_bytes(c.description)) } else { None }, DESCRIPTION, false);
    if c.description.len() > 0 {
        let body = string_bytes(c.description);
        let p = pos + 2;
        lemma_body_slice(d, pos, DESCRIPTION, body);
        lemma_split(d, p, body);
        assert(section_at(d, p, DESCRIPTION, ia, acc) == Some((ClassView { description: c.description, ..acc }, p + body.len()))) by {
            reveal(section_at);
            lemma_string_at(d.take(p), c.description, d.skip(p + body.len()));
        }
        lemma_section_step(d, pos, ia, acc, DESCRIPTION, body, ClassView { description: c.description, ..acc });
    } else {
        assert(c.description =~= acc.description);
        assert(ClassView { description: c.description, ..acc } == acc);
    }
}

#[verifier::spinoff_prover]
#[verifier::rlimit(100)]
pub proof fn lemma_group_text(d: Seq<u8>, pos: int, ia: int, acc: ClassView, c: ClassView)
    requires
        0 <= pos,
        pos + sections_bytes(piece_text(c)).len() <= ia <= d.len(),
        d.subrange(pos, pos + sections_bytes(piece_text(c)).len()) == sections_bytes(piece_text(c)),
        acc.text == Seq::<char>::empty(),
        fits_string(c.text),
    ensures
        sections_from(d, pos, ia, acc) == sections_from(
            d,
            pos + sections_bytes(piece_text(c)).len(),
            ia,
            ClassView { text: c.text, ..acc },
        ),
{
    lemma_opt_bytes(if c.text.len() > 0 { Some(string_bytes(c.text)) } else { None }, TEXT, true);
    if c.text.len() > 0 {
        let body = string_bytes(c.text);
        let p = pos + 2;
        lemma_body_slice(d, pos, TEXT, body);
        lemma_split(d, p, body);
        assert(section_at(d, p, TEXT, ia, acc) == Some((ClassView { text: c.text, ..acc }, p + body.len()))) by {
            reveal(section_at);
            lemma_string_at(d.take(p), c.text, d.skip(p + body.len()));
        }
        lemma_section_step(d, pos, ia, acc, TEXT, body, ClassView { text: c.text, ..acc });
    } else {
        assert(c.text =~= acc.text);
        assert(ClassView { text: c.text, ..acc } == acc);
    }
}

/// What `section_at` reads for a section of children.
pub proof fn lemma_section_at_children(d: Seq<u8>, pos: int, ia: int, c: ClassView)
    requires
        0 <= pos,
        pos + 2 <= d.len(),
    ensures
        section_at(d, pos, CHILDREN, ia, c) == match children_from(d, pos + 2, u16_at(d, pos) as nat, c.version, c.children) {
            None => None,
            Some((children, next)) => Some((ClassView { children, ..c }, next)),
        },
{
    reveal(section_at);
}

/// What `section_at` reads for a section of links.
pub proof fn lemma_section_at_links(d: Seq<u8>, pos: int, ia: int, c: ClassView)
    requires
        0 <= pos,
        pos + 2 <= d.len(),
    ensures
        section_at(d, pos, LINKS, ia, c) == match links_from(d, pos + 2, u16_at(d, pos) as nat, c.links) {
            None => None,
            Some((links, next)) => Some((ClassView { links, ..c }, next)),
        },
{
    reveal(section_at);
}

/// What `section_at` reads for a section of variables.
pub proof fn lemma_section_at_vars(d: Seq<u8>, pos: int, ia: int, c: ClassView)
    requires
        0 <= pos,
        pos + 2 <= d.len(),
    ensures
        section_at(d, pos, VARS, ia, c) == match vars_from(d, pos + 2, u16_at(d, pos) as nat, c.vars) {
            None => None,
            Some((vars, next)) => Some((ClassView { vars, ..c }, next)),
        },
{
    reveal(section_at);
}

/// A split of `d` around `a + b` at `p`, seen around `a` and around `b`.
pub proof fn lemma_reframe(d: Seq<u8>, p: int, a: Seq<u8>, b: Seq<u8>)
    requires
        0 <= p,
        p + a.len() + b.len() <= d.len(),
        d == d.take(p) + (a + b) + d.skip(p + a.len() + b.len()),
    ensures
        d == d.take(p) + a + (b + d.skip(p + a.len() + b.len())),
        d == d.take(p + a.len()) + b + d.skip(p + a.len() + b.len()),
{
    let r = d.skip(p + a.len() + b.len());
    assert(d.take(p) + (a + b) + r =~= d.take(p) + a + (b + r));
    assert(d.take(p + a.len()) =~= d.take(p) + a);
    assert(d.take(p) + (a + b) + r =~= d.take(p) + a + b + r);
}

/// A section of variables, read at `p`.
#[verifier::spinoff_prover]
#[verifier::rlimit(100)]
pub proof fn lemma_vars_section(d: Seq<u8>, p: int, ia: int, acc: ClassView, vs: Seq<VariableView>)
    requires
        0 <= p,
        vs.len() <= 65535,
        forall|i: int| 0 <= i < vs.len() ==> writable_var(#[trigger] vs[i]),
        acc.vars == Seq::<VariableView>::empty(),
        ({
            let body = le16_bytes((vs.len() % 65536) as u16) + vars_bytes(vs);
            d == d.take(p) + body + d.skip(p + body.len())
        }),
        p + 2 + vars_bytes(vs).len() <= d.len(),
    ensures
        section_at(d, p, VARS, ia, acc) == Some(
            (ClassView { vars: vs, ..acc }, p + 2 + vars_bytes(vs).len()),
        ),
{
    lemma_section_at_vars(d, p, ia, acc);
    let n = (vs.len() % 65536) as u16;
    let rest = d.skip(p + 2 + vars_bytes(vs).len());
    lemma_reframe(d, p, le16_bytes(n), vars_bytes(vs));
    law_u16_round_trip(d.take(p), n, vars_bytes(vs) + rest);
    lemma_vars_from(d.take(p + 2), vs, rest, acc.vars);
    assert(acc.vars + vs =~= vs);
}

/// A section of children, read at `p` in a file of a recent version.
#[verifier::spinoff_prover]
#[verifier::rlimit(100)]
pub proof fn lemma_children_section(d: Seq<u8>, p: int, ia: int, acc: ClassView, cs: Seq<ChildView>)
    requires
        0 <= p,
        cs.len() <= 65535,
        forall|i: int| 0 <= i < cs.len() ==> writable_child(#[trigger] cs[i]),
        acc.children == Seq::<ChildView>::empty(),
        acc.version >= 0x3002,
        ({
            let body = le16_bytes((cs.len() % 65536) as u16) + children_bytes(cs);
            d == d.take(p) + body + d.skip(p + body.len())
        }),
        p + 2 + children_bytes(cs).len() <= d.len(),
    ensures
        section_at(d, p, CHILDREN, ia, acc) == Some(
            (ClassView { children: cs, ..acc }, p + 2 + children_bytes(cs).len()),
        ),
{
    let n = (cs.len() % 65536) as u16;
    let rest = d.skip(p + 2 + children_bytes(cs).len());
    let x = d.take(p + 2);
    assert(u16_at(d, p) == cs.len()) by {
        lemma_reframe(d, p, le16_bytes(n), children_bytes(cs));
        law_u16_round_trip(d.take(p), n, children_bytes(cs) + rest);
    }
    assert(d == x + children_bytes(cs) + rest) by {
        lemma_reframe(d, p, le16_bytes(n), children_bytes(cs));
    }
    assert(children_from(d, p + 2, cs.len(), acc.version, acc.children) == Some(
        (cs, p + 2 + children_bytes(cs).len()),
    )) by {
        lemma_children_from(x, cs, rest, acc.version, acc.children);
        assert(acc.children + cs =~= cs);
    }
    lemma_section_at_children(d, p, ia, acc);
}

/// A section of links, read at `p`.
#[verifier::spinoff_prover]
#[verifier::rlimit(100)]
pub proof fn lemma_links_section(d: Seq<u8>, p: int, ia: int, acc: ClassView, ls: Seq<LinkView>)
    requires
        0 <= p,
        ls.len() <= 65535,
        forall|i: int| 0 <= i < ls.len() ==> writable_link(#[trigger] ls[i]),
        acc.links == Seq::<LinkView>::empty(),
        ({
            let body = le16_bytes((ls.len() % 65536) as u16) + links_bytes(ls);
            d == d.take(p) + body + d.skip(p + body.len())
        }),
        p + 2 + links_bytes(ls).len() <= d.len(),
    ensures
        section_at(d, p, LINKS, ia, acc) == Some(
            (ClassView { links: plain_links(ls), ..acc }, p + 2 + links_bytes(ls).len()),
        ),
{
    lemma_section_at_links(d, p, ia, acc);
    let n = (ls.len() % 65536) as u16;
    let rest = d.skip(p + 2 + links_bytes(ls).len());
    lemma_reframe(d, p, le16_bytes(n), links_bytes(ls));
    law_u16_round_trip(d.take(p), n, links_bytes(ls) + rest);
    lemma_links_from(d.take(p + 2), ls, rest, acc.links);
    assert(acc.links + plain_links(ls) =~= plain_links(ls));
}

/// A picture block (icon, picture or scheme), read at `p`.
#[verifier::spinoff_prover]
#[verifier::rlimit(100)]
pub proof fn lemma_blob_section(d: Seq<u8>, p: int, ia: int, acc: ClassView, id: u16, b: Seq<u8>)
    requires
        0 <= p,
        id == ICON || id == IMAGE || id == SCHEME,
        b.len() + 4 <= u32::MAX,
        d == d.take(p) + blob_body(b) + d.skip(p + blob_body(b).len()),
        p + 4 + b.len() <= d.len(),
    ensures
        section_at(d, p, id, ia, acc) == Some(
            (
                if id == ICON {
                    ClassView { icon: Some(b), ..acc }
                } else if id == IMAGE {
                    ClassView { image: Some(b), ..acc }
                } else {
                    ClassView { scheme: Some(b), ..acc }
                },
                p + 4 + b.len(),
            ),
        ),
{
    reveal(section_at);
    assert(b.len() % 0x1_0000_0000 == b.len()) by {
        vstd::arithmetic::div_mod::lemma_small_mod(b.len(), 0x1_0000_0000);
    }
    assert((b.len() + 4) % 0x1_0000_0000 == b.len() + 4) by {
        vstd::arithmetic::div_mod::lemma_small_mod((b.len() + 4) as nat, 0x1_0000_0000);
    }
    let size = (b.len() + 4) as u32;
    assert(blob_body(b) == le32_bytes(size) + b);
    let rest = d.skip(p + 4 + b.len());
    assert(d =~= d.take(p) + le32_bytes(size) + (b + rest));
    law_u32_round_trip(d.take(p), size, b + rest);
    assert(u32_at(d, p) == b.len() + 4);
    assert(d.subrange(p + 4, p + 4 + b.len()) =~= b);
    assert(block_at(d, p + 4, b.len() as int) == Some((b, p + 4 + b.len())));
}

#[verifier::spinoff_prover]
#[verifier::rlimit(100)]
pub proof fn lemma_group_vars(d: Seq<u8>, pos: int, ia: int, acc: ClassView, c: ClassView)
    requires
        0 <= pos,
        pos + sections_bytes(piece_vars(c)).len() <= ia <= d.len(),
        d.subrange(pos, pos + sections_bytes(piece_vars(c)).len()) == sections_bytes(piece_vars(c)),
        acc.vars == Seq::<VariableView>::empty(),
        c.vars.len() <= 65535,
        forall|i: int| 0 <= i < c.vars.len() ==> writable_var(#[trigger] c.vars[i]),
    ensures
        sections_from(d, pos, ia, acc) == sections_from(
            d,
            pos + sections_bytes(piece_vars(c)).len(),
            ia,
            ClassView { vars: c.vars, ..acc },
        ),
{
    lemma_opt_bytes(if c.vars.len() > 0 { Some(le16_bytes((c.vars.len() % 65536) as u16) + vars_bytes(c.vars)) } else { None }, VARS, false);
    if c.vars.len() > 0 {
        let body = le16_bytes((c.vars.len() % 65536) as u16) + vars_bytes(c.vars);
        let p = pos + 2;
        lemma_body_slice(d, pos, VARS, body);
        lemma_split(d, p, body);
        assert(section_at(d, p, VARS, ia, acc) == Some((ClassView { vars: c.vars, ..acc }, p + body.len()))) by {
            lemma_vars_section(d, p, ia, acc, c.vars);
        }
        lemma_section_step(d, pos, ia, acc, VARS, body, ClassView { vars: c.vars, ..acc });
    } else {
        assert(c.vars =~= acc.vars);
        assert(ClassView { vars: c.vars, ..acc } == acc);
    }
}

#[verifier::spinoff_prover]
#[verifier::rlimit(100)]
pub proof fn lemma_group_children(d: Seq<u8>, pos: int, ia: int, acc: ClassView, c: ClassView)
    requires
        0 <= pos,
        pos + sections_bytes(piece_children(c)).len() <= ia <= d.len(),
        d.subrange(pos, pos + sections_bytes(piece_children(c)).len()) == sections_bytes(piece_children(c)),
        acc.children == Seq::<ChildView>::empty(),
        acc.version >= 0x3002,
        c.children.len() <= 65535,
        forall|i: int| 0 <= i < c.children.len() ==> writable_child(#[trigger] c.children[i]),
    ensures
        sections_from(d, pos, ia, acc) == sections_from(
            d,
            pos + sections_bytes(piece_children(c)).len(),
            ia,
            ClassView { children: c.children, ..acc },
        ),
{
    lemma_opt_bytes(if c.children.len() > 0 { Some(le16_bytes((c.children.len() % 65536) as u16) + children_bytes(c.children)) } else { None }, CHILDREN, false);
    if c.children.len() > 0 {
        let body = le16_bytes((c.children.len() % 65536) as u16) + children_bytes(c.children);
        let p = pos + 2;
        lemma_body_slice(d, pos, CHILDREN, body);
        lemma_split(d, p, body);
        assert(section_at(d, p, CHILDREN, ia, acc) == Some((ClassView { children: c.children, ..acc }, p + body.len()))) by {
            lemma_children_section(d, p, ia, acc, c.children);
        }
        lemma_section_step(d, pos, ia, acc, CHILDREN, body, ClassView { children: c.children, ..acc });
    } else {
        assert(c.children =~= acc.children);
        assert(ClassView { children: c.children, ..acc } == acc);
    }
}

#[verifier::spinoff_prover]
#[verifier::rlimit(100)]
pub proof fn lemma_group_links(d: Seq<u8>, pos: int, ia: int, acc: ClassView, c: ClassView)
    requires
        0 <= pos,
        pos + sections_bytes(piece_links(c)).len() <= ia <= d.len(),
        d.subrange(pos, pos + sections_bytes(piece_links(c)).len()) == sections_bytes(piece_links(c)),
        acc.links == Seq::<LinkView>::empty(),
        c.links.len() <= 65535,
        forall|i: int| 0 <= i < c.links.len() ==> writable_link(#[trigger] c.links[i]),
    ensures
        sections_from(d, pos, ia, acc) == sections_from(
            d,
            pos + sections_bytes(piece_links(c)).len(),
            ia,
            ClassView { links: plain_links(c.links), ..acc },
        ),
{
    lemma_opt_bytes(if c.links.len() > 0 { Some(le16_bytes((c.links.len() % 65536) as u16) + links_bytes(c.links)) } else { None }, LINKS, false);
    if c.links.len() > 0 {
        let body = le16_bytes((c.links.len() % 65536) as u16) + links_bytes(c.links);
        let p = pos + 2;
        lemma_body_slice(d, pos, LINKS, body);
        lemma_split(d, p, body);
        assert(section_at(d, p, LINKS, ia, acc) == Some((ClassView { links: plain_links(c.links), ..acc }, p + body.len()))) by {
            lemma_links_section(d, p, ia, acc, c.links);
        }
        lemma_section_step(d, pos, ia, acc, LINKS, body, ClassView { links: plain_links(c.links), ..acc });
    } else {
        assert(plain_links(c.links) =~= acc.links);
        assert(ClassView { links: plain_links(c.links), ..acc } == acc);
    }
}

#[verifier::spinoff_prover]
#[verifier::rlimit(100)]
pub proof fn lemma_group_icon(d: Seq<u8>, pos: int, ia: int, acc: ClassView, c: ClassView)
    requires
        0 <= pos,
        pos + sections_bytes(piece_icon(c)).len() <= ia <= d.len(),
        d.subrange(pos, pos + sections_bytes(piece_icon(c)).len()) == sections_bytes(piece_icon(c)),
        acc.icon is None,
        c.icon matches Some(b) ==> b.len() + 4 <= u32::MAX,
    ensures
        sections_from(d, pos, ia, acc) == sections_from(
            d,
            pos + sections_bytes(piece_icon(c)).len(),
            ia,
            ClassView { icon: c.icon, ..acc },
        ),
{
    lemma_opt_bytes(match c.icon { Some(b) => Some(blob_body(b)), None => None }, ICON, true);
    if c.icon is Some {
        let body = blob_body(c.icon.unwrap());
        let p = pos + 2;
        lemma_body_slice(d, pos, ICON, body);
        lemma_split(d, p, body);
        assert(section_at(d, p, ICON, ia, acc) == Some((ClassView { icon: c.icon, ..acc }, p + body.len()))) by {
            reveal(section_at);
            lemma_blob_section(d, p, ia, acc, ICON, c.icon.unwrap());
        }
        lemma_section_step(d, pos, ia, acc, ICON, body, ClassView { icon: c.icon, ..acc });
    } else {
        assert(ClassView { icon: c.icon, ..acc } == acc);
    }
}

#[verifier::spinoff_prover]
#[verifier::rlimit(100)]
pub proof fn lemma_group_image(d: Seq<u8>, pos: int, ia: int, acc: ClassView, c: ClassView)
    requires
        0 <= pos,
        pos + sections_bytes(piece_image(c)).len() <= ia <= d.len(),
        d.subrange(pos, pos + sections_bytes(piece_image(c)).len()) == sections_bytes(piece_image(c)),
        acc.image is None,
        c.image matches Some(b) ==> b.len() + 4 <= u32::MAX,
    ensures
        sections_from(d, pos, ia, acc) == sections_from(
            d,
            pos + sections_bytes(piece_image(c)).len(),
            ia,
            ClassView { image: c.image, ..acc },
        ),
{
    lemma_opt_bytes(match c.image { Some(b) => Some(blob_body(b)), None => None }, IMAGE, true);
    if c.image is Some {
        let body = blob_body(c.image.unwrap());
        let p = pos + 2;
        lemma_body_slice(d, pos, IMAGE, body);
        lemma_split(d, p, body);
        assert(section_at(d, p, IMAGE, ia, acc) == Some((ClassView { image: c.image, ..acc }, p + body.len()))) by {
            reveal(section_at);
            lemma_blob_section(d, p, ia, acc, IMAGE, c.image.unwrap());
        }
        lemma_section_step(d, pos, ia, acc, IMAGE, body, ClassView { image: c.image, ..acc });
    } else {
        assert(ClassView { image: c.image, ..acc } == acc);
    }
}

#[verifier::spinoff_prover]
#[verifier::rlimit(100)]
pub proof fn lemma_group_scheme(d: Seq<u8>, pos: int, ia: int, acc: ClassView, c: ClassView)
    requires
        0 <= pos,
        pos + sections_bytes(piece_scheme(c)).len() <= ia <= d.len(),
        d.subrange(pos, pos + sections_bytes(piece_scheme(c)).len()) == sections_bytes(piece_scheme(c)),
        acc.scheme is None,
        c.scheme matches Some(b) ==> b.len() + 4 <= u32::MAX,
    ensures
        sections_from(d, pos, ia, acc) == sections_from(
            d,
            pos + sections_bytes(piece_scheme(c)).len(),
            ia,
            ClassView { scheme: c.scheme, ..acc },
        ),
{
    lemma_opt_bytes(match c.scheme { Some(b) => Some(blob_body(b)), None => None }, SCHEME, true);
    if c.scheme is Some {
        let body = blob_body(c.scheme.unwrap());
        let p = pos + 2;
        lemma_body_slice(d, pos, SCHEME, body);
        lemma_split(d, p, body);
        assert(section_at(d, p, SCHEME, ia, acc) == Some((ClassView { scheme: c.scheme, ..acc }, p + body.len()))) by {
            reveal(section_at);
            lemma_blob_section(d, p, ia, acc, SCHEME, c.scheme.unwrap());
        }
        lemma_section_step(d, pos, ia, acc, SCHEME, body, ClassView { scheme: c.scheme, ..acc });
    } else {
        assert(ClassView { scheme: c.scheme, ..acc } == acc);
    }
}

#[verifier::spinoff_prover]
#[verifier::rlimit(100)]
pub proof fn lemma_group_icon_file(d: Seq<u8>, pos: int, ia: int, acc: ClassView, c: ClassView)
    requires
        0 <= pos,
        pos + sections_bytes(piece_icon_file(c)).len() <= ia <= d.len(),
        d.subrange(pos, pos + sections_bytes(piece_icon_file(c)).len()) == sections_bytes(piece_icon_file(c)),
        acc.icon_file is None,
        c.icon_file matches Some(f) ==> fits_string(f),
    ensures
        sections_from(d, pos, ia, acc) == sections_from(
            d,
            pos + sections_bytes(piece_icon_file(c)).len(),
            ia,
            ClassView { icon_file: c.icon_file, ..acc },
        ),
{
    lemma_opt_bytes(match c.icon_file { Some(f) => Some(string_bytes(f)), None => None }, ICON_FILE, false);
    if c.icon_file is Some {
        let body = string_bytes(c.icon_file.unwrap());
        let p = pos + 2;
        lemma_body_slice(d, pos, ICON_FILE, body);
        lemma_split(d, p, body);
        assert(section_at(d, p, ICON_FILE, ia, acc) == Some((ClassView { icon_file: c.icon_file, ..acc }, p + body.len()))) by {
            reveal(section_at);
            lemma_string_at(d.take(p), c.icon_file.unwrap(), d.skip(p + body.len()));
        }
        lemma_section_step(d, pos, ia, acc, ICON_FILE, body, ClassView { icon_file: c.icon_file, ..acc });
    } else {
        assert(ClassView { icon_file: c.icon_file, ..acc } == acc);
    }
}

#[verifier::spinoff_prover]
#[verifier::rlimit(100)]
pub proof fn lemma_group_icon_index(d: Seq<u8>, pos: int, ia: int, acc: ClassView, c: ClassView)
    requires
        0 <= pos,
        pos + sections_bytes(piece_icon_index(c)).len() <= ia <= d.len(),
        d.subrange(pos, pos + sections_bytes(piece_icon_index(c)).len()) == sections_bytes(piece_icon_index(c)),
        acc.icon_index is None,
    ensures
        sections_from(d, pos, ia, acc) == sections_from(
            d,
            pos + sections_bytes(piece_icon_index(c)).len(),
            ia,
            ClassView { icon_index: c.icon_index, ..acc },
        ),
{
    lemma_opt_bytes(match c.icon_index { Some(i) => Some(le16_bytes(i)), None => None }, ICON_INDEX, false);
    if c.icon_index is Some {
        let body = le16_bytes(c.icon_index.unwrap());
        let p = pos + 2;
        lemma_body_slice(d, pos, ICON_INDEX, body);
        lemma_split(d, p, body);
        assert(section_at(d, p, ICON_INDEX, ia, acc) == Some((ClassView { icon_index: c.icon_index, ..acc }, p + body.len()))) by {
            reveal(section_at);
            law_u16_round_trip(d.take(p), c.icon_index.unwrap(), d.skip(p + 2));
        }
        lemma_section_step(d, pos, ia, acc, ICON_INDEX, body, ClassView { icon_index: c.icon_index, ..acc });
    } else {
        assert(ClassView { icon_index: c.icon_index, ..acc } == acc);
    }
}

#[verifier::spinoff_prover]
#[verifier::rlimit(100)]
pub proof fn lemma_group_equations(d: Seq<u8>, pos: int, ia: int, acc: ClassView, c: ClassView)
    requires
        0 <= pos,
        pos + sections_bytes(piece_equations(c)).len() <= ia <= d.len(),
        d.subrange(pos, pos + sections_bytes(piece_equations(c)).len()) == sections_bytes(piece_equations(c)),
        acc.equations is None,
        c.equations matches Some(e) ==> equations_end(d, ia) == pos + 2 + e.len(),
    ensures
        sections_from(d, pos, ia, acc) == sections_from(
            d,
            pos + sections_bytes(piece_equations(c)).len(),
            ia,
            ClassView { equations: c.equations, ..acc },
        ),
{
    lemma_opt_bytes(c.equations, EQUATIONS, false);
    if c.equations is Some {
        let body = c.equations.unwrap();
        let p = pos + 2;
        lemma_body_slice(d, pos, EQUATIONS, body);
        lemma_split(d, p, body);
        assert(section_at(d, p, EQUATIONS, ia, acc) == Some((ClassView { equations: c.equations, ..acc }, p + body.len()))) by {
            reveal(section_at);
            assert(d.subrange(p, p + body.len()) =~= body);
        }
        lemma_section_step(d, pos, ia, acc, EQUATIONS, body, ClassView { equations: c.equations, ..acc });
    } else {
        assert(ClassView { equations: c.equations, ..acc } == acc);
    }
}

#[verifier::spinoff_prover]
#[verifier::rlimit(100)]
pub proof fn lemma_group_timestamp(d: Seq<u8>, pos: int, ia: int, acc: ClassView, c: ClassView)
    requires
        0 <= pos,
        pos + sections_bytes(piece_timestamp(c)).len() <= ia <= d.len(),
        d.subrange(pos, pos + sections_bytes(piece_timestamp(c)).len()) == sections_bytes(piece_timestamp(c)),
        acc.timestamp is None,
    ensures
        sections_from(d, pos, ia, acc) == sections_from(
            d,
            pos + sections_bytes(piece_timestamp(c)).len(),
            ia,
            ClassView { timestamp: c.timestamp, ..acc },
        ),
{
    lemma_opt_bytes(match c.timestamp { Some(t) => Some(le32_bytes(t)), None => None }, TIMESTAMP, false);
    if c.timestamp is Some {
        let body = le32_bytes(c.timestamp.unwrap());
        let p = pos + 2;
        lemma_body_slice(d, pos, TIMESTAMP, body);
        lemma_split(d, p, body);
        assert(section_at(d, p, TIMESTAMP, ia, acc) == Some((ClassView { timestamp: c.timestamp, ..acc }, p + body.len()))) by {
            reveal(section_at);
            law_u32_round_trip(d.take(p), c.timestamp.unwrap(), d.skip(p + 4));
        }
        lemma_section_step(d, pos, ia, acc, TIMESTAMP, body, ClassView { timestamp: c.timestamp, ..acc });
    } else {
        assert(ClassView { timestamp: c.timestamp, ..acc } == acc);
    }
}

/// Where the equations that `write` writes for `c` end: before the time
/// stamp and end marker when there is a time stamp, else at the end of the
/// body.
pub open spec fn equations_stop(c: ClassView) -> int {
    class_body(c).len() - if c.timestamp is Some { 8int } else { 0int }
}

/// A class that `write` writes and `parse` reads back whole: strings the
/// code page holds and that fit their length fields, counts that fit 16
/// bits, picture blocks whose size fits 32 bits, a file whose size fits
/// the 32-bit body size, and equations whose end the reader finds where
/// the writer put it (it takes equations whose last bytes look like a time
/// stamp for a shorter block).
pub open spec fn writable_class(c: ClassView) -> bool {
    &&& fits_string(c.name)
    &&& fits_string(c.description)
    &&& fits_string(c.text)
    &&& (c.icon_file matches Some(f) ==> fits_string(f))
    &&& c.vars.len() <= 65535
    &&& (forall|i: int| 0 <= i < c.vars.len() ==> writable_var(#[trigger] c.vars[i]))
    &&& c.children.len() <= 65535
    &&& (forall|i: int| 0 <= i < c.children.len() ==> writable_child(#[trigger] c.children[i]))
    &&& c.links.len() <= 65535
    &&& (forall|i: int| 0 <= i < c.links.len() ==> writable_link(#[trigger] c.links[i]))
    &&& (c.icon matches Some(b) ==> b.len() + 4 <= u32::MAX)
    &&& (c.image matches Some(b) ==> b.len() + 4 <= u32::MAX)
    &&& (c.scheme matches Some(b) ==> b.len() + 4 <= u32::MAX)
    &&& class_bytes(c).len() <= u32::MAX
    &&& (c.equations is Some ==> equations_end(class_bytes(c), class_body(c).len() as int)
        == equations_stop(c))
}

/// The class read back from what `write` wrote of `c` at `path`: its
/// source is the path, its version the one written, its links have the
/// default style and it has no bytecode.
pub open spec fn class_read_back(c: ClassView, path: Seq<char>) -> ClassView {
    ClassView {
        source: path,
        version: written_version(c.version),
        links: plain_links(c.links),
        bytecode: None,
        ..c
    }
}

/// The file differs from its body only in the two sizes and the index
/// after it.
pub proof fn lemma_finished_region(g: Seq<u8>, idx: Seq<(u16, u32)>)
    requires
        g.len() >= 14,
    ensures
        ({
            let d = finished(g, idx);
            &&& d.len() >= g.len()
            &&& (forall|i: int| 0 <= i < 6 ==> d[i] == g[i])
            &&& d.subrange(14, g.len() as int) == g.subrange(14, g.len() as int)
            &&& u32_at(d, 6) == ((g.len() - 6) % 0x1_0000_0000) as u32
        }),
{
    let d = finished(g, idx);
    let body_end = ((g.len() - 6) % 0x1_0000_0000) as u32;
    let index_size = ((idx.len() * 6) % 0x1_0000_0000) as u32;
    let r = le32_bytes(index_size) + g.subrange(14, g.len() as int) + crate::formats::cls::index_bytes(idx);
    assert(d =~= g.subrange(0, 6) + le32_bytes(body_end) + r);
    law_u32_round_trip(g.subrange(0, 6), body_end, r);
    assert(d.subrange(14, g.len() as int) =~= g.subrange(14, g.len() as int));
}

/// Bytes of the body at or after offset 14 are those of the file.
pub proof fn lemma_slice_of(d: Seq<u8>, g: Seq<u8>, x: Seq<u8>, b: Seq<u8>, y: Seq<u8>)
    requires
        g == x + (b + y),
        14 <= x.len(),
        g.len() <= d.len(),
        d.subrange(14, g.len() as int) == g.subrange(14, g.len() as int),
    ensures
        d.subrange(x.len() as int, x.len() + b.len() as int) == b,
{
    let lo = x.len() as int;
    let hi = x.len() + b.len() as int;
    assert forall|i: int| 0 <= i < b.len() implies d.subrange(lo, hi)[i] == b[i] by {
        assert(d.subrange(14, g.len() as int)[lo + i - 14] == d[lo + i]);
        assert(g.subrange(14, g.len() as int)[lo + i - 14] == g[lo + i]);
        assert(g[lo + i] == b[i]);
    }
    assert(d.subrange(lo, hi) =~= b);
}

/// The bytes of the `k`-th group of sections (from 1 to 13) in the order
/// `write` writes them.
pub open spec fn group_bytes(c: ClassView, k: int) -> Seq<u8> {
    if k == 1 {
        sections_bytes(piece_flags(c))
    } else if k == 2 {
        sections_bytes(piece_description(c))
    } else if k == 3 {
        sections_bytes(piece_vars(c))
    } else if k == 4 {
        sections_bytes(piece_text(c))
    } else if k == 5 {
        sections_bytes(piece_children(c))
    } else if k == 6 {
        sections_bytes(piece_links(c))
    } else if k == 7 {
        sections_bytes(piece_icon(c))
    } else if k == 8 {
        sections_bytes(piece_image(c))
    } else if k == 9 {
        sections_bytes(piece_scheme(c))
    } else if k == 10 {
        sections_bytes(piece_icon_file(c))
    } else if k == 11 {
        sections_bytes(piece_icon_index(c))
    } else if k == 12 {
        sections_bytes(piece_equations(c))
    } else {
        sections_bytes(piece_timestamp(c))
    }
}

/// The head and the first `k` groups of sections.
pub open spec fn upto(c: ClassView, k: nat) -> Seq<u8>
    decreases k,
{
    if k == 0 {
        class_head(c)
    } else {
        upto(c, (k - 1) as nat) + group_bytes(c, k as int)
    }
}

/// The groups after the first `k`, then the end marker.
pub open spec fn after(c: ClassView, k: nat) -> Seq<u8>
    decreases 13 - k,
{
    if k >= 13 {
        end_marker(c)
    } else {
        group_bytes(c, k + 1 as int) + after(c, k + 1)
    }
}

pub proof fn lemma_upto_len(c: ClassView, k: nat)
    ensures
        upto(c, k).len() >= class_head(c).len(),
    decreases k,
{
    if k > 0 {
        lemma_upto_len(c, (k - 1) as nat);
    }
}

/// The head and all thirteen groups.
#[verifier::spinoff_prover]
#[verifier::rlimit(60)]
proof fn lemma_upto_13(c: ClassView)
    ensures
        upto(c, 13) == class_head(c) + sections_bytes(pieces(c)),
{
    lemma_pieces_bytes(c);
    let head = class_head(c);
    let s1 = sections_bytes(piece_flags(c));
    assert(upto(c, 0) == head);
    assert(upto(c, 1) =~= head + s1);
    let s2 = s1 + sections_bytes(piece_description(c));
    assert(upto(c, 2) == upto(c, 1) + group_bytes(c, 2));
    vstd::seq_lib::lemma_concat_associative(head, s1, sections_bytes(piece_description(c)));
    let s3 = s2 + sections_bytes(piece_vars(c));
    assert(upto(c, 3) == upto(c, 2) + group_bytes(c, 3));
    vstd::seq_lib::lemma_concat_associative(head, s2, sections_bytes(piece_vars(c)));
    let s4 = s3 + sections_bytes(piece_text(c));
    assert(upto(c, 4) == upto(c, 3) + group_bytes(c, 4));
    vstd::seq_lib::lemma_concat_associative(head, s3, sections_bytes(piece_text(c)));
    let s5 = s4 + sections_bytes(piece_children(c));
    assert(upto(c, 5) == upto(c, 4) + group_bytes(c, 5));
    vstd::seq_lib::lemma_concat_associative(head, s4, sections_bytes(piece_children(c)));
    let s6 = s5 + sections_bytes(piece_links(c));
    assert(upto(c, 6) == upto(c, 5) + group_bytes(c, 6));
    vstd::seq_lib::lemma_concat_associative(head, s5, sections_bytes(piece_links(c)));
    let s7 = s6 + sections_bytes(piece_icon(c));
    assert(upto(c, 7) == upto(c, 6) + group_bytes(c, 7));
    vstd::seq_lib::lemma_concat_associative(head, s6, sections_bytes(piece_icon(c)));
    let s8 = s7 + sections_bytes(piece_image(c));
    assert(upto(c, 8) == upto(c, 7) + group_bytes(c, 8));
    vstd::seq_lib::lemma_concat_associative(head, s7, sections_bytes(piece_image(c)));
    let s9 = s8 + sections_bytes(piece_scheme(c));
    assert(upto(c, 9) == upto(c, 8) + group_bytes(c, 9));
    vstd::seq_lib::lemma_concat_associative(head, s8, sections_bytes(piece_scheme(c)));
    let s10 = s9 + sections_bytes(piece_icon_file(c));
    assert(upto(c, 10) == upto(c, 9) + group_bytes(c, 10));
    vstd::seq_lib::lemma_concat_associative(head, s9, sections_bytes(piece_icon_file(c)));
    let s11 = s10 + sections_bytes(piece_icon_index(c));
    assert(upto(c, 11) == upto(c, 10) + group_bytes(c, 11));
    vstd::seq_lib::lemma_concat_associative(head, s10, sections_bytes(piece_icon_index(c)));
    let s12 = s11 + sections_bytes(piece_equations(c));
    assert(upto(c, 12) == upto(c, 11) + group_bytes(c, 12));
    vstd::seq_lib::lemma_concat_associative(head, s11, sections_bytes(piece_equations(c)));
    let s13 = s12 + sections_bytes(piece_timestamp(c));
    assert(upto(c, 13) == upto(c, 12) + group_bytes(c, 13));
    vstd::seq_lib::lemma_concat_associative(head, s12, sections_bytes(piece_timestamp(c)));
}

/// The body cut after any group.
pub proof fn lemma_body_split(c: ClassView, k: nat)
    requires
        k <= 13,
    ensures
        class_body(c) == upto(c, k) + after(c, k),
    decreases 13 - k,
{
    if k == 13 {
        let st0 = (class_head(c), Seq::<(u16, u32)>::empty());
        lemma_emit_all_bytes(st0, pieces(c));
        lemma_pieces_bytes(c);
        lemma_upto_13(c);
        assert(class_body(c) =~= upto(c, 13) + after(c, 13));
    } else {
        lemma_body_split(c, k + 1);
        assert(upto(c, k + 1) + after(c, k + 1) =~= upto(c, k) + after(c, k));
    }
}

/// The `k`-th group of sections stands in the file where the body has it.
pub proof fn lemma_group_slice(c: ClassView, d: Seq<u8>, k: nat)
    requires
        1 <= k <= 13,
        class_head(c).len() >= 14,
        class_body(c).len() <= d.len(),
        d.subrange(14, class_body(c).len() as int) == class_body(c).subrange(14, class_body(c).len() as int),
    ensures
        d.subrange(upto(c, (k - 1) as nat).len() as int, upto(c, k).len() as int) == group_bytes(c, k as int),
        upto(c, k).len() <= class_body(c).len(),
{
    lemma_body_split(c, k);
    lemma_upto_len(c, (k - 1) as nat);
    let x = upto(c, (k - 1) as nat);
    let b = group_bytes(c, k as int);
    assert(class_body(c) =~= x + (b + after(c, k)));
    lemma_slice_of(d, class_body(c), x, b, after(c, k));
}

/// Reading groups 1 to 6 of the sections.
#[verifier::spinoff_prover]
#[verifier::rlimit(100)]
proof fn lemma_walk_first(c: ClassView, d: Seq<u8>, ia: int, acc: ClassView)
    requires
        writable_class(c),
        class_head(c).len() >= 14,
        class_body(c).len() <= d.len(),
        d.subrange(14, class_body(c).len() as int) == class_body(c).subrange(14, class_body(c).len() as int),
        ia == class_body(c).len(),
        acc.flags is None,
        acc.description == Seq::<char>::empty(),
        acc.vars == Seq::<VariableView>::empty(),
        acc.text == Seq::<char>::empty(),
        acc.children == Seq::<ChildView>::empty(),
        acc.version >= 0x3002,
        acc.links == Seq::<LinkView>::empty(),
    ensures
        sections_from(d, upto(c, 0).len() as int, ia, acc) == sections_from(
            d,
            upto(c, 6).len() as int,
            ia,
            ClassView { flags: c.flags, description: c.description, vars: c.vars, text: c.text, children: c.children, links: plain_links(c.links), ..acc },
        ),
{
    lemma_group_slice(c, d, 1);
    lemma_upto_len(c, 0);
    let a1 = ClassView { flags: c.flags, ..acc };
    lemma_group_flags(d, upto(c, 0).len() as int, ia, acc, c);
    lemma_group_slice(c, d, 2);
    lemma_upto_len(c, 1);
    let a2 = ClassView { description: c.description, ..a1 };
    lemma_group_description(d, upto(c, 1).len() as int, ia, a1, c);
    lemma_group_slice(c, d, 3);
    lemma_upto_len(c, 2);
    let a3 = ClassView { vars: c.vars, ..a2 };
    lemma_group_vars(d, upto(c, 2).len() as int, ia, a2, c);
    lemma_group_slice(c, d, 4);
    lemma_upto_len(c, 3);
    let a4 = ClassView { text: c.text, ..a3 };
    lemma_group_text(d, upto(c, 3).len() as int, ia, a3, c);
    lemma_group_slice(c, d, 5);
    lemma_upto_len(c, 4);
    let a5 = ClassView { children: c.children, ..a4 };
    lemma_group_children(d, upto(c, 4).len() as int, ia, a4, c);
    lemma_group_slice(c, d, 6);
    lemma_upto_len(c, 5);
    let a6 = ClassView { links: plain_links(c.links), ..a5 };
    lemma_group_links(d, upto(c, 5).len() as int, ia, a5, c);
    assert(a6 == ClassView { flags: c.flags, description: c.description, vars: c.vars, text: c.text, children: c.children, links: plain_links(c.links), ..acc });
}

/// Reading groups 7 to 13 of the sections.
#[verifier::spinoff_prover]
#[verifier::rlimit(100)]
proof fn lemma_walk_second(c: ClassView, d: Seq<u8>, ia: int, acc: ClassView)
    requires
        writable_class(c),
        class_head(c).len() >= 14,
        class_body(c).len() <= d.len(),
        d.subrange(14, class_body(c).len() as int) == class_body(c).subrange(14, class_body(c).len() as int),
        ia == class_body(c).len(),
        acc.icon is None,
        acc.image is None,
        acc.scheme is None,
        acc.icon_file is None,
        acc.icon_index is None,
        acc.equations is None,
        acc.timestamp is None,
        c.equations matches Some(e) ==> equations_end(d, ia) == upto(c, 11).len() + 2 + e.len(),
    ensures
        sections_from(d, upto(c, 6).len() as int, ia, acc) == sections_from(
            d,
            upto(c, 13).len() as int,
            ia,
            ClassView { icon: c.icon, image: c.image, scheme: c.scheme, icon_file: c.icon_file, icon_index: c.icon_index, equations: c.equations, timestamp: c.timestamp, ..acc },
        ),
{
    lemma_group_slice(c, d, 7);
    lemma_upto_len(c, 6);
    let a7 = ClassView { icon: c.icon, ..acc };
    lemma_group_icon(d, upto(c, 6).len() as int, ia, acc, c);
    lemma_group_slice(c, d, 8);
    lemma_upto_len(c, 7);
    let a8 = ClassView { image: c.image, ..a7 };
    lemma_group_image(d, upto(c, 7).len() as int, ia, a7, c);
    lemma_group_slice(c, d, 9);
    lemma_upto_len(c, 8);
    let a9 = ClassView { scheme: c.scheme, ..a8 };
    lemma_group_scheme(d, upto(c, 8).len() as int, ia, a8, c);
    lemma_group_slice(c, d, 10);
    lemma_upto_len(c, 9);
    let a10 = ClassView { icon_file: c.icon_file, ..a9 };
    lemma_group_icon_file(d, upto(c, 9).len() as int, ia, a9, c);
    lemma_group_slice(c, d, 11);
    lemma_upto_len(c, 10);
    let a11 = ClassView { icon_index: c.icon_index, ..a10 };
    lemma_group_icon_index(d, upto(c, 10).len() as int, ia, a10, c);
    lemma_group_slice(c, d, 12);
    lemma_upto_len(c, 11);
    let a12 = ClassView { equations: c.equations, ..a11 };
    lemma_group_equations(d, upto(c, 11).len() as int, ia, a11, c);
    lemma_group_slice(c, d, 13);
    lemma_upto_len(c, 12);
    let a13 = ClassView { timestamp: c.timestamp, ..a12 };
    lemma_group_timestamp(d, upto(c, 12).len() as int, ia, a12, c);
    assert(a13 == ClassView { icon: c.icon, image: c.image, scheme: c.scheme, icon_file: c.icon_file, icon_index: c.icon_index, equations: c.equations, timestamp: c.timestamp, ..acc });
}

/// The head of a file: signature, version, size of the body, name; then
/// the sections.
#[verifier::spinoff_prover]
#[verifier::rlimit(60)]
proof fn lemma_head_read(g: Seq<u8>, idx: Seq<(u16, u32)>, name: Seq<char>, wv: u32, y: Seq<u8>, path: Seq<char>)
    requires
        fits_string(name),
        g == seq![0x53u8, 0x42] + le32_bytes(wv) + le32_bytes(0) + le32_bytes(0) + string_bytes(name)
            + y,
        finished(g, idx).len() <= u32::MAX,
    ensures
        ({
            let d = finished(g, idx);
            &&& d.len() >= g.len()
            &&& d.subrange(14, g.len() as int) == g.subrange(14, g.len() as int)
            &&& class_of(d, path) == sections_from(
                d,
                16 + name.len() as int,
                g.len() as int,
                crate::formats::cls::empty_class(name, path, wv),
            )
        }),
{
    let h14 = seq![0x53u8, 0x42] + le32_bytes(wv) + le32_bytes(0) + le32_bytes(0);
    let d = finished(g, idx);
    lemma_string_at(Seq::<u8>::empty(), name, Seq::<u8>::empty());
    assert(h14.len() == 14);
    lemma_finished_region(g, idx);
    assert(d[0] == 0x53 && d[1] == 0x42) by {
        assert(d[0] == g[0] && d[1] == g[1]);
    }
    assert(u32_at(d, 2) == wv) by {
        assert forall|i: int| 2 <= i < 6 implies d[i] == g[i] by {}
        assert(g =~= seq![0x53u8, 0x42] + le32_bytes(wv) + (le32_bytes(0) + le32_bytes(0) + string_bytes(name) + y));
        law_u32_round_trip(seq![0x53u8, 0x42], wv, le32_bytes(0) + le32_bytes(0) + string_bytes(name) + y);
    }
    assert(u32_at(d, 6) + 6 == g.len());
    assert(string_at(d, 14) == Some((name, 16 + name.len() as int))) by {
        assert(g =~= h14 + (string_bytes(name) + y));
        lemma_slice_of(d, g, h14, string_bytes(name), y);
        lemma_split(d, 14, string_bytes(name));
        lemma_string_at(d.take(14), name, d.skip(16 + name.len() as int));
    }
}

/// The head of the file of a class.
#[verifier::spinoff_prover]
#[verifier::rlimit(100)]
proof fn lemma_class_head_read(c: ClassView, path: Seq<char>)
    requires
        fits_string(c.name),
        class_bytes(c).len() <= u32::MAX,
    ensures
        class_head(c).len() >= 16,
        class_body(c).len() <= class_bytes(c).len(),
        class_bytes(c).subrange(14, class_body(c).len() as int) == class_body(c).subrange(14, class_body(c).len() as int),
        class_of(class_bytes(c), path) == sections_from(
            class_bytes(c),
            class_head(c).len() as int,
            class_body(c).len() as int,
            crate::formats::cls::empty_class(c.name, path, written_version(c.version)),
        ),
{
    let wv = written_version(c.version);
    lemma_body_split(c, 0);
    lemma_string_at(Seq::<u8>::empty(), c.name, Seq::<u8>::empty());
    let h = seq![0x53u8, 0x42] + le32_bytes(wv) + le32_bytes(0) + le32_bytes(0) + string_bytes(c.name);
    assert(class_head(c) == h);
    let idx = emit_all((class_head(c), Seq::<(u16, u32)>::empty()), pieces(c)).1;
    assert(class_bytes(c) == finished(class_body(c), idx));
    lemma_head_read(class_body(c), idx, c.name, wv, after(c, 0), path);
}

/// `parse` gives back what `write` wrote: the same class, read from the
/// path, of the version written, with links of the default style and no
/// bytecode.
#[verifier::spinoff_prover]
#[verifier::rlimit(100)]
pub proof fn law_class_round_trip(c: ClassView, path: Seq<char>)
    requires
        writable_class(c),
    ensures
        class_of(class_bytes(c), path) == Some(class_read_back(c, path)),
{
    let g = class_body(c);
    let d = class_bytes(c);
    let ia = g.len() as int;
    lemma_class_head_read(c, path);
    let acc0 = crate::formats::cls::empty_class(c.name, path, written_version(c.version));
    lemma_walk_first(c, d, ia, acc0);
    let acc6 = ClassView {
        flags: c.flags,
        description: c.description,
        vars: c.vars,
        text: c.text,
        children: c.children,
        links: plain_links(c.links),
        ..acc0
    };
    assert(c.equations matches Some(e) ==> equations_end(d, ia) == upto(c, 11).len() + 2 + e.len()) by {
        lemma_body_split(c, 11);
        lemma_body_split(c, 12);
        lemma_body_split(c, 13);
        if let Some(e) = c.equations {
            lemma_opt_bytes(c.equations, EQUATIONS, false);
            lemma_opt_bytes(
                match c.timestamp {
                    Some(t) => Some(le32_bytes(t)),
                    None => None,
                },
                TIMESTAMP,
                false,
            );
        }
    }
    lemma_walk_second(c, d, ia, acc6);
    let acc13 = ClassView {
        icon: c.icon,
        image: c.image,
        scheme: c.scheme,
        icon_file: c.icon_file,
        icon_index: c.icon_index,
        equations: c.equations,
        timestamp: c.timestamp,
        ..acc6
    };
    lemma_body_split(c, 13);
    lemma_upto_len(c, 13);
    assert(sections_from(d, upto(c, 13).len() as int, ia, acc13) == Some(acc13)) by {
        let e = end_marker(c);
        if e.len() > 0 {
            assert(g =~= upto(c, 13) + (e + Seq::<u8>::empty()));
            lemma_slice_of(d, g, upto(c, 13), e, Seq::<u8>::empty());
            assert(e == le16_bytes(END) + Seq::<u8>::empty());
            lemma_id_at(d, upto(c, 13).len() as int, END, Seq::<u8>::empty());
        }
    }
    assert(acc13 == class_read_back(c, path));
}

} // verus!
