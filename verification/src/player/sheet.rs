//! Edits of the sheet of an image that the IDE asks for: blocks and links
//! are added, renamed, relinked and removed. Everything else of the image
//! stays as it was.

use vstd::prelude::*;
use crate::formats::cls::{Child, Class, ClassView, Link, LinkStyle};
use crate::player::api::{free_handle, free_handle_of, max_handle};
use crate::formats::cls::Variable;
use crate::stdx::{lowercase, str_to_lowercase};
use crate::text::str_same;

verus! {

/// The image is the same apart from its blocks and links.
pub open spec fn same_but_sheet(a: Class, b: Class) -> bool {
    a@ == ClassView { children: a@.children, links: a@.links, ..b@ }
}

/// The blocks other than those with the handle `h`, in their order.
pub open spec fn children_without(s: Seq<Child>, h: u16) -> Seq<Child>
    decreases s.len(),
{
    if s.len() == 0 {
        s
    } else {
        let r = children_without(s.drop_last(), h);
        if s.last().handle != h {
            r.push(s.last())
        } else {
            r
        }
    }
}

/// The links that neither start nor end at the block `h`, in their order.
pub open spec fn links_away_from(s: Seq<Link>, h: u16) -> Seq<Link>
    decreases s.len(),
{
    if s.len() == 0 {
        s
    } else {
        let r = links_away_from(s.drop_last(), h);
        if s.last().source != h && s.last().target != h {
            r.push(s.last())
        } else {
            r
        }
    }
}

/// The links other than those with the handle `h`, in their order.
pub open spec fn links_without(s: Seq<Link>, h: u16) -> Seq<Link>
    decreases s.len(),
{
    if s.len() == 0 {
        s
    } else {
        let r = links_without(s.drop_last(), h);
        if s.last().handle != h {
            r.push(s.last())
        } else {
            r
        }
    }
}

/// Removes the block `h` and every link that starts or ends at it.
pub fn remove_child(c: &mut Class, h: u16)
    ensures
        same_but_sheet(*final(c), *old(c)),
        final(c).children@ == children_without(old(c).children@, h),
        final(c).links@ == links_away_from(old(c).links@, h),
{
    let ghost oc = c.children@;
    let mut rest: Vec<Child> = Vec::new();
    std::mem::swap(&mut rest, &mut c.children);
    let mut kept: Vec<Child> = Vec::new();
    let ghost mut k: int = 0;
    while rest.len() > 0
        invariant
            0 <= k <= oc.len(),
            rest@ == oc.subrange(k, oc.len() as int),
            kept@ == children_without(oc.take(k), h),
        decreases rest.len(),
    {
        let ch = rest.remove(0);
        proof {
            assert(ch == oc[k]);
            assert(oc.take(k + 1).drop_last() =~= oc.take(k));
            assert(oc.take(k + 1).last() == oc[k]);
            k = k + 1;
        }
        if ch.handle != h {
            kept.push(ch);
        }
        assert(rest@ =~= oc.subrange(k, oc.len() as int));
    }
    assert(oc.take(oc.len() as int) =~= oc);
    c.children = kept;
    let ghost ol = c.links@;
    let mut rest: Vec<Link> = Vec::new();
    std::mem::swap(&mut rest, &mut c.links);
    let mut kept: Vec<Link> = Vec::new();
    let ghost mut k: int = 0;
    while rest.len() > 0
        invariant
            0 <= k <= ol.len(),
            rest@ == ol.subrange(k, ol.len() as int),
            kept@ == links_away_from(ol.take(k), h),
        decreases rest.len(),
    {
        let l = rest.remove(0);
        proof {
            assert(l == ol[k]);
            assert(ol.take(k + 1).drop_last() =~= ol.take(k));
            assert(ol.take(k + 1).last() == ol[k]);
            k = k + 1;
        }
        if l.source != h && l.target != h {
            kept.push(l);
        }
        assert(rest@ =~= ol.subrange(k, ol.len() as int));
    }
    assert(ol.take(ol.len() as int) =~= ol);
    c.links = kept;
}

/// Removes the link `h`.
pub fn remove_link(c: &mut Class, h: u16)
    ensures
        same_but_sheet(*final(c), *old(c)),
        final(c).children@ == old(c).children@,
        final(c).links@ == links_without(old(c).links@, h),
{
    let ghost ol = c.links@;
    let mut rest: Vec<Link> = Vec::new();
    std::mem::swap(&mut rest, &mut c.links);
    let mut kept: Vec<Link> = Vec::new();
    let ghost mut k: int = 0;
    while rest.len() > 0
        invariant
            0 <= k <= ol.len(),
            rest@ == ol.subrange(k, ol.len() as int),
            kept@ == links_without(ol.take(k), h),
        decreases rest.len(),
    {
        let l = rest.remove(0);
        proof {
            assert(l == ol[k]);
            assert(ol.take(k + 1).drop_last() =~= ol.take(k));
            assert(ol.take(k + 1).last() == ol[k]);
            k = k + 1;
        }
        if l.handle != h {
            kept.push(l);
        }
        assert(rest@ =~= ol.subrange(k, ol.len() as int));
    }
    assert(ol.take(ol.len() as int) =~= ol);
    c.links = kept;
}

/// The index of the first block with the handle `h`; the number of blocks
/// when there is none.
pub open spec fn first_child(s: Seq<Child>, h: u16) -> int
    decreases s.len(),
{
    if s.len() == 0 {
        0
    } else if s[0].handle == h {
        0
    } else {
        1 + first_child(s.drop_first(), h)
    }
}

pub proof fn lemma_first_child(s: Seq<Child>, h: u16)
    ensures
        0 <= first_child(s, h) <= s.len(),
        first_child(s, h) < s.len() ==> s[first_child(s, h)].handle == h,
        forall|j: int| 0 <= j < first_child(s, h) ==> s[j].handle != h,
    decreases s.len(),
{
    if s.len() > 0 && s[0].handle != h {
        lemma_first_child(s.drop_first(), h);
        assert forall|j: int| 0 <= j < first_child(s, h) implies s[j].handle != h by {
            if j > 0 {
                assert(s[j] == s.drop_first()[j - 1]);
            }
        }
    }
}

fn find_child(s: &Vec<Child>, h: u16) -> (i: usize)
    ensures
        i == first_child(s@, h),
{
    proof {
        lemma_first_child(s@, h);
    }
    let mut i: usize = 0;
    while i < s.len()
        invariant
            i <= s.len(),
            i <= first_child(s@, h),
            0 <= first_child(s@, h) <= s@.len(),
            first_child(s@, h) < s@.len() ==> s@[first_child(s@, h)].handle == h,
            forall|j: int| 0 <= j < first_child(s@, h) ==> s@[j].handle != h,
        decreases s.len() - i,
    {
        if s[i].handle == h {
            return i;
        }
        i = i + 1;
    }
    i
}

/// Gives the first block with the handle `h` the name `name`; nothing
/// changes when there is no such block.
pub fn rename_child(c: &mut Class, h: u16, name: String)
    ensures
        same_but_sheet(*final(c), *old(c)),
        final(c).links@ == old(c).links@,
        ({
            let i = first_child(old(c).children@, h);
            final(c).children@ == if i < old(c).children@.len() {
                old(c).children@.update(i, Child { name, ..old(c).children@[i] })
            } else {
                old(c).children@
            }
        }),
{
    let i = find_child(&c.children, h);
    if i < c.children.len() {
        c.children[i].name = name;
        assert(c.children@ =~= old(c).children@.update(i as int, Child { name, ..old(c).children@[i as int] }));
    }
}

/// The handles of the blocks.
pub open spec fn child_handles(s: Seq<Child>) -> Seq<u16> {
    s.map_values(|ch: Child| ch.handle)
}

/// The largest handle of a block; 0 on an empty sheet.
pub fn max_child_handle(c: &Class) -> (m: u16)
    ensures
        m == max_handle(child_handles(c.children@)),
{
    let ghost hs = child_handles(c.children@);
    let mut m: u16 = 0;
    let mut i: usize = 0;
    while i < c.children.len()
        invariant
            hs == child_handles(c.children@),
            i <= c.children.len(),
            m == max_handle(hs.take(i as int)),
        decreases c.children.len() - i,
    {
        assert(hs.take(i + 1).drop_last() =~= hs.take(i as int));
        let x = c.children[i].handle;
        if x > m {
            m = x;
        }
        i = i + 1;
    }
    assert(hs.take(c.children.len() as int) =~= hs);
    m
}

/// Puts a new block of the image `class_name` on the sheet, under the
/// handle one above the largest handle of a block; `x` and `y` are the bit
/// patterns of its coordinates. Returns the handle.
pub fn add_child(c: &mut Class, class_name: String, name: String, x: u64, y: u64) -> (h: u16)
    requires
        max_handle(child_handles(old(c).children@)) < 65535,
    ensures
        h == max_handle(child_handles(old(c).children@)) + 1,
        same_but_sheet(*final(c), *old(c)),
        final(c).links@ == old(c).links@,
        final(c).children@ == old(c).children@.push(Child { class_name, handle: h, name, x, y, flags: 0 }),
{
    let h = max_child_handle(c) + 1;
    c.children.push(Child { class_name, handle: h, name, x, y, flags: 0 });
    h
}

/// The index of the first link with the handle `h`; the number of links
/// when there is none.
pub open spec fn first_link(s: Seq<Link>, h: u16) -> int
    decreases s.len(),
{
    if s.len() == 0 {
        0
    } else if s[0].handle == h {
        0
    } else {
        1 + first_link(s.drop_first(), h)
    }
}

pub proof fn lemma_first_link(s: Seq<Link>, h: u16)
    ensures
        0 <= first_link(s, h) <= s.len(),
        first_link(s, h) < s.len() ==> s[first_link(s, h)].handle == h,
        forall|j: int| 0 <= j < first_link(s, h) ==> s[j].handle != h,
    decreases s.len(),
{
    if s.len() > 0 && s[0].handle != h {
        lemma_first_link(s.drop_first(), h);
        assert forall|j: int| 0 <= j < first_link(s, h) implies s[j].handle != h by {
            if j > 0 {
                assert(s[j] == s.drop_first()[j - 1]);
            }
        }
    }
}

fn find_link(s: &Vec<Link>, h: u16) -> (i: usize)
    ensures
        i == first_link(s@, h),
{
    proof {
        lemma_first_link(s@, h);
    }
    let mut i: usize = 0;
    while i < s.len()
        invariant
            i <= s.len(),
            i <= first_link(s@, h),
            0 <= first_link(s@, h) <= s@.len(),
            first_link(s@, h) < s@.len() ==> s@[first_link(s@, h)].handle == h,
            forall|j: int| 0 <= j < first_link(s@, h) ==> s@[j].handle != h,
        decreases s.len() - i,
    {
        if s[i].handle == h {
            return i;
        }
        i = i + 1;
    }
    i
}

/// The pairs of a link as texts.
pub open spec fn link_pairs(l: Link) -> Seq<(Seq<char>, Seq<char>)> {
    crate::formats::cls::pairs_view(l.vars@)
}

/// What setting a link does to the links of an image, and the handle it
/// answers: an existing link (`handle` other than 0) left without pairs is
/// removed (answer 0); with pairs it gets the new ends and pairs and keeps
/// the rest (answer `handle`); a new link with pairs is added under a free
/// handle of the sheet, with no flags and the plain style (answer that
/// handle); a new one without pairs changes nothing (answer 0).
pub open spec fn link_set(
    c: Class,
    source: u16,
    target: u16,
    handle: u16,
    vars: Seq<(Seq<char>, Seq<char>)>,
    links: Seq<Link>,
    r: u16,
) -> bool {
    let ls = c.links@;
    let k = first_link(ls, handle);
    if handle != 0 && k < ls.len() {
        if vars.len() == 0 {
            links == ls.remove(k) && r == 0
        } else {
            &&& r == handle
            &&& links.len() == ls.len()
            &&& forall|j: int| 0 <= j < ls.len() && j != k ==> links[j] == ls[j]
            &&& links[k].source == source
            &&& links[k].target == target
            &&& link_pairs(links[k]) == vars
            &&& links[k].handle == ls[k].handle
            &&& links[k].flags == ls[k].flags
            &&& links[k].style == ls[k].style
        }
    } else if vars.len() == 0 {
        links == ls && r == 0
    } else {
        &&& r == free_handle_of(c@)
        &&& links.len() == ls.len() + 1
        &&& links.take(ls.len() as int) == ls
        &&& links.last().source == source
        &&& links.last().target == target
        &&& links.last().handle == r
        &&& links.last().flags == 0
        &&& link_pairs(links.last()) == vars
        &&& links.last().style.spec_is_default()
    }
}

/// Sets the link `handle` (0 for a new one) from `source` to `target` with
/// the given pairs of variables, as `link_set` says; answers its handle.
pub fn set_link(c: &mut Class, source: u16, target: u16, handle: u16, vars: Vec<(String, String)>) -> (r: u16)
    ensures
        same_but_sheet(*final(c), *old(c)),
        final(c).children@ == old(c).children@,
        link_set(*old(c), source, target, handle, crate::formats::cls::pairs_view(vars@), final(c).links@, r),
{
    let k = find_link(&c.links, handle);
    proof {
        lemma_first_link(c.links@, handle);
    }
    if handle != 0 && k < c.links.len() {
        if vars.len() == 0 {
            c.links.remove(k);
            0
        } else {
            c.links[k].source = source;
            c.links[k].target = target;
            c.links[k].vars = vars;
            assert(forall|j: int| 0 <= j < old(c).links@.len() && j != k ==> c.links@[j] == old(c).links@[j]);
            handle
        }
    } else if vars.len() == 0 {
        0
    } else {
        let h = free_handle(c);
        let ghost ol = c.links@;
        c.links.push(Link { source, target, handle: h, flags: 0, vars, style: LinkStyle::new() });
        assert(c.links@.take(ol.len() as int) =~= ol);
        h
    }
}

/// The blocks in the order given by handles: each handle takes the first
/// block left with it; blocks that no handle names follow in their order.
pub open spec fn reordered(rest: Seq<Child>, order: Seq<u16>) -> Seq<Child>
    decreases order.len(),
{
    if order.len() == 0 {
        rest
    } else {
        let k = first_child(rest, order[0]);
        if 0 <= k < rest.len() {
            seq![rest[k]] + reordered(rest.remove(k), order.drop_first())
        } else {
            reordered(rest, order.drop_first())
        }
    }
}

/// Puts the blocks in the order of computation given by their handles.
pub fn reorder_children(c: &mut Class, order: &Vec<u16>)
    ensures
        same_but_sheet(*final(c), *old(c)),
        final(c).links@ == old(c).links@,
        final(c).children@ == reordered(old(c).children@, order@),
{
    let ghost orig = c.children@;
    let mut rest: Vec<Child> = Vec::new();
    std::mem::swap(&mut rest, &mut c.children);
    let mut sorted: Vec<Child> = Vec::new();
    let mut i: usize = 0;
    assert(order@.subrange(0, order@.len() as int) =~= order@);
    assert(sorted@ + reordered(rest@, order@) =~= reordered(orig, order@));
    while i < order.len()
        invariant
            i <= order.len(),
            sorted@ + reordered(rest@, order@.subrange(i as int, order@.len() as int)) == reordered(orig, order@),
        decreases order.len() - i,
    {
        let ghost tail = order@.subrange(i as int, order@.len() as int);
        assert(tail.drop_first() =~= order@.subrange(i + 1, order@.len() as int));
        assert(tail[0] == order@[i as int]);
        let k = find_child(&rest, order[i]);
        proof {
            lemma_first_child(rest@, order@[i as int]);
        }
        if k < rest.len() {
            let ghost before = sorted@;
            let ghost r0 = rest@;
            let x = rest.remove(k);
            sorted.push(x);
            assert(sorted@ + reordered(rest@, tail.drop_first()) =~= before + (seq![r0[k as int]] + reordered(r0.remove(k as int), tail.drop_first())));
        }
        i = i + 1;
    }
    assert(order@.subrange(order@.len() as int, order@.len() as int) =~= Seq::<u16>::empty());
    sorted.append(&mut rest);
    c.children = sorted;
}

/// Sets the style of the first link with the handle `h`; nothing changes
/// when there is none.
pub fn set_link_style(c: &mut Class, h: u16, style: LinkStyle)
    ensures
        same_but_sheet(*final(c), *old(c)),
        final(c).children@ == old(c).children@,
        ({
            let k = first_link(old(c).links@, h);
            final(c).links@ == if k < old(c).links@.len() {
                old(c).links@.update(k, Link { style, ..old(c).links@[k] })
            } else {
                old(c).links@
            }
        }),
{
    let k = find_link(&c.links, h);
    if k < c.links.len() {
        c.links[k].style = style;
        assert(c.links@ =~= old(c).links@.update(k as int, Link { style, ..old(c).links@[k as int] }));
    }
}

/// The names of variables in Unicode lower case.
pub fn lowered_names(vars: &Vec<Variable>) -> (r: Vec<String>)
    ensures
        r@.len() == vars@.len(),
        forall|i: int| 0 <= i < vars@.len() ==> (#[trigger] r@[i])@ == lowercase(vars@[i].name@),
{
    let mut r: Vec<String> = Vec::new();
    let mut i: usize = 0;
    while i < vars.len()
        invariant
            i <= vars.len(),
            r@.len() == i,
            forall|k: int| 0 <= k < i ==> (#[trigger] r@[k])@ == lowercase(vars@[k].name@),
        decreases vars.len() - i,
    {
        r.push(str_to_lowercase(vars[i].name.as_str()));
        i = i + 1;
    }
    r
}

/// The name is among the names.
pub open spec fn listed(names: Seq<String>, n: Seq<char>) -> bool {
    exists|i: int| 0 <= i < names.len() && (#[trigger] names[i])@ == n
}

/// A pair of a link from or to the block `h` stays when the block's new
/// image has the variable on its side (names compared in lower case).
pub open spec fn pair_stays(source: u16, target: u16, h: u16, names: Seq<String>, p: (String, String)) -> bool {
    &&& (source == h ==> listed(names, lowercase(p.0@)))
    &&& (target == h ==> listed(names, lowercase(p.1@)))
}

pub open spec fn pairs_kept(l: (u16, u16), h: u16, names: Seq<String>, ps: Seq<(String, String)>) -> Seq<(String, String)>
    decreases ps.len(),
{
    if ps.len() == 0 {
        ps
    } else {
        let r = pairs_kept(l, h, names, ps.drop_last());
        if pair_stays(l.0, l.1, h, names, ps.last()) {
            r.push(ps.last())
        } else {
            r
        }
    }
}

/// The links after the replacement: each keeps the pairs that stay; links
/// left without pairs go.
pub open spec fn links_replaced(ls: Seq<Link>, h: u16, names: Seq<String>) -> Seq<Seq<(String, String)>>
    decreases ls.len(),
{
    if ls.len() == 0 {
        Seq::empty()
    } else {
        let r = links_replaced(ls.drop_last(), h, names);
        let kept = pairs_kept((ls.last().source, ls.last().target), h, names, ls.last().vars@);
        if kept.len() > 0 {
            r.push(kept)
        } else {
            r
        }
    }
}

/// How many pairs the replacement drops.
pub open spec fn pairs_dropped(ls: Seq<Link>, h: u16, names: Seq<String>) -> int
    decreases ls.len(),
{
    if ls.len() == 0 {
        0
    } else {
        pairs_dropped(ls.drop_last(), h, names) + ls.last().vars@.len() - pairs_kept(
            (ls.last().source, ls.last().target),
            h,
            names,
            ls.last().vars@,
        ).len()
    }
}

/// Which links survive the replacement, as their indices, in order.
pub open spec fn links_surviving(ls: Seq<Link>, h: u16, names: Seq<String>) -> Seq<int>
    decreases ls.len(),
{
    if ls.len() == 0 {
        Seq::empty()
    } else {
        let r = links_surviving(ls.drop_last(), h, names);
        if pairs_kept((ls.last().source, ls.last().target), h, names, ls.last().vars@).len() > 0 {
            r.push(ls.len() - 1)
        } else {
            r
        }
    }
}

proof fn lemma_kept_len(l: (u16, u16), h: u16, names: Seq<String>, ps: Seq<(String, String)>)
    ensures
        pairs_kept(l, h, names, ps).len() <= ps.len(),
    decreases ps.len(),
{
    if ps.len() > 0 {
        lemma_kept_len(l, h, names, ps.drop_last());
    }
}

fn is_listed(names: &Vec<String>, n: &String) -> (b: bool)
    ensures
        b == listed(names@, n@),
{
    let mut i: usize = 0;
    while i < names.len()
        invariant
            i <= names.len(),
            forall|k: int| 0 <= k < i ==> (#[trigger] names@[k])@ != n@,
        decreases names.len() - i,
    {
        if str_same(names[i].as_str(), n.as_str()) {
            return true;
        }
        i = i + 1;
    }
    false
}

fn keep_pairs(source: u16, target: u16, h: u16, names: &Vec<String>, ps: Vec<(String, String)>) -> (r: Vec<(String, String)>)
    ensures
        r@ == pairs_kept((source, target), h, names@, ps@),
{
    let ghost orig = ps@;
    let mut rest = ps;
    let mut kept: Vec<(String, String)> = Vec::new();
    let ghost mut k: int = 0;
    while rest.len() > 0
        invariant
            0 <= k <= orig.len(),
            rest@ == orig.subrange(k, orig.len() as int),
            kept@ == pairs_kept((source, target), h, names@, orig.take(k)),
        decreases rest.len(),
    {
        let p = rest.remove(0);
        proof {
            assert(p == orig[k]);
            assert(orig.take(k + 1).drop_last() =~= orig.take(k));
            assert(orig.take(k + 1).last() == orig[k]);
            k = k + 1;
        }
        let a_ok = if source == h { is_listed(names, &str_to_lowercase(p.0.as_str())) } else { true };
        let b_ok = if target == h { is_listed(names, &str_to_lowercase(p.1.as_str())) } else { true };
        if a_ok && b_ok {
            kept.push(p);
        }
        assert(rest@ =~= orig.subrange(k, orig.len() as int));
    }
    assert(orig.take(orig.len() as int) =~= orig);
    kept
}

/// Gives the first block `h` the image `child` (its handle, name and place
/// stay) and drops the pairs of its links whose variable on its side the
/// new image lacks (`names`: the names of the new image's variables in
/// lower case); links left without pairs go. Returns how many pairs were
/// dropped (at most `u64::MAX`).
pub fn replace_child(c: &mut Class, h: u16, child: String, names: &Vec<String>) -> (dropped: u64)
    ensures
        final(c)@ == (ClassView { children: final(c)@.children, links: final(c)@.links, ..old(c)@ }),
        ({
            let i = first_child(old(c).children@, h);
            final(c).children@ == if i < old(c).children@.len() {
                old(c).children@.update(i, Child { class_name: child, ..old(c).children@[i] })
            } else {
                old(c).children@
            }
        }),
        ({
            let ol = old(c).links@;
            let sv = links_surviving(ol, h, names@);
            let kv = links_replaced(ol, h, names@);
            &&& final(c).links@.len() == sv.len()
            &&& kv.len() == sv.len()
            &&& forall|j: int|
                #![trigger final(c).links@[j]]
                0 <= j < sv.len() ==> final(c).links@[j] == (Link { vars: final(c).links@[j].vars, ..ol[sv[j]] })
                    && final(c).links@[j].vars@ == kv[j]
        }),
        dropped == if pairs_dropped(old(c).links@, h, names@) > u64::MAX {
            u64::MAX as int
        } else {
            pairs_dropped(old(c).links@, h, names@)
        },
{
    let i = find_child(&c.children, h);
    if i < c.children.len() {
        c.children[i].class_name = child;
        assert(c.children@ =~= old(c).children@.update(i as int, Child { class_name: child, ..old(c).children@[i as int] }));
    }
    let ghost ol = c.links@;
    let mut rest: Vec<Link> = Vec::new();
    std::mem::swap(&mut rest, &mut c.links);
    let mut kept: Vec<Link> = Vec::new();
    let mut dropped: u64 = 0;
    let ghost mut k: int = 0;
    while rest.len() > 0
        invariant
            0 <= k <= ol.len(),
            rest@ == ol.subrange(k, ol.len() as int),
            kept@.len() == links_surviving(ol.take(k), h, names@).len(),
            links_replaced(ol.take(k), h, names@).len() == links_surviving(ol.take(k), h, names@).len(),
            forall|j: int|
                #![trigger kept@[j]]
                0 <= j < kept@.len() ==> kept@[j] == (Link { vars: kept@[j].vars, ..ol[links_surviving(ol.take(k), h, names@)[j]] })
                    && kept@[j].vars@ == links_replaced(ol.take(k), h, names@)[j],
            forall|j: int| 0 <= j < links_surviving(ol.take(k), h, names@).len() ==> 0 <= #[trigger] links_surviving(ol.take(k), h, names@)[j] < k,
            dropped == if pairs_dropped(ol.take(k), h, names@) > u64::MAX {
                u64::MAX as int
            } else {
                pairs_dropped(ol.take(k), h, names@)
            },
            pairs_dropped(ol.take(k), h, names@) >= 0,
        decreases rest.len(),
    {
        let mut l = rest.remove(0);
        let ghost lk = l;
        proof {
            assert(l == ol[k]);
            assert(ol.take(k + 1).drop_last() =~= ol.take(k));
            assert(ol.take(k + 1).last() == ol[k]);
        }
        let before = l.vars.len();
        let mut vars: Vec<(String, String)> = Vec::new();
        std::mem::swap(&mut vars, &mut l.vars);
        let kept_vars = keep_pairs(l.source, l.target, h, names, vars);
        proof {
            lemma_kept_len((lk.source, lk.target), h, names@, lk.vars@);
        }
        let after = kept_vars.len();
        let d = (before - after) as u64;
        dropped = if dropped > u64::MAX - d { u64::MAX } else { dropped + d };
        l.vars = kept_vars;
        proof {
            k = k + 1;
        }
        if after > 0 {
            kept.push(l);
        }
        assert(rest@ =~= ol.subrange(k, ol.len() as int));
    }
    assert(ol.take(ol.len() as int) =~= ol);
    c.links = kept;
    dropped
}

} // verus!
