//! How a picture is wrapped before it goes into a graphic space: several
//! objects at the top get a group of their own.

use vstd::prelude::*;

verus! {

/// An object of a picture as far as grouping goes: its handle and, for a
/// group, the handles of its members.
#[derive(Debug, Clone)]
pub struct PictureNode {
    pub handle: u16,
    pub children: Option<Vec<u16>>,
}

pub struct PictureNodeView {
    pub handle: u16,
    pub children: Option<Seq<u16>>,
}

impl View for PictureNode {
    type V = PictureNodeView;

    open spec fn view(&self) -> PictureNodeView {
        PictureNodeView {
            handle: self.handle,
            children: match self.children {
                Some(c) => Some(c@),
                None => None,
            },
        }
    }
}

pub open spec fn nodes_view(ns: Seq<PictureNode>) -> Seq<PictureNodeView> {
    ns.map_values(|n: PictureNode| n@)
}

/// The object is a group with `h` among its members.
pub open spec fn holds(n: PictureNodeView, h: u16) -> bool {
    match n.children {
        Some(c) => c.contains(h),
        None => false,
    }
}

/// Some group of the picture has `h` among its members.
pub open spec fn is_member(ns: Seq<PictureNodeView>, h: u16) -> bool {
    exists|i: int| 0 <= i < ns.len() && holds(#[trigger] ns[i], h)
}

/// The handles of the first `k` objects that no group holds, in their
/// order.
pub open spec fn tops_upto(ns: Seq<PictureNodeView>, k: int) -> Seq<u16>
    decreases k,
{
    if k <= 0 {
        Seq::empty()
    } else {
        tops_upto(ns, k - 1) + if is_member(ns, ns[k - 1].handle) {
            Seq::empty()
        } else {
            seq![ns[k - 1].handle]
        }
    }
}

pub open spec fn tops(ns: Seq<PictureNodeView>) -> Seq<u16> {
    tops_upto(ns, ns.len() as int)
}

/// Some object of the picture has the handle `h`.
pub open spec fn handle_used(ns: Seq<PictureNodeView>, h: int) -> bool {
    exists|i: int| 0 <= i < ns.len() && (#[trigger] ns[i]).handle == h
}

/// The smallest handle from `h` on that no object uses; 65535 when all of
/// them are used.
pub open spec fn free_from(ns: Seq<PictureNodeView>, h: int) -> u16
    decreases 65536 - h,
{
    if h > 65535 || h < 1 {
        65535
    } else if !handle_used(ns, h) {
        h as u16
    } else {
        free_from(ns, h + 1)
    }
}

/// The picture as it goes into a space: with more than one object at the
/// top, a group of them is added under the smallest free handle.
pub open spec fn wrapped(ns: Seq<PictureNodeView>) -> Seq<PictureNodeView> {
    let t = tops(ns);
    if t.len() > 1 {
        ns.push(PictureNodeView { handle: free_from(ns, 1), children: Some(t) })
    } else {
        ns
    }
}

fn contains_handle(v: &Vec<u16>, h: u16) -> (b: bool)
    ensures
        b == v@.contains(h),
{
    let mut i: usize = 0;
    while i < v.len()
        invariant
            i <= v.len(),
            forall|j: int| 0 <= j < i ==> v@[j] != h,
        decreases v.len() - i,
    {
        if v[i] == h {
            assert(v@[i as int] == h);
            return true;
        }
        i = i + 1;
    }
    false
}

fn member(ns: &Vec<PictureNode>, h: u16) -> (b: bool)
    ensures
        b == is_member(nodes_view(ns@), h),
{
    let ghost nv = nodes_view(ns@);
    let mut i: usize = 0;
    while i < ns.len()
        invariant
            nv == nodes_view(ns@),
            nv.len() == ns@.len(),
            i <= ns.len(),
            forall|j: int| 0 <= j < i ==> !holds(#[trigger] nv[j], h),
        decreases ns.len() - i,
    {
        assert(nv[i as int] == ns@[i as int]@);
        match &ns[i].children {
            Some(c) => {
                if contains_handle(c, h) {
                    return true;
                }
            },
            None => {},
        }
        i = i + 1;
    }
    false
}

fn used(ns: &Vec<PictureNode>, h: u16) -> (b: bool)
    ensures
        b == handle_used(nodes_view(ns@), h as int),
{
    let ghost nv = nodes_view(ns@);
    let mut i: usize = 0;
    while i < ns.len()
        invariant
            nv == nodes_view(ns@),
            nv.len() == ns@.len(),
            i <= ns.len(),
            forall|j: int| 0 <= j < i ==> (#[trigger] nv[j]).handle != h,
        decreases ns.len() - i,
    {
        assert(nv[i as int] == ns@[i as int]@);
        if ns[i].handle == h {
            return true;
        }
        i = i + 1;
    }
    false
}

/// A picture with several objects at the top gets a wrapper: a group of
/// them under the smallest handle free in the picture.
pub fn with_wrapper(ns: &Vec<PictureNode>) -> (r: Vec<PictureNode>)
    ensures
        nodes_view(r@) == wrapped(nodes_view(ns@)),
{
    let ghost nv = nodes_view(ns@);
    let mut t: Vec<u16> = Vec::new();
    let mut i: usize = 0;
    while i < ns.len()
        invariant
            nv == nodes_view(ns@),
            nv.len() == ns@.len(),
            i <= ns.len(),
            t@ == tops_upto(nv, i as int),
        decreases ns.len() - i,
    {
        assert(nv[i as int] == ns@[i as int]@);
        let h = ns[i].handle;
        if !member(ns, h) {
            t.push(h);
        }
        i = i + 1;
        assert(t@ =~= tops_upto(nv, i as int));
    }
    let mut r: Vec<PictureNode> = Vec::new();
    let mut k: usize = 0;
    while k < ns.len()
        invariant
            nv == nodes_view(ns@),
            nv.len() == ns@.len(),
            k <= ns.len(),
            nodes_view(r@) == nv.take(k as int),
        decreases ns.len() - k,
    {
        let children = match &ns[k].children {
            Some(c) => Some(copy_handles(c)),
            None => None,
        };
        let node = PictureNode { handle: ns[k].handle, children };
        assert(node@ == nv[k as int]);
        let ghost before = r@;
        r.push(node);
        assert(r@ == before.push(node));
        assert(nodes_view(r@) =~= nodes_view(before).push(node@));
        k = k + 1;
        assert(nodes_view(r@) =~= nv.take(k as int));
    }
    assert(nv.take(ns.len() as int) =~= nv);
    if t.len() > 1 {
        let mut h: u16 = 1;
        while h < 65535 && used(ns, h)
            invariant
                nv == nodes_view(ns@),
                1 <= h <= 65535,
                free_from(nv, 1) == free_from(nv, h as int),
            decreases 65535 - h,
        {
            h = h + 1;
        }
        assert(free_from(nv, 65536) == 65535);
        assert(free_from(nv, h as int) == h);
        let node = PictureNode { handle: h, children: Some(t) };
        let ghost before = r@;
        r.push(node);
        assert(nodes_view(r@) =~= nodes_view(before).push(node@));
        assert(nodes_view(r@) =~= wrapped(nv));
    }
    r
}

fn copy_handles(v: &Vec<u16>) -> (r: Vec<u16>)
    ensures
        r@ == v@,
{
    let mut r: Vec<u16> = Vec::new();
    let mut i: usize = 0;
    while i < v.len()
        invariant
            i <= v.len(),
            r@ == v@.take(i as int),
        decreases v.len() - i,
    {
        r.push(v[i]);
        i = i + 1;
        assert(r@ =~= v@.take(i as int));
    }
    assert(v@.take(v@.len() as int) =~= v@);
    r
}

} // verus!
