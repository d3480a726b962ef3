//! Undo and Redo of the edits of a project. Before each edit the own
//! images are remembered; Undo puts the last remembered ones back and keeps
//! those it replaced for Redo. The images of the libraries are never
//! touched.

use vstd::prelude::*;
use crate::formats::cls::{Child, Class, ClassView, Link, LinkStyle, Variable};
use crate::player::project_edit::OpenProject;

verus! {

/// How many snapshots Undo keeps.
pub const HISTORY_DEPTH: usize = 100;

/// An image as the history keeps it: all it holds, with the styles of its
/// links.
pub open spec fn kept(c: Class) -> (ClassView, Seq<LinkStyle>) {
    (c@, c.links@.map_values(|l: Link| l.style))
}

pub open spec fn kept_all(cs: Seq<Class>) -> Seq<(ClassView, Seq<LinkStyle>)> {
    cs.map_values(|c: Class| kept(c))
}

/// The own images of an open project.
pub open spec fn own_part(p: OpenProject) -> Seq<Class> {
    p.classes@.take(p.own_classes as int)
}

/// The images of the libraries of an open project.
pub open spec fn library_part(p: OpenProject) -> Seq<Class> {
    p.classes@.skip(p.own_classes as int)
}

/// Snapshots for Undo (the last is the newest) and for Redo.
pub struct History {
    pub past: Vec<Vec<Class>>,
    pub future: Vec<Vec<Class>>,
}

pub open spec fn past_view(h: History) -> Seq<Seq<(ClassView, Seq<LinkStyle>)>> {
    h.past@.map_values(|s: Vec<Class>| kept_all(s@))
}

/// A list of snapshots after one more, the oldest dropped beyond the depth.
pub open spec fn capped<T>(s: Seq<T>) -> Seq<T> {
    if s.len() > HISTORY_DEPTH {
        s.drop_first()
    } else {
        s
    }
}

/// `h1` is `h0` after the own images of `p` were remembered.
pub open spec fn remembered(h0: History, p: OpenProject, h1: History) -> bool {
    &&& past_view(h1) == capped(past_view(h0).push(kept_all(own_part(p))))
    &&& h1.future@.len() == 0
}

/// The project `p0` with the own images `own` in place of its own ones.
pub open spec fn with_own(p0: OpenProject, own: Seq<Class>, p1: OpenProject) -> bool {
    &&& p1.classes@ == own + library_part(p0)
    &&& p1.own_classes == own.len()
    &&& p1.project == p0.project
    &&& p1.state == p0.state
}

/// Undo took the last snapshot of `h0` into `p0`, giving `h1` and `p1`.
pub open spec fn undone(h0: History, p0: OpenProject, h1: History, p1: OpenProject) -> bool {
    &&& h0.past@.len() > 0
    &&& with_own(p0, h0.past@.last()@, p1)
    &&& h1.past@ == h0.past@.drop_last()
    &&& h1.future@.len() == h0.future@.len() + 1
    &&& h1.future@.drop_last() == h0.future@
    &&& h1.future@.last()@ == own_part(p0)
}

/// Redo took the last snapshot for Redo of `h0` into `p0`.
pub open spec fn redone(h0: History, p0: OpenProject, h1: History, p1: OpenProject) -> bool {
    &&& h0.future@.len() > 0
    &&& with_own(p0, h0.future@.last()@, p1)
    &&& h1.future@ == h0.future@.drop_last()
    &&& h1.past@.len() == h0.past@.len() + 1
    &&& h1.past@.drop_last() == h0.past@
    &&& h1.past@.last()@ == own_part(p0)
}

fn copy_string(s: &String) -> (r: String)
    ensures
        r == *s,
{
    s.clone()
}

fn copy_bytes(v: &Vec<u8>) -> (r: Vec<u8>)
    ensures
        r@ == v@,
{
    let mut r: Vec<u8> = Vec::new();
    let mut i: usize = 0;
    while i < v.len()
        invariant
            i <= v@.len(),
            r@ == v@.take(i as int),
        decreases v.len() - i,
    {
        r.push(v[i]);
        i = i + 1;
        assert(r@ =~= v@.take(i as int));
    }
    assert(v@.take(v@.len() as int) =~= v@);
    r
}

fn copy_bytes_opt(o: &Option<Vec<u8>>) -> (r: Option<Vec<u8>>)
    ensures
        crate::formats::cls::bytes_opt(r) == crate::formats::cls::bytes_opt(*o),
{
    match o {
        Some(v) => Some(copy_bytes(v)),
        None => None,
    }
}

fn copy_variable(v: &Variable) -> (r: Variable)
    ensures
        r@ == v@,
{
    Variable {
        name: copy_string(&v.name),
        description: copy_string(&v.description),
        default: copy_string(&v.default),
        var_type: copy_string(&v.var_type),
        flags: v.flags,
    }
}

fn copy_child(c: &Child) -> (r: Child)
    ensures
        r@ == c@,
{
    Child {
        class_name: copy_string(&c.class_name),
        handle: c.handle,
        name: copy_string(&c.name),
        x: c.x,
        y: c.y,
        flags: c.flags,
    }
}

fn copy_link(l: &Link) -> (r: Link)
    ensures
        r@ == l@,
        r.style == l.style,
{
    let mut vars: Vec<(String, String)> = Vec::new();
    let mut i: usize = 0;
    while i < l.vars.len()
        invariant
            i <= l.vars@.len(),
            vars@.len() == i,
            forall|k: int| 0 <= k < i ==> #[trigger] vars@[k] == l.vars@[k],
        decreases l.vars.len() - i,
    {
        let p = (copy_string(&l.vars[i].0), copy_string(&l.vars[i].1));
        vars.push(p);
        i = i + 1;
    }
    assert(vars@ =~= l.vars@);
    let style = LinkStyle {
        color: copy_string(&l.style.color),
        width: l.style.width,
        disabled: l.style.disabled,
        arrows: l.style.arrows,
        layer: l.style.layer,
    };
    Link { source: l.source, target: l.target, handle: l.handle, flags: l.flags, vars, style }
}

fn copy_class(c: &Class) -> (r: Class)
    ensures
        kept(r) == kept(*c),
{
    let mut vars: Vec<Variable> = Vec::new();
    let mut i: usize = 0;
    while i < c.vars.len()
        invariant
            i <= c.vars@.len(),
            vars@.len() == i,
            forall|k: int| 0 <= k < i ==> (#[trigger] vars@[k])@ == c.vars@[k]@,
        decreases c.vars.len() - i,
    {
        vars.push(copy_variable(&c.vars[i]));
        i = i + 1;
    }
    let mut children: Vec<Child> = Vec::new();
    let mut i: usize = 0;
    while i < c.children.len()
        invariant
            i <= c.children@.len(),
            children@.len() == i,
            forall|k: int| 0 <= k < i ==> (#[trigger] children@[k])@ == c.children@[k]@,
        decreases c.children.len() - i,
    {
        children.push(copy_child(&c.children[i]));
        i = i + 1;
    }
    let mut links: Vec<Link> = Vec::new();
    let mut i: usize = 0;
    while i < c.links.len()
        invariant
            i <= c.links@.len(),
            links@.len() == i,
            forall|k: int|
                0 <= k < i ==> (#[trigger] links@[k])@ == c.links@[k]@ && links@[k].style
                    == c.links@[k].style,
        decreases c.links.len() - i,
    {
        links.push(copy_link(&c.links[i]));
        i = i + 1;
    }
    let icon_file = match &c.icon_file {
        Some(s) => Some(copy_string(s)),
        None => None,
    };
    let r = Class {
        name: copy_string(&c.name),
        source: copy_string(&c.source),
        version: c.version,
        description: copy_string(&c.description),
        vars,
        text: copy_string(&c.text),
        children,
        links,
        icon_file,
        icon_index: c.icon_index,
        icon: copy_bytes_opt(&c.icon),
        image: copy_bytes_opt(&c.image),
        scheme: copy_bytes_opt(&c.scheme),
        bytecode: copy_bytes_opt(&c.bytecode),
        equations: copy_bytes_opt(&c.equations),
        timestamp: c.timestamp,
        flags: c.flags,
    };
    assert(r@.vars =~= c@.vars);
    assert(r@.children =~= c@.children);
    assert(r@.links =~= c@.links);
    assert(kept(r).1 =~= kept(*c).1);
    r
}

impl History {
    /// No snapshots.
    pub fn new() -> (h: History)
        ensures
            h.past@.len() == 0,
            h.future@.len() == 0,
    {
        History { past: Vec::new(), future: Vec::new() }
    }

    /// Called before each edit of the project: remembers its own images,
    /// keeps at most `HISTORY_DEPTH` snapshots and forgets what Redo had.
    pub fn remember(&mut self, p: &OpenProject)
        requires
            p.own_classes <= p.classes@.len(),
        ensures
            remembered(*old(self), *p, *final(self)),
    {
        let mut snap: Vec<Class> = Vec::new();
        let mut i: usize = 0;
        while i < p.own_classes
            invariant
                p.own_classes <= p.classes@.len(),
                i <= p.own_classes,
                kept_all(snap@) == kept_all(p.classes@.take(i as int)),
            decreases p.own_classes - i,
        {
            let ghost before = snap@;
            let c = copy_class(&p.classes[i]);
            snap.push(c);
            proof {
                assert(snap@ =~= before.push(c));
                assert(kept_all(snap@) =~= kept_all(before).push(kept(c)));
                assert(p.classes@.take(i + 1) =~= p.classes@.take(i as int).push(p.classes@[i as int]));
                assert(kept_all(p.classes@.take(i + 1)) =~= kept_all(p.classes@.take(i as int)).push(
                    kept(p.classes@[i as int]),
                ));
            }
            i = i + 1;
        }
        let ghost old_past = past_view(*self);
        self.past.push(snap);
        assert(past_view(*self) =~= old_past.push(kept_all(own_part(*p))));
        if self.past.len() > HISTORY_DEPTH {
            let ghost pushed = past_view(*self);
            self.past.remove(0);
            assert(past_view(*self) =~= pushed.drop_first());
        }
        self.future = Vec::new();
    }

    /// Puts the last remembered own images back; the images they replace
    /// go to Redo. False, with nothing changed, when there is nothing to
    /// undo.
    pub fn undo(&mut self, p: &mut OpenProject) -> (done: bool)
        requires
            old(p).own_classes <= old(p).classes@.len(),
        ensures
            done == (old(self).past@.len() > 0),
            done ==> undone(*old(self), *old(p), *final(self), *final(p)),
            !done ==> *final(self) == *old(self) && *final(p) == *old(p),
    {
        if self.past.len() == 0 {
            return false;
        }
        let snapshot = self.past.pop().unwrap();
        let current = swap_own(p, snapshot);
        self.future.push(current);
        assert(self.past@ =~= old(self).past@.drop_last());
        assert(self.future@.drop_last() =~= old(self).future@);
        true
    }

    /// Takes back the last Undo; the images it replaces go to Undo. False,
    /// with nothing changed, when there is nothing to redo.
    pub fn redo(&mut self, p: &mut OpenProject) -> (done: bool)
        requires
            old(p).own_classes <= old(p).classes@.len(),
        ensures
            done == (old(self).future@.len() > 0),
            done ==> redone(*old(self), *old(p), *final(self), *final(p)),
            !done ==> *final(self) == *old(self) && *final(p) == *old(p),
    {
        if self.future.len() == 0 {
            return false;
        }
        let snapshot = self.future.pop().unwrap();
        let current = swap_own(p, snapshot);
        self.past.push(current);
        assert(self.future@ =~= old(self).future@.drop_last());
        assert(self.past@.drop_last() =~= old(self).past@);
        true
    }
}

/// Puts `own` in place of the own images of `p`, keeping the images of the
/// libraries; gives back the images it replaced.
fn swap_own(p: &mut OpenProject, own: Vec<Class>) -> (current: Vec<Class>)
    requires
        old(p).own_classes <= old(p).classes@.len(),
    ensures
        with_own(*old(p), own@, *final(p)),
        current@ == own_part(*old(p)),
{
    let mut all: Vec<Class> = Vec::new();
    std::mem::swap(&mut all, &mut p.classes);
    let mut library = all.split_off(p.own_classes);
    let mut own = own;
    let n = own.len();
    own.append(&mut library);
    p.classes = own;
    p.own_classes = n;
    all
}

/// An Undo right after the own images were remembered puts back what they
/// were, to the styles of the links, and leaves the libraries as they are.
pub proof fn law_undo_after_remember(
    h0: History,
    p0: OpenProject,
    h1: History,
    h2: History,
    p2: OpenProject,
)
    requires
        p0.own_classes <= p0.classes@.len(),
        remembered(h0, p0, h1),
        undone(h1, p0, h2, p2),
    ensures
        kept_all(own_part(p2)) == kept_all(own_part(p0)),
        library_part(p2) == library_part(p0),
        p2.project == p0.project,
        p2.state == p0.state,
{
    let s = past_view(h0).push(kept_all(own_part(p0)));
    assert(past_view(h1).last() == s.last());
    assert(past_view(h1).last() == kept_all(h1.past@.last()@));
    assert(own_part(p2) =~= h1.past@.last()@);
    assert(library_part(p2) =~= library_part(p0));
}

/// A Redo right after an Undo gives the project back as it was.
pub proof fn law_redo_after_undo(
    h0: History,
    p0: OpenProject,
    h1: History,
    p1: OpenProject,
    h2: History,
    p2: OpenProject,
)
    requires
        p0.own_classes <= p0.classes@.len(),
        undone(h0, p0, h1, p1),
        redone(h1, p1, h2, p2),
    ensures
        p2.classes@ == p0.classes@,
        p2.own_classes == p0.own_classes,
        p2.project == p0.project,
        p2.state == p0.state,
        h2.past@.drop_last() == h0.past@.drop_last(),
        h2.past@.last()@ == h0.past@.last()@,
        h2.future@ == h0.future@,
{
    assert(library_part(p1) =~= library_part(p0));
    assert(own_part(p1) =~= h0.past@.last()@);
    assert(own_part(p0) + library_part(p0) =~= p0.classes@);
}

} // verus!
