//! Images (`.cls`): the classes of a Stratum 2000 project.
//!
//! `SB`, `u32` version, `u32` end of the body (counted from byte 6), `u32`
//! size of the index, the name, then sections — each a `u16` id and its
//! body — up to the end marker or the end of the body, then the index of
//! some sections (offsets from byte 6 and ids).

use vstd::prelude::*;
use crate::formats::cp1251;
use crate::formats::reader::{string_at, u16_at, u32_at, Reader, Result, FormatError};
use crate::numtext::push_hex_padded;
use crate::numfloat::{double_bits_of_i16, double_bits_of_int};
use crate::formats::reader::le_u64;
use crate::formats::writer::{le16_bytes, le32_bytes, le64_bytes, string_bytes, Writer};

verus! {

/// Section ids.
pub const FLAGS: u16 = 0x04;
pub const LINKS: u16 = 0x07;
pub const ICON: u16 = 0x08;
pub const IMAGE: u16 = 0x09;
pub const TEXT: u16 = 0x0A;
pub const UNKNOWN_0B: u16 = 0x0B;
pub const SCHEME: u16 = 0x0C;
pub const BYTECODE: u16 = 0x0D;
pub const DESCRIPTION: u16 = 0x0E;
pub const VARS: u16 = 0x0F;
pub const CHILDREN: u16 = 0x11;
pub const ICON_INDEX: u16 = 0x14;
pub const TIMESTAMP: u16 = 0x15;
pub const ICON_FILE: u16 = 0x16;
pub const EQUATIONS: u16 = 0x1E;
pub const END: u16 = 0x00;

/// Flag of a variable: local, not shown on the contact pad.
pub const VAR_LOCAL: u32 = 0x0000_0002;
/// Flag of a variable: computed by the image itself.
pub const VAR_COMPUTED: u32 = 0x0000_0080;
pub const VAR_IN: u32 = 0x0000_0100;
pub const VAR_OUT: u32 = 0x0000_0200;
pub const VAR_INOUT: u32 = 0x0000_0400;

#[derive(Debug, Clone)]
pub struct Variable {
    pub name: String,
    pub description: String,
    pub default: String,
    pub var_type: String,
    pub flags: u32,
}

impl Variable {
    pub fn is_local(&self) -> (b: bool)
        ensures
            b == (self.flags & VAR_LOCAL != 0),
    {
        self.flags & VAR_LOCAL != 0
    }
}

/// An instance of a child image on the scheme. The coordinates are the bit
/// patterns of `f64` numbers, as the file holds them.
#[derive(Debug, Clone)]
pub struct Child {
    pub class_name: String,
    pub handle: u16,
    /// Name of the instance; empty when it is the class name.
    pub name: String,
    pub x: u64,
    pub y: u64,
    pub flags: u8,
}

/// Style of a link (the "Link parameters" dialog): colour, width, off,
/// arrows, layer. Not stored in `.cls`, only in the native format.
#[derive(Debug, Clone, PartialEq, Eq)]
pub struct LinkStyle {
    /// Colour `#rrggbb`; empty — the default colour.
    pub color: String,
    /// Width of the line in pixels; 0 — the default.
    pub width: u8,
    /// "The link does not work": the variables are not joined.
    pub disabled: bool,
    pub arrows: bool,
    pub layer: u8,
}

impl Default for LinkStyle {
    fn default() -> (s: LinkStyle)
        ensures
            s.spec_is_default(),
    {
        LinkStyle::new()
    }
}

impl Default for Link {
    fn default() -> (l: Link)
        ensures
            l.source == 0 && l.target == 0 && l.handle == 0 && l.flags == 0,
            l.vars@.len() == 0,
            l.style.spec_is_default(),
    {
        Link { source: 0, target: 0, handle: 0, flags: 0, vars: Vec::new(), style: LinkStyle::new() }
    }
}

impl Default for Class {
    fn default() -> (c: Class)
        ensures
            c@ == empty_class(Seq::empty(), Seq::empty(), 0),
    {
        Class::new(String::new(), 0)
    }
}

impl LinkStyle {
    pub open spec fn spec_is_default(&self) -> bool {
        &&& self.color@.len() == 0
        &&& self.width == 0
        &&& !self.disabled
        &&& !self.arrows
        &&& self.layer == 0
    }

    /// The style every link has by default.
    pub fn new() -> (s: LinkStyle)
        ensures
            s.spec_is_default(),
    {
        LinkStyle { color: String::new(), width: 0, disabled: false, arrows: false, layer: 0 }
    }

    /// Whether this is the default style.
    pub fn is_default(&self) -> (b: bool)
        ensures
            b == self.spec_is_default(),
    {
        self.color.as_str().is_empty() && self.width == 0 && !self.disabled && !self.arrows
            && self.layer == 0
    }
}

/// A link: one or more pairs of variables between two instances.
#[derive(Debug, Clone)]
pub struct Link {
    pub source: u16,
    pub target: u16,
    pub handle: u16,
    pub flags: u32,
    pub vars: Vec<(String, String)>,
    pub style: LinkStyle,
}

#[derive(Debug, Clone)]
pub struct Class {
    pub name: String,
    /// Where the file was read from; empty for images made in memory.
    pub source: String,
    pub version: u32,
    pub description: String,
    pub vars: Vec<Variable>,
    pub text: String,
    pub children: Vec<Child>,
    pub links: Vec<Link>,
    pub icon_file: Option<String>,
    pub icon_index: Option<u16>,
    /// Icon, picture of the image and graphics of the scheme — blocks in the
    /// `.vdr` format.
    pub icon: Option<Vec<u8>>,
    pub image: Option<Vec<u8>>,
    pub scheme: Option<Vec<u8>>,
    /// Bytecode compiled by Stratum 2000; the text is compiled anew.
    pub bytecode: Option<Vec<u8>>,
    /// Equations of the libraries of electric circuits, kept as they are.
    pub equations: Option<Vec<u8>>,
    pub timestamp: Option<u32>,
    pub flags: Option<u32>,
}

pub struct VariableView {
    pub name: Seq<char>,
    pub description: Seq<char>,
    pub default: Seq<char>,
    pub var_type: Seq<char>,
    pub flags: u32,
}

pub struct ChildView {
    pub class_name: Seq<char>,
    pub handle: u16,
    pub name: Seq<char>,
    pub x: u64,
    pub y: u64,
    pub flags: u8,
}

pub struct LinkView {
    pub source: u16,
    pub target: u16,
    pub handle: u16,
    pub flags: u32,
    pub vars: Seq<(Seq<char>, Seq<char>)>,
    /// The style is the default one.
    pub plain: bool,
}

pub struct ClassView {
    pub name: Seq<char>,
    pub source: Seq<char>,
    pub version: u32,
    pub description: Seq<char>,
    pub vars: Seq<VariableView>,
    pub text: Seq<char>,
    pub children: Seq<ChildView>,
    pub links: Seq<LinkView>,
    pub icon_file: Option<Seq<char>>,
    pub icon_index: Option<u16>,
    pub icon: Option<Seq<u8>>,
    pub image: Option<Seq<u8>>,
    pub scheme: Option<Seq<u8>>,
    pub bytecode: Option<Seq<u8>>,
    pub equations: Option<Seq<u8>>,
    pub timestamp: Option<u32>,
    pub flags: Option<u32>,
}

impl View for Variable {
    type V = VariableView;

    open spec fn view(&self) -> VariableView {
        VariableView {
            name: self.name@,
            description: self.description@,
            default: self.default@,
            var_type: self.var_type@,
            flags: self.flags,
        }
    }
}

impl View for Child {
    type V = ChildView;

    open spec fn view(&self) -> ChildView {
        ChildView {
            class_name: self.class_name@,
            handle: self.handle,
            name: self.name@,
            x: self.x,
            y: self.y,
            flags: self.flags,
        }
    }
}

pub open spec fn pairs_view(v: Seq<(String, String)>) -> Seq<(Seq<char>, Seq<char>)> {
    v.map_values(|p: (String, String)| (p.0@, p.1@))
}

impl View for Link {
    type V = LinkView;

    open spec fn view(&self) -> LinkView {
        LinkView {
            source: self.source,
            target: self.target,
            handle: self.handle,
            flags: self.flags,
            vars: pairs_view(self.vars@),
            plain: self.style.spec_is_default(),
        }
    }
}

pub open spec fn str_opt(o: Option<String>) -> Option<Seq<char>> {
    match o {
        Some(s) => Some(s@),
        None => None,
    }
}

pub open spec fn bytes_opt(o: Option<Vec<u8>>) -> Option<Seq<u8>> {
    match o {
        Some(v) => Some(v@),
        None => None,
    }
}

impl View for Class {
    type V = ClassView;

    open spec fn view(&self) -> ClassView {
        ClassView {
            name: self.name@,
            source: self.source@,
            version: self.version,
            description: self.description@,
            vars: self.vars@.map_values(|v: Variable| v@),
            text: self.text@,
            children: self.children@.map_values(|c: Child| c@),
            links: self.links@.map_values(|l: Link| l@),
            icon_file: str_opt(self.icon_file),
            icon_index: self.icon_index,
            icon: bytes_opt(self.icon),
            image: bytes_opt(self.image),
            scheme: bytes_opt(self.scheme),
            bytecode: bytes_opt(self.bytecode),
            equations: bytes_opt(self.equations),
            timestamp: self.timestamp,
            flags: self.flags,
        }
    }
}

/// A class with nothing in it but its name.
pub open spec fn empty_class(name: Seq<char>, source: Seq<char>, version: u32) -> ClassView {
    ClassView {
        name,
        source,
        version,
        description: Seq::empty(),
        vars: Seq::empty(),
        text: Seq::empty(),
        children: Seq::empty(),
        links: Seq::empty(),
        icon_file: None,
        icon_index: None,
        icon: None,
        image: None,
        scheme: None,
        bytecode: None,
        equations: None,
        timestamp: None,
        flags: None,
    }
}

impl Class {
    /// A class with the given name and version, empty otherwise.
    pub fn new(name: String, version: u32) -> (c: Class)
        ensures
            c@ == empty_class(name@, Seq::empty(), version),
    {
        let c = Class {
            name,
            source: String::new(),
            version,
            description: String::new(),
            vars: Vec::new(),
            text: String::new(),
            children: Vec::new(),
            links: Vec::new(),
            icon_file: None,
            icon_index: None,
            icon: None,
            image: None,
            scheme: None,
            bytecode: None,
            equations: None,
            timestamp: None,
            flags: None,
        };
        assert(c@.vars =~= Seq::empty());
        assert(c@.children =~= Seq::empty());
        assert(c@.links =~= Seq::empty());
        c
    }

    /// The instance with a handle — links refer to instances by handle.
    pub fn child(&self, handle: u16) -> (res: Option<&Child>)
        ensures
            match res {
                Some(c) => c.handle == handle && exists|i: int|
                    0 <= i < self.children@.len() && self.children@[i] == *c && forall|j: int|
                        0 <= j < i ==> self.children@[j].handle != handle,
                None => forall|j: int| 0 <= j < self.children@.len() ==> self.children@[j].handle != handle,
            },
    {
        let mut i: usize = 0;
        while i < self.children.len()
            invariant
                i <= self.children@.len(),
                forall|j: int| 0 <= j < i ==> self.children@[j].handle != handle,
            decreases self.children.len() - i,
        {
            if self.children[i].handle == handle {
                return Some(&self.children[i]);
            }
            i = i + 1;
        }
        None
    }

    /// Name of an instance on the scheme: its own, else the name of its
    /// class.
    pub fn instance_name(child: &Child) -> (s: &str)
        ensures
            s@ == if child.name@.len() == 0 { child.class_name@ } else { child.name@ },
    {
        if child.name.as_str().is_empty() {
            child.class_name.as_str()
        } else {
            child.name.as_str()
        }
    }
}

/// Offsets in the index count from byte 6, right after `SB` and the
/// version.
pub const INDEX_BASE: usize = 6;

/// The `u16` at `at` when two bytes are there.
pub open spec fn peek16(d: Seq<u8>, at: int) -> Option<u16> {
    if 0 <= at && at + 2 <= d.len() {
        Some(u16_at(d, at))
    } else {
        None
    }
}

/// The `u64` at `at` (eight bytes there).
pub open spec fn u64_at(d: Seq<u8>, at: int) -> u64 {
    le_u64(d.subrange(at, at + 8))
}

/// `n` variables from `pos`, appended to `acc`.
pub open spec fn vars_from(d: Seq<u8>, pos: int, n: nat, acc: Seq<VariableView>) -> Option<
    (Seq<VariableView>, int),
>
    decreases n,
{
    if n == 0 {
        Some((acc, pos))
    } else {
        match string_at(d, pos) {
            None => None,
            Some((name, a1)) => match string_at(d, a1) {
                None => None,
                Some((description, a2)) => match string_at(d, a2) {
                    None => None,
                    Some((default, a3)) => match string_at(d, a3) {
                        None => None,
                        Some((var_type, a4)) => if a4 + 4 > d.len() {
                            None
                        } else {
                            let v = VariableView {
                                name,
                                description,
                                default,
                                var_type,
                                flags: u32_at(d, a4),
                            };
                            vars_from(d, a4 + 4, (n - 1) as nat, acc.push(v))
                        },
                    },
                },
            },
        }
    }
}

/// `n` pairs of strings from `pos`, appended to `acc`.
pub open spec fn pairs_from(d: Seq<u8>, pos: int, n: nat, acc: Seq<(Seq<char>, Seq<char>)>) -> Option<
    (Seq<(Seq<char>, Seq<char>)>, int),
>
    decreases n,
{
    if n == 0 {
        Some((acc, pos))
    } else {
        match string_at(d, pos) {
            None => None,
            Some((a, at)) => match string_at(d, at) {
                None => None,
                Some((b, at2)) => pairs_from(d, at2, (n - 1) as nat, acc.push((a, b))),
            },
        }
    }
}

/// `n` links from `pos`, appended to `acc`.
pub open spec fn links_from(d: Seq<u8>, pos: int, n: nat, acc: Seq<LinkView>) -> Option<
    (Seq<LinkView>, int),
>
    decreases n,
{
    if n == 0 {
        Some((acc, pos))
    } else if pos < 0 || pos + 14 > d.len() {
        None
    } else {
        match pairs_from(d, pos + 14, u16_at(d, pos + 10) as nat, Seq::empty()) {
            None => None,
            Some((vars, next)) => {
                let l = LinkView {
                    source: u16_at(d, pos),
                    target: u16_at(d, pos + 2),
                    handle: u16_at(d, pos + 4),
                    flags: u32_at(d, pos + 6),
                    vars,
                    plain: true,
                };
                links_from(d, next, (n - 1) as nat, acc.push(l))
            },
        }
    }
}

/// The coordinates of a child: two doubles from version 3.002 on, two
/// 16-bit pixels before.
pub open spec fn coords_at(d: Seq<u8>, pos: int, version: u32) -> Option<(u64, u64, int)> {
    if version >= 0x3002 {
        if pos < 0 || pos + 16 > d.len() {
            None
        } else {
            Some((u64_at(d, pos), u64_at(d, pos + 8), pos + 16))
        }
    } else {
        if pos < 0 || pos + 4 > d.len() {
            None
        } else {
            Some(
                (
                    double_bits_of_int(u16_at(d, pos) as i16 as int),
                    double_bits_of_int(u16_at(d, pos + 2) as i16 as int),
                    pos + 4,
                ),
            )
        }
    }
}

/// `n` children from `pos`, appended to `acc`.
pub open spec fn children_from(d: Seq<u8>, pos: int, n: nat, version: u32, acc: Seq<ChildView>) -> Option<
    (Seq<ChildView>, int),
>
    decreases n,
{
    if n == 0 {
        Some((acc, pos))
    } else {
        match string_at(d, pos) {
            None => None,
            Some((class_name, a1)) => if a1 + 2 > d.len() {
                None
            } else {
                match string_at(d, a1 + 2) {
                    None => None,
                    Some((name, a2)) => match coords_at(d, a2, version) {
                        None => None,
                        Some((x, y, a3)) => if a3 + 1 > d.len() {
                            None
                        } else {
                            let c = ChildView {
                                class_name,
                                handle: u16_at(d, a1),
                                name,
                                x,
                                y,
                                flags: d[a3],
                            };
                            children_from(d, a3 + 1, (n - 1) as nat, version, acc.push(c))
                        },
                    },
                }
            },
        }
    }
}

/// Where the equations end: before a time stamp and end marker that close
/// the body, else at the end of the body.
pub open spec fn equations_end(d: Seq<u8>, index_at: int) -> int {
    if index_at >= 10 && peek16(d, index_at - 10) == Some(TIMESTAMP) && peek16(d, index_at - 2)
        == Some(END) {
        index_at - 10
    } else if index_at >= 8 && peek16(d, index_at - 8) == Some(TIMESTAMP) {
        index_at - 8
    } else {
        index_at
    }
}

/// A byte block of `n` bytes at `pos`.
pub open spec fn block_at(d: Seq<u8>, pos: int, n: int) -> Option<(Seq<u8>, int)> {
    if pos < 0 || n < 0 || pos + n > d.len() {
        None
    } else {
        Some((d.subrange(pos, pos + n), pos + n))
    }
}

/// The body of the section `id` that starts at `pos`, added to `c`, and
/// where the next section starts.
#[verifier::opaque]
pub open spec fn section_at(d: Seq<u8>, pos: int, id: u16, index_at: int, c: ClassView) -> Option<
    (ClassView, int),
> {
    if pos < 0 || pos > d.len() {
        None
    } else if id == VARS {
        if pos + 2 > d.len() {
            None
        } else {
            match vars_from(d, pos + 2, u16_at(d, pos) as nat, c.vars) {
                None => None,
                Some((vars, next)) => Some((ClassView { vars, ..c }, next)),
            }
        }
    } else if id == TEXT {
        match string_at(d, pos) {
            None => None,
            Some((text, next)) => Some((ClassView { text, ..c }, next)),
        }
    } else if id == DESCRIPTION {
        match string_at(d, pos) {
            None => None,
            Some((description, next)) => Some((ClassView { description, ..c }, next)),
        }
    } else if id == ICON_FILE {
        match string_at(d, pos) {
            None => None,
            Some((f, next)) => Some((ClassView { icon_file: Some(f), ..c }, next)),
        }
    } else if id == ICON_INDEX {
        if pos + 2 > d.len() {
            None
        } else {
            Some((ClassView { icon_index: Some(u16_at(d, pos)), ..c }, pos + 2))
        }
    } else if id == TIMESTAMP {
        if pos + 4 > d.len() {
            None
        } else {
            Some((ClassView { timestamp: Some(u32_at(d, pos)), ..c }, pos + 4))
        }
    } else if id == FLAGS {
        if pos + 4 > d.len() {
            None
        } else {
            Some((ClassView { flags: Some(u32_at(d, pos)), ..c }, pos + 4))
        }
    } else if id == UNKNOWN_0B {
        if pos + 2 > d.len() {
            None
        } else {
            Some((c, pos + 2))
        }
    } else if id == LINKS {
        if pos + 2 > d.len() {
            None
        } else {
            match links_from(d, pos + 2, u16_at(d, pos) as nat, c.links) {
                None => None,
                Some((links, next)) => Some((ClassView { links, ..c }, next)),
            }
        }
    } else if id == CHILDREN {
        if pos + 2 > d.len() {
            None
        } else {
            match children_from(d, pos + 2, u16_at(d, pos) as nat, c.version, c.children) {
                None => None,
                Some((children, next)) => Some((ClassView { children, ..c }, next)),
            }
        }
    } else if id == ICON || id == IMAGE || id == SCHEME {
        if pos + 4 > d.len() {
            None
        } else {
            let size = u32_at(d, pos) as int;
            match block_at(d, pos + 4, if size >= 4 { size - 4 } else { 0 }) {
                None => None,
                Some((body, next)) => if id == ICON {
                    Some((ClassView { icon: Some(body), ..c }, next))
                } else if id == IMAGE {
                    Some((ClassView { image: Some(body), ..c }, next))
                } else {
                    Some((ClassView { scheme: Some(body), ..c }, next))
                },
            }
        }
    } else if id == BYTECODE {
        if pos + 4 > d.len() {
            None
        } else {
            match block_at(d, pos + 4, 2 * u32_at(d, pos)) {
                None => None,
                Some((code, next)) => Some((ClassView { bytecode: Some(code), ..c }, next)),
            }
        }
    } else if id == EQUATIONS {
        let end = equations_end(d, index_at);
        match block_at(d, pos, if end >= pos { end - pos } else { 0 }) {
            None => None,
            Some((eq, next)) => Some((ClassView { equations: Some(eq), ..c }, next)),
        }
    } else {
        None
    }
}

/// The sections from `pos` until the end marker or the body's end.
pub open spec fn sections_from(d: Seq<u8>, pos: int, index_at: int, c: ClassView) -> Option<ClassView>
    decreases d.len() - pos,
{
    if pos >= index_at {
        Some(c)
    } else if pos < 0 || pos + 2 > d.len() {
        None
    } else if u16_at(d, pos) == END {
        Some(c)
    } else {
        match section_at(d, pos + 2, u16_at(d, pos), index_at, c) {
            None => None,
            Some((c2, next)) => if pos < next <= d.len() {
                sections_from(d, next, index_at, c2)
            } else {
                None
            },
        }
    }
}

/// The class that a `.cls` file holds, read from `path`; `None` where it is
/// not one.
pub open spec fn class_of(d: Seq<u8>, path: Seq<char>) -> Option<ClassView> {
    if d.len() < 16 || d[0] != 0x53 || d[1] != 0x42 {
        None
    } else {
        let version = u32_at(d, 2);
        match string_at(d, 14) {
            None => None,
            Some((name, at)) => sections_from(
                d,
                at,
                u32_at(d, 6) + 6,
                empty_class(name, path, version),
            ),
        }
    }
}

pub open spec fn vars_view(v: Seq<Variable>) -> Seq<VariableView> {
    v.map_values(|x: Variable| x@)
}

pub open spec fn children_view(v: Seq<Child>) -> Seq<ChildView> {
    v.map_values(|x: Child| x@)
}

pub open spec fn links_view(v: Seq<Link>) -> Seq<LinkView> {
    v.map_values(|x: Link| x@)
}

pub proof fn lemma_pairs_bounds(d: Seq<u8>, pos: int, n: nat, acc: Seq<(Seq<char>, Seq<char>)>)
    requires
        0 <= pos <= d.len(),
    ensures
        pairs_from(d, pos, n, acc) matches Some((v, next)) ==> pos <= next <= d.len(),
    decreases n,
{
    if n > 0 {
        if let Some((a, at)) = string_at(d, pos) {
            if let Some((b, at2)) = string_at(d, at) {
                lemma_pairs_bounds(d, at2, (n - 1) as nat, acc.push((a, b)));
            }
        }
    }
}

/// The error of a read of `n` bytes past the end.
fn short_err<T>(r: &Reader, n: u64) -> (res: Result<T>)
    ensures
        res matches Err(e) && e.path@ == r.spec_path(),
{
    let len = r.data.len();
    let left: usize = if r.pos <= len { len - r.pos } else { 0 };
    let mut m = String::new();
    m.append("нужно ");
    crate::numtext::push_decimal(&mut m, n);
    m.append(" байт, а до конца файла осталось ");
    crate::numtext::push_decimal(&mut m, left as u64);
    r.err(m)
}

#[verifier::spinoff_prover]
fn read_vars(r: &mut Reader, count: u16, vars: &mut Vec<Variable>) -> (res: Result<()>)
    requires
        old(r).pos <= old(r).data@.len(),
    ensures
        final(r).same_file(old(r)),
        res matches Err(e) ==> e.path@ == old(r).spec_path(),
        match vars_from(old(r).data@, old(r).pos as int, count as nat, vars_view(old(vars)@)) {
            Some((vs, next)) => res is Ok && vars_view(final(vars)@) == vs && final(r).pos == next,
            None => res is Err,
        },
{
    let ghost target = vars_from(r.data@, r.pos as int, count as nat, vars_view(vars@));
    let mut k: u16 = 0;
    while k < count
        invariant
            k <= count,
            r.same_file(old(r)),
            r.pos <= r.data@.len(),
            target == vars_from(old(r).data@, old(r).pos as int, count as nat, vars_view(old(vars)@)),
            target == vars_from(r.data@, r.pos as int, (count - k) as nat, vars_view(vars@)),
        decreases count - k,
    {
        let name = r.string()?;
        let description = r.string()?;
        let default = r.string()?;
        let var_type = r.string()?;
        let flags = r.u32()?;
        let ghost before = vars_view(vars@);
        vars.push(Variable { name, description, default, var_type, flags });
        assert(vars_view(vars@) =~= before.push(vars@.last()@));
        k = k + 1;
    }
    Ok(())
}

#[verifier::spinoff_prover]
fn read_pairs(r: &mut Reader, count: u16) -> (res: Result<Vec<(String, String)>>)
    requires
        old(r).pos <= old(r).data@.len(),
    ensures
        final(r).same_file(old(r)),
        res matches Err(e) ==> e.path@ == old(r).spec_path(),
        match pairs_from(old(r).data@, old(r).pos as int, count as nat, Seq::empty()) {
            Some((ps, next)) => res matches Ok(v) && pairs_view(v@) == ps && final(r).pos == next,
            None => res is Err,
        },
{
    let ghost target = pairs_from(r.data@, r.pos as int, count as nat, Seq::empty());
    let mut out: Vec<(String, String)> = Vec::new();
    assert(pairs_view(out@) =~= Seq::empty());
    let mut k: u16 = 0;
    while k < count
        invariant
            k <= count,
            r.same_file(old(r)),
            r.pos <= r.data@.len(),
            target == pairs_from(old(r).data@, old(r).pos as int, count as nat, Seq::empty()),
            target == pairs_from(r.data@, r.pos as int, (count - k) as nat, pairs_view(out@)),
        decreases count - k,
    {
        let a = r.string()?;
        let b = r.string()?;
        let ghost before = pairs_view(out@);
        out.push((a, b));
        assert(pairs_view(out@) =~= before.push((out@.last().0@, out@.last().1@)));
        k = k + 1;
    }
    Ok(out)
}

#[verifier::spinoff_prover]
fn read_links(r: &mut Reader, count: u16, links: &mut Vec<Link>) -> (res: Result<()>)
    requires
        old(r).pos <= old(r).data@.len(),
    ensures
        final(r).same_file(old(r)),
        res matches Err(e) ==> e.path@ == old(r).spec_path(),
        match links_from(old(r).data@, old(r).pos as int, count as nat, links_view(old(links)@)) {
            Some((ls, next)) => res is Ok && links_view(final(links)@) == ls && final(r).pos == next,
            None => res is Err,
        },
{
    let ghost target = links_from(r.data@, r.pos as int, count as nat, links_view(links@));
    let mut k: u16 = 0;
    while k < count
        invariant
            k <= count,
            r.same_file(old(r)),
            r.pos <= r.data@.len(),
            target == links_from(old(r).data@, old(r).pos as int, count as nat, links_view(old(links)@)),
            target == links_from(r.data@, r.pos as int, (count - k) as nat, links_view(links@)),
        decreases count - k,
    {
        let ghost pos = r.pos as int;
        proof {
            assert(pos + 14 > r.data@.len() ==> target is None);
        }
        let source = r.u16()?;
        let target_h = r.u16()?;
        let handle = r.u16()?;
        let flags = r.u32()?;
        let pairs = r.u16()?;
        let _reserved = r.u16()?;
        proof {
            lemma_pairs_bounds(r.data@, r.pos as int, pairs as nat, Seq::empty());
        }
        let vars = read_pairs(r, pairs)?;
        let ghost before = links_view(links@);
        links.push(Link { source, target: target_h, handle, flags, vars, style: LinkStyle::new() });
        assert(links_view(links@) =~= before.push(links@.last()@));
        k = k + 1;
    }
    Ok(())
}

#[verifier::spinoff_prover]
fn read_children(r: &mut Reader, count: u16, version: u32, children: &mut Vec<Child>) -> (res: Result<()>)
    requires
        old(r).pos <= old(r).data@.len(),
    ensures
        final(r).same_file(old(r)),
        res matches Err(e) ==> e.path@ == old(r).spec_path(),
        match children_from(old(r).data@, old(r).pos as int, count as nat, version, children_view(old(children)@)) {
            Some((cs, next)) => res is Ok && children_view(final(children)@) == cs && final(r).pos == next,
            None => res is Err,
        },
{
    let ghost target = children_from(r.data@, r.pos as int, count as nat, version, children_view(children@));
    let mut k: u16 = 0;
    while k < count
        invariant
            k <= count,
            r.same_file(old(r)),
            r.pos <= r.data@.len(),
            target == children_from(old(r).data@, old(r).pos as int, count as nat, version, children_view(old(children)@)),
            target == children_from(r.data@, r.pos as int, (count - k) as nat, version, children_view(children@)),
        decreases count - k,
    {
        let class_name = r.string()?;
        let handle = r.u16()?;
        let name = r.string()?;
        let ghost at = r.pos as int;
        let (x, y) = if version >= 0x3002 {
            let x = r.u64()?;
            let y = r.u64()?;
            proof {
                assert(r.data@.subrange(at + 8, at + 16) == r.data@.subrange(at + 8, at + 8 + 8));
            }
            (x, y)
        } else {
            let x = r.i16()?;
            let y = r.i16()?;
            (double_bits_of_i16(x), double_bits_of_i16(y))
        };
        let flags = r.u8()?;
        let ghost before = children_view(children@);
        children.push(Child { class_name, handle, name, x, y, flags });
        assert(children_view(children@) =~= before.push(children@.last()@));
        k = k + 1;
    }
    Ok(())
}

pub proof fn lemma_vars_bounds(d: Seq<u8>, pos: int, n: nat, acc: Seq<VariableView>)
    requires
        0 <= pos <= d.len(),
    ensures
        vars_from(d, pos, n, acc) matches Some((v, next)) ==> pos <= next <= d.len(),
    decreases n,
{
    if n > 0 {
        if let Some((a, a1)) = string_at(d, pos) {
            if let Some((b, a2)) = string_at(d, a1) {
                if let Some((c, a3)) = string_at(d, a2) {
                    if let Some((e, a4)) = string_at(d, a3) {
                        if a4 + 4 <= d.len() {
                            let v = VariableView { name: a, description: b, default: c, var_type: e, flags: u32_at(d, a4) };
                            lemma_vars_bounds(d, a4 + 4, (n - 1) as nat, acc.push(v));
                        }
                    }
                }
            }
        }
    }
}

pub proof fn lemma_links_bounds(d: Seq<u8>, pos: int, n: nat, acc: Seq<LinkView>)
    requires
        0 <= pos <= d.len(),
    ensures
        links_from(d, pos, n, acc) matches Some((v, next)) ==> pos <= next <= d.len(),
    decreases n,
{
    if n > 0 && pos + 14 <= d.len() {
        lemma_pairs_bounds(d, pos + 14, u16_at(d, pos + 10) as nat, Seq::empty());
        if let Some((vars, next)) = pairs_from(d, pos + 14, u16_at(d, pos + 10) as nat, Seq::empty()) {
            let l = LinkView {
                source: u16_at(d, pos),
                target: u16_at(d, pos + 2),
                handle: u16_at(d, pos + 4),
                flags: u32_at(d, pos + 6),
                vars,
                plain: true,
            };
            lemma_links_bounds(d, next, (n - 1) as nat, acc.push(l));
        }
    }
}

pub proof fn lemma_children_bounds(d: Seq<u8>, pos: int, n: nat, version: u32, acc: Seq<ChildView>)
    requires
        0 <= pos <= d.len(),
    ensures
        children_from(d, pos, n, version, acc) matches Some((v, next)) ==> pos <= next <= d.len(),
    decreases n,
{
    if n > 0 {
        if let Some((class_name, a1)) = string_at(d, pos) {
            if a1 + 2 <= d.len() {
                if let Some((name, a2)) = string_at(d, a1 + 2) {
                    if let Some((x, y, a3)) = coords_at(d, a2, version) {
                        if a3 + 1 <= d.len() {
                            let c = ChildView { class_name, handle: u16_at(d, a1), name, x, y, flags: d[a3] };
                            lemma_children_bounds(d, a3 + 1, (n - 1) as nat, version, acc.push(c));
                        }
                    }
                }
            }
        }
    }
}

pub proof fn lemma_section_bounds(d: Seq<u8>, pos: int, id: u16, index_at: int, c: ClassView)
    requires
        0 <= pos <= d.len(),
    ensures
        section_at(d, pos, id, index_at, c) matches Some((c2, next)) ==> pos <= next <= d.len(),
{
    reveal(section_at);
    if pos + 2 <= d.len() {
        lemma_vars_bounds(d, pos + 2, u16_at(d, pos) as nat, c.vars);
        lemma_links_bounds(d, pos + 2, u16_at(d, pos) as nat, c.links);
        lemma_children_bounds(d, pos + 2, u16_at(d, pos) as nat, c.version, c.children);
    }
}

/// The `u16` at an offset given as a `u64`.
fn peek_at(r: &Reader, at: u64) -> (res: Option<u16>)
    ensures
        res == peek16(r.data@, at as int),
{
    let len = r.data.len();
    if len >= 2 && at <= (len - 2) as u64 {
        r.peek_u16(at as usize)
    } else {
        None
    }
}

#[verifier::spinoff_prover]
#[verifier::rlimit(40)]
fn read_section(r: &mut Reader, id: u16, index_at: u64, cls: &mut Class) -> (res: Result<()>)
    requires
        old(r).pos <= old(r).data@.len(),
    ensures
        final(r).same_file(old(r)),
        res matches Err(e) ==> e.path@ == old(r).spec_path(),
        match section_at(old(r).data@, old(r).pos as int, id, index_at as int, old(cls)@) {
            Some((c2, next)) => res is Ok && final(cls)@ == c2 && final(r).pos == next,
            None => res is Err,
        },
{
    reveal(section_at);
    let ghost pos = r.pos as int;
    if id == VARS {
        let n = r.u16()?;
        read_vars(r, n, &mut cls.vars)?;
    } else if id == TEXT {
        cls.text = r.string()?;
    } else if id == DESCRIPTION {
        cls.description = r.string()?;
    } else if id == ICON_FILE {
        cls.icon_file = Some(r.string()?);
    } else if id == ICON_INDEX {
        cls.icon_index = Some(r.u16()?);
    } else if id == TIMESTAMP {
        cls.timestamp = Some(r.u32()?);
    } else if id == FLAGS {
        cls.flags = Some(r.u32()?);
    } else if id == UNKNOWN_0B {
        r.u16()?;
    } else if id == LINKS {
        let n = r.u16()?;
        read_links(r, n, &mut cls.links)?;
    } else if id == CHILDREN {
        let n = r.u16()?;
        let version = cls.version;
        read_children(r, n, version, &mut cls.children)?;
    } else if id == ICON || id == IMAGE || id == SCHEME {
        // the size counts its own four bytes
        let size = r.u32()?;
        let n: u32 = if size >= 4 { size - 4 } else { 0 };
        let body = r.bytes(n as usize)?;
        if id == ICON {
            cls.icon = Some(body);
        } else if id == IMAGE {
            cls.image = Some(body);
        } else {
            cls.scheme = Some(body);
        }
    } else if id == BYTECODE {
        let words = r.u32()?;
        let n: u64 = 2 * (words as u64);
        if n > (r.data.len() - r.pos) as u64 {
            return short_err(r, n);
        }
        cls.bytecode = Some(r.bytes(n as usize)?);
    } else if id == EQUATIONS {
        // the section is always the last of the body; a time stamp may follow:
        // `15 00 <u32>` or `15 00 <u32> 00 00`
        let mut end: u64 = index_at;
        if index_at >= 10 && peek_at(r, index_at - 10) == Some(TIMESTAMP) && peek_at(r, index_at - 2)
            == Some(END) {
            end = index_at - 10;
        } else if index_at >= 8 && peek_at(r, index_at - 8) == Some(TIMESTAMP) {
            end = index_at - 8;
        }
        let n: u64 = if end >= r.pos as u64 { end - r.pos as u64 } else { 0 };
        if n > (r.data.len() - r.pos) as u64 {
            return short_err(r, n);
        }
        cls.equations = Some(r.bytes(n as usize)?);
    } else {
        let mut m = "неизвестная секция 0x".to_string();
        push_hex_padded(&mut m, id as u64, 2);
        return r.err(m);
    }
    Ok(())
}

/// Reads an image (`.cls`) from its bytes; `path` is kept as its source.
#[verifier::spinoff_prover]
pub fn parse(data: &[u8], path: &str) -> (res: Result<Class>)
    ensures
        match class_of(data@, path@) {
            Some(c) => res matches Ok(k) && k@ == c,
            None => res is Err,
        },
        res matches Err(e) ==> e.path@ == path@,
        data@.len() < 16 || data@[0] != 0x53 || data@[1] != 0x42 ==> (res matches Err(e) && e.offset
            == 0 && e.message@ == "не файл имиджа: нет сигнатуры SB"@),
{
    let mut r = Reader::new(data, path);
    if data.len() < 16 || data[0] != 0x53 || data[1] != 0x42 {
        return r.err("не файл имиджа: нет сигнатуры SB".to_string());
    }
    r.pos = 2;
    let version = r.u32()?;
    let body_end = r.u32()?;
    let _index_size = r.u32()?;
    let name = r.string()?;
    let mut cls = Class::new(name, version);
    let mut source = String::new();
    source.append(path);
    cls.source = source;
    let index_at: u64 = body_end as u64 + 6;
    let ghost target = class_of(data@, path@);
    loop
        invariant_except_break
            r.data@ == data@,
            r.spec_path() == path@,
            r.pos <= data@.len(),
            target == class_of(data@, path@),
            index_at == u32_at(data@, 6) + 6,
            target == sections_from(data@, r.pos as int, index_at as int, cls@),
            data@.len() >= 16 && data@[0] == 0x53 && data@[1] == 0x42,
        ensures
            target == Some(cls@),
        decreases data@.len() - r.pos,
    {
        if r.pos as u64 >= index_at {
            break;
        }
        let ghost pos = r.pos as int;
        let id = r.u16()?;
        if id == END {
            break;
        }
        proof {
            lemma_section_bounds(data@, pos + 2, id, index_at as int, cls@);
        }
        read_section(&mut r, id, index_at, &mut cls)?;
    }
    Ok(cls)
}

/// The version written: below 3.002 it becomes 3.003 (children get double
/// coordinates).
pub open spec fn written_version(v: u32) -> u32 {
    if v >= 0x3002 { v } else { 0x3003 }
}

pub open spec fn var_bytes(v: VariableView) -> Seq<u8> {
    string_bytes(v.name) + string_bytes(v.description) + string_bytes(v.default) + string_bytes(
        v.var_type,
    ) + le32_bytes(v.flags)
}

pub open spec fn vars_bytes(vs: Seq<VariableView>) -> Seq<u8>
    decreases vs.len(),
{
    if vs.len() == 0 {
        Seq::empty()
    } else {
        vars_bytes(vs.drop_last()) + var_bytes(vs.last())
    }
}

pub open spec fn child_bytes(c: ChildView) -> Seq<u8> {
    string_bytes(c.class_name) + le16_bytes(c.handle) + string_bytes(c.name) + le64_bytes(c.x)
        + le64_bytes(c.y) + seq![c.flags]
}

pub open spec fn children_bytes(cs: Seq<ChildView>) -> Seq<u8>
    decreases cs.len(),
{
    if cs.len() == 0 {
        Seq::empty()
    } else {
        children_bytes(cs.drop_last()) + child_bytes(cs.last())
    }
}

pub open spec fn pairs_bytes(ps: Seq<(Seq<char>, Seq<char>)>) -> Seq<u8>
    decreases ps.len(),
{
    if ps.len() == 0 {
        Seq::empty()
    } else {
        pairs_bytes(ps.drop_last()) + string_bytes(ps.last().0) + string_bytes(ps.last().1)
    }
}

pub open spec fn link_bytes(l: LinkView) -> Seq<u8> {
    le16_bytes(l.source) + le16_bytes(l.target) + le16_bytes(l.handle) + le32_bytes(l.flags)
        + le16_bytes((l.vars.len() % 65536) as u16) + le16_bytes(0) + pairs_bytes(l.vars)
}

pub open spec fn links_bytes(ls: Seq<LinkView>) -> Seq<u8>
    decreases ls.len(),
{
    if ls.len() == 0 {
        Seq::empty()
    } else {
        links_bytes(ls.drop_last()) + link_bytes(ls.last())
    }
}

/// A block of the picture kinds: size (counting itself), then the bytes.
pub open spec fn blob_body(b: Seq<u8>) -> Seq<u8> {
    le32_bytes((((b.len() % 0x1_0000_0000) + 4) % 0x1_0000_0000) as u32) + b
}

/// A section to write: id, whether the index lists it, its body.
pub struct Piece {
    pub id: u16,
    pub indexed: bool,
    pub body: Seq<u8>,
}

pub open spec fn opt_piece(o: Option<Seq<u8>>, id: u16, indexed: bool) -> Seq<Piece> {
    match o {
        Some(b) => seq![Piece { id, indexed, body: b }],
        None => Seq::empty(),
    }
}

pub open spec fn piece_flags(c: ClassView) -> Seq<Piece> {
    opt_piece(match c.flags {
            Some(f) => Some(le32_bytes(f)),
            None => None,
        }, FLAGS, false)
}

pub open spec fn piece_description(c: ClassView) -> Seq<Piece> {
    opt_piece(if c.description.len() > 0 {
            Some(string_bytes(c.description))
        } else {
            None
        }, DESCRIPTION, false)
}

pub open spec fn piece_vars(c: ClassView) -> Seq<Piece> {
    opt_piece(if c.vars.len() > 0 {
            Some(le16_bytes((c.vars.len() % 65536) as u16) + vars_bytes(c.vars))
        } else {
            None
        }, VARS, false)
}

pub open spec fn piece_text(c: ClassView) -> Seq<Piece> {
    opt_piece(if c.text.len() > 0 {
            Some(string_bytes(c.text))
        } else {
            None
        }, TEXT, true)
}

pub open spec fn piece_children(c: ClassView) -> Seq<Piece> {
    opt_piece(if c.children.len() > 0 {
            Some(le16_bytes((c.children.len() % 65536) as u16) + children_bytes(c.children))
        } else {
            None
        }, CHILDREN, false)
}

pub open spec fn piece_links(c: ClassView) -> Seq<Piece> {
    opt_piece(if c.links.len() > 0 {
            Some(le16_bytes((c.links.len() % 65536) as u16) + links_bytes(c.links))
        } else {
            None
        }, LINKS, false)
}

pub open spec fn piece_icon(c: ClassView) -> Seq<Piece> {
    opt_piece(match c.icon {
            Some(b) => Some(blob_body(b)),
            None => None,
        }, ICON, true)
}

pub open spec fn piece_image(c: ClassView) -> Seq<Piece> {
    opt_piece(match c.image {
            Some(b) => Some(blob_body(b)),
            None => None,
        }, IMAGE, true)
}

pub open spec fn piece_scheme(c: ClassView) -> Seq<Piece> {
    opt_piece(match c.scheme {
            Some(b) => Some(blob_body(b)),
            None => None,
        }, SCHEME, true)
}

pub open spec fn piece_icon_file(c: ClassView) -> Seq<Piece> {
    opt_piece(match c.icon_file {
            Some(f) => Some(string_bytes(f)),
            None => None,
        }, ICON_FILE, false)
}

pub open spec fn piece_icon_index(c: ClassView) -> Seq<Piece> {
    opt_piece(match c.icon_index {
            Some(i) => Some(le16_bytes(i)),
            None => None,
        }, ICON_INDEX, false)
}

pub open spec fn piece_equations(c: ClassView) -> Seq<Piece> {
    opt_piece(c.equations, EQUATIONS, false)
}

pub open spec fn piece_timestamp(c: ClassView) -> Seq<Piece> {
    opt_piece(match c.timestamp {
            Some(t) => Some(le32_bytes(t)),
            None => None,
        }, TIMESTAMP, false)
}

/// The sections of a class in the order `write` writes them.
#[verifier::opaque]
pub open spec fn pieces(c: ClassView) -> Seq<Piece> {
    piece_flags(c) + piece_description(c) + piece_vars(c) + piece_text(c) + piece_children(c)
        + piece_links(c) + piece_icon(c) + piece_image(c) + piece_scheme(c) + piece_icon_file(c)
        + piece_icon_index(c) + piece_equations(c) + piece_timestamp(c)
}

pub proof fn lemma_pieces_len(c: ClassView)
    ensures
        pieces(c).len() <= 13,
{
    reveal(pieces);
}

/// Writing one section after `st` (the file so far and the index so far):
/// its id and body, and an index entry (offset of the id from byte 6) when
/// it is listed.
pub open spec fn emit(st: (Seq<u8>, Seq<(u16, u32)>), p: Piece) -> (Seq<u8>, Seq<(u16, u32)>) {
    (
        st.0 + le16_bytes(p.id) + p.body,
        if p.indexed {
            st.1.push((p.id, ((st.0.len() - 6) % 0x1_0000_0000) as u32))
        } else {
            st.1
        },
    )
}

/// Writing the sections one after another.
pub open spec fn emit_all(st: (Seq<u8>, Seq<(u16, u32)>), ps: Seq<Piece>) -> (Seq<u8>, Seq<(u16, u32)>)
    decreases ps.len(),
{
    if ps.len() == 0 {
        st
    } else {
        emit(emit_all(st, ps.drop_last()), ps.last())
    }
}

pub open spec fn index_bytes(idx: Seq<(u16, u32)>) -> Seq<u8>
    decreases idx.len(),
{
    if idx.len() == 0 {
        Seq::empty()
    } else {
        index_bytes(idx.drop_last()) + le32_bytes(idx.last().1) + le16_bytes(idx.last().0)
    }
}

/// The end marker, left out after equations that no time stamp follows.
pub open spec fn end_marker(c: ClassView) -> Seq<u8> {
    if c.equations is None || c.timestamp is Some {
        le16_bytes(END)
    } else {
        Seq::empty()
    }
}

/// The start of the file before its sections: signature, version, room
/// for the two sizes, name.
pub open spec fn class_head(c: ClassView) -> Seq<u8> {
    seq![0x53u8, 0x42] + le32_bytes(written_version(c.version)) + le32_bytes(0) + le32_bytes(0)
        + string_bytes(c.name)
}

/// The `.cls` file that `write` makes of a class: head, sections, end
/// marker, with the end of the body and the size of the index filled in,
/// then the index.
pub open spec fn class_bytes(c: ClassView) -> Seq<u8> {
    finished(class_body(c), emit_all((class_head(c), Seq::empty()), pieces(c)).1)
}

/// Head, sections and end marker, before the sizes are filled in.
pub open spec fn class_body(c: ClassView) -> Seq<u8> {
    emit_all((class_head(c), Seq::empty()), pieces(c)).0 + end_marker(c)
}

/// The body `g` with the end of the body and the size of the index filled
/// in, then the index.
pub open spec fn finished(g: Seq<u8>, idx: Seq<(u16, u32)>) -> Seq<u8> {
    let body_end = ((g.len() - 6) % 0x1_0000_0000) as u32;
    let index_size = ((idx.len() * 6) % 0x1_0000_0000) as u32;
    g.subrange(0, 6) + le32_bytes(body_end) + le32_bytes(index_size) + g.subrange(14, g.len() as int)
        + index_bytes(idx)
}

pub proof fn lemma_emit_all_concat(st: (Seq<u8>, Seq<(u16, u32)>), a: Seq<Piece>, b: Seq<Piece>)
    ensures
        emit_all(st, a + b) == emit_all(emit_all(st, a), b),
    decreases b.len(),
{
    if b.len() == 0 {
        assert(a + b =~= a);
    } else {
        lemma_emit_all_concat(st, a, b.drop_last());
        assert((a + b).drop_last() =~= a + b.drop_last());
        assert((a + b).last() == b.last());
    }
}

/// Each section adds at most one index entry.
pub proof fn lemma_emit_all_index_len(st: (Seq<u8>, Seq<(u16, u32)>), ps: Seq<Piece>)
    ensures
        emit_all(st, ps).1.len() <= st.1.len() + ps.len(),
    decreases ps.len(),
{
    if ps.len() > 0 {
        lemma_emit_all_index_len(st, ps.drop_last());
    }
}

/// Writing one optional section.
pub proof fn lemma_emit_opt(st: (Seq<u8>, Seq<(u16, u32)>), done: Seq<Piece>, o: Option<Seq<u8>>, id: u16, indexed: bool)
    ensures
        emit_all(st, done + opt_piece(o, id, indexed)) == match o {
            Some(b) => emit(emit_all(st, done), Piece { id, indexed, body: b }),
            None => emit_all(st, done),
        },
{
    lemma_emit_all_concat(st, done, opt_piece(o, id, indexed));
    match o {
        Some(b) => {
            let one = seq![Piece { id, indexed, body: b }];
            assert(one.drop_last() =~= Seq::<Piece>::empty());
            assert(one.last() == Piece { id, indexed, body: b });
            assert(emit_all(emit_all(st, done), Seq::<Piece>::empty()) == emit_all(st, done));
            assert(emit_all(emit_all(st, done), one) == emit(emit_all(st, done), one.last()));
        },
        None => {
            assert(opt_piece(o, id, indexed) =~= Seq::<Piece>::empty());
        },
    }
}

fn begin(w: &mut Writer, index: &mut Vec<(u16, u32)>, id: u16, indexed: bool)
    requires
        old(w).data@.len() >= 6,
    ensures
        (final(w).data@, final(index)@) == emit((old(w).data@, old(index)@), Piece { id, indexed, body: Seq::empty() }),
{
    if indexed {
        let off = ((w.pos() - INDEX_BASE) as u64 % 0x1_0000_0000) as u32;
        index.push((id, off));
    }
    w.u16(id);
    assert(w.data@ =~= old(w).data@ + le16_bytes(id) + Seq::<u8>::empty());
}

/// Writing the body of a section right after its id gives the section.
proof fn lemma_body(st: (Seq<u8>, Seq<(u16, u32)>), id: u16, indexed: bool, body: Seq<u8>)
    ensures
        emit(st, Piece { id, indexed, body }) == (
            emit(st, Piece { id, indexed, body: Seq::empty() }).0 + body,
            emit(st, Piece { id, indexed, body: Seq::empty() }).1,
        ),
{
    assert(st.0 + le16_bytes(id) + body =~= st.0 + le16_bytes(id) + Seq::<u8>::empty() + body);
}

fn write_vars(w: &mut Writer, vars: &Vec<Variable>)
    ensures
        final(w).data@ == old(w).data@ + vars_bytes(vars_view(vars@)),
{
    let ghost start = w.data@;
    let mut i: usize = 0;
    while i < vars.len()
        invariant
            i <= vars@.len(),
            w.data@ == start + vars_bytes(vars_view(vars@).take(i as int)),
        decreases vars.len() - i,
    {
        let v = &vars[i];
        w.string(v.name.as_str());
        w.string(v.description.as_str());
        w.string(v.default.as_str());
        w.string(v.var_type.as_str());
        w.u32(v.flags);
        proof {
            let vv = vars_view(vars@);
            assert(vv.take(i + 1).drop_last() =~= vv.take(i as int));
            assert(vv.take(i + 1).last() == vv[i as int]);
            assert(w.data@ =~= start + vars_bytes(vv.take(i as int)) + var_bytes(vv[i as int]));
        }
        i = i + 1;
    }
    assert(vars_view(vars@).take(vars.len() as int) =~= vars_view(vars@));
}

fn write_children(w: &mut Writer, children: &Vec<Child>)
    ensures
        final(w).data@ == old(w).data@ + children_bytes(children_view(children@)),
{
    let ghost start = w.data@;
    let mut i: usize = 0;
    while i < children.len()
        invariant
            i <= children@.len(),
            w.data@ == start + children_bytes(children_view(children@).take(i as int)),
        decreases children.len() - i,
    {
        let c = &children[i];
        w.string(c.class_name.as_str());
        w.u16(c.handle);
        w.string(c.name.as_str());
        w.u64(c.x);
        w.u64(c.y);
        w.u8(c.flags);
        proof {
            let cv = children_view(children@);
            assert(cv.take(i + 1).drop_last() =~= cv.take(i as int));
            assert(cv.take(i + 1).last() == cv[i as int]);
            assert(w.data@ =~= start + children_bytes(cv.take(i as int)) + child_bytes(cv[i as int]));
        }
        i = i + 1;
    }
    assert(children_view(children@).take(children.len() as int) =~= children_view(children@));
}

fn write_pairs(w: &mut Writer, vars: &Vec<(String, String)>)
    ensures
        final(w).data@ == old(w).data@ + pairs_bytes(pairs_view(vars@)),
{
    let ghost start = w.data@;
    let mut i: usize = 0;
    while i < vars.len()
        invariant
            i <= vars@.len(),
            w.data@ == start + pairs_bytes(pairs_view(vars@).take(i as int)),
        decreases vars.len() - i,
    {
        w.string(vars[i].0.as_str());
        w.string(vars[i].1.as_str());
        proof {
            let pv = pairs_view(vars@);
            assert(pv.take(i + 1).drop_last() =~= pv.take(i as int));
            assert(pv.take(i + 1).last() == pv[i as int]);
            assert(w.data@ =~= start + pairs_bytes(pv.take(i as int)) + string_bytes(pv[i as int].0)
                + string_bytes(pv[i as int].1));
        }
        i = i + 1;
    }
    assert(pairs_view(vars@).take(vars.len() as int) =~= pairs_view(vars@));
}

fn write_links(w: &mut Writer, links: &Vec<Link>)
    ensures
        final(w).data@ == old(w).data@ + links_bytes(links_view(links@)),
{
    let ghost start = w.data@;
    let mut i: usize = 0;
    while i < links.len()
        invariant
            i <= links@.len(),
            w.data@ == start + links_bytes(links_view(links@).take(i as int)),
        decreases links.len() - i,
    {
        let l = &links[i];
        let ghost before = w.data@;
        w.u16(l.source);
        w.u16(l.target);
        w.u16(l.handle);
        w.u32(l.flags);
        w.u16((l.vars.len() % 65536) as u16);
        w.u16(0);
        write_pairs(w, &l.vars);
        proof {
            let lv = links_view(links@);
            assert(lv.take(i + 1).drop_last() =~= lv.take(i as int));
            assert(lv.take(i + 1).last() == lv[i as int]);
            assert(w.data@ =~= before + link_bytes(lv[i as int]));
        }
        i = i + 1;
    }
    assert(links_view(links@).take(links.len() as int) =~= links_view(links@));
}

fn write_blob(w: &mut Writer, body: &Vec<u8>)
    requires
        (body@.len() % 0x1_0000_0000) + 4 <= u32::MAX,
    ensures
        final(w).data@ == old(w).data@ + blob_body(body@),
{
    let n = ((body.len() as u64) % 0x1_0000_0000) as u32;
    w.u32(n + 4);
    w.bytes(body.as_slice());
    assert(w.data@ =~= old(w).data@ + blob_body(body@));
}

pub proof fn lemma_index_bytes_push(idx: Seq<(u16, u32)>, e: (u16, u32))
    ensures
        index_bytes(idx.push(e)) == index_bytes(idx) + le32_bytes(e.1) + le16_bytes(e.0),
{
    assert(idx.push(e).drop_last() =~= idx);
}

/// The picture blocks whose length field the writer can fill in: their
/// length (modulo 2³², as the writer takes it) plus four fits a `u32`.
pub open spec fn blobs_fit(c: ClassView) -> bool {
    &&& (c.icon matches Some(b) ==> (b.len() % 0x1_0000_0000) + 4 <= u32::MAX)
    &&& (c.image matches Some(b) ==> (b.len() % 0x1_0000_0000) + 4 <= u32::MAX)
    &&& (c.scheme matches Some(b) ==> (b.len() % 0x1_0000_0000) + 4 <= u32::MAX)
}

fn section_flags(w: &mut Writer, index: &mut Vec<(u16, u32)>, cls: &Class)
    requires
        old(w).data@.len() >= 6,
        blobs_fit(cls@),
    ensures
        (final(w).data@, final(index)@) == emit_all((old(w).data@, old(index)@), piece_flags(cls@)),
        final(w).data@.len() >= old(w).data@.len(),
{
    let ghost st = (w.data@, index@);
    assert(st.1 == index@);
    if let Some(flags) = cls.flags {
        begin(w, index, FLAGS, false);
        w.u32(flags);
        proof {
            lemma_body(st, FLAGS, false, le32_bytes(flags));
            assert(emit_all(st, piece_flags(cls@)) == emit(emit_all(st, Seq::<Piece>::empty()), Piece { id: FLAGS, indexed: false, body: le32_bytes(flags) })) by {
                lemma_emit_opt(st, Seq::empty(), Some(le32_bytes(flags)), FLAGS, false);
                assert(Seq::<Piece>::empty() + piece_flags(cls@) =~= piece_flags(cls@));
            }
        }
    } else {
        assert(piece_flags(cls@) =~= Seq::<Piece>::empty());
    }
}

fn section_description(w: &mut Writer, index: &mut Vec<(u16, u32)>, cls: &Class)
    requires
        old(w).data@.len() >= 6,
        blobs_fit(cls@),
    ensures
        (final(w).data@, final(index)@) == emit_all((old(w).data@, old(index)@), piece_description(cls@)),
        final(w).data@.len() >= old(w).data@.len(),
{
    let ghost st = (w.data@, index@);
    assert(st.1 == index@);
    if !cls.description.as_str().is_empty() {
        begin(w, index, DESCRIPTION, false);
        w.string(cls.description.as_str());
        proof {
            lemma_body(st, DESCRIPTION, false, string_bytes(cls@.description));
            assert(emit_all(st, piece_description(cls@)) == emit(emit_all(st, Seq::<Piece>::empty()), Piece { id: DESCRIPTION, indexed: false, body: string_bytes(cls@.description) })) by {
                lemma_emit_opt(st, Seq::empty(), Some(string_bytes(cls@.description)), DESCRIPTION, false);
                assert(Seq::<Piece>::empty() + piece_description(cls@) =~= piece_description(cls@));
            }
        }
    } else {
        assert(piece_description(cls@) =~= Seq::<Piece>::empty());
    }
}

fn section_vars(w: &mut Writer, index: &mut Vec<(u16, u32)>, cls: &Class)
    requires
        old(w).data@.len() >= 6,
        blobs_fit(cls@),
    ensures
        (final(w).data@, final(index)@) == emit_all((old(w).data@, old(index)@), piece_vars(cls@)),
        final(w).data@.len() >= old(w).data@.len(),
{
    let ghost st = (w.data@, index@);
    assert(st.1 == index@);
    if cls.vars.len() > 0 {
        begin(w, index, VARS, false);
        w.u16((cls.vars.len() % 65536) as u16);
        write_vars(w, &cls.vars);
        proof {
            lemma_body(st, VARS, false, le16_bytes((cls@.vars.len() % 65536) as u16) + vars_bytes(cls@.vars));
            assert(emit_all(st, piece_vars(cls@)) == emit(emit_all(st, Seq::<Piece>::empty()), Piece { id: VARS, indexed: false, body: le16_bytes((cls@.vars.len() % 65536) as u16) + vars_bytes(cls@.vars) })) by {
                lemma_emit_opt(st, Seq::empty(), Some(le16_bytes((cls@.vars.len() % 65536) as u16) + vars_bytes(cls@.vars)), VARS, false);
                assert(Seq::<Piece>::empty() + piece_vars(cls@) =~= piece_vars(cls@));
            }
        }
    } else {
        assert(piece_vars(cls@) =~= Seq::<Piece>::empty());
    }
}

fn section_text(w: &mut Writer, index: &mut Vec<(u16, u32)>, cls: &Class)
    requires
        old(w).data@.len() >= 6,
        blobs_fit(cls@),
    ensures
        (final(w).data@, final(index)@) == emit_all((old(w).data@, old(index)@), piece_text(cls@)),
        final(w).data@.len() >= old(w).data@.len(),
{
    let ghost st = (w.data@, index@);
    assert(st.1 == index@);
    if !cls.text.as_str().is_empty() {
        begin(w, index, TEXT, true);
        w.string(cls.text.as_str());
        proof {
            lemma_body(st, TEXT, true, string_bytes(cls@.text));
            assert(emit_all(st, piece_text(cls@)) == emit(emit_all(st, Seq::<Piece>::empty()), Piece { id: TEXT, indexed: true, body: string_bytes(cls@.text) })) by {
                lemma_emit_opt(st, Seq::empty(), Some(string_bytes(cls@.text)), TEXT, true);
                assert(Seq::<Piece>::empty() + piece_text(cls@) =~= piece_text(cls@));
            }
        }
    } else {
        assert(piece_text(cls@) =~= Seq::<Piece>::empty());
    }
}

fn section_children(w: &mut Writer, index: &mut Vec<(u16, u32)>, cls: &Class)
    requires
        old(w).data@.len() >= 6,
        blobs_fit(cls@),
    ensures
        (final(w).data@, final(index)@) == emit_all((old(w).data@, old(index)@), piece_children(cls@)),
        final(w).data@.len() >= old(w).data@.len(),
{
    let ghost st = (w.data@, index@);
    assert(st.1 == index@);
    if cls.children.len() > 0 {
        begin(w, index, CHILDREN, false);
        w.u16((cls.children.len() % 65536) as u16);
        write_children(w, &cls.children);
        proof {
            lemma_body(st, CHILDREN, false, le16_bytes((cls@.children.len() % 65536) as u16) + children_bytes(cls@.children));
            assert(emit_all(st, piece_children(cls@)) == emit(emit_all(st, Seq::<Piece>::empty()), Piece { id: CHILDREN, indexed: false, body: le16_bytes((cls@.children.len() % 65536) as u16) + children_bytes(cls@.children) })) by {
                lemma_emit_opt(st, Seq::empty(), Some(le16_bytes((cls@.children.len() % 65536) as u16) + children_bytes(cls@.children)), CHILDREN, false);
                assert(Seq::<Piece>::empty() + piece_children(cls@) =~= piece_children(cls@));
            }
        }
    } else {
        assert(piece_children(cls@) =~= Seq::<Piece>::empty());
    }
}

fn section_links(w: &mut Writer, index: &mut Vec<(u16, u32)>, cls: &Class)
    requires
        old(w).data@.len() >= 6,
        blobs_fit(cls@),
    ensures
        (final(w).data@, final(index)@) == emit_all((old(w).data@, old(index)@), piece_links(cls@)),
        final(w).data@.len() >= old(w).data@.len(),
{
    let ghost st = (w.data@, index@);
    assert(st.1 == index@);
    if cls.links.len() > 0 {
        begin(w, index, LINKS, false);
        w.u16((cls.links.len() % 65536) as u16);
        write_links(w, &cls.links);
        proof {
            lemma_body(st, LINKS, false, le16_bytes((cls@.links.len() % 65536) as u16) + links_bytes(cls@.links));
            assert(emit_all(st, piece_links(cls@)) == emit(emit_all(st, Seq::<Piece>::empty()), Piece { id: LINKS, indexed: false, body: le16_bytes((cls@.links.len() % 65536) as u16) + links_bytes(cls@.links) })) by {
                lemma_emit_opt(st, Seq::empty(), Some(le16_bytes((cls@.links.len() % 65536) as u16) + links_bytes(cls@.links)), LINKS, false);
                assert(Seq::<Piece>::empty() + piece_links(cls@) =~= piece_links(cls@));
            }
        }
    } else {
        assert(piece_links(cls@) =~= Seq::<Piece>::empty());
    }
}

fn section_icon(w: &mut Writer, index: &mut Vec<(u16, u32)>, cls: &Class)
    requires
        old(w).data@.len() >= 6,
        blobs_fit(cls@),
    ensures
        (final(w).data@, final(index)@) == emit_all((old(w).data@, old(index)@), piece_icon(cls@)),
        final(w).data@.len() >= old(w).data@.len(),
{
    let ghost st = (w.data@, index@);
    assert(st.1 == index@);
    if let Some(body) = &cls.icon {
        begin(w, index, ICON, true);
        write_blob(w, body);
        proof {
            lemma_body(st, ICON, true, blob_body(body@));
            assert(emit_all(st, piece_icon(cls@)) == emit(emit_all(st, Seq::<Piece>::empty()), Piece { id: ICON, indexed: true, body: blob_body(body@) })) by {
                lemma_emit_opt(st, Seq::empty(), Some(blob_body(body@)), ICON, true);
                assert(Seq::<Piece>::empty() + piece_icon(cls@) =~= piece_icon(cls@));
            }
        }
    } else {
        assert(piece_icon(cls@) =~= Seq::<Piece>::empty());
    }
}

fn section_image(w: &mut Writer, index: &mut Vec<(u16, u32)>, cls: &Class)
    requires
        old(w).data@.len() >= 6,
        blobs_fit(cls@),
    ensures
        (final(w).data@, final(index)@) == emit_all((old(w).data@, old(index)@), piece_image(cls@)),
        final(w).data@.len() >= old(w).data@.len(),
{
    let ghost st = (w.data@, index@);
    assert(st.1 == index@);
    if let Some(body) = &cls.image {
        begin(w, index, IMAGE, true);
        write_blob(w, body);
        proof {
            lemma_body(st, IMAGE, true, blob_body(body@));
            assert(emit_all(st, piece_image(cls@)) == emit(emit_all(st, Seq::<Piece>::empty()), Piece { id: IMAGE, indexed: true, body: blob_body(body@) })) by {
                lemma_emit_opt(st, Seq::empty(), Some(blob_body(body@)), IMAGE, true);
                assert(Seq::<Piece>::empty() + piece_image(cls@) =~= piece_image(cls@));
            }
        }
    } else {
        assert(piece_image(cls@) =~= Seq::<Piece>::empty());
    }
}

fn section_scheme(w: &mut Writer, index: &mut Vec<(u16, u32)>, cls: &Class)
    requires
        old(w).data@.len() >= 6,
        blobs_fit(cls@),
    ensures
        (final(w).data@, final(index)@) == emit_all((old(w).data@, old(index)@), piece_scheme(cls@)),
        final(w).data@.len() >= old(w).data@.len(),
{
    let ghost st = (w.data@, index@);
    assert(st.1 == index@);
    if let Some(body) = &cls.scheme {
        begin(w, index, SCHEME, true);
        write_blob(w, body);
        proof {
            lemma_body(st, SCHEME, true, blob_body(body@));
            assert(emit_all(st, piece_scheme(cls@)) == emit(emit_all(st, Seq::<Piece>::empty()), Piece { id: SCHEME, indexed: true, body: blob_body(body@) })) by {
                lemma_emit_opt(st, Seq::empty(), Some(blob_body(body@)), SCHEME, true);
                assert(Seq::<Piece>::empty() + piece_scheme(cls@) =~= piece_scheme(cls@));
            }
        }
    } else {
        assert(piece_scheme(cls@) =~= Seq::<Piece>::empty());
    }
}

fn section_icon_file(w: &mut Writer, index: &mut Vec<(u16, u32)>, cls: &Class)
    requires
        old(w).data@.len() >= 6,
        blobs_fit(cls@),
    ensures
        (final(w).data@, final(index)@) == emit_all((old(w).data@, old(index)@), piece_icon_file(cls@)),
        final(w).data@.len() >= old(w).data@.len(),
{
    let ghost st = (w.data@, index@);
    assert(st.1 == index@);
    if let Some(file) = &cls.icon_file {
        begin(w, index, ICON_FILE, false);
        w.string(file.as_str());
        proof {
            lemma_body(st, ICON_FILE, false, string_bytes(file@));
            assert(emit_all(st, piece_icon_file(cls@)) == emit(emit_all(st, Seq::<Piece>::empty()), Piece { id: ICON_FILE, indexed: false, body: string_bytes(file@) })) by {
                lemma_emit_opt(st, Seq::empty(), Some(string_bytes(file@)), ICON_FILE, false);
                assert(Seq::<Piece>::empty() + piece_icon_file(cls@) =~= piece_icon_file(cls@));
            }
        }
    } else {
        assert(piece_icon_file(cls@) =~= Seq::<Piece>::empty());
    }
}

fn section_icon_index(w: &mut Writer, index: &mut Vec<(u16, u32)>, cls: &Class)
    requires
        old(w).data@.len() >= 6,
        blobs_fit(cls@),
    ensures
        (final(w).data@, final(index)@) == emit_all((old(w).data@, old(index)@), piece_icon_index(cls@)),
        final(w).data@.len() >= old(w).data@.len(),
{
    let ghost st = (w.data@, index@);
    assert(st.1 == index@);
    if let Some(i) = cls.icon_index {
        begin(w, index, ICON_INDEX, false);
        w.u16(i);
        proof {
            lemma_body(st, ICON_INDEX, false, le16_bytes(i));
            assert(emit_all(st, piece_icon_index(cls@)) == emit(emit_all(st, Seq::<Piece>::empty()), Piece { id: ICON_INDEX, indexed: false, body: le16_bytes(i) })) by {
                lemma_emit_opt(st, Seq::empty(), Some(le16_bytes(i)), ICON_INDEX, false);
                assert(Seq::<Piece>::empty() + piece_icon_index(cls@) =~= piece_icon_index(cls@));
            }
        }
    } else {
        assert(piece_icon_index(cls@) =~= Seq::<Piece>::empty());
    }
}

fn section_equations(w: &mut Writer, index: &mut Vec<(u16, u32)>, cls: &Class)
    requires
        old(w).data@.len() >= 6,
        blobs_fit(cls@),
    ensures
        (final(w).data@, final(index)@) == emit_all((old(w).data@, old(index)@), piece_equations(cls@)),
        final(w).data@.len() >= old(w).data@.len(),
{
    let ghost st = (w.data@, index@);
    assert(st.1 == index@);
    if let Some(eq) = &cls.equations {
        begin(w, index, EQUATIONS, false);
        w.bytes(eq.as_slice());
        proof {
            lemma_body(st, EQUATIONS, false, eq@);
            assert(emit_all(st, piece_equations(cls@)) == emit(emit_all(st, Seq::<Piece>::empty()), Piece { id: EQUATIONS, indexed: false, body: eq@ })) by {
                lemma_emit_opt(st, Seq::empty(), Some(eq@), EQUATIONS, false);
                assert(Seq::<Piece>::empty() + piece_equations(cls@) =~= piece_equations(cls@));
            }
        }
    } else {
        assert(piece_equations(cls@) =~= Seq::<Piece>::empty());
    }
}

fn section_timestamp(w: &mut Writer, index: &mut Vec<(u16, u32)>, cls: &Class)
    requires
        old(w).data@.len() >= 6,
        blobs_fit(cls@),
    ensures
        (final(w).data@, final(index)@) == emit_all((old(w).data@, old(index)@), piece_timestamp(cls@)),
        final(w).data@.len() >= old(w).data@.len(),
{
    let ghost st = (w.data@, index@);
    assert(st.1 == index@);
    if let Some(t) = cls.timestamp {
        begin(w, index, TIMESTAMP, false);
        w.u32(t);
        proof {
            lemma_body(st, TIMESTAMP, false, le32_bytes(t));
            assert(emit_all(st, piece_timestamp(cls@)) == emit(emit_all(st, Seq::<Piece>::empty()), Piece { id: TIMESTAMP, indexed: false, body: le32_bytes(t) })) by {
                lemma_emit_opt(st, Seq::empty(), Some(le32_bytes(t)), TIMESTAMP, false);
                assert(Seq::<Piece>::empty() + piece_timestamp(cls@) =~= piece_timestamp(cls@));
            }
        }
    } else {
        assert(piece_timestamp(cls@) =~= Seq::<Piece>::empty());
    }
}

#[verifier::spinoff_prover]
#[verifier::rlimit(60)]
fn write_sections(w: &mut Writer, index: &mut Vec<(u16, u32)>, cls: &Class)
    requires
        old(w).data@.len() >= 6,
        blobs_fit(cls@),
    ensures
        (final(w).data@, final(index)@) == emit_all((old(w).data@, old(index)@), pieces(cls@)),
        final(w).data@.len() >= old(w).data@.len(),
{
    let ghost c = cls@;
    let ghost st0 = (w.data@, index@);
    let ghost mut done: Seq<Piece> = Seq::empty();
    assert(emit_all(st0, done) == (w.data@, index@));
    section_flags(w, index, cls);
    proof {
        lemma_emit_all_concat(st0, done, piece_flags(c));
        done = done + piece_flags(c);
    }
    section_description(w, index, cls);
    proof {
        lemma_emit_all_concat(st0, done, piece_description(c));
        done = done + piece_description(c);
    }
    section_vars(w, index, cls);
    proof {
        lemma_emit_all_concat(st0, done, piece_vars(c));
        done = done + piece_vars(c);
    }
    section_text(w, index, cls);
    proof {
        lemma_emit_all_concat(st0, done, piece_text(c));
        done = done + piece_text(c);
    }
    section_children(w, index, cls);
    proof {
        lemma_emit_all_concat(st0, done, piece_children(c));
        done = done + piece_children(c);
    }
    section_links(w, index, cls);
    proof {
        lemma_emit_all_concat(st0, done, piece_links(c));
        done = done + piece_links(c);
    }
    section_icon(w, index, cls);
    proof {
        lemma_emit_all_concat(st0, done, piece_icon(c));
        done = done + piece_icon(c);
    }
    section_image(w, index, cls);
    proof {
        lemma_emit_all_concat(st0, done, piece_image(c));
        done = done + piece_image(c);
    }
    section_scheme(w, index, cls);
    proof {
        lemma_emit_all_concat(st0, done, piece_scheme(c));
        done = done + piece_scheme(c);
    }
    section_icon_file(w, index, cls);
    proof {
        lemma_emit_all_concat(st0, done, piece_icon_file(c));
        done = done + piece_icon_file(c);
    }
    section_icon_index(w, index, cls);
    proof {
        lemma_emit_all_concat(st0, done, piece_icon_index(c));
        done = done + piece_icon_index(c);
    }
    section_equations(w, index, cls);
    proof {
        lemma_emit_all_concat(st0, done, piece_equations(c));
        done = done + piece_equations(c);
    }
    section_timestamp(w, index, cls);
    proof {
        lemma_emit_all_concat(st0, done, piece_timestamp(c));
        done = done + piece_timestamp(c);
    }
    assert(done =~= pieces(c)) by {
        reveal(pieces);
    }
}

fn finish(w: &mut Writer, index: &Vec<(u16, u32)>)
    requires
        old(w).data@.len() >= 14,
        index@.len() <= 13,
    ensures
        final(w).data@ == finished(old(w).data@, index@),
{
    let ghost g = w.data@;
    let body_end = ((w.pos() - INDEX_BASE) as u64 % 0x1_0000_0000) as u32;
    w.patch_u32(6, body_end);
    let index_size = (index.len() * 6) as u32;
    w.patch_u32(10, index_size);
    assert(w.data@ =~= g.subrange(0, 6) + le32_bytes(body_end) + le32_bytes(index_size) + g.subrange(14, g.len() as int));
    let ghost before_index = w.data@;
    let mut i: usize = 0;
    while i < index.len()
        invariant
            i <= index@.len(),
            w.data@ == before_index + index_bytes(index@.take(i as int)),
        decreases index.len() - i,
    {
        let (id, off) = index[i];
        w.u32(off);
        w.u16(id);
        proof {
            lemma_index_bytes_push(index@.take(i as int), index@[i as int]);
            assert(index@.take(i + 1) =~= index@.take(i as int).push(index@[i as int]));
        }
        i = i + 1;
    }
    assert(index@.take(index.len() as int) =~= index@);
}

fn write_head(cls: &Class) -> (w: Writer)
    ensures
        w.data@ == class_head(cls@),
{
    let version = if cls.version >= 0x3002 { cls.version } else { 0x3003 };
    let mut w = Writer::new();
    w.u8(0x53);
    w.u8(0x42);
    w.u32(version);
    w.u32(0);
    w.u32(0);
    w.string(cls.name.as_str());
    assert(w.data@ =~= class_head(cls@));
    w
}

/// Builds a `.cls` file from a class. Versions below 3.002 become 3.003
/// (children get double coordinates). The bytecode is not written:
/// Stratum 2000 compiles the text again when it opens the file.
#[verifier::spinoff_prover]
pub fn write(cls: &Class) -> (out: Vec<u8>)
    requires
        blobs_fit(cls@),
    ensures
        out@ == class_bytes(cls@),
{
    let ghost c = cls@;
    let mut w = write_head(cls);
    let mut index: Vec<(u16, u32)> = Vec::new();
    let ghost st0 = (w.data@, index@);
    write_sections(&mut w, &mut index, cls);
    // the equations are read up to the end of the body and hold their own
    // tail; the end marker is needed only to set off a time stamp
    if cls.equations.is_none() || cls.timestamp.is_some() {
        w.u16(END);
    }
    proof {
        lemma_emit_all_index_len(st0, pieces(c));
        lemma_pieces_len(c);
        assert(w.data@ =~= emit_all(st0, pieces(c)).0 + end_marker(c));
    }
    finish(&mut w, &index);
    w.data
}

} // verus!
