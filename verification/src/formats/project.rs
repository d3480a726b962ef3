//! `project.spj` and `_preload.stt`.
//!
//! A project file starts with `Ih`, a kind byte (`f` or `d`) and a zero, then
//! the name of the root image (kind `f` puts a block of properties and a
//! spare `u16` before it). Blocks follow until a zero byte or the end: `f` —
//! properties, `g` — project variables. A property is `u16` size, type byte,
//! key length byte, the key (ending in zero), and the value up to `size`
//! bytes after the size field; type 0 with four bytes is a number, anything
//! else text ending in zero.

use vstd::prelude::*;
use crate::formats::cp1251;
use crate::formats::state_typed::{images_match, typed_images};
use crate::stdx::{char_debug, debug_of_char, str_debug};
use crate::text::{eq_ignore_ascii_case, str_eq_ignore_ascii_case};
use crate::formats::writer::{
    law_string_round_trip, law_u16_round_trip, law_u32_round_trip, le16_bytes, le32_bytes,
    string_bytes, Writer,
};
use crate::formats::reader::{
    before_nul, short_message, split_nul, string_at, u16_at, u32_at, u32_from, Reader, Result,
};

verus! {

#[derive(Debug, Clone)]
pub enum PropertyValue {
    Int(u32),
    Text(String),
}

#[derive(Debug, Clone)]
pub struct Property {
    pub key: String,
    pub value: PropertyValue,
}

#[derive(Debug, Clone)]
pub struct ProjectVariable {
    pub kind: u16,
    pub flags: u16,
    pub handle: Option<u16>,
    pub name: String,
    pub description: String,
}

#[derive(Debug, Clone)]
pub struct Project {
    pub root: String,
    pub properties: Vec<Property>,
    pub variables: Vec<ProjectVariable>,
}

/// The value of a property, as plain values.
pub enum PropertyValueView {
    Int(u32),
    Text(Seq<char>),
}

pub struct PropertyView {
    pub key: Seq<char>,
    pub value: PropertyValueView,
}

pub struct VariableView {
    pub kind: u16,
    pub flags: u16,
    pub handle: Option<u16>,
    pub name: Seq<char>,
    pub description: Seq<char>,
}

pub struct ProjectView {
    pub root: Seq<char>,
    pub properties: Seq<PropertyView>,
    pub variables: Seq<VariableView>,
}

impl View for PropertyValue {
    type V = PropertyValueView;

    open spec fn view(&self) -> PropertyValueView {
        match self {
            PropertyValue::Int(i) => PropertyValueView::Int(*i),
            PropertyValue::Text(t) => PropertyValueView::Text(t@),
        }
    }
}

impl View for Property {
    type V = PropertyView;

    open spec fn view(&self) -> PropertyView {
        PropertyView { key: self.key@, value: self.value@ }
    }
}

impl View for ProjectVariable {
    type V = VariableView;

    open spec fn view(&self) -> VariableView {
        VariableView {
            kind: self.kind,
            flags: self.flags,
            handle: self.handle,
            name: self.name@,
            description: self.description@,
        }
    }
}

pub open spec fn properties_view(v: Seq<Property>) -> Seq<PropertyView> {
    v.map_values(|p: Property| p@)
}

pub open spec fn variables_view(v: Seq<ProjectVariable>) -> Seq<VariableView> {
    v.map_values(|p: ProjectVariable| p@)
}

impl Project {
    /// The value of the first property whose key is `key`, compared without
    /// regard to ASCII case.
    pub fn property(&self, key: &str) -> (r: Option<&PropertyValue>)
        ensures
            match r {
                Some(v) => exists|i: int|
                    0 <= i < self.properties@.len() && eq_ignore_ascii_case(
                        self.properties@[i].key@,
                        key@,
                    ) && self.properties@[i].value == *v && forall|j: int|
                        0 <= j < i ==> !eq_ignore_ascii_case(#[trigger] self.properties@[j].key@, key@),
                None => forall|j: int|
                    0 <= j < self.properties@.len() ==> !eq_ignore_ascii_case(
                        #[trigger] self.properties@[j].key@,
                        key@,
                    ),
            },
    {
        let mut i: usize = 0;
        while i < self.properties.len()
            invariant
                i <= self.properties@.len(),
                forall|j: int|
                    0 <= j < i ==> !eq_ignore_ascii_case(#[trigger] self.properties@[j].key@, key@),
            decreases self.properties.len() - i,
        {
            if str_eq_ignore_ascii_case(self.properties[i].key.as_str(), key) {
                return Some(&self.properties[i].value);
            }
            i = i + 1;
        }
        None
    }
}

impl View for Project {
    type V = ProjectView;

    open spec fn view(&self) -> ProjectView {
        ProjectView {
            root: self.root@,
            properties: properties_view(self.properties@),
            variables: variables_view(self.variables@),
        }
    }
}

/// The value of a property given the bytes that follow its key.
pub open spec fn property_value(ptype: u8, raw: Seq<u8>) -> PropertyValueView {
    if ptype == 0 && raw.len() >= 4 {
        PropertyValueView::Int(u32_at(raw, 0))
    } else {
        PropertyValueView::Text(cp1251::decoded(before_nul(raw)))
    }
}

/// The property record at `pos` and where the next one starts.
pub open spec fn property_at(d: Seq<u8>, pos: int) -> Option<(PropertyView, int)> {
    if pos < 0 || pos + 4 > d.len() {
        None
    } else {
        let end = pos + 2 + u16_at(d, pos);
        let ptype = d[pos + 2];
        let key_len = d[pos + 3] as int;
        let k = pos + 4;
        if k + key_len > d.len() {
            None
        } else if end < k + key_len || end > d.len() {
            None
        } else {
            let key = cp1251::decoded(before_nul(d.subrange(k, k + key_len)));
            let value = property_value(ptype, d.subrange(k + key_len, end));
            Some((PropertyView { key, value }, end))
        }
    }
}

/// `n` property records from `pos`, appended to `acc`.
pub open spec fn properties_from(d: Seq<u8>, pos: int, n: nat, acc: Seq<PropertyView>) -> Option<
    (Seq<PropertyView>, int),
>
    decreases n,
{
    if n == 0 {
        Some((acc, pos))
    } else {
        match property_at(d, pos) {
            None => None,
            Some((p, next)) => properties_from(d, next, (n - 1) as nat, acc.push(p)),
        }
    }
}

/// The project variable at `pos` and where the next one starts.
pub open spec fn variable_at(d: Seq<u8>, pos: int) -> Option<(VariableView, int)> {
    if pos < 0 || pos + 4 > d.len() {
        None
    } else {
        let kind = u16_at(d, pos);
        let flags = u16_at(d, pos + 2);
        let (handle, at) = if kind == 2 {
            (Some(u16_at(d, pos + 4)), pos + 6)
        } else {
            (None, pos + 4)
        };
        if at > d.len() {
            None
        } else {
            match string_at(d, at) {
                None => None,
                Some((name, at2)) => match string_at(d, at2) {
                    None => None,
                    Some((description, at3)) => Some(
                        (VariableView { kind, flags, handle, name, description }, at3),
                    ),
                },
            }
        }
    }
}

/// `n` project variables from `pos`, appended to `acc`.
pub open spec fn variables_from(d: Seq<u8>, pos: int, n: nat, acc: Seq<VariableView>) -> Option<
    (Seq<VariableView>, int),
>
    decreases n,
{
    if n == 0 {
        Some((acc, pos))
    } else {
        match variable_at(d, pos) {
            None => None,
            Some((v, next)) => variables_from(d, next, (n - 1) as nat, acc.push(v)),
        }
    }
}

/// The block of properties (`f`) or variables (`g`) at `pos`, added to `p`,
/// and where the next block starts.
pub open spec fn block_at(d: Seq<u8>, pos: int, p: ProjectView) -> Option<(ProjectView, int)> {
    if pos < 0 || pos + 4 > d.len() {
        None
    } else {
        let n = u16_at(d, pos + 2) as nat;
        if d[pos] == 0x66 {
            match properties_from(d, pos + 4, n, p.properties) {
                None => None,
                Some((ps, next)) => Some((ProjectView { properties: ps, ..p }, next)),
            }
        } else {
            match variables_from(d, pos + 4, n, p.variables) {
                None => None,
                Some((vs, next)) => Some((ProjectView { variables: vs, ..p }, next)),
            }
        }
    }
}

/// The blocks from `pos` on, added to `p`.
pub open spec fn blocks_from(d: Seq<u8>, pos: int, p: ProjectView) -> Option<ProjectView>
    decreases d.len() - pos,
{
    if pos < 0 || pos >= d.len() {
        Some(p)
    } else if d[pos] == 0 {
        Some(p)
    } else if d[pos] == 0x66 || d[pos] == 0x67 {
        match block_at(d, pos, p) {
            None => None,
            Some((q, next)) => if pos < next <= d.len() {
                blocks_from(d, next, q)
            } else {
                None
            },
        }
    } else {
        None
    }
}

/// The project that a `.spj` file holds; `None` where it is not one.
pub open spec fn project_of(d: Seq<u8>) -> Option<ProjectView> {
    if d.len() < 4 || d[0] != 0x49 || d[1] != 0x68 {
        None
    } else if d[2] == 0x66 {
        if 6 > d.len() {
            None
        } else {
            match properties_from(d, 6, u16_at(d, 4) as nat, Seq::empty()) {
                None => None,
                Some((ps, next)) => if next + 2 > d.len() {
                    None
                } else {
                    match string_at(d, next + 2) {
                        None => None,
                        Some((root, at)) => blocks_from(
                            d,
                            at,
                            ProjectView { root, properties: ps, variables: Seq::empty() },
                        ),
                    }
                },
            }
        }
    } else if d[2] == 0x64 {
        match string_at(d, 4) {
            None => None,
            Some((root, at)) => blocks_from(
                d,
                at,
                ProjectView { root, properties: Seq::empty(), variables: Seq::empty() },
            ),
        }
    } else {
        None
    }
}

/// Where a list of records read from `pos` ends: not before `pos`, not past
/// the data.
pub proof fn lemma_properties_bounds(d: Seq<u8>, pos: int, n: nat, acc: Seq<PropertyView>)
    requires
        0 <= pos <= d.len(),
    ensures
        properties_from(d, pos, n, acc) matches Some((ps, next)) ==> pos <= next <= d.len(),
    decreases n,
{
    if n > 0 {
        if let Some((p, next)) = property_at(d, pos) {
            lemma_properties_bounds(d, next, (n - 1) as nat, acc.push(p));
        }
    }
}

pub proof fn lemma_variables_bounds(d: Seq<u8>, pos: int, n: nat, acc: Seq<VariableView>)
    requires
        0 <= pos <= d.len(),
    ensures
        variables_from(d, pos, n, acc) matches Some((vs, next)) ==> pos <= next <= d.len(),
    decreases n,
{
    if n > 0 {
        if let Some((v, next)) = variable_at(d, pos) {
            lemma_variables_bounds(d, next, (n - 1) as nat, acc.push(v));
        }
    }
}

#[verifier::spinoff_prover]
fn read_properties(r: &mut Reader, count: u16, project: &mut Project) -> (res: Result<()>)
    requires
        old(r).pos <= old(r).data@.len(),
    ensures
        final(r).same_file(old(r)),
        res matches Err(e) ==> e.path@ == old(r).spec_path(),
        final(project).root@ == old(project).root@,
        variables_view(final(project).variables@) == variables_view(old(project).variables@),
        match properties_from(
            old(r).data@,
            old(r).pos as int,
            count as nat,
            properties_view(old(project).properties@),
        ) {
            Some((ps, next)) => res is Ok && properties_view(final(project).properties@) == ps
                && final(r).pos == next,
            None => res is Err,
        },
{
    let ghost d = r.data@;
    let ghost target = properties_from(
        d,
        r.pos as int,
        count as nat,
        properties_view(project.properties@),
    );
    let mut k: u16 = 0;
    while k < count
        invariant
            k <= count,
            r.same_file(old(r)),
            r.pos <= d.len(),
            d == r.data@,
            target == properties_from(
                old(r).data@,
                old(r).pos as int,
                count as nat,
                properties_view(old(project).properties@),
            ),
            project.root@ == old(project).root@,
            variables_view(project.variables@) == variables_view(old(project).variables@),
            target == properties_from(
                d,
                r.pos as int,
                (count - k) as nat,
                properties_view(project.properties@),
            ),
        decreases count - k,
    {
        let ghost pos = r.pos as int;
        proof {
            assert(target == match property_at(d, pos) {
                None => None,
                Some((p, next)) => properties_from(
                    d,
                    next,
                    (count - k - 1) as nat,
                    properties_view(project.properties@).push(p),
                ),
            });
            assert(pos + 4 > d.len() ==> target is None);
            assert(pos + 4 <= d.len() && pos + 4 + d[pos + 3] > d.len() ==> target is None);
        }
        let size = r.u16()?;
        let start = r.pos;
        let ptype = r.u8()?;
        let key_len = r.u8()?;
        let key_bytes = r.bytes(key_len as usize)?;
        let key = cp1251::decode(split_nul(key_bytes.as_slice()));
        if (size as usize) < r.pos - start || (size as usize) > r.data.len() - start {
            assert(property_at(d, pos) is None);
            return r.err("длина записи-свойства выходит за конец файла".to_string());
        }
        let raw = r.bytes(start + size as usize - r.pos)?;
        let value = if ptype == 0 && raw.len() >= 4 {
            PropertyValue::Int(u32_from(raw[0], raw[1], raw[2], raw[3]))
        } else {
            PropertyValue::Text(cp1251::decode(split_nul(raw.as_slice())))
        };
        let ghost before = properties_view(project.properties@);
        project.properties.push(Property { key, value });
        proof {
            assert(properties_view(project.properties@) =~= before.push(
                project.properties@.last()@,
            ));
            assert(property_at(d, pos) == Some((project.properties@.last()@, r.pos as int)));
        }
        k = k + 1;
    }
    Ok(())
}

#[verifier::spinoff_prover]
fn read_variables(r: &mut Reader, count: u16, project: &mut Project) -> (res: Result<()>)
    requires
        old(r).pos <= old(r).data@.len(),
    ensures
        final(r).same_file(old(r)),
        res matches Err(e) ==> e.path@ == old(r).spec_path(),
        final(project).root@ == old(project).root@,
        properties_view(final(project).properties@) == properties_view(old(project).properties@),
        match variables_from(
            old(r).data@,
            old(r).pos as int,
            count as nat,
            variables_view(old(project).variables@),
        ) {
            Some((vs, next)) => res is Ok && variables_view(final(project).variables@) == vs
                && final(r).pos == next,
            None => res is Err,
        },
{
    let ghost d = r.data@;
    let ghost target = variables_from(
        d,
        r.pos as int,
        count as nat,
        variables_view(project.variables@),
    );
    let mut k: u16 = 0;
    while k < count
        invariant
            k <= count,
            r.same_file(old(r)),
            r.pos <= d.len(),
            d == r.data@,
            target == variables_from(
                old(r).data@,
                old(r).pos as int,
                count as nat,
                variables_view(old(project).variables@),
            ),
            project.root@ == old(project).root@,
            properties_view(project.properties@) == properties_view(old(project).properties@),
            target == variables_from(
                d,
                r.pos as int,
                (count - k) as nat,
                variables_view(project.variables@),
            ),
        decreases count - k,
    {
        let ghost pos = r.pos as int;
        proof {
            assert(target == match variable_at(d, pos) {
                None => None,
                Some((v, next)) => variables_from(
                    d,
                    next,
                    (count - k - 1) as nat,
                    variables_view(project.variables@).push(v),
                ),
            });
            assert(pos + 4 > d.len() ==> target is None);
            assert(pos + 4 <= d.len() && u16_at(d, pos) == 2 && pos + 6 > d.len() ==> target is None);
        }
        let kind = r.u16()?;
        let flags = r.u16()?;
        let handle = if kind == 2 {
            Some(r.u16()?)
        } else {
            None
        };
        let name = r.string()?;
        let description = r.string()?;
        let ghost before = variables_view(project.variables@);
        project.variables.push(ProjectVariable { kind, flags, handle, name, description });
        proof {
            assert(variables_view(project.variables@) =~= before.push(project.variables@.last()@));
            assert(variable_at(d, pos) == Some((project.variables@.last()@, r.pos as int)));
        }
        k = k + 1;
    }
    Ok(())
}

#[verifier::spinoff_prover]
fn read_block(r: &mut Reader, project: &mut Project) -> (res: Result<()>)
    requires
        old(r).pos < old(r).data@.len(),
        old(r).data@[old(r).pos as int] == 0x66 || old(r).data@[old(r).pos as int] == 0x67,
    ensures
        final(r).same_file(old(r)),
        res matches Err(e) ==> e.path@ == old(r).spec_path(),
        match block_at(old(r).data@, old(r).pos as int, old(project)@) {
            Some((q, next)) => res is Ok && final(project)@ == q && final(r).pos == next
                && old(r).pos < next <= old(r).data@.len(),
            None => res is Err,
        },
{
    let ghost pos = r.pos as int;
    let m = r.u8()?;
    r.u8()?;
    let n = r.u16()?;
    if m == 0x66 {
        read_properties(r, n, project)?;
        proof {
            lemma_properties_bounds(r.data@, pos + 4, n as nat, properties_view(old(project).properties@));
        }
    } else {
        read_variables(r, n, project)?;
        proof {
            lemma_variables_bounds(r.data@, pos + 4, n as nat, variables_view(old(project).variables@));
        }
    }
    Ok(())
}

/// Reads `project.spj`.
#[verifier::spinoff_prover]
pub fn parse_project(data: &[u8], path: &str) -> (res: Result<Project>)
    ensures
        match project_of(data@) {
            Some(p) => res matches Ok(q) && q@ == p,
            None => res is Err,
        },
        res matches Err(e) ==> e.path@ == path@,
        data@.len() < 4 || data@[0] != 0x49 || data@[1] != 0x68 ==> (res matches Err(e) && e.offset
            == 0 && e.message@ == "не файл проекта: нет сигнатуры Ih"@),
        data@.len() >= 4 && data@[0] == 0x49 && data@[1] == 0x68 && data@[2] != 0x66 && data@[2]
            != 0x64 ==> (res matches Err(e) && e.offset == 4 && e.message@ == "неизвестный вид проекта "@
            + debug_of_char(data@[2] as char)),
{
    let mut r = Reader::new(data, path);
    if data.len() < 4 || data[0] != 0x49 || data[1] != 0x68 {
        return r.err("не файл проекта: нет сигнатуры Ih".to_string());
    }
    let kind = data[2];
    r.pos = 4;
    let mut project = Project { root: String::new(), properties: Vec::new(), variables: Vec::new() };
    assert(properties_view(project.properties@) =~= Seq::empty());
    assert(variables_view(project.variables@) =~= Seq::empty());
    if kind == 0x66 {
        let n = r.u16()?;
        read_properties(&mut r, n, &mut project)?;
        proof {
            lemma_properties_bounds(data@, 6, n as nat, Seq::empty());
        }
        r.u16()?;
        project.root = r.string()?;
    } else if kind == 0x64 {
        project.root = r.string()?;
    } else {
        let mut m = "неизвестный вид проекта ".to_string();
        m.append(char_debug(kind as char).as_str());
        return r.err(m);
    }
    let ghost target = project_of(data@);
    loop
        invariant_except_break
            r.data@ == data@,
            r.spec_path() == path@,
            target == project_of(data@),
            target == blocks_from(data@, r.pos as int, project@),
            data@.len() >= 4 && data@[0] == 0x49 && data@[1] == 0x68,
            data@[2] == 0x66 || data@[2] == 0x64,
        ensures
            target == Some(project@),
        decreases data@.len() - r.pos,
    {
        if r.eof() {
            break;
        }
        let ghost pos = r.pos as int;
        let start = r.pos;
        let m = r.u8()?;
        if m == 0 {
            break;
        }
        if m == 0x66 || m == 0x67 {
            r.pos = start;
            read_block(&mut r, &mut project)?;
        } else {
            let mut msg = "неизвестный маркер блока ".to_string();
            msg.append(char_debug(m as char).as_str());
            return r.err(msg);
        }
    }
    Ok(project)
}

/// The key of a property as written: CP1251 and a terminating zero.
pub open spec fn key_bytes(key: Seq<char>) -> Seq<u8> {
    cp1251::encoded(key).push(0)
}

/// The type byte of a property value as written.
pub open spec fn value_type(v: PropertyValueView) -> u8 {
    match v {
        PropertyValueView::Int(_) => 0,
        PropertyValueView::Text(_) => 2,
    }
}

/// The bytes of a property value as written.
pub open spec fn value_bytes(v: PropertyValueView) -> Seq<u8> {
    match v {
        PropertyValueView::Int(i) => le32_bytes(i),
        PropertyValueView::Text(t) => cp1251::encoded(t).push(0),
    }
}

/// One property record as `write_project` writes it.
pub open spec fn property_bytes(p: PropertyView) -> Seq<u8> {
    let key = key_bytes(p.key);
    let value = value_bytes(p.value);
    le16_bytes(((2 + key.len() + value.len()) % 65536) as u16) + seq![
        value_type(p.value),
        (key.len() % 256) as u8,
    ]
        + key + value
}

pub open spec fn properties_bytes(ps: Seq<PropertyView>) -> Seq<u8>
    decreases ps.len(),
{
    if ps.len() == 0 {
        Seq::empty()
    } else {
        properties_bytes(ps.drop_last()) + property_bytes(ps.last())
    }
}

/// One project variable as `write_project` writes it.
pub open spec fn variable_bytes(v: VariableView) -> Seq<u8> {
    le16_bytes(v.kind) + le16_bytes(v.flags) + (if v.kind == 2 {
        le16_bytes(
            match v.handle {
                Some(h) => h,
                None => 0,
            },
        )
    } else {
        Seq::empty()
    }) + string_bytes(v.name) + string_bytes(v.description)
}

pub open spec fn variables_bytes(vs: Seq<VariableView>) -> Seq<u8>
    decreases vs.len(),
{
    if vs.len() == 0 {
        Seq::empty()
    } else {
        variables_bytes(vs.drop_last()) + variable_bytes(vs.last())
    }
}

/// Signature and root of a project of kind `d`.
pub open spec fn head_bytes(root: Seq<char>) -> Seq<u8> {
    seq![0x49u8, 0x68, 0x64, 0] + string_bytes(root)
}

/// The block of properties; nothing when there are none.
pub open spec fn properties_block(ps: Seq<PropertyView>) -> Seq<u8> {
    if ps.len() > 0 {
        seq![0x66u8, 0] + le16_bytes((ps.len() % 65536) as u16) + properties_bytes(ps)
    } else {
        Seq::empty()
    }
}

/// The block of variables; nothing when there are none.
pub open spec fn variables_block(vs: Seq<VariableView>) -> Seq<u8> {
    if vs.len() > 0 {
        seq![0x67u8, 0] + le16_bytes((vs.len() % 65536) as u16) + variables_bytes(vs)
    } else {
        Seq::empty()
    }
}

/// A `project.spj` of kind `d`, as Stratum 2000 v3 itself writes it.
pub open spec fn project_bytes(p: ProjectView) -> Seq<u8> {
    head_bytes(p.root) + properties_block(p.properties) + variables_block(p.variables) + seq![0u8]
}

#[verifier::spinoff_prover]
fn write_property(w: &mut Writer, p: &Property)
    ensures
        final(w).data@ == old(w).data@ + property_bytes(p@),
{
    let mut key = cp1251::encode(p.key.as_str());
    key.push(0);
    let (ptype, value): (u8, Vec<u8>) = match &p.value {
        PropertyValue::Int(v) => {
            let b = crate::formats::writer::le32(*v);
            let mut bytes: Vec<u8> = Vec::new();
            bytes.push(b[0]);
            bytes.push(b[1]);
            bytes.push(b[2]);
            bytes.push(b[3]);
            (0, bytes)
        },
        PropertyValue::Text(t) => {
            let mut bytes = cp1251::encode(t.as_str());
            bytes.push(0);
            (2, bytes)
        },
    };
    let size = ((2 + key.len() % 65536 + value.len() % 65536) % 65536) as u16;
    w.u16(size);
    w.u8(ptype);
    w.u8((key.len() % 256) as u8);
    w.bytes(key.as_slice());
    w.bytes(value.as_slice());
    proof {
        assert(value@ =~= value_bytes(p@.value));
        vstd::arithmetic::div_mod::lemma_add_mod_noop(2 + key.len() as int, value.len() as int, 65536);
        vstd::arithmetic::div_mod::lemma_add_mod_noop(2, key.len() as int, 65536);
        vstd::arithmetic::div_mod::lemma_small_mod(2, 65536);
        vstd::arithmetic::div_mod::lemma_mod_twice(2 + key.len() as int % 65536, 65536);
        assert(size == (2 + key.len() + value.len()) % 65536);
        assert(key@ =~= key_bytes(p@.key));
        assert(w.data@ =~= old(w).data@ + property_bytes(p@));
    }
}

/// Builds `project.spj` of kind `d`, as Stratum 2000 v3 itself writes it.
#[verifier::spinoff_prover]
pub fn write_project(project: &Project) -> (out: Vec<u8>)
    ensures
        out@ == project_bytes(project@),
{
    let mut w = Writer::new();
    w.u8(0x49);
    w.u8(0x68);
    w.u8(0x64);
    w.u8(0);
    w.string(project.root.as_str());
    let ghost head = w.data@;
    let np = project.properties.len();
    assert(np == project@.properties.len());
    assert(project.variables.len() == project@.variables.len());
    if np > 0 {
        w.u8(0x66);
        w.u8(0);
        w.u16((np % 65536) as u16);
        let ghost start = w.data@;
        let mut i: usize = 0;
        while i < np
            invariant
                np == project.properties@.len(),
                i <= np,
                w.data@ == start + properties_bytes(properties_view(project.properties@).take(i as int)),
            decreases np - i,
        {
            write_property(&mut w, &project.properties[i]);
            proof {
                let pv = properties_view(project.properties@);
                assert(pv.take(i + 1).drop_last() =~= pv.take(i as int));
                assert(pv.take(i + 1).last() == pv[i as int]);
                assert(w.data@ =~= start + properties_bytes(pv.take(i as int)) + property_bytes(pv[i as int]));
            }
            i = i + 1;
        }
        assert(properties_view(project.properties@).take(np as int) =~= properties_view(project.properties@));
    }
    let ghost pb = properties_block(project@.properties);
    assert(w.data@ =~= head + pb);
    let ghost mid = w.data@;
    let nv = project.variables.len();
    if nv > 0 {
        w.u8(0x67);
        w.u8(0);
        w.u16((nv % 65536) as u16);
        let ghost start = w.data@;
        let mut i: usize = 0;
        while i < nv
            invariant
                nv == project.variables@.len(),
                i <= nv,
                w.data@ == start + variables_bytes(variables_view(project.variables@).take(i as int)),
            decreases nv - i,
        {
            let v = &project.variables[i];
            w.u16(v.kind);
            w.u16(v.flags);
            if v.kind == 2 {
                w.u16(
                    match v.handle {
                        Some(h) => h,
                        None => 0,
                    },
                );
            }
            w.string(v.name.as_str());
            w.string(v.description.as_str());
            proof {
                let vv = variables_view(project.variables@);
                assert(vv.take(i + 1).drop_last() =~= vv.take(i as int));
                assert(vv.take(i + 1).last() == vv[i as int]);
                assert(w.data@ =~= start + variables_bytes(vv.take(i as int)) + variable_bytes(vv[i as int]));
            }
            i = i + 1;
        }
        assert(variables_view(project.variables@).take(nv as int) =~= variables_view(project.variables@));
    }
    let ghost vb = variables_block(project@.variables);
    assert(w.data@ =~= head + pb + vb);
    w.u8(0);
    assert(head =~= head_bytes(project@.root));
    assert(w.data@ =~= project_bytes(project@));
    w.data
}

/// No character of the text is the zero character.
pub open spec fn no_nul(t: Seq<char>) -> bool {
    forall|i: int| 0 <= i < t.len() ==> t[i] != '\0'
}

/// A text that a string field of Stratum 2000 holds unchanged.
pub open spec fn fits_string(t: Seq<char>) -> bool {
    cp1251::representable(t) && t.len() <= 65535
}

/// A property that `write_project` writes and `parse_project` reads back.
pub open spec fn writable_property(p: PropertyView) -> bool {
    &&& cp1251::representable(p.key)
    &&& no_nul(p.key)
    &&& p.key.len() <= 254
    &&& match p.value {
        PropertyValueView::Int(_) => true,
        PropertyValueView::Text(t) => cp1251::representable(t) && no_nul(t) && p.key.len()
            + t.len() <= 65531,
    }
}

/// A project variable that survives writing and reading: the handle is
/// there exactly for kind 2.
pub open spec fn writable_variable(v: VariableView) -> bool {
    &&& fits_string(v.name)
    &&& fits_string(v.description)
    &&& (v.kind == 2) == (v.handle is Some)
}

/// A project that `write_project` writes and `parse_project` reads back.
pub open spec fn writable_project(p: ProjectView) -> bool {
    &&& fits_string(p.root)
    &&& p.properties.len() <= 65535
    &&& p.variables.len() <= 65535
    &&& forall|i: int| 0 <= i < p.properties.len() ==> writable_property(#[trigger] p.properties[i])
    &&& forall|i: int| 0 <= i < p.variables.len() ==> writable_variable(#[trigger] p.variables[i])
}

/// The only character written as a zero byte is the zero character.
pub proof fn lemma_encoded_no_zero(t: Seq<char>)
    requires
        cp1251::representable(t),
        no_nul(t),
    ensures
        forall|i: int| 0 <= i < cp1251::encoded(t).len() ==> cp1251::encoded(t)[i] != 0,
{
    assert forall|i: int| 0 <= i < cp1251::encoded(t).len() implies cp1251::encoded(t)[i] != 0 by {
        cp1251::lemma_char_round_trip(t[i]);
        assert(byte_of_is_some(t[i]));
    }
}

spec fn byte_of_is_some(c: char) -> bool {
    cp1251::byte_of(c) is Some
}

/// A text followed by a zero: the text comes back from the bytes before the
/// zero.
pub proof fn lemma_text_before_nul(t: Seq<char>)
    requires
        cp1251::representable(t),
        no_nul(t),
    ensures
        cp1251::decoded(before_nul(cp1251::encoded(t).push(0))) == t,
{
    let e = cp1251::encoded(t).push(0);
    lemma_encoded_no_zero(t);
    crate::formats::reader::lemma_before_nul(e, t.len() as int);
    assert(e.take(t.len() as int) =~= cp1251::encoded(t));
    cp1251::law_decode_encode(t);
}

/// A string field written in the middle of some data reads back as itself.
pub proof fn lemma_string_at(a: Seq<u8>, t: Seq<char>, c: Seq<u8>)
    requires
        fits_string(t),
    ensures
        string_at(a + string_bytes(t) + c, a.len() as int) == Some(
            (t, a.len() + string_bytes(t).len() as int),
        ),
        string_bytes(t).len() == 2 + t.len(),
{
    law_string_round_trip(a, t, c);
    assert(cp1251::encoded(t).take(t.len() as int) =~= cp1251::encoded(t));
}

/// A property record written in the middle of some data reads back as
/// itself.
pub proof fn lemma_property_at(a: Seq<u8>, p: PropertyView, c: Seq<u8>)
    requires
        writable_property(p),
    ensures
        property_at(a + property_bytes(p) + c, a.len() as int) == Some(
            (p, a.len() + property_bytes(p).len() as int),
        ),
{
    let d = a + property_bytes(p) + c;
    let pos = a.len() as int;
    let key = key_bytes(p.key);
    let value = value_bytes(p.value);
    let size = ((2 + key.len() + value.len()) % 65536) as u16;
    assert(2 + key.len() + value.len() < 65536);
    assert(size == 2 + key.len() + value.len());
    assert(property_bytes(p) =~= le16_bytes(size) + (seq![value_type(p.value), (key.len() % 256) as u8] + key + value));
    law_u16_round_trip(a, size, seq![value_type(p.value), (key.len() % 256) as u8] + key + value + c);
    assert(d =~= a + le16_bytes(size) + (seq![value_type(p.value), (key.len() % 256) as u8] + key + value + c));
    assert(d[pos + 2] == value_type(p.value));
    assert(d[pos + 3] == key.len());
    let k = pos + 4;
    assert(d.subrange(k, k + key.len()) =~= key);
    lemma_text_before_nul(p.key);
    assert(d.subrange(k + key.len(), pos + 2 + size) =~= value);
    match p.value {
        PropertyValueView::Int(i) => {
            law_u32_round_trip(Seq::empty(), i, Seq::empty());
            assert(Seq::<u8>::empty() + le32_bytes(i) + Seq::<u8>::empty() =~= le32_bytes(i));
        },
        PropertyValueView::Text(t) => {
            lemma_text_before_nul(t);
        },
    }
}

pub proof fn lemma_properties_bytes_concat(a: Seq<PropertyView>, b: Seq<PropertyView>)
    ensures
        properties_bytes(a + b) == properties_bytes(a) + properties_bytes(b),
    decreases b.len(),
{
    if b.len() == 0 {
        assert(a + b =~= a);
        assert(properties_bytes(b) =~= Seq::<u8>::empty());
        assert(properties_bytes(a) + properties_bytes(b) =~= properties_bytes(a));
    } else {
        lemma_properties_bytes_concat(a, b.drop_last());
        assert((a + b).drop_last() =~= a + b.drop_last());
        assert((a + b).last() == b.last());
        assert(properties_bytes(a + b) =~= properties_bytes(a) + properties_bytes(b));
    }
}

pub proof fn lemma_variables_bytes_concat(a: Seq<VariableView>, b: Seq<VariableView>)
    ensures
        variables_bytes(a + b) == variables_bytes(a) + variables_bytes(b),
    decreases b.len(),
{
    if b.len() == 0 {
        assert(a + b =~= a);
        assert(variables_bytes(b) =~= Seq::<u8>::empty());
        assert(variables_bytes(a) + variables_bytes(b) =~= variables_bytes(a));
    } else {
        lemma_variables_bytes_concat(a, b.drop_last());
        assert((a + b).drop_last() =~= a + b.drop_last());
        assert((a + b).last() == b.last());
        assert(variables_bytes(a + b) =~= variables_bytes(a) + variables_bytes(b));
    }
}

/// Property records written one after another read back as the same list.
#[verifier::spinoff_prover]
#[verifier::rlimit(60)]
pub proof fn lemma_properties_from(x: Seq<u8>, ps: Seq<PropertyView>, y: Seq<u8>, acc: Seq<PropertyView>)
    requires
        forall|i: int| 0 <= i < ps.len() ==> writable_property(#[trigger] ps[i]),
    ensures
        properties_from(x + properties_bytes(ps) + y, x.len() as int, ps.len(), acc) == Some(
            (acc + ps, x.len() + properties_bytes(ps).len() as int),
        ),
    decreases ps.len(),
{
    if ps.len() == 0 {
        assert(acc + ps =~= acc);
    } else {
        let p0 = ps[0];
        let rest = ps.drop_first();
        assert(ps =~= seq![p0] + rest);
        lemma_properties_bytes_concat(seq![p0], rest);
        assert(seq![p0].drop_last() =~= Seq::<PropertyView>::empty());
        assert(seq![p0].last() == p0);
        assert(properties_bytes(Seq::<PropertyView>::empty()) =~= Seq::<u8>::empty());
        assert(properties_bytes(seq![p0]) =~= property_bytes(p0));
        let d = x + properties_bytes(ps) + y;
        assert(d =~= x + property_bytes(p0) + (properties_bytes(rest) + y));
        assert(writable_property(ps[0]));
        lemma_property_at(x, p0, properties_bytes(rest) + y);
        assert forall|i: int| 0 <= i < rest.len() implies writable_property(#[trigger] rest[i]) by {
            assert(rest[i] == ps[i + 1]);
        }
        lemma_properties_from(x + property_bytes(p0), rest, y, acc.push(p0));
        assert(d =~= (x + property_bytes(p0)) + properties_bytes(rest) + y);
        assert(acc.push(p0) + rest =~= acc + ps);
    }
}

/// A project variable written in the middle of some data reads back as
/// itself.
#[verifier::spinoff_prover]
#[verifier::rlimit(60)]
pub proof fn lemma_variable_at(a: Seq<u8>, v: VariableView, c: Seq<u8>)
    requires
        writable_variable(v),
    ensures
        variable_at(a + variable_bytes(v) + c, a.len() as int) == Some(
            (v, a.len() + variable_bytes(v).len() as int),
        ),
{
    let d = a + variable_bytes(v) + c;
    let pos = a.len() as int;
    let h = if v.kind == 2 {
        le16_bytes(
            match v.handle {
                Some(h) => h,
                None => 0,
            },
        )
    } else {
        Seq::empty()
    };
    let tail = string_bytes(v.name) + string_bytes(v.description) + c;
    assert(d =~= a + le16_bytes(v.kind) + (le16_bytes(v.flags) + h + tail));
    law_u16_round_trip(a, v.kind, le16_bytes(v.flags) + h + tail);
    assert(d =~= (a + le16_bytes(v.kind)) + le16_bytes(v.flags) + (h + tail));
    law_u16_round_trip(a + le16_bytes(v.kind), v.flags, h + tail);
    let at = pos + 4 + h.len();
    if v.kind == 2 {
        let hv = v.handle.unwrap();
        assert(d =~= (a + le16_bytes(v.kind) + le16_bytes(v.flags)) + le16_bytes(hv) + tail);
        law_u16_round_trip(a + le16_bytes(v.kind) + le16_bytes(v.flags), hv, tail);
    }
    let x = a + le16_bytes(v.kind) + le16_bytes(v.flags) + h;
    assert(x.len() == at);
    assert(d =~= x + string_bytes(v.name) + (string_bytes(v.description) + c));
    lemma_string_at(x, v.name, string_bytes(v.description) + c);
    assert(d =~= (x + string_bytes(v.name)) + string_bytes(v.description) + c);
    lemma_string_at(x + string_bytes(v.name), v.description, c);
}

/// Variables written one after another read back as the same list.
#[verifier::spinoff_prover]
#[verifier::rlimit(60)]
pub proof fn lemma_variables_from(x: Seq<u8>, vs: Seq<VariableView>, y: Seq<u8>, acc: Seq<VariableView>)
    requires
        forall|i: int| 0 <= i < vs.len() ==> writable_variable(#[trigger] vs[i]),
    ensures
        variables_from(x + variables_bytes(vs) + y, x.len() as int, vs.len(), acc) == Some(
            (acc + vs, x.len() + variables_bytes(vs).len() as int),
        ),
    decreases vs.len(),
{
    if vs.len() == 0 {
        assert(acc + vs =~= acc);
    } else {
        let v0 = vs[0];
        let rest = vs.drop_first();
        assert(vs =~= seq![v0] + rest);
        lemma_variables_bytes_concat(seq![v0], rest);
        assert(seq![v0].drop_last() =~= Seq::<VariableView>::empty());
        assert(seq![v0].last() == v0);
        assert(variables_bytes(Seq::<VariableView>::empty()) =~= Seq::<u8>::empty());
        assert(variables_bytes(seq![v0]) =~= variable_bytes(v0));
        let d = x + variables_bytes(vs) + y;
        assert(d =~= x + variable_bytes(v0) + (variables_bytes(rest) + y));
        assert(writable_variable(vs[0]));
        lemma_variable_at(x, v0, variables_bytes(rest) + y);
        assert forall|i: int| 0 <= i < rest.len() implies writable_variable(#[trigger] rest[i]) by {
            assert(rest[i] == vs[i + 1]);
        }
        lemma_variables_from(x + variable_bytes(v0), rest, y, acc.push(v0));
        assert(d =~= (x + variable_bytes(v0)) + variables_bytes(rest) + y);
        assert(acc.push(v0) + rest =~= acc + vs);
    }
}

#[verifier::spinoff_prover]
proof fn lemma_head(p: ProjectView, rest: Seq<u8>)
    requires
        fits_string(p.root),
    ensures
        project_of(head_bytes(p.root) + rest) == blocks_from(
            head_bytes(p.root) + rest,
            head_bytes(p.root).len() as int,
            ProjectView { root: p.root, properties: Seq::empty(), variables: Seq::empty() },
        ),
{
    let sig = seq![0x49u8, 0x68, 0x64, 0];
    let d = head_bytes(p.root) + rest;
    vstd::seq_lib::lemma_concat_associative(sig, string_bytes(p.root), rest);
    lemma_string_at(sig, p.root, rest);
    assert(d[0] == 0x49 && d[1] == 0x68 && d[2] == 0x64);
}

#[verifier::spinoff_prover]
#[verifier::rlimit(40)]
proof fn lemma_properties_block(h: Seq<u8>, pre: ProjectView, ps: Seq<PropertyView>, rest: Seq<u8>)
    requires
        ps.len() <= 65535,
        pre.properties.len() == 0,
        forall|i: int| 0 <= i < ps.len() ==> writable_property(#[trigger] ps[i]),
        rest.len() > 0,
        rest[0] == 0 || rest[0] == 0x67,
    ensures
        blocks_from(h + properties_block(ps) + rest, h.len() as int, pre) == blocks_from(
            h + properties_block(ps) + rest,
            (h + properties_block(ps)).len() as int,
            ProjectView { properties: ps, ..pre },
        ),
{
    let d = h + properties_block(ps) + rest;
    if ps.len() > 0 {
        let n = ps.len() as u16;
        let x = h + seq![0x66u8, 0] + le16_bytes(n);
        assert(properties_block(ps) == seq![0x66u8, 0] + le16_bytes(n) + properties_bytes(ps));
        assert(d =~= x + properties_bytes(ps) + rest);
        lemma_properties_from(x, ps, rest, pre.properties);
        assert(d =~= (h + seq![0x66u8, 0]) + le16_bytes(n) + (properties_bytes(ps) + rest));
        law_u16_round_trip(h + seq![0x66u8, 0], n, properties_bytes(ps) + rest);
        assert(pre.properties + ps =~= ps);
        assert(d[h.len() as int] == 0x66);
        assert(block_at(d, h.len() as int, pre) == Some(
            (ProjectView { properties: ps, ..pre }, (h + properties_block(ps)).len() as int),
        ));
    } else {
        assert(ps =~= pre.properties);
        assert(h + properties_block(ps) =~= h);
    }
}

#[verifier::spinoff_prover]
#[verifier::rlimit(40)]
proof fn lemma_variables_block(h: Seq<u8>, pre: ProjectView, vs: Seq<VariableView>)
    requires
        vs.len() <= 65535,
        pre.variables.len() == 0,
        forall|i: int| 0 <= i < vs.len() ==> writable_variable(#[trigger] vs[i]),
    ensures
        blocks_from(h + variables_block(vs) + seq![0u8], h.len() as int, pre) == Some(
            ProjectView { variables: vs, ..pre },
        ),
{
    let d = h + variables_block(vs) + seq![0u8];
    let post = ProjectView { variables: vs, ..pre };
    if vs.len() > 0 {
        let n = vs.len() as u16;
        let x = h + seq![0x67u8, 0] + le16_bytes(n);
        assert(variables_block(vs) == seq![0x67u8, 0] + le16_bytes(n) + variables_bytes(vs));
        assert(d =~= x + variables_bytes(vs) + seq![0u8]);
        lemma_variables_from(x, vs, seq![0u8], pre.variables);
        assert(d =~= (h + seq![0x67u8, 0]) + le16_bytes(n) + (variables_bytes(vs) + seq![0u8]));
        law_u16_round_trip(h + seq![0x67u8, 0], n, variables_bytes(vs) + seq![0u8]);
        assert(pre.variables + vs =~= vs);
        assert(d[h.len() as int] == 0x67);
        let end = (h + variables_block(vs)).len() as int;
        assert(block_at(d, h.len() as int, pre) == Some((post, end)));
        assert(d[end] == 0);
        assert(blocks_from(d, end, post) == Some(post));
    } else {
        assert(vs =~= pre.variables);
        assert(d[h.len() as int] == 0);
    }
}

/// A project written by `write_project` reads back, by `parse_project`, as
/// the same project — when every text fits the code page and the string
/// fields, keys and texts hold no zero character, and a variable has a
/// handle exactly when its kind is 2.
#[verifier::spinoff_prover]
#[verifier::rlimit(100)]
pub proof fn law_project_round_trip(p: ProjectView)
    requires
        writable_project(p),
    ensures
        project_of(project_bytes(p)) == Some(p),
{
    let h = head_bytes(p.root);
    let pb = properties_block(p.properties);
    let vb = variables_block(p.variables);
    let d = project_bytes(p);
    let p0 = ProjectView { root: p.root, properties: Seq::empty(), variables: Seq::empty() };
    let p1 = ProjectView { properties: p.properties, ..p0 };
    vstd::seq_lib::lemma_concat_associative(h, pb + vb, seq![0u8]);
    vstd::seq_lib::lemma_concat_associative(h, pb, vb);
    assert(d == h + ((pb + vb) + seq![0u8]));
    lemma_head(p, (pb + vb) + seq![0u8]);
    vstd::seq_lib::lemma_concat_associative(pb, vb, seq![0u8]);
    vstd::seq_lib::lemma_concat_associative(h, pb, vb + seq![0u8]);
    assert(d == h + pb + (vb + seq![0u8]));
    assert((vb + seq![0u8])[0] == 0 || (vb + seq![0u8])[0] == 0x67);
    lemma_properties_block(h, p0, p.properties, vb + seq![0u8]);
    assert(d == (h + pb) + vb + seq![0u8]);
    lemma_variables_block(h + pb, p1, p.variables);
    assert(ProjectView { variables: p.variables, ..p1 } == p);
}

/// A snapshot of the values of the variables of every image (`_preload.stt`).
#[derive(Debug, Clone)]
pub struct State {
    pub root: String,
    pub images: Vec<StateImage>,
}

#[derive(Debug, Clone)]
pub struct StateImage {
    pub class_name: String,
    pub reference: u32,
    /// Handle of the instance on the scheme (as in the children of a `.cls`).
    pub handle: u16,
    pub vars: Vec<(String, String)>,
}

pub struct StateImageView {
    pub class_name: Seq<char>,
    pub reference: u32,
    pub handle: u16,
    pub vars: Seq<(Seq<char>, Seq<char>)>,
}

pub struct StateView {
    pub root: Seq<char>,
    pub images: Seq<StateImageView>,
}

pub open spec fn pairs_view(v: Seq<(String, String)>) -> Seq<(Seq<char>, Seq<char>)> {
    v.map_values(|p: (String, String)| (p.0@, p.1@))
}

impl View for StateImage {
    type V = StateImageView;

    open spec fn view(&self) -> StateImageView {
        StateImageView {
            class_name: self.class_name@,
            reference: self.reference,
            handle: self.handle,
            vars: pairs_view(self.vars@),
        }
    }
}

pub open spec fn images_view(v: Seq<StateImage>) -> Seq<StateImageView> {
    v.map_values(|i: StateImage| i@)
}

impl View for State {
    type V = StateView;

    open spec fn view(&self) -> StateView {
        StateView { root: self.root@, images: images_view(self.images@) }
    }
}

/// The magic string at the start of a state file.
pub open spec fn state_magic() -> Seq<char> {
    "SC Scheme Variables"@
}

/// Pairs of strings (name, value) from `pos`, appended to `acc`.
pub open spec fn pairs_from(d: Seq<u8>, pos: int, n: nat, acc: Seq<(Seq<char>, Seq<char>)>) -> Option<
    (Seq<(Seq<char>, Seq<char>)>, int),
>
    decreases n,
{
    if n == 0 {
        Some((acc, pos))
    } else {
        match string_at(d, pos) {
            None => None,
            Some((name, at)) => match string_at(d, at) {
                None => None,
                Some((value, at2)) => pairs_from(d, at2, (n - 1) as nat, acc.push((name, value))),
            },
        }
    }
}

/// One image of the named edition: reference, handle, class, stamp, count,
/// pairs.
pub open spec fn state_image_at(d: Seq<u8>, pos: int) -> Option<(StateImageView, int)> {
    if pos < 0 || pos + 6 > d.len() {
        None
    } else {
        let reference = u32_at(d, pos);
        let handle = u16_at(d, pos + 4);
        match string_at(d, pos + 6) {
            None => None,
            Some((class_name, at)) => if at + 6 > d.len() {
                None
            } else {
                match pairs_from(d, at + 6, u16_at(d, at + 4) as nat, Seq::empty()) {
                    None => None,
                    Some((vars, next)) => Some(
                        (StateImageView { class_name, reference, handle, vars }, next),
                    ),
                }
            },
        }
    }
}

/// Images of the named edition while six bytes are left.
pub open spec fn state_images_from(d: Seq<u8>, pos: int, acc: Seq<StateImageView>) -> Option<
    Seq<StateImageView>,
>
    decreases d.len() - pos,
{
    if pos < 0 || pos + 6 > d.len() {
        Some(acc)
    } else {
        match state_image_at(d, pos) {
            None => None,
            Some((im, next)) => if pos < next <= d.len() {
                state_images_from(d, next, acc.push(im))
            } else {
                None
            },
        }
    }
}

/// The header of a state file: magic, root, two words; where the edition
/// word starts. `None`: not a state file.
pub open spec fn state_header(d: Seq<u8>) -> Option<(Seq<char>, int)> {
    match string_at(d, 0) {
        None => None,
        Some((magic, at)) => if !(magic.len() >= 3 && magic[0] == 'S' && magic[1] == 'C' && magic[2]
            == ' ') {
            None
        } else {
            match string_at(d, at) {
                None => None,
                Some((root, at2)) => if at2 + 4 > d.len() {
                    None
                } else {
                    Some((root, at2 + 4))
                },
            }
        },
    }
}

/// The old edition stores the root name again where the edition word
/// would be.
pub open spec fn old_edition(d: Seq<u8>, root: Seq<char>, at: int) -> bool {
    at + 2 <= d.len() && u16_at(d, at) == (root.len() % 65536) as u16
}

/// The state of a file of the named edition (any edition word other than
/// 0x3E8); `None` for a file that is not one.
pub open spec fn named_state_of(d: Seq<u8>) -> Option<StateView> {
    match state_header(d) {
        None => None,
        Some((root, at)) => if old_edition(d, root, at) || at + 2 > d.len() || u16_at(d, at)
            == 0x3e8 {
            None
        } else {
            match state_images_from(d, at + 2, Seq::empty()) {
                None => None,
                Some(images) => Some(StateView { root, images }),
            }
        },
    }
}

/// Bytes of one image of the named edition as `write_state` writes it.
pub open spec fn state_image_bytes(im: StateImageView) -> Seq<u8> {
    le32_bytes(im.reference) + le16_bytes(im.handle) + string_bytes(im.class_name) + le32_bytes(0)
        + le16_bytes((im.vars.len() % 65536) as u16) + pairs_bytes(im.vars)
}

pub open spec fn pairs_bytes(vars: Seq<(Seq<char>, Seq<char>)>) -> Seq<u8>
    decreases vars.len(),
{
    if vars.len() == 0 {
        Seq::empty()
    } else {
        pairs_bytes(vars.drop_last()) + string_bytes(vars.last().0) + string_bytes(vars.last().1)
    }
}

pub open spec fn state_images_bytes(ims: Seq<StateImageView>) -> Seq<u8>
    decreases ims.len(),
{
    if ims.len() == 0 {
        Seq::empty()
    } else {
        state_images_bytes(ims.drop_last()) + state_image_bytes(ims.last())
    }
}

/// `_preload.stt` of the named edition, as `write_state` writes it.
pub open spec fn state_bytes(s: StateView) -> Seq<u8> {
    string_bytes(state_magic()) + string_bytes(s.root) + le16_bytes(0x28) + le16_bytes(2)
        + le16_bytes(0x3ea) + state_images_bytes(s.images) + le16_bytes(0)
}

#[verifier::spinoff_prover]
fn write_state_image(w: &mut Writer, im: &StateImage)
    ensures
        final(w).data@ == old(w).data@ + state_image_bytes(im@),
{
    w.u32(im.reference);
    w.u16(im.handle);
    w.string(im.class_name.as_str());
    w.u32(0);
    let n = im.vars.len();
    w.u16((n % 65536) as u16);
    let ghost start = w.data@;
    let mut i: usize = 0;
    while i < n
        invariant
            n == im.vars@.len(),
            i <= n,
            w.data@ == start + pairs_bytes(pairs_view(im.vars@).take(i as int)),
        decreases n - i,
    {
        let pair = &im.vars[i];
        w.string(pair.0.as_str());
        w.string(pair.1.as_str());
        proof {
            let pv = pairs_view(im.vars@);
            assert(pv.take(i + 1).drop_last() =~= pv.take(i as int));
            assert(pv.take(i + 1).last() == pv[i as int]);
            assert(w.data@ =~= start + pairs_bytes(pv.take(i as int)) + string_bytes(pv[i as int].0)
                + string_bytes(pv[i as int].1));
        }
        i = i + 1;
    }
    assert(pairs_view(im.vars@).take(n as int) =~= pairs_view(im.vars@));
    assert(w.data@ =~= old(w).data@ + state_image_bytes(im@));
}

/// Builds `_preload.stt` in the named edition (variables by name).
#[verifier::spinoff_prover]
pub fn write_state(state: &State) -> (out: Vec<u8>)
    ensures
        out@ == state_bytes(state@),
{
    let mut w = Writer::new();
    w.string("SC Scheme Variables");
    w.string(state.root.as_str());
    w.u16(0x28);
    w.u16(2);
    w.u16(0x03ea);
    let ghost start = w.data@;
    let n = state.images.len();
    let mut i: usize = 0;
    while i < n
        invariant
            n == state.images@.len(),
            i <= n,
            w.data@ == start + state_images_bytes(images_view(state.images@).take(i as int)),
        decreases n - i,
    {
        write_state_image(&mut w, &state.images[i]);
        proof {
            let iv = images_view(state.images@);
            assert(iv.take(i + 1).drop_last() =~= iv.take(i as int));
            assert(iv.take(i + 1).last() == iv[i as int]);
        }
        i = i + 1;
    }
    assert(images_view(state.images@).take(n as int) =~= images_view(state.images@));
    w.u16(0);
    assert(w.data@ =~= state_bytes(state@));
    w.data
}

pub proof fn lemma_pairs_bounds(d: Seq<u8>, pos: int, n: nat, acc: Seq<(Seq<char>, Seq<char>)>)
    requires
        0 <= pos <= d.len(),
    ensures
        pairs_from(d, pos, n, acc) matches Some((v, next)) ==> pos <= next <= d.len(),
    decreases n,
{
    if n > 0 {
        if let Some((name, at)) = string_at(d, pos) {
            if let Some((value, at2)) = string_at(d, at) {
                lemma_pairs_bounds(d, at2, (n - 1) as nat, acc.push((name, value)));
            }
        }
    }
}

pub proof fn lemma_state_image_bounds(d: Seq<u8>, pos: int)
    requires
        0 <= pos <= d.len(),
    ensures
        state_image_at(d, pos) matches Some((im, next)) ==> pos < next <= d.len(),
{
    if pos + 6 <= d.len() {
        if let Some((c, at)) = string_at(d, pos + 6) {
            if at + 6 <= d.len() {
                lemma_pairs_bounds(d, at + 6, u16_at(d, at + 4) as nat, Seq::empty());
            }
        }
    }
}

#[verifier::spinoff_prover]
fn read_pairs(r: &mut Reader, count: u16) -> (res: Result<Vec<(String, String)>>)
    requires
        old(r).pos <= old(r).data@.len(),
    ensures
        final(r).same_file(old(r)),
        res matches Err(e) ==> e.path@ == old(r).spec_path(),
        match pairs_from(old(r).data@, old(r).pos as int, count as nat, Seq::empty()) {
            Some((vars, next)) => res matches Ok(v) && pairs_view(v@) == vars && final(r).pos == next,
            None => res is Err,
        },
{
    let ghost d = r.data@;
    let ghost target = pairs_from(d, r.pos as int, count as nat, Seq::empty());
    let mut vars: Vec<(String, String)> = Vec::new();
    assert(pairs_view(vars@) =~= Seq::empty());
    let mut k: u16 = 0;
    while k < count
        invariant
            k <= count,
            r.same_file(old(r)),
            r.pos <= d.len(),
            d == r.data@,
            target == pairs_from(old(r).data@, old(r).pos as int, count as nat, Seq::empty()),
            target == pairs_from(d, r.pos as int, (count - k) as nat, pairs_view(vars@)),
        decreases count - k,
    {
        let name = r.string()?;
        let value = r.string()?;
        let ghost before = pairs_view(vars@);
        vars.push((name, value));
        proof {
            assert(pairs_view(vars@) =~= before.push((vars@.last().0@, vars@.last().1@)));
        }
        k = k + 1;
    }
    Ok(vars)
}

#[verifier::spinoff_prover]
fn read_state_image(r: &mut Reader) -> (res: Result<StateImage>)
    requires
        old(r).pos <= old(r).data@.len(),
    ensures
        final(r).same_file(old(r)),
        res matches Err(e) ==> e.path@ == old(r).spec_path(),
        match state_image_at(old(r).data@, old(r).pos as int) {
            Some((im, next)) => res matches Ok(v) && v@ == im && final(r).pos == next,
            None => res is Err,
        },
{
    let reference = r.u32()?;
    let handle = r.u16()?;
    let class_name = r.string()?;
    let _stamp = r.u32()?;
    let count = r.u16()?;
    let vars = read_pairs(r, count)?;
    Ok(StateImage { class_name, reference, handle, vars })
}

/// Whether a magic string starts with `SC `.
fn is_state_magic(magic: &str) -> (b: bool)
    ensures
        b == (magic@.len() >= 3 && magic@[0] == 'S' && magic@[1] == 'C' && magic@[2] == ' '),
{
    magic.unicode_len() >= 3 && magic.get_char(0) == 'S' && magic.get_char(1) == 'C'
        && magic.get_char(2) == ' '
}

/// For a file of the typed edition (word 0x3E8): the state its table and
/// values give, the `FLOAT` values as `f` writes them; an error where they
/// give none.
pub open spec fn typed_outcome<F: Fn(u64) -> String>(d: Seq<u8>, f: F, res: Result<State>) -> bool {
    match state_header(d) {
        Some((root, at)) => (!old_edition(d, root, at) && at + 2 <= d.len() && u16_at(d, at) == 0x3e8)
            ==> match typed_images(d, at + 2) {
            Some(srcs) => res matches Ok(s) && s.root@ == root && images_match(f, s.images@, srcs),
            None => res is Err,
        },
        None => true,
    }
}

/// Reads `_preload.stt`. The named edition is read as it stands; in the
/// typed edition (word 0x3E8) the text of a `FLOAT` value is what
/// `float_text` makes of the number's bits. Files of the old edition, which
/// keep variables by index, are refused.
#[verifier::spinoff_prover]
pub fn parse_state<F: Fn(u64) -> String>(data: &[u8], path: &str, float_text: F) -> (res: Result<State>)
    requires
        forall|bits: u64| call_requires(float_text, (bits,)),
    ensures
        res matches Err(e) ==> e.path@ == path@,
        state_header(data@) is None ==> res is Err,
        state_header(data@) matches Some((root, at)) ==> {
            &&& old_edition(data@, root, at) ==> res is Err
            &&& res matches Ok(s) ==> s@.root == root
        },
        named_state_of(data@) matches Some(s) ==> res matches Ok(t) && t@ == s,
        (state_header(data@) matches Some((root, at)) && !old_edition(data@, root, at) && at + 2
            <= data@.len() && u16_at(data@, at) != 0x3e8 && named_state_of(data@) is None)
            ==> res is Err,
        state_header(data@) matches Some((root, at)) ==> (at + 2 > data@.len() ==> (res matches Err(
            e,
        ) && e.offset == at && e.message@ == short_message(2, (data@.len() - at) as nat))),
        typed_outcome(data@, float_text, res),
{
    let mut r = Reader::new(data, path);
    let magic = r.string()?;
    if !is_state_magic(magic.as_str()) {
        let mut m = "не файл состояния: ".to_string();
        m.append(str_debug(magic.as_str()).as_str());
        return r.err(m);
    }
    let root = r.string()?;
    r.u16()?;
    r.u16()?;
    let root_len = cp1251::encode(root.as_str()).len();
    if r.peek_u16(r.pos) == Some((root_len % 65536) as u16) {
        return r.err("старая редакция .stt: переменные хранятся по индексам".to_string());
    }
    let ghost at = r.pos as int;
    let id = r.u16()?;
    if id == 0x3e8 {
        return crate::formats::state_typed::parse_state_typed(&mut r, root, float_text);
    }
    let mut state = State { root, images: Vec::new() };
    assert(images_view(state.images@) =~= Seq::empty());
    let ghost target = state_images_from(data@, at + 2, Seq::empty());
    assert(forall|x: Result<State>| typed_outcome(data@, float_text, x));
    while r.pos <= r.data.len() && r.data.len() - r.pos >= 6
        invariant
            r.data@ == data@,
            r.spec_path() == path@,
            forall|x: Result<State>| typed_outcome(data@, float_text, x),
            r.pos <= data@.len(),
            named_state_of(data@) == match target {
                Some(images) => Some(StateView { root: state@.root, images }),
                None => None,
            },
            target == state_images_from(data@, at + 2, Seq::empty()),
            target == state_images_from(data@, r.pos as int, images_view(state.images@)),
            state_header(data@) matches Some((rt, a)) ==> a + 2 <= data@.len(),
        decreases data@.len() - r.pos,
    {
        let ghost before = images_view(state.images@);
        proof {
            lemma_state_image_bounds(data@, r.pos as int);
            assert(target == match state_image_at(data@, r.pos as int) {
                None => None,
                Some((im, next)) => if r.pos < next <= data@.len() {
                    state_images_from(data@, next, before.push(im))
                } else {
                    None
                },
            });
        }
        let im = read_state_image(&mut r)?;
        state.images.push(im);
        proof {
            assert(images_view(state.images@) =~= before.push(state.images@.last()@));
        }
    }
    Ok(state)
}

/// An image of a snapshot that `write_state` writes and `parse_state` reads
/// back.
pub open spec fn writable_image(im: StateImageView) -> bool {
    &&& fits_string(im.class_name)
    &&& im.vars.len() <= 65535
    &&& forall|i: int| 0 <= i < im.vars.len() ==> fits_string((#[trigger] im.vars[i]).0) && fits_string(
        im.vars[i].1,
    )
}

/// A snapshot that `write_state` writes and `parse_state` reads back: every
/// text fits its field, and the root name is not 1002 characters long (its
/// length would read as the word of the old edition).
pub open spec fn writable_state(s: StateView) -> bool {
    &&& fits_string(s.root)
    &&& s.root.len() != 0x3ea
    &&& forall|i: int| 0 <= i < s.images.len() ==> writable_image(#[trigger] s.images[i])
}

pub proof fn lemma_pairs_bytes_concat(a: Seq<(Seq<char>, Seq<char>)>, b: Seq<(Seq<char>, Seq<char>)>)
    ensures
        pairs_bytes(a + b) == pairs_bytes(a) + pairs_bytes(b),
    decreases b.len(),
{
    if b.len() == 0 {
        assert(a + b =~= a);
        assert(pairs_bytes(a) + pairs_bytes(b) =~= pairs_bytes(a));
    } else {
        lemma_pairs_bytes_concat(a, b.drop_last());
        assert((a + b).drop_last() =~= a + b.drop_last());
        assert((a + b).last() == b.last());
        assert(pairs_bytes(a + b) =~= pairs_bytes(a) + pairs_bytes(b));
    }
}

pub proof fn lemma_images_bytes_concat(a: Seq<StateImageView>, b: Seq<StateImageView>)
    ensures
        state_images_bytes(a + b) == state_images_bytes(a) + state_images_bytes(b),
    decreases b.len(),
{
    if b.len() == 0 {
        assert(a + b =~= a);
        assert(state_images_bytes(a) + state_images_bytes(b) =~= state_images_bytes(a));
    } else {
        lemma_images_bytes_concat(a, b.drop_last());
        assert((a + b).drop_last() =~= a + b.drop_last());
        assert((a + b).last() == b.last());
        assert(state_images_bytes(a + b) =~= state_images_bytes(a) + state_images_bytes(b));
    }
}

#[verifier::spinoff_prover]
#[verifier::rlimit(60)]
pub proof fn lemma_pairs_from(x: Seq<u8>, vs: Seq<(Seq<char>, Seq<char>)>, y: Seq<u8>, acc: Seq<(Seq<char>, Seq<char>)>)
    requires
        forall|i: int| 0 <= i < vs.len() ==> fits_string((#[trigger] vs[i]).0) && fits_string(vs[i].1),
    ensures
        pairs_from(x + pairs_bytes(vs) + y, x.len() as int, vs.len(), acc) == Some(
            (acc + vs, x.len() + pairs_bytes(vs).len() as int),
        ),
    decreases vs.len(),
{
    if vs.len() == 0 {
        assert(acc + vs =~= acc);
    } else {
        let v0 = vs[0];
        let rest = vs.drop_first();
        assert(vs =~= seq![v0] + rest);
        lemma_pairs_bytes_concat(seq![v0], rest);
        assert(seq![v0].drop_last() =~= Seq::<(Seq<char>, Seq<char>)>::empty());
        assert(seq![v0].last() == v0);
        assert(pairs_bytes(Seq::<(Seq<char>, Seq<char>)>::empty()) =~= Seq::<u8>::empty());
        let one = string_bytes(v0.0) + string_bytes(v0.1);
        assert(pairs_bytes(seq![v0]) =~= one);
        let d = x + pairs_bytes(vs) + y;
        assert(fits_string(vs[0].0) && fits_string(vs[0].1));
        assert(d =~= x + string_bytes(v0.0) + (string_bytes(v0.1) + pairs_bytes(rest) + y));
        lemma_string_at(x, v0.0, string_bytes(v0.1) + pairs_bytes(rest) + y);
        assert(d =~= (x + string_bytes(v0.0)) + string_bytes(v0.1) + (pairs_bytes(rest) + y));
        lemma_string_at(x + string_bytes(v0.0), v0.1, pairs_bytes(rest) + y);
        assert forall|i: int| 0 <= i < rest.len() implies fits_string((#[trigger] rest[i]).0)
            && fits_string(rest[i].1) by {
            assert(rest[i] == vs[i + 1]);
        }
        lemma_pairs_from(x + one, rest, y, acc.push(v0));
        assert(d =~= (x + one) + pairs_bytes(rest) + y);
        assert(acc.push(v0) + rest =~= acc + vs);
    }
}

#[verifier::spinoff_prover]
#[verifier::rlimit(60)]
pub proof fn lemma_state_image_at(a: Seq<u8>, im: StateImageView, c: Seq<u8>)
    requires
        writable_image(im),
    ensures
        state_image_at(a + state_image_bytes(im) + c, a.len() as int) == Some(
            (im, a.len() + state_image_bytes(im).len() as int),
        ),
{
    let d = a + state_image_bytes(im) + c;
    let pos = a.len() as int;
    let n = im.vars.len() as u16;
    let tail = string_bytes(im.class_name) + le32_bytes(0) + le16_bytes(n) + pairs_bytes(im.vars) + c;
    assert(d =~= a + le32_bytes(im.reference) + (le16_bytes(im.handle) + tail));
    law_u32_round_trip(a, im.reference, le16_bytes(im.handle) + tail);
    let a2 = a + le32_bytes(im.reference);
    assert(d =~= a2 + le16_bytes(im.handle) + tail);
    law_u16_round_trip(a2, im.handle, tail);
    let a3 = a2 + le16_bytes(im.handle);
    assert(d =~= a3 + string_bytes(im.class_name) + (le32_bytes(0) + le16_bytes(n) + pairs_bytes(im.vars) + c));
    lemma_string_at(a3, im.class_name, le32_bytes(0) + le16_bytes(n) + pairs_bytes(im.vars) + c);
    let a4 = a3 + string_bytes(im.class_name) + le32_bytes(0);
    assert(d =~= a4 + le16_bytes(n) + (pairs_bytes(im.vars) + c));
    law_u16_round_trip(a4, n, pairs_bytes(im.vars) + c);
    let a5 = a4 + le16_bytes(n);
    assert(d =~= a5 + pairs_bytes(im.vars) + c);
    lemma_pairs_from(a5, im.vars, c, Seq::empty());
    assert(Seq::<(Seq<char>, Seq<char>)>::empty() + im.vars =~= im.vars);
}

proof fn lemma_image_len(im: StateImageView)
    ensures
        state_image_bytes(im).len() >= 14,
{
}

proof fn lemma_images_bytes_first(ims: Seq<StateImageView>)
    requires
        ims.len() > 0,
    ensures
        state_images_bytes(ims) == state_image_bytes(ims[0]) + state_images_bytes(ims.drop_first()),
{
    let i0 = ims[0];
    let rest = ims.drop_first();
    assert(ims =~= seq![i0] + rest);
    lemma_images_bytes_concat(seq![i0], rest);
    assert(seq![i0].drop_last() =~= Seq::<StateImageView>::empty());
    assert(seq![i0].last() == i0);
    assert(state_images_bytes(Seq::<StateImageView>::empty()) =~= Seq::<u8>::empty());
    assert(state_images_bytes(seq![i0]) =~= state_image_bytes(i0));
}

#[verifier::spinoff_prover]
#[verifier::rlimit(60)]
pub proof fn lemma_state_images_from(x: Seq<u8>, ims: Seq<StateImageView>, acc: Seq<StateImageView>)
    requires
        forall|i: int| 0 <= i < ims.len() ==> writable_image(#[trigger] ims[i]),
    ensures
        state_images_from(x + state_images_bytes(ims) + le16_bytes(0), x.len() as int, acc) == Some(
            acc + ims,
        ),
    decreases ims.len(),
{
    let d = x + state_images_bytes(ims) + le16_bytes(0);
    if ims.len() == 0 {
        assert(acc + ims =~= acc);
        assert(d.len() == x.len() + 2);
    } else {
        let i0 = ims[0];
        let rest = ims.drop_first();
        lemma_images_bytes_first(ims);
        assert(writable_image(ims[0]));
        lemma_image_len(i0);
        let a = state_image_bytes(i0);
        let r = state_images_bytes(rest);
        let z = le16_bytes(0);
        assert(state_images_bytes(ims) == a + r);
        vstd::seq_lib::lemma_concat_associative(x, a, r);
        vstd::seq_lib::lemma_concat_associative(x + a, r, z);
        assert(d == x + a + (r + z));
        lemma_state_image_at(x, i0, r + z);
        assert forall|i: int| 0 <= i < rest.len() implies writable_image(#[trigger] rest[i]) by {
            assert(rest[i] == ims[i + 1]);
        }
        lemma_state_images_from(x + state_image_bytes(i0), rest, acc.push(i0));
        assert(d == (x + a) + r + z);
        assert(acc.push(i0) + rest =~= acc + ims);
    }
}

proof fn lemma_magic()
    ensures
        fits_string(state_magic()),
        state_magic().len() >= 3,
        state_magic()[0] == 'S' && state_magic()[1] == 'C' && state_magic()[2] == ' ',
{
    reveal_strlit("SC Scheme Variables");
    let m = state_magic();
    assert forall|i: int| 0 <= i < m.len() implies (#[trigger] cp1251::byte_of(m[i])) is Some by {
    }
}

#[verifier::spinoff_prover]
#[verifier::rlimit(60)]
proof fn lemma_state_header(root: Seq<char>, rest: Seq<u8>)
    requires
        fits_string(root),
        root.len() != 0x3ea,
    ensures
        ({
            let d = string_bytes(state_magic()) + string_bytes(root) + le16_bytes(0x28) + le16_bytes(2)
                + le16_bytes(0x3ea) + rest;
            let at = string_bytes(state_magic()).len() + string_bytes(root).len() + 4;
            &&& state_header(d) == Some((root, at as int))
            &&& !old_edition(d, root, at as int)
            &&& u16_at(d, at as int) == 0x3ea
        }),
{
    lemma_magic();
    let m = state_magic();
    let d = string_bytes(m) + string_bytes(root) + le16_bytes(0x28) + le16_bytes(2) + le16_bytes(0x3ea) + rest;
    let words = le16_bytes(0x28) + le16_bytes(2);
    assert(d =~= Seq::<u8>::empty() + string_bytes(m) + (string_bytes(root) + words + le16_bytes(0x3ea) + rest));
    lemma_string_at(Seq::empty(), m, string_bytes(root) + words + le16_bytes(0x3ea) + rest);
    let a1 = string_bytes(m);
    assert(d =~= a1 + string_bytes(root) + (words + le16_bytes(0x3ea) + rest));
    lemma_string_at(a1, root, words + le16_bytes(0x3ea) + rest);
    let a2 = a1 + string_bytes(root) + words;
    assert(d =~= a2 + le16_bytes(0x3ea) + rest);
    law_u16_round_trip(a2, 0x3ea, rest);
}

/// A snapshot written by `write_state` reads back, by `parse_state`, as the
/// same snapshot (named edition).
#[verifier::spinoff_prover]
#[verifier::rlimit(60)]
pub proof fn law_state_round_trip(s: StateView)
    requires
        writable_state(s),
    ensures
        named_state_of(state_bytes(s)) == Some(s),
{
    let m = state_magic();
    let d = state_bytes(s);
    let tail = state_images_bytes(s.images) + le16_bytes(0);
    let x = string_bytes(m) + string_bytes(s.root) + le16_bytes(0x28) + le16_bytes(2) + le16_bytes(0x3ea);
    assert(d =~= x + tail);
    lemma_state_header(s.root, tail);
    assert(d =~= x + state_images_bytes(s.images) + le16_bytes(0));
    lemma_state_images_from(x, s.images, Seq::empty());
    assert(Seq::<StateImageView>::empty() + s.images =~= s.images);
}

} // verus!
