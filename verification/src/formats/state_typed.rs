//! The typed edition (0x3E8) of `_preload.stt`, which `SaveObjectState`
//! of Stratum 2000 writes.
//!
//! First a table of "classes" that also holds the types (`HANDLE`,
//! `STRING`, `FLOAT`, `COLORREF`): name, time stamp, number of variables,
//! number of children, size; pairs (child handle, class number); variables
//! (name, number of its type in the same table). Then the marker 0x3E9 and
//! the values of the instances, depth first from the root: `FLOAT` eight
//! bytes of a number, `STRING` a string, anything else a `u32`.

use vstd::prelude::*;
use crate::formats::project::{State, StateImage};
use crate::formats::reader::{le_u64, string_at, u16_at, u32_at, Reader, Result};
use crate::numtext::decimal;

verus! {

/// A class of the table: its name, its children (handle, class number) and
/// its variables (name, number of the type).
pub struct EntryView {
    pub name: Seq<char>,
    pub kids: Seq<(u16, u16)>,
    pub vars: Seq<(Seq<char>, u16)>,
}

pub open spec fn kids_from(d: Seq<u8>, pos: int, n: nat, acc: Seq<(u16, u16)>) -> Option<(Seq<(u16, u16)>, int)>
    decreases n,
{
    if n == 0 {
        Some((acc, pos))
    } else if pos < 0 || pos + 4 > d.len() {
        None
    } else {
        kids_from(d, pos + 4, (n - 1) as nat, acc.push((u16_at(d, pos), u16_at(d, pos + 2))))
    }
}

pub open spec fn typed_vars_from(d: Seq<u8>, pos: int, n: nat, acc: Seq<(Seq<char>, u16)>) -> Option<
    (Seq<(Seq<char>, u16)>, int),
>
    decreases n,
{
    if n == 0 {
        Some((acc, pos))
    } else {
        match string_at(d, pos) {
            None => None,
            Some((name, at)) => if at + 2 > d.len() {
                None
            } else {
                typed_vars_from(d, at + 2, (n - 1) as nat, acc.push((name, u16_at(d, at))))
            },
        }
    }
}

/// One class of the table: name, stamp, numbers of variables and children,
/// size, children, variables.
pub open spec fn entry_at(d: Seq<u8>, pos: int) -> Option<(EntryView, int)> {
    match string_at(d, pos) {
        None => None,
        Some((name, at)) => if at + 10 > d.len() {
            None
        } else {
            match kids_from(d, at + 10, u16_at(d, at + 6) as nat, Seq::empty()) {
                None => None,
                Some((kids, p2)) => match typed_vars_from(d, p2, u16_at(d, at + 4) as nat, Seq::empty()) {
                    None => None,
                    Some((vars, p3)) => Some((EntryView { name, kids, vars }, p3)),
                },
            }
        },
    }
}

pub open spec fn table_from(d: Seq<u8>, pos: int, n: nat, acc: Seq<EntryView>) -> Option<(Seq<EntryView>, int)>
    decreases n,
{
    if n == 0 {
        Some((acc, pos))
    } else {
        match entry_at(d, pos) {
            None => None,
            Some((e, next)) => table_from(d, next, (n - 1) as nat, acc.push(e)),
        }
    }
}

/// Where the value of a variable comes from: a text as it stands, or the
/// bits of a `FLOAT` to be written as text.
pub enum ValueSource {
    Text(Seq<char>),
    Float(u64),
}

/// An instance of a class with the sources of its values.
pub struct ImageSource {
    pub class_name: Seq<char>,
    pub reference: u32,
    pub handle: u16,
    pub vars: Seq<(Seq<char>, ValueSource)>,
}

/// The values of the variables from the `j`-th on, after `acc`.
pub open spec fn values_from(
    d: Seq<u8>,
    pos: int,
    table: Seq<EntryView>,
    vars: Seq<(Seq<char>, u16)>,
    j: int,
    acc: Seq<(Seq<char>, ValueSource)>,
) -> Option<(Seq<(Seq<char>, ValueSource)>, int)>
    decreases vars.len() - j,
{
    if j < 0 || j >= vars.len() {
        Some((acc, pos))
    } else {
        let name = vars[j].0;
        let ty = vars[j].1 as int;
        if ty < table.len() && table[ty].name == "STRING"@ {
            match string_at(d, pos) {
                None => None,
                Some((s, at)) => values_from(d, at, table, vars, j + 1, acc.push((name, ValueSource::Text(s)))),
            }
        } else if ty < table.len() && table[ty].name == "FLOAT"@ {
            if pos < 0 || pos + 8 > d.len() {
                None
            } else {
                values_from(
                    d,
                    pos + 8,
                    table,
                    vars,
                    j + 1,
                    acc.push((name, ValueSource::Float(le_u64(d.subrange(pos, pos + 8))))),
                )
            }
        } else if pos < 0 || pos + 4 > d.len() {
            None
        } else {
            values_from(
                d,
                pos + 4,
                table,
                vars,
                j + 1,
                acc.push((name, ValueSource::Text(decimal(u32_at(d, pos) as nat)))),
            )
        }
    }
}

/// The children of a class as they go on the stack: the last first, so
/// that the first comes off first; (class number, handle).
pub open spec fn kids_pushed(kids: Seq<(u16, u16)>) -> Seq<(int, u16)> {
    Seq::new(kids.len(), |i: int| (kids[kids.len() - 1 - i].1 as int, kids[kids.len() - 1 - i].0))
}

/// The instances depth first: take the top of the stack (class number,
/// handle), read its values, and put its children on the stack. `fuel`
/// bounds the instances by what a vector can hold.
pub open spec fn walk(
    d: Seq<u8>,
    pos: int,
    table: Seq<EntryView>,
    stack: Seq<(int, u16)>,
    images: Seq<ImageSource>,
    fuel: nat,
) -> Option<Seq<ImageSource>>
    decreases fuel,
{
    if stack.len() == 0 {
        Some(images)
    } else if fuel == 0 {
        None
    } else {
        let ci = stack.last().0;
        let handle = stack.last().1;
        if ci < 0 || ci >= table.len() {
            None
        } else {
            let e = table[ci];
            match values_from(d, pos, table, e.vars, 0, Seq::empty()) {
                None => None,
                Some((vals, p2)) => walk(
                    d,
                    p2,
                    table,
                    stack.drop_last() + kids_pushed(e.kids),
                    images.push(
                        ImageSource {
                            class_name: e.name,
                            reference: (images.len() % 4294967296) as u32,
                            handle,
                            vars: vals,
                        },
                    ),
                    (fuel - 1) as nat,
                ),
            }
        }
    }
}

/// The instances of a file of the typed edition, from just after its
/// edition word: the number of classes, the table, the marker 0x3E9, then
/// the values from the root (class 0, handle 0) on.
pub open spec fn typed_images(d: Seq<u8>, pos: int) -> Option<Seq<ImageSource>> {
    if pos < 0 || pos + 2 > d.len() {
        None
    } else {
        match table_from(d, pos + 2, u16_at(d, pos) as nat, Seq::empty()) {
            None => None,
            Some((table, p)) => if p + 2 > d.len() || u16_at(d, p) != 0x3e9 {
                None
            } else {
                walk(d, p + 2, table, seq![(0int, 0u16)], Seq::empty(), usize::MAX as nat)
            },
        }
    }
}

/// A value read, against its source: the text, or what `float_text` gave
/// for the bits.
pub open spec fn value_matches<F: Fn(u64) -> String>(f: F, v: String, src: ValueSource) -> bool {
    match src {
        ValueSource::Text(t) => v@ == t,
        ValueSource::Float(b) => call_ensures(f, (b,), v),
    }
}

pub open spec fn vars_match<F: Fn(u64) -> String>(
    f: F,
    vars: Seq<(String, String)>,
    srcs: Seq<(Seq<char>, ValueSource)>,
) -> bool {
    &&& vars.len() == srcs.len()
    &&& forall|j: int|
        0 <= j < srcs.len() ==> (#[trigger] vars[j]).0@ == srcs[j].0 && value_matches(f, vars[j].1, srcs[j].1)
}

pub open spec fn image_matches<F: Fn(u64) -> String>(f: F, im: StateImage, src: ImageSource) -> bool {
    &&& im.class_name@ == src.class_name
    &&& im.reference == src.reference
    &&& im.handle == src.handle
    &&& vars_match(f, im.vars@, src.vars)
}

/// The instances read, against their sources.
pub open spec fn images_match<F: Fn(u64) -> String>(f: F, ims: Seq<StateImage>, srcs: Seq<ImageSource>) -> bool {
    &&& ims.len() == srcs.len()
    &&& forall|k: int| 0 <= k < srcs.len() ==> image_matches(f, #[trigger] ims[k], srcs[k])
}

/// A class (or type) of the table of the typed edition.
struct TableEntry {
    name: String,
    kids: Vec<(u16, u16)>,
    vars: Vec<(String, u16)>,
}

spec fn typed_vars_view(v: Seq<(String, u16)>) -> Seq<(Seq<char>, u16)> {
    v.map_values(|p: (String, u16)| (p.0@, p.1))
}

spec fn entry_view(e: TableEntry) -> EntryView {
    EntryView { name: e.name@, kids: e.kids@, vars: typed_vars_view(e.vars@) }
}

spec fn table_view(t: Seq<TableEntry>) -> Seq<EntryView> {
    t.map_values(|e: TableEntry| entry_view(e))
}

spec fn stack_view(s: Seq<(usize, u16)>) -> Seq<(int, u16)> {
    s.map_values(|p: (usize, u16)| (p.0 as int, p.1))
}

fn read_table_entry(r: &mut Reader) -> (res: Result<TableEntry>)
    requires
        old(r).pos <= old(r).data@.len(),
    ensures
        final(r).same_file(old(r)),
        final(r).pos <= final(r).data@.len(),
        res matches Err(e) ==> e.path@ == old(r).spec_path(),
        match entry_at(old(r).data@, old(r).pos as int) {
            Some((e, next)) => res matches Ok(x) && entry_view(x) == e && final(r).pos == next,
            None => res is Err,
        },
{
    let ghost d = r.data@;
    let ghost whole = entry_at(d, r.pos as int);
    let name = r.string()?;
    let ghost at = r.pos as int;
    let _stamp = r.u32()?;
    let nvars = r.u16()?;
    let nkids = r.u16()?;
    let _size = r.u16()?;
    assert(at + 10 <= d.len());
    assert(nvars == u16_at(d, at + 4));
    assert(nkids == u16_at(d, at + 6));
    let ghost kt = kids_from(d, r.pos as int, nkids as nat, Seq::empty());
    assert(whole == match kt {
        None => None,
        Some((kids, p2)) => match typed_vars_from(d, p2, nvars as nat, Seq::empty()) {
            None => None,
            Some((vars, p3)) => Some((EntryView { name: name@, kids, vars }, p3)),
        },
    });
    let mut kids: Vec<(u16, u16)> = Vec::new();
    let mut k: u16 = 0;
    while k < nkids
        invariant
            k <= nkids,
            r.same_file(old(r)),
            r.pos <= r.data@.len(),
            d == r.data@,
            kt == kids_from(d, r.pos as int, (nkids - k) as nat, kids@),
            whole == entry_at(old(r).data@, old(r).pos as int),
            whole == match kt {
                None => None,
                Some((kids, p2)) => match typed_vars_from(d, p2, nvars as nat, Seq::empty()) {
                    None => None,
                    Some((vars, p3)) => Some((EntryView { name: name@, kids, vars }, p3)),
                },
            },
        decreases nkids - k,
    {
        let h = r.u16()?;
        let c = r.u16()?;
        kids.push((h, c));
        k = k + 1;
    }
    let ghost vt = typed_vars_from(d, r.pos as int, nvars as nat, Seq::empty());
    assert(whole == match vt {
        None => None,
        Some((vars, p3)) => Some((EntryView { name: name@, kids: kids@, vars }, p3)),
    });
    let mut vars: Vec<(String, u16)> = Vec::new();
    assert(typed_vars_view(vars@) =~= Seq::empty());
    let mut k: u16 = 0;
    while k < nvars
        invariant
            k <= nvars,
            r.same_file(old(r)),
            r.pos <= r.data@.len(),
            d == r.data@,
            vt == typed_vars_from(d, r.pos as int, (nvars - k) as nat, typed_vars_view(vars@)),
            whole == entry_at(old(r).data@, old(r).pos as int),
            whole == match vt {
                None => None,
                Some((vars, p3)) => Some((EntryView { name: name@, kids: kids@, vars }, p3)),
            },
        decreases nvars - k,
    {
        let n = r.string()?;
        let t = r.u16()?;
        let ghost before = vars@;
        vars.push((n, t));
        assert(typed_vars_view(vars@) =~= typed_vars_view(before).push((vars@.last().0@, t)));
        k = k + 1;
    }
    Ok(TableEntry { name, kids, vars })
}

/// Whether a table entry has the given name.
fn name_is(e: &TableEntry, word: &str) -> (b: bool)
    ensures
        b == (e.name@ == word@),
{
    crate::text::str_same(e.name.as_str(), word)
}

/// Reads the typed edition from just after its edition word: the root keeps
/// the name `root`; a `FLOAT` value is what `float_text` makes of its bits.
#[verifier::spinoff_prover]
pub(crate) fn parse_state_typed<F: Fn(u64) -> String>(r: &mut Reader, root: String, float_text: F) -> (res:
    Result<State>)
    requires
        old(r).pos <= old(r).data@.len(),
        forall|bits: u64| call_requires(float_text, (bits,)),
    ensures
        res matches Err(e) ==> e.path@ == old(r).spec_path(),
        match typed_images(old(r).data@, old(r).pos as int) {
            Some(srcs) => res matches Ok(s) && s.root@ == root@ && images_match(float_text, s.images@, srcs),
            None => res is Err,
        },
{
    let ghost d = r.data@;
    let ghost whole = typed_images(d, r.pos as int);
    let count = r.u16()?;
    let ghost tt = table_from(d, r.pos as int, count as nat, Seq::empty());
    assert(whole == match tt {
        None => None,
        Some((table, p)) => if p + 2 > d.len() || u16_at(d, p) != 0x3e9 {
            None
        } else {
            walk(d, p + 2, table, seq![(0int, 0u16)], Seq::empty(), usize::MAX as nat)
        },
    });
    let mut table: Vec<TableEntry> = Vec::new();
    assert(table_view(table@) =~= Seq::empty());
    let mut k: u16 = 0;
    while k < count
        invariant
            k <= count,
            r.same_file(old(r)),
            r.pos <= r.data@.len(),
            d == r.data@,
            tt == table_from(d, r.pos as int, (count - k) as nat, table_view(table@)),
            whole == typed_images(old(r).data@, old(r).pos as int),
            whole == match tt {
                None => None,
                Some((table, p)) => if p + 2 > d.len() || u16_at(d, p) != 0x3e9 {
                    None
                } else {
                    walk(d, p + 2, table, seq![(0int, 0u16)], Seq::empty(), usize::MAX as nat)
                },
            },
        decreases count - k,
    {
        let e = read_table_entry(r)?;
        let ghost before = table@;
        table.push(e);
        assert(table_view(table@) =~= table_view(before).push(entry_view(table@.last())));
        k = k + 1;
    }
    let ghost tbl = table_view(table@);
    let marker = r.u16()?;
    if marker != 0x3e9 {
        let mut m = "старая редакция .stt: ожидался маркер данных 0x3e9, а не 0x".to_string();
        crate::numtext::push_hex(&mut m, marker as u64);
        return r.err(m);
    }
    let mut state = State { root, images: Vec::new() };
    // depth first from the root (entry 0), as Stratum 2000 writes it
    let mut stack: Vec<(usize, u16)> = Vec::new();
    stack.push((0, 0));
    let ghost mut srcs: Seq<ImageSource> = Seq::empty();
    assert(stack_view(stack@) =~= seq![(0int, 0u16)]);
    let ghost target = walk(d, r.pos as int, tbl, stack_view(stack@), srcs, usize::MAX as nat);
    assert(whole == target);
    while stack.len() > 0
        invariant
            r.same_file(old(r)),
            r.pos <= r.data@.len(),
            d == r.data@,
            tbl == table_view(table@),
            state.root@ == root@,
            forall|bits: u64| call_requires(float_text, (bits,)),
            images_match(float_text, state.images@, srcs),
            whole == typed_images(old(r).data@, old(r).pos as int),
            whole == target,
            target == walk(d, r.pos as int, tbl, stack_view(stack@), srcs, (usize::MAX - state.images.len()) as nat),
        decreases usize::MAX - state.images.len(),
    {
        let ghost sv = stack_view(stack@);
        let ghost fuel = (usize::MAX - state.images.len()) as nat;
        let (ci, handle) = stack.pop().unwrap();
        assert(stack_view(stack@) =~= sv.drop_last());
        if ci >= table.len() {
            let mut m = "нет записи класса ".to_string();
            crate::numtext::push_decimal(&mut m, ci as u64);
            return r.err(m);
        }
        let e = &table[ci];
        let ghost ev = tbl[ci as int];
        assert(ev == entry_view(*e));
        let ghost vt = values_from(d, r.pos as int, tbl, ev.vars, 0, Seq::empty());
        assert(vt is None ==> whole is None) by {
            if fuel > 0 {
                assert(sv.last() == (ci as int, handle));
            }
        }
        let ghost mut acc: Seq<(Seq<char>, ValueSource)> = Seq::empty();
        let mut vars: Vec<(String, String)> = Vec::new();
        let mut j: usize = 0;
        while j < e.vars.len()
            invariant
                j <= e.vars.len(),
                r.same_file(old(r)),
                r.pos <= r.data@.len(),
                d == r.data@,
                tbl == table_view(table@),
                ev == entry_view(*e),
                forall|bits: u64| call_requires(float_text, (bits,)),
                vars_match(float_text, vars@, acc),
                vt == values_from(d, r.pos as int, tbl, ev.vars, j as int, acc),
                vt is None ==> whole is None,
                whole == typed_images(old(r).data@, old(r).pos as int),
            decreases e.vars.len() - j,
        {
            let ty = e.vars[j].1 as usize;
            assert(ev.vars[j as int] == (e.vars@[j as int].0@, e.vars@[j as int].1));
            let value = if ty < table.len() && name_is(&table[ty], "STRING") {
                let s = r.string()?;
                proof {
                    acc = acc.push((ev.vars[j as int].0, ValueSource::Text(s@)));
                }
                s
            } else if ty < table.len() && name_is(&table[ty], "FLOAT") {
                let ghost p = r.pos as int;
                let bits = r.u64()?;
                let t = float_text(bits);
                proof {
                    acc = acc.push((ev.vars[j as int].0, ValueSource::Float(bits)));
                }
                t
            } else {
                let ghost p = r.pos as int;
                let v = r.u32()?;
                let t = crate::numtext::decimal_text(v as u64);
                proof {
                    acc = acc.push((ev.vars[j as int].0, ValueSource::Text(t@)));
                }
                t
            };
            let ghost before = vars@;
            vars.push((e.vars[j].0.clone(), value));
            assert(vars_match(float_text, vars@, acc)) by {
                assert forall|q: int| 0 <= q < acc.len() implies (#[trigger] vars@[q]).0@ == acc[q].0
                    && value_matches(float_text, vars@[q].1, acc[q].1) by {
                    if q < before.len() {
                        assert(vars@[q] == before[q]);
                    }
                }
            }
            j = j + 1;
        }
        let reference = ((state.images.len() as u64) % 4294967296) as u32;
        let ghost src = ImageSource {
            class_name: ev.name,
            reference: (srcs.len() % 4294967296) as u32,
            handle,
            vars: acc,
        };
        let ghost before_ims = state.images@;
        state.images.push(StateImage { class_name: e.name.clone(), reference, handle, vars });
        proof {
            assert(images_match(float_text, state.images@, srcs.push(src))) by {
                assert forall|q: int| 0 <= q < srcs.len() + 1 implies image_matches(
                    float_text,
                    #[trigger] state.images@[q],
                    srcs.push(src)[q],
                ) by {
                    if q < srcs.len() {
                        assert(state.images@[q] == before_ims[q]);
                    }
                }
            }
            srcs = srcs.push(src);
        }
        let ghost base = stack_view(stack@);
        let mut q: usize = e.kids.len();
        while q > 0
            invariant
                q <= e.kids.len(),
                ev == entry_view(*e),
                stack_view(stack@) == base + kids_pushed(ev.kids).subrange(0, ev.kids.len() - q),
            decreases q,
        {
            q = q - 1;
            let (h, c) = e.kids[q];
            let ghost b2 = stack_view(stack@);
            stack.push((c as usize, h));
            assert(stack_view(stack@) =~= b2.push((c as int, h)));
            assert(kids_pushed(ev.kids).subrange(0, ev.kids.len() - q) =~= kids_pushed(ev.kids).subrange(
                0,
                ev.kids.len() - q - 1,
            ).push((c as int, h)));
        }
        assert(kids_pushed(ev.kids).subrange(0, ev.kids.len() as int) =~= kids_pushed(ev.kids));
    }
    Ok(state)
}

} // verus!
