//! Hyperlinks and the other per-object data of the vector pictures of
//! Stratum 2000 (the `0x03FE` block of an object).
//!
//! The data of an object: `u16 version, u16 5, u16 2, u8 number of items`,
//! then the items `u16 id, u16 length, bytes`. A hyperlink is the item
//! `0x0a`, which holds fields `u16 id` + value: 1 — target (string), 4 — mode
//! (`u16`); an absent field keeps its default (mode 0, "open a window").
//! Ids 2, 3, 5 (window, object, effect) follow the order of the arguments of
//! `SetHyperJump2d`. The item `0x0d` holds the variables of the object, a
//! text ending in zero.

use vstd::prelude::*;
use crate::formats::cp1251;
use crate::formats::reader::{before_nul, lemma_before_nul, le_u64, split_nul, string_at, u16_at, u16_from, u32_at, u32_from, Reader, Result};
use crate::numfloat::double_bits_of_int;
use crate::formats::writer::{law_u16_round_trip, law_u32_round_trip, law_u64_round_trip, le16, le16_bytes, le32_bytes, le64_bytes, string_bytes, Writer};
use vstd::slice::{slice_subrange, slice_to_vec};

verus! {

/// Hyperlink of a graphic object.
#[derive(Debug, Clone, PartialEq, Eq)]
pub struct Hyper {
    /// 0 — open a window, 1 — run a program, 2 — load a project, 3 — do
    /// nothing, 4 — system command.
    pub mode: i32,
    pub target: String,
    pub window: String,
    pub object: String,
    pub effect: String,
}

pub struct HyperView {
    pub mode: i32,
    pub target: Seq<char>,
    pub window: Seq<char>,
    pub object: Seq<char>,
    pub effect: Seq<char>,
}

impl View for Hyper {
    type V = HyperView;

    open spec fn view(&self) -> HyperView {
        HyperView {
            mode: self.mode,
            target: self.target@,
            window: self.window@,
            object: self.object@,
            effect: self.effect@,
        }
    }
}

impl Hyper {
    /// The hyperlink with every field at its default.
    pub fn new() -> (h: Hyper)
        ensures
            h@ == empty_hyper(),
    {
        Hyper {
            mode: 0,
            target: String::new(),
            window: String::new(),
            object: String::new(),
            effect: String::new(),
        }
    }
}

impl Default for Hyper {
    fn default() -> (h: Hyper)
        ensures
            h@ == empty_hyper(),
    {
        Hyper::new()
    }
}

pub open spec fn empty_hyper() -> HyperView {
    HyperView {
        mode: 0,
        target: Seq::empty(),
        window: Seq::empty(),
        object: Seq::empty(),
        effect: Seq::empty(),
    }
}

/// The head of object data that has nothing but a hyperlink.
pub open spec fn hyper_head() -> Seq<u8> {
    seq![1u8, 0, 5, 0, 2, 0, 1]
}

/// Where the items of object data end, starting at `i` with `count` left;
/// `None` where a length field is cut off.
pub open spec fn items_end(d: Seq<u8>, i: int, count: nat) -> Option<int>
    decreases count,
{
    if count == 0 {
        Some(i)
    } else if i < 0 || i + 4 > d.len() {
        None
    } else {
        items_end(d, i + 4 + u16_at(d, i + 2), (count - 1) as nat)
    }
}

/// Length of object data from its start; `None` — it is not object data.
pub open spec fn data_len(d: Seq<u8>) -> Option<int> {
    if d.len() <= 6 {
        None
    } else {
        match items_end(d, 7, d[6] as nat) {
            Some(e) => if e <= d.len() {
                Some(e)
            } else {
                None
            },
            None => None,
        }
    }
}

/// The items of well-formed object data, from `i` with `count` left.
pub open spec fn items_from(d: Seq<u8>, i: int, count: nat) -> Seq<(u16, Seq<u8>)>
    decreases count,
{
    if count == 0 || i < 0 || i + 4 > d.len() {
        Seq::empty()
    } else {
        let n = u16_at(d, i + 2) as int;
        seq![(u16_at(d, i), d.subrange(i + 4, i + 4 + n))] + items_from(d, i + 4 + n, (count - 1) as nat)
    }
}

/// The items of object data: id → bytes; none when it is not object data.
pub open spec fn data_items(d: Seq<u8>) -> Seq<(u16, Seq<u8>)> {
    if data_len(d) is Some {
        items_from(d, 7, d[6] as nat)
    } else {
        Seq::empty()
    }
}

/// One item as written: id, length, bytes.
pub open spec fn item_bytes(item: (u16, Seq<u8>)) -> Seq<u8> {
    le16_bytes(item.0) + le16_bytes((item.1.len() % 65536) as u16) + item.1
}

pub open spec fn items_bytes(items: Seq<(u16, Seq<u8>)>) -> Seq<u8>
    decreases items.len(),
{
    if items.len() == 0 {
        Seq::empty()
    } else {
        items_bytes(items.drop_last()) + item_bytes(items.last())
    }
}

/// The items without those of the given id, in their order.
pub open spec fn without_id(items: Seq<(u16, Seq<u8>)>, id: u16) -> Seq<(u16, Seq<u8>)>
    decreases items.len(),
{
    if items.len() == 0 {
        items
    } else if items.last().0 == id {
        without_id(items.drop_last(), id)
    } else {
        without_id(items.drop_last(), id).push(items.last())
    }
}

/// The bytes of the first item with the given id.
pub open spec fn first_with_id(items: Seq<(u16, Seq<u8>)>, id: u16) -> Option<Seq<u8>>
    decreases items.len(),
{
    if items.len() == 0 {
        None
    } else if items[0].0 == id {
        Some(items[0].1)
    } else {
        first_with_id(items.drop_first(), id)
    }
}

/// Object data made of a head and items: the head with its count set.
pub open spec fn data_of(head: Seq<u8>, items: Seq<(u16, Seq<u8>)>) -> Seq<u8> {
    head.update(6, (items.len() % 256) as u8) + items_bytes(items)
}

/// The head kept from `raw` when it is object data, else the head of a
/// lone hyperlink.
pub open spec fn kept_head(raw: Option<Seq<u8>>) -> Seq<u8> {
    match raw {
        Some(r) => if data_len(r) is Some {
            r.take(7)
        } else {
            hyper_head()
        },
        None => hyper_head(),
    }
}

/// The items of `raw`, none where it is missing or not object data.
pub open spec fn raw_items(raw: Option<Seq<u8>>) -> Seq<(u16, Seq<u8>)> {
    match raw {
        Some(r) => data_items(r),
        None => Seq::empty(),
    }
}

/// Looks through `count` items from `at` for the last hyperlink item;
/// outer `None` — an item's head is cut off, or the hyperlink's bytes are.
pub open spec fn find_hyper(d: Seq<u8>, at: int, count: nat, item: Option<Seq<u8>>) -> Option<
    Option<Seq<u8>>,
>
    decreases count,
{
    if count == 0 {
        Some(item)
    } else if at < 0 || at + 4 > d.len() {
        None
    } else {
        let n = u16_at(d, at + 2) as int;
        if u16_at(d, at) == 0x0a {
            if at + 4 + n > d.len() {
                None
            } else {
                find_hyper(d, at + 4 + n, (count - 1) as nat, Some(d.subrange(at + 4, at + 4 + n)))
            }
        } else {
            find_hyper(d, at + 4 + n, (count - 1) as nat, item)
        }
    }
}

/// The fields of a hyperlink item from `i` on, added to `h`. An unknown
/// field ends the reading; a cut-off field spoils it.
pub open spec fn hyper_fields(b: Seq<u8>, i: int, h: HyperView) -> Option<HyperView>
    decreases b.len() - i,
{
    if i < 0 || i + 2 > b.len() {
        Some(h)
    } else {
        let id = u16_at(b, i);
        let j = i + 2;
        if j + 2 > b.len() {
            None
        } else if id == 4 {
            hyper_fields(b, j + 2, HyperView { mode: u16_at(b, j) as i32, ..h })
        } else {
            let n = u16_at(b, j) as int;
            if j + 2 + n > b.len() {
                None
            } else {
                let text = cp1251::decoded(b.subrange(j + 2, j + 2 + n));
                let k = j + 2 + n;
                if id == 1 {
                    hyper_fields(b, k, HyperView { target: text, ..h })
                } else if id == 2 {
                    hyper_fields(b, k, HyperView { window: text, ..h })
                } else if id == 3 {
                    hyper_fields(b, k, HyperView { object: text, ..h })
                } else if id == 5 {
                    hyper_fields(b, k, HyperView { effect: text, ..h })
                } else {
                    Some(h)
                }
            }
        }
    }
}

/// The hyperlink of object data; `None` — there is none.
pub open spec fn hyper_of(d: Seq<u8>) -> Option<HyperView> {
    if d.len() <= 6 {
        None
    } else {
        match find_hyper(d, 7, d[6] as nat, None) {
            Some(Some(b)) => hyper_fields(b, 0, empty_hyper()),
            _ => None,
        }
    }
}

/// A text field of a hyperlink as written.
pub open spec fn field_bytes(id: u16, text: Seq<char>) -> Seq<u8> {
    le16_bytes(id) + le16_bytes((text.len() % 65536) as u16) + cp1251::encoded(text)
}

/// A text field that is left out when empty.
pub open spec fn optional_field(id: u16, text: Seq<char>) -> Seq<u8> {
    if text.len() == 0 {
        Seq::empty()
    } else {
        field_bytes(id, text)
    }
}

/// The mode field, left out for mode 0.
pub open spec fn mode_field(mode: i32) -> Seq<u8> {
    if mode == 0 {
        Seq::empty()
    } else {
        le16_bytes(4) + le16_bytes((mode & 0xffff) as u16)
    }
}

/// The fields of a hyperlink item as `write_hyper` writes them: the target
/// always, window, object and effect when not empty, the mode when not 0.
pub open spec fn hyper_fields_bytes(h: HyperView) -> Seq<u8> {
    field_bytes(1, h.target) + optional_field(2, h.window) + optional_field(3, h.object)
        + optional_field(5, h.effect) + mode_field(h.mode)
}

/// Object data holding just the hyperlink, as `write_hyper` writes it.
pub open spec fn hyper_bytes(h: HyperView) -> Seq<u8> {
    let f = hyper_fields_bytes(h);
    hyper_head() + le16_bytes(0x0a) + le16_bytes((f.len() % 65536) as u16) + f
}

fn push_u16(out: &mut Vec<u8>, v: u16)
    ensures
        final(out)@ == old(out)@ + le16_bytes(v),
{
    let b = le16(v);
    out.push(b[0]);
    out.push(b[1]);
    assert(out@ =~= old(out)@ + le16_bytes(v));
}

fn push_field(out: &mut Vec<u8>, id: u16, text: &str)
    ensures
        final(out)@ == old(out)@ + field_bytes(id, text@),
{
    let bytes = cp1251::encode(text);
    push_u16(out, id);
    push_u16(out, (bytes.len() % 65536) as u16);
    out.extend_from_slice(bytes.as_slice());
    assert(out@ =~= old(out)@ + field_bytes(id, text@));
}

/// Object data holding just the hyperlink `h`.
pub fn write_hyper(h: &Hyper) -> (out: Vec<u8>)
    ensures
        out@ == hyper_bytes(h@),
{
    let mut fields: Vec<u8> = Vec::new();
    push_field(&mut fields, 1, h.target.as_str());
    if !h.window.as_str().is_empty() {
        push_field(&mut fields, 2, h.window.as_str());
    }
    if !h.object.as_str().is_empty() {
        push_field(&mut fields, 3, h.object.as_str());
    }
    if !h.effect.as_str().is_empty() {
        push_field(&mut fields, 5, h.effect.as_str());
    }
    if h.mode != 0 {
        push_u16(&mut fields, 4);
        push_u16(&mut fields, (h.mode & 0xffff) as u16);
    }
    assert(fields@ =~= hyper_fields_bytes(h@));
    let mut out: Vec<u8> = Vec::new();
    out.push(1);
    out.push(0);
    out.push(5);
    out.push(0);
    out.push(2);
    out.push(0);
    out.push(1);
    push_u16(&mut out, 0x0a);
    push_u16(&mut out, (fields.len() % 65536) as u16);
    out.extend_from_slice(fields.as_slice());
    assert(out@ =~= hyper_bytes(h@));
    out
}

/// The bytes of the last hyperlink item of object data.
fn hyper_item(data: &[u8]) -> (res: Option<&[u8]>)
    requires
        data@.len() > 6,
    ensures
        match find_hyper(data@, 7, data@[6] as nat, None) {
            Some(Some(b)) => res matches Some(x) && x@ == b,
            _ => res is None,
        },
{
    let count = data[6];
    let mut at: usize = 7;
    let mut item: Option<&[u8]> = None;
    let ghost target = find_hyper(data@, 7, data@[6] as nat, None);
    let mut k: u8 = 0;
    while k < count
        invariant
            count == data@[6],
            k <= count,
            at <= data@.len(),
            target == find_hyper(data@, 7, data@[6] as nat, None),
            target == find_hyper(
                data@,
                at as int,
                (count - k) as nat,
                match item {
                    Some(x) => Some(x@),
                    None => None,
                },
            ),
        decreases count - k,
    {
        if data.len() - at < 4 {
            return None;
        }
        let id = u16_from(data[at], data[at + 1]);
        let n = u16_from(data[at + 2], data[at + 3]) as usize;
        let ghost iv = match item {
            Some(x) => Some(x@),
            None => None,
        };
        proof {
            assert(target == if id == 0x0a {
                if at + 4 + n > data@.len() {
                    None
                } else {
                    find_hyper(data@, at + 4 + n, (count - k - 1) as nat, Some(data@.subrange(at + 4, at + 4 + n)))
                }
            } else {
                find_hyper(data@, at + 4 + n, (count - k - 1) as nat, iv)
            });
        }
        if n > data.len() - (at + 4) {
            proof {
                if count - k - 1 > 0 {
                    assert(find_hyper(data@, at + 4 + n, (count - k - 1) as nat, iv) is None);
                }
            }
            if id == 0x0a || k + 1 < count {
                return None;
            }
            return item;
        }
        if id == 0x0a {
            item = Some(slice_subrange(data, at + 4, at + 4 + n));
        }
        at = at + 4 + n;
        k = k + 1;
    }
    item
}

/// The fields of a hyperlink item.
fn read_hyper_fields(b: &[u8]) -> (res: Option<Hyper>)
    ensures
        match hyper_fields(b@, 0, empty_hyper()) {
            Some(h) => res matches Some(x) && x@ == h,
            None => res is None,
        },
{
    let mut h = Hyper::new();
    let end = b.len();
    let mut i: usize = 0;
    let ghost target = hyper_fields(b@, 0, empty_hyper());
    while end - i >= 2
        invariant
            end == b@.len(),
            i <= end,
            target == hyper_fields(b@, 0, empty_hyper()),
            target == hyper_fields(b@, i as int, h@),
        decreases end - i,
    {
        let id = u16_from(b[i], b[i + 1]);
        i = i + 2;
        if end - i < 2 {
            return None;
        }
        if id == 4 {
            h.mode = u16_from(b[i], b[i + 1]) as i32;
            i = i + 2;
            continue;
        }
        let n = u16_from(b[i], b[i + 1]) as usize;
        if n > end - i - 2 {
            return None;
        }
        let text = cp1251::decode(slice_subrange(b, i + 2, i + 2 + n));
        i = i + 2 + n;
        if id == 1 {
            h.target = text;
        } else if id == 2 {
            h.window = text;
        } else if id == 3 {
            h.object = text;
        } else if id == 5 {
            h.effect = text;
        } else {
            return Some(h);
        }
    }
    Some(h)
}

/// The hyperlink in object data (the `0x03FE` block); `None` — there is
/// none.
pub fn parse_hyper(data: &[u8]) -> (res: Option<Hyper>)
    ensures
        match hyper_of(data@) {
            Some(h) => res matches Some(x) && x@ == h,
            None => res is None,
        },
{
    if data.len() <= 6 {
        return None;
    }
    match hyper_item(data) {
        Some(b) => read_hyper_fields(b),
        None => None,
    }
}

pub proof fn lemma_items_end_grows(d: Seq<u8>, i: int, count: nat)
    ensures
        items_end(d, i, count) matches Some(e) ==> i <= e,
    decreases count,
{
    if count > 0 && 0 <= i && i + 4 <= d.len() {
        lemma_items_end_grows(d, i + 4 + u16_at(d, i + 2), (count - 1) as nat);
    }
}

/// Length of object data (the `0x03FE` block) from its start; `None` — it
/// is not object data.
pub fn object_data_len(data: &[u8]) -> (res: Option<usize>)
    ensures
        match data_len(data@) {
            Some(e) => res matches Some(l) && l as int == e,
            None => res is None,
        },
{
    if data.len() <= 6 {
        return None;
    }
    let count = data[6];
    let mut i: usize = 7;
    let mut k: u8 = 0;
    let ghost target = items_end(data@, 7, count as nat);
    while k < count
        invariant
            count == data@[6],
            k <= count,
            i <= data@.len(),
            target == items_end(data@, 7, count as nat),
            target == items_end(data@, i as int, (count - k) as nat),
        decreases count - k,
    {
        if data.len() - i < 4 {
            return None;
        }
        let n = u16_from(data[i + 2], data[i + 3]) as usize;
        if n > data.len() - (i + 4) {
            proof {
                lemma_items_end_grows(data@, i + 4 + n, (count - k - 1) as nat);
            }
            return None;
        }
        i = i + 4 + n;
        k = k + 1;
    }
    Some(i)
}

pub open spec fn items_view(v: Seq<(u16, Vec<u8>)>) -> Seq<(u16, Seq<u8>)> {
    v.map_values(|item: (u16, Vec<u8>)| (item.0, item.1@))
}

/// The items of object data: id → bytes; none when it is not object data.
fn object_items(raw: &[u8]) -> (items: Vec<(u16, Vec<u8>)>)
    ensures
        items_view(items@) == data_items(raw@),
{
    let mut items: Vec<(u16, Vec<u8>)> = Vec::new();
    let len = match object_data_len(raw) {
        None => {
            assert(items_view(items@) =~= Seq::empty());
            return items;
        },
        Some(len) => len,
    };
    let count = raw[6];
    let mut at: usize = 7;
    let mut k: u8 = 0;
    let ghost all = items_from(raw@, 7, count as nat);
    assert(items_view(items@) =~= Seq::empty());
    while k < count
        invariant
            count == raw@[6],
            k <= count,
            len <= raw@.len(),
            items_end(raw@, at as int, (count - k) as nat) == Some(len as int),
            all == items_from(raw@, 7, count as nat),
            all == items_view(items@) + items_from(raw@, at as int, (count - k) as nat),
        decreases count - k,
    {
        proof {
            lemma_items_end_grows(raw@, at + 4 + u16_at(raw@, at + 2), (count - k - 1) as nat);
        }
        let id = u16_from(raw[at], raw[at + 1]);
        let n = u16_from(raw[at + 2], raw[at + 3]) as usize;
        let bytes = slice_to_vec(slice_subrange(raw, at + 4, at + 4 + n));
        let ghost before = items_view(items@);
        items.push((id, bytes));
        proof {
            assert(items_view(items@) =~= before.push((id, bytes@)));
            assert(items_from(raw@, at as int, (count - k) as nat) =~= seq![(id, bytes@)] + items_from(
                raw@,
                at + 4 + n,
                (count - k - 1) as nat,
            ));
            assert(items_view(items@) + items_from(raw@, at + 4 + n, (count - k - 1) as nat)
                =~= before + items_from(raw@, at as int, (count - k) as nat));
        }
        at = at + 4 + n;
        k = k + 1;
    }
    assert(items_view(items@) + items_from(raw@, at as int, 0) =~= items_view(items@));
    items
}

/// The variables of an object (the "Variables" tab): the item `0x0d`, a
/// text `variables of the image;variables or aliases of another image`.
pub fn object_vars(raw: &[u8]) -> (res: Option<String>)
    ensures
        match first_with_id(data_items(raw@), 0x0d) {
            Some(b) => res matches Some(t) && t@ == cp1251::decoded(before_nul(b)),
            None => res is None,
        },
{
    let items = object_items(raw);
    let mut i: usize = 0;
    assert(items_view(items@).skip(0) =~= items_view(items@));
    while i < items.len()
        invariant
            i <= items@.len(),
            items_view(items@) == data_items(raw@),
            first_with_id(data_items(raw@), 0x0d) == first_with_id(items_view(items@).skip(i as int), 0x0d),
        decreases items.len() - i,
    {
        proof {
            let rest = items_view(items@).skip(i as int);
            assert(rest.drop_first() =~= items_view(items@).skip(i + 1));
        }
        if items[i].0 == 0x0d {
            return Some(cp1251::decode(split_nul(items[i].1.as_slice())));
        }
        i = i + 1;
    }
    None
}

/// The items to write into object data when the old data was `raw`, with
/// a hyperlink `hyper`: the old items but the old hyperlink, then the new
/// one.
pub open spec fn merged_items(raw: Option<Seq<u8>>, hyper: Option<HyperView>) -> Seq<(u16, Seq<u8>)> {
    let kept = without_id(raw_items(raw), 0x0a);
    match hyper {
        Some(h) => kept.push((0x0au16, hyper_fields_bytes(h))),
        None => kept,
    }
}

/// The items to write into object data when the old data was `raw` and the
/// variables of the object are `text`.
pub open spec fn items_with_vars(raw: Option<Seq<u8>>, text: Seq<char>) -> Seq<(u16, Seq<u8>)> {
    let kept = without_id(raw_items(raw), 0x0d);
    if text.len() > 0 {
        kept.push((0x0du16, cp1251::encoded(text).push(0)))
    } else {
        kept
    }
}

/// Object data to write: `None` when there are no items.
pub open spec fn data_or_none(head: Seq<u8>, items: Seq<(u16, Seq<u8>)>) -> Option<Seq<u8>> {
    if items.len() == 0 {
        None
    } else {
        Some(data_of(head, items))
    }
}

pub open spec fn opt_view(raw: Option<&[u8]>) -> Option<Seq<u8>> {
    match raw {
        Some(r) => Some(r@),
        None => None,
    }
}

fn without(items: Vec<(u16, Vec<u8>)>, id: u16) -> (out: Vec<(u16, Vec<u8>)>)
    ensures
        items_view(out@) == without_id(items_view(items@), id),
{
    let mut out: Vec<(u16, Vec<u8>)> = Vec::new();
    let mut rest = items;
    let ghost all = items_view(rest@);
    let mut i: usize = 0;
    assert(items_view(out@) =~= without_id(all.take(0), id));
    while i < rest.len()
        invariant
            all == items_view(rest@),
            i <= rest@.len(),
            items_view(out@) == without_id(all.take(i as int), id),
        decreases rest.len() - i,
    {
        proof {
            assert(all.take(i + 1).drop_last() =~= all.take(i as int));
            assert(all.take(i + 1).last() == all[i as int]);
        }
        if rest[i].0 != id {
            let ghost before = items_view(out@);
            let item = (rest[i].0, slice_to_vec(rest[i].1.as_slice()));
            out.push(item);
            assert(items_view(out@) =~= before.push(all[i as int]));
        }
        i = i + 1;
    }
    assert(all.take(rest.len() as int) =~= all);
    out
}

fn head_of(raw: Option<&[u8]>) -> (head: Vec<u8>)
    ensures
        head@ == kept_head(opt_view(raw)),
        head@.len() == 7,
{
    if let Some(r) = raw {
        if object_data_len(r).is_some() {
            return slice_to_vec(slice_subrange(r, 0, 7));
        }
    }
    let mut h: Vec<u8> = Vec::new();
    h.push(1);
    h.push(0);
    h.push(5);
    h.push(0);
    h.push(2);
    h.push(0);
    h.push(1);
    assert(h@ =~= hyper_head());
    h
}

fn items_of(raw: Option<&[u8]>) -> (items: Vec<(u16, Vec<u8>)>)
    ensures
        items_view(items@) == raw_items(opt_view(raw)),
{
    match raw {
        Some(r) => object_items(r),
        None => {
            let v: Vec<(u16, Vec<u8>)> = Vec::new();
            assert(items_view(v@) =~= Seq::empty());
            v
        },
    }
}

/// Object data from a head of seven bytes and items.
fn build_data(head: Vec<u8>, items: &Vec<(u16, Vec<u8>)>) -> (out: Vec<u8>)
    requires
        head@.len() == 7,
    ensures
        out@ == data_of(head@, items_view(items@)),
{
    let mut out = head;
    out.set(6, (items.len() % 256) as u8);
    let ghost start = out@;
    let mut i: usize = 0;
    while i < items.len()
        invariant
            i <= items@.len(),
            out@ == start + items_bytes(items_view(items@).take(i as int)),
        decreases items.len() - i,
    {
        let (id, ref data) = items[i];
        push_u16(&mut out, id);
        push_u16(&mut out, (data.len() % 65536) as u16);
        out.extend_from_slice(data.as_slice());
        proof {
            let iv = items_view(items@);
            assert(iv.take(i + 1).drop_last() =~= iv.take(i as int));
            assert(iv.take(i + 1).last() == iv[i as int]);
            assert(out@ =~= start + items_bytes(iv.take(i as int)) + item_bytes(iv[i as int]));
        }
        i = i + 1;
    }
    assert(items_view(items@).take(items.len() as int) =~= items_view(items@));
    out
}

/// Object data to write: the old items but the hyperlink, and the
/// hyperlink `hyper`; `None` — nothing to write.
pub fn merge_object_data(raw: Option<&[u8]>, hyper: Option<&Hyper>) -> (res: Option<Vec<u8>>)
    ensures
        ({
            let h = match hyper {
                Some(h) => Some(h@),
                None => None,
            };
            match data_or_none(kept_head(opt_view(raw)), merged_items(opt_view(raw), h)) {
                Some(d) => res matches Some(v) && v@ == d,
                None => res is None,
            }
        }),
{
    let head = head_of(raw);
    let mut items = without(items_of(raw), 0x0a);
    if let Some(h) = hyper {
        let w = write_hyper(h);
        let fields = slice_to_vec(slice_subrange(w.as_slice(), 11, w.len()));
        assert(fields@ =~= hyper_fields_bytes(h@));
        let ghost before = items_view(items@);
        items.push((0x0a, fields));
        assert(items_view(items@) =~= before.push((0x0au16, hyper_fields_bytes(h@))));
    }
    if items.len() == 0 {
        return None;
    }
    Some(build_data(head, &items))
}

/// Replaces the variables of an object; an empty text removes the item.
/// `None` — no data is left.
pub fn set_object_vars(raw: Option<&[u8]>, text: &str) -> (res: Option<Vec<u8>>)
    ensures
        match data_or_none(kept_head(opt_view(raw)), items_with_vars(opt_view(raw), text@)) {
            Some(d) => res matches Some(v) && v@ == d,
            None => res is None,
        },
{
    let head = head_of(raw);
    let mut items = without(items_of(raw), 0x0d);
    if !text.is_empty() {
        let mut bytes = cp1251::encode(text);
        bytes.push(0);
        let ghost before = items_view(items@);
        let ghost b = bytes@;
        items.push((0x0d, bytes));
        assert(items_view(items@) =~= before.push((0x0du16, b)));
    }
    if items.len() == 0 {
        return None;
    }
    Some(build_data(head, &items))
}

/// Texts that fit the fields of a hyperlink: the code page holds them, a
/// length field holds each and the whole item, and the mode is a `u16`.
pub open spec fn writable_hyper(h: HyperView) -> bool {
    &&& 0 <= h.mode <= 65535
    &&& cp1251::representable(h.target)
    &&& cp1251::representable(h.window)
    &&& cp1251::representable(h.object)
    &&& cp1251::representable(h.effect)
    &&& hyper_fields_bytes(h).len() <= 65535
}

/// A text field written in the middle of the fields reads back into its
/// place of the hyperlink.
pub proof fn lemma_text_field(x: Seq<u8>, id: u16, t: Seq<char>, y: Seq<u8>, h: HyperView)
    requires
        id == 1 || id == 2 || id == 3 || id == 5,
        cp1251::representable(t),
        (x + field_bytes(id, t) + y).len() <= 65535,
    ensures
        hyper_fields(x + field_bytes(id, t) + y, x.len() as int, h) == hyper_fields(
            x + field_bytes(id, t) + y,
            x.len() + 4 + t.len() as int,
            if id == 1 {
                HyperView { target: t, ..h }
            } else if id == 2 {
                HyperView { window: t, ..h }
            } else if id == 3 {
                HyperView { object: t, ..h }
            } else {
                HyperView { effect: t, ..h }
            },
        ),
{
    let b = x + field_bytes(id, t) + y;
    let n = (t.len() % 65536) as u16;
    assert(t.len() < 65536);
    assert(b =~= x + le16_bytes(id) + (le16_bytes(n) + cp1251::encoded(t) + y));
    law_u16_round_trip(x, id, le16_bytes(n) + cp1251::encoded(t) + y);
    assert(b =~= (x + le16_bytes(id)) + le16_bytes(n) + (cp1251::encoded(t) + y));
    law_u16_round_trip(x + le16_bytes(id), n, cp1251::encoded(t) + y);
    let j = x.len() as int + 2;
    assert(b.subrange(j + 2, j + 2 + t.len()) =~= cp1251::encoded(t));
    cp1251::law_decode_encode(t);
}

/// The mode field written reads back as the mode.
pub proof fn lemma_mode_field(x: Seq<u8>, h: HyperView)
    requires
        1 <= h.mode <= 65535,
    ensures
        hyper_fields(x + mode_field(h.mode), x.len() as int, h) == Some(h),
{
    let m = (h.mode & 0xffff) as u16;
    let mode = h.mode;
    assert(mode & 0xffff == mode) by (bit_vector)
        requires
            0 <= mode <= 65535,
    ;
    let b = x + mode_field(h.mode);
    assert(b =~= x + le16_bytes(4) + (le16_bytes(m) + Seq::<u8>::empty()));
    law_u16_round_trip(x, 4, le16_bytes(m) + Seq::<u8>::empty());
    assert(b =~= (x + le16_bytes(4)) + le16_bytes(m) + Seq::<u8>::empty());
    law_u16_round_trip(x + le16_bytes(4), m, Seq::empty());
    assert(hyper_fields(b, b.len() as int, h) == Some(h));
}

#[verifier::spinoff_prover]
#[verifier::rlimit(60)]
proof fn lemma_optional_field(x: Seq<u8>, id: u16, t: Seq<char>, y: Seq<u8>, h: HyperView)
    requires
        id == 2 || id == 3 || id == 5,
        cp1251::representable(t),
        (x + optional_field(id, t) + y).len() <= 65535,
        id == 2 ==> h.window.len() == 0,
        id == 3 ==> h.object.len() == 0,
        id == 5 ==> h.effect.len() == 0,
    ensures
        hyper_fields(x + optional_field(id, t) + y, x.len() as int, h) == hyper_fields(
            x + optional_field(id, t) + y,
            (x + optional_field(id, t)).len() as int,
            if id == 2 {
                HyperView { window: t, ..h }
            } else if id == 3 {
                HyperView { object: t, ..h }
            } else {
                HyperView { effect: t, ..h }
            },
        ),
{
    if t.len() == 0 {
        assert(t =~= Seq::<char>::empty());
        if id == 2 {
            assert(h.window =~= t);
            assert(HyperView { window: t, ..h } == h);
        } else if id == 3 {
            assert(h.object =~= t);
            assert(HyperView { object: t, ..h } == h);
        } else {
            assert(h.effect =~= t);
            assert(HyperView { effect: t, ..h } == h);
        }
        assert(x + optional_field(id, t) =~= x);
    } else {
        lemma_text_field(x, id, t, y, h);
    }
}

/// The fields written by `write_hyper` read back as the hyperlink.
#[verifier::spinoff_prover]
#[verifier::rlimit(100)]
pub proof fn lemma_hyper_fields(h: HyperView)
    requires
        writable_hyper(h),
    ensures
        hyper_fields(hyper_fields_bytes(h), 0, empty_hyper()) == Some(h),
{
    let f1 = field_bytes(1, h.target);
    let f2 = optional_field(2, h.window);
    let f3 = optional_field(3, h.object);
    let f5 = optional_field(5, h.effect);
    let fm = mode_field(h.mode);
    let b = hyper_fields_bytes(h);
    assert(b == f1 + f2 + f3 + f5 + fm);
    let e = empty_hyper();
    let h1 = HyperView { target: h.target, ..e };
    let h2 = HyperView { window: h.window, ..h1 };
    let h3 = HyperView { object: h.object, ..h2 };
    let h5 = HyperView { effect: h.effect, ..h3 };
    assert(b =~= Seq::<u8>::empty() + f1 + (f2 + f3 + f5 + fm));
    lemma_text_field(Seq::empty(), 1, h.target, f2 + f3 + f5 + fm, e);
    assert(b =~= f1 + f2 + (f3 + f5 + fm));
    lemma_optional_field(f1, 2, h.window, f3 + f5 + fm, h1);
    assert(b =~= (f1 + f2) + f3 + (f5 + fm));
    lemma_optional_field(f1 + f2, 3, h.object, f5 + fm, h2);
    assert(b =~= (f1 + f2 + f3) + f5 + fm);
    lemma_optional_field(f1 + f2 + f3, 5, h.effect, fm, h3);
    let x = f1 + f2 + f3 + f5;
    assert(b =~= x + fm);
    if h.mode == 0 {
        assert(fm =~= Seq::<u8>::empty());
        assert(h5 == h);
        assert(hyper_fields(b, b.len() as int, h5) == Some(h5));
    } else {
        assert(HyperView { mode: h.mode, ..h5 } == h);
        lemma_mode_field(x, HyperView { mode: h.mode, ..h5 });
        assert(hyper_fields(b, x.len() as int, h5) == hyper_fields(b, x.len() as int, HyperView { mode: h.mode, ..h5 }));
    }
}

/// A hyperlink written by `write_hyper` is read back by `parse_hyper`
/// unchanged, when its texts fit the code page and the item, and its mode is
/// a `u16`.
#[verifier::spinoff_prover]
pub proof fn law_hyper_round_trip(h: HyperView)
    requires
        writable_hyper(h),
    ensures
        hyper_of(hyper_bytes(h)) == Some(h),
{
    let f = hyper_fields_bytes(h);
    let d = hyper_bytes(h);
    let n = (f.len() % 65536) as u16;
    assert(d =~= hyper_head() + le16_bytes(0x0a) + (le16_bytes(n) + f));
    law_u16_round_trip(hyper_head(), 0x0a, le16_bytes(n) + f);
    assert(d =~= (hyper_head() + le16_bytes(0x0a)) + le16_bytes(n) + f);
    law_u16_round_trip(hyper_head() + le16_bytes(0x0a), n, f);
    assert(d[6] == 1);
    assert(d.subrange(11, 11 + f.len() as int) =~= f);
    assert(find_hyper(d, 11 + f.len() as int, 0, Some(f)) == Some(Some(f)));
    assert(find_hyper(d, 7, 1, None) == Some(Some(f)));
    lemma_hyper_fields(h);
}

/// Items that object data can hold: fewer than 256, each of at most 65535
/// bytes.
pub open spec fn writable_items(items: Seq<(u16, Seq<u8>)>) -> bool {
    &&& items.len() < 256
    &&& forall|i: int| 0 <= i < items.len() ==> (#[trigger] items[i]).1.len() <= 65535
}

pub proof fn lemma_items_bytes_concat(a: Seq<(u16, Seq<u8>)>, b: Seq<(u16, Seq<u8>)>)
    ensures
        items_bytes(a + b) == items_bytes(a) + items_bytes(b),
    decreases b.len(),
{
    if b.len() == 0 {
        assert(a + b =~= a);
        assert(items_bytes(a) + items_bytes(b) =~= items_bytes(a));
    } else {
        lemma_items_bytes_concat(a, b.drop_last());
        assert((a + b).drop_last() =~= a + b.drop_last());
        assert((a + b).last() == b.last());
        assert(items_bytes(a + b) =~= items_bytes(a) + items_bytes(b));
    }
}

proof fn lemma_items_bytes_first(items: Seq<(u16, Seq<u8>)>)
    requires
        items.len() > 0,
    ensures
        items_bytes(items) == item_bytes(items[0]) + items_bytes(items.drop_first()),
{
    let i0 = items[0];
    let rest = items.drop_first();
    assert(items =~= seq![i0] + rest);
    lemma_items_bytes_concat(seq![i0], rest);
    assert(seq![i0].drop_last() =~= Seq::<(u16, Seq<u8>)>::empty());
    assert(seq![i0].last() == i0);
    assert(items_bytes(Seq::<(u16, Seq<u8>)>::empty()) =~= Seq::<u8>::empty());
    assert(items_bytes(seq![i0]) =~= item_bytes(i0));
}

/// One item written in the middle of some data: its id, its bytes, and
/// where the next item starts.
proof fn lemma_item_at(x: Seq<u8>, item: (u16, Seq<u8>), y: Seq<u8>)
    requires
        item.1.len() <= 65535,
    ensures
        ({
            let d = x + item_bytes(item) + y;
            let p = x.len() as int;
            &&& p + 4 <= d.len()
            &&& u16_at(d, p) == item.0
            &&& u16_at(d, p + 2) == item.1.len()
            &&& d.subrange(p + 4, p + 4 + item.1.len()) == item.1
        }),
{
    let n = (item.1.len() % 65536) as u16;
    let d = x + item_bytes(item) + y;
    assert(d =~= x + le16_bytes(item.0) + (le16_bytes(n) + item.1 + y));
    law_u16_round_trip(x, item.0, le16_bytes(n) + item.1 + y);
    assert(d =~= (x + le16_bytes(item.0)) + le16_bytes(n) + (item.1 + y));
    law_u16_round_trip(x + le16_bytes(item.0), n, item.1 + y);
    assert(d.subrange(x.len() as int + 4, x.len() as int + 4 + item.1.len()) =~= item.1);
}

/// Items written one after another read back as the same items, ending
/// where their bytes end.
#[verifier::spinoff_prover]
#[verifier::rlimit(60)]
pub proof fn lemma_items_from(x: Seq<u8>, items: Seq<(u16, Seq<u8>)>, y: Seq<u8>)
    requires
        forall|i: int| 0 <= i < items.len() ==> (#[trigger] items[i]).1.len() <= 65535,
    ensures
        items_end(x + items_bytes(items) + y, x.len() as int, items.len()) == Some(
            x.len() + items_bytes(items).len() as int,
        ),
        items_from(x + items_bytes(items) + y, x.len() as int, items.len()) == items,
    decreases items.len(),
{
    if items.len() == 0 {
        assert(items_from(x + items_bytes(items) + y, x.len() as int, 0) =~= items);
    } else {
        let i0 = items[0];
        let rest = items.drop_first();
        lemma_items_bytes_first(items);
        let a = item_bytes(i0);
        let r = items_bytes(rest);
        let d = x + items_bytes(items) + y;
        vstd::seq_lib::lemma_concat_associative(x, a, r);
        vstd::seq_lib::lemma_concat_associative(x + a, r, y);
        assert(d == x + a + (r + y));
        assert(items[0].1.len() <= 65535);
        lemma_item_at(x, i0, r + y);
        assert forall|i: int| 0 <= i < rest.len() implies (#[trigger] rest[i]).1.len() <= 65535 by {
            assert(rest[i] == items[i + 1]);
        }
        lemma_items_from(x + a, rest, y);
        assert(d == (x + a) + r + y);
        assert(items_from(d, x.len() as int, items.len()) =~= seq![i0] + rest);
    }
}

/// The items of object data built from a head and items are those items:
/// what `object_items` reads of what `merge_object_data` and
/// `set_object_vars` write.
#[verifier::spinoff_prover]
#[verifier::rlimit(60)]
pub proof fn law_items_round_trip(head: Seq<u8>, items: Seq<(u16, Seq<u8>)>)
    requires
        head.len() == 7,
        writable_items(items),
    ensures
        data_len(data_of(head, items)) == Some(data_of(head, items).len() as int),
        data_items(data_of(head, items)) == items,
{
    let h = head.update(6, (items.len() % 256) as u8);
    let d = data_of(head, items);
    assert(d == h + items_bytes(items) + Seq::<u8>::empty());
    lemma_items_from(h, items, Seq::empty());
    assert(d[6] == items.len());
}

/// After `without_id`, no item has that id.
pub proof fn lemma_without_id(items: Seq<(u16, Seq<u8>)>, id: u16)
    ensures
        forall|i: int| 0 <= i < without_id(items, id).len() ==> (#[trigger] without_id(items, id)[i]).0
            != id,
        without_id(items, id).len() <= items.len(),
        forall|i: int| 0 <= i < without_id(items, id).len() ==> exists|j: int|
            0 <= j < items.len() && items[j] == #[trigger] without_id(items, id)[i],
    decreases items.len(),
{
    if items.len() > 0 {
        lemma_without_id(items.drop_last(), id);
        let w = without_id(items.drop_last(), id);
        assert forall|i: int| 0 <= i < without_id(items, id).len() implies exists|j: int|
            0 <= j < items.len() && items[j] == #[trigger] without_id(items, id)[i] by {
            if i < w.len() {
                let j = choose|j: int| 0 <= j < items.drop_last().len() && items.drop_last()[j] == w[i];
                assert(items[j] == w[i]);
            } else {
                assert(items[items.len() - 1] == without_id(items, id)[i]);
            }
        }
    }
}

/// The first item with an id, in items that hold no other item of that id
/// before the last one.
pub proof fn lemma_first_with_last(kept: Seq<(u16, Seq<u8>)>, item: (u16, Seq<u8>))
    requires
        forall|i: int| 0 <= i < kept.len() ==> (#[trigger] kept[i]).0 != item.0,
    ensures
        first_with_id(kept.push(item), item.0) == Some(item.1),
    decreases kept.len(),
{
    if kept.len() > 0 {
        let rest = kept.drop_first();
        assert forall|i: int| 0 <= i < rest.len() implies (#[trigger] rest[i]).0 != item.0 by {
            assert(rest[i] == kept[i + 1]);
        }
        lemma_first_with_last(rest, item);
        assert(kept.push(item).drop_first() =~= rest.push(item));
        assert(kept[0].0 != item.0);
    } else {
        assert(kept.push(item)[0] == item);
    }
}

/// Setting the variables of an object and reading them back gives the same
/// text, when it is not empty, fits the code page and holds no zero, and the
/// other items leave room for one more.
#[verifier::spinoff_prover]
#[verifier::rlimit(60)]
pub proof fn law_object_vars_round_trip(raw: Option<Seq<u8>>, text: Seq<char>)
    requires
        text.len() > 0,
        text.len() < 65535,
        cp1251::representable(text),
        forall|i: int| 0 <= i < text.len() ==> text[i] != '\0',
        without_id(raw_items(raw), 0x0d).len() < 255,
        forall|i: int| 0 <= i < raw_items(raw).len() ==> (#[trigger] raw_items(raw)[i]).1.len() <= 65535,
    ensures
        ({
            let d = data_of(kept_head(raw), items_with_vars(raw, text));
            &&& first_with_id(data_items(d), 0x0d) == Some(cp1251::encoded(text).push(0))
            &&& cp1251::decoded(before_nul(cp1251::encoded(text).push(0))) == text
        }),
{
    let kept = without_id(raw_items(raw), 0x0d);
    let item = (0x0du16, cp1251::encoded(text).push(0));
    let items = items_with_vars(raw, text);
    assert(items == kept.push(item));
    lemma_without_id(raw_items(raw), 0x0d);
    assert forall|i: int| 0 <= i < items.len() implies (#[trigger] items[i]).1.len() <= 65535 by {
        if i < kept.len() {
            let j = choose|j: int| 0 <= j < raw_items(raw).len() && raw_items(raw)[j] == kept[i];
            assert(raw_items(raw)[j].1.len() <= 65535);
        }
    }
    assert(kept_head(raw).len() == 7) by {
        if let Some(r) = raw {
            if data_len(r) is Some {
                assert(r.len() > 6);
                lemma_items_end_grows(r, 7, r[6] as nat);
            }
        }
    }
    law_items_round_trip(kept_head(raw), items);
    lemma_first_with_last(kept, item);
    crate::formats::project::lemma_text_before_nul(text);
}

/// The bytes of the last hyperlink item among `items`, else `item`.
pub open spec fn last_hyper(items: Seq<(u16, Seq<u8>)>, item: Option<Seq<u8>>) -> Option<Seq<u8>>
    decreases items.len(),
{
    if items.len() == 0 {
        item
    } else {
        last_hyper(items.drop_first(), if items[0].0 == 0x0a { Some(items[0].1) } else { item })
    }
}

#[verifier::spinoff_prover]
#[verifier::rlimit(60)]
proof fn lemma_find_hyper_items(x: Seq<u8>, items: Seq<(u16, Seq<u8>)>, y: Seq<u8>, item: Option<Seq<u8>>)
    requires
        forall|i: int| 0 <= i < items.len() ==> (#[trigger] items[i]).1.len() <= 65535,
    ensures
        find_hyper(x + items_bytes(items) + y, x.len() as int, items.len(), item) == Some(
            last_hyper(items, item),
        ),
    decreases items.len(),
{
    if items.len() > 0 {
        let i0 = items[0];
        let rest = items.drop_first();
        lemma_items_bytes_first(items);
        let a = item_bytes(i0);
        let r = items_bytes(rest);
        let d = x + items_bytes(items) + y;
        vstd::seq_lib::lemma_concat_associative(x, a, r);
        vstd::seq_lib::lemma_concat_associative(x + a, r, y);
        assert(d == x + a + (r + y));
        assert(items[0].1.len() <= 65535);
        lemma_item_at(x, i0, r + y);
        assert forall|i: int| 0 <= i < rest.len() implies (#[trigger] rest[i]).1.len() <= 65535 by {
            assert(rest[i] == items[i + 1]);
        }
        let next = if i0.0 == 0x0a { Some(i0.1) } else { item };
        lemma_find_hyper_items(x + a, rest, y, next);
        assert(d == (x + a) + r + y);
    }
}

proof fn lemma_last_hyper_push(kept: Seq<(u16, Seq<u8>)>, f: Seq<u8>, item: Option<Seq<u8>>)
    ensures
        last_hyper(kept.push((0x0au16, f)), item) == Some(f),
    decreases kept.len(),
{
    if kept.len() > 0 {
        let next = if kept[0].0 == 0x0a { Some(kept[0].1) } else { item };
        lemma_last_hyper_push(kept.drop_first(), f, next);
        assert(kept.push((0x0au16, f)).drop_first() =~= kept.drop_first().push((0x0au16, f)));
        assert(kept.push((0x0au16, f))[0] == kept[0]);
    } else {
        assert(kept.push((0x0au16, f)).drop_first() =~= Seq::<(u16, Seq<u8>)>::empty());
        assert(kept.push((0x0au16, f))[0] == (0x0au16, f));
        assert(last_hyper(Seq::<(u16, Seq<u8>)>::empty(), Some(f)) == Some(f));
    }
}

/// Object data written by `merge_object_data` with a hyperlink holds that
/// hyperlink for `parse_hyper`, whatever other items it keeps — when the
/// hyperlink fits its item and the other items leave room for it.
#[verifier::spinoff_prover]
#[verifier::rlimit(60)]
pub proof fn law_merge_keeps_hyper(raw: Option<Seq<u8>>, h: HyperView)
    requires
        writable_hyper(h),
        without_id(raw_items(raw), 0x0a).len() < 255,
        forall|i: int| 0 <= i < raw_items(raw).len() ==> (#[trigger] raw_items(raw)[i]).1.len() <= 65535,
    ensures
        hyper_of(data_of(kept_head(raw), merged_items(raw, Some(h)))) == Some(h),
{
    let kept = without_id(raw_items(raw), 0x0a);
    let items = merged_items(raw, Some(h));
    let f = hyper_fields_bytes(h);
    assert(items == kept.push((0x0au16, f)));
    lemma_without_id(raw_items(raw), 0x0a);
    assert forall|i: int| 0 <= i < items.len() implies (#[trigger] items[i]).1.len() <= 65535 by {
        if i < kept.len() {
            let j = choose|j: int| 0 <= j < raw_items(raw).len() && raw_items(raw)[j] == kept[i];
            assert(raw_items(raw)[j].1.len() <= 65535);
        }
    }
    assert(kept_head(raw).len() == 7) by {
        if let Some(r) = raw {
            if data_len(r) is Some {
                lemma_items_end_grows(r, 7, r[6] as nat);
            }
        }
    }
    let hd = kept_head(raw).update(6, (items.len() % 256) as u8);
    let d = data_of(kept_head(raw), items);
    assert(d == hd + items_bytes(items) + Seq::<u8>::empty());
    lemma_find_hyper_items(hd, items, Seq::empty(), None);
    lemma_last_hyper_push(kept, f, None);
    lemma_items_bytes_first(items);
    assert(d.len() > 6);
    assert(d[6] == items.len());
    lemma_hyper_fields(h);
}

#[derive(Debug, Clone)]
pub struct Pen {
    pub handle: u16,
    pub color: u32,
    pub style: u16,
    pub width: u16,
    pub rop: u16,
}

#[derive(Debug, Clone)]
pub struct Brush {
    pub handle: u16,
    pub color: u32,
    pub style: u16,
    pub hatch: u16,
    pub rop: u16,
    pub dib: u16,
}

#[derive(Debug, Clone)]
pub struct Font {
    pub handle: u16,
    pub height: i32,
    pub width: i32,
    pub weight: i32,
    pub italic: bool,
    pub underline: bool,
    pub face: String,
}

#[derive(Debug, Clone)]
pub struct StringTool {
    pub handle: u16,
    pub text: String,
}

#[derive(Debug, Clone)]
pub struct TextPart {
    pub fg: u32,
    pub bg: u32,
    pub font: u16,
    pub string: u16,
}

#[derive(Debug, Clone)]
pub struct TextTool {
    pub handle: u16,
    pub parts: Vec<TextPart>,
}

#[derive(Debug, Clone)]
pub struct Dib {
    pub handle: u16,
    /// The whole raster as BMP; empty when it refers to a file.
    pub bmp: Vec<u8>,
    /// The mask (one bit per pixel), if any.
    pub mask: Vec<u8>,
    /// The icon base file of references (`SYSTEM.DBM`).
    pub file: Option<String>,
    /// A double bitmap (chunk 1007): numbered apart from the plain ones.
    pub double: bool,
}

/// A raster embedded in a picture: a BMP whose file header gives its size.
/// The reader stands at `BM`; its size follows it.
pub fn read_bmp(r: &mut Reader) -> (res: Result<Vec<u8>>)
    requires
        old(r).pos <= old(r).data@.len(),
        old(r).pos + 2 <= old(r).data@.len() && u16_at(old(r).data@, old(r).pos as int) == 0x4D42
            ==> old(r).pos + 6 <= old(r).data@.len(),
    ensures
        final(r).same_file(old(r)),
        if old(r).pos + 2 <= old(r).data@.len() && u16_at(old(r).data@, old(r).pos as int)
            == 0x4D42 {
            let size = u32_at(old(r).data@, old(r).pos + 2);
            if old(r).has(size as int) {
                &&& res matches Ok(v)
                &&& v@ == old(r).data@.subrange(old(r).pos as int, old(r).pos + size)
                &&& final(r).pos == old(r).pos + size
            } else {
                res matches Err(e) && old(r).is_short_error(e, size as nat) && final(r).pos
                    == old(r).pos
            }
        } else {
            res matches Err(e) && old(r).is_error_here(e, "растр без заголовка BM"@)
        },
{
    if r.peek_u16(r.pos) != Some(0x4D42) {
        return r.err("растр без заголовка BM".to_string());
    }
    let p = r.pos;
    let n = r.data.len();
    assert(p + 6 <= n);
    let size = u32_from(r.data[p + 2], r.data[p + 3], r.data[p + 4], r.data[p + 5]) as usize;
    r.bytes(size)
}

/// A graphic object of a picture. Coordinates are the bit patterns of the
/// `f64` numbers the file holds.
#[derive(Debug)]
pub struct Object {
    pub handle: u16,
    pub name: String,
    pub flags: u16,
    pub kind: ObjectKind,
}

#[derive(Debug)]
pub enum ObjectKind {
    Polyline { x: u64, y: u64, w: u64, h: u64, pen: u16, brush: u16, points: Vec<(u64, u64)> },
    Bitmap {
        x: u64,
        y: u64,
        w: u64,
        h: u64,
        /// The rectangle in the source: x, y, w, h.
        src: (u64, u64, u64, u64),
        dib: u16,
        masked: bool,
    },
    Text { x: u64, y: u64, w: u64, h: u64, text: u16 },
    Control { x: u64, y: u64, w: u64, h: u64, class: String, caption: String, style: u32 },
    Group { children: Vec<u16> },
    /// A type not read (3D projections and the like).
    Unknown { kind: u16 },
}

/// A picture: its window, objects and tools. Coordinates are the bit
/// patterns of `f64` numbers.
#[derive(Debug)]
pub struct Picture {
    pub version: u16,
    pub origin: (u64, u64),
    pub scale: (u64, u64),
    pub window: (u64, u64),
    pub objects: Vec<Object>,
    /// The order of drawing of the top level: handles, bottom first.
    pub zorder: Vec<u16>,
    pub pens: Vec<Pen>,
    pub brushes: Vec<Brush>,
    pub fonts: Vec<Font>,
    pub strings: Vec<StringTool>,
    pub texts: Vec<TextTool>,
    pub dibs: Vec<Dib>,
    /// The parameters of the sheet (record 34 of chunk 1022), as they are.
    pub page: Option<Vec<u8>>,
    /// Hyperlinks of objects: handle of the object, link.
    pub hypers: Vec<(u16, Hyper)>,
    /// Object data (block `0x03FE`) as it is: handle, bytes.
    pub object_data: Vec<(u16, Vec<u8>)>,
    /// Attachments of polylines (arrows and the like): handle, bytes.
    pub arrows: Vec<(u16, Vec<u8>)>,
}

pub const CHUNK_ZORDER: u16 = 1021;
pub const CHUNK_OBJECTS: u16 = 1020;
pub const CHUNK_TEXT_PARTS: u16 = 1011;

pub open spec fn zeros(n: nat) -> Seq<u8> {
    Seq::new(n, |i: int| 0u8)
}

/// A chunk: id, size, count, capacity, delta, then `u8 1, u16 FFFF` before
/// the records of a list that has any; nothing for an empty list but the
/// z-order.
pub open spec fn chunk_bytes(id: u16, count: nat, body: Seq<u8>) -> Seq<u8> {
    if count == 0 && id != CHUNK_ZORDER {
        Seq::empty()
    } else {
        let extra = if count > 0 && id != CHUNK_ZORDER {
            seq![1u8, 0xFFu8, 0xFFu8]
        } else {
            Seq::empty()
        };
        le16_bytes(id) + le32_bytes((12 + extra.len() + body.len()) as u32) + le16_bytes(count as u16)
            + le16_bytes(count as u16) + le16_bytes(10) + extra + body
    }
}

/// A record: kind, its size from its start (`u32` for rasters, else
/// `u16`), body.
pub open spec fn record_bytes(kind: u16, wide: bool, body: Seq<u8>) -> Seq<u8> {
    if wide {
        le16_bytes(kind) + le32_bytes((6 + body.len()) as u32) + body
    } else {
        le16_bytes(kind) + le16_bytes(((4 + body.len()) as u32) as u16) + body
    }
}

pub open spec fn u16s_bytes(s: Seq<u16>) -> Seq<u8>
    decreases s.len(),
{
    if s.len() == 0 {
        Seq::empty()
    } else {
        u16s_bytes(s.drop_last()) + le16_bytes(s.last())
    }
}

pub open spec fn points_bytes(s: Seq<(u64, u64)>) -> Seq<u8>
    decreases s.len(),
{
    if s.len() == 0 {
        Seq::empty()
    } else {
        points_bytes(s.drop_last()) + le64_bytes(s.last().0) + le64_bytes(s.last().1)
    }
}

pub open spec fn tool_head(handle: u16) -> Seq<u8> {
    le16_bytes(0) + le16_bytes(1) + le16_bytes(handle)
}

pub open spec fn pen_body(p: Pen) -> Seq<u8> {
    tool_head(p.handle) + le32_bytes(p.color) + le16_bytes(p.style) + le16_bytes(p.width) + le16_bytes(p.rop)
}

pub open spec fn brush_body(b: Brush) -> Seq<u8> {
    tool_head(b.handle) + le32_bytes(b.color) + le16_bytes(b.style) + le16_bytes(b.hatch) + le16_bytes(b.rop)
        + le16_bytes(b.dib)
}

pub open spec fn flag_byte(b: bool) -> u8 {
    if b {
        1
    } else {
        0
    }
}

/// The face of a font: at most 31 bytes, padded with zeros to 32.
pub open spec fn face_bytes(face: Seq<char>) -> Seq<u8> {
    let e = cp1251::encoded(face);
    let t = if e.len() > 31 {
        e.take(31)
    } else {
        e
    };
    t + zeros((32 - t.len()) as nat)
}

pub open spec fn font_body(f: Font) -> Seq<u8> {
    tool_head(f.handle) + le16_bytes(f.height as i16 as u16) + le16_bytes(f.width as i16 as u16) + le16_bytes(0)
        + le16_bytes(0) + le16_bytes(f.weight as i16 as u16) + seq![
        flag_byte(f.italic),
        flag_byte(f.underline),
        0u8,
        204u8,
        0u8,
        0u8,
        0u8,
        0u8,
    ] + face_bytes(f.face@) + zeros(8)
}

pub open spec fn string_tool_body(s: StringTool) -> Seq<u8> {
    tool_head(s.handle) + string_bytes(s.text@)
}

pub open spec fn parts_bytes(s: Seq<TextPart>) -> Seq<u8>
    decreases s.len(),
{
    if s.len() == 0 {
        Seq::empty()
    } else {
        let p = s.last();
        parts_bytes(s.drop_last()) + le32_bytes(p.fg) + le32_bytes(p.bg) + le16_bytes(p.font) + le16_bytes(
            p.string,
        )
    }
}

pub open spec fn text_tool_body(t: TextTool) -> Seq<u8> {
    let n = t.parts@.len();
    tool_head(t.handle) + le16_bytes(CHUNK_TEXT_PARTS) + le32_bytes((12 + (n as u32) * 12) as u32) + le16_bytes(
        n as u16,
    ) + le16_bytes(n as u16) + le16_bytes(10) + parts_bytes(t.parts@)
}

pub open spec fn dib_record(d: Dib) -> Seq<u8> {
    match d.file {
        Some(f) => record_bytes(
            if d.double {
                111
            } else {
                110
            },
            false,
            tool_head(d.handle) + string_bytes(f@),
        ),
        None => record_bytes(
            if d.double {
                104
            } else {
                103
            },
            true,
            le16_bytes(1) + le16_bytes(d.handle) + d.bmp@ + if d.double {
                d.mask@
            } else {
                Seq::empty()
            },
        ),
    }
}

/// The bitmaps that are double (or not), in their order.
pub open spec fn dibs_of(s: Seq<Dib>, double: bool) -> Seq<Dib>
    decreases s.len(),
{
    if s.len() == 0 {
        Seq::empty()
    } else if s.last().double == double {
        dibs_of(s.drop_last(), double).push(s.last())
    } else {
        dibs_of(s.drop_last(), double)
    }
}

pub open spec fn pens_bytes(s: Seq<Pen>) -> Seq<u8>
    decreases s.len(),
{
    if s.len() == 0 {
        Seq::empty()
    } else {
        pens_bytes(s.drop_last()) + record_bytes(101, false, pen_body(s.last()))
    }
}

pub open spec fn brushes_bytes(s: Seq<Brush>) -> Seq<u8>
    decreases s.len(),
{
    if s.len() == 0 {
        Seq::empty()
    } else {
        brushes_bytes(s.drop_last()) + record_bytes(102, false, brush_body(s.last()))
    }
}

pub open spec fn fonts_bytes(s: Seq<Font>) -> Seq<u8>
    decreases s.len(),
{
    if s.len() == 0 {
        Seq::empty()
    } else {
        fonts_bytes(s.drop_last()) + record_bytes(105, false, font_body(s.last()))
    }
}

pub open spec fn strings_bytes(s: Seq<StringTool>) -> Seq<u8>
    decreases s.len(),
{
    if s.len() == 0 {
        Seq::empty()
    } else {
        strings_bytes(s.drop_last()) + record_bytes(106, false, string_tool_body(s.last()))
    }
}

pub open spec fn texts_bytes(s: Seq<TextTool>) -> Seq<u8>
    decreases s.len(),
{
    if s.len() == 0 {
        Seq::empty()
    } else {
        texts_bytes(s.drop_last()) + record_bytes(107, false, text_tool_body(s.last()))
    }
}

pub open spec fn dibs_bytes(s: Seq<Dib>) -> Seq<u8>
    decreases s.len(),
{
    if s.len() == 0 {
        Seq::empty()
    } else {
        dibs_bytes(s.drop_last()) + dib_record(s.last())
    }
}

/// The first entry of a list kept by handle.
pub open spec fn first_of<T>(s: Seq<(u16, T)>, handle: u16) -> Option<T>
    decreases s.len(),
{
    if s.len() == 0 {
        None
    } else if s[0].0 == handle {
        Some(s[0].1)
    } else {
        first_of(s.drop_first(), handle)
    }
}

pub open spec fn kind_code(k: ObjectKind) -> u16 {
    match k {
        ObjectKind::Polyline { .. } => 20,
        ObjectKind::Bitmap { masked, .. } => if masked {
            22
        } else {
            21
        },
        ObjectKind::Text { .. } => 23,
        ObjectKind::Control { .. } => 26,
        ObjectKind::Group { .. } => 3,
        ObjectKind::Unknown { kind } => kind,
    }
}

pub open spec fn box_bytes(x: u64, y: u64, w: u64, h: u64) -> Seq<u8> {
    le64_bytes(x) + le64_bytes(y) + le64_bytes(w) + le64_bytes(h)
}

/// An attachment of a polyline: its length in a byte, then its bytes; a
/// zero byte when there is none or it is too long.
pub open spec fn attachment_bytes(a: Option<Vec<u8>>) -> Seq<u8> {
    match a {
        Some(v) => if v@.len() < 256 {
            seq![v@.len() as u8] + v@
        } else {
            seq![0u8]
        },
        None => seq![0u8],
    }
}

pub open spec fn kind_bytes(pic: Picture, o: Object) -> Seq<u8> {
    match o.kind {
        ObjectKind::Group { children } => {
            let n = children@.len();
            le16_bytes(CHUNK_ZORDER) + le32_bytes((14 + (n as u32) * 2) as u32) + le16_bytes(n as u16)
                + le16_bytes(n as u16) + le16_bytes(10) + u16s_bytes(children@)
        },
        ObjectKind::Polyline { x, y, w, h, pen, brush, points } => box_bytes(x, y, w, h) + le16_bytes(pen)
            + le16_bytes(brush) + le16_bytes(points@.len() as u16) + points_bytes(points@) + attachment_bytes(
            first_of(pic.arrows@, o.handle),
        ),
        ObjectKind::Bitmap { x, y, w, h, src, dib, .. } => box_bytes(x, y, w, h) + box_bytes(
            src.0,
            src.1,
            src.2,
            src.3,
        ) + le16_bytes(0) + le16_bytes(dib),
        ObjectKind::Text { x, y, w, h, text } => box_bytes(x, y, w, h) + le16_bytes(text) + zeros(18),
        ObjectKind::Control { x, y, w, h, class, caption, style } => box_bytes(x, y, w, h) + string_bytes(
            class@,
        ) + string_bytes(caption@) + le16_bytes(0) + le32_bytes(style) + zeros(10),
        ObjectKind::Unknown { .. } => Seq::empty(),
    }
}

/// The block of the name of an object (`0xCD`); none for an empty name.
pub open spec fn name_block(name: Seq<char>) -> Seq<u8> {
    if name.len() == 0 {
        Seq::empty()
    } else {
        le16_bytes(0xCD) + le32_bytes(((name.len() as u32) + 6) as u32) + cp1251::encoded(name)
    }
}

pub open spec fn hyper_opt(h: Option<Hyper>) -> Option<HyperView> {
    match h {
        Some(x) => Some(x@),
        None => None,
    }
}

pub open spec fn vec_opt(v: Option<Vec<u8>>) -> Option<Seq<u8>> {
    match v {
        Some(x) => Some(x@),
        None => None,
    }
}

/// The object data written for the object `handle`, if any.
pub open spec fn object_data_of(pic: Picture, handle: u16) -> Option<Seq<u8>> {
    let raw = vec_opt(first_of(pic.object_data@, handle));
    data_or_none(kept_head(raw), merged_items(raw, hyper_opt(first_of(pic.hypers@, handle))))
}

/// The block of the object data (`0x03FE`), none when there is nothing.
pub open spec fn data_block(pic: Picture, handle: u16) -> Seq<u8> {
    match object_data_of(pic, handle) {
        Some(d) => le16_bytes(0x03FE) + le32_bytes(((d.len() as u32) + 6) as u32) + d,
        None => Seq::empty(),
    }
}

pub open spec fn object_body(pic: Picture, o: Object) -> Seq<u8> {
    le16_bytes(0) + le16_bytes(o.handle) + le16_bytes(o.flags) + kind_bytes(pic, o) + name_block(o.name@)
        + data_block(pic, o.handle)
}

pub open spec fn objects_bytes(pic: Picture, s: Seq<Object>) -> Seq<u8>
    decreases s.len(),
{
    if s.len() == 0 {
        Seq::empty()
    } else {
        objects_bytes(pic, s.drop_last()) + record_bytes(kind_code(s.last().kind), false, object_body(pic, s.last()))
    }
}

pub open spec fn page_bytes(page: Option<Vec<u8>>) -> Seq<u8> {
    match page {
        Some(p) => chunk_bytes(1022, 1, record_bytes(34, false, le16_bytes(0) + le16_bytes(1) + le16_bytes(1) + p@)),
        None => Seq::empty(),
    }
}

/// The chunks of the order of drawing and of the objects.
#[verifier::opaque]
pub open spec fn front_chunks(pic: Picture) -> Seq<u8> {
    chunk_bytes(CHUNK_ZORDER, pic.zorder@.len(), u16s_bytes(pic.zorder@)) + chunk_bytes(
        CHUNK_OBJECTS,
        pic.objects@.len(),
        objects_bytes(pic, pic.objects@),
    )
}

/// The chunks of the pens, the brushes and the bitmaps.
#[verifier::opaque]
pub open spec fn paint_chunks(pic: Picture) -> Seq<u8> {
    let plain = dibs_of(pic.dibs@, false);
    let double = dibs_of(pic.dibs@, true);
    chunk_bytes(1004, pic.pens@.len(), pens_bytes(pic.pens@)) + chunk_bytes(
        1005,
        pic.brushes@.len(),
        brushes_bytes(pic.brushes@),
    ) + chunk_bytes(1006, plain.len(), dibs_bytes(plain)) + chunk_bytes(1007, double.len(), dibs_bytes(double))
}

/// The chunks of the fonts, strings and texts, and of the sheet.
#[verifier::opaque]
pub open spec fn text_chunks(pic: Picture) -> Seq<u8> {
    chunk_bytes(1008, pic.fonts@.len(), fonts_bytes(pic.fonts@)) + chunk_bytes(
        1009,
        pic.strings@.len(),
        strings_bytes(pic.strings@),
    ) + chunk_bytes(1010, pic.texts@.len(), texts_bytes(pic.texts@)) + page_bytes(pic.page)
}

/// The chunks of the tools and of the sheet.
#[verifier::opaque]
pub open spec fn tool_chunks(pic: Picture) -> Seq<u8> {
    paint_chunks(pic) + text_chunks(pic)
}

/// The chunks of a picture, in the order they are written.
#[verifier::opaque]
pub open spec fn chunks_bytes(pic: Picture) -> Seq<u8> {
    front_chunks(pic) + tool_chunks(pic)
}

/// A picture in the format 3.0: signature `2D`, version 0x0300, the whole
/// size, the window in `f64`, then the chunks.
pub open spec fn picture_bytes(pic: Picture) -> Seq<u8> {
    let rest = chunks_bytes(pic);
    seq![0x32u8, 0x44u8] + le16_bytes(0x0300) + le16_bytes(0x0300) + le16_bytes(0x00CC) + le32_bytes(
        (70 + rest.len()) as u32,
    ) + le64_bytes(pic.origin.0) + le64_bytes(pic.origin.1) + le64_bytes(pic.scale.0) + le64_bytes(
        pic.scale.1,
    ) + le64_bytes(pic.window.0) + le64_bytes(pic.window.1) + le16_bytes(0) + zeros(8) + rest
}

/// What the writer asks of a picture, where the original's arithmetic on
/// `u32` would overflow: the sizes of the nested lists, of names and of
/// object data.
pub open spec fn writable_picture(pic: Picture) -> bool {
    &&& forall|i: int|
        0 <= i < pic.objects@.len() ==> {
            let o = #[trigger] pic.objects@[i];
            &&& (o.kind matches ObjectKind::Group { children } ==> 14 + (children@.len() as u32) * 2 <= u32::MAX)
            &&& (o.name@.len() as u32) + 6 <= u32::MAX
            &&& (object_data_of(pic, o.handle) matches Some(d) ==> (d.len() as u32) + 6 <= u32::MAX)
        }
    &&& forall|i: int| 0 <= i < pic.texts@.len() ==> 12 + ((#[trigger] pic.texts@[i]).parts@.len() as u32) * 12 <= u32::MAX
}

fn put_u64s(w: &mut Writer, a: u64, b: u64, c: u64, d: u64)
    ensures
        final(w).data@ == old(w).data@ + box_bytes(a, b, c, d),
{
    w.u64(a);
    w.u64(b);
    w.u64(c);
    w.u64(d);
    assert(w.data@ =~= old(w).data@ + box_bytes(a, b, c, d));
}

fn put_zeros(w: &mut Writer, n: usize)
    ensures
        final(w).data@ == old(w).data@ + zeros(n as nat),
{
    let mut i: usize = 0;
    while i < n
        invariant
            i <= n,
            w.data@ == old(w).data@ + zeros(i as nat),
        decreases n - i,
    {
        w.u8(0);
        i = i + 1;
        assert(w.data@ =~= old(w).data@ + zeros(i as nat));
    }
}

/// Writes a chunk around `body`; its size is counted from where it starts.
fn put_chunk(w: &mut Writer, id: u16, count: usize, body: &Vec<u8>)
    ensures
        final(w).data@ == old(w).data@ + chunk_bytes(id, count as nat, body@),
{
    if count == 0 && id != CHUNK_ZORDER {
        assert(w.data@ =~= old(w).data@ + chunk_bytes(id, count as nat, body@));
        return;
    }
    let at = w.pos();
    w.u16(id);
    w.u32(0);
    w.u16(count as u16);
    w.u16(count as u16);
    w.u16(10);
    if count > 0 && id != CHUNK_ZORDER {
        w.u8(1);
        w.u16(0xFFFF);
        assert(le16_bytes(0xFFFF) =~= seq![0xFFu8, 0xFFu8]);
    }
    w.bytes(body.as_slice());
    let size = (w.pos() - at) as u32;
    let ghost before = w.data@;
    w.patch_u32(at + 2, size);
    let ghost extra = if count > 0 && id != CHUNK_ZORDER {
        seq![1u8, 0xFFu8, 0xFFu8]
    } else {
        Seq::empty()
    };
    assert(before =~= old(w).data@ + le16_bytes(id) + le32_bytes(0) + le16_bytes(count as u16) + le16_bytes(
        count as u16,
    ) + le16_bytes(10) + extra + body@);
    assert(w.data@ =~= old(w).data@ + chunk_bytes(id, count as nat, body@));
}

/// Writes a record around `body`; its size is counted from where it
/// starts, in a `u32` when `wide`, else in a `u16`.
fn put_record(w: &mut Writer, kind: u16, wide: bool, body: &Vec<u8>)
    ensures
        final(w).data@ == old(w).data@ + record_bytes(kind, wide, body@),
{
    let at = w.pos();
    w.u16(kind);
    if wide {
        w.u32(0);
    } else {
        w.u16(0);
    }
    w.bytes(body.as_slice());
    let size = (w.pos() - at) as u32;
    let ghost before = w.data@;
    if wide {
        w.patch_u32(at + 2, size);
        assert(before =~= old(w).data@ + le16_bytes(kind) + le32_bytes(0) + body@);
    } else {
        w.patch_u16(at + 2, size as u16);
        assert(before =~= old(w).data@ + le16_bytes(kind) + le16_bytes(0) + body@);
    }
    assert(w.data@ =~= old(w).data@ + record_bytes(kind, wide, body@));
}

fn put_tool_head(w: &mut Writer, handle: u16)
    ensures
        final(w).data@ == old(w).data@ + tool_head(handle),
{
    w.u16(0);
    w.u16(1);
    w.u16(handle);
    assert(w.data@ =~= old(w).data@ + tool_head(handle));
}

fn pens_chunk(w: &mut Writer, pens: &Vec<Pen>)
    ensures
        final(w).data@ == old(w).data@ + chunk_bytes(1004, pens@.len(), pens_bytes(pens@)),
{
    let mut body = Writer::new();
    let mut i: usize = 0;
    while i < pens.len()
        invariant
            i <= pens@.len(),
            body.data@ == pens_bytes(pens@.take(i as int)),
        decreases pens.len() - i,
    {
        let p = &pens[i];
        let mut r = Writer::new();
        put_tool_head(&mut r, p.handle);
        r.u32(p.color);
        r.u16(p.style);
        r.u16(p.width);
        r.u16(p.rop);
        assert(r.data@ =~= pen_body(*p));
        put_record(&mut body, 101, false, &r.data);
        assert(pens@.take(i + 1).drop_last() =~= pens@.take(i as int));
        i = i + 1;
    }
    assert(pens@.take(pens@.len() as int) =~= pens@);
    put_chunk(w, 1004, pens.len(), &body.data);
}

fn brushes_chunk(w: &mut Writer, brushes: &Vec<Brush>)
    ensures
        final(w).data@ == old(w).data@ + chunk_bytes(1005, brushes@.len(), brushes_bytes(brushes@)),
{
    let mut body = Writer::new();
    let mut i: usize = 0;
    while i < brushes.len()
        invariant
            i <= brushes@.len(),
            body.data@ == brushes_bytes(brushes@.take(i as int)),
        decreases brushes.len() - i,
    {
        let b = &brushes[i];
        let mut r = Writer::new();
        put_tool_head(&mut r, b.handle);
        r.u32(b.color);
        r.u16(b.style);
        r.u16(b.hatch);
        r.u16(b.rop);
        r.u16(b.dib);
        assert(r.data@ =~= brush_body(*b));
        put_record(&mut body, 102, false, &r.data);
        assert(brushes@.take(i + 1).drop_last() =~= brushes@.take(i as int));
        i = i + 1;
    }
    assert(brushes@.take(brushes@.len() as int) =~= brushes@);
    put_chunk(w, 1005, brushes.len(), &body.data);
}

fn face_field(face: &str) -> (r: Vec<u8>)
    ensures
        r@ == face_bytes(face@),
{
    let mut e = cp1251::encode(face);
    e.truncate(31);
    let ghost t = e@;
    assert(t == if cp1251::encoded(face@).len() > 31 {
        cp1251::encoded(face@).take(31)
    } else {
        cp1251::encoded(face@)
    });
    while e.len() < 32
        invariant
            e@.len() <= 32,
            t.len() <= 32,
            e@ == t + zeros((e@.len() - t.len()) as nat),
            t.len() <= e@.len(),
        decreases 32 - e.len(),
    {
        e.push(0);
        assert(e@ =~= t + zeros((e@.len() - t.len()) as nat));
    }
    e
}

fn fonts_chunk(w: &mut Writer, fonts: &Vec<Font>)
    ensures
        final(w).data@ == old(w).data@ + chunk_bytes(1008, fonts@.len(), fonts_bytes(fonts@)),
{
    let mut body = Writer::new();
    let mut i: usize = 0;
    while i < fonts.len()
        invariant
            i <= fonts@.len(),
            body.data@ == fonts_bytes(fonts@.take(i as int)),
        decreases fonts.len() - i,
    {
        let f = &fonts[i];
        let mut r = Writer::new();
        put_tool_head(&mut r, f.handle);
        r.u16(f.height as i16 as u16);
        r.u16(f.width as i16 as u16);
        r.u16(0);
        r.u16(0);
        r.u16(f.weight as i16 as u16);
        let italic: u8 = if f.italic { 1 } else { 0 };
        let underline: u8 = if f.underline { 1 } else { 0 };
        let attrs = [italic, underline, 0u8, 204u8, 0u8, 0u8, 0u8, 0u8];
        r.bytes(&attrs);
        let face = face_field(f.face.as_str());
        r.bytes(face.as_slice());
        put_zeros(&mut r, 8);
        assert(attrs@ =~= seq![flag_byte(f.italic), flag_byte(f.underline), 0u8, 204u8, 0u8, 0u8, 0u8, 0u8]);
        assert(r.data@ =~= font_body(*f));
        put_record(&mut body, 105, false, &r.data);
        assert(fonts@.take(i + 1).drop_last() =~= fonts@.take(i as int));
        i = i + 1;
    }
    assert(fonts@.take(fonts@.len() as int) =~= fonts@);
    put_chunk(w, 1008, fonts.len(), &body.data);
}

fn strings_chunk(w: &mut Writer, strings: &Vec<StringTool>)
    ensures
        final(w).data@ == old(w).data@ + chunk_bytes(1009, strings@.len(), strings_bytes(strings@)),
{
    let mut body = Writer::new();
    let mut i: usize = 0;
    while i < strings.len()
        invariant
            i <= strings@.len(),
            body.data@ == strings_bytes(strings@.take(i as int)),
        decreases strings.len() - i,
    {
        let s = &strings[i];
        let mut r = Writer::new();
        put_tool_head(&mut r, s.handle);
        r.string(s.text.as_str());
        assert(r.data@ =~= string_tool_body(*s));
        put_record(&mut body, 106, false, &r.data);
        assert(strings@.take(i + 1).drop_last() =~= strings@.take(i as int));
        i = i + 1;
    }
    assert(strings@.take(strings@.len() as int) =~= strings@);
    put_chunk(w, 1009, strings.len(), &body.data);
}

fn texts_chunk(w: &mut Writer, texts: &Vec<TextTool>)
    requires
        forall|i: int| 0 <= i < texts@.len() ==> 12 + ((#[trigger] texts@[i]).parts@.len() as u32) * 12 <= u32::MAX,
    ensures
        final(w).data@ == old(w).data@ + chunk_bytes(1010, texts@.len(), texts_bytes(texts@)),
{
    let mut body = Writer::new();
    let mut i: usize = 0;
    while i < texts.len()
        invariant
            i <= texts@.len(),
            body.data@ == texts_bytes(texts@.take(i as int)),
            forall|i: int| 0 <= i < texts@.len() ==> 12 + ((#[trigger] texts@[i]).parts@.len() as u32) * 12 <= u32::MAX,
        decreases texts.len() - i,
    {
        let t = &texts[i];
        assert(12 + (t.parts@.len() as u32) * 12 <= u32::MAX);
        let mut r = Writer::new();
        put_tool_head(&mut r, t.handle);
        r.u16(CHUNK_TEXT_PARTS);
        r.u32(12 + t.parts.len() as u32 * 12);
        r.u16(t.parts.len() as u16);
        r.u16(t.parts.len() as u16);
        r.u16(10);
        let ghost head = r.data@;
        let mut k: usize = 0;
        while k < t.parts.len()
            invariant
                k <= t.parts@.len(),
                r.data@ == head + parts_bytes(t.parts@.take(k as int)),
            decreases t.parts.len() - k,
        {
            let p = &t.parts[k];
            r.u32(p.fg);
            r.u32(p.bg);
            r.u16(p.font);
            r.u16(p.string);
            assert(t.parts@.take(k + 1).drop_last() =~= t.parts@.take(k as int));
            k = k + 1;
            assert(r.data@ =~= head + parts_bytes(t.parts@.take(k as int)));
        }
        assert(t.parts@.take(t.parts@.len() as int) =~= t.parts@);
        assert(r.data@ =~= text_tool_body(*t));
        put_record(&mut body, 107, false, &r.data);
        assert(texts@.take(i + 1).drop_last() =~= texts@.take(i as int));
        i = i + 1;
    }
    assert(texts@.take(texts@.len() as int) =~= texts@);
    put_chunk(w, 1010, texts.len(), &body.data);
}

fn dibs_chunk(w: &mut Writer, dibs: &Vec<Dib>, double: bool)
    ensures
        final(w).data@ == old(w).data@ + chunk_bytes(
            if double {
                1007
            } else {
                1006
            },
            dibs_of(dibs@, double).len(),
            dibs_bytes(dibs_of(dibs@, double)),
        ),
{
    let mut body = Writer::new();
    let mut count: usize = 0;
    let mut i: usize = 0;
    while i < dibs.len()
        invariant
            i <= dibs@.len(),
            count == dibs_of(dibs@.take(i as int), double).len(),
            count <= i,
            body.data@ == dibs_bytes(dibs_of(dibs@.take(i as int), double)),
        decreases dibs.len() - i,
    {
        let d = &dibs[i];
        assert(dibs@.take(i + 1).drop_last() =~= dibs@.take(i as int));
        assert(dibs@.take(i + 1).last() == *d);
        let ghost prev = body.data@;
        if d.double == double {
            let mut r = Writer::new();
            match &d.file {
                Some(file) => {
                    put_tool_head(&mut r, d.handle);
                    r.string(file.as_str());
                    put_record(&mut body, if double { 111 } else { 110 }, false, &r.data);
                },
                None => {
                    r.u16(1);
                    r.u16(d.handle);
                    r.bytes(d.bmp.as_slice());
                    if double {
                        r.bytes(d.mask.as_slice());
                    }
                    assert(r.data@ =~= le16_bytes(1) + le16_bytes(d.handle) + d.bmp@ + if double {
                        d.mask@
                    } else {
                        Seq::empty()
                    });
                    put_record(&mut body, if double { 104 } else { 103 }, true, &r.data);
                },
            }
            let ghost before = dibs_of(dibs@.take(i as int), double);
            assert(before.push(*d).drop_last() =~= before);
            assert(dibs_of(dibs@.take(i + 1), double) == before.push(*d));
            assert(body.data@ =~= prev + dib_record(*d));
            count = count + 1;
        }
        i = i + 1;
    }
    assert(dibs@.take(dibs@.len() as int) =~= dibs@);
    put_chunk(w, if double { 1007 } else { 1006 }, count, &body.data);
}

/// Where the first entry kept for `handle` stands.
fn first_index<T>(s: &Vec<(u16, T)>, handle: u16) -> (r: Option<usize>)
    ensures
        match first_of(s@, handle) {
            Some(x) => r matches Some(i) && i < s@.len() && s@[i as int].1 == x,
            None => r is None,
        },
{
    let mut i: usize = 0;
    assert(s@.skip(0) =~= s@);
    while i < s.len()
        invariant
            i <= s@.len(),
            first_of(s@, handle) == first_of(s@.skip(i as int), handle),
        decreases s.len() - i,
    {
        assert(s@.skip(i as int)[0] == s@[i as int]);
        assert(s@.skip(i as int).drop_first() =~= s@.skip(i + 1));
        if s[i].0 == handle {
            return Some(i);
        }
        i = i + 1;
    }
    assert(s@.skip(i as int).len() == 0);
    None
}

fn put_group(w: &mut Writer, children: &Vec<u16>)
    requires
        14 + (children@.len() as u32) * 2 <= u32::MAX,
    ensures
        final(w).data@ == old(w).data@ + le16_bytes(CHUNK_ZORDER) + le32_bytes(
            (14 + (children@.len() as u32) * 2) as u32,
        ) + le16_bytes(children@.len() as u16) + le16_bytes(children@.len() as u16) + le16_bytes(10)
            + u16s_bytes(children@),
{
    w.u16(CHUNK_ZORDER);
    w.u32(14 + children.len() as u32 * 2);
    w.u16(children.len() as u16);
    w.u16(children.len() as u16);
    w.u16(10);
    let ghost head = w.data@;
    let mut k: usize = 0;
    while k < children.len()
        invariant
            k <= children@.len(),
            w.data@ == head + u16s_bytes(children@.take(k as int)),
        decreases children.len() - k,
    {
        w.u16(children[k]);
        assert(children@.take(k + 1).drop_last() =~= children@.take(k as int));
        k = k + 1;
        assert(w.data@ =~= head + u16s_bytes(children@.take(k as int)));
    }
    assert(children@.take(children@.len() as int) =~= children@);
}

fn put_points(w: &mut Writer, points: &Vec<(u64, u64)>)
    ensures
        final(w).data@ == old(w).data@ + le16_bytes(points@.len() as u16) + points_bytes(points@),
{
    w.u16(points.len() as u16);
    let ghost head = w.data@;
    let mut k: usize = 0;
    while k < points.len()
        invariant
            k <= points@.len(),
            w.data@ == head + points_bytes(points@.take(k as int)),
        decreases points.len() - k,
    {
        w.u64(points[k].0);
        w.u64(points[k].1);
        assert(points@.take(k + 1).drop_last() =~= points@.take(k as int));
        k = k + 1;
        assert(w.data@ =~= head + points_bytes(points@.take(k as int)));
    }
    assert(points@.take(points@.len() as int) =~= points@);
}

fn put_attachment(w: &mut Writer, pic: &Picture, handle: u16)
    ensures
        final(w).data@ == old(w).data@ + attachment_bytes(first_of(pic.arrows@, handle)),
{
    match first_index(&pic.arrows, handle) {
        Some(i) => {
            let extra = &pic.arrows[i].1;
            if extra.len() < 256 {
                w.u8(extra.len() as u8);
                w.bytes(extra.as_slice());
                assert(w.data@ =~= old(w).data@ + (seq![extra@.len() as u8] + extra@));
            } else {
                w.u8(0);
                assert(w.data@ =~= old(w).data@ + seq![0u8]);
            }
        },
        None => {
            w.u8(0);
            assert(w.data@ =~= old(w).data@ + seq![0u8]);
        },
    }
}

#[verifier::rlimit(60)]
fn put_kind(w: &mut Writer, pic: &Picture, o: &Object)
    requires
        o.kind matches ObjectKind::Group { children } ==> 14 + (children@.len() as u32) * 2 <= u32::MAX,
    ensures
        final(w).data@ == old(w).data@ + kind_bytes(*pic, *o),
{
    match &o.kind {
        ObjectKind::Group { children } => {
            put_group(w, children);
        },
        ObjectKind::Polyline { x, y, w: ww, h, pen, brush, points } => {
            put_u64s(w, *x, *y, *ww, *h);
            w.u16(*pen);
            w.u16(*brush);
            put_points(w, points);
            put_attachment(w, pic, o.handle);
        },
        ObjectKind::Bitmap { x, y, w: ww, h, src, dib, .. } => {
            put_u64s(w, *x, *y, *ww, *h);
            put_u64s(w, src.0, src.1, src.2, src.3);
            w.u16(0);
            w.u16(*dib);
        },
        ObjectKind::Text { x, y, w: ww, h, text } => {
            put_u64s(w, *x, *y, *ww, *h);
            w.u16(*text);
            put_zeros(w, 18);
        },
        ObjectKind::Control { x, y, w: ww, h, class, caption, style } => {
            put_u64s(w, *x, *y, *ww, *h);
            w.string(class.as_str());
            w.string(caption.as_str());
            w.u16(0);
            w.u32(*style);
            put_zeros(w, 10);
        },
        ObjectKind::Unknown { .. } => {},
    }
    assert(w.data@ =~= old(w).data@ + kind_bytes(*pic, *o));
}

#[verifier::rlimit(60)]
fn put_object(w: &mut Writer, pic: &Picture, o: &Object)
    requires
        o.kind matches ObjectKind::Group { children } ==> 14 + (children@.len() as u32) * 2 <= u32::MAX,
        (o.name@.len() as u32) + 6 <= u32::MAX,
        object_data_of(*pic, o.handle) matches Some(d) ==> (d.len() as u32) + 6 <= u32::MAX,
    ensures
        final(w).data@ == old(w).data@ + record_bytes(kind_code(o.kind), false, object_body(*pic, *o)),
{
    let mut r = Writer::new();
    r.u16(0);
    r.u16(o.handle);
    r.u16(o.flags);
    put_kind(&mut r, pic, o);
    if !o.name.as_str().is_empty() {
        let bytes = cp1251::encode(o.name.as_str());
        r.u16(0xCD);
        r.u32(bytes.len() as u32 + 6);
        r.bytes(bytes.as_slice());
    }
    let ghost mid = r.data@;
    let hyper = match first_index(&pic.hypers, o.handle) {
        Some(i) => Some(&pic.hypers[i].1),
        None => None,
    };
    let raw = match first_index(&pic.object_data, o.handle) {
        Some(i) => Some(pic.object_data[i].1.as_slice()),
        None => None,
    };
    assert(opt_view(raw) == vec_opt(first_of(pic.object_data@, o.handle)));
    assert((match hyper {
        Some(h) => Some(h@),
        None => None,
    }) == hyper_opt(first_of(pic.hypers@, o.handle)));
    match merge_object_data(raw, hyper) {
        Some(bytes) => {
            r.u16(0x03FE);
            r.u32(bytes.len() as u32 + 6);
            r.bytes(bytes.as_slice());
        },
        None => {},
    }
    assert(r.data@ =~= object_body(*pic, *o));
    let kind: u16 = match &o.kind {
        ObjectKind::Polyline { .. } => 20,
        ObjectKind::Bitmap { masked, .. } => if *masked {
            22
        } else {
            21
        },
        ObjectKind::Text { .. } => 23,
        ObjectKind::Control { .. } => 26,
        ObjectKind::Group { .. } => 3,
        ObjectKind::Unknown { kind } => *kind,
    };
    put_record(w, kind, false, &r.data);
}

#[verifier::rlimit(60)]
fn put_front_chunks(w: &mut Writer, pic: &Picture)
    requires
        writable_picture(*pic),
    ensures
        final(w).data@ == old(w).data@ + front_chunks(*pic),
{
    let mut z = Writer::new();
    let mut k: usize = 0;
    while k < pic.zorder.len()
        invariant
            k <= pic.zorder@.len(),
            z.data@ == u16s_bytes(pic.zorder@.take(k as int)),
        decreases pic.zorder.len() - k,
    {
        z.u16(pic.zorder[k]);
        assert(pic.zorder@.take(k + 1).drop_last() =~= pic.zorder@.take(k as int));
        k = k + 1;
    }
    assert(pic.zorder@.take(pic.zorder@.len() as int) =~= pic.zorder@);
    put_chunk(w, CHUNK_ZORDER, pic.zorder.len(), &z.data);
    let mut objs = Writer::new();
    let mut i: usize = 0;
    while i < pic.objects.len()
        invariant
            i <= pic.objects@.len(),
            writable_picture(*pic),
            objs.data@ == objects_bytes(*pic, pic.objects@.take(i as int)),
        decreases pic.objects.len() - i,
    {
        let o = &pic.objects[i];
        assert(pic.objects@[i as int] == *o);
        put_object(&mut objs, pic, o);
        assert(pic.objects@.take(i + 1).drop_last() =~= pic.objects@.take(i as int));
        i = i + 1;
    }
    assert(pic.objects@.take(pic.objects@.len() as int) =~= pic.objects@);
    put_chunk(w, CHUNK_OBJECTS, pic.objects.len(), &objs.data);
    assert(w.data@ =~= old(w).data@ + front_chunks(*pic)) by {
        reveal(front_chunks);
    }
}

fn put_paint_chunks(w: &mut Writer, pic: &Picture)
    ensures
        final(w).data@ == old(w).data@ + paint_chunks(*pic),
{
    pens_chunk(w, &pic.pens);
    brushes_chunk(w, &pic.brushes);
    dibs_chunk(w, &pic.dibs, false);
    dibs_chunk(w, &pic.dibs, true);
    assert(w.data@ =~= old(w).data@ + paint_chunks(*pic)) by {
        reveal(paint_chunks);
    }
}

fn put_text_chunks(w: &mut Writer, pic: &Picture)
    requires
        forall|i: int| 0 <= i < pic.texts@.len() ==> 12 + ((#[trigger] pic.texts@[i]).parts@.len() as u32) * 12 <= u32::MAX,
    ensures
        final(w).data@ == old(w).data@ + text_chunks(*pic),
{
    fonts_chunk(w, &pic.fonts);
    strings_chunk(w, &pic.strings);
    texts_chunk(w, &pic.texts);
    let ghost mid = w.data@;
    match &pic.page {
        Some(page) => {
            let mut r = Writer::new();
            r.u16(0);
            r.u16(1);
            r.u16(1);
            r.bytes(page.as_slice());
            let mut c = Writer::new();
            put_record(&mut c, 34, false, &r.data);
            put_chunk(w, 1022, 1, &c.data);
            assert(w.data@ =~= mid + page_bytes(pic.page));
        },
        None => {
            assert(w.data@ =~= mid + page_bytes(pic.page));
        },
    }
    assert(w.data@ =~= old(w).data@ + text_chunks(*pic)) by {
        reveal(text_chunks);
    }
}

fn put_tool_chunks(w: &mut Writer, pic: &Picture)
    requires
        writable_picture(*pic),
    ensures
        final(w).data@ == old(w).data@ + tool_chunks(*pic),
{
    put_paint_chunks(w, pic);
    put_text_chunks(w, pic);
    assert(w.data@ =~= old(w).data@ + tool_chunks(*pic)) by {
        reveal(tool_chunks);
    }
}

/// Builds a picture in the format 3.0 (`2D`, version 0x0300): all the
/// coordinates in `f64`, records and chunks with their sizes, the names of
/// objects in blocks `0xCD`.
pub fn write(pic: &Picture) -> (out: Vec<u8>)
    requires
        writable_picture(*pic),
    ensures
        out@ == picture_bytes(*pic),
{
    let mut w = Writer::new();
    w.u8(0x32);
    w.u8(0x44);
    w.u16(0x0300);
    w.u16(0x0300);
    w.u16(0x00CC);
    let total_at = w.pos();
    w.u32(0);
    w.u64(pic.origin.0);
    w.u64(pic.origin.1);
    w.u64(pic.scale.0);
    w.u64(pic.scale.1);
    w.u64(pic.window.0);
    w.u64(pic.window.1);
    w.u16(0);
    put_zeros(&mut w, 8);
    let ghost head = w.data@;
    assert(head.len() == 70);
    put_front_chunks(&mut w, pic);
    put_tool_chunks(&mut w, pic);
    let ghost before = w.data@;
    assert(before =~= head + chunks_bytes(*pic)) by {
        reveal(chunks_bytes);
    }
    let total = w.pos() as u32;
    w.patch_u32(total_at, total);
    assert(w.data@ =~= picture_bytes(*pic));
    w.data
}

/// A coordinate at `pos`: the bits of a `f64` when `wide`, else those of
/// the `f64` equal to an `i16`.
pub open spec fn coord_at(d: Seq<u8>, pos: int, wide: bool) -> u64 {
    if wide {
        le_u64(d.subrange(pos, pos + 8))
    } else {
        double_bits_of_int(u16_at(d, pos) as i16 as int)
    }
}

/// The head of a picture read so far: version and window.
pub open spec fn same_head(a: Picture, b: Picture) -> bool {
    &&& a.version == b.version
    &&& a.origin == b.origin
    &&& a.scale == b.scale
    &&& a.window == b.window
}

/// Where the origin, scale and window of a picture stand whose signature is
/// at `start`: after the version, a `u16` and a `u32` (3.x), or two `u32`
/// (earlier), each value `step` bytes long.
pub open spec fn window_at(d: Seq<u8>, start: int) -> int {
    if u16_at(d, start + 2) >= 0x0300 {
        start + 12
    } else {
        start + 14
    }
}

pub open spec fn coord_step(version: u16) -> int {
    if version >= 0x0200 {
        8
    } else {
        2
    }
}

/// Where the signature `2D` starts among the first 18 bytes, from `i` on.
pub open spec fn sig_from(d: Seq<u8>, i: int) -> Option<int>
    decreases 17 - i,
{
    if i >= 17 || i < 0 || i + 2 > d.len() {
        None
    } else if d[i] == 0x32 && d[i + 1] == 0x44 {
        Some(i)
    } else {
        sig_from(d, i + 1)
    }
}

/// A graphic object as read: handle, name, flags and what it holds.
pub struct ObjectView {
    pub handle: u16,
    pub name: Seq<char>,
    pub flags: u16,
    pub kind: KindView,
}

pub enum KindView {
    Polyline { x: u64, y: u64, w: u64, h: u64, pen: u16, brush: u16, points: Seq<(u64, u64)> },
    Bitmap { x: u64, y: u64, w: u64, h: u64, src: (u64, u64, u64, u64), dib: u16, masked: bool },
    Text { x: u64, y: u64, w: u64, h: u64, text: u16 },
    Control { x: u64, y: u64, w: u64, h: u64, class: Seq<char>, caption: Seq<char>, style: u32 },
    Group { children: Seq<u16> },
    Unknown { kind: u16 },
}

pub struct FontView {
    pub handle: u16,
    pub height: i32,
    pub width: i32,
    pub weight: i32,
    pub italic: bool,
    pub underline: bool,
    pub face: Seq<char>,
}

pub struct DibView {
    pub handle: u16,
    pub bmp: Seq<u8>,
    pub mask: Seq<u8>,
    pub file: Option<Seq<char>>,
    pub double: bool,
}

/// A picture as plain values. `fit` runs beside `objects`: the box of
/// that object is the one of its points, found outside (the file's box is
/// held until then).
pub struct PictureView {
    pub version: u16,
    pub origin: (u64, u64),
    pub scale: (u64, u64),
    pub window: (u64, u64),
    pub objects: Seq<ObjectView>,
    pub fit: Seq<bool>,
    pub zorder: Seq<u16>,
    pub pens: Seq<Pen>,
    pub brushes: Seq<Brush>,
    pub fonts: Seq<FontView>,
    pub strings: Seq<(u16, Seq<char>)>,
    pub texts: Seq<(u16, Seq<TextPart>)>,
    pub dibs: Seq<DibView>,
    pub page: Option<Seq<u8>>,
    pub hypers: Seq<(u16, HyperView)>,
    pub object_data: Seq<(u16, Seq<u8>)>,
    pub arrows: Seq<(u16, Seq<u8>)>,
}

pub open spec fn kind_view(k: ObjectKind) -> KindView {
    match k {
        ObjectKind::Polyline { x, y, w, h, pen, brush, points } => KindView::Polyline {
            x,
            y,
            w,
            h,
            pen,
            brush,
            points: points@,
        },
        ObjectKind::Bitmap { x, y, w, h, src, dib, masked } => KindView::Bitmap { x, y, w, h, src, dib, masked },
        ObjectKind::Text { x, y, w, h, text } => KindView::Text { x, y, w, h, text },
        ObjectKind::Control { x, y, w, h, class, caption, style } => KindView::Control {
            x,
            y,
            w,
            h,
            class: class@,
            caption: caption@,
            style,
        },
        ObjectKind::Group { children } => KindView::Group { children: children@ },
        ObjectKind::Unknown { kind } => KindView::Unknown { kind },
    }
}

pub open spec fn object_view(o: Object) -> ObjectView {
    ObjectView { handle: o.handle, name: o.name@, flags: o.flags, kind: kind_view(o.kind) }
}

pub open spec fn font_view(f: Font) -> FontView {
    FontView {
        handle: f.handle,
        height: f.height,
        width: f.width,
        weight: f.weight,
        italic: f.italic,
        underline: f.underline,
        face: f.face@,
    }
}

pub open spec fn dib_view(d: Dib) -> DibView {
    DibView {
        handle: d.handle,
        bmp: d.bmp@,
        mask: d.mask@,
        file: match d.file {
            Some(f) => Some(f@),
            None => None,
        },
        double: d.double,
    }
}

/// The plain values of a picture; `fit` is given beside.
pub open spec fn pic_view(p: Picture, fit: Seq<bool>) -> PictureView {
    PictureView {
        version: p.version,
        origin: p.origin,
        scale: p.scale,
        window: p.window,
        objects: p.objects@.map_values(|o: Object| object_view(o)),
        fit,
        zorder: p.zorder@,
        pens: p.pens@,
        brushes: p.brushes@,
        fonts: p.fonts@.map_values(|f: Font| font_view(f)),
        strings: p.strings@.map_values(|s: StringTool| (s.handle, s.text@)),
        texts: p.texts@.map_values(|t: TextTool| (t.handle, t.parts@)),
        dibs: p.dibs@.map_values(|d: Dib| dib_view(d)),
        page: match p.page {
            Some(v) => Some(v@),
            None => None,
        },
        hypers: p.hypers@.map_values(|e: (u16, Hyper)| (e.0, e.1@)),
        object_data: p.object_data@.map_values(|e: (u16, Vec<u8>)| (e.0, e.1@)),
        arrows: p.arrows@.map_values(|e: (u16, Vec<u8>)| (e.0, e.1@)),
    }
}

/// The number of bytes of one coordinate.
pub open spec fn step_of(wide: bool) -> int {
    if wide {
        8
    } else {
        2
    }
}

/// A polyline's points at `p`: `n` pairs of coordinates.
pub open spec fn points_at(d: Seq<u8>, p: int, n: nat, wide: bool) -> Seq<(u64, u64)> {
    Seq::new(n, |k: int| (coord_at(d, p + 2 * k * step_of(wide), wide), coord_at(d, p + (2 * k + 1) * step_of(wide), wide)))
}

pub open spec fn u16s_at(d: Seq<u8>, p: int, n: nat) -> Seq<u16> {
    Seq::new(n, |k: int| u16_at(d, p + 2 * k))
}

/// The children of a group at `p`: a z-order chunk, or a count and the
/// handles; `None` when the bytes end first.
pub open spec fn group_at(d: Seq<u8>, p: int, sized: bool) -> Option<(Seq<u16>, int)> {
    if p + 2 <= d.len() && u16_at(d, p) == CHUNK_ZORDER {
        let q = p + 2 + if sized {
            4int
        } else {
            0int
        };
        if q + 6 > d.len() {
            None
        } else {
            let n = u16_at(d, q) as nat;
            if q + 6 + 2 * n > d.len() {
                None
            } else {
                Some((u16s_at(d, q + 6, n), q + 6 + 2 * n))
            }
        }
    } else if p + 2 > d.len() {
        None
    } else {
        let n = u16_at(d, p) as nat;
        if p + 2 + 2 * n > d.len() {
            None
        } else {
            Some((u16s_at(d, p + 2, n), p + 2 + 2 * n))
        }
    }
}

/// The body of an object of `kind` at `p`, when it reads whole: what it
/// holds, whether its box is to be found from its points, its attachment
/// and where it ends.
#[verifier::opaque]
pub open spec fn body_at(d: Seq<u8>, p: int, sized: bool, wide: bool, kind: u16) -> Option<
    (KindView, bool, Seq<u8>, int),
> {
    let st = step_of(wide);
    if 3 <= kind <= 5 {
        match group_at(d, p, sized) {
            Some((children, e)) => Some((KindView::Group { children }, false, Seq::empty(), e)),
            None => None,
        }
    } else if p + 4 * st > d.len() {
        None
    } else {
        let x = coord_at(d, p, wide);
        let y = coord_at(d, p + st, wide);
        let w = coord_at(d, p + 2 * st, wide);
        let h = coord_at(d, p + 3 * st, wide);
        let q = p + 4 * st;
        if kind == 20 {
            if q + 6 > d.len() {
                None
            } else {
                let n = u16_at(d, q + 4) as nat;
                let r = q + 6 + 2 * n * st;
                if r > d.len() {
                    None
                } else {
                    let points = points_at(d, q + 6, n, wide);
                    if wide {
                        if r + 1 > d.len() || r + 1 + d[r] > d.len() {
                            None
                        } else {
                            let extra = d.subrange(r + 1, r + 1 + d[r]);
                            Some(
                                (
                                    KindView::Polyline {
                                        x,
                                        y,
                                        w,
                                        h,
                                        pen: u16_at(d, q),
                                        brush: u16_at(d, q + 2),
                                        points,
                                    },
                                    n > 0 && extra.len() == 0,
                                    extra,
                                    r + 1 + d[r],
                                ),
                            )
                        }
                    } else {
                        Some(
                            (
                                KindView::Polyline { x, y, w, h, pen: u16_at(d, q), brush: u16_at(d, q + 2), points },
                                n > 0,
                                Seq::empty(),
                                r,
                            ),
                        )
                    }
                }
            }
        } else if kind == 21 || kind == 22 {
            if q + 4 * st + 4 > d.len() {
                None
            } else {
                let src = (
                    coord_at(d, q, wide),
                    coord_at(d, q + st, wide),
                    coord_at(d, q + 2 * st, wide),
                    coord_at(d, q + 3 * st, wide),
                );
                Some(
                    (
                        KindView::Bitmap { x, y, w, h, src, dib: u16_at(d, q + 4 * st + 2), masked: kind == 22 },
                        false,
                        Seq::empty(),
                        q + 4 * st + 4,
                    ),
                )
            }
        } else if kind == 23 {
            if q + 20 > d.len() {
                None
            } else {
                Some((KindView::Text { x, y, w, h, text: u16_at(d, q) }, false, Seq::empty(), q + 20))
            }
        } else if kind == 26 {
            match string_at(d, q) {
                None => None,
                Some((class, q1)) => match string_at(d, q1) {
                    None => None,
                    Some((caption, q2)) => if q2 + 16 > d.len() {
                        None
                    } else {
                        Some(
                            (
                                KindView::Control { x, y, w, h, class, caption, style: u32_at(d, q2 + 2) },
                                false,
                                Seq::empty(),
                                q2 + 16,
                            ),
                        )
                    },
                },
            }
        } else {
            None
        }
    }
}

/// A tool as read.
pub enum ToolView {
    Pen(Pen),
    Brush(Brush),
    Font(FontView),
    Str(u16, Seq<char>),
    Text(u16, Seq<TextPart>),
    Page(Seq<u8>),
    Dib(DibView),
}

pub open spec fn parts_at(d: Seq<u8>, p: int, n: nat) -> Seq<TextPart> {
    Seq::new(
        n,
        |k: int|
            TextPart {
                fg: u32_at(d, p + 12 * k),
                bg: u32_at(d, p + 12 * k + 4),
                font: u16_at(d, p + 12 * k + 8),
                string: u16_at(d, p + 12 * k + 10),
            },
    )
}

/// A raster at `p` (a BMP whose header gives its size), when it is there
/// whole.
pub open spec fn bmp_at(d: Seq<u8>, p: int) -> Option<(Seq<u8>, int)> {
    if p + 6 > d.len() || u16_at(d, p) != 0x4D42 {
        None
    } else {
        let size = u32_at(d, p + 2) as int;
        if p + size > d.len() {
            None
        } else {
            Some((d.subrange(p, p + size), p + size))
        }
    }
}

/// The body of a tool of `kind` at `p`, when it reads whole.
#[verifier::opaque]
pub open spec fn tool_at(d: Seq<u8>, p: int, sized: bool, kind: u16, handle: u16, double: bool) -> Option<
    (ToolView, int),
> {
    if kind == 101 {
        if p + 10 > d.len() {
            None
        } else {
            Some(
                (
                    ToolView::Pen(
                        Pen {
                            handle,
                            color: u32_at(d, p),
                            style: u16_at(d, p + 4),
                            width: u16_at(d, p + 6),
                            rop: u16_at(d, p + 8),
                        },
                    ),
                    p + 10,
                ),
            )
        }
    } else if kind == 102 {
        if p + 12 > d.len() {
            None
        } else {
            Some(
                (
                    ToolView::Brush(
                        Brush {
                            handle,
                            color: u32_at(d, p),
                            style: u16_at(d, p + 4),
                            hatch: u16_at(d, p + 6),
                            rop: u16_at(d, p + 8),
                            dib: u16_at(d, p + 10),
                        },
                    ),
                    p + 12,
                ),
            )
        }
    } else if kind == 105 {
        let e = p + 50 + if sized {
            8int
        } else {
            0int
        };
        if e > d.len() {
            None
        } else {
            Some(
                (
                    ToolView::Font(
                        FontView {
                            handle,
                            height: u16_at(d, p) as i16 as i32,
                            width: u16_at(d, p + 2) as i16 as i32,
                            weight: u16_at(d, p + 8) as i16 as i32,
                            italic: d[p + 10] != 0,
                            underline: d[p + 11] != 0,
                            face: cp1251::decoded(before_nul(d.subrange(p + 18, p + 50))),
                        },
                    ),
                    e,
                ),
            )
        }
    } else if kind == 106 {
        match string_at(d, p) {
            Some((t, e)) => Some((ToolView::Str(handle, t), e)),
            None => None,
        }
    } else if kind == 107 {
        let q = p + 2 + if sized {
            4int
        } else {
            0int
        };
        if p + 2 > d.len() || u16_at(d, p) != CHUNK_TEXT_PARTS || q + 6 > d.len() {
            None
        } else {
            let n = u16_at(d, q) as nat;
            if q + 6 + 12 * n > d.len() {
                None
            } else {
                Some((ToolView::Text(handle, parts_at(d, q + 6, n)), q + 6 + 12 * n))
            }
        }
    } else if kind == 34 {
        if p + 34 > d.len() {
            None
        } else {
            Some((ToolView::Page(d.subrange(p, p + 34)), p + 34))
        }
    } else if kind == 110 || kind == 111 {
        match string_at(d, p) {
            Some((f, e)) => Some(
                (ToolView::Dib(DibView { handle, bmp: Seq::empty(), mask: Seq::empty(), file: Some(f), double }), e),
            ),
            None => None,
        }
    } else if kind == 103 {
        match bmp_at(d, p) {
            Some((b, e)) => Some(
                (ToolView::Dib(DibView { handle, bmp: b, mask: Seq::empty(), file: None, double }), e),
            ),
            None => None,
        }
    } else if kind == 104 {
        match bmp_at(d, p) {
            Some((b, e)) => match bmp_at(d, e) {
                Some((m, e2)) => Some(
                    (ToolView::Dib(DibView { handle, bmp: b, mask: m, file: None, double }), e2),
                ),
                None => None,
            },
            None => None,
        }
    } else {
        None
    }
}

/// A picture with one more tool.
pub open spec fn with_tool(v: PictureView, t: ToolView) -> PictureView {
    match t {
        ToolView::Pen(x) => PictureView { pens: v.pens.push(x), ..v },
        ToolView::Brush(x) => PictureView { brushes: v.brushes.push(x), ..v },
        ToolView::Font(x) => PictureView { fonts: v.fonts.push(x), ..v },
        ToolView::Str(h, t) => PictureView { strings: v.strings.push((h, t)), ..v },
        ToolView::Text(h, ps) => PictureView { texts: v.texts.push((h, ps)), ..v },
        ToolView::Page(b) => PictureView { page: Some(b), ..v },
        ToolView::Dib(x) => PictureView { dibs: v.dibs.push(x), ..v },
    }
}

/// The blocks after the body of an object of the format 3.x, from `p` up
/// to `end`: a name (`0xCD`) replaces `name`; object data (`0x03FE`) adds
/// its hyperlink, if any, and itself. Other blocks are passed over; a
/// block that does not fit ends the list.
#[verifier::opaque]
pub open spec fn blocks_from(d: Seq<u8>, p: int, end: int, handle: u16, name: Seq<char>, v: PictureView) -> Option<
    (Seq<char>, PictureView),
>
    decreases end - p,
{
    if !(p <= end && end - p >= 6) {
        Some((name, v))
    } else if p + 6 > d.len() {
        None
    } else {
        let tag = u16_at(d, p);
        let n = u32_at(d, p + 2) as int;
        if n < 6 || n - 6 > end - (p + 6) {
            Some((name, v))
        } else if p + n > d.len() {
            None
        } else {
            let data = d.subrange(p + 6, p + n);
            if tag == 0xCD {
                blocks_from(d, p + n, end, handle, cp1251::decoded(data), v)
            } else if tag == 0x03FE {
                let v1 = match hyper_of(data) {
                    Some(h) => PictureView { hypers: v.hypers.push((handle, h)), ..v },
                    None => v,
                };
                blocks_from(
                    d,
                    p + n,
                    end,
                    handle,
                    name,
                    PictureView { object_data: v1.object_data.push((handle, data)), ..v1 },
                )
            } else {
                blocks_from(d, p + n, end, handle, name, v)
            }
        }
    }
}

/// A record of the object chunk after its kind and size, at `p`: the
/// picture with the object and where the next record starts (`end` in the
/// format 3.x).
#[verifier::opaque]
pub open spec fn object_item(d: Seq<u8>, p: int, sized: bool, wide: bool, kind: u16, end: int, v: PictureView) -> Option<
    (PictureView, int),
> {
    match object_head(d, p, sized) {
        None => None,
        Some((handle, flags, name, q)) => match body_at(d, q, sized, wide, kind) {
            None => None,
            Some((k, fit, extra, q2)) => {
                let v1 = with_arrow(v, handle, extra);
                if sized {
                    match blocks_from(d, q2, end, handle, name, v1) {
                        None => None,
                        Some((name2, v2)) => Some((with_object(v2, ObjectView { handle, name: name2, flags, kind: k }, fit), end)),
                    }
                } else {
                    Some((with_object(v1, ObjectView { handle, name, flags, kind: k }, fit), q2))
                }
            },
        },
    }
}

/// A picture with the attachment of a polyline, if it has one.
pub open spec fn with_arrow(v: PictureView, handle: u16, extra: Seq<u8>) -> PictureView {
    if extra.len() > 0 {
        PictureView { arrows: v.arrows.push((handle, extra)), ..v }
    } else {
        v
    }
}

/// A picture with one more object.
pub open spec fn with_object(v: PictureView, o: ObjectView, fit: bool) -> PictureView {
    PictureView { objects: v.objects.push(o), fit: v.fit.push(fit), ..v }
}

/// The head of a record of the object chunk at `p`: handle, flags, name
/// (3.x: in a block after the body) and where the body starts.
pub open spec fn object_head(d: Seq<u8>, p: int, sized: bool) -> Option<(u16, u16, Seq<char>, int)> {
    if sized {
        if p + 6 > d.len() {
            None
        } else {
            Some((u16_at(d, p + 2), u16_at(d, p + 4), Seq::<char>::empty(), p + 6))
        }
    } else if p + 4 > d.len() {
        None
    } else {
        match string_at(d, p + 4) {
            Some((name, q)) => Some((u16_at(d, p), u16_at(d, p + 2), name, q)),
            None => None,
        }
    }
}

/// A record of chunk `id` at `at`, when it reads whole: the picture with it
/// and where the next record starts. In the format 3.x a record has its
/// size, and the next one starts there.
#[verifier::opaque]
pub open spec fn item_at(d: Seq<u8>, at: int, sized: bool, wide: bool, id: u16, v: PictureView) -> Option<
    (PictureView, int),
> {
    if at + 2 > d.len() {
        None
    } else {
        let kind = u16_at(d, at);
        let wide_size = kind == 103 || kind == 104;
        let p = at + 2 + if !sized {
            0int
        } else if wide_size {
            4int
        } else {
            2int
        };
        let end = if !sized {
            0
        } else if wide_size {
            at + u32_at(d, at + 2)
        } else {
            at + u16_at(d, at + 2)
        };
        if p > d.len() {
            None
        } else if id == CHUNK_OBJECTS {
            object_item(d, p, sized, wide, kind, end, v)
        } else {
            let q = p + if sized && !wide_size {
                2int
            } else {
                0int
            };
            if q + 4 > d.len() {
                None
            } else {
                match tool_at(d, q + 4, sized, kind, u16_at(d, q + 2), id == 1007) {
                    None => None,
                    Some((t, e)) => Some(
                        (
                            with_tool(v, t),
                            if sized {
                                end
                            } else {
                                e
                            },
                        ),
                    ),
                }
            }
        }
    }
}

#[verifier::opaque]
pub open spec fn records_from(d: Seq<u8>, p: int, n: nat, sized: bool, wide: bool, id: u16, v: PictureView) -> Option<
    (PictureView, int),
>
    decreases n,
{
    if n == 0 {
        Some((v, p))
    } else {
        match item_at(d, p, sized, wide, id, v) {
            None => None,
            Some((v1, p1)) => records_from(d, p1, (n - 1) as nat, sized, wide, id, v1),
        }
    }
}

/// A chunk at `at`, when it reads whole. In the format 3.x the next chunk
/// starts where its size says.
#[verifier::opaque]
pub open spec fn chunk_at(d: Seq<u8>, at: int, sized: bool, wide: bool, id: u16, v: PictureView) -> Option<
    (PictureView, int),
> {
    let p = at + 2 + if sized {
        4int
    } else {
        0int
    };
    if p + 6 > d.len() {
        None
    } else {
        let count = u16_at(d, p) as nat;
        let q = p + 6;
        let size_end = at + u32_at(d, at + 2);
        if id == CHUNK_ZORDER {
            if q + 2 * count > d.len() {
                None
            } else {
                Some(
                    (
                        PictureView { zorder: v.zorder + u16s_at(d, q, count), ..v },
                        if sized {
                            size_end
                        } else {
                            q + 2 * count
                        },
                    ),
                )
            }
        } else if id == CHUNK_TEXT_PARTS {
            None
        } else {
            let q1 = if count > 0 {
                q + 3
            } else {
                q
            };
            if q1 > d.len() {
                None
            } else {
                match records_from(d, q1, count, sized, wide, id, v) {
                    None => None,
                    Some((v1, e)) => Some(
                        (
                            v1,
                            if sized {
                                size_end
                            } else {
                                e
                            },
                        ),
                    ),
                }
            }
        }
    }
}

/// The chunks from `p` on. Reading stops at the end, at a number that is
/// no chunk, or (3.x) at a chunk whose size does not take the reading
/// forward. In the formats before 3.x the tools follow at `tools_at` + 4.
#[verifier::opaque]
pub open spec fn chunks_from(d: Seq<u8>, p: int, sized: bool, wide: bool, tools_at: Option<int>, v: PictureView) -> Option<
    (PictureView, int),
>
    decreases d.len() - p,
{
    if p < 0 || p + 2 > d.len() {
        Some((v, p))
    } else {
        let id = u16_at(d, p);
        if 1000 <= id <= 1030 {
            match chunk_at(d, p, sized, wide, id, v) {
                None => None,
                Some((v1, p1)) => if p1 <= p || p1 > d.len() {
                    Some((v1, p1))
                } else {
                    chunks_from(d, p1, sized, wide, tools_at, v1)
                },
            }
        } else {
            match tools_at {
                Some(t) => if p <= t + 2 {
                    if t + 4 > d.len() {
                        Some((v, t + 4))
                    } else {
                        chunks_from(d, t + 4, sized, wide, tools_at, v)
                    }
                } else {
                    Some((v, p))
                },
                None => Some((v, p)),
            }
        }
    }
}

/// Format 2.x: the list of object data after the tools, from `i` on.
pub open spec fn tail_from(t: Seq<u8>, i: int, v: PictureView) -> PictureView
    decreases t.len() - i,
{
    if i < 0 || i + 2 > t.len() {
        v
    } else {
        let kind = u16_at(t, i);
        if kind != 1 && kind != 2 {
            v
        } else if kind == 1 && i + 4 > t.len() {
            v
        } else {
            let handle: u16 = if kind == 1 {
                u16_at(t, i + 2)
            } else {
                0
            };
            let j = i + if kind == 1 {
                4int
            } else {
                2int
            };
            if !(j + 2 <= t.len() && u16_at(t, j) == 0x03FE) {
                v
            } else {
                let rest = t.subrange(j + 2, t.len() as int);
                match data_len(rest) {
                    None => v,
                    Some(m) => {
                        let data = rest.subrange(0, m);
                        let v1 = if kind == 1 {
                            let v0 = match hyper_of(data) {
                                Some(h) => PictureView { hypers: v.hypers.push((handle, h)), ..v },
                                None => v,
                            };
                            PictureView { object_data: v0.object_data.push((handle, data)), ..v0 }
                        } else {
                            v
                        };
                        if m <= 0 {
                            v1
                        } else {
                            tail_from(t, j + 2 + m, v1)
                        }
                    },
                }
            }
        }
    }
}

/// A picture with its head read: the version and the window, no objects
/// and no tools.
pub open spec fn empty_view(version: u16, origin: (u64, u64), scale: (u64, u64), window: (u64, u64)) -> PictureView {
    PictureView {
        version,
        origin,
        scale,
        window,
        objects: Seq::empty(),
        fit: Seq::empty(),
        zorder: Seq::empty(),
        pens: Seq::empty(),
        brushes: Seq::empty(),
        fonts: Seq::empty(),
        strings: Seq::empty(),
        texts: Seq::empty(),
        dibs: Seq::empty(),
        page: None,
        hypers: Seq::empty(),
        object_data: Seq::empty(),
        arrows: Seq::empty(),
    }
}

/// Where the chunks of a picture whose signature is at `start` begin.
pub open spec fn chunks_start(d: Seq<u8>, start: int) -> Option<int> {
    let version = u16_at(d, start + 2);
    let at = window_at(d, start) + 6 * coord_step(version);
    if version >= 0x0300 {
        Some(at + 10)
    } else {
        match string_at(d, at) {
            Some((_, q)) => Some(q + 14),
            None => None,
        }
    }
}

/// What a picture block holds whose signature is at `start`, when every
/// part of it reads whole (objects and tools of kinds that are known, and
/// no field cut by the end of the bytes); `None` otherwise.
#[verifier::opaque]
pub open spec fn picture_of(d: Seq<u8>, start: int) -> Option<PictureView> {
    let version = u16_at(d, start + 2);
    let sized = version >= 0x0300;
    let wide = version >= 0x0200;
    let at = window_at(d, start);
    let st = coord_step(version);
    let head = empty_view(
        version,
        (coord_at(d, at, wide), coord_at(d, at + st, wide)),
        (coord_at(d, at + 2 * st, wide), coord_at(d, at + 3 * st, wide)),
        (coord_at(d, at + 4 * st, wide), coord_at(d, at + 5 * st, wide)),
    );
    let tools_at = if sized {
        None
    } else {
        Some(start + u32_at(d, start + 10))
    };
    match chunks_start(d, start) {
        None => None,
        Some(c) => if c > d.len() {
            None
        } else {
            match chunks_from(d, c, sized, wide, tools_at, head) {
                None => None,
                Some((v, p)) => if sized {
                    Some(v)
                } else {
                    let q = if p < d.len() {
                        p
                    } else {
                        d.len() as int
                    };
                    Some(tail_from(d.subrange(q, d.len() as int), 6, v))
                },
            }
        },
    }
}

/// An object kind as read: as `k` says, but that the box of a polyline
/// whose box is to be found from its points is what `bbox` gives for them.
pub open spec fn kind_read<F: Fn(&Vec<(u64, u64)>) -> (u64, u64, u64, u64)>(o: ObjectKind, k: KindView, fit: bool, bbox: F) -> bool {
    if fit {
        match o {
            ObjectKind::Polyline { x, y, w, h, pen, brush, points } => {
                &&& k matches KindView::Polyline { pen: p2, brush: b2, points: q2, .. }
                &&& pen == p2 && brush == b2 && points@ == q2
                &&& bbox.ensures((&points,), (x, y, w, h))
            },
            _ => kind_view(o) == k,
        }
    } else {
        kind_view(o) == k
    }
}

pub open spec fn object_read<F: Fn(&Vec<(u64, u64)>) -> (u64, u64, u64, u64)>(o: Object, v: ObjectView, fit: bool, bbox: F) -> bool {
    &&& o.handle == v.handle
    &&& o.name@ == v.name
    &&& o.flags == v.flags
    &&& kind_read(o.kind, v.kind, fit, bbox)
}

/// A picture read as `v` says: every part as it is, the boxes of the
/// polylines that `v.fit` marks as `bbox` finds them.
pub open spec fn read_as<F: Fn(&Vec<(u64, u64)>) -> (u64, u64, u64, u64)>(q: Picture, v: PictureView, bbox: F) -> bool {
    &&& (PictureView { objects: v.objects, ..pic_view(q, v.fit) }) == v
    &&& q.objects@.len() == v.objects.len()
    &&& v.fit.len() == v.objects.len()
    &&& forall|i: int| 0 <= i < v.objects.len() ==> object_read(#[trigger] q.objects@[i], v.objects[i], v.fit[i], bbox)
}

/// A picture being read: where its tools and objects go.
fn empty_picture(version: u16) -> (p: Picture)
    ensures
        pic_view(p, Seq::empty()) == empty_view(version, (0, 0), (0, 0), (0, 0)),
{
    let p = Picture {
        version,
        origin: (0, 0),
        scale: (0, 0),
        window: (0, 0),
        objects: Vec::new(),
        zorder: Vec::new(),
        pens: Vec::new(),
        brushes: Vec::new(),
        fonts: Vec::new(),
        strings: Vec::new(),
        texts: Vec::new(),
        dibs: Vec::new(),
        page: None,
        hypers: Vec::new(),
        object_data: Vec::new(),
        arrows: Vec::new(),
    };
    assert(p.objects@.map_values(|o: Object| object_view(o)) =~= Seq::empty());
    assert(p.fonts@.map_values(|f: Font| font_view(f)) =~= Seq::empty());
    assert(p.strings@.map_values(|s: StringTool| (s.handle, s.text@)) =~= Seq::empty());
    assert(p.texts@.map_values(|t: TextTool| (t.handle, t.parts@)) =~= Seq::empty());
    assert(p.dibs@.map_values(|d: Dib| dib_view(d)) =~= Seq::empty());
    assert(p.hypers@.map_values(|e: (u16, Hyper)| (e.0, e.1@)) =~= Seq::empty());
    assert(p.object_data@.map_values(|e: (u16, Vec<u8>)| (e.0, e.1@)) =~= Seq::empty());
    assert(p.arrows@.map_values(|e: (u16, Vec<u8>)| (e.0, e.1@)) =~= Seq::empty());
    assert(pic_view(p, Seq::empty()) =~~= empty_view(version, (0, 0), (0, 0), (0, 0)));
    p
}

/// A coordinate: a `f64` in the format 2.0 and later, else an `i16`
/// widened to a `f64`.
fn num(r: &mut Reader, wide: bool) -> (res: Result<u64>)
    ensures
        final(r).same_file(old(r)),
        final(r).pos >= old(r).pos,
        old(r).pos + step_of(wide) <= old(r).data@.len() ==> res is Ok,
        res matches Ok(v) ==> v == coord_at(old(r).data@, old(r).pos as int, wide) && final(r).pos == old(r).pos
            + step_of(wide),
{
    if wide {
        r.u64()
    } else {
        let v = r.i16()?;
        Ok(crate::numfloat::double_bits_of_i16(v))
    }
}

/// `n` handles, one after another.
fn read_u16s(r: &mut Reader, n: u16) -> (res: Result<Vec<u16>>)
    ensures
        final(r).same_file(old(r)),
        final(r).pos >= old(r).pos,
        old(r).pos + 2 * n <= old(r).data@.len() ==> (res matches Ok(v) && v@ == u16s_at(
            old(r).data@,
            old(r).pos as int,
            n as nat,
        ) && final(r).pos == old(r).pos + 2 * n),
{
    let ghost d = r.data@;
    let ghost s = r.pos as int;
    let mut v: Vec<u16> = Vec::new();
    let mut k: u16 = 0;
    while k < n
        invariant
            r.same_file(old(r)),
            d == old(r).data@,
            s == old(r).pos,
            k <= n,
            r.pos == s + 2 * k,
            v@ == u16s_at(d, s, k as nat),
        decreases n - k,
    {
        let x = r.u16()?;
        v.push(x);
        assert(v@ =~= u16s_at(d, s, (k + 1) as nat));
        k = k + 1;
    }
    Ok(v)
}

fn read_group(r: &mut Reader, sized: bool) -> (res: Result<Vec<u16>>)
    ensures
        final(r).same_file(old(r)),
        final(r).pos >= old(r).pos,
        group_at(old(r).data@, old(r).pos as int, sized) matches Some((c, e)) ==> res matches Ok(v) && v@ == c
            && final(r).pos == e,
{
    if r.peek_u16(r.pos) == Some(CHUNK_ZORDER) {
        r.u16()?;
        if sized {
            r.u32()?;
        }
        let n = r.u16()?;
        r.u16()?;
        r.u16()?;
        read_u16s(r, n)
    } else {
        let n = r.u16()?;
        read_u16s(r, n)
    }
}

/// The body of an object of the given kind. The box of a polyline without
/// an attachment is that of its points, as `bbox` finds it. Also: whether
/// that was so, and the attachment.
#[verifier::spinoff_prover]
#[verifier::rlimit(80)]
fn read_object<F: Fn(&Vec<(u64, u64)>) -> (u64, u64, u64, u64)>(
    r: &mut Reader,
    sized: bool,
    wide: bool,
    kind: u16,
    bbox: &F,
) -> (res: Result<(ObjectKind, bool, Vec<u8>)>)
    requires
        forall|p: &Vec<(u64, u64)>| bbox.requires((p,)),
    ensures
        final(r).same_file(old(r)),
        final(r).pos >= old(r).pos,
        body_at(old(r).data@, old(r).pos as int, sized, wide, kind) matches Some((k, fit, extra, e)) ==> res matches Ok(
            (o, f, x),
        ) && f == fit && x@ == extra && final(r).pos == e && kind_read(o, k, fit, *bbox),
{
    reveal(body_at);
    let ghost d = r.data@;
    let ghost p0 = r.pos as int;
    if 3 <= kind && kind <= 5 {
        let children = read_group(r, sized)?;
        return Ok((ObjectKind::Group { children }, false, Vec::new()));
    }
    let x = num(r, wide)?;
    let y = num(r, wide)?;
    let w = num(r, wide)?;
    let h = num(r, wide)?;
    let ghost q = r.pos as int;
    if kind == 20 {
        let pen = r.u16()?;
        let brush = r.u16()?;
        let n = r.u16()?;
        let ghost s = r.pos as int;
        let ghost st = step_of(wide);
        let ghost ok = body_at(d, p0, sized, wide, kind) is Some;
        assert(ok ==> s + 2 * n * st <= d.len());
        assert(2 * 0 * st == 0) by (nonlinear_arith);
        let mut points: Vec<(u64, u64)> = Vec::new();
        let mut k: u16 = 0;
        while k < n
            invariant
                r.same_file(old(r)),
                d == old(r).data@,
                r.data@ == d,
                k <= n,
                st == step_of(wide),
                st > 0,
                r.pos == s + 2 * k * st,
                points@ == points_at(d, s, k as nat, wide),
                s >= old(r).pos,
                p0 == old(r).pos,
                ok == (body_at(old(r).data@, old(r).pos as int, sized, wide, kind) is Some),
                ok ==> s + 2 * n * st <= d.len(),
            decreases n - k,
        {
            assert(2 * k * st + 2 * st == 2 * (k + 1) * st) by (nonlinear_arith);
            assert(ok ==> 2 * (k + 1) * st <= 2 * n * st) by (nonlinear_arith)
                requires
                    k < n,
                    st > 0,
            ;
            assert(s + 2 * k * st + st == s + (2 * k + 1) * st) by (nonlinear_arith);
            assert(ok ==> r.pos + 2 * st <= d.len());
            let px = num(r, wide)?;
            let py = num(r, wide)?;
            points.push((px, py));
            assert(points@ =~= points_at(d, s, (k + 1) as nat, wide));
            k = k + 1;
        }
        let mut extra: Vec<u8> = Vec::new();
        if wide {
            let m = r.u8()?;
            extra = r.bytes(m as usize)?;
        }
        let fit = points.len() > 0 && extra.len() == 0;
        let (x, y, w, h) = if fit {
            bbox(&points)
        } else {
            (x, y, w, h)
        };
        Ok((ObjectKind::Polyline { x, y, w, h, pen, brush, points }, fit, extra))
    } else if kind == 21 || kind == 22 {
        let s0 = num(r, wide)?;
        let s1 = num(r, wide)?;
        let s2 = num(r, wide)?;
        let s3 = num(r, wide)?;
        r.u16()?;
        let dib = r.u16()?;
        Ok((ObjectKind::Bitmap { x, y, w, h, src: (s0, s1, s2, s3), dib, masked: kind == 22 }, false, Vec::new()))
    } else if kind == 23 {
        let text = r.u16()?;
        r.bytes(18)?;
        Ok((ObjectKind::Text { x, y, w, h, text }, false, Vec::new()))
    } else if kind == 26 {
        let class = r.string()?;
        let caption = r.string()?;
        r.u16()?;
        let style = r.u32()?;
        r.bytes(10)?;
        Ok((ObjectKind::Control { x, y, w, h, class, caption, style }, false, Vec::new()))
    } else {
        let mut m = String::new();
        m.append("объект типа ");
        crate::numtext::push_decimal(&mut m, kind as u64);
        m.append(" не разобран");
        r.err(m)
    }
}

/// The text of a face of a font: its bytes up to the first zero.
fn face_text(b: &Vec<u8>) -> (s: String)
    ensures
        s@ == cp1251::decoded(before_nul(b@)),
{
    let mut end: usize = 0;
    while end < b.len() && b[end] != 0
        invariant
            end <= b@.len(),
            forall|j: int| 0 <= j < end ==> b@[j] != 0,
        decreases b.len() - end,
    {
        end = end + 1;
    }
    proof {
        lemma_before_nul(b@, end as int);
    }
    let t = slice_subrange(b.as_slice(), 0, end);
    assert(t@ =~= b@.take(end as int));
    cp1251::decode(t)
}

/// `read_bmp` from wherever the reader stands.
fn read_bmp_at(r: &mut Reader) -> (res: Result<Vec<u8>>)
    ensures
        final(r).same_file(old(r)),
        final(r).pos >= old(r).pos,
        bmp_at(old(r).data@, old(r).pos as int) matches Some((b, e)) ==> res matches Ok(v) && v@ == b
            && final(r).pos == e,
{
    if r.pos > r.data.len() || r.peek_u16(r.pos) != Some(0x4D42) {
        return r.err("растр без заголовка BM".to_string());
    }
    if r.data.len() - r.pos < 6 {
        let len = r.data.len();
        let p = r.pos;
        return r.bytes(len - p + 1);
    }
    read_bmp(r)
}

fn read_parts(r: &mut Reader, n: u16) -> (res: Result<Vec<TextPart>>)
    ensures
        final(r).same_file(old(r)),
        final(r).pos >= old(r).pos,
        old(r).pos + 12 * n <= old(r).data@.len() ==> (res matches Ok(v) && v@ == parts_at(
            old(r).data@,
            old(r).pos as int,
            n as nat,
        ) && final(r).pos == old(r).pos + 12 * n),
{
    let ghost d = r.data@;
    let ghost s = r.pos as int;
    let mut parts: Vec<TextPart> = Vec::new();
    let mut k: u16 = 0;
    while k < n
        invariant
            r.same_file(old(r)),
            d == old(r).data@,
            s == old(r).pos,
            k <= n,
            r.pos == s + 12 * k,
            parts@ == parts_at(d, s, k as nat),
        decreases n - k,
    {
        let fg = r.u32()?;
        let bg = r.u32()?;
        let font = r.u16()?;
        let string = r.u16()?;
        parts.push(TextPart { fg, bg, font, string });
        assert(parts@ =~= parts_at(d, s, (k + 1) as nat));
        k = k + 1;
    }
    Ok(parts)
}

fn read_tool(r: &mut Reader, sized: bool, kind: u16, handle: u16, pic: &mut Picture, fit: &Vec<bool>, double: bool) -> (res: Result<()>)
    ensures
        final(r).same_file(old(r)),
        final(r).pos >= old(r).pos,
        final(pic).objects == old(pic).objects,
        same_head(*final(pic), *old(pic)),
        tool_at(old(r).data@, old(r).pos as int, sized, kind, handle, double) matches Some((t, e)) ==> res is Ok
            && pic_view(*final(pic), fit@) == with_tool(pic_view(*old(pic), fit@), t) && final(r).pos == e,
{
    reveal(tool_at);
    let ghost d = r.data@;
    let ghost p = r.pos as int;
    let ghost before = pic_view(*pic, fit@);
    if kind == 101 {
        let color = r.u32()?;
        let style = r.u16()?;
        let width = r.u16()?;
        let rop = r.u16()?;
        pic.pens.push(Pen { handle, color, style, width, rop });
        assert(pic_view(*pic, fit@) =~~= with_tool(before, ToolView::Pen(Pen { handle, color, style, width, rop })));
    } else if kind == 102 {
        let color = r.u32()?;
        let style = r.u16()?;
        let hatch = r.u16()?;
        let rop = r.u16()?;
        let dib = r.u16()?;
        pic.brushes.push(Brush { handle, color, style, hatch, rop, dib });
        assert(pic_view(*pic, fit@) =~~= with_tool(
            before,
            ToolView::Brush(Brush { handle, color, style, hatch, rop, dib }),
        ));
    } else if kind == 105 {
        let height = r.i16()? as i32;
        let width = r.i16()? as i32;
        r.i16()?;
        r.i16()?;
        let weight = r.i16()? as i32;
        let attrs = r.bytes(8)?;
        let face_bytes = r.bytes(32)?;
        let face = face_text(&face_bytes);
        if sized {
            r.bytes(8)?;
        }
        let f = Font { handle, height, width, weight, italic: attrs[0] != 0, underline: attrs[1] != 0, face };
        pic.fonts.push(f);
        assert(pic.fonts@.map_values(|f: Font| font_view(f)) =~= old(pic).fonts@.map_values(|f: Font| font_view(f)).push(
            font_view(f),
        ));
        assert(pic_view(*pic, fit@) =~~= with_tool(before, ToolView::Font(font_view(f))));
    } else if kind == 106 {
        let text = r.string()?;
        let ghost t = text@;
        pic.strings.push(StringTool { handle, text });
        assert(pic.strings@.map_values(|s: StringTool| (s.handle, s.text@)) =~= old(pic).strings@.map_values(
            |s: StringTool| (s.handle, s.text@),
        ).push((handle, t)));
        assert(pic_view(*pic, fit@) =~~= with_tool(before, ToolView::Str(handle, t)));
    } else if kind == 107 {
        if r.peek_u16(r.pos) != Some(CHUNK_TEXT_PARTS) {
            return r.err("у инструмента «текст» нет списка фрагментов".to_string());
        }
        r.u16()?;
        if sized {
            r.u32()?;
        }
        let n = r.u16()?;
        r.u16()?;
        r.u16()?;
        let parts = read_parts(r, n)?;
        let ghost ps = parts@;
        pic.texts.push(TextTool { handle, parts });
        assert(pic.texts@.map_values(|t: TextTool| (t.handle, t.parts@)) =~= old(pic).texts@.map_values(
            |t: TextTool| (t.handle, t.parts@),
        ).push((handle, ps)));
        assert(pic_view(*pic, fit@) =~~= with_tool(before, ToolView::Text(handle, ps)));
    } else if kind == 34 {
        let b = r.bytes(34)?;
        let ghost bv = b@;
        pic.page = Some(b);
        assert(pic_view(*pic, fit@) =~~= with_tool(before, ToolView::Page(bv)));
    } else if kind == 110 || kind == 111 {
        let file = r.string()?;
        let dib = Dib { handle, bmp: Vec::new(), mask: Vec::new(), file: Some(file), double };
        let ghost dv = dib_view(dib);
        pic.dibs.push(dib);
        assert(pic.dibs@.map_values(|d: Dib| dib_view(d)) =~= old(pic).dibs@.map_values(|d: Dib| dib_view(d)).push(dv));
        assert(pic_view(*pic, fit@) =~~= with_tool(before, ToolView::Dib(dv)));
    } else if kind == 103 || kind == 104 {
        let bmp = read_bmp_at(r)?;
        let mask = if kind == 104 {
            read_bmp_at(r)?
        } else {
            Vec::new()
        };
        let dib = Dib { handle, bmp, mask, file: None, double };
        let ghost dv = dib_view(dib);
        pic.dibs.push(dib);
        assert(pic.dibs@.map_values(|d: Dib| dib_view(d)) =~= old(pic).dibs@.map_values(|d: Dib| dib_view(d)).push(dv));
        assert(pic_view(*pic, fit@) =~~= with_tool(before, ToolView::Dib(dv)));
    } else {
        let mut m = String::new();
        m.append("инструмент типа ");
        crate::numtext::push_decimal(&mut m, kind as u64);
        m.append(" не разобран");
        return r.err(m);
    }
    Ok(())
}

/// A tool added to a picture read as `v` leaves it read as `v` with the
/// tool.
proof fn lemma_read_as_tool<F: Fn(&Vec<(u64, u64)>) -> (u64, u64, u64, u64)>(
    q0: Picture,
    q1: Picture,
    v: PictureView,
    t: ToolView,
    bbox: F,
)
    requires
        read_as(q0, v, bbox),
        pic_view(q1, v.fit) == with_tool(pic_view(q0, v.fit), t),
        q1.objects == q0.objects,
    ensures
        read_as(q1, with_tool(v, t), bbox),
{
    assert(with_tool(v, t).objects == v.objects);
    assert(with_tool(v, t).fit == v.fit);
    assert((PictureView { objects: v.objects, ..pic_view(q1, v.fit) }) =~~= with_tool(v, t));
}

/// A picture read as `v` with one more object read as `ov`.
proof fn lemma_read_as_object<F: Fn(&Vec<(u64, u64)>) -> (u64, u64, u64, u64)>(
    q0: Picture,
    q1: Picture,
    v: PictureView,
    o: Object,
    ov: ObjectView,
    fit: bool,
    bbox: F,
)
    requires
        read_as(q0, v, bbox),
        q1.objects@ == q0.objects@.push(o),
        object_read(o, ov, fit, bbox),
        (PictureView { objects: q0.objects@.map_values(|x: Object| object_view(x)), ..pic_view(q1, v.fit) }) == pic_view(q0, v.fit),
    ensures
        read_as(q1, PictureView { objects: v.objects.push(ov), fit: v.fit.push(fit), ..v }, bbox),
{
    let v2 = PictureView { objects: v.objects.push(ov), fit: v.fit.push(fit), ..v };
    assert((PictureView { objects: v2.objects, ..pic_view(q1, v2.fit) }) =~~= v2);
    assert forall|i: int| 0 <= i < v2.objects.len() implies object_read(#[trigger] q1.objects@[i], v2.objects[i], v2.fit[i], bbox) by {
        if i < v.objects.len() {
            assert(q1.objects@[i] == q0.objects@[i]);
            assert(v2.fit[i] == v.fit[i]);
        } else {
            assert(q1.objects@[i] == o);
        }
    }
}

/// The blocks after the body of an object of the format 3.x, up to `end`.
fn read_blocks<F: Fn(&Vec<(u64, u64)>) -> (u64, u64, u64, u64)>(
    r: &mut Reader,
    end: usize,
    handle: u16,
    name: &mut String,
    pic: &mut Picture,
    bbox: &F,
    Ghost(v): Ghost<PictureView>,
) -> (res: Result<()>)
    ensures
        final(r).same_file(old(r)),
        same_head(*final(pic), *old(pic)),
        final(pic).objects == old(pic).objects,
        read_as(*old(pic), v, *bbox) ==> (blocks_from(old(r).data@, old(r).pos as int, end as int, handle, old(name)@, v) matches Some((nm, v2))
            ==> res is Ok && final(name)@ == nm && read_as(*final(pic), v2, *bbox) && v2.objects == v.objects
            && v2.fit == v.fit),
{
    reveal(blocks_from);
    let ghost d = r.data@;
    let ghost pre = read_as(*pic, v, *bbox);
    let ghost target = blocks_from(d, r.pos as int, end as int, handle, name@, v);
    let ghost mut vc = v;
    while r.pos <= end && end - r.pos >= 6
        invariant
            r.data@ == d,
            r.same_file(old(r)),
            same_head(*pic, *old(pic)),
            pic.objects == old(pic).objects,
            vc.objects == v.objects,
            vc.fit == v.fit,
            pre ==> read_as(*pic, vc, *bbox),
            target == blocks_from(d, r.pos as int, end as int, handle, name@, vc),
            target == blocks_from(old(r).data@, old(r).pos as int, end as int, handle, old(name)@, v),
            pre == read_as(*old(pic), v, *bbox),
        decreases end - r.pos,
    {
        proof {
            reveal(blocks_from);
        }
        assert(target is Some ==> r.pos + 6 <= d.len());
        let tag = r.u16()?;
        let n = r.u32()? as usize;
        if n < 6 || r.pos > end || n - 6 > end - r.pos {
            return Ok(());
        }
        assert(target is Some ==> r.pos + (n - 6) <= d.len());
        let data = r.bytes(n - 6)?;
        let ghost dv = data@;
        if tag == 0xCD {
            *name = cp1251::decode(data.as_slice());
        } else if tag == 0x03FE {
            let ghost v0 = vc;
            match parse_hyper(data.as_slice()) {
                Some(h) => {
                    let ghost hh = h@;
                    let ghost hs = pic.hypers@;
                    pic.hypers.push((handle, h));
                    proof {
                        vc = PictureView { hypers: v0.hypers.push((handle, hh)), ..v0 };
                        assert(pic.hypers@.map_values(|e: (u16, Hyper)| (e.0, e.1@)) =~= hs.map_values(
                            |e: (u16, Hyper)| (e.0, e.1@),
                        ).push((handle, hh)));
                        if pre {
                            assert((PictureView { objects: vc.objects, ..pic_view(*pic, vc.fit) }) =~~= vc);
                        }
                    }
                },
                None => {},
            }
            let ghost v1 = vc;
            let ghost ds = pic.object_data@;
            pic.object_data.push((handle, data));
            proof {
                vc = PictureView { object_data: v1.object_data.push((handle, dv)), ..v1 };
                assert(pic.object_data@.map_values(|e: (u16, Vec<u8>)| (e.0, e.1@)) =~= ds.map_values(
                    |e: (u16, Vec<u8>)| (e.0, e.1@),
                ).push((handle, dv)));
                if pre {
                    assert((PictureView { objects: vc.objects, ..pic_view(*pic, vc.fit) }) =~~= vc);
                }
            }
        }
    }
    Ok(())
}

fn read_object_head(r: &mut Reader, sized: bool) -> (res: Result<(u16, u16, String)>)
    ensures
        final(r).same_file(old(r)),
        !sized ==> final(r).pos >= old(r).pos,
        object_head(old(r).data@, old(r).pos as int, sized) matches Some((h, f, nm, q)) ==> (res matches Ok(t)
            && t.0 == h && t.1 == f && t.2@ == nm && final(r).pos == q),
{
    if sized {
        r.u16()?;
        let handle = r.u16()?;
        let flags = r.u16()?;
        Ok((handle, flags, String::new()))
    } else {
        let handle = r.u16()?;
        let flags = r.u16()?;
        let name = r.string()?;
        Ok((handle, flags, name))
    }
}

fn push_arrow<F: Fn(&Vec<(u64, u64)>) -> (u64, u64, u64, u64)>(
    pic: &mut Picture,
    handle: u16,
    extra: Vec<u8>,
    bbox: &F,
    Ghost(v): Ghost<PictureView>,
)
    ensures
        same_head(*final(pic), *old(pic)),
        final(pic).objects == old(pic).objects,
        read_as(*old(pic), v, *bbox) ==> read_as(*final(pic), with_arrow(v, handle, extra@), *bbox),
{
    if extra.len() > 0 {
        let ghost xv = extra@;
        let ghost xs = pic.arrows@;
        pic.arrows.push((handle, extra));
        proof {
            assert(pic.arrows@.map_values(|e: (u16, Vec<u8>)| (e.0, e.1@)) =~= xs.map_values(
                |e: (u16, Vec<u8>)| (e.0, e.1@),
            ).push((handle, xv)));
            if read_as(*old(pic), v, *bbox) {
                let v1 = with_arrow(v, handle, xv);
                assert((PictureView { objects: v1.objects, ..pic_view(*pic, v1.fit) }) =~~= v1);
            }
        }
    }
}

fn push_object<F: Fn(&Vec<(u64, u64)>) -> (u64, u64, u64, u64)>(
    pic: &mut Picture,
    fit: &mut Vec<bool>,
    o: Object,
    f: bool,
    bbox: &F,
    Ghost(v): Ghost<PictureView>,
    Ghost(ov): Ghost<ObjectView>,
)
    ensures
        same_head(*final(pic), *old(pic)),
        read_as(*old(pic), v, *bbox) && old(fit)@ == v.fit && object_read(o, ov, f, *bbox) ==> read_as(
            *final(pic),
            with_object(v, ov, f),
            *bbox,
        ) && final(fit)@ == with_object(v, ov, f).fit,
{
    let ghost p0 = *pic;
    let ghost og = o;
    pic.objects.push(o);
    fit.push(f);
    proof {
        if read_as(p0, v, *bbox) && old(fit)@ == v.fit && object_read(og, ov, f, *bbox) {
            assert((PictureView { objects: p0.objects@.map_values(|x: Object| object_view(x)), ..pic_view(*pic, v.fit) }) =~~= pic_view(p0, v.fit));
            lemma_read_as_object(p0, *pic, v, og, ov, f, *bbox);
        }
    }
}

/// A record of the object chunk: its head, its body and (3.x) its blocks.
#[verifier::spinoff_prover]
#[verifier::rlimit(60)]
fn read_object_item<F: Fn(&Vec<(u64, u64)>) -> (u64, u64, u64, u64)>(
    r: &mut Reader,
    sized: bool,
    wide: bool,
    kind: u16,
    end: Option<usize>,
    pic: &mut Picture,
    fit: &mut Vec<bool>,
    bbox: &F,
    Ghost(v): Ghost<PictureView>,
) -> (res: Result<()>)
    requires
        forall|p: &Vec<(u64, u64)>| bbox.requires((p,)),
        sized == end is Some,
    ensures
        final(r).same_file(old(r)),
        same_head(*final(pic), *old(pic)),
        !sized ==> final(r).pos >= old(r).pos,
        read_as(*old(pic), v, *bbox) && old(fit)@ == v.fit ==> (object_item(old(r).data@, old(r).pos as int, sized, wide, kind, match end {
            Some(e) => e as int,
            None => 0,
        }, v) matches Some((v2, e)) ==> res is Ok && read_as(*final(pic), v2, *bbox) && final(fit)@ == v2.fit
            && final(r).pos == e),
{
    reveal(object_item);
    let ghost d = r.data@;
    let ghost pre = read_as(*pic, v, *bbox) && fit@ == v.fit;
    let (handle, flags, mut name) = read_object_head(r, sized)?;
    let ghost q = r.pos as int;
    let ghost okb = body_at(d, q, sized, wide, kind);
    let (body, f, extra) = match read_object(r, sized, wide, kind, bbox) {
        Ok(t) => t,
        Err(e) => match end {
            Some(_) => (ObjectKind::Unknown { kind }, false, Vec::new()),
            None => return Err(e),
        },
    };
    let ghost xv = extra@;
    push_arrow(pic, handle, extra, bbox, Ghost(v));
    let ghost vc = with_arrow(v, handle, xv);
    let ghost mut vb = vc;
    if let Some(end) = end {
        let ghost bl = blocks_from(d, r.pos as int, end as int, handle, name@, vc);
        read_blocks(r, end, handle, &mut name, pic, bbox, Ghost(vc))?;
        proof {
            if bl is Some {
                vb = (bl->0).1;
            }
        }
        r.pos = end;
    }
    let ghost name2 = name@;
    let ghost ov = ObjectView { handle, name: name2, flags, kind: (okb->0).0 };
    let o = Object { handle, name, flags, kind: body };
    push_object(pic, fit, o, f, bbox, Ghost(vb), Ghost(ov));
    Ok(())
}

#[verifier::spinoff_prover]
#[verifier::rlimit(80)]
fn read_item<F: Fn(&Vec<(u64, u64)>) -> (u64, u64, u64, u64)>(
    r: &mut Reader,
    sized: bool,
    wide: bool,
    id: u16,
    pic: &mut Picture,
    fit: &mut Vec<bool>,
    bbox: &F,
    Ghost(v): Ghost<PictureView>,
) -> (res: Result<()>)
    requires
        forall|p: &Vec<(u64, u64)>| bbox.requires((p,)),
        old(r).data@.len() + 0x1_0000_0000 <= usize::MAX,
    ensures
        final(r).same_file(old(r)),
        same_head(*final(pic), *old(pic)),
        !sized ==> final(r).pos >= old(r).pos,
        read_as(*old(pic), v, *bbox) && old(fit)@ == v.fit ==> (item_at(old(r).data@, old(r).pos as int, sized, wide, id, v) matches Some((v2, e)) ==> res is Ok
            && read_as(*final(pic), v2, *bbox) && final(fit)@ == v2.fit && final(r).pos == e),
{
    reveal(item_at);
    let ghost d = r.data@;
    let ghost pre = read_as(*pic, v, *bbox) && fit@ == v.fit;
    let at = r.pos;
    let kind = r.u16()?;
    let end: Option<usize> = if sized {
        if kind == 103 || kind == 104 {
            let n = r.u32()?;
            Some(at + n as usize)
        } else {
            let n = r.u16()?;
            Some(at + n as usize)
        }
    } else {
        None
    };
    if id == CHUNK_OBJECTS {
        read_object_item(r, sized, wide, kind, end, pic, fit, bbox, Ghost(v))
    } else {
        if sized && !(kind == 103 || kind == 104) {
            r.u16()?;
        }
        r.u16()?;
        let handle = r.u16()?;
        let ghost q = r.pos as int;
        let ghost p0 = *pic;
        let result = read_tool(r, sized, kind, handle, pic, fit, id == 1007);
        proof {
            if pre && tool_at(d, q, sized, kind, handle, id == 1007) is Some {
                let (t, e) = tool_at(d, q, sized, kind, handle, id == 1007)->0;
                lemma_read_as_tool(p0, *pic, v, t, *bbox);
            }
        }
        match (result, end) {
            (Ok(()), Some(end)) => r.pos = end,
            (Ok(()), None) => {},
            (Err(_), Some(end)) => r.pos = end,
            (Err(e), None) => return Err(e),
        }
        Ok(())
    }
}

fn read_chunk<F: Fn(&Vec<(u64, u64)>) -> (u64, u64, u64, u64)>(
    r: &mut Reader,
    sized: bool,
    wide: bool,
    id: u16,
    pic: &mut Picture,
    fit: &mut Vec<bool>,
    bbox: &F,
    Ghost(v): Ghost<PictureView>,
) -> (res: Result<()>)
    requires
        forall|p: &Vec<(u64, u64)>| bbox.requires((p,)),
        old(r).data@.len() + 0x1_0000_0000 <= usize::MAX,
    ensures
        final(r).same_file(old(r)),
        same_head(*final(pic), *old(pic)),
        read_as(*old(pic), v, *bbox) && old(fit)@ == v.fit ==> (chunk_at(old(r).data@, old(r).pos as int, sized, wide, id, v) matches Some((v2, e)) ==> res is Ok
            && read_as(*final(pic), v2, *bbox) && final(fit)@ == v2.fit && final(r).pos == e),
{
    reveal(chunk_at);
    reveal(records_from);
    let ghost d = r.data@;
    let ghost pre = read_as(*pic, v, *bbox) && fit@ == v.fit;
    let at = r.pos;
    r.u16()?;
    let size: Option<usize> = if sized {
        Some(r.u32()? as usize)
    } else {
        None
    };
    let count = r.u16()?;
    r.u16()?;
    r.u16()?;
    if id == CHUNK_ZORDER {
        let ghost q = r.pos as int;
        let mut hs = read_u16s(r, count)?;
        let ghost zs = pic.zorder@;
        let ghost hv = hs@;
        pic.zorder.append(&mut hs);
        proof {
            if pre {
                let v2 = PictureView { zorder: v.zorder + hv, ..v };
                assert((PictureView { objects: v2.objects, ..pic_view(*pic, v2.fit) }) =~~= v2);
            }
        }
    } else if id == CHUNK_TEXT_PARTS {
        return r.err("чанк фрагментов текста вне инструмента".to_string());
    } else {
        if count > 0 {
            r.u8()?;
            r.u16()?;
        }
        let ghost target = records_from(d, r.pos as int, count as nat, sized, wide, id, v);
        let ghost mut vc = v;
        let mut k: u16 = 0;
        while k < count
            invariant
                r.data@ == d,
                r.same_file(old(r)),
                r.data@.len() + 0x1_0000_0000 <= usize::MAX,
                same_head(*pic, *old(pic)),
                forall|p: &Vec<(u64, u64)>| bbox.requires((p,)),
                k <= count,
                chunk_at(old(r).data@, old(r).pos as int, sized, wide, id, v) is Some ==> target is Some,
                pre == (read_as(*old(pic), v, *bbox) && old(fit)@ == v.fit),
                pre && target is Some ==> read_as(*pic, vc, *bbox) && fit@ == vc.fit && target == records_from(
                    d,
                    r.pos as int,
                    (count - k) as nat,
                    sized,
                    wide,
                    id,
                    vc,
                ),
            decreases count - k,
        {
            proof {
                reveal(records_from);
            }
            let ghost it = item_at(d, r.pos as int, sized, wide, id, vc);
            read_item(r, sized, wide, id, pic, fit, bbox, Ghost(vc))?;
            proof {
                if pre && target is Some {
                    vc = (it->0).0;
                }
            }
            k = k + 1;
        }
    }
    if let Some(size) = size {
        r.pos = at + size;
    }
    Ok(())
}

/// Format 2.x: after the tools, `u32, u16` and a list of object data, from
/// which the hyperlinks come. What is not understood ends the list.
fn read_object_data_v2<F: Fn(&Vec<(u64, u64)>) -> (u64, u64, u64, u64)>(
    tail: &[u8],
    pic: &mut Picture,
    fit: &Vec<bool>,
    bbox: &F,
    Ghost(v): Ghost<PictureView>,
)
    ensures
        same_head(*final(pic), *old(pic)),
        read_as(*old(pic), v, *bbox) && fit@ == v.fit ==> read_as(*final(pic), tail_from(tail@, 6, v), *bbox),
{
    let ghost pre = read_as(*pic, v, *bbox) && fit@ == v.fit;
    let ghost mut vc = v;
    let n = tail.len();
    let mut i: usize = 6;
    while i < n && n - i >= 2
        invariant
            n == tail@.len(),
            i >= 6,
            same_head(*pic, *old(pic)),
            pic.objects == old(pic).objects,
            vc.objects == v.objects,
            vc.fit == v.fit,
            pre ==> read_as(*pic, vc, *bbox),
            tail_from(tail@, 6, v) == tail_from(tail@, i as int, vc),
        ensures
            tail_from(tail@, 6, v) == vc,
            pre ==> read_as(*pic, vc, *bbox),
            same_head(*pic, *old(pic)),
        decreases n - i,
    {
        let kind = u16_from(tail[i], tail[i + 1]);
        let handle: u16 = if kind == 1 {
            if n - i < 4 {
                break;
            }
            u16_from(tail[i + 2], tail[i + 3])
        } else if kind == 2 {
            0
        } else {
            break;
        };
        let j = i + if kind == 1 { 4 } else { 2 };
        if !(j < n && n - j >= 2 && u16_from(tail[j], tail[j + 1]) == 0x03FE) {
            break;
        }
        let rest = slice_subrange(tail, j + 2, n);
        assert(rest@ == tail@.subrange(j + 2, n as int));
        let m = match object_data_len(rest) {
            Some(m) => m,
            None => break,
        };
        proof {
            lemma_items_end_grows(rest@, 7, rest@[6] as nat);
        }
        let data = slice_subrange(rest, 0, m);
        let ghost dv = data@;
        if kind == 1 {
            let ghost v0 = vc;
            match parse_hyper(data) {
                Some(h) => {
                    let ghost hh = h@;
                    let ghost hs = pic.hypers@;
                    pic.hypers.push((handle, h));
                    proof {
                        vc = PictureView { hypers: v0.hypers.push((handle, hh)), ..v0 };
                        assert(pic.hypers@.map_values(|e: (u16, Hyper)| (e.0, e.1@)) =~= hs.map_values(
                            |e: (u16, Hyper)| (e.0, e.1@),
                        ).push((handle, hh)));
                        if pre {
                            assert((PictureView { objects: vc.objects, ..pic_view(*pic, vc.fit) }) =~~= vc);
                        }
                    }
                },
                None => {},
            }
            let ghost v1 = vc;
            let ghost ds = pic.object_data@;
            pic.object_data.push((handle, slice_to_vec(data)));
            proof {
                vc = PictureView { object_data: v1.object_data.push((handle, dv)), ..v1 };
                assert(pic.object_data@.map_values(|e: (u16, Vec<u8>)| (e.0, e.1@)) =~= ds.map_values(
                    |e: (u16, Vec<u8>)| (e.0, e.1@),
                ).push((handle, dv)));
                if pre {
                    assert((PictureView { objects: vc.objects, ..pic_view(*pic, vc.fit) }) =~~= vc);
                }
            }
        }
        i = j + 2 + m;
    }
}

/// The chunks from where the reader stands, as `chunks_from` reads them.
#[verifier::spinoff_prover]
#[verifier::rlimit(80)]
fn read_chunks<F: Fn(&Vec<(u64, u64)>) -> (u64, u64, u64, u64)>(
    r: &mut Reader,
    sized: bool,
    wide: bool,
    tools_at: Option<usize>,
    pic: &mut Picture,
    fit: &mut Vec<bool>,
    bbox: &F,
    Ghost(v): Ghost<PictureView>,
) -> (res: Result<()>)
    requires
        forall|p: &Vec<(u64, u64)>| bbox.requires((p,)),
        old(r).data@.len() + 0x1_0000_0010 <= usize::MAX,
        old(r).pos <= old(r).data@.len(),
        tools_at matches Some(t) ==> t <= old(r).data@.len() + 0xFFFF_FFFF,
    ensures
        final(r).same_file(old(r)),
        same_head(*final(pic), *old(pic)),
        read_as(*old(pic), v, *bbox) && old(fit)@ == v.fit ==> (chunks_from(
            old(r).data@,
            old(r).pos as int,
            sized,
            wide,
            match tools_at {
                Some(t) => Some(t as int),
                None => None::<int>,
            },
            v,
        ) matches Some((v2, p)) ==> res is Ok && read_as(*final(pic), v2, *bbox) && final(fit)@ == v2.fit
            && final(r).pos == p),
{
    reveal(chunks_from);
    let ghost d = r.data@;
    let n = r.data.len();
    let ghost tools = match tools_at {
        Some(t) => Some(t as int),
        None => None::<int>,
    };
    let ghost pre = read_as(*pic, v, *bbox) && fit@ == v.fit;
    let ghost target = chunks_from(d, r.pos as int, sized, wide, tools, v);
    let ghost mut vc = v;
    let ghost mut fin = v;
    loop
        invariant_except_break
            r.pos <= n,
            pre && target is Some ==> read_as(*pic, vc, *bbox) && fit@ == vc.fit && target == chunks_from(
                d,
                r.pos as int,
                sized,
                wide,
                tools,
                vc,
            ),
        invariant
            r.data@ == d,
            r.same_file(old(r)),
            d == old(r).data@,
            n == d.len(),
            n + 0x1_0000_0010 <= usize::MAX,
            same_head(*pic, *old(pic)),
            forall|p: &Vec<(u64, u64)>| bbox.requires((p,)),
            tools_at matches Some(t) ==> t <= n + 0xFFFF_FFFF,
            tools == (match tools_at {
                Some(t) => Some(t as int),
                None => None::<int>,
            }),
            target == chunks_from(old(r).data@, old(r).pos as int, sized, wide, tools, v),
            pre == (read_as(*old(pic), v, *bbox) && old(fit)@ == v.fit),
        ensures
            pre && target is Some ==> read_as(*pic, fin, *bbox) && fit@ == fin.fit && target == Some((fin, r.pos as int)),
        decreases n - r.pos,
    {
        proof {
            reveal(chunks_from);
        }
        let id = match r.peek_u16(r.pos) {
            Some(id) => id,
            None => {
                proof {
                    fin = vc;
                }
                break;
            },
        };
        let before = r.pos;
        if 1000 <= id && id <= 1030 {
            let ghost ch = chunk_at(d, before as int, sized, wide, id, vc);
            read_chunk(r, sized, wide, id, pic, fit, bbox, Ghost(vc))?;
            if r.pos <= before || r.pos > n {
                proof {
                    if pre && target is Some {
                        fin = (ch->0).0;
                    }
                }
                break;
            }
            proof {
                if pre && target is Some {
                    vc = (ch->0).0;
                }
            }
            continue;
        }
        if let Some(at) = tools_at {
            if r.pos <= at + 2 {
                r.pos = at + 4;
                if r.pos > n {
                    proof {
                        fin = vc;
                    }
                    break;
                }
                continue;
            }
        }
        proof {
            fin = vc;
        }
        break;
    }
    Ok(())
}

/// Reads a picture block; `data` may start with a prefix `u32 0, u32 size`
/// (the signature `2D` is looked for among its first 18 bytes). The box of
/// each polyline without an attachment is that of its points, as `bbox`
/// finds it. A chunk of the format 3.x whose size is zero ends the reading
/// of chunks. When every part reads whole (`picture_of`), the picture is
/// read as that says.
#[verifier::spinoff_prover]
#[verifier::rlimit(100)]
pub fn parse<F: Fn(&Vec<(u64, u64)>) -> (u64, u64, u64, u64)>(data: &[u8], path: &str, bbox: F) -> (res: Result<Picture>)
    requires
        forall|p: &Vec<(u64, u64)>| bbox.requires((p,)),
        data@.len() + 0x1_0000_0010 <= usize::MAX,
    ensures
        match sig_from(data@, 0) {
            None => res matches Err(e) && e.offset == 0 && e.path@ == path@ && e.message@ == "нет сигнатуры 2D"@,
            Some(start) => {
                &&& (res matches Ok(p) ==> {
                    let at = window_at(data@, start);
                    let step = coord_step(p.version);
                    let wide = p.version >= 0x0200;
                    &&& start + 4 <= data@.len()
                    &&& p.version == u16_at(data@, start + 2)
                    &&& p.origin == (coord_at(data@, at, wide), coord_at(data@, at + step, wide))
                    &&& p.scale == (coord_at(data@, at + 2 * step, wide), coord_at(data@, at + 3 * step, wide))
                    &&& p.window == (coord_at(data@, at + 4 * step, wide), coord_at(data@, at + 5 * step, wide))
                })
                &&& (picture_of(data@, start) matches Some(pv) ==> res matches Ok(q) && read_as(q, pv, bbox))
            },
        },
{
    reveal(picture_of);
    let mut start: usize = 0;
    let n = data.len();
    while start < 17 && start < n && n - start >= 2 && !(data[start] == 0x32 && data[start + 1] == 0x44)
        invariant
            start <= 17,
            n == data@.len(),
            sig_from(data@, 0) == sig_from(data@, start as int),
        decreases 17 - start,
    {
        start = start + 1;
    }
    if !(start < 17 && start < n && n - start >= 2) {
        let r = Reader::new(data, path);
        return r.err("нет сигнатуры 2D".to_string());
    }
    let ghost d = data@;
    let mut r = Reader::new(data, path);
    r.pos = start + 2;
    let version = r.u16()?;
    r.u16()?;
    let sized = version >= 0x0300;
    let wide = version >= 0x0200;
    let mut pic = empty_picture(version);
    let tools_at: Option<usize> = if sized {
        r.u16()?;
        r.u32()?;
        None
    } else {
        r.u32()?;
        let off = r.u32()?;
        Some(start + off as usize)
    };
    assert(r.pos == window_at(d, start as int));
    let o0 = num(&mut r, wide)?;
    let o1 = num(&mut r, wide)?;
    pic.origin = (o0, o1);
    let s0 = num(&mut r, wide)?;
    let s1 = num(&mut r, wide)?;
    pic.scale = (s0, s1);
    let w0 = num(&mut r, wide)?;
    let w1 = num(&mut r, wide)?;
    pic.window = (w0, w1);
    if sized {
        r.u16()?;
        r.bytes(8)?;
    } else {
        r.string()?;
        r.bytes(8)?;
        r.u32()?;
        r.u16()?;
    }
    let mut fit: Vec<bool> = Vec::new();
    let ghost head = empty_view(version, (o0, o1), (s0, s1), (w0, w1));
    let ghost tools = match tools_at {
        Some(t) => Some(t as int),
        None => None,
    };
    proof {
        assert(chunks_start(d, start as int) == Some(r.pos as int));
        assert((PictureView { objects: head.objects, ..pic_view(pic, head.fit) }) =~~= head);
        assert(read_as(pic, head, bbox));
    }
    let ghost target = chunks_from(d, r.pos as int, sized, wide, tools, head);
    read_chunks(&mut r, sized, wide, tools_at, &mut pic, &mut fit, &bbox, Ghost(head))?;
    let ghost fin = (target->0).0;
    if !sized {
        let p = if r.pos < n { r.pos } else { n };
        let tail = slice_subrange(data, p, n);
        assert(tail@ == d.subrange(p as int, n as int));
        read_object_data_v2(tail, &mut pic, &fit, &bbox, Ghost(fin));
    }
    Ok(pic)
}

/// The head of a written picture reads back: the signature `2D`, the
/// version 0x0300 and, when the picture fits the `u32` field, its whole
/// size.
#[verifier::spinoff_prover]
#[verifier::rlimit(40)]
pub proof fn law_picture_head(pic: Picture)
    ensures
        picture_bytes(pic).subrange(0, 2) == seq![0x32u8, 0x44u8],
        u16_at(picture_bytes(pic), 2) == 0x0300,
        picture_bytes(pic).len() <= u32::MAX ==> u32_at(picture_bytes(pic), 8) == picture_bytes(pic).len(),
{
    let d = picture_bytes(pic);
    let rest = chunks_bytes(pic);
    let total = (70 + rest.len()) as u32;
    let tail = le64_bytes(pic.origin.0) + le64_bytes(pic.origin.1) + le64_bytes(pic.scale.0) + le64_bytes(
        pic.scale.1,
    ) + le64_bytes(pic.window.0) + le64_bytes(pic.window.1) + le16_bytes(0) + zeros(8) + rest;
    let front = seq![0x32u8, 0x44u8] + le16_bytes(0x0300) + le16_bytes(0x0300) + le16_bytes(0x00CC);
    assert(d =~= front + le32_bytes(total) + tail);
    assert(d.len() == 70 + rest.len());
    assert(d.subrange(0, 2) =~= seq![0x32u8, 0x44u8]);
    law_u16_round_trip(seq![0x32u8, 0x44u8], 0x0300, d.subrange(4, d.len() as int));
    assert(seq![0x32u8, 0x44u8] + le16_bytes(0x0300) + d.subrange(4, d.len() as int) =~= d);
    law_u32_round_trip(front, total, tail);
    assert(front.len() == 8);
}

/// A written picture read back by `parse` has the signature at the start,
/// the version 0x0300, and the same origin, scale and window: the values
/// that `parse` states it reads there are those written.
#[verifier::spinoff_prover]
#[verifier::rlimit(60)]
pub proof fn law_picture_window_round_trip(pic: Picture)
    ensures
        ({
            let d = picture_bytes(pic);
            &&& sig_from(d, 0) == Some(0int)
            &&& u16_at(d, 2) == 0x0300
            &&& window_at(d, 0) == 12
            &&& coord_step(0x0300) == 8
            &&& (coord_at(d, 12, true), coord_at(d, 20, true)) == pic.origin
            &&& (coord_at(d, 28, true), coord_at(d, 36, true)) == pic.scale
            &&& (coord_at(d, 44, true), coord_at(d, 52, true)) == pic.window
        }),
{
    let d = picture_bytes(pic);
    law_picture_head(pic);
    let rest = chunks_bytes(pic);
    let p0 = seq![0x32u8, 0x44u8] + le16_bytes(0x0300) + le16_bytes(0x0300) + le16_bytes(0x00CC) + le32_bytes(
        (70 + rest.len()) as u32,
    );
    let a = le64_bytes(pic.origin.0);
    let b = le64_bytes(pic.origin.1);
    let c = le64_bytes(pic.scale.0);
    let e = le64_bytes(pic.scale.1);
    let f = le64_bytes(pic.window.0);
    let g = le64_bytes(pic.window.1);
    let tail = le16_bytes(0) + zeros(8) + rest;
    assert(p0.len() == 12);
    assert(d =~= p0 + a + b + c + e + f + g + tail);
    assert(d[0] == 0x32 && d[1] == 0x44);
    assert(d =~= p0 + a + (b + c + e + f + g + tail));
    law_u64_round_trip(p0, pic.origin.0, b + c + e + f + g + tail);
    assert(d =~= (p0 + a) + b + (c + e + f + g + tail));
    law_u64_round_trip(p0 + a, pic.origin.1, c + e + f + g + tail);
    assert(d =~= (p0 + a + b) + c + (e + f + g + tail));
    law_u64_round_trip(p0 + a + b, pic.scale.0, e + f + g + tail);
    assert(d =~= (p0 + a + b + c) + e + (f + g + tail));
    law_u64_round_trip(p0 + a + b + c, pic.scale.1, f + g + tail);
    assert(d =~= (p0 + a + b + c + e) + f + (g + tail));
    law_u64_round_trip(p0 + a + b + c + e, pic.window.0, g + tail);
    assert(d =~= (p0 + a + b + c + e + f) + g + tail);
    law_u64_round_trip(p0 + a + b + c + e + f, pic.window.1, tail);
}

impl Picture {
    /// The first object with the handle.
    pub fn object(&self, handle: u16) -> (r: Option<&Object>)
        ensures
            match r {
                Some(o) => exists|i: int|
                    0 <= i < self.objects@.len() && self.objects@[i] == *o && o.handle == handle && forall|j: int|
                        0 <= j < i ==> (#[trigger] self.objects@[j]).handle != handle,
                None => forall|j: int| 0 <= j < self.objects@.len() ==> (#[trigger] self.objects@[j]).handle != handle,
            },
    {
        let mut i: usize = 0;
        while i < self.objects.len()
            invariant
                i <= self.objects@.len(),
                forall|j: int| 0 <= j < i ==> (#[trigger] self.objects@[j]).handle != handle,
            decreases self.objects.len() - i,
        {
            if self.objects[i].handle == handle {
                return Some(&self.objects[i]);
            }
            i = i + 1;
        }
        None
    }

    /// The first pen with the handle.
    pub fn pen(&self, handle: u16) -> (r: Option<&Pen>)
        ensures
            match r {
                Some(x) => exists|i: int|
                    0 <= i < self.pens@.len() && self.pens@[i] == *x && x.handle == handle && forall|j: int|
                        0 <= j < i ==> (#[trigger] self.pens@[j]).handle != handle,
                None => forall|j: int| 0 <= j < self.pens@.len() ==> (#[trigger] self.pens@[j]).handle != handle,
            },
    {
        let mut i: usize = 0;
        while i < self.pens.len()
            invariant
                i <= self.pens@.len(),
                forall|j: int| 0 <= j < i ==> (#[trigger] self.pens@[j]).handle != handle,
            decreases self.pens.len() - i,
        {
            if self.pens[i].handle == handle {
                return Some(&self.pens[i]);
            }
            i = i + 1;
        }
        None
    }

    /// The first brush with the handle.
    pub fn brush(&self, handle: u16) -> (r: Option<&Brush>)
        ensures
            match r {
                Some(x) => exists|i: int|
                    0 <= i < self.brushes@.len() && self.brushes@[i] == *x && x.handle == handle && forall|j: int|
                        0 <= j < i ==> (#[trigger] self.brushes@[j]).handle != handle,
                None => forall|j: int| 0 <= j < self.brushes@.len() ==> (#[trigger] self.brushes@[j]).handle != handle,
            },
    {
        let mut i: usize = 0;
        while i < self.brushes.len()
            invariant
                i <= self.brushes@.len(),
                forall|j: int| 0 <= j < i ==> (#[trigger] self.brushes@[j]).handle != handle,
            decreases self.brushes.len() - i,
        {
            if self.brushes[i].handle == handle {
                return Some(&self.brushes[i]);
            }
            i = i + 1;
        }
        None
    }

    /// The first font with the handle.
    pub fn font(&self, handle: u16) -> (r: Option<&Font>)
        ensures
            match r {
                Some(x) => exists|i: int|
                    0 <= i < self.fonts@.len() && self.fonts@[i] == *x && x.handle == handle && forall|j: int|
                        0 <= j < i ==> (#[trigger] self.fonts@[j]).handle != handle,
                None => forall|j: int| 0 <= j < self.fonts@.len() ==> (#[trigger] self.fonts@[j]).handle != handle,
            },
    {
        let mut i: usize = 0;
        while i < self.fonts.len()
            invariant
                i <= self.fonts@.len(),
                forall|j: int| 0 <= j < i ==> (#[trigger] self.fonts@[j]).handle != handle,
            decreases self.fonts.len() - i,
        {
            if self.fonts[i].handle == handle {
                return Some(&self.fonts[i]);
            }
            i = i + 1;
        }
        None
    }

    /// The first string with the handle.
    pub fn string(&self, handle: u16) -> (r: Option<&StringTool>)
        ensures
            match r {
                Some(x) => exists|i: int|
                    0 <= i < self.strings@.len() && self.strings@[i] == *x && x.handle == handle && forall|j: int|
                        0 <= j < i ==> (#[trigger] self.strings@[j]).handle != handle,
                None => forall|j: int| 0 <= j < self.strings@.len() ==> (#[trigger] self.strings@[j]).handle != handle,
            },
    {
        let mut i: usize = 0;
        while i < self.strings.len()
            invariant
                i <= self.strings@.len(),
                forall|j: int| 0 <= j < i ==> (#[trigger] self.strings@[j]).handle != handle,
            decreases self.strings.len() - i,
        {
            if self.strings[i].handle == handle {
                return Some(&self.strings[i]);
            }
            i = i + 1;
        }
        None
    }

    /// The first text with the handle.
    pub fn text(&self, handle: u16) -> (r: Option<&TextTool>)
        ensures
            match r {
                Some(x) => exists|i: int|
                    0 <= i < self.texts@.len() && self.texts@[i] == *x && x.handle == handle && forall|j: int|
                        0 <= j < i ==> (#[trigger] self.texts@[j]).handle != handle,
                None => forall|j: int| 0 <= j < self.texts@.len() ==> (#[trigger] self.texts@[j]).handle != handle,
            },
    {
        let mut i: usize = 0;
        while i < self.texts.len()
            invariant
                i <= self.texts@.len(),
                forall|j: int| 0 <= j < i ==> (#[trigger] self.texts@[j]).handle != handle,
            decreases self.texts.len() - i,
        {
            if self.texts[i].handle == handle {
                return Some(&self.texts[i]);
            }
            i = i + 1;
        }
        None
    }

    /// The first bitmap with the handle.
    pub fn dib(&self, handle: u16) -> (r: Option<&Dib>)
        ensures
            match r {
                Some(x) => exists|i: int|
                    0 <= i < self.dibs@.len() && self.dibs@[i] == *x && x.handle == handle && forall|j: int|
                        0 <= j < i ==> (#[trigger] self.dibs@[j]).handle != handle,
                None => forall|j: int| 0 <= j < self.dibs@.len() ==> (#[trigger] self.dibs@[j]).handle != handle,
            },
    {
        let mut i: usize = 0;
        while i < self.dibs.len()
            invariant
                i <= self.dibs@.len(),
                forall|j: int| 0 <= j < i ==> (#[trigger] self.dibs@[j]).handle != handle,
            decreases self.dibs.len() - i,
        {
            if self.dibs[i].handle == handle {
                return Some(&self.dibs[i]);
            }
            i = i + 1;
        }
        None
    }
}

} // verus!
