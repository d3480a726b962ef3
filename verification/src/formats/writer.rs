//! Writing the binary structures of Stratum 2000: the mirror of `Reader`.

use vstd::prelude::*;
use crate::formats::cp1251;
use crate::formats::reader::{le_u16, le_u32, le_u64, u16_at, u32_at};

verus! {

/// The two bytes of a `u16`, least significant first.
pub open spec fn le16_bytes(v: u16) -> Seq<u8> {
    seq![(v % 256) as u8, (v / 256) as u8]
}

/// The four bytes of a `u32`, least significant first.
pub open spec fn le32_bytes(v: u32) -> Seq<u8> {
    seq![(v % 256) as u8, ((v / 256) % 256) as u8, ((v / 65536) % 256) as u8, (v / 16777216) as u8]
}

/// The eight bytes of a `u64`, least significant first.
pub open spec fn le64_bytes(v: u64) -> Seq<u8> {
    le32_bytes((v % 4294967296) as u32) + le32_bytes((v / 4294967296) as u32)
}

/// How many bytes of a text a string field keeps: at most 65535.
pub open spec fn kept_len(text: Seq<char>) -> nat {
    if text.len() <= 65535 { text.len() } else { 65535 }
}

/// A string field: `u16` length, then the CP1251 bytes, cut at 65535.
pub open spec fn string_bytes(text: Seq<char>) -> Seq<u8> {
    le16_bytes(kept_len(text) as u16) + cp1251::encoded(text).take(kept_len(text) as int)
}

/// A growing buffer of bytes.
#[derive(Default)]
pub struct Writer {
    pub data: Vec<u8>,
}

pub fn le16(v: u16) -> (b: [u8; 2])
    ensures
        b@ == le16_bytes(v),
{
    [(v % 256) as u8, (v / 256) as u8]
}

pub fn le32(v: u32) -> (b: [u8; 4])
    ensures
        b@ == le32_bytes(v),
{
    [(v % 256) as u8, ((v / 256) % 256) as u8, ((v / 65536) % 256) as u8, (v / 16777216) as u8]
}

impl Writer {
    pub fn new() -> (w: Self)
        ensures
            w.data@ == Seq::<u8>::empty(),
    {
        Writer { data: Vec::new() }
    }

    pub fn u8(&mut self, v: u8)
        ensures
            final(self).data@ == old(self).data@.push(v),
    {
        self.data.push(v);
    }

    pub fn u16(&mut self, v: u16)
        ensures
            final(self).data@ == old(self).data@ + le16_bytes(v),
    {
        let b = le16(v);
        self.data.push(b[0]);
        self.data.push(b[1]);
        assert(self.data@ =~= old(self).data@ + le16_bytes(v));
    }

    pub fn u32(&mut self, v: u32)
        ensures
            final(self).data@ == old(self).data@ + le32_bytes(v),
    {
        let b = le32(v);
        self.data.push(b[0]);
        self.data.push(b[1]);
        self.data.push(b[2]);
        self.data.push(b[3]);
        assert(self.data@ =~= old(self).data@ + le32_bytes(v));
    }

    /// Eight bytes of one number: the bit pattern of a `f64` field.
    pub fn u64(&mut self, v: u64)
        ensures
            final(self).data@ == old(self).data@ + le64_bytes(v),
    {
        self.u32((v % 4294967296) as u32);
        self.u32((v / 4294967296) as u32);
        assert(self.data@ =~= old(self).data@ + le64_bytes(v));
    }

    /// String: `u16` length, then the CP1251 bytes; longer than 65535 bytes
    /// is cut.
    pub fn string(&mut self, s: &str)
        ensures
            final(self).data@ == old(self).data@ + string_bytes(s@),
    {
        let mut bytes = cp1251::encode(s);
        bytes.truncate(65535);
        self.u16(bytes.len() as u16);
        let ghost mid = self.data@;
        self.data.extend_from_slice(bytes.as_slice());
        assert(self.data@ =~= old(self).data@ + string_bytes(s@));
    }

    pub fn bytes(&mut self, b: &[u8])
        ensures
            final(self).data@ == old(self).data@ + b@,
    {
        self.data.extend_from_slice(b);
    }

    pub fn pos(&self) -> (n: usize)
        ensures
            n == self.data@.len(),
    {
        self.data.len()
    }

    /// Overwrites the two bytes at `at` with `v`.
    pub fn patch_u16(&mut self, at: usize, v: u16)
        requires
            at + 2 <= old(self).data@.len(),
        ensures
            final(self).data@ == old(self).data@.subrange(0, at as int) + le16_bytes(v)
                + old(self).data@.subrange(at + 2, old(self).data@.len() as int),
    {
        let b = le16(v);
        let len = self.data.len();
        assert(at + 2 <= len);
        self.data.set(at, b[0]);
        self.data.set(at + 1, b[1]);
        assert(self.data@ =~= old(self).data@.subrange(0, at as int) + le16_bytes(v)
            + old(self).data@.subrange(at + 2, old(self).data@.len() as int));
    }

    /// Overwrites the four bytes at `at` with `v`.
    pub fn patch_u32(&mut self, at: usize, v: u32)
        requires
            at + 4 <= old(self).data@.len(),
        ensures
            final(self).data@ == old(self).data@.subrange(0, at as int) + le32_bytes(v)
                + old(self).data@.subrange(at + 4, old(self).data@.len() as int),
    {
        let b = le32(v);
        let len = self.data.len();
        assert(at + 4 <= len);
        self.data.set(at, b[0]);
        self.data.set(at + 1, b[1]);
        self.data.set(at + 2, b[2]);
        self.data.set(at + 3, b[3]);
        assert(self.data@ =~= old(self).data@.subrange(0, at as int) + le32_bytes(v)
            + old(self).data@.subrange(at + 4, old(self).data@.len() as int));
    }
}

/// A `u16` written is the `u16` read back at the same place.
pub proof fn law_u16_round_trip(before: Seq<u8>, v: u16, after: Seq<u8>)
    ensures
        u16_at(before + le16_bytes(v) + after, before.len() as int) == v,
{
    let d = before + le16_bytes(v) + after;
    assert(d[before.len() as int] == (v % 256) as u8);
    assert(d[before.len() as int + 1] == (v / 256) as u8);
}

/// A `u32` written is the `u32` read back at the same place.
pub proof fn law_u32_round_trip(before: Seq<u8>, v: u32, after: Seq<u8>)
    ensures
        u32_at(before + le32_bytes(v) + after, before.len() as int) == v,
{
    let d = before + le32_bytes(v) + after;
    let p = before.len() as int;
    assert(d[p] == (v % 256) as u8);
    assert(d[p + 1] == ((v / 256) % 256) as u8);
    assert(d[p + 2] == ((v / 65536) % 256) as u8);
    assert(d[p + 3] == (v / 16777216) as u8);
}

/// A `u64` written is the `u64` read back at the same place.
pub proof fn law_u64_round_trip(before: Seq<u8>, v: u64, after: Seq<u8>)
    ensures
        le_u64((before + le64_bytes(v) + after).subrange(before.len() as int, before.len() as int + 8)) == v,
{
    let s = (before + le64_bytes(v) + after).subrange(before.len() as int, before.len() as int + 8);
    assert(s =~= le64_bytes(v));
    law_u32_round_trip(Seq::empty(), (v % 4294967296) as u32, le32_bytes((v / 4294967296) as u32));
    law_u32_round_trip(le32_bytes((v % 4294967296) as u32), (v / 4294967296) as u32, Seq::empty());
    assert(le32_bytes((v % 4294967296) as u32) + le32_bytes((v / 4294967296) as u32) + Seq::<u8>::empty()
        =~= le64_bytes(v));
    assert(Seq::<u8>::empty() + le32_bytes((v % 4294967296) as u32) + le32_bytes((v / 4294967296) as u32)
        =~= le64_bytes(v));
}

/// A string written (of at most 65535 characters the code page can hold)
/// is the string read back: its length field, then its text.
pub proof fn law_string_round_trip(before: Seq<u8>, text: Seq<char>, after: Seq<u8>)
    requires
        cp1251::representable(text),
        text.len() <= 65535,
    ensures
        ({
            let d = before + string_bytes(text) + after;
            let p = before.len() as int;
            &&& u16_at(d, p) == text.len()
            &&& cp1251::decoded(d.subrange(p + 2, p + 2 + text.len())) == text
        }),
{
    let d = before + string_bytes(text) + after;
    let p = before.len() as int;
    let n = text.len() as u16;
    assert(cp1251::encoded(text).take(text.len() as int) =~= cp1251::encoded(text));
    assert(d =~= before + le16_bytes(n) + (cp1251::encoded(text) + after));
    law_u16_round_trip(before, n, cp1251::encoded(text) + after);
    assert(d.subrange(p + 2, p + 2 + text.len()) =~= cp1251::encoded(text));
    cp1251::law_decode_encode(text);
}

} // verus!
