//! Little-endian fields and length-prefixed strings.

use vstd::prelude::*;
use vstd::slice::{slice_subrange, slice_to_vec};
use crate::formats::cp1251;
use crate::numtext::{decimal, hex, push_decimal, push_hex};

verus! {

/// Where and why a file could not be read.
#[derive(Debug)]
pub struct FormatError {
    pub path: String,
    pub offset: usize,
    pub message: String,
}

pub type Result<T> = std::result::Result<T, FormatError>;

/// `path: 0x<offset>: message`, as the error is shown to the user.
pub open spec fn error_text(path: Seq<char>, offset: nat, message: Seq<char>) -> Seq<char> {
    path + ": 0x"@ + hex(offset) + ": "@ + message
}

impl FormatError {
    /// The error as one line of text.
    pub fn to_text(&self) -> (s: String)
        ensures
            s@ == error_text(self.path@, self.offset as nat, self.message@),
    {
        let mut s = self.path.clone();
        s.append(": 0x");
        push_hex(&mut s, self.offset as u64);
        s.append(": ");
        s.append(self.message.as_str());
        s
    }
}

/// Value of two bytes, least significant first.
pub open spec fn le_u16(b0: u8, b1: u8) -> u16 {
    (b0 as int + 256 * b1 as int) as u16
}

/// Value of four bytes, least significant first.
pub open spec fn le_u32(b0: u8, b1: u8, b2: u8, b3: u8) -> u32 {
    (b0 as int + 256 * b1 as int + 65536 * b2 as int + 16777216 * b3 as int) as u32
}

/// Value of eight bytes, least significant first.
pub open spec fn le_u64(s: Seq<u8>) -> u64 {
    (le_u32(s[0], s[1], s[2], s[3]) as int + 4294967296 * le_u32(s[4], s[5], s[6], s[7]) as int) as u64
}

/// `u16` at `at` in `s`.
pub open spec fn u16_at(s: Seq<u8>, at: int) -> u16 {
    le_u16(s[at], s[at + 1])
}

/// `u32` at `at` in `s`.
pub open spec fn u32_at(s: Seq<u8>, at: int) -> u32 {
    le_u32(s[at], s[at + 1], s[at + 2], s[at + 3])
}

/// The message of a read past the end of the data.
pub open spec fn short_message(need: nat, left: nat) -> Seq<char> {
    "нужно "@ + decimal(need) + " байт, а до конца файла осталось "@ + decimal(left)
}

pub fn u16_from(b0: u8, b1: u8) -> (v: u16)
    ensures
        v == le_u16(b0, b1),
{
    b0 as u16 + 256 * (b1 as u16)
}

pub fn u32_from(b0: u8, b1: u8, b2: u8, b3: u8) -> (v: u32)
    ensures
        v == le_u32(b0, b1, b2, b3),
{
    b0 as u32 + 256 * (b1 as u32) + 65536 * (b2 as u32) + 16777216 * (b3 as u32)
}

/// A cursor over the bytes of a file.
pub struct Reader<'a> {
    pub data: &'a [u8],
    pub pos: usize,
    pub path: String,
}

impl<'a> Reader<'a> {
    /// The file name given to `new`, used in errors.
    pub open spec fn spec_path(&self) -> Seq<char> {
        self.path@
    }

    /// `at` bytes from the current position fit in the data.
    pub open spec fn has(&self, n: int) -> bool {
        self.pos + n <= self.data@.len()
    }

    /// An error of this reader: its path, its position, `message`.
    pub open spec fn is_error_here(&self, e: FormatError, message: Seq<char>) -> bool {
        &&& e.path@ == self.spec_path()
        &&& e.offset == self.pos
        &&& e.message@ == message
    }

    /// The error of a read of `n` bytes past the end.
    pub open spec fn is_short_error(&self, e: FormatError, n: nat) -> bool {
        self.is_error_here(e, short_message(n, if self.pos <= self.data@.len() {
            (self.data@.len() - self.pos) as nat
        } else {
            0
        }))
    }

    /// A read moved only the position: same data, same path.
    pub open spec fn same_file(&self, other: &Reader<'a>) -> bool {
        &&& self.data@ == other.data@
        &&& self.spec_path() == other.spec_path()
    }

    pub fn new(data: &'a [u8], path: &str) -> (r: Self)
        ensures
            r.data@ == data@,
            r.pos == 0,
            r.spec_path() == path@,
    {
        let mut p = String::new();
        p.append(path);
        Reader { data, pos: 0, path: p }
    }

    /// An error at the current position.
    pub fn err<T>(&self, message: String) -> (res: Result<T>)
        ensures
            res matches Err(e) && self.is_error_here(e, message@),
    {
        Err(FormatError { path: self.path.clone(), offset: self.pos, message })
    }

    fn take(&mut self, n: usize) -> (res: Result<&'a [u8]>)
        ensures
            final(self).same_file(old(self)),
            old(self).has(n as int) ==> {
                &&& res matches Ok(s)
                &&& s@ == old(self).data@.subrange(old(self).pos as int, old(self).pos + n)
                &&& final(self).pos == old(self).pos + n
            },
            !old(self).has(n as int) ==> {
                &&& res matches Err(e)
                &&& old(self).is_short_error(e, n as nat)
                &&& final(self).pos == old(self).pos
            },
    {
        let len = self.data.len();
        if self.pos > len || n > len - self.pos {
            let left: usize = if self.pos <= len { len - self.pos } else { 0 };
            let mut m = String::new();
            m.append("нужно ");
            push_decimal(&mut m, n as u64);
            m.append(" байт, а до конца файла осталось ");
            push_decimal(&mut m, left as u64);
            return self.err(m);
        }
        let d: &'a [u8] = self.data;
        let s = slice_subrange(d, self.pos, self.pos + n);
        self.pos = self.pos + n;
        Ok(s)
    }

    pub fn u8(&mut self) -> (res: Result<u8>)
        ensures
            final(self).same_file(old(self)),
            old(self).has(1) ==> {
                &&& res matches Ok(v)
                &&& v == old(self).data@[old(self).pos as int]
                &&& final(self).pos == old(self).pos + 1
            },
            !old(self).has(1) ==> (res matches Err(e) && old(self).is_short_error(e, 1)
                && final(self).pos == old(self).pos),
    {
        let b = self.take(1)?;
        Ok(b[0])
    }

    pub fn u16(&mut self) -> (res: Result<u16>)
        ensures
            final(self).same_file(old(self)),
            old(self).has(2) ==> {
                &&& res matches Ok(v)
                &&& v == u16_at(old(self).data@, old(self).pos as int)
                &&& final(self).pos == old(self).pos + 2
            },
            !old(self).has(2) ==> (res matches Err(e) && old(self).is_short_error(e, 2)
                && final(self).pos == old(self).pos),
    {
        let b = self.take(2)?;
        Ok(u16_from(b[0], b[1]))
    }

    pub fn i16(&mut self) -> (res: Result<i16>)
        ensures
            final(self).same_file(old(self)),
            old(self).has(2) ==> {
                &&& res matches Ok(v)
                &&& v == u16_at(old(self).data@, old(self).pos as int) as i16
                &&& final(self).pos == old(self).pos + 2
            },
            !old(self).has(2) ==> (res matches Err(e) && old(self).is_short_error(e, 2)
                && final(self).pos == old(self).pos),
    {
        let v = self.u16()?;
        Ok(v as i16)
    }

    pub fn u32(&mut self) -> (res: Result<u32>)
        ensures
            final(self).same_file(old(self)),
            old(self).has(4) ==> {
                &&& res matches Ok(v)
                &&& v == u32_at(old(self).data@, old(self).pos as int)
                &&& final(self).pos == old(self).pos + 4
            },
            !old(self).has(4) ==> (res matches Err(e) && old(self).is_short_error(e, 4)
                && final(self).pos == old(self).pos),
    {
        let b = self.take(4)?;
        Ok(u32_from(b[0], b[1], b[2], b[3]))
    }

    /// Eight bytes as one number: the bit pattern of a `f64` field.
    pub fn u64(&mut self) -> (res: Result<u64>)
        ensures
            final(self).same_file(old(self)),
            old(self).has(8) ==> {
                &&& res matches Ok(v)
                &&& v == le_u64(old(self).data@.subrange(old(self).pos as int, old(self).pos + 8))
                &&& final(self).pos == old(self).pos + 8
            },
            !old(self).has(8) ==> (res matches Err(e) && old(self).is_short_error(e, 8)
                && final(self).pos == old(self).pos),
    {
        let b = self.take(8)?;
        let lo = u32_from(b[0], b[1], b[2], b[3]);
        let hi = u32_from(b[4], b[5], b[6], b[7]);
        Ok(lo as u64 + 4294967296 * (hi as u64))
    }

    /// String: `u16` length, then that many bytes of CP1251.
    pub fn string(&mut self) -> (res: Result<String>)
        ensures
            final(self).same_file(old(self)),
            ({
                let p = old(self).pos as int;
                let d = old(self).data@;
                if !old(self).has(2) {
                    res matches Err(e) && old(self).is_short_error(e, 2) && final(self).pos == p
                } else if !old(self).has(2 + u16_at(d, p)) {
                    &&& res matches Err(e)
                    &&& e.path@ == old(self).spec_path()
                    &&& e.offset == p + 2
                    &&& e.message@ == short_message(u16_at(d, p) as nat, (d.len() - p - 2) as nat)
                    &&& final(self).pos == p + 2
                } else {
                    &&& res matches Ok(s)
                    &&& s@ == cp1251::decoded(d.subrange(p + 2, p + 2 + u16_at(d, p)))
                    &&& final(self).pos == p + 2 + u16_at(d, p)
                }
            }),
            res is Ok <==> string_at(old(self).data@, old(self).pos as int) is Some,
            res matches Ok(s) ==> string_at(old(self).data@, old(self).pos as int) == Some(
                (s@, final(self).pos as int),
            ),
    {
        let n = self.u16()?;
        let b = self.take(n as usize)?;
        Ok(cp1251::decode(b))
    }

    pub fn bytes(&mut self, n: usize) -> (res: Result<Vec<u8>>)
        ensures
            final(self).same_file(old(self)),
            old(self).has(n as int) ==> {
                &&& res matches Ok(v)
                &&& v@ == old(self).data@.subrange(old(self).pos as int, old(self).pos + n)
                &&& final(self).pos == old(self).pos + n
            },
            !old(self).has(n as int) ==> (res matches Err(e) && old(self).is_short_error(e, n as nat)
                && final(self).pos == old(self).pos),
    {
        let b = self.take(n)?;
        Ok(slice_to_vec(b))
    }

    /// The `u16` at an absolute offset, without moving; `None` past the end.
    pub fn peek_u16(&self, at: usize) -> (res: Option<u16>)
        ensures
            at + 2 <= self.data@.len() ==> res == Some(u16_at(self.data@, at as int)),
            at + 2 > self.data@.len() ==> res is None,
    {
        if at < self.data.len() && self.data.len() - at >= 2 {
            Some(u16_from(self.data[at], self.data[at + 1]))
        } else {
            None
        }
    }

    pub fn eof(&self) -> (b: bool)
        ensures
            b == (self.pos >= self.data@.len()),
    {
        self.pos >= self.data.len()
    }

    pub fn path(&self) -> (p: &str)
        ensures
            p@ == self.spec_path(),
    {
        self.path.as_str()
    }
}

} // verus!

verus! {

/// The string field at `pos`: its text and where the next field starts.
pub open spec fn string_at(d: Seq<u8>, pos: int) -> Option<(Seq<char>, int)> {
    if pos < 0 || pos + 2 > d.len() {
        None
    } else {
        let n = u16_at(d, pos) as int;
        if pos + 2 + n > d.len() {
            None
        } else {
            Some((cp1251::decoded(d.subrange(pos + 2, pos + 2 + n)), pos + 2 + n))
        }
    }
}

/// Bytes up to the first zero byte (all of them when there is none).
pub open spec fn before_nul(b: Seq<u8>) -> Seq<u8>
    decreases b.len(),
{
    if b.len() == 0 {
        b
    } else if b[0] == 0 {
        Seq::empty()
    } else {
        seq![b[0]] + before_nul(b.drop_first())
    }
}

/// With no zero in `b[..i]` and a zero (or the end) at `i`, the bytes before
/// the first zero are `b[..i]`.
pub proof fn lemma_before_nul(b: Seq<u8>, i: int)
    requires
        0 <= i <= b.len(),
        forall|j: int| 0 <= j < i ==> b[j] != 0,
        i == b.len() || b[i] == 0,
    ensures
        before_nul(b) == b.take(i),
    decreases i,
{
    if i == 0 {
        if b.len() > 0 {
            assert(b[0] == 0);
        }
        assert(b.take(0) =~= Seq::<u8>::empty());
        if b.len() == 0 {
            assert(b =~= Seq::<u8>::empty());
        }
    } else {
        let t = b.drop_first();
        assert forall|j: int| 0 <= j < i - 1 implies t[j] != 0 by {
            assert(t[j] == b[j + 1]);
        }
        lemma_before_nul(t, i - 1);
        assert(b.take(i) =~= seq![b[0]] + t.take(i - 1));
    }
}

/// The bytes before the first zero: a string cut at its terminator.
pub fn split_nul(bytes: &[u8]) -> (r: &[u8])
    ensures
        r@ == before_nul(bytes@),
{
    let mut i: usize = 0;
    while i < bytes.len() && bytes[i] != 0
        invariant
            i <= bytes.len(),
            forall|j: int| 0 <= j < i ==> bytes@[j] != 0,
        decreases bytes.len() - i,
    {
        i = i + 1;
    }
    proof {
        lemma_before_nul(bytes@, i as int);
    }
    slice_subrange(bytes, 0, i)
}

} // verus!
