//! Flat, zero-copy body layout.
//!
//! Every body has a fixed region of scalar fields at known offsets and a
//! data region of variable-length items. An item is stored as
//! `[len: u32 LE][bytes]`; a fixed field holds the item's offset from the
//! start of the body, and offset 0 means "absent".

use vstd::prelude::*;
use vstd::string::StringSliceAdditionalSpecFns;

use crate::wire::{
    get_u16_le, get_u32_le, get_u64_le, le16, le32, le64,
    lemma_le32_roundtrip, lemma_le64_roundtrip, push_bytes, push_u32_le,
};

verus! {

/// `s` with the bytes starting at `off` replaced by `bytes`.
pub open spec fn splice(s: Seq<u8>, off: int, bytes: Seq<u8>) -> Seq<u8> {
    s.subrange(0, off) + bytes + s.subrange(off + bytes.len(), s.len() as int)
}

/// Read a little-endian u32 at `offset`.
pub fn read_u32(buf: &[u8], offset: usize) -> (v: u32)
    requires
        offset + 4 <= buf@.len(),
    ensures
        v == get_u32_le(buf@, offset as int),
{
    (buf[offset] as u32) | ((buf[offset + 1] as u32) << 8u32) | ((buf[offset + 2] as u32) << 16u32)
        | ((buf[offset + 3] as u32) << 24u32)
}

/// Read a little-endian u16 at `offset`.
fn read_u16(buf: &[u8], offset: usize) -> (v: u16)
    requires
        offset + 2 <= buf@.len(),
    ensures
        v == get_u16_le(buf@, offset as int),
{
    (buf[offset] as u16) | ((buf[offset + 1] as u16) << 8u16)
}

/// Read a little-endian u64 at `offset`.
pub fn read_u64(buf: &[u8], offset: usize) -> (v: u64)
    requires
        offset + 8 <= buf@.len(),
    ensures
        v == get_u64_le(buf@, offset as int),
{
    (buf[offset] as u64) | ((buf[offset + 1] as u64) << 8u64) | ((buf[offset + 2] as u64) << 16u64)
        | ((buf[offset + 3] as u64) << 24u64) | ((buf[offset + 4] as u64) << 32u64) | ((buf[offset
        + 5] as u64) << 40u64) | ((buf[offset + 6] as u64) << 48u64) | ((buf[offset + 7] as u64)
        << 56u64)
}

/// Write `val` little-endian at `offset`.
pub fn write_u32(buf: &mut [u8], offset: usize, val: u32)
    requires
        offset + 4 <= old(buf)@.len(),
    ensures
        final(buf)@ == splice(old(buf)@, offset as int, le32(val)),
{
    buf[offset] = val as u8;
    buf[offset + 1] = (val >> 8u32) as u8;
    buf[offset + 2] = (val >> 16u32) as u8;
    buf[offset + 3] = (val >> 24u32) as u8;
    assert(buf@ =~= splice(old(buf)@, offset as int, le32(val)));
}

/// Write `val` little-endian at `offset`.
fn write_u16(buf: &mut [u8], offset: usize, val: u16)
    requires
        offset + 2 <= old(buf)@.len(),
    ensures
        final(buf)@ == splice(old(buf)@, offset as int, le16(val)),
{
    buf[offset] = val as u8;
    buf[offset + 1] = (val >> 8u16) as u8;
    assert(buf@ =~= splice(old(buf)@, offset as int, le16(val)));
}

/// Write `val` little-endian at `offset`.
pub fn write_u64(buf: &mut [u8], offset: usize, val: u64)
    requires
        offset + 8 <= old(buf)@.len(),
    ensures
        final(buf)@ == splice(old(buf)@, offset as int, le64(val)),
{
    buf[offset] = val as u8;
    buf[offset + 1] = (val >> 8u64) as u8;
    buf[offset + 2] = (val >> 16u64) as u8;
    buf[offset + 3] = (val >> 24u64) as u8;
    buf[offset + 4] = (val >> 32u64) as u8;
    buf[offset + 5] = (val >> 40u64) as u8;
    buf[offset + 6] = (val >> 48u64) as u8;
    buf[offset + 7] = (val >> 56u64) as u8;
    assert(buf@ =~= splice(old(buf)@, offset as int, le64(val)));
}

/// Law: a u32 written at an offset reads back unchanged there.
pub proof fn lemma_write_read_u32(s: Seq<u8>, off: int, v: u32)
    requires
        0 <= off,
        off + 4 <= s.len(),
    ensures
        splice(s, off, le32(v)).len() == s.len(),
        get_u32_le(splice(s, off, le32(v)), off) == v,
{
    let t = splice(s, off, le32(v));
    assert(t[off] == le32(v)[0]);
    assert(t[off + 1] == le32(v)[1]);
    assert(t[off + 2] == le32(v)[2]);
    assert(t[off + 3] == le32(v)[3]);
    lemma_le32_roundtrip(v);
}

/// Law: a u64 written at an offset reads back unchanged there.
pub proof fn lemma_write_read_u64(s: Seq<u8>, off: int, v: u64)
    requires
        0 <= off,
        off + 8 <= s.len(),
    ensures
        splice(s, off, le64(v)).len() == s.len(),
        get_u64_le(splice(s, off, le64(v)), off) == v,
{
    let t = splice(s, off, le64(v));
    assert(t[off] == le64(v)[0]);
    assert(t[off + 1] == le64(v)[1]);
    assert(t[off + 2] == le64(v)[2]);
    assert(t[off + 3] == le64(v)[3]);
    assert(t[off + 4] == le64(v)[4]);
    assert(t[off + 5] == le64(v)[5]);
    assert(t[off + 6] == le64(v)[6]);
    assert(t[off + 7] == le64(v)[7]);
    lemma_le64_roundtrip(v);
}

/// Law: writes at non-overlapping offsets do not disturb each other.
pub proof fn lemma_splice_disjoint(s: Seq<u8>, off1: int, b1: Seq<u8>, off2: int, i: int)
    requires
        0 <= off1,
        off1 + b1.len() <= s.len(),
        0 <= i < s.len(),
        !(off1 <= i < off1 + b1.len()),
    ensures
        splice(s, off1, b1)[i] == s[i],
{
}

/// Builds a flat body: a zero-filled fixed region followed by data items.
pub struct BodyBuilder {
    fixed: Vec<u8>,
    data: Vec<u8>,
}

impl BodyBuilder {
    /// The bytes written so far (the fixed region with appended items).
    pub closed spec fn spec_fixed(&self) -> Seq<u8> {
        self.fixed@
    }

    /// The separate data region (appended after the fixed region on finish).
    pub closed spec fn spec_data(&self) -> Seq<u8> {
        self.data@
    }

    /// Create a builder whose fixed region is `fixed_size` zero bytes.
    pub fn new(fixed_size: usize) -> (b: Self)
        ensures
            b.spec_fixed() == Seq::new(fixed_size as nat, |i: int| 0u8),
            b.spec_data() == Seq::<u8>::empty(),
    {
        let mut fixed: Vec<u8> = Vec::new();
        let mut i: usize = 0;
        while i < fixed_size
            invariant
                i <= fixed_size,
                fixed@ == Seq::new(i as nat, |j: int| 0u8),
            decreases fixed_size - i,
        {
            fixed.push(0u8);
            i = i + 1;
            assert(fixed@ =~= Seq::new(i as nat, |j: int| 0u8));
        }
        BodyBuilder { fixed, data: Vec::new() }
    }

    /// Write a u32 at a fixed-region offset.
    pub fn write_u32(&mut self, offset: usize, val: u32)
        requires
            offset + 4 <= old(self).spec_fixed().len(),
        ensures
            final(self).spec_fixed() == splice(old(self).spec_fixed(), offset as int, le32(val)),
            final(self).spec_data() == old(self).spec_data(),
    {
        write_u32(self.fixed.as_mut_slice(), offset, val);
    }

    /// Write a u16 at a fixed-region offset.
    pub fn write_u16(&mut self, offset: usize, val: u16)
        requires
            offset + 2 <= old(self).spec_fixed().len(),
        ensures
            final(self).spec_fixed() == splice(old(self).spec_fixed(), offset as int, le16(val)),
            final(self).spec_data() == old(self).spec_data(),
    {
        write_u16(self.fixed.as_mut_slice(), offset, val);
    }

    /// Write a u64 at a fixed-region offset.
    pub fn write_u64(&mut self, offset: usize, val: u64)
        requires
            offset + 8 <= old(self).spec_fixed().len(),
        ensures
            final(self).spec_fixed() == splice(old(self).spec_fixed(), offset as int, le64(val)),
            final(self).spec_data() == old(self).spec_data(),
    {
        write_u64(self.fixed.as_mut_slice(), offset, val);
    }

    /// Append a variable-length item `[len: u32][bytes]` and return its
    /// offset from the start of the body (to be stored in a fixed field).
    /// The offset and length are taken modulo 2^32, as `as u32` does.
    pub fn push_data(&mut self, bytes: &[u8]) -> (off: u32)
        requires
            old(self).spec_fixed().len() + 4 + bytes@.len() <= usize::MAX,
        ensures
            off == old(self).spec_fixed().len() as u32,
            final(self).spec_fixed() == old(self).spec_fixed() + le32(bytes@.len() as u32) + bytes@,
            final(self).spec_data() == old(self).spec_data(),
    {
        let offset: u32 = #[verifier::truncate] (self.fixed.len() as u32);
        push_u32_le(&mut self.fixed, #[verifier::truncate] (bytes.len() as u32));
        push_bytes(&mut self.fixed, bytes);
        offset
    }

    /// Finish building: returns `[fixed region][data region]` and leaves the
    /// builder empty.
    pub fn finish(&mut self) -> (body: Vec<u8>)
        ensures
            body@ == old(self).spec_fixed() + old(self).spec_data(),
            final(self).spec_fixed() == Seq::<u8>::empty(),
            final(self).spec_data() == Seq::<u8>::empty(),
    {
        self.fixed.append(&mut self.data);
        let mut out: Vec<u8> = Vec::new();
        std::mem::swap(&mut out, &mut self.fixed);
        out
    }
}

/// Whether the item referenced by the field at `field_offset` lies inside `s`
/// (or the field is 0, meaning absent).
pub open spec fn item_in_bounds(s: Seq<u8>, field_offset: int) -> bool {
    &&& field_offset + 4 <= s.len()
    &&& get_u32_le(s, field_offset) != 0 ==> {
        let rel = get_u32_le(s, field_offset) as int;
        &&& rel + 4 <= s.len()
        &&& rel + 4 + get_u32_le(s, rel) <= s.len()
    }
}

/// The item referenced by the field at `field_offset`: `None` if the field is
/// 0, otherwise the bytes after the item's length prefix.
pub open spec fn spec_item(s: Seq<u8>, field_offset: int) -> Option<Seq<u8>> {
    let rel = get_u32_le(s, field_offset) as int;
    if rel == 0 {
        None
    } else {
        Some(s.subrange(rel + 4, rel + 4 + get_u32_le(s, rel)))
    }
}

/// Whether `bytes` is well-formed UTF-8, as `std::str::from_utf8` decides it.
pub open spec fn is_utf8(bytes: Seq<u8>) -> bool {
    vstd::utf8::valid_utf8(bytes)
}

/// Decode `bytes` as UTF-8 text.
///
/// Trusted: calls `std::str::from_utf8`, which (per its documentation)
/// succeeds exactly on valid UTF-8 and then borrows the same bytes as text.
#[verifier::external_body]
fn utf8_str(bytes: &[u8]) -> (r: Option<&str>)
    ensures
        r is Some <==> is_utf8(bytes@),
        r matches Some(t) ==> t.spec_bytes() == bytes@,
{
    std::str::from_utf8(bytes).ok()
}

/// Zero-copy reader over a flat body.
pub struct BodyReader<'a> {
    buf: &'a [u8],
}

impl<'a> BodyReader<'a> {
    /// The body bytes this reader reads from.
    pub closed spec fn spec_buf(&self) -> Seq<u8> {
        self.buf@
    }

    /// Create a reader over a body buffer.
    pub fn new(buf: &'a [u8]) -> (r: Self)
        ensures
            r.spec_buf() == buf@,
    {
        BodyReader { buf }
    }

    /// Read a u32 field at a fixed offset.
    pub fn read_u32(&self, offset: usize) -> (v: u32)
        requires
            offset + 4 <= self.spec_buf().len(),
        ensures
            v == get_u32_le(self.spec_buf(), offset as int),
    {
        read_u32(self.buf, offset)
    }

    /// Read a u16 field at a fixed offset.
    pub fn read_u16(&self, offset: usize) -> (v: u16)
        requires
            offset + 2 <= self.spec_buf().len(),
        ensures
            v == get_u16_le(self.spec_buf(), offset as int),
    {
        read_u16(self.buf, offset)
    }

    /// Read a u64 field at a fixed offset.
    pub fn read_u64(&self, offset: usize) -> (v: u64)
        requires
            offset + 8 <= self.spec_buf().len(),
        ensures
            v == get_u64_le(self.spec_buf(), offset as int),
    {
        read_u64(self.buf, offset)
    }

    /// Read the variable-length item referenced by the field at
    /// `field_offset`; `None` if the field is 0 (absent).
    pub fn read_bytes(&self, field_offset: usize) -> (r: Option<&'a [u8]>)
        requires
            item_in_bounds(self.spec_buf(), field_offset as int),
        ensures
            r matches Some(b) ==> spec_item(self.spec_buf(), field_offset as int) == Some(b@),
            r is None ==> spec_item(self.spec_buf(), field_offset as int) is None,
    {
        let relative: usize = read_u32(self.buf, field_offset) as usize;
        if relative == 0 {
            return None;
        }
        let len: usize = read_u32(self.buf, relative) as usize;
        let n: usize = self.buf.len();
        assert(relative + 4 + len <= n);
        Some(vstd::slice::slice_subrange(self.buf, relative + 4, relative + 4 + len))
    }

    /// Read the variable-length text item referenced by the field at
    /// `field_offset`; `None` if the field is 0 (absent). The item must hold
    /// UTF-8 text.
    pub fn read_string(&self, field_offset: usize) -> (r: Option<&'a str>)
        requires
            item_in_bounds(self.spec_buf(), field_offset as int),
            spec_item(self.spec_buf(), field_offset as int) matches Some(b) ==> is_utf8(b),
        ensures
            r matches Some(t) ==> spec_item(self.spec_buf(), field_offset as int) == Some(
                t.spec_bytes(),
            ),
            r is None ==> spec_item(self.spec_buf(), field_offset as int) is None,
    {
        match self.read_bytes(field_offset) {
            None => None,
            Some(b) => utf8_str(b),
        }
    }

    /// The whole body buffer.
    pub fn raw(&self) -> (r: &'a [u8])
        ensures
            r@ == self.spec_buf(),
    {
        self.buf
    }
}

/// Law: an item appended by `push_data` reads back unchanged: in the body
/// `fixed + [len][bytes] + rest`, a field holding the item's offset refers
/// to exactly `bytes`.
pub proof fn lemma_item_roundtrip(fixed: Seq<u8>, bytes: Seq<u8>, rest: Seq<u8>, field_offset: int)
    requires
        0 < fixed.len(),
        fixed.len() + 4 + bytes.len() <= u32::MAX,
        0 <= field_offset,
        field_offset + 4 <= fixed.len(),
        get_u32_le(fixed, field_offset) == fixed.len(),
    ensures
        ({
            let body = fixed + le32(bytes.len() as u32) + bytes + rest;
            &&& item_in_bounds(body, field_offset)
            &&& spec_item(body, field_offset) == Some(bytes)
        }),
{
    let body = fixed + le32(bytes.len() as u32) + bytes + rest;
    let n = fixed.len() as int;
    assert(body[field_offset] == fixed[field_offset]);
    assert(body[field_offset + 1] == fixed[field_offset + 1]);
    assert(body[field_offset + 2] == fixed[field_offset + 2]);
    assert(body[field_offset + 3] == fixed[field_offset + 3]);
    assert(body[n] == le32(bytes.len() as u32)[0]);
    assert(body[n + 1] == le32(bytes.len() as u32)[1]);
    assert(body[n + 2] == le32(bytes.len() as u32)[2]);
    assert(body[n + 3] == le32(bytes.len() as u32)[3]);
    lemma_le32_roundtrip(bytes.len() as u32);
    assert(body.subrange(n + 4, n + 4 + bytes.len()) =~= bytes);
}

} // verus!
