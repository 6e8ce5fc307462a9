//! Writing values and objects into package bytes.
//!
//! All values are little-endian with no padding; a `usize` is 8 bytes, the
//! value in the low word and zero in the high word; a string is its byte
//! length as a `usize` and then its UTF-8 bytes.

use vstd::prelude::*;
use crate::ptr::Ptr;
use crate::shared::PutkiError;
use crate::source::ObjectLoader;
use crate::strings::chars_of;
use crate::lexed::chars_eq;

verus! {

/// The four little-endian bytes of `v`.
pub open spec fn u32_bytes(v: u32) -> Seq<u8> {
    seq![(v % 256) as u8, ((v / 256) % 256) as u8, ((v / 65536) % 256) as u8, (v / 16777216) as u8]
}

/// The eight bytes of a `usize` field holding `v`: its low word, then a
/// zero high word.
pub open spec fn usize_bytes(v: usize) -> Seq<u8> {
    u32_bytes(v as u32) + seq![0u8, 0u8, 0u8, 0u8]
}

/// The bytes of a string: its length, then its UTF-8 bytes.
pub open spec fn string_bytes(s: Seq<char>) -> Seq<u8> {
    usize_bytes(vstd::utf8::encode_utf8(s).len() as usize) + vstd::utf8::encode_utf8(s)
}

/// Writes a value in the package encoding.
pub trait BinWriter {
    /// The bytes the value is written as.
    spec fn encoded(&self) -> Seq<u8>;

    fn write(&self, data: &mut Vec<u8>)
        ensures
            final(data)@ == old(data)@ + self.encoded(),
    ;
}

fn push_u32(data: &mut Vec<u8>, u: u32)
    ensures
        final(data)@ == old(data)@ + u32_bytes(u),
{
    data.push((u % 256) as u8);
    data.push(((u / 256) % 256) as u8);
    data.push(((u / 65536) % 256) as u8);
    data.push((u / 16777216) as u8);
    assert(data@ =~= old(data)@ + u32_bytes(u));
}

impl BinWriter for i32 {
    /// The bits of the two's complement value.
    open spec fn encoded(&self) -> Seq<u8> {
        u32_bytes(*self as u32)
    }

    fn write(&self, data: &mut Vec<u8>) {
        push_u32(data, *self as u32);
    }
}

impl BinWriter for u16 {
    open spec fn encoded(&self) -> Seq<u8> {
        seq![(*self % 256) as u8, (*self / 256) as u8]
    }

    fn write(&self, data: &mut Vec<u8>) {
        data.push((*self % 256) as u8);
        data.push((*self / 256) as u8);
        assert(data@ =~= old(data)@ + self.encoded());
    }
}

impl BinWriter for u32 {
    open spec fn encoded(&self) -> Seq<u8> {
        u32_bytes(*self)
    }

    fn write(&self, data: &mut Vec<u8>) {
        push_u32(data, *self);
    }
}

impl BinWriter for usize {
    /// The low 32 bits, then a zero high word.
    open spec fn encoded(&self) -> Seq<u8> {
        usize_bytes(*self)
    }

    fn write(&self, data: &mut Vec<u8>) {
        push_u32(data, *self as u32);
        push_u32(data, 0);
        assert(u32_bytes(0) =~= seq![0u8, 0u8, 0u8, 0u8]);
        assert(data@ =~= old(data)@ + usize_bytes(*self));
    }
}

impl BinWriter for u8 {
    open spec fn encoded(&self) -> Seq<u8> {
        seq![*self]
    }

    fn write(&self, data: &mut Vec<u8>) {
        data.push(*self);
        assert(data@ =~= old(data)@ + self.encoded());
    }
}

impl BinWriter for bool {
    open spec fn encoded(&self) -> Seq<u8> {
        if *self {
            seq![1u8]
        } else {
            seq![0u8]
        }
    }

    fn write(&self, data: &mut Vec<u8>) {
        if *self {
            data.push(1);
        } else {
            data.push(0);
        }
        assert(data@ =~= old(data)@ + self.encoded());
    }
}

fn push_str_bytes(data: &mut Vec<u8>, s: &str)
    ensures
        final(data)@ == old(data)@ + string_bytes(s@),
{
    let b = s.as_bytes();
    let n = b.len();
    n.write(data);
    let ghost mid = data@;
    let mut i: usize = 0;
    while i < n
        invariant
            i <= n == b@.len(),
            data@ == mid + b@.take(i as int),
        decreases n - i,
    {
        data.push(b[i]);
        assert(b@.take(i + 1) =~= b@.take(i as int).push(b@[i as int]));
        i = i + 1;
    }
    assert(b@.take(n as int) =~= b@);
}

impl<'a> BinWriter for &'a str {
    open spec fn encoded(&self) -> Seq<u8> {
        string_bytes(self@)
    }

    fn write(&self, data: &mut Vec<u8>) {
        push_str_bytes(data, self);
    }
}

impl BinWriter for String {
    open spec fn encoded(&self) -> Seq<u8> {
        string_bytes(self@)
    }

    fn write(&self, data: &mut Vec<u8>) {
        push_str_bytes(data, self.as_str());
    }
}

/// The bytes of the elements of `s`, in order.
pub open spec fn elements_bytes<T: BinWriter>(s: Seq<T>) -> Seq<u8>
    decreases s.len(),
{
    if s.len() == 0 {
        Seq::empty()
    } else {
        elements_bytes(s.drop_last()) + s.last().encoded()
    }
}

impl<T: BinWriter> BinWriter for Vec<T> {
    /// The element count, then each element.
    open spec fn encoded(&self) -> Seq<u8> {
        usize_bytes(self@.len() as usize) + elements_bytes(self@)
    }

    fn write(&self, data: &mut Vec<u8>) {
        self.len().write(data);
        let ghost mid = data@;
        let mut i: usize = 0;
        while i < self.len()
            invariant
                i <= self@.len(),
                data@ == mid + elements_bytes(self@.take(i as int)),
            decreases self@.len() - i,
        {
            assert(self@.take(i + 1).drop_last() =~= self@.take(i as int));
            self[i].write(data);
            i = i + 1;
        }
        assert(self@.take(self@.len() as int) =~= self@);
    }
}

/// Which slot each path is written in.
pub struct PackageRefs {
    path_to_slot: Vec<(String, usize)>,
}

/// The mapping a list of bindings gives: a later binding of a path
/// replaces an earlier one.
pub open spec fn bindings_map(s: Seq<(String, usize)>) -> Map<Seq<char>, usize>
    decreases s.len(),
{
    if s.len() == 0 {
        Map::empty()
    } else {
        bindings_map(s.drop_last()).insert(s.last().0@, s.last().1)
    }
}

impl PackageRefs {
    /// The slot of each path.
    pub closed spec fn slots(&self) -> Map<Seq<char>, usize> {
        bindings_map(self.path_to_slot@)
    }

    pub fn new() -> (r: PackageRefs)
        ensures
            r.slots() == Map::<Seq<char>, usize>::empty(),
    {
        PackageRefs { path_to_slot: Vec::new() }
    }

    /// Files `path` in `slot`.
    pub fn insert(&mut self, path: String, slot: usize)
        ensures
            final(self).slots() == old(self).slots().insert(path@, slot),
    {
        let ghost before = self.path_to_slot@;
        self.path_to_slot.push((path, slot));
        assert(self.path_to_slot@.drop_last() =~= before);
    }

    /// The slot `path` is filed in.
    pub fn slot_of(&self, path: &str) -> (r: Option<usize>)
        ensures
            match r {
                Some(s) => self.slots().contains_key(path@) && self.slots()[path@] == s,
                None => !self.slots().contains_key(path@),
            },
    {
        let p = chars_of(path);
        let mut i = self.path_to_slot.len();
        while i > 0
            invariant
                i <= self.path_to_slot@.len(),
                p@ == path@,
                forall|j: int| i <= j < self.path_to_slot@.len() ==> self.path_to_slot@[j].0@ != path@,
            decreases i,
        {
            let k = chars_of(self.path_to_slot[i - 1].0.as_str());
            if chars_eq(&k, &p) {
                proof {
                    lemma_bindings_last(self.path_to_slot@, (i - 1) as int, path@);
                }
                return Some(self.path_to_slot[i - 1].1);
            }
            i = i - 1;
        }
        proof {
            lemma_bindings_absent(self.path_to_slot@, path@);
        }
        None
    }
}

/// The binding of `path` is that of its last occurrence.
proof fn lemma_bindings_last(s: Seq<(String, usize)>, i: int, path: Seq<char>)
    requires
        0 <= i < s.len(),
        s[i].0@ == path,
        forall|j: int| i < j < s.len() ==> s[j].0@ != path,
    ensures
        bindings_map(s).contains_key(path),
        bindings_map(s)[path] == s[i].1,
    decreases s.len(),
{
    if i < s.len() - 1 {
        lemma_bindings_last(s.drop_last(), i, path);
    }
}

/// A path never bound has no binding.
proof fn lemma_bindings_absent(s: Seq<(String, usize)>, path: Seq<char>)
    requires
        forall|j: int| 0 <= j < s.len() ==> s[j].0@ != path,
    ensures
        !bindings_map(s).contains_key(path),
    decreases s.len(),
{
    if s.len() > 0 {
        lemma_bindings_absent(s.drop_last(), path);
    }
}

/// Writes an object into package bytes, pointers as slot references.
///
/// Objects are written inline: a writer only appends to `data`.
pub trait BinSaver {
    fn write(&self, data: &mut Vec<u8>, refs: &PackageRefs) -> (r: Result<(), PutkiError>)
        ensures
            appends(old(data)@, final(data)@),
    ;
}

/// Whether `after` is `before` with bytes appended.
pub open spec fn appends(before: Seq<u8>, after: Seq<u8>) -> bool {
    after.len() >= before.len() && after.subrange(0, before.len() as int) == before
}

/// The slot reference a pointer to `path` is written as: its slot, or -1
/// when it is null or its target is not in the package.
pub open spec fn slot_reference(path: Option<Seq<char>>, slots: Map<Seq<char>, usize>) -> i32 {
    match path {
        Some(p) => if slots.contains_key(p) {
            slots[p] as i32
        } else {
            -1i32
        },
        None => -1i32,
    }
}

impl<T, L: ObjectLoader> BinSaver for Ptr<T, L> {
    fn write(&self, data: &mut Vec<u8>, refs: &PackageRefs) -> (r: Result<(), PutkiError>)
        ensures
            r is Ok,
            final(data)@ == old(data)@ + u32_bytes(slot_reference(self.target_path(), refs.slots()) as u32),
    {
        proof {
            assert((old(data)@ + u32_bytes(slot_reference(self.target_path(), refs.slots()) as u32)).subrange(
                0,
                old(data)@.len() as int,
            ) =~= old(data)@);
        }
        let slot: i32 = match self.get_target_path() {
            Some(x) => match refs.slot_of(x) {
                Some(s) => s as i32,
                None => -1,
            },
            None => -1,
        };
        slot.write(data);
        Ok(())
    }
}

impl<T: BinSaver> BinSaver for Vec<T> {
    /// The element count, then each element, stopping at the first
    /// failure.
    fn write(&self, data: &mut Vec<u8>, refs: &PackageRefs) -> (r: Result<(), PutkiError>) {
        self.len().write(data);
        assert(appends(old(data)@, data@)) by {
            assert(data@.subrange(0, old(data)@.len() as int) =~= old(data)@);
        }
        let mut i: usize = 0;
        while i < self.len()
            invariant
                i <= self@.len(),
                appends(old(data)@, data@),
            decreases self@.len() - i,
        {
            let ghost before = data@;
            let r = self[i].write(data, refs);
            assert(appends(old(data)@, data@)) by {
                assert(data@.subrange(0, old(data)@.len() as int) =~= data@.subrange(0, before.len() as int).subrange(
                    0,
                    old(data)@.len() as int,
                ));
            }
            if r.is_err() {
                return r;
            }
            i = i + 1;
        }
        Ok(())
    }
}

/// Overwrites the bytes at `offset` with the encoding of `value`.
pub fn insert_value<T: BinWriter>(data: &mut Vec<u8>, offset: usize, value: T)
    requires
        offset + value.encoded().len() <= old(data)@.len(),
    ensures
        final(data)@ == old(data)@.subrange(0, offset as int) + value.encoded() + old(data)@.subrange(
            offset + value.encoded().len(),
            old(data)@.len() as int,
        ),
{
    let mut tmp: Vec<u8> = Vec::new();
    value.write(&mut tmp);
    assert(tmp@ =~= value.encoded());
    let n = data.len();
    let mut i: usize = 0;
    while i < tmp.len()
        invariant
            n == data@.len(),
            i <= tmp@.len(),
            tmp@ == value.encoded(),
            offset + tmp@.len() <= old(data)@.len(),
            data@.len() == old(data)@.len(),
            forall|j: int| 0 <= j < data@.len() ==> #[trigger] data@[j] == if offset <= j < offset + i {
                tmp@[j - offset]
            } else {
                old(data)@[j]
            },
        decreases tmp.len() - i,
    {
        data.set(offset + i, tmp[i]);
        i = i + 1;
    }
    assert(data@ =~= old(data)@.subrange(0, offset as int) + value.encoded() + old(data)@.subrange(
        offset + value.encoded().len(),
        old(data)@.len() as int,
    ));
}

/// What the writer writes for a `u32`, the reader reads back.
pub proof fn lemma_u32_round_trip(v: u32)
    ensures
        crate::manifest::le_u32(u32_bytes(v), 0) == v,
{
    let b = u32_bytes(v);
    assert(b[0] == v % 256 && b[1] == (v / 256) % 256 && b[2] == (v / 65536) % 256 && b[3] == v / 16777216);
    assert((v % 256) + 256 * ((v / 256) % 256) + 65536 * ((v / 65536) % 256) + 16777216 * (v / 16777216) == v)
        by (nonlinear_arith);
}

/// What the writer writes for a `usize` of 32-bit range, the reader reads
/// back, and the reader stops right after it.
pub proof fn lemma_usize_round_trip(v: usize)
    requires
        v <= u32::MAX,
    ensures
        crate::manifest::read_usize_spec(usize_bytes(v), 0) == Ok::<(int, int), crate::manifest::OutkiError>(
            (v as int, 8),
        ),
{
    lemma_u32_round_trip(v as u32);
    lemma_u32_round_trip(0);
    let b = usize_bytes(v);
    assert(b.len() == 8);
    assert(crate::manifest::le_u32(b, 0) == crate::manifest::le_u32(u32_bytes(v as u32), 0));
    assert(crate::manifest::le_u32(b, 4) == crate::manifest::le_u32(u32_bytes(0), 0));
}

/// What the writer writes for a string, the reader reads back, and the
/// reader stops right after it.
pub proof fn lemma_string_round_trip(s: Seq<char>)
    requires
        vstd::utf8::encode_utf8(s).len() <= u32::MAX,
    ensures
        crate::manifest::read_string_spec(string_bytes(s), 0) == Ok::<(Seq<char>, int), crate::manifest::OutkiError>(
            (s, string_bytes(s).len() as int),
        ),
{
    let e = vstd::utf8::encode_utf8(s);
    let b = string_bytes(s);
    lemma_usize_round_trip(e.len() as usize);
    assert(crate::manifest::read_usize_spec(b, 0) == crate::manifest::read_usize_spec(usize_bytes(e.len() as usize), 0))
        by {
        assert(b.subrange(0, 8) =~= usize_bytes(e.len() as usize));
        assert(b[0] == usize_bytes(e.len() as usize)[0]);
        assert(b[4] == usize_bytes(e.len() as usize)[4]);
    }
    assert(b.subrange(8, 8 + e.len() as int) =~= e);
    vstd::utf8::encode_utf8_valid_utf8(s);
    vstd::utf8::encode_utf8_decode_utf8(s);
}

} // verus!
