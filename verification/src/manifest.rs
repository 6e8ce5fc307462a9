//! The package manifest: the header of a binary package, which lists the
//! types it holds and the slots its objects sit in.
//!
//! Package data is not trusted input: a truncated or corrupt file comes back
//! as an error, never a panic or an out-of-range read.

use vstd::prelude::*;
use vstd::utf8::{valid_utf8, decode_utf8};
use crate::strings::string_from_utf8;
use crate::shared::{TypeDescriptor, tag_of};

verus! {

/// `'PTKI'`, little-endian.
pub const PACKAGE_MAGIC: u32 = 0x494B5450;

/// The format version this reader understands.
pub const PACKAGE_VERSION: u32 = 1;

/// Bytes of the fixed part of the header: magic, version, header size.
pub const PACKAGE_HEADER_FIXED: usize = 16;

/// The slot carries a path string.
pub const SLOTFLAG_HAS_PATH: u32 = 1;

/// The payload is in this file's data section.
pub const SLOTFLAG_INTERNAL: u32 = 2;

/// What is wrong with a corrupt package.
#[derive(Debug, PartialEq, Eq, Structural)]
pub enum Corruption {
    HeaderEndedMidField,
    OversizedLength,
    InvalidUtf8,
    HeaderTooSmall,
    UnknownSlotFlags,
    SlotEndsBeforeBegin,
    SlotOverlapsHeader,
    UnknownSlotType,
}

/// The description of each kind of corruption.
pub open spec fn corruption_message(c: Corruption) -> Seq<char> {
    match c {
        Corruption::HeaderEndedMidField => "header ended mid-field"@,
        Corruption::OversizedLength => "oversized length field"@,
        Corruption::InvalidUtf8 => "string is not valid utf-8"@,
        Corruption::HeaderTooSmall => "header size smaller than the header"@,
        Corruption::UnknownSlotFlags => "unknown slot flags"@,
        Corruption::SlotEndsBeforeBegin => "slot ends before it begins"@,
        Corruption::SlotOverlapsHeader => "slot payload overlaps the header"@,
        Corruption::UnknownSlotType => "slot names a type not in the table"@,
    }
}

impl Corruption {
    /// A description for diagnostics.
    pub fn message(&self) -> (r: &'static str)
        ensures
            r@ == corruption_message(*self),
    {
        match self {
            Corruption::HeaderEndedMidField => "header ended mid-field",
            Corruption::OversizedLength => "oversized length field",
            Corruption::InvalidUtf8 => "string is not valid utf-8",
            Corruption::HeaderTooSmall => "header size smaller than the header",
            Corruption::UnknownSlotFlags => "unknown slot flags",
            Corruption::SlotEndsBeforeBegin => "slot ends before it begins",
            Corruption::SlotOverlapsHeader => "slot payload overlaps the header",
            Corruption::UnknownSlotType => "slot names a type not in the table",
        }
    }
}

/// Errors of the package reader.
#[derive(Debug, PartialEq, Eq, Structural)]
pub enum OutkiError {
    SlotNotFound,
    ResolveFailed,
    DataMissing,
    NonNullIsNull,
    CorruptPackage(Corruption),
    BadMagic(u32),
    UnsupportedVersion(u32),
    /// A slot holds another type than the one asked for.
    TypeMismatch { wanted: usize, found: usize },
    /// The package ended before the header did.
    IO,
}

pub type OutkiResult<T> = Result<T, OutkiError>;

/// One slot of the manifest.
pub struct Slot {
    pub flags: u32,
    pub path: Option<String>,
    pub begin: usize,
    pub end: usize,
    /// Compiler-assigned type id, or 0 if unknown.
    pub type_id: usize,
}

/// One entry of the type table.
pub struct TypeEntry {
    pub id: usize,
    pub name: String,
}

/// A package header: its types, its slots, and its size in bytes.
pub struct PackageManifest {
    pub slots: Vec<Slot>,
    pub types: Vec<TypeEntry>,
    pub manifest_size: usize,
}

/// The model of a slot.
pub struct SlotView {
    pub flags: int,
    pub path: Option<Seq<char>>,
    pub type_id: int,
    pub begin: int,
    pub end: int,
}

/// The model of a type table entry.
pub struct TypeView {
    pub id: int,
    pub name: Seq<char>,
}

/// The model of a manifest.
pub struct ManifestView {
    pub slots: Seq<SlotView>,
    pub types: Seq<TypeView>,
    pub manifest_size: int,
}

pub open spec fn slot_view(s: Slot) -> SlotView {
    SlotView {
        flags: s.flags as int,
        path: match s.path {
            Some(p) => Some(p@),
            None => None,
        },
        type_id: s.type_id as int,
        begin: s.begin as int,
        end: s.end as int,
    }
}

pub open spec fn type_view(t: TypeEntry) -> TypeView {
    TypeView { id: t.id as int, name: t.name@ }
}

impl View for Slot {
    type V = SlotView;

    open spec fn view(&self) -> SlotView {
        slot_view(*self)
    }
}

impl View for TypeEntry {
    type V = TypeView;

    open spec fn view(&self) -> TypeView {
        type_view(*self)
    }
}

impl View for PackageManifest {
    type V = ManifestView;

    open spec fn view(&self) -> ManifestView {
        ManifestView {
            slots: Seq::new(self.slots@.len(), |i: int| slot_view(self.slots@[i])),
            types: Seq::new(self.types@.len(), |i: int| type_view(self.types@[i])),
            manifest_size: self.manifest_size as int,
        }
    }
}

/// The little-endian `u32` at `p`.
pub open spec fn le_u32(s: Seq<u8>, p: int) -> int {
    s[p] + 256 * s[p + 1] + 65536 * s[p + 2] + 16777216 * s[p + 3]
}

pub open spec fn corrupt(c: Corruption) -> OutkiError {
    OutkiError::CorruptPackage(c)
}

/// Reads a `u32` at `p`: its value and the position after it.
pub open spec fn read_u32_spec(s: Seq<u8>, p: int) -> Result<(int, int), OutkiError> {
    if 0 <= p && p + 4 <= s.len() {
        Ok((le_u32(s, p), p + 4))
    } else {
        Err(corrupt(Corruption::HeaderEndedMidField))
    }
}

/// Reads a `usize` field: a `u32` value and a `u32` high word that must be
/// zero.
pub open spec fn read_usize_spec(s: Seq<u8>, p: int) -> Result<(int, int), OutkiError> {
    match read_u32_spec(s, p) {
        Err(e) => Err(e),
        Ok((low, p1)) => match read_u32_spec(s, p1) {
            Err(e) => Err(e),
            Ok((high, p2)) => if high != 0 {
                Err(corrupt(Corruption::OversizedLength))
            } else {
                Ok((low, p2))
            },
        },
    }
}

/// Reads a string: a `usize` byte length, then that many UTF-8 bytes.
pub open spec fn read_string_spec(s: Seq<u8>, p: int) -> Result<(Seq<char>, int), OutkiError> {
    match read_usize_spec(s, p) {
        Err(e) => Err(e),
        Ok((n, p1)) => if p1 + n <= s.len() {
            let b = s.subrange(p1, p1 + n);
            if valid_utf8(b) {
                Ok((decode_utf8(b), p1 + n))
            } else {
                Err(corrupt(Corruption::InvalidUtf8))
            }
        } else {
            Err(corrupt(Corruption::HeaderEndedMidField))
        },
    }
}

/// Reads `n` type table entries from `p`.
pub open spec fn read_types_spec(s: Seq<u8>, p: int, n: nat) -> Result<(Seq<TypeView>, int), OutkiError>
    decreases n,
{
    if n == 0 {
        Ok((Seq::empty(), p))
    } else {
        match read_types_spec(s, p, (n - 1) as nat) {
            Err(e) => Err(e),
            Ok((ts, q)) => match read_usize_spec(s, q) {
                Err(e) => Err(e),
                Ok((id, q1)) => match read_string_spec(s, q1) {
                    Err(e) => Err(e),
                    Ok((name, q2)) => Ok((ts.push(TypeView { id, name }), q2)),
                },
            },
        }
    }
}

/// Whether the type table holds `id`.
pub open spec fn has_type(types: Seq<TypeView>, id: int) -> bool {
    exists|i: int| 0 <= i < types.len() && types[i].id == id
}

/// The checks a slot must pass once its fields are read.
pub open spec fn check_slot(
    sl: SlotView,
    types: Seq<TypeView>,
    header_size: int,
) -> Result<SlotView, OutkiError> {
    if sl.end < sl.begin {
        Err(corrupt(Corruption::SlotEndsBeforeBegin))
    } else if sl.begin < header_size {
        Err(corrupt(Corruption::SlotOverlapsHeader))
    } else if sl.type_id != 0 && !has_type(types, sl.type_id) {
        Err(corrupt(Corruption::UnknownSlotType))
    } else {
        Ok(sl)
    }
}

/// Reads the three `usize` fields ending a slot record and checks the slot.
pub open spec fn read_slot_tail_spec(
    s: Seq<u8>,
    q: int,
    flags: int,
    path: Option<Seq<char>>,
    types: Seq<TypeView>,
    header_size: int,
) -> Result<(SlotView, int), OutkiError> {
    match read_usize_spec(s, q) {
        Err(e) => Err(e),
        Ok((type_id, q1)) => match read_usize_spec(s, q1) {
            Err(e) => Err(e),
            Ok((begin, q2)) => match read_usize_spec(s, q2) {
                Err(e) => Err(e),
                Ok((end, q3)) => match check_slot(
                    SlotView { flags, path, type_id, begin, end },
                    types,
                    header_size,
                ) {
                    Err(e) => Err(e),
                    Ok(sl) => Ok((sl, q3)),
                },
            },
        },
    }
}

/// Reads one slot record at `q`.
pub open spec fn read_slot_spec(
    s: Seq<u8>,
    q: int,
    types: Seq<TypeView>,
    header_size: int,
) -> Result<(SlotView, int), OutkiError> {
    match read_u32_spec(s, q) {
        Err(e) => Err(e),
        Ok((flags, q1)) => if flags > 3 {
            Err(corrupt(Corruption::UnknownSlotFlags))
        } else if flags % 2 == 1 {
            match read_string_spec(s, q1) {
                Err(e) => Err(e),
                Ok((path, q2)) => read_slot_tail_spec(s, q2, flags, Some(path), types, header_size),
            }
        } else {
            read_slot_tail_spec(s, q1, flags, None, types, header_size)
        },
    }
}

/// Reads `n` slot records from `p`.
pub open spec fn read_slots_spec(
    s: Seq<u8>,
    p: int,
    n: nat,
    types: Seq<TypeView>,
    header_size: int,
) -> Result<(Seq<SlotView>, int), OutkiError>
    decreases n,
{
    if n == 0 {
        Ok((Seq::empty(), p))
    } else {
        match read_slots_spec(s, p, (n - 1) as nat, types, header_size) {
            Err(e) => Err(e),
            Ok((ss, q)) => match read_slot_spec(s, q, types, header_size) {
                Err(e) => Err(e),
                Ok((sl, q1)) => Ok((ss.push(sl), q1)),
            },
        }
    }
}

/// The manifest held in `content`, the header bytes after the fixed part,
/// of a header `header_size` bytes long.
pub open spec fn parse_content_spec(content: Seq<u8>, header_size: int) -> Result<ManifestView, OutkiError> {
    match read_usize_spec(content, 0) {
        Err(e) => Err(e),
        Ok((nt, p1)) => match read_types_spec(content, p1, nt as nat) {
            Err(e) => Err(e),
            Ok((types, p2)) => match read_usize_spec(content, p2) {
                Err(e) => Err(e),
                Ok((ns, p3)) => match read_slots_spec(content, p3, ns as nat, types, header_size) {
                    Err(e) => Err(e),
                    Ok((slots, _)) => Ok(ManifestView { slots, types, manifest_size: header_size }),
                },
            },
        },
    }
}

/// The header size the fixed part of a header gives, after checking the
/// magic and the version.
pub open spec fn parse_fixed_spec(head: Seq<u8>) -> Result<int, OutkiError> {
    match read_u32_spec(head, 0) {
        Err(e) => Err(e),
        Ok((magic, p1)) => if magic != PACKAGE_MAGIC {
            Err(OutkiError::BadMagic(magic as u32))
        } else {
            match read_u32_spec(head, p1) {
                Err(e) => Err(e),
                Ok((version, p2)) => if version != PACKAGE_VERSION {
                    Err(OutkiError::UnsupportedVersion(version as u32))
                } else {
                    match read_usize_spec(head, p2) {
                        Err(e) => Err(e),
                        Ok((size, _)) => if size < PACKAGE_HEADER_FIXED {
                            Err(corrupt(Corruption::HeaderTooSmall))
                        } else {
                            Ok(size)
                        },
                    }
                },
            }
        },
    }
}

/// The manifest at the start of the package bytes `data`.
pub open spec fn parse_spec(data: Seq<u8>) -> Result<ManifestView, OutkiError> {
    if data.len() < PACKAGE_HEADER_FIXED {
        Err(OutkiError::IO)
    } else {
        match parse_fixed_spec(data.take(PACKAGE_HEADER_FIXED as int)) {
            Err(e) => Err(e),
            Ok(size) => if data.len() < size {
                Err(OutkiError::IO)
            } else {
                parse_content_spec(data.subrange(PACKAGE_HEADER_FIXED as int, size), size)
            },
        }
    }
}

proof fn lemma_read_types_err(s: Seq<u8>, p: int, n: nat, m: nat)
    requires
        read_types_spec(s, p, n) is Err,
        n <= m,
    ensures
        read_types_spec(s, p, m) == read_types_spec(s, p, n),
    decreases m,
{
    if m > n {
        lemma_read_types_err(s, p, n, (m - 1) as nat);
    }
}

proof fn lemma_read_slots_err(s: Seq<u8>, p: int, n: nat, m: nat, types: Seq<TypeView>, hs: int)
    requires
        read_slots_spec(s, p, n, types, hs) is Err,
        n <= m,
    ensures
        read_slots_spec(s, p, m, types, hs) == read_slots_spec(s, p, n, types, hs),
    decreases m,
{
    if m > n {
        lemma_read_slots_err(s, p, n, (m - 1) as nat, types, hs);
    }
}

/// Bounds-checked reader over header bytes.
struct Cursor<'a> {
    data: &'a [u8],
    pos: usize,
}

impl<'a> Cursor<'a> {
    fn new(data: &'a [u8]) -> (r: Self)
        ensures
            r.data@ == data@,
            r.pos == 0,
    {
        Cursor { data, pos: 0 }
    }

    /// Moves past the next `count` bytes, giving where they start; fails
    /// when fewer are left.
    fn take(&mut self, count: usize) -> (r: OutkiResult<usize>)
        ensures
            final(self).data@ == old(self).data@,
            old(self).pos + count <= old(self).data@.len() ==> r == Ok::<usize, OutkiError>(old(self).pos)
                && final(self).pos == old(self).pos + count,
            old(self).pos + count > old(self).data@.len() ==> r == Err::<usize, OutkiError>(
                OutkiError::CorruptPackage(Corruption::HeaderEndedMidField),
            ),
    {
        let n = self.data.len();
        if self.pos > n || count > n - self.pos {
            return Err(OutkiError::CorruptPackage(Corruption::HeaderEndedMidField));
        }
        let p = self.pos;
        self.pos = p + count;
        Ok(p)
    }

    fn u32(&mut self) -> (r: OutkiResult<u32>)
        ensures
            final(self).data@ == old(self).data@,
            match read_u32_spec(old(self).data@, old(self).pos as int) {
                Ok((v, q)) => r == Ok::<u32, OutkiError>(v as u32) && final(self).pos == q,
                Err(e) => r == Err::<u32, OutkiError>(e),
            },
    {
        let p = match self.take(4) {
            Ok(p) => p,
            Err(e) => return Err(e),
        };
        let v = (self.data[p] as u32) + (self.data[p + 1] as u32) * 256 + (self.data[p + 2] as u32) * 65536
            + (self.data[p + 3] as u32) * 16777216;
        Ok(v)
    }

    fn usize(&mut self) -> (r: OutkiResult<usize>)
        ensures
            final(self).data@ == old(self).data@,
            match read_usize_spec(old(self).data@, old(self).pos as int) {
                Ok((v, q)) => r == Ok::<usize, OutkiError>(v as usize) && final(self).pos == q,
                Err(e) => r == Err::<usize, OutkiError>(e),
            },
    {
        let low = match self.u32() {
            Ok(v) => v,
            Err(e) => return Err(e),
        };
        let high = match self.u32() {
            Ok(v) => v,
            Err(e) => return Err(e),
        };
        if high != 0 {
            return Err(OutkiError::CorruptPackage(Corruption::OversizedLength));
        }
        Ok(low as usize)
    }

    fn string(&mut self) -> (r: OutkiResult<String>)
        ensures
            final(self).data@ == old(self).data@,
            match read_string_spec(old(self).data@, old(self).pos as int) {
                Ok((v, q)) => r matches Ok(s) && s@ == v && final(self).pos == q,
                Err(e) => r == Err::<String, OutkiError>(e),
            },
    {
        let len = match self.usize() {
            Ok(v) => v,
            Err(e) => return Err(e),
        };
        let start = match self.take(len) {
            Ok(p) => p,
            Err(e) => return Err(e),
        };
        let stop = start + len;
        let mut bytes: Vec<u8> = Vec::new();
        let mut i = start;
        while i < stop
            invariant
                start <= i <= stop <= self.data@.len(),
                stop == start + len,
                bytes@ == self.data@.subrange(start as int, i as int),
            decreases stop - i,
        {
            bytes.push(self.data[i]);
            i = i + 1;
        }
        match string_from_utf8(bytes) {
            Some(s) => Ok(s),
            None => Err(OutkiError::CorruptPackage(Corruption::InvalidUtf8)),
        }
    }
}

/// Whether `types` holds an entry with `id`.
fn types_contain(types: &Vec<TypeEntry>, id: usize) -> (r: bool)
    ensures
        r == exists|i: int| 0 <= i < types@.len() && types@[i].id == id,
{
    let mut i: usize = 0;
    while i < types.len()
        invariant
            i <= types@.len(),
            forall|j: int| 0 <= j < i ==> types@[j].id != id,
        decreases types.len() - i,
    {
        if types[i].id == id {
            return true;
        }
        i = i + 1;
    }
    false
}

pub open spec fn types_view(types: Seq<TypeEntry>) -> Seq<TypeView> {
    Seq::new(types.len(), |i: int| type_view(types[i]))
}

pub open spec fn slots_view(slots: Seq<Slot>) -> Seq<SlotView> {
    Seq::new(slots.len(), |i: int| slot_view(slots[i]))
}

/// Reads the fixed part of a header, `PACKAGE_HEADER_FIXED` bytes, and
/// returns the size of the whole header.
pub fn parse_fixed_header(head: &[u8]) -> (r: OutkiResult<usize>)
    requires
        head@.len() == PACKAGE_HEADER_FIXED,
    ensures
        match parse_fixed_spec(head@) {
            Ok(size) => r == Ok::<usize, OutkiError>(size as usize),
            Err(e) => r == Err::<usize, OutkiError>(e),
        },
{
    let mut cursor = Cursor::new(head);
    let magic = match cursor.u32() {
        Ok(v) => v,
        Err(e) => return Err(e),
    };
    if magic != PACKAGE_MAGIC {
        return Err(OutkiError::BadMagic(magic));
    }
    let version = match cursor.u32() {
        Ok(v) => v,
        Err(e) => return Err(e),
    };
    if version != PACKAGE_VERSION {
        return Err(OutkiError::UnsupportedVersion(version));
    }
    let header_size = match cursor.usize() {
        Ok(v) => v,
        Err(e) => return Err(e),
    };
    if header_size < PACKAGE_HEADER_FIXED {
        return Err(OutkiError::CorruptPackage(Corruption::HeaderTooSmall));
    }
    Ok(header_size)
}

/// Reads the rest of a header `header_size` bytes long: the bytes after the
/// fixed part, which hold the type table and the slots.
///
/// Counts are not trusted, so nothing is allocated from them; a bogus count
/// runs the cursor out of data and errors.
#[verifier::spinoff_prover]
pub fn parse_content(header_size: usize, content: &[u8]) -> (r: OutkiResult<PackageManifest>)
    ensures
        match parse_content_spec(content@, header_size as int) {
            Ok(m) => r matches Ok(pm) && pm@ == m,
            Err(e) => r matches Err(x) && x == e,
        },
{
    let ghost s = content@;
    let mut c = Cursor::new(content);
    let num_types = match c.usize() {
        Ok(v) => v,
        Err(e) => return Err(e),
    };
    let ghost p1 = c.pos as int;
    assert(read_usize_spec(s, 0) == Ok::<(int, int), OutkiError>((num_types as int, p1)));
    let mut types: Vec<TypeEntry> = Vec::new();
    assert(types_view(types@) =~= Seq::<TypeView>::empty());
    let mut i: usize = 0;
    while i < num_types
        invariant
            c.data@ == s,
            s == content@,
            read_usize_spec(s, 0) == Ok::<(int, int), OutkiError>((num_types as int, p1)),
            i <= num_types,
            read_types_spec(s, p1, i as nat) == Ok::<(Seq<TypeView>, int), OutkiError>(
                (types_view(types@), c.pos as int),
            ),
        decreases num_types - i,
    {
        let ghost q = c.pos as int;
        let id = match c.usize() {
            Ok(v) => v,
            Err(e) => {
                proof {
                    assert(read_types_spec(s, p1, (i + 1) as nat) == Err::<(Seq<TypeView>, int), OutkiError>(e));
                    lemma_read_types_err(s, p1, (i + 1) as nat, num_types as nat);
                }
                return Err(e);
            },
        };
        let name = match c.string() {
            Ok(v) => v,
            Err(e) => {
                proof {
                    assert(read_types_spec(s, p1, (i + 1) as nat) == Err::<(Seq<TypeView>, int), OutkiError>(e));
                    lemma_read_types_err(s, p1, (i + 1) as nat, num_types as nat);
                }
                return Err(e);
            },
        };
        let ghost before = types_view(types@);
        types.push(TypeEntry { id, name });
        assert(types_view(types@) =~= before.push(TypeView { id: id as int, name: name@ }));
        i = i + 1;
    }
    let ghost tv = types_view(types@);
    let ghost p2 = c.pos as int;
    let num_slots = match c.usize() {
        Ok(v) => v,
        Err(e) => return Err(e),
    };
    let ghost p3 = c.pos as int;
    assert(read_usize_spec(s, p2) == Ok::<(int, int), OutkiError>((num_slots as int, p3)));
    let mut slots: Vec<Slot> = Vec::new();
    assert(slots_view(slots@) =~= Seq::<SlotView>::empty());
    let mut k: usize = 0;
    while k < num_slots
        invariant
            c.data@ == s,
            s == content@,
            read_usize_spec(s, 0) == Ok::<(int, int), OutkiError>((num_types as int, p1)),
            read_types_spec(s, p1, num_types as nat) == Ok::<(Seq<TypeView>, int), OutkiError>((tv, p2)),
            read_usize_spec(s, p2) == Ok::<(int, int), OutkiError>((num_slots as int, p3)),
            k <= num_slots,
            tv == types_view(types@),
            read_slots_spec(s, p3, k as nat, tv, header_size as int) == Ok::<
                (Seq<SlotView>, int),
                OutkiError,
            >((slots_view(slots@), c.pos as int)),
        decreases num_slots - k,
    {
        let ghost q = c.pos as int;
        let r = read_slot(&mut c, &types, header_size);
        match r {
            Ok(sl) => {
                let ghost before = slots_view(slots@);
                slots.push(sl);
                assert(slots_view(slots@) =~= before.push(slot_view(sl)));
            },
            Err(e) => {
                proof {
                    assert(read_slots_spec(s, p3, (k + 1) as nat, tv, header_size as int) == Err::<
                        (Seq<SlotView>, int),
                        OutkiError,
                    >(e));
                    lemma_read_slots_err(s, p3, (k + 1) as nat, num_slots as nat, tv, header_size as int);
                }
                return Err(e);
            },
        }
        k = k + 1;
    }
    let r = PackageManifest { slots, types, manifest_size: header_size };
    assert(r@.slots =~= slots_view(slots@));
    assert(r@.types =~= types_view(types@));
    Ok(r)
}

fn read_slot(c: &mut Cursor, types: &Vec<TypeEntry>, header_size: usize) -> (r: OutkiResult<Slot>)
    ensures
        final(c).data@ == old(c).data@,
        match read_slot_spec(old(c).data@, old(c).pos as int, types_view(types@), header_size as int) {
            Ok((sl, q)) => r matches Ok(x) && slot_view(x) == sl && final(c).pos == q,
            Err(e) => r matches Err(x) && x == e,
        },
{
    let flags = match c.u32() {
        Ok(v) => v,
        Err(e) => return Err(e),
    };
    if flags > 3 {
        return Err(OutkiError::CorruptPackage(Corruption::UnknownSlotFlags));
    }
    let path: Option<String> = if flags % 2 == 1 {
        match c.string() {
            Ok(p) => Some(p),
            Err(e) => return Err(e),
        }
    } else {
        None
    };
    let type_id = match c.usize() {
        Ok(v) => v,
        Err(e) => return Err(e),
    };
    let begin = match c.usize() {
        Ok(v) => v,
        Err(e) => return Err(e),
    };
    let end = match c.usize() {
        Ok(v) => v,
        Err(e) => return Err(e),
    };
    if end < begin {
        return Err(OutkiError::CorruptPackage(Corruption::SlotEndsBeforeBegin));
    }
    if begin < header_size {
        return Err(OutkiError::CorruptPackage(Corruption::SlotOverlapsHeader));
    }
    if type_id != 0 && !types_contain(types, type_id) {
        proof {
            let tv = types_view(types@);
            assert forall|i: int| 0 <= i < tv.len() implies tv[i].id != type_id by {
                assert(tv[i].id == types@[i].id);
            }
        }
        return Err(OutkiError::CorruptPackage(Corruption::UnknownSlotType));
    }
    proof {
        let tv = types_view(types@);
        if type_id != 0 {
            let i = choose|i: int| 0 <= i < types@.len() && types@[i].id == type_id;
            assert(tv[i].id == type_id);
        }
    }
    Ok(Slot { flags, path, begin, end, type_id })
}

impl PackageManifest {
    pub fn new() -> (r: PackageManifest)
        ensures
            r@.slots.len() == 0,
            r@.types.len() == 0,
            r@.manifest_size == 0,
    {
        let r = PackageManifest { slots: Vec::new(), types: Vec::new(), manifest_size: 0 };
        assert(r@.slots =~= Seq::<SlotView>::empty());
        assert(r@.types =~= Seq::<TypeView>::empty());
        r
    }

    /// Appends an object's payload to `output` and records its slot, adding
    /// `T` to the type table if it is not there yet.
    pub fn add_obj<T: TypeDescriptor>(&mut self, output: &mut Vec<u8>, path: Option<&str>, data: &[u8])
        requires
            old(output)@.len() + data@.len() <= usize::MAX,
        ensures
            final(output)@ == old(output)@ + data@,
            final(self)@.types == if has_type(old(self)@.types, T::TYPE_ID as int) {
                old(self)@.types
            } else {
                old(self)@.types.push(TypeView { id: T::TYPE_ID as int, name: T::TAG@ })
            },
            final(self)@.slots == old(self)@.slots.push(
                SlotView {
                    flags: 0,
                    path: match path {
                        Some(p) => Some(p@),
                        None => None,
                    },
                    type_id: T::TYPE_ID as int,
                    begin: old(output)@.len() as int,
                    end: old(output)@.len() + data@.len() as int,
                },
            ),
            final(self)@.manifest_size == old(self)@.manifest_size,
    {
        let type_id = T::TYPE_ID;
        let ghost tv = self@.types;
        let present = types_contain(&self.types, type_id);
        proof {
            if present {
                let i = choose|i: int| 0 <= i < self.types@.len() && self.types@[i].id == type_id;
                assert(tv[i].id == type_id);
            } else {
                assert forall|i: int| 0 <= i < tv.len() implies tv[i].id != type_id by {
                    assert(tv[i].id == self.types@[i].id);
                }
            }
        }
        if !present {
            let name = tag_of::<T>().to_owned();
            self.types.push(TypeEntry { id: type_id, name });
            assert(self@.types =~= tv.push(TypeView { id: T::TYPE_ID as int, name: T::TAG@ }));
        } else {
            assert(self@.types =~= tv);
        }
        let begin = output.len();
        let mut i: usize = 0;
        while i < data.len()
            invariant
                i <= data@.len(),
                begin == old(output)@.len(),
                output@ == old(output)@ + data@.subrange(0, i as int),
                old(output)@.len() + data@.len() <= usize::MAX,
            decreases data.len() - i,
        {
            output.push(data[i]);
            i = i + 1;
        }
        assert(data@.subrange(0, data@.len() as int) =~= data@);
        let end = output.len();
        let ghost sv = self@.slots;
        let p = match path {
            Some(x) => Some(x.to_owned()),
            None => None,
        };
        self.slots.push(Slot { begin, end, flags: 0, path: p, type_id });
        assert(self@.slots =~= sv.push(slot_view(Slot { begin, end, flags: 0, path: p, type_id })));
    }

    /// Name of a type id, for diagnostics.
    pub fn name_of_type(&self, type_id: usize) -> (r: Option<&str>)
        ensures
            match r {
                Some(name) => exists|i: int|
                    0 <= i < self@.types.len() && self@.types[i].id == type_id && self@.types[i].name == name@
                        && forall|j: int| 0 <= j < i ==> self@.types[j].id != type_id,
                None => !has_type(self@.types, type_id as int),
            },
    {
        let mut i: usize = 0;
        while i < self.types.len()
            invariant
                i <= self.types@.len(),
                forall|j: int| 0 <= j < i ==> self.types@[j].id != type_id,
            decreases self.types.len() - i,
        {
            if self.types[i].id == type_id {
                let r = self.types[i].name.as_str();
                assert(self@.types[i as int].id == type_id);
                assert forall|j: int| 0 <= j < i implies self@.types[j].id != type_id by {
                    assert(self@.types[j].id == self.types@[j].id);
                }
                return Some(r);
            }
            i = i + 1;
        }
        assert forall|j: int| 0 <= j < self@.types.len() implies self@.types[j].id != type_id by {
            assert(self@.types[j].id == self.types@[j].id);
        }
        None
    }

    /// Parses the manifest at the start of the package bytes `data`.
    ///
    /// Package data that ends before the header does is an I/O failure, as
    /// reading the header from a stream would be.
    #[verifier::spinoff_prover]
    pub fn parse(data: &[u8]) -> (r: OutkiResult<PackageManifest>)
        ensures
            match parse_spec(data@) {
                Ok(m) => r matches Ok(pm) && pm@ == m,
                Err(e) => r matches Err(x) && x == e,
            },
    {
        if data.len() < PACKAGE_HEADER_FIXED {
            return Err(OutkiError::IO);
        }
        let mut head: Vec<u8> = Vec::new();
        let mut i: usize = 0;
        while i < PACKAGE_HEADER_FIXED
            invariant
                i <= PACKAGE_HEADER_FIXED <= data@.len(),
                head@ == data@.subrange(0, i as int),
            decreases PACKAGE_HEADER_FIXED - i,
        {
            head.push(data[i]);
            i = i + 1;
        }
        assert(head@ =~= data@.take(PACKAGE_HEADER_FIXED as int));
        let header_size = match parse_fixed_header(head.as_slice()) {
            Ok(v) => v,
            Err(e) => return Err(e),
        };
        if data.len() < header_size {
            return Err(OutkiError::IO);
        }
        let mut content: Vec<u8> = Vec::new();
        let mut j: usize = PACKAGE_HEADER_FIXED;
        while j < header_size
            invariant
                PACKAGE_HEADER_FIXED <= j <= header_size <= data@.len(),
                content@ == data@.subrange(PACKAGE_HEADER_FIXED as int, j as int),
            decreases header_size - j,
        {
            content.push(data[j]);
            j = j + 1;
        }
        parse_content(header_size, content.as_slice())
    }
}

/// What every slot of a parsed header satisfies: known flags, a path just
/// when the flags say so, a byte range in order that starts after the
/// header, and a type id that is 0 or in the type table.
pub open spec fn slot_valid(sl: SlotView, types: Seq<TypeView>, header_size: int) -> bool {
    &&& sl.flags <= 3
    &&& (sl.path is Some <==> sl.flags % 2 == 1)
    &&& sl.begin <= sl.end
    &&& header_size <= sl.begin
    &&& (sl.type_id == 0 || has_type(types, sl.type_id))
}

proof fn lemma_read_slot_valid(s: Seq<u8>, q: int, types: Seq<TypeView>, header_size: int)
    ensures
        read_slot_spec(s, q, types, header_size) matches Ok((sl, _)) ==> slot_valid(sl, types, header_size),
{
}

proof fn lemma_read_slots_valid(s: Seq<u8>, p: int, n: nat, types: Seq<TypeView>, header_size: int)
    ensures
        read_slots_spec(s, p, n, types, header_size) matches Ok((ss, _)) ==> forall|i: int|
            0 <= i < ss.len() ==> slot_valid(#[trigger] ss[i], types, header_size),
    decreases n,
{
    if n > 0 {
        lemma_read_slots_valid(s, p, (n - 1) as nat, types, header_size);
        match read_slots_spec(s, p, (n - 1) as nat, types, header_size) {
            Ok((ss, q)) => {
                lemma_read_slot_valid(s, q, types, header_size);
            },
            Err(_) => {},
        }
    }
}

/// A header the reader accepts is one it checked: it is at least the fixed
/// part long, and every slot passes the checks `slot_valid` lists.
pub proof fn lemma_parsed_header_valid(data: Seq<u8>)
    ensures
        parse_spec(data) matches Ok(m) ==> m.manifest_size >= PACKAGE_HEADER_FIXED && forall|i: int|
            0 <= i < m.slots.len() ==> slot_valid(#[trigger] m.slots[i], m.types, m.manifest_size),
{
    if data.len() >= PACKAGE_HEADER_FIXED {
        match parse_fixed_spec(data.take(PACKAGE_HEADER_FIXED as int)) {
            Ok(size) => {
                if data.len() >= size {
                    let content = data.subrange(PACKAGE_HEADER_FIXED as int, size);
                    match read_usize_spec(content, 0) {
                        Ok((nt, p1)) => match read_types_spec(content, p1, nt as nat) {
                            Ok((types, p2)) => match read_usize_spec(content, p2) {
                                Ok((ns, p3)) => {
                                    lemma_read_slots_valid(content, p3, ns as nat, types, size);
                                },
                                Err(_) => {},
                            },
                            Err(_) => {},
                        },
                        Err(_) => {},
                    }
                }
            },
            Err(_) => {},
        }
    }
}

/// The reader checks the fixed part of a header in order: the magic, then
/// the version, then the header size, whose high word must be zero and
/// whose value must cover the fixed part.
pub proof fn lemma_fixed_part_checks(data: Seq<u8>)
    requires
        data.len() >= PACKAGE_HEADER_FIXED,
    ensures
        le_u32(data, 0) != PACKAGE_MAGIC ==> parse_spec(data) == Err::<ManifestView, OutkiError>(
            OutkiError::BadMagic(le_u32(data, 0) as u32),
        ),
        le_u32(data, 0) == PACKAGE_MAGIC && le_u32(data, 4) != PACKAGE_VERSION ==> parse_spec(data) == Err::<
            ManifestView,
            OutkiError,
        >(OutkiError::UnsupportedVersion(le_u32(data, 4) as u32)),
        le_u32(data, 0) == PACKAGE_MAGIC && le_u32(data, 4) == PACKAGE_VERSION && (le_u32(data, 12) != 0 || le_u32(
            data,
            8,
        ) < PACKAGE_HEADER_FIXED) ==> parse_spec(data) matches Err(OutkiError::CorruptPackage(_)),
{
    let head = data.take(PACKAGE_HEADER_FIXED as int);
    assert(le_u32(head, 0) == le_u32(data, 0));
    assert(le_u32(head, 4) == le_u32(data, 4));
    assert(le_u32(head, 8) == le_u32(data, 8));
    assert(le_u32(head, 12) == le_u32(data, 12));
}

} // verus!

