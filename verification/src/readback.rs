//! What the reader gives back of what the writer wrote: the header of a
//! written package parses to its slots and types.

use vstd::prelude::*;
use crate::manifest::{
    has_type, parse_content_spec, parse_fixed_spec, parse_spec, read_slot_spec, read_slots_spec, read_string_spec, read_types_spec, read_u32_spec,
    read_usize_spec, ManifestView, OutkiError, SlotView, TypeView, PACKAGE_MAGIC, PACKAGE_VERSION,
};
use crate::pipeline::{
    record_of, record_type, slot_type_ids, BuildRecord,
    concat_bytes, header_bytes, lemma_concat_prefix_len, lemma_slots_len, package_layout, payload_ranges, slot_bytes, slots_bytes,
    types_bytes,
};
use crate::writer::{lemma_u32_round_trip, string_bytes, u32_bytes, usize_bytes};

verus! {

/// A `u32` reads back as itself.
proof fn lemma_u32_back(s: Seq<u8>, p: int, v: u32)
    requires
        0 <= p,
        p + 4 <= s.len(),
        s.subrange(p, p + 4) == u32_bytes(v),
    ensures
        read_u32_spec(s, p) == Ok::<(int, int), OutkiError>((v as int, p + 4)),
{
    assert(s[p] == u32_bytes(v)[0]);
    assert(s[p + 1] == u32_bytes(v)[1]);
    assert(s[p + 2] == u32_bytes(v)[2]);
    assert(s[p + 3] == u32_bytes(v)[3]);
    lemma_u32_round_trip(v);
}

/// A `usize` below 2^32 reads back as itself.
proof fn lemma_usize_back(s: Seq<u8>, p: int, v: usize)
    requires
        0 <= p,
        p + 8 <= s.len(),
        v < 0x1_0000_0000,
        s.subrange(p, p + 8) == usize_bytes(v),
    ensures
        read_usize_spec(s, p) == Ok::<(int, int), OutkiError>((v as int, p + 8)),
{
    assert(s.subrange(p, p + 4) =~= u32_bytes(v as u32));
    assert(u32_bytes(0u32) =~= seq![0u8, 0u8, 0u8, 0u8]);
    assert forall|i: int| 0 <= i < 4 implies s.subrange(p + 4, p + 8)[i] == u32_bytes(0u32)[i] by {
        assert(s.subrange(p, p + 8)[4 + i] == usize_bytes(v)[4 + i]);
    }
    assert(s.subrange(p + 4, p + 8) =~= u32_bytes(0u32));
    lemma_u32_back(s, p, v as u32);
    lemma_u32_back(s, p + 4, 0u32);
}

/// A string reads back as itself.
proof fn lemma_string_back(s: Seq<u8>, p: int, t: Seq<char>)
    requires
        0 <= p,
        p + string_bytes(t).len() <= s.len() < 0x1_0000_0000,
        s.subrange(p, p + string_bytes(t).len()) == string_bytes(t),
    ensures
        read_string_spec(s, p) == Ok::<(Seq<char>, int), OutkiError>(
            (t, p + string_bytes(t).len()),
        ),
{
    let e = vstd::utf8::encode_utf8(t);
    let n = e.len() as usize;
    assert forall|i: int| 0 <= i < 8 implies s.subrange(p, p + 8)[i] == usize_bytes(n)[i] by {
        assert(s.subrange(p, p + string_bytes(t).len())[i] == string_bytes(t)[i]);
    }
    assert(s.subrange(p, p + 8) =~= usize_bytes(n));
    lemma_usize_back(s, p, n);
    let whole = s.subrange(p, p + string_bytes(t).len());
    assert forall|i: int| 0 <= i < e.len() implies s.subrange(p + 8, p + 8 + e.len())[i] == e[i] by {
        assert(whole[8 + i] == string_bytes(t)[8 + i]);
    }
    assert(s.subrange(p + 8, p + 8 + e.len()) =~= e);
    vstd::utf8::encode_utf8_valid_utf8(t);
    vstd::utf8::encode_utf8_decode_utf8(t);
}

/// The two parts of bytes that are a concatenation, where they lie.
proof fn lemma_split(s: Seq<u8>, p: int, a: Seq<u8>, b: Seq<u8>)
    requires
        0 <= p,
        p + a.len() + b.len() <= s.len(),
        s.subrange(p, p + a.len() + b.len()) == a + b,
    ensures
        s.subrange(p, p + a.len()) == a,
        s.subrange(p + a.len(), p + a.len() + b.len()) == b,
{
    let w = s.subrange(p, p + a.len() + b.len());
    assert forall|i: int| 0 <= i < a.len() implies s.subrange(p, p + a.len())[i] == a[i] by {
        assert(w[i] == (a + b)[i]);
    }
    assert forall|i: int| 0 <= i < b.len() implies s.subrange(p + a.len(), p + a.len() + b.len())[i] == b[i] by {
        assert(w[a.len() + i] == (a + b)[a.len() + i]);
    }
    assert(s.subrange(p, p + a.len()) =~= a);
    assert(s.subrange(p + a.len(), p + a.len() + b.len()) =~= b);
}

/// The model of a type table.
pub open spec fn type_table(ts: Seq<(usize, Seq<char>)>) -> Seq<TypeView> {
    Seq::new(ts.len(), |i: int| TypeView { id: ts[i].0 as int, name: ts[i].1 })
}

/// The first `n` entries of a type table read back as themselves.
proof fn lemma_types_back(s: Seq<u8>, p: int, ts: Seq<(usize, Seq<char>)>, n: nat)
    requires
        0 <= p,
        n <= ts.len(),
        p + types_bytes(ts.take(n as int)).len() <= s.len() < 0x1_0000_0000,
        s.subrange(p, p + types_bytes(ts.take(n as int)).len()) == types_bytes(ts.take(n as int)),
        forall|i: int| 0 <= i < ts.len() ==> (#[trigger] ts[i]).0 < 0x1_0000_0000,
    ensures
        read_types_spec(s, p, n) == Ok::<(Seq<TypeView>, int), OutkiError>(
            (type_table(ts.take(n as int)), p + types_bytes(ts.take(n as int)).len()),
        ),
    decreases n,
{
    if n == 0 {
        assert(type_table(ts.take(0)) =~= Seq::<TypeView>::empty());
    } else {
        let m = (n - 1) as nat;
        let prev = ts.take(m as int);
        assert(ts.take(n as int).drop_last() =~= prev);
        let e = ts[m as int];
        let a = types_bytes(prev);
        let b = usize_bytes(e.0);
        let c = string_bytes(e.1);
        assert(types_bytes(ts.take(n as int)) == a + b + c);
        lemma_split(s, p, a + b, c);
        lemma_split(s, p, a, b);
        lemma_types_back(s, p, ts, m);
        lemma_usize_back(s, p + a.len(), e.0);
        lemma_string_back(s, p + a.len() + b.len(), e.1);
        assert(type_table(ts.take(n as int)) =~= type_table(prev).push(TypeView { id: e.0 as int, name: e.1 }));
    }
}

/// The model of a slot the writer files: a path, internal.
pub open spec fn slot_entry(path: Seq<char>, id: usize, range: (usize, usize)) -> SlotView {
    SlotView { flags: 3, path: Some(path), type_id: id as int, begin: range.0 as int, end: range.1 as int }
}

/// The models of the first `n` slots the writer files.
pub open spec fn slot_table(paths: Seq<Seq<char>>, ids: Seq<usize>, ranges: Seq<(usize, usize)>, n: nat) -> Seq<SlotView> {
    Seq::new(n, |i: int| slot_entry(paths[i], ids[i], ranges[i]))
}

/// What every slot needs to pass the reader's checks.
pub open spec fn slots_readable(
    ids: Seq<usize>,
    ranges: Seq<(usize, usize)>,
    types: Seq<TypeView>,
    header_size: int,
) -> bool {
    forall|i: int|
        0 <= i < ids.len() ==> {
            &&& (#[trigger] ids[i]) < 0x1_0000_0000
            &&& header_size <= ranges[i].0 <= ranges[i].1 < 0x1_0000_0000
            &&& ids[i] != 0 ==> has_type(types, ids[i] as int)
        }
}

/// One slot record reads back as the slot it was written for.
proof fn lemma_slot_back(
    s: Seq<u8>,
    q: int,
    path: Seq<char>,
    id: usize,
    range: (usize, usize),
    types: Seq<TypeView>,
    header_size: int,
)
    requires
        0 <= q,
        q + slot_bytes(path, id, range).len() <= s.len() < 0x1_0000_0000,
        s.subrange(q, q + slot_bytes(path, id, range).len()) == slot_bytes(path, id, range),
        id < 0x1_0000_0000,
        header_size <= range.0 <= range.1 < 0x1_0000_0000,
        id != 0 ==> has_type(types, id as int),
    ensures
        read_slot_spec(s, q, types, header_size) == Ok::<(SlotView, int), OutkiError>(
            (slot_entry(path, id, range), q + slot_bytes(path, id, range).len()),
        ),
{
    let a = u32_bytes(3);
    let b = string_bytes(path);
    let c = usize_bytes(id);
    let d = usize_bytes(range.0);
    let e = usize_bytes(range.1);
    assert(slot_bytes(path, id, range) == a + b + c + d + e);
    lemma_split(s, q, a + b + c + d, e);
    lemma_split(s, q, a + b + c, d);
    lemma_split(s, q, a + b, c);
    lemma_split(s, q, a, b);
    lemma_u32_back(s, q, 3);
    lemma_string_back(s, q + 4, path);
    lemma_usize_back(s, q + 4 + b.len(), id);
    lemma_usize_back(s, q + 4 + b.len() + 8, range.0);
    lemma_usize_back(s, q + 4 + b.len() + 16, range.1);
    assert(3int % 2 == 1);
}

/// The first `n` slot records read back as the slots they were written for.
proof fn lemma_slots_back(
    s: Seq<u8>,
    p: int,
    paths: Seq<Seq<char>>,
    ids: Seq<usize>,
    ranges: Seq<(usize, usize)>,
    n: nat,
    types: Seq<TypeView>,
    header_size: int,
)
    requires
        0 <= p,
        n <= paths.len(),
        ids.len() == paths.len(),
        ranges.len() == paths.len(),
        p + slots_bytes(paths, ids, ranges, n).len() <= s.len() < 0x1_0000_0000,
        s.subrange(p, p + slots_bytes(paths, ids, ranges, n).len()) == slots_bytes(paths, ids, ranges, n),
        slots_readable(ids, ranges, types, header_size),
    ensures
        read_slots_spec(s, p, n, types, header_size) == Ok::<(Seq<SlotView>, int), OutkiError>(
            (slot_table(paths, ids, ranges, n), p + slots_bytes(paths, ids, ranges, n).len()),
        ),
    decreases n,
{
    if n == 0 {
        assert(slot_table(paths, ids, ranges, 0) =~= Seq::<SlotView>::empty());
    } else {
        let m = (n - 1) as nat;
        let a = slots_bytes(paths, ids, ranges, m);
        let b = slot_bytes(paths[m as int], ids[m as int], ranges[m as int]);
        lemma_split(s, p, a, b);
        lemma_slots_back(s, p, paths, ids, ranges, m, types, header_size);
        assert(ids[m as int] < 0x1_0000_0000);
        lemma_slot_back(s, p + a.len(), paths[m as int], ids[m as int], ranges[m as int], types, header_size);
        assert(slot_table(paths, ids, ranges, n) =~= slot_table(paths, ids, ranges, m).push(
            slot_entry(paths[m as int], ids[m as int], ranges[m as int]),
        ));
    }
}

/// The payloads placed after a header `size` bytes long lie after it,
/// in order, within a package shorter than 2^32 bytes.
proof fn lemma_ranges_in(size: usize, chunks: Seq<Seq<u8>>, total: int)
    requires
        total == size + concat_bytes(chunks).len(),
        total < 0x1_0000_0000,
    ensures
        forall|i: int|
            0 <= i < chunks.len() ==> size <= (#[trigger] payload_ranges(size as int, chunks)[i]).0 <= payload_ranges(
                size as int,
                chunks,
            )[i].1 < 0x1_0000_0000,
{
    assert forall|i: int| 0 <= i < chunks.len() implies size <= (#[trigger] payload_ranges(size as int, chunks)[i]).0
        <= payload_ranges(size as int, chunks)[i].1 < 0x1_0000_0000 by {
        lemma_concat_prefix_len(chunks, i);
        lemma_concat_prefix_len(chunks, i + 1);
        lemma_concat_prefix_len(chunks.take(i + 1), i);
        assert(chunks.take(i + 1).take(i) =~= chunks.take(i));
    }
}

/// The fixed part of a written header gives back its size.
proof fn lemma_fixed_back(fixed: Seq<u8>, size: usize)
    requires
        fixed == u32_bytes(PACKAGE_MAGIC) + u32_bytes(PACKAGE_VERSION) + usize_bytes(size),
        16 <= size < 0x1_0000_0000,
    ensures
        parse_fixed_spec(fixed) == Ok::<int, OutkiError>(size as int),
{
    assert(fixed.subrange(0, 16) =~= fixed);
    lemma_split(fixed, 0, u32_bytes(PACKAGE_MAGIC) + u32_bytes(PACKAGE_VERSION), usize_bytes(size));
    lemma_split(fixed, 0, u32_bytes(PACKAGE_MAGIC), u32_bytes(PACKAGE_VERSION));
    lemma_u32_back(fixed, 0, PACKAGE_MAGIC);
    lemma_u32_back(fixed, 4, PACKAGE_VERSION);
    lemma_usize_back(fixed, 8, size);
}

/// Where the four parts of a header's content lie.
proof fn lemma_split4(content: Seq<u8>, c1: Seq<u8>, tb: Seq<u8>, c3: Seq<u8>, sb: Seq<u8>)
    requires
        content == c1 + tb + c3 + sb,
    ensures
        content.subrange(0, c1.len() as int) == c1,
        content.subrange(c1.len() as int, (c1.len() + tb.len()) as int) == tb,
        content.subrange((c1.len() + tb.len()) as int, (c1.len() + tb.len() + c3.len()) as int) == c3,
        content.subrange((c1.len() + tb.len() + c3.len()) as int, content.len() as int) == sb,
{
    assert(content.subrange(0, content.len() as int) =~= content);
    lemma_split(content, 0, c1 + tb + c3, sb);
    lemma_split(content, 0, c1 + tb, c3);
    lemma_split(content, 0, c1, tb);
}

/// A header's content parses as its parts read.
proof fn lemma_content_parts(
    content: Seq<u8>,
    size: int,
    nt: int,
    types: Seq<TypeView>,
    p2: int,
    ns: int,
    slots: Seq<SlotView>,
    p4: int,
)
    requires
        read_usize_spec(content, 0) == Ok::<(int, int), OutkiError>((nt, 8)),
        read_types_spec(content, 8, nt as nat) == Ok::<(Seq<TypeView>, int), OutkiError>((types, p2)),
        read_usize_spec(content, p2) == Ok::<(int, int), OutkiError>((ns, p2 + 8)),
        read_slots_spec(content, p2 + 8, ns as nat, types, size) == Ok::<(Seq<SlotView>, int), OutkiError>(
            (slots, p4),
        ),
    ensures
        parse_content_spec(content, size) == Ok::<ManifestView, OutkiError>(
            ManifestView { slots, types, manifest_size: size },
        ),
{
}

/// The rest of a written header gives back its types and slots.
#[verifier::spinoff_prover]
proof fn lemma_content_back(
    content: Seq<u8>,
    size: usize,
    types: Seq<(usize, Seq<char>)>,
    paths: Seq<Seq<char>>,
    ids: Seq<usize>,
    ranges: Seq<(usize, usize)>,
    tb: Seq<u8>,
    sb: Seq<u8>,
)
    requires
        tb == types_bytes(types),
        sb == slots_bytes(paths, ids, ranges, paths.len()),
        content.len() == 16 + tb.len() + sb.len(),
        content.subrange(0, 8) == usize_bytes(types.len() as usize),
        content.subrange(8, 8 + tb.len() as int) == tb,
        content.subrange(8 + tb.len() as int, 16 + tb.len() as int) == usize_bytes(paths.len() as usize),
        content.subrange(16 + tb.len() as int, content.len() as int) == sb,
        content.len() < 0x1_0000_0000,
        types.len() < 0x1_0000_0000,
        paths.len() < 0x1_0000_0000,
        ids.len() == paths.len(),
        ranges.len() == paths.len(),
        forall|i: int| 0 <= i < types.len() ==> (#[trigger] types[i]).0 < 0x1_0000_0000,
        slots_readable(ids, ranges, type_table(types), size as int),
    ensures
        parse_content_spec(content, size as int) == Ok::<ManifestView, OutkiError>(
            ManifestView {
                slots: slot_table(paths, ids, ranges, paths.len()),
                types: type_table(types),
                manifest_size: size as int,
            },
        ),
{
    let nt = types.len() as int;
    let ns = paths.len() as int;
    let p2: int = 8 + tb.len() as int;
    assert(read_usize_spec(content, 0) == Ok::<(int, int), OutkiError>((nt, 8))) by {
        lemma_usize_back(content, 0, types.len() as usize);
    }
    assert(read_types_spec(content, 8, nt as nat) == Ok::<(Seq<TypeView>, int), OutkiError>((type_table(types), p2)))
        by {
        assert(types.take(types.len() as int) =~= types);
        lemma_types_back(content, 8, types, types.len());
    }
    assert(read_usize_spec(content, p2) == Ok::<(int, int), OutkiError>((ns, p2 + 8))) by {
        lemma_usize_back(content, p2, paths.len() as usize);
    }
    assert(read_slots_spec(content, p2 + 8, ns as nat, type_table(types), size as int) == Ok::<
        (Seq<SlotView>, int),
        OutkiError,
    >((slot_table(paths, ids, ranges, paths.len()), p2 + 8 + sb.len() as int))) by {
        lemma_slots_back(content, p2 + 8, paths, ids, ranges, paths.len(), type_table(types), size as int);
    }
    lemma_content_parts(
        content,
        size as int,
        nt,
        type_table(types),
        p2,
        ns,
        slot_table(paths, ids, ranges, paths.len()),
        p2 + 8 + sb.len() as int,
    );
}

/// A written package reads back: the header of a package laid out for
/// some types, paths, type ids and payloads parses to those types, and to
/// one internal slot per path, with its type id and its payload's place.
///
/// Every number the header holds must fit the 32 bits a field's low word
/// carries, and a slot's nonzero type id must be in the type table.
#[verifier::spinoff_prover]
#[verifier::rlimit(100)]
pub proof fn law_package_reads_back(
    bytes: Seq<u8>,
    size: usize,
    chunks: Seq<Seq<u8>>,
    types: Seq<(usize, Seq<char>)>,
    paths: Seq<Seq<char>>,
    ids: Seq<usize>,
)
    requires
        package_layout(bytes, size, chunks, types, paths, ids),
        ids.len() == paths.len(),
        bytes.len() < 0x1_0000_0000,
        types.len() < 0x1_0000_0000,
        paths.len() < 0x1_0000_0000,
        forall|i: int| 0 <= i < types.len() ==> (#[trigger] types[i]).0 < 0x1_0000_0000,
        forall|i: int|
            0 <= i < ids.len() ==> (#[trigger] ids[i]) < 0x1_0000_0000 && (ids[i] != 0 ==> has_type(
                type_table(types),
                ids[i] as int,
            )),
    ensures
        parse_spec(bytes) == Ok::<ManifestView, OutkiError>(
            ManifestView {
                slots: slot_table(paths, ids, payload_ranges(size as int, chunks), paths.len()),
                types: type_table(types),
                manifest_size: size as int,
            },
        ),
{
    let ranges = payload_ranges(size as int, chunks);
    let tb = types_bytes(types);
    let sb = slots_bytes(paths, ids, ranges, paths.len());
    let m = u32_bytes(PACKAGE_MAGIC);
    let v = u32_bytes(PACKAGE_VERSION);
    let z = usize_bytes(size);
    let c1 = usize_bytes(types.len() as usize);
    let c3 = usize_bytes(paths.len() as usize);
    let body = concat_bytes(chunks);
    let content = bytes.subrange(16, size as int);
    assert(bytes.take(16) == m + v + z && content == c1 + tb + c3 + sb && 16 <= size <= bytes.len() && bytes.len()
        == size + body.len() && chunks.len() == paths.len()) by {
        reveal(package_layout);
        lemma_slots_len(paths, ids, payload_ranges(0, chunks), ids, ranges, paths.len());
        assert(bytes == m + v + z + c1 + tb + c3 + sb + body);
        lemma_parts(bytes, m, v, z, c1, tb, c3, sb, body);
    }
    lemma_readable(ids, chunks, size, bytes.len() as int, types);
    lemma_fixed_back(bytes.take(16), size);
    lemma_split4(content, c1, tb, c3, sb);
    lemma_content_back(content, size, types, paths, ids, ranges, tb, sb);
    lemma_parse_parts(
        bytes,
        size,
        ManifestView {
            slots: slot_table(paths, ids, ranges, paths.len()),
            types: type_table(types),
            manifest_size: size as int,
        },
    );
}

/// The slots of a package shorter than 2^32 bytes, with type ids that fit
/// and are in the table, pass the reader's checks.
proof fn lemma_readable(ids: Seq<usize>, chunks: Seq<Seq<u8>>, size: usize, total: int, types: Seq<(usize, Seq<char>)>)
    requires
        total == size + concat_bytes(chunks).len(),
        total < 0x1_0000_0000,
        chunks.len() == ids.len(),
        forall|i: int|
            0 <= i < ids.len() ==> (#[trigger] ids[i]) < 0x1_0000_0000 && (ids[i] != 0 ==> has_type(
                type_table(types),
                ids[i] as int,
            )),
    ensures
        slots_readable(ids, payload_ranges(size as int, chunks), type_table(types), size as int),
{
    lemma_ranges_in(size, chunks, total);
}

/// A package parses as its fixed part and the rest of its header do.
proof fn lemma_parse_parts(bytes: Seq<u8>, size: usize, mv: ManifestView)
    requires
        16 <= size <= bytes.len(),
        parse_fixed_spec(bytes.take(16)) == Ok::<int, OutkiError>(size as int),
        parse_content_spec(bytes.subrange(16, size as int), size as int) == Ok::<ManifestView, OutkiError>(mv),
    ensures
        parse_spec(bytes) == Ok::<ManifestView, OutkiError>(mv),
{
}

/// Where the fixed part and the rest of a header lie in a package.
proof fn lemma_parts(
    bytes: Seq<u8>,
    m: Seq<u8>,
    v: Seq<u8>,
    z: Seq<u8>,
    c1: Seq<u8>,
    tb: Seq<u8>,
    c3: Seq<u8>,
    sb: Seq<u8>,
    body: Seq<u8>,
)
    requires
        bytes == m + v + z + c1 + tb + c3 + sb + body,
        m.len() == 4,
        v.len() == 4,
        z.len() == 8,
    ensures
        bytes.take(16) == m + v + z,
        bytes.subrange(16, (16 + c1.len() + tb.len() + c3.len() + sb.len()) as int) == c1 + tb + c3 + sb,
{
    assert(bytes.take(16) =~= m + v + z);
    assert(bytes.subrange(16, (16 + c1.len() + tb.len() + c3.len() + sb.len()) as int) =~= c1 + tb + c3 + sb);
}

/// A package the writer wrote for objects whose types are all in its type
/// table reads back: its header parses, with that type table, and with one
/// internal slot per object, in order, filed under the object's path and
/// typed by the object's type id.
///
/// The package must be shorter than 2^32 bytes and every type id must fit
/// in 32 bits.
pub proof fn law_written_package_reads_back<O>(
    records: Seq<BuildRecord<O>>,
    types: Seq<(usize, Seq<char>)>,
    paths: Seq<Seq<char>>,
    bytes: Seq<u8>,
)
    requires
        exists|size: usize, chunks: Seq<Seq<u8>>|
            #[trigger] package_layout(bytes, size, chunks, types, paths, slot_type_ids(records, paths)),
        forall|i: int| 0 <= i < paths.len() ==> types.contains(record_type(record_of(records, #[trigger] paths[i]))),
        bytes.len() < 0x1_0000_0000,
        types.len() < 0x1_0000_0000,
        paths.len() < 0x1_0000_0000,
        forall|i: int| 0 <= i < types.len() ==> (#[trigger] types[i]).0 < 0x1_0000_0000,
    ensures
        parse_spec(bytes) is Ok,
        parse_spec(bytes)->Ok_0.types == type_table(types),
        parse_spec(bytes)->Ok_0.slots.len() == paths.len(),
        forall|i: int|
            0 <= i < paths.len() ==> {
                let sl = #[trigger] parse_spec(bytes)->Ok_0.slots[i];
                &&& sl.flags == 3
                &&& sl.path == Some(paths[i])
                &&& sl.type_id == record_of(records, paths[i]).type_id_view()
            },
{
    let (size, chunks) = choose|size: usize, chunks: Seq<Seq<u8>>|
        #[trigger] package_layout(bytes, size, chunks, types, paths, slot_type_ids(records, paths));
    let ids = slot_type_ids(records, paths);
    assert forall|i: int| 0 <= i < ids.len() implies (#[trigger] ids[i]) < 0x1_0000_0000 && (ids[i] != 0 ==> has_type(
        type_table(types),
        ids[i] as int,
    )) by {
        assert(types.contains(record_type(record_of(records, paths[i]))));
        let j = choose|j: int| 0 <= j < types.len() && types[j] == record_type(record_of(records, paths[i]));
        assert(type_table(types)[j].id == ids[i]);
    }
    law_package_reads_back(bytes, size, chunks, types, paths, ids);
}

} // verus!

