use vstd::prelude::*;
use crate::cursor::{read_bytes, read_u32_le, read_u8, u32_at, le32};
use crate::error::Error;

verus! {

/// A file-table record, as a value.
pub struct EntryView {
    pub name: Seq<u8>,
    pub compressed_size: u32,
    pub compressed_size_aligned: u32,
    pub uncompressed_size: u32,
    pub flags: u8,
    pub offset: u32,
}

/// A file-table record of a GRF container. `offset` is relative to the end
/// of the 46-byte header.
#[derive(Debug)]
pub struct GrfEntry {
    pub filename: Vec<u8>,
    pub compressed_size: u32,
    pub compressed_size_aligned: u32,
    pub uncompressed_size: u32,
    pub flags: u8,
    pub offset: u32,
}

impl View for GrfEntry {
    type V = EntryView;

    open spec fn view(&self) -> EntryView {
        EntryView {
            name: self.filename@,
            compressed_size: self.compressed_size,
            compressed_size_aligned: self.compressed_size_aligned,
            uncompressed_size: self.uncompressed_size,
            flags: self.flags,
            offset: self.offset,
        }
    }
}

/// The views of a vector of entries.
pub open spec fn views(v: Seq<GrfEntry>) -> Seq<EntryView> {
    v.map_values(|e: GrfEntry| e@)
}

/// No two records share a name.
pub open spec fn unique_names(es: Seq<EntryView>) -> bool {
    forall|i: int, j: int|
        0 <= i < es.len() && 0 <= j < es.len() && i != j ==> #[trigger] es[i].name != #[trigger] es[j].name
}

/// The name-keyed table that records make when read in order: a later
/// record replaces an earlier one of the same name.
pub open spec fn as_map(es: Seq<EntryView>) -> Map<Seq<u8>, EntryView>
    decreases es.len(),
{
    if es.len() == 0 {
        Map::empty()
    } else {
        as_map(es.drop_last()).insert(es.last().name, es.last())
    }
}

/// A name is a key of `as_map(es)` exactly when some record has it.
pub proof fn lemma_as_map_dom(es: Seq<EntryView>, name: Seq<u8>)
    ensures
        as_map(es).contains_key(name) <==> exists|i: int| 0 <= i < es.len() && es[i].name == name,
    decreases es.len(),
{
    if es.len() > 0 {
        lemma_as_map_dom(es.drop_last(), name);
        if as_map(es.drop_last()).contains_key(name) {
            let i = choose|i: int| 0 <= i < es.drop_last().len() && es.drop_last()[i].name == name;
            assert(es[i].name == name);
        }
        if exists|i: int| 0 <= i < es.len() && es[i].name == name {
            let i = choose|i: int| 0 <= i < es.len() && es[i].name == name;
            if i < es.len() - 1 {
                assert(es.drop_last()[i].name == name);
            }
        }
    }
}

/// With unique names, each record is what its name maps to.
pub proof fn lemma_as_map_index(es: Seq<EntryView>, i: int)
    requires
        unique_names(es),
        0 <= i < es.len(),
    ensures
        as_map(es).contains_key(es[i].name),
        as_map(es)[es[i].name] == es[i],
    decreases es.len(),
{
    if i < es.len() - 1 {
        let d = es.drop_last();
        assert(d[i] == es[i]);
        assert(unique_names(d)) by {
            assert forall|a: int, b: int|
                0 <= a < d.len() && 0 <= b < d.len() && a != b implies #[trigger] d[a].name != #[trigger] d[b].name by {
                assert(d[a] == es[a] && d[b] == es[b]);
            }
        }
        lemma_as_map_index(d, i);
        assert(es[i].name != es.last().name);
    }
}

/// With unique names, the table has one key per record.
pub proof fn lemma_as_map_len(es: Seq<EntryView>)
    requires
        unique_names(es),
    ensures
        as_map(es).dom().len() == es.len(),
        as_map(es).dom().finite(),
    decreases es.len(),
{
    if es.len() > 0 {
        let d = es.drop_last();
        assert(unique_names(d)) by {
            assert forall|a: int, b: int|
                0 <= a < d.len() && 0 <= b < d.len() && a != b implies #[trigger] d[a].name != #[trigger] d[b].name by {
                assert(d[a] == es[a] && d[b] == es[b]);
            }
        }
        lemma_as_map_len(d);
        lemma_as_map_dom(d, es.last().name);
        if as_map(d).contains_key(es.last().name) {
            let i = choose|i: int| 0 <= i < d.len() && d[i].name == es.last().name;
            assert(es[i].name == es[es.len() - 1].name);
        }
    }
}

/// Replacing the record that carries a name by another of that name
/// replaces the name's value in the table.
pub proof fn lemma_as_map_update(es: Seq<EntryView>, i: int, e: EntryView)
    requires
        unique_names(es),
        0 <= i < es.len(),
        e.name == es[i].name,
    ensures
        as_map(es.update(i, e)) == as_map(es).insert(e.name, e),
    decreases es.len(),
{
    let u = es.update(i, e);
    let d = es.drop_last();
    if i == es.len() - 1 {
        assert(u.drop_last() =~= d);
        assert(as_map(u) =~= as_map(es).insert(e.name, e));
    } else {
        assert(u.drop_last() =~= d.update(i, e));
        assert(unique_names(d)) by {
            assert forall|a: int, b: int|
                0 <= a < d.len() && 0 <= b < d.len() && a != b implies #[trigger] d[a].name != #[trigger] d[b].name by {
                assert(d[a] == es[a] && d[b] == es[b]);
            }
        }
        lemma_as_map_update(d, i, e);
        assert(es.last().name != e.name);
        assert(as_map(u) =~= as_map(es).insert(e.name, e));
    }
}

/// `es` with `e` in place of the record of the same name, or with `e` added
/// at the end where there is none.
pub open spec fn upsert_seq(es: Seq<EntryView>, e: EntryView) -> Seq<EntryView> {
    if exists|i: int| 0 <= i < es.len() && (#[trigger] es[i]).name == e.name {
        es.update(choose|i: int| 0 <= i < es.len() && (#[trigger] es[i]).name == e.name, e)
    } else {
        es.push(e)
    }
}

/// The table that records make when read in order, in the order a table
/// holds them.
pub open spec fn keyed_seq(recs: Seq<EntryView>) -> Seq<EntryView>
    decreases recs.len(),
{
    if recs.len() == 0 {
        seq![]
    } else {
        upsert_seq(keyed_seq(recs.drop_last()), recs.last())
    }
}

/// Adds `e` to `entries`, or replaces the entry of the same name.
pub fn upsert(entries: &mut Vec<GrfEntry>, e: GrfEntry)
    requires
        unique_names(views(old(entries)@)),
    ensures
        unique_names(views(final(entries)@)),
        as_map(views(final(entries)@)) == as_map(views(old(entries)@)).insert(e@.name, e@),
        views(final(entries)@) == upsert_seq(views(old(entries)@), e@),
{
    let ghost ev = e@;
    let ghost old_v = views(entries@);
    let mut i: usize = 0;
    while i < entries.len()
        invariant
            entries@ == old(entries)@,
            old_v == views(entries@),
            ev == e@,
            unique_names(old_v),
            i <= entries@.len(),
            forall|j: int| 0 <= j < i ==> (#[trigger] entries@[j]).filename@ != ev.name,
        decreases entries@.len() - i,
    {
        if crate::cursor::bytes_eq(entries[i].filename.as_slice(), e.filename.as_slice()) {
            assert(old_v[i as int] == entries@[i as int]@);
            entries.set(i, e);
            proof {
                assert(views(entries@) =~= old_v.update(i as int, ev));
                lemma_as_map_update(old_v, i as int, ev);
                assert(old_v[i as int].name == ev.name);
                let c = choose|c: int| 0 <= c < old_v.len() && (#[trigger] old_v[c]).name == ev.name;
                if c != i {
                    assert(old_v[c].name != old_v[i as int].name);
                }
                let nv = views(entries@);
                assert forall|a: int, b: int|
                    0 <= a < nv.len() && 0 <= b < nv.len() && a != b implies #[trigger] nv[a].name != #[trigger] nv[b].name by {
                    if a != i && b != i {
                        assert(nv[a] == old_v[a] && nv[b] == old_v[b]);
                    } else if a == i {
                        assert(nv[b] == old_v[b]);
                        assert(old_v[i as int].name != old_v[b].name);
                    } else {
                        assert(nv[a] == old_v[a]);
                        assert(old_v[i as int].name != old_v[a].name);
                    }
                }
            }
            return;
        }
        assert(entries@[i as int].filename@ != ev.name);
        i = i + 1;
    }
    entries.push(e);
    proof {
        let nv = views(entries@);
        assert(nv =~= old_v.push(ev));
        assert forall|c: int| 0 <= c < old_v.len() implies (#[trigger] old_v[c]).name != ev.name by {
            assert(old_v[c] == old(entries)@[c]@);
        }
        assert(nv.drop_last() =~= old_v);
        assert forall|a: int, b: int|
            0 <= a < nv.len() && 0 <= b < nv.len() && a != b implies #[trigger] nv[a].name != #[trigger] nv[b].name by {
            if a < old_v.len() && b < old_v.len() {
                assert(nv[a] == old_v[a] && nv[b] == old_v[b]);
            } else if a == old_v.len() {
                assert(entries@[b] == old(entries)@[b]);
            } else {
                assert(entries@[a] == old(entries)@[a]);
            }
        }
    }
}

/// Index of the entry named `name`, if any.
pub fn find_entry(entries: &Vec<GrfEntry>, name: &[u8]) -> (r: Option<usize>)
    ensures
        match r {
            Some(i) => i < entries@.len() && entries@[i as int].filename@ == name@,
            None => forall|j: int| 0 <= j < entries@.len() ==> (#[trigger] entries@[j]).filename@ != name@,
        },
{
    let mut i: usize = 0;
    while i < entries.len()
        invariant
            i <= entries@.len(),
            forall|j: int| 0 <= j < i ==> (#[trigger] entries@[j]).filename@ != name@,
        decreases entries@.len() - i,
    {
        if crate::cursor::bytes_eq(entries[i].filename.as_slice(), name) {
            return Some(i);
        }
        i = i + 1;
    }
    None
}

/// `acc` in front of the records of a successful parse; an error unchanged.
pub open spec fn prefixed(acc: Seq<EntryView>, r: Result<Seq<EntryView>, Error>) -> Result<Seq<EntryView>, Error> {
    match r {
        Ok(rest) => Ok(acc + rest),
        Err(e) => Err(e),
    }
}

/// The record whose fixed fields start at `p` in `s`: compressed size,
/// aligned size, uncompressed size, flags, offset.
pub open spec fn fields_at(name: Seq<u8>, s: Seq<u8>, p: int) -> EntryView {
    EntryView {
        name,
        compressed_size: u32_at(s, p),
        compressed_size_aligned: u32_at(s, p + 4),
        uncompressed_size: u32_at(s, p + 8),
        flags: s[p + 12],
        offset: u32_at(s, p + 13),
    }
}

/// Length of the name at the start of `s`: the bytes before the first NUL,
/// or all of `s` where it holds none.
pub open spec fn name_len(s: Seq<u8>) -> nat
    decreases s.len(),
{
    if s.len() == 0 || s[0] == 0 {
        0
    } else {
        1 + name_len(s.drop_first())
    }
}

/// The records of a decompressed table whose names are NUL-terminated,
/// read until the end of `s` or an empty name; `base` is the offset of `s`
/// in the table, used in error offsets.
pub open spec fn nul_records(s: Seq<u8>, base: int) -> Result<Seq<EntryView>, Error>
    decreases s.len(),
{
    let k = name_len(s) as int;
    if s.len() == 0 || k == 0 {
        Ok(seq![])
    } else if k >= s.len() {
        Err(Error::MalformedArchive((base + k) as u64))
    } else if s.len() < k + 18 {
        Err(Error::MalformedArchive((base + k + 1) as u64))
    } else {
        prefixed(
            seq![fields_at(s.subrange(0, k), s, k + 1)],
            nul_records(s.subrange(k + 18, s.len() as int), base + k + 18),
        )
    }
}

/// The `count` records of a legacy table at the start of `s`, each with a
/// `u32` name length in front of the name; `base` is the offset of `s` in
/// the container.
pub open spec fn len_records(s: Seq<u8>, base: int, count: nat) -> Result<Seq<EntryView>, Error>
    decreases count,
{
    if count == 0 {
        Ok(seq![])
    } else if s.len() < 4 {
        Err(Error::MalformedArchive(base as u64))
    } else {
        let n = u32_at(s, 0) as int;
        if s.len() < 4 + n {
            Err(Error::MalformedArchive((base + 4) as u64))
        } else if s.len() < 21 + n {
            Err(Error::MalformedArchive((base + 4 + n) as u64))
        } else {
            prefixed(
                seq![fields_at(s.subrange(4, 4 + n), s, 4 + n)],
                len_records(s.subrange(21 + n, s.len() as int), base + 21 + n, (count - 1) as nat),
            )
        }
    }
}

/// The bytes of one record in a NUL-terminated table.
pub open spec fn record_bytes(e: EntryView) -> Seq<u8> {
    e.name + seq![0u8] + le32(e.compressed_size) + le32(e.compressed_size_aligned) + le32(
        e.uncompressed_size,
    ) + seq![e.flags] + le32(e.offset)
}

/// The NUL-terminated table of `es`, records in order.
pub open spec fn table_bytes(es: Seq<EntryView>) -> Seq<u8>
    decreases es.len(),
{
    if es.len() == 0 {
        seq![]
    } else {
        table_bytes(es.drop_last()) + record_bytes(es.last())
    }
}

proof fn lemma_prefixed_step(acc: Seq<EntryView>, e: EntryView, r: Result<Seq<EntryView>, Error>)
    ensures
        prefixed(acc, prefixed(seq![e], r)) == prefixed(acc.push(e), r),
{
    match r {
        Ok(rest) => {
            assert(acc + (seq![e] + rest) =~= acc.push(e) + rest);
        },
        Err(_) => {},
    }
}

proof fn lemma_prefixed_empty(r: Result<Seq<EntryView>, Error>)
    ensures
        prefixed(seq![], r) == r,
{
    match r {
        Ok(rest) => {
            assert(Seq::<EntryView>::empty() + rest =~= rest);
        },
        Err(_) => {},
    }
}

proof fn lemma_name_len_bound(s: Seq<u8>)
    ensures
        name_len(s) <= s.len(),
        forall|j: int| 0 <= j < name_len(s) ==> s[j] != 0,
        name_len(s) < s.len() ==> s[name_len(s) as int] == 0,
    decreases s.len(),
{
    if s.len() > 0 && s[0] != 0 {
        lemma_name_len_bound(s.drop_first());
        assert forall|j: int| 0 <= j < name_len(s) implies s[j] != 0 by {
            if j > 0 {
                assert(s[j] == s.drop_first()[j - 1]);
            }
        }
    }
}

/// A name that the NUL-terminated table can carry: not empty, no NUL.
pub open spec fn name_ok(n: Seq<u8>) -> bool {
    n.len() > 0 && forall|i: int| 0 <= i < n.len() ==> n[i] != 0
}

proof fn lemma_table_bytes_front(e: EntryView, rest: Seq<EntryView>)
    ensures
        table_bytes(seq![e] + rest) == record_bytes(e) + table_bytes(rest),
    decreases rest.len(),
{
    let s = seq![e] + rest;
    assert(table_bytes(s) == table_bytes(s.drop_last()) + record_bytes(s.last()));
    if rest.len() == 0 {
        assert(s.drop_last() =~= Seq::<EntryView>::empty());
        assert(table_bytes(s.drop_last()) == Seq::<u8>::empty());
        assert(table_bytes(rest) == Seq::<u8>::empty());
        assert(record_bytes(e) + Seq::<u8>::empty() =~= record_bytes(e));
        assert(Seq::<u8>::empty() + record_bytes(e) =~= record_bytes(e));
    } else {
        assert(s.drop_last() =~= seq![e] + rest.drop_last());
        lemma_table_bytes_front(e, rest.drop_last());
        assert(s.last() == rest.last());
        assert(table_bytes(rest) == table_bytes(rest.drop_last()) + record_bytes(rest.last()));
        assert(record_bytes(e) + table_bytes(rest.drop_last()) + record_bytes(rest.last())
            =~= record_bytes(e) + (table_bytes(rest.drop_last()) + record_bytes(rest.last())));
    }
}

/// A table written by `table_bytes` reads back record for record.
pub proof fn lemma_table_round_trip(es: Seq<EntryView>, base: int)
    requires
        forall|k: int| 0 <= k < es.len() ==> name_ok(#[trigger] es[k].name),
    ensures
        nul_records(table_bytes(es), base) == Ok::<Seq<EntryView>, Error>(es),
    decreases es.len(),
{
    vstd::bytes::lemma_auto_spec_u32_to_from_le_bytes();
    if es.len() == 0 {
        assert(table_bytes(es) =~= Seq::<u8>::empty());
        assert(es =~= Seq::<EntryView>::empty());
    } else {
        let e = es[0];
        let rest = es.drop_first();
        assert(es =~= seq![e] + rest);
        lemma_table_bytes_front(e, rest);
        assert forall|k: int| 0 <= k < rest.len() implies name_ok(#[trigger] rest[k].name) by {
            assert(rest[k] == es[k + 1]);
        }
        lemma_table_round_trip(rest, base + e.name.len() + 18);
        let r = record_bytes(e);
        let s = r + table_bytes(rest);
        let k = e.name.len() as int;
        assert(name_ok(es[0].name));
        assert(r.len() == k + 18);
        assert forall|j: int| 0 <= j < k implies s[j] != 0 by {
            assert(s[j] == e.name[j]);
        }
        assert(s[k] == 0);
        lemma_name_len_exact(s, k);
        assert(s.subrange(0, k) =~= e.name);
        assert(s.subrange(k + 1, k + 5) =~= le32(e.compressed_size));
        assert(s.subrange(k + 5, k + 9) =~= le32(e.compressed_size_aligned));
        assert(s.subrange(k + 9, k + 13) =~= le32(e.uncompressed_size));
        assert(s[k + 13] == e.flags);
        assert(s.subrange(k + 14, k + 18) =~= le32(e.offset));
        assert(fields_at(s.subrange(0, k), s, k + 1) == e);
        assert(s.subrange(k + 18, s.len() as int) =~= table_bytes(rest));
        assert(s.len() > 0 && name_len(s) == k && k > 0 && k < s.len() && s.len() >= k + 18);
        assert(nul_records(s, base) == prefixed(
            seq![fields_at(s.subrange(0, k), s, k + 1)],
            nul_records(s.subrange(k + 18, s.len() as int), base + k + 18),
        ));
        assert(seq![e] + rest =~= es);
        assert(table_bytes(es) == s);
    }
}

/// Reads a NUL-terminated table: each record's name is stored once, and a
/// later record of the same name replaces the earlier one.
pub fn parse_nul_table(t: &[u8]) -> (r: Result<Vec<GrfEntry>, Error>)
    ensures
        match nul_records(t@, 0) {
            Ok(recs) => r is Ok && unique_names(views(r->Ok_0@)) && as_map(views(r->Ok_0@)) == as_map(recs)
                && views(r->Ok_0@) == keyed_seq(recs),
            Err(e) => r == Err::<Vec<GrfEntry>, Error>(e),
        },
{
    let len = t.len();
    let mut entries: Vec<GrfEntry> = Vec::new();
    let mut pos: usize = 0;
    let ghost mut acc: Seq<EntryView> = seq![];
    proof {
        assert(t@.subrange(0, len as int) =~= t@);
        lemma_prefixed_empty(nul_records(t@, 0));
    }
    while pos < len
        invariant
            len == t@.len(),
            pos <= len,
            nul_records(t@, 0) == prefixed(acc, nul_records(t@.subrange(pos as int, len as int), pos as int)),
            unique_names(views(entries@)),
            as_map(views(entries@)) == as_map(acc),
            views(entries@) == keyed_seq(acc),
        decreases len - pos,
    {
        let ghost s = t@.subrange(pos as int, len as int);
        proof { lemma_name_len_bound(s); }
        let start = pos;
        let mut end = pos;
        while end < len && t[end] != 0
            invariant
                start == pos,
                pos <= end <= len,
                len == t@.len(),
                s == t@.subrange(pos as int, len as int),
                forall|j: int| pos <= j < end ==> t@[j] != 0,
                name_len(s) >= end - pos,
            decreases len - end,
        {
            proof {
                let k = (end - pos) as int;
                assert(s[k] == t@[end as int]);
                lemma_name_len_prefix(s, k);
            }
            end = end + 1;
        }
        proof {
            let k = (end - pos) as int;
            lemma_name_len_exact(s, k);
        }
        if end == start {
            proof {
                lemma_prefixed_empty_tail(acc);
            }
            return Ok(entries);
        }
        if end >= len {
            return Err(Error::MalformedArchive(end as u64));
        }
        let p = end + 1;
        if len - p < 17 {
            return Err(Error::MalformedArchive(p as u64));
        }
        let name = read_bytes(t, start, end - start)?;
        let csize = read_u32_le(t, p)?;
        let aligned = read_u32_le(t, p + 4)?;
        let usize_ = read_u32_le(t, p + 8)?;
        let flags = read_u8(t, p + 12)?;
        let offset = read_u32_le(t, p + 13)?;
        let ghost k = (end - start) as int;
        proof {
            assert(name@ =~= s.subrange(0, k));
            assert(t@.subrange(p as int, p + 4) =~= s.subrange(k + 1, k + 5));
            assert(t@.subrange(p + 4, p + 8) =~= s.subrange(k + 5, k + 9));
            assert(t@.subrange(p + 8, p + 12) =~= s.subrange(k + 9, k + 13));
            assert(t@.subrange(p + 13, p + 17) =~= s.subrange(k + 14, k + 18));
            assert(t@[p + 12] == s[k + 13]);
        }
        let e = GrfEntry {
            filename: name,
            compressed_size: csize,
            compressed_size_aligned: aligned,
            uncompressed_size: usize_,
            flags,
            offset,
        };
        let ghost ev = e@;
        assert(ev == fields_at(s.subrange(0, k), s, k + 1));
        upsert(&mut entries, e);
        pos = p + 17;
        proof {
            assert(s.subrange(k + 18, s.len() as int) =~= t@.subrange(pos as int, len as int));
            lemma_prefixed_step(acc, ev, nul_records(t@.subrange(pos as int, len as int), pos as int));
            assert(acc.push(ev).drop_last() =~= acc);
            acc = acc.push(ev);
        }
    }
    proof {
        assert(t@.subrange(pos as int, len as int).len() == 0);
        lemma_prefixed_empty_tail(acc);
    }
    Ok(entries)
}

/// Reads the `count` records of a legacy table that starts at `start` in
/// `img`: each record's name is stored once, and a later record of the same
/// name replaces the earlier one.
pub fn parse_len_table(img: &[u8], start: usize, count: u32) -> (r: Result<Vec<GrfEntry>, Error>)
    requires
        start <= img@.len(),
    ensures
        match len_records(img@.subrange(start as int, img@.len() as int), start as int, count as nat) {
            Ok(recs) => r is Ok && unique_names(views(r->Ok_0@)) && as_map(views(r->Ok_0@)) == as_map(recs)
                && views(r->Ok_0@) == keyed_seq(recs),
            Err(e) => r == Err::<Vec<GrfEntry>, Error>(e),
        },
{
    let len = img.len();
    let mut entries: Vec<GrfEntry> = Vec::new();
    let mut pos: usize = start;
    let mut k: u32 = 0;
    let ghost mut acc: Seq<EntryView> = seq![];
    let ghost whole = img@.subrange(start as int, len as int);
    proof {
        lemma_prefixed_empty(len_records(whole, start as int, count as nat));
    }
    while k < count
        invariant
            len == img@.len(),
            start <= pos <= len,
            k <= count,
            whole == img@.subrange(start as int, len as int),
            len_records(whole, start as int, count as nat) == prefixed(
                acc,
                len_records(img@.subrange(pos as int, len as int), pos as int, (count - k) as nat),
            ),
            unique_names(views(entries@)),
            as_map(views(entries@)) == as_map(acc),
            views(entries@) == keyed_seq(acc),
        decreases count - k,
    {
        let ghost s = img@.subrange(pos as int, len as int);
        let n = read_u32_le(img, pos)? as usize;
        assert(img@.subrange(pos as int, pos + 4) =~= s.subrange(0, 4));
        let name = read_bytes(img, pos + 4, n)?;
        let p = pos + 4 + n;
        if len - p < 17 {
            return Err(Error::MalformedArchive(p as u64));
        }
        let csize = read_u32_le(img, p)?;
        let aligned = read_u32_le(img, p + 4)?;
        let usize_ = read_u32_le(img, p + 8)?;
        let flags = read_u8(img, p + 12)?;
        let offset = read_u32_le(img, p + 13)?;
        let ghost q = (4 + n) as int;
        proof {
            assert(name@ =~= s.subrange(4, q));
            assert(img@.subrange(p as int, p + 4) =~= s.subrange(q, q + 4));
            assert(img@.subrange(p + 4, p + 8) =~= s.subrange(q + 4, q + 8));
            assert(img@.subrange(p + 8, p + 12) =~= s.subrange(q + 8, q + 12));
            assert(img@.subrange(p + 13, p + 17) =~= s.subrange(q + 13, q + 17));
            assert(img@[p + 12] == s[q + 12]);
        }
        let e = GrfEntry {
            filename: name,
            compressed_size: csize,
            compressed_size_aligned: aligned,
            uncompressed_size: usize_,
            flags,
            offset,
        };
        let ghost ev = e@;
        assert(ev == fields_at(s.subrange(4, q), s, q));
        upsert(&mut entries, e);
        pos = p + 17;
        k = k + 1;
        proof {
            assert(s.subrange(q + 17, s.len() as int) =~= img@.subrange(pos as int, len as int));
            lemma_prefixed_step(acc, ev, len_records(img@.subrange(pos as int, len as int), pos as int, (count - k) as nat));
            assert(acc.push(ev).drop_last() =~= acc);
            acc = acc.push(ev);
        }
    }
    proof {
        lemma_prefixed_empty_tail(acc);
    }
    Ok(entries)
}

proof fn lemma_prefixed_empty_tail(acc: Seq<EntryView>)
    ensures
        prefixed(acc, Ok(seq![])) == Ok::<Seq<EntryView>, Error>(acc),
{
    assert(acc + Seq::<EntryView>::empty() =~= acc);
}

proof fn lemma_name_len_prefix(s: Seq<u8>, k: int)
    requires
        0 <= k < s.len(),
        forall|j: int| 0 <= j <= k ==> s[j] != 0,
    ensures
        name_len(s) >= k + 1,
    decreases k,
{
    if k > 0 {
        assert forall|j: int| 0 <= j <= k - 1 implies s.drop_first()[j] != 0 by {
            assert(s.drop_first()[j] == s[j + 1]);
        }
        lemma_name_len_prefix(s.drop_first(), k - 1);
    }
}

pub proof fn lemma_name_len_exact(s: Seq<u8>, k: int)
    requires
        0 <= k <= s.len(),
        forall|j: int| 0 <= j < k ==> s[j] != 0,
        k == s.len() || s[k] == 0,
    ensures
        name_len(s) == k,
    decreases k,
{
    if k > 0 {
        assert forall|j: int| 0 <= j < k - 1 implies s.drop_first()[j] != 0 by {
            assert(s.drop_first()[j] == s[j + 1]);
        }
        if k < s.len() {
            assert(s.drop_first()[k - 1] == s[k]);
        }
        lemma_name_len_exact(s.drop_first(), k - 1);
    }
}

} // verus!
