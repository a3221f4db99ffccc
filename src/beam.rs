use vstd::prelude::*;
use crate::compress::{md5_digest, md5_of, zlib_compress, zlib_decoded, zlib_decompress, zlib_encoded};
use vstd::bytes::{lemma_auto_spec_u32_to_from_le_bytes, lemma_auto_spec_u64_to_from_le_bytes};
use crate::cursor::{append_bytes, le32, le64, read_bytes, read_u32_le, read_u64_le, read_u8, u32_at, u64_at, write_u32_le, write_u64_le};
use crate::error::Error;
use crate::grf::{
    PendingPatch, is_staged, lemma_pmap_dom, lemma_pmap_index, pending_views_of, pmap, stage_write, staged_after,
    unique_keys,
};

verus! {

/// Size of the fixed BEAM header.
pub const BEAM_HEADER_SIZE: usize = 64;
/// Version written into new archives.
pub const BEAM_VERSION: u32 = 1;
/// Longest name a record can carry (its length is one byte).
pub const MAX_NAME_LEN: usize = 255;

/// `BEAM`.
pub open spec fn beam_magic() -> Seq<u8> {
    seq![0x42u8, 0x45, 0x41, 0x4d]
}

/// A BEAM record, as a value.
pub struct BeamEntryView {
    pub name: Seq<u8>,
    pub md5: Seq<u8>,
    pub compressed_size: u32,
    pub uncompressed_size: u32,
    pub offset: u64,
}

/// A BEAM record: the MD5 is that of the uncompressed payload; `offset`
/// counts from the start of the file.
#[derive(Debug)]
pub struct BeamEntry {
    pub filename: Vec<u8>,
    pub md5_hash: [u8; 16],
    pub compressed_size: u32,
    pub uncompressed_size: u32,
    pub offset: u64,
}

impl View for BeamEntry {
    type V = BeamEntryView;

    open spec fn view(&self) -> BeamEntryView {
        BeamEntryView {
            name: self.filename@,
            md5: self.md5_hash@,
            compressed_size: self.compressed_size,
            uncompressed_size: self.uncompressed_size,
            offset: self.offset,
        }
    }
}

/// The views of a vector of entries.
pub open spec fn beam_views(v: Seq<BeamEntry>) -> Seq<BeamEntryView> {
    v.map_values(|e: BeamEntry| e@)
}

/// No two records share a name.
pub open spec fn unique_beam_names(es: Seq<BeamEntryView>) -> bool {
    forall|i: int, j: int|
        0 <= i < es.len() && 0 <= j < es.len() && i != j ==> #[trigger] es[i].name != #[trigger] es[j].name
}

/// The name-keyed table that records make when read in order: a later
/// record replaces an earlier one of the same name.
pub open spec fn beam_map(es: Seq<BeamEntryView>) -> Map<Seq<u8>, BeamEntryView>
    decreases es.len(),
{
    if es.len() == 0 {
        Map::empty()
    } else {
        beam_map(es.drop_last()).insert(es.last().name, es.last())
    }
}

/// A name is a key of `beam_map(es)` exactly when some record has it.
pub proof fn lemma_beam_map_dom(es: Seq<BeamEntryView>, name: Seq<u8>)
    ensures
        beam_map(es).contains_key(name) <==> exists|i: int| 0 <= i < es.len() && es[i].name == name,
    decreases es.len(),
{
    if es.len() > 0 {
        lemma_beam_map_dom(es.drop_last(), name);
        if beam_map(es.drop_last()).contains_key(name) {
            let i = choose|i: int| 0 <= i < es.drop_last().len() && es.drop_last()[i].name == name;
            assert(es[i].name == name);
        }
        if exists|i: int| 0 <= i < es.len() && es[i].name == name {
            let i = choose|i: int| 0 <= i < es.len() && es[i].name == name;
            if i < es.len() - 1 {
                assert(es.drop_last()[i].name == name);
            }
        }
    }
}

/// With unique names, each record is what its name maps to.
pub proof fn lemma_beam_map_index(es: Seq<BeamEntryView>, i: int)
    requires
        unique_beam_names(es),
        0 <= i < es.len(),
    ensures
        beam_map(es).contains_key(es[i].name),
        beam_map(es)[es[i].name] == es[i],
    decreases es.len(),
{
    if i < es.len() - 1 {
        let d = es.drop_last();
        assert(d[i] == es[i]);
        assert(unique_beam_names(d)) by {
            assert forall|a: int, b: int|
                0 <= a < d.len() && 0 <= b < d.len() && a != b implies #[trigger] d[a].name != #[trigger] d[b].name by {
                assert(d[a] == es[a] && d[b] == es[b]);
            }
        }
        lemma_beam_map_index(d, i);
        assert(es[i].name != es.last().name);
    }
}

/// Replacing the record that carries a name by another of that name
/// replaces the name's value in the table.
pub proof fn lemma_beam_map_update(es: Seq<BeamEntryView>, i: int, e: BeamEntryView)
    requires
        unique_beam_names(es),
        0 <= i < es.len(),
        e.name == es[i].name,
    ensures
        beam_map(es.update(i, e)) == beam_map(es).insert(e.name, e),
    decreases es.len(),
{
    let u = es.update(i, e);
    let d = es.drop_last();
    if i == es.len() - 1 {
        assert(u.drop_last() =~= d);
        assert(beam_map(u) =~= beam_map(es).insert(e.name, e));
    } else {
        assert(u.drop_last() =~= d.update(i, e));
        assert(unique_beam_names(d)) by {
            assert forall|a: int, b: int|
                0 <= a < d.len() && 0 <= b < d.len() && a != b implies #[trigger] d[a].name != #[trigger] d[b].name by {
                assert(d[a] == es[a] && d[b] == es[b]);
            }
        }
        lemma_beam_map_update(d, i, e);
        assert(es.last().name != e.name);
        assert(beam_map(u) =~= beam_map(es).insert(e.name, e));
    }
}

/// `es` with `e` in place of the record of the same name, or with `e` added
/// at the end where there is none.
pub open spec fn beam_upsert_seq(es: Seq<BeamEntryView>, e: BeamEntryView) -> Seq<BeamEntryView> {
    if exists|i: int| 0 <= i < es.len() && (#[trigger] es[i]).name == e.name {
        es.update(choose|i: int| 0 <= i < es.len() && (#[trigger] es[i]).name == e.name, e)
    } else {
        es.push(e)
    }
}

/// The records that a BEAM table makes when read in order, in the order an
/// archive holds them.
pub open spec fn beam_keyed_seq(recs: Seq<BeamEntryView>) -> Seq<BeamEntryView>
    decreases recs.len(),
{
    if recs.len() == 0 {
        seq![]
    } else {
        beam_upsert_seq(beam_keyed_seq(recs.drop_last()), recs.last())
    }
}

/// Adds `e` to `entries`, or replaces the entry of the same name.
pub fn beam_upsert(entries: &mut Vec<BeamEntry>, e: BeamEntry)
    requires
        unique_beam_names(beam_views(old(entries)@)),
        e.filename@.len() <= MAX_NAME_LEN,
        forall|i: int| 0 <= i < old(entries)@.len() ==> (#[trigger] old(entries)@[i]).filename@.len() <= MAX_NAME_LEN,
    ensures
        forall|i: int| 0 <= i < final(entries)@.len() ==> (#[trigger] final(entries)@[i]).filename@.len() <= MAX_NAME_LEN,
        unique_beam_names(beam_views(final(entries)@)),
        beam_map(beam_views(final(entries)@)) == beam_map(beam_views(old(entries)@)).insert(e@.name, e@),
        beam_views(final(entries)@) == beam_upsert_seq(beam_views(old(entries)@), e@),
{
    let ghost ev = e@;
    let ghost old_v = beam_views(entries@);
    let mut i: usize = 0;
    while i < entries.len()
        invariant
            entries@ == old(entries)@,
            old_v == beam_views(entries@),
            ev == e@,
            unique_beam_names(old_v),
            e.filename@.len() <= MAX_NAME_LEN,
            forall|k: int| 0 <= k < old(entries)@.len() ==> (#[trigger] old(entries)@[k]).filename@.len() <= MAX_NAME_LEN,
            i <= entries@.len(),
            forall|j: int| 0 <= j < i ==> (#[trigger] entries@[j]).filename@ != ev.name,
        decreases entries@.len() - i,
    {
        if crate::cursor::bytes_eq(entries[i].filename.as_slice(), e.filename.as_slice()) {
            assert(old_v[i as int] == entries@[i as int]@);
            entries.set(i, e);
            proof {
                assert forall|k: int| 0 <= k < entries@.len() implies (#[trigger] entries@[k]).filename@.len() <= MAX_NAME_LEN by {
                    if k != i {
                        assert(entries@[k] == old(entries)@[k]);
                    }
                }
                assert(beam_views(entries@) =~= old_v.update(i as int, ev));
                lemma_beam_map_update(old_v, i as int, ev);
                assert(old_v[i as int].name == ev.name);
                let c = choose|c: int| 0 <= c < old_v.len() && (#[trigger] old_v[c]).name == ev.name;
                if c != i {
                    assert(old_v[c].name != old_v[i as int].name);
                }
                let nv = beam_views(entries@);
                assert forall|a: int, b: int|
                    0 <= a < nv.len() && 0 <= b < nv.len() && a != b implies #[trigger] nv[a].name != #[trigger] nv[b].name by {
                    if a != i && b != i {
                        assert(nv[a] == old_v[a] && nv[b] == old_v[b]);
                    } else if a == i {
                        assert(nv[b] == old_v[b]);
                        assert(old_v[i as int].name != old_v[b].name);
                    } else {
                        assert(nv[a] == old_v[a]);
                        assert(old_v[i as int].name != old_v[a].name);
                    }
                }
            }
            return;
        }
        assert(entries@[i as int].filename@ != ev.name);
        i = i + 1;
    }
    entries.push(e);
    proof {
        let nv = beam_views(entries@);
        assert(nv =~= old_v.push(ev));
        assert forall|c: int| 0 <= c < old_v.len() implies (#[trigger] old_v[c]).name != ev.name by {
            assert(old_v[c] == old(entries)@[c]@);
        }
        assert(nv.drop_last() =~= old_v);
        assert forall|a: int, b: int|
            0 <= a < nv.len() && 0 <= b < nv.len() && a != b implies #[trigger] nv[a].name != #[trigger] nv[b].name by {
            if a < old_v.len() && b < old_v.len() {
                assert(nv[a] == old_v[a] && nv[b] == old_v[b]);
            } else if a == old_v.len() {
                assert(entries@[b] == old(entries)@[b]);
            } else {
                assert(entries@[a] == old(entries)@[a]);
            }
        }
    }
}

/// Index of the entry named `name`, if any.
pub fn find_beam_entry(entries: &Vec<BeamEntry>, name: &[u8]) -> (r: Option<usize>)
    ensures
        match r {
            Some(i) => i < entries@.len() && entries@[i as int].filename@ == name@,
            None => forall|j: int| 0 <= j < entries@.len() ==> (#[trigger] entries@[j]).filename@ != name@,
        },
{
    let mut i: usize = 0;
    while i < entries.len()
        invariant
            i <= entries@.len(),
            forall|j: int| 0 <= j < i ==> (#[trigger] entries@[j]).filename@ != name@,
        decreases entries@.len() - i,
    {
        if crate::cursor::bytes_eq(entries[i].filename.as_slice(), name) {
            return Some(i);
        }
        i = i + 1;
    }
    None
}


/// `acc` in front of the records of a successful parse; an error unchanged.
pub open spec fn beam_prefixed(acc: Seq<BeamEntryView>, r: Result<Seq<BeamEntryView>, Error>) -> Result<Seq<BeamEntryView>, Error> {
    match r {
        Ok(rest) => Ok(acc + rest),
        Err(e) => Err(e),
    }
}

/// The `count` records at the start of `s`; `base` is the offset of `s` in
/// the file. A record is: name length `n` (one byte), `n` name bytes, 16
/// bytes of MD5, compressed size, uncompressed size, body offset (`u64`).
pub open spec fn beam_records(s: Seq<u8>, base: int, count: nat) -> Result<Seq<BeamEntryView>, Error>
    decreases count,
{
    if count == 0 {
        Ok(seq![])
    } else if s.len() < 1 {
        Err(Error::MalformedArchive(base as u64))
    } else {
        let n = s[0] as int;
        if s.len() < 1 + n {
            Err(Error::MalformedArchive((base + 1) as u64))
        } else if s.len() < 33 + n {
            Err(Error::MalformedArchive((base + 1 + n) as u64))
        } else {
            beam_prefixed(
                seq![BeamEntryView {
                    name: s.subrange(1, 1 + n),
                    md5: s.subrange(1 + n, 17 + n),
                    compressed_size: u32_at(s, 17 + n),
                    uncompressed_size: u32_at(s, 21 + n),
                    offset: u64_at(s, 25 + n),
                }],
                beam_records(s.subrange(33 + n, s.len() as int), base + 33 + n, (count - 1) as nat),
            )
        }
    }
}

/// The version of a BEAM image and its records, in table order.
pub open spec fn beam_records_of(img: Seq<u8>) -> Result<(u32, Seq<BeamEntryView>), Error> {
    if img.len() < 64 || img.subrange(0, 4) != beam_magic() {
        Err(Error::InvalidHeader)
    } else {
        match beam_records(img.subrange(64, img.len() as int), 64, u32_at(img, 8) as nat) {
            Ok(recs) => Ok((u32_at(img, 4), recs)),
            Err(e) => Err(e),
        }
    }
}

/// What a BEAM image holds: its version and its name-keyed records.
pub open spec fn beam_image(img: Seq<u8>) -> Result<(u32, Map<Seq<u8>, BeamEntryView>), Error> {
    match beam_records_of(img) {
        Ok((v, recs)) => Ok((v, beam_map(recs))),
        Err(e) => Err(e),
    }
}

/// The payload of record `e` in `img`, checked against its MD5.
pub open spec fn beam_payload(img: Seq<u8>, e: BeamEntryView) -> Result<Seq<u8>, Error> {
    if img.len() < e.offset + e.compressed_size {
        Err(Error::MalformedArchive(e.offset))
    } else {
        match zlib_decoded(img.subrange(e.offset as int, e.offset + e.compressed_size)) {
            None => Err(Error::Decompression),
            Some(d) => if md5_of(d) != e.md5 {
                Err(Error::ChecksumMismatch)
            } else {
                Ok(d)
            },
        }
    }
}

/// The payload of `name` in `img`, whose records are `m`.
pub open spec fn beam_extract(img: Seq<u8>, m: Map<Seq<u8>, BeamEntryView>, name: Seq<u8>) -> Result<Seq<u8>, Error> {
    if !m.contains_key(name) {
        Err(Error::FileNotFound)
    } else {
        beam_payload(img, m[name])
    }
}

/// The fixed 64-byte header.
pub open spec fn beam_header(version: u32, count: u32) -> Seq<u8> {
    beam_magic() + le32(version) + le32(count) + Seq::new(52, |i: int| 0u8)
}

/// The bytes of one record.
pub open spec fn beam_record_bytes(e: BeamEntryView) -> Seq<u8> {
    seq![e.name.len() as u8] + e.name + e.md5 + le32(e.compressed_size) + le32(e.uncompressed_size) + le64(e.offset)
}

/// The records of `es`, in order.
pub open spec fn beam_table_bytes(es: Seq<BeamEntryView>) -> Seq<u8>
    decreases es.len(),
{
    if es.len() == 0 {
        seq![]
    } else {
        beam_table_bytes(es.drop_last()) + beam_record_bytes(es.last())
    }
}

/// The bytes that the records of `es` occupy.
pub open spec fn table_size(es: Seq<BeamEntryView>) -> int
    decreases es.len(),
{
    if es.len() == 0 {
        0
    } else {
        table_size(es.drop_last()) + 33 + es.last().name.len()
    }
}

/// The bytes of `bodies`, back to back.
pub open spec fn concat(bodies: Seq<Seq<u8>>) -> Seq<u8>
    decreases bodies.len(),
{
    if bodies.len() == 0 {
        seq![]
    } else {
        concat(bodies.drop_last()) + bodies.last()
    }
}

/// The data to store for record `e`: what was added under its name, else
/// its payload in `source`, the image the archive was opened from.
pub open spec fn data_for(source: Seq<u8>, fd: Seq<(Seq<u8>, Seq<u8>)>, e: BeamEntryView) -> Result<Seq<u8>, Error> {
    if pmap(fd).contains_key(e.name) {
        Ok(pmap(fd)[e.name])
    } else {
        beam_payload(source, e)
    }
}

/// The compressed bodies of the first `n` records.
pub open spec fn packed_bodies(
    source: Seq<u8>,
    fd: Seq<(Seq<u8>, Seq<u8>)>,
    es: Seq<BeamEntryView>,
    n: nat,
) -> Result<Seq<Seq<u8>>, Error>
    decreases n,
{
    if n == 0 {
        Ok(seq![])
    } else {
        match packed_bodies(source, fd, es, (n - 1) as nat) {
            Err(x) => Err(x),
            Ok(bs) => match data_for(source, fd, es[n - 1]) {
                Err(x) => Err(x),
                Ok(d) => Ok(bs.push(zlib_encoded(d))),
            },
        }
    }
}

/// The first `n` records with sizes and offsets set for bodies `bs` laid
/// out from `start`.
pub open spec fn laid_out(es: Seq<BeamEntryView>, bs: Seq<Seq<u8>>, n: nat, start: int) -> Result<(Seq<BeamEntryView>, int), Error>
    decreases n,
{
    if n == 0 {
        Ok((seq![], start))
    } else {
        match laid_out(es, bs, (n - 1) as nat, start) {
            Err(x) => Err(x),
            Ok(st) => {
                let b = bs[n - 1];
                if b.len() > u32::MAX || st.1 + b.len() > u64::MAX {
                    Err(Error::CapacityExceeded)
                } else {
                    let e = es[n - 1];
                    Ok((
                        st.0.push(BeamEntryView {
                            name: e.name,
                            md5: e.md5,
                            compressed_size: b.len() as u32,
                            uncompressed_size: e.uncompressed_size,
                            offset: st.1 as u64,
                        }),
                        st.1 + b.len(),
                    ))
                }
            },
        }
    }
}

/// The image that `save` writes, and the records it holds.
pub open spec fn beam_saved(
    version: u32,
    source: Seq<u8>,
    fd: Seq<(Seq<u8>, Seq<u8>)>,
    es: Seq<BeamEntryView>,
) -> Result<(Seq<u8>, Seq<BeamEntryView>), Error> {
    if es.len() > u32::MAX {
        Err(Error::CapacityExceeded)
    } else {
        match packed_bodies(source, fd, es, es.len()) {
            Err(x) => Err(x),
            Ok(bs) => match laid_out(es, bs, es.len(), 64 + table_size(es)) {
                Err(x) => Err(x),
                Ok(st) => Ok((beam_header(version, es.len() as u32) + beam_table_bytes(st.0) + concat(bs), st.0)),
            },
        }
    }
}

/// A BEAM patch archive: its records, and the data added since it was
/// opened or created.
#[derive(Debug)]
pub struct BeamArchive {
    pub version: u32,
    pub entries: Vec<BeamEntry>,
    pub file_data: Vec<PendingPatch>,
}

impl BeamArchive {
    /// The records, in internal order.
    pub open spec fn entry_views(&self) -> Seq<BeamEntryView> {
        beam_views(self.entries@)
    }

    /// The records, keyed by name.
    pub open spec fn entries_map(&self) -> Map<Seq<u8>, BeamEntryView> {
        beam_map(self.entry_views())
    }

    /// The added data, as (name, bytes).
    pub open spec fn data_views(&self) -> Seq<(Seq<u8>, Seq<u8>)> {
        pending_views_of(self.file_data@)
    }

    /// Names are unique and fit a one-byte length; added data is keyed
    /// uniquely too.
    pub open spec fn wf(&self) -> bool {
        &&& unique_beam_names(self.entry_views())
        &&& unique_keys(self.data_views())
        &&& forall|i: int| 0 <= i < self.entries@.len() ==> (#[trigger] self.entries@[i]).filename@.len() <= MAX_NAME_LEN
        &&& forall|n: Seq<u8>|
            #[trigger] self.entries_map().contains_key(n) && pmap(self.data_views()).contains_key(n) ==> self.entries_map()[n].md5
                == md5_of(pmap(self.data_views())[n])
    }

    /// An empty archive of the current version.
    pub fn new() -> (r: BeamArchive)
        ensures
            r.wf(),
            r.version == BEAM_VERSION,
            r.entries@.len() == 0,
            r.file_data@.len() == 0,
    {
        let r = BeamArchive { version: BEAM_VERSION, entries: Vec::new(), file_data: Vec::new() };
        assert(r.entry_views() =~= seq![]);
        assert(r.data_views() =~= seq![]);
        r
    }

    /// Adds `data` under `filename`, replacing an earlier record of that
    /// name; the payload is kept in memory until `save`.
    pub fn add_file(&mut self, filename: &[u8], data: &[u8]) -> (r: Result<(), Error>)
        requires
            old(self).wf(),
        ensures
            final(self).wf(),
            final(self).version == old(self).version,
            filename@.len() > MAX_NAME_LEN ==> r == Err::<(), Error>(Error::CapacityExceeded),
            filename@.len() <= MAX_NAME_LEN && data@.len() > u32::MAX ==> r == Err::<(), Error>(Error::CapacityExceeded),
            r is Err ==> *final(self) == *old(self),
            r is Ok ==> filename@.len() <= MAX_NAME_LEN && data@.len() <= u32::MAX,
            r is Ok ==> final(self).entries_map() == old(self).entries_map().insert(filename@, added_entry(filename@, data@)),
            r is Ok ==> staged_after(old(self).data_views(), final(self).data_views(), filename@, data@),
            filename@.len() <= MAX_NAME_LEN && data@.len() <= u32::MAX && zlib_encoded(data@).len() <= u32::MAX ==> r is Ok,
            filename@.len() <= MAX_NAME_LEN && data@.len() <= u32::MAX && zlib_encoded(data@).len() > u32::MAX ==> r
                == Err::<(), Error>(Error::CapacityExceeded),
    {
        if filename.len() > MAX_NAME_LEN || data.len() as u64 > 0xFFFF_FFFFu64 {
            return Err(Error::CapacityExceeded);
        }
        let md5_hash = md5_digest(data);
        let packed = zlib_compress(data)?;
        if packed.len() as u64 > 0xFFFF_FFFFu64 {
            return Err(Error::CapacityExceeded);
        }
        let e = BeamEntry {
            filename: vstd::slice::slice_to_vec(filename),
            md5_hash,
            compressed_size: packed.len() as u32,
            uncompressed_size: data.len() as u32,
            offset: 0,
        };
        assert(e@ == added_entry(filename@, data@));
        let ghost old_em = self.entries_map();
        let ghost old_pm = pmap(self.data_views());
        stage_write(&mut self.file_data, filename, data);
        beam_upsert(&mut self.entries, e);
        proof {
            assert(self.entries_map() == old_em.insert(filename@, added_entry(filename@, data@)));
            assert(pmap(self.data_views()) == old_pm.insert(filename@, data@));
            assert forall|n: Seq<u8>|
                #[trigger] self.entries_map().contains_key(n) && pmap(self.data_views()).contains_key(n) implies self.entries_map()[n].md5
                    == md5_of(pmap(self.data_views())[n]) by {
                if n != filename@ {
                    assert(old_em.contains_key(n) && old_pm.contains_key(n));
                }
            }
        }
        Ok(())
    }

    /// The data to store for record `e`.
    fn data_for_entry(&self, source: &[u8], e: &BeamEntry) -> (r: Result<Vec<u8>, Error>)
        requires
            self.wf(),
        ensures
            match data_for(source@, self.data_views(), e@) {
                Ok(d) => r is Ok && r->Ok_0@ == d,
                Err(x) => r == Err::<Vec<u8>, Error>(x),
            },
    {
        let ghost fd = self.data_views();
        let mut i: usize = 0;
        while i < self.file_data.len()
            invariant
                fd == self.data_views(),
                unique_keys(fd),
                i <= fd.len(),
                forall|j: int| 0 <= j < i ==> (#[trigger] fd[j]).0 != e.filename@,
            decreases fd.len() - i,
        {
            if crate::cursor::bytes_eq(self.file_data[i].filename.as_slice(), e.filename.as_slice()) {
                proof {
                    assert(fd[i as int] == (self.file_data@[i as int].filename@, self.file_data@[i as int].data@));
                    lemma_pmap_index(fd, i as int);
                }
                return Ok(vstd::slice::slice_to_vec(self.file_data[i].data.as_slice()));
            }
            assert(fd[i as int].0 != e.filename@);
            i = i + 1;
        }
        proof {
            lemma_pmap_dom(fd, e.filename@);
        }
        beam_entry_payload(source, e)
    }

    /// Writes the archive: the header, the records with their body offsets,
    /// then the compressed bodies in record order. Each body is the data
    /// added under the record's name or, for a record read from a file, its
    /// payload in `source` (checked against its MD5). The handle's records
    /// take the new sizes and offsets.
    pub fn save(&mut self, source: &[u8]) -> (r: Result<Vec<u8>, Error>)
        requires
            old(self).wf(),
        ensures
            final(self).wf(),
            final(self).version == old(self).version,
            final(self).file_data == old(self).file_data,
            match beam_saved(old(self).version, source@, old(self).data_views(), old(self).entry_views()) {
                Ok(st) => r is Ok && r->Ok_0@ == st.0 && final(self).entry_views() == st.1,
                Err(x) => r == Err::<Vec<u8>, Error>(x) && *final(self) == *old(self),
            },
            r is Ok ==> beam_image(r->Ok_0@) == Ok::<(u32, Map<Seq<u8>, BeamEntryView>), Error>(
                (old(self).version, final(self).entries_map()),
            ),
            r is Ok ==> forall|k: int|
                0 <= k < old(self).entry_views().len() ==> beam_extract(
                    r->Ok_0@,
                    final(self).entries_map(),
                    (#[trigger] old(self).entry_views()[k]).name,
                ) == data_for(source@, old(self).data_views(), old(self).entry_views()[k]),
    {
        let ghost es = self.entry_views();
        let ghost fd = self.data_views();
        let n = self.entries.len();
        if n as u64 > 0xFFFF_FFFFu64 {
            return Err(Error::CapacityExceeded);
        }
        let mut bodies: Vec<Vec<u8>> = Vec::new();
        let mut i: usize = 0;
        proof { assert(bodies@.map_values(|b: Vec<u8>| b@) =~= seq![]); }
        while i < n
            invariant
                self.wf(),
                *self == *old(self),
                es == self.entry_views(),
                fd == self.data_views(),
                n == es.len(),
                n <= 0xFFFF_FFFF,
                i <= n,
                packed_bodies(source@, fd, es, i as nat) == Ok::<Seq<Seq<u8>>, Error>(bodies@.map_values(|b: Vec<u8>| b@)),
                forall|t: int|
                    0 <= t < i ==> zlib_decoded(zlib_encoded(#[trigger] data_for(source@, fd, es[t])->Ok_0)) == Some(
                        data_for(source@, fd, es[t])->Ok_0,
                    ),
            decreases n - i,
        {
            assert(es[i as int] == self.entries@[i as int]@);
            let d = match self.data_for_entry(source, &self.entries[i]) {
                Ok(d) => d,
                Err(x) => {
                    proof { lemma_packed_err(source@, fd, es, (i + 1) as nat, n as nat); }
                    return Err(x);
                },
            };
            let c = zlib_compress(d.as_slice())?;
            assert(d@ == data_for(source@, fd, es[i as int])->Ok_0);
            let ghost before = bodies@;
            bodies.push(c);
            proof {
                assert(bodies@.map_values(|b: Vec<u8>| b@) =~= before.map_values(|b: Vec<u8>| b@).push(c@));
            }
            i = i + 1;
        }
        let ghost bs = bodies@.map_values(|b: Vec<u8>| b@);
        proof { lemma_packed_len(source@, fd, es, n as nat); }
        let mut start: u64 = 64;
        let mut k: usize = 0;
        while k < n
            invariant
                self.wf(),
                *self == *old(self),
                es == self.entry_views(),
                n == es.len(),
                n <= 0xFFFF_FFFF,
                k <= n,
                start == 64 + table_size(es.subrange(0, k as int)),
                start <= 64 + 288 * k,
            decreases n - k,
        {
            assert(es[k as int] == self.entries@[k as int]@);
            start = start + 33 + self.entries[k].filename.len() as u64;
            assert(es.subrange(0, k + 1).drop_last() =~= es.subrange(0, k as int));
            k = k + 1;
        }
        assert(es.subrange(0, n as int) =~= es);
        let mut laid: Vec<BeamEntry> = Vec::new();
        let mut off: u64 = start;
        let mut j: usize = 0;
        proof { assert(beam_views(laid@) =~= seq![]); }
        while j < n
            invariant
                self.wf(),
                *self == *old(self),
                es == self.entry_views(),
                n == es.len(),
                bs == bodies@.map_values(|b: Vec<u8>| b@),
                bs.len() == n,
                n <= 0xFFFF_FFFF,
                packed_bodies(source@, self.data_views(), es, n as nat) == Ok::<Seq<Seq<u8>>, Error>(bs),
                start == 64 + table_size(es),
                j <= n,
                laid@.len() == j,
                laid_out(es, bs, j as nat, start as int) == Ok::<(Seq<BeamEntryView>, int), Error>((beam_views(laid@), off as int)),
                forall|t: int| 0 <= t < j ==> (#[trigger] laid@[t]).filename@ == es[t].name && laid@[t].md5_hash@ == es[t].md5,
            decreases n - j,
        {
            let b = &bodies[j];
            assert(b@ == bs[j as int]);
            if b.len() as u64 > 0xFFFF_FFFFu64 || b.len() as u64 > 0xFFFF_FFFF_FFFF_FFFFu64 - off {
                proof { lemma_laid_err(es, bs, (j + 1) as nat, n as nat, start as int); }
                return Err(Error::CapacityExceeded);
            }
            let e = &self.entries[j];
            assert(es[j as int] == e@);
            let ne = BeamEntry {
                filename: vstd::slice::slice_to_vec(e.filename.as_slice()),
                md5_hash: e.md5_hash,
                compressed_size: b.len() as u32,
                uncompressed_size: e.uncompressed_size,
                offset: off,
            };
            let ghost before = laid@;
            laid.push(ne);
            proof {
                assert(beam_views(laid@) =~= beam_views(before).push(ne@));
            }
            off = off + b.len() as u64;
            j = j + 1;
        }
        let mut img: Vec<u8> = vec![0x42u8, 0x45, 0x41, 0x4d];
        write_u32_le(&mut img, self.version);
        write_u32_le(&mut img, n as u32);
        let mut z: usize = 0;
        while z < 52
            invariant
                z <= 52,
                n <= 0xFFFF_FFFF,
                img@ == beam_magic() + le32(self.version) + le32(n as u32) + Seq::new(z as nat, |i: int| 0u8),
            decreases 52 - z,
        {
            img.push(0);
            z = z + 1;
            assert(img@ =~= beam_magic() + le32(self.version) + le32(n as u32) + Seq::new(z as nat, |i: int| 0u8));
        }
        let ghost lv = beam_views(laid@);
        let mut t: usize = 0;
        while t < n
            invariant
                t <= n,
                n <= 0xFFFF_FFFF,
                laid@.len() == n,
                lv == beam_views(laid@),
                img@ == beam_header(self.version, n as u32) + beam_table_bytes(lv.subrange(0, t as int)),
                forall|u: int| 0 <= u < n ==> (#[trigger] laid@[u]).filename@.len() <= MAX_NAME_LEN,
            decreases n - t,
        {
            let e = &laid[t];
            let ghost before = img@;
            img.push(e.filename.len() as u8);
            append_bytes(&mut img, e.filename.as_slice());
            append_bytes(&mut img, e.md5_hash.as_slice());
            write_u32_le(&mut img, e.compressed_size);
            write_u32_le(&mut img, e.uncompressed_size);
            write_u64_le(&mut img, e.offset);
            proof {
                assert(lv[t as int] == e@);
                assert(img@ =~= before + beam_record_bytes(e@));
                assert(lv.subrange(0, t + 1).drop_last() =~= lv.subrange(0, t as int));
            }
            t = t + 1;
        }
        assert(lv.subrange(0, n as int) =~= lv);
        let ghost head = img@;
        let mut q: usize = 0;
        while q < n
            invariant
                q <= n,
                bs == bodies@.map_values(|b: Vec<u8>| b@),
                bs.len() == n,
                img@ == head + concat(bs.subrange(0, q as int)),
            decreases n - q,
        {
            let ghost before = img@;
            append_bytes(&mut img, bodies[q].as_slice());
            proof {
                assert(bs[q as int] == bodies@[q as int]@);
                assert(bs.subrange(0, q + 1).drop_last() =~= bs.subrange(0, q as int));
                assert(img@ =~= head + concat(bs.subrange(0, q + 1)));
            }
            q = q + 1;
        }
        assert(bs.subrange(0, n as int) =~= bs);
        proof {
            assert forall|u: int| 0 <= u < laid@.len() implies (#[trigger] laid@[u]).filename@.len() <= MAX_NAME_LEN by {
                assert(laid@[u].filename@ == es[u].name);
                assert(es[u] == self.entries@[u]@);
            }
            assert forall|a: int, b: int|
                0 <= a < lv.len() && 0 <= b < lv.len() && a != b implies #[trigger] lv[a].name != #[trigger] lv[b].name by {
                assert(lv[a].name == laid@[a].filename@);
                assert(lv[b].name == laid@[b].filename@);
            }
        }
        proof {
            assert forall|u: int| 0 <= u < es.len() implies (#[trigger] es[u]).name.len() <= MAX_NAME_LEN && es[u].md5.len() == 16 by {
                assert(es[u] == old(self).entries@[u]@);
            }
            assert(es == old(self).entry_views());
            assert(fd == old(self).data_views());
            assert(old(self).wf());
            assert forall|nm: Seq<u8>|
                #[trigger] beam_map(es).contains_key(nm) && pmap(fd).contains_key(nm) implies beam_map(es)[nm].md5 == md5_of(
                    pmap(fd)[nm],
                ) by {
                assert(old(self).entries_map().contains_key(nm));
            }
            lemma_beam_saved_laws(self.version, source@, fd, es, img@, lv);
            assert forall|u: int| 0 <= u < lv.len() implies (#[trigger] lv[u]).name == es[u].name && lv[u].md5 == es[u].md5 by {
                assert(lv[u] == laid@[u]@);
            }
            lemma_beam_map_same_md5(lv, es);
        }
        self.entries = laid;
        proof {
            assert(self.entry_views() == lv);
            assert forall|nm: Seq<u8>|
                #[trigger] self.entries_map().contains_key(nm) && pmap(self.data_views()).contains_key(nm) implies self.entries_map()[nm].md5
                    == md5_of(pmap(self.data_views())[nm]) by {
                assert(beam_map(es).contains_key(nm));
                assert(old(self).entries_map().contains_key(nm));
            }
        }
        Ok(img)
    }

    /// Opens an archive from its image: reads the header and the records.
    pub fn open(image: &[u8]) -> (r: Result<BeamArchive, Error>)
        ensures
            match beam_image(image@) {
                Ok((v, m)) => r is Ok && r->Ok_0.wf() && r->Ok_0.version == v && r->Ok_0.entries_map() == m
                    && r->Ok_0.file_data@.len() == 0,
                Err(e) => r == Err::<BeamArchive, Error>(e),
            },
            r is Ok ==> r->Ok_0.entry_views() == beam_keyed_seq(beam_records_of(image@)->Ok_0.1),
    {
        if image.len() < BEAM_HEADER_SIZE {
            return Err(Error::InvalidHeader);
        }
        let magic: [u8; 4] = [0x42, 0x45, 0x41, 0x4d];
        assert(magic@ =~= beam_magic());
        if !crate::cursor::bytes_eq(vstd::slice::slice_subrange(image, 0, 4), magic.as_slice()) {
            return Err(Error::InvalidHeader);
        }
        let version = read_u32_le(image, 4)?;
        let count = read_u32_le(image, 8)?;
        let entries = parse_beam_records(image, count)?;
        let r = BeamArchive { version, entries, file_data: Vec::new() };
        assert(r.data_views() =~= seq![]);
        Ok(r)
    }

    /// The names in the archive.
    pub fn list_files(&self) -> (r: Vec<Vec<u8>>)
        ensures
            r@.map_values(|v: Vec<u8>| v@) == self.entry_views().map_values(|e: BeamEntryView| e.name),
    {
        let mut r: Vec<Vec<u8>> = Vec::new();
        let mut i: usize = 0;
        let ghost names = self.entry_views().map_values(|e: BeamEntryView| e.name);
        while i < self.entries.len()
            invariant
                names == self.entry_views().map_values(|e: BeamEntryView| e.name),
                i <= self.entries@.len(),
                r@.map_values(|v: Vec<u8>| v@) == names.subrange(0, i as int),
            decreases self.entries@.len() - i,
        {
            let ghost before = r@;
            let name = vstd::slice::slice_to_vec(self.entries[i].filename.as_slice());
            assert(name@ == names[i as int]);
            r.push(name);
            proof {
                assert(r@ == before.push(name));
                assert(r@.map_values(|v: Vec<u8>| v@) =~= before.map_values(|v: Vec<u8>| v@).push(name@));
            }
            i = i + 1;
            assert(r@.map_values(|v: Vec<u8>| v@) =~= names.subrange(0, i as int));
        }
        assert(names.subrange(0, i as int) =~= names);
        r
    }

    /// The record named `filename`, if any.
    pub fn get_entry(&self, filename: &[u8]) -> (r: Option<&BeamEntry>)
        requires
            self.wf(),
        ensures
            match r {
                Some(e) => self.entries_map().contains_key(filename@) && e@ == self.entries_map()[filename@],
                None => !self.entries_map().contains_key(filename@),
            },
    {
        proof { lemma_beam_map_dom(self.entry_views(), filename@); }
        match find_beam_entry(&self.entries, filename) {
            Some(i) => {
                proof {
                    assert(self.entry_views()[i as int] == self.entries@[i as int]@);
                    lemma_beam_map_index(self.entry_views(), i as int);
                }
                Some(&self.entries[i])
            },
            None => {
                proof {
                    assert forall|j: int| 0 <= j < self.entry_views().len() implies self.entry_views()[j].name != filename@ by {
                        assert(self.entry_views()[j] == self.entries@[j]@);
                    }
                }
                None
            },
        }
    }

    /// The payload of `filename`, read from `image` (the bytes the archive
    /// was opened from), inflated and checked against its MD5.
    pub fn extract_file(&self, image: &[u8], filename: &[u8]) -> (r: Result<Vec<u8>, Error>)
        requires
            self.wf(),
        ensures
            match beam_extract(image@, self.entries_map(), filename@) {
                Ok(d) => r is Ok && r->Ok_0@ == d,
                Err(e) => r == Err::<Vec<u8>, Error>(e),
            },
    {
        match self.get_entry(filename) {
            None => Err(Error::FileNotFound),
            Some(e) => beam_entry_payload(image, e),
        }
    }

    /// Whether the payload of `filename` matches its MD5: `Ok(false)` on a
    /// mismatch, the extraction error on any other failure.
    pub fn verify_file(&self, image: &[u8], filename: &[u8]) -> (r: Result<bool, Error>)
        requires
            self.wf(),
        ensures
            match beam_extract(image@, self.entries_map(), filename@) {
                Ok(_) => r == Ok::<bool, Error>(true),
                Err(Error::ChecksumMismatch) => r == Ok::<bool, Error>(false),
                Err(e) => r == Err::<bool, Error>(e),
            },
    {
        match self.extract_file(image, filename) {
            Ok(_) => Ok(true),
            Err(Error::ChecksumMismatch) => Ok(false),
            Err(e) => Err(e),
        }
    }
}

/// The record that `add_file` makes for `data` under `name`.
pub open spec fn added_entry(name: Seq<u8>, data: Seq<u8>) -> BeamEntryView {
    BeamEntryView {
        name,
        md5: md5_of(data),
        compressed_size: zlib_encoded(data).len() as u32,
        uncompressed_size: data.len() as u32,
        offset: 0,
    }
}

proof fn lemma_packed_err(source: Seq<u8>, fd: Seq<(Seq<u8>, Seq<u8>)>, es: Seq<BeamEntryView>, k: nat, n: nat)
    requires
        k <= n,
        packed_bodies(source, fd, es, k) is Err,
    ensures
        packed_bodies(source, fd, es, n) == packed_bodies(source, fd, es, k),
    decreases n,
{
    if n > k {
        lemma_packed_err(source, fd, es, k, (n - 1) as nat);
    }
}

proof fn lemma_packed_len(source: Seq<u8>, fd: Seq<(Seq<u8>, Seq<u8>)>, es: Seq<BeamEntryView>, n: nat)
    ensures
        packed_bodies(source, fd, es, n) is Ok ==> packed_bodies(source, fd, es, n)->Ok_0.len() == n,
    decreases n,
{
    if n > 0 {
        lemma_packed_len(source, fd, es, (n - 1) as nat);
    }
}

proof fn lemma_laid_err(es: Seq<BeamEntryView>, bs: Seq<Seq<u8>>, k: nat, n: nat, start: int)
    requires
        k <= n,
        laid_out(es, bs, k, start) is Err,
    ensures
        laid_out(es, bs, n, start) == laid_out(es, bs, k, start),
    decreases n,
{
    if n > k {
        lemma_laid_err(es, bs, k, (n - 1) as nat, start);
    }
}

proof fn lemma_beam_map_same_md5(a: Seq<BeamEntryView>, b: Seq<BeamEntryView>)
    requires
        a.len() == b.len(),
        forall|k: int| 0 <= k < a.len() ==> (#[trigger] a[k]).name == b[k].name && a[k].md5 == b[k].md5,
    ensures
        forall|n: Seq<u8>|
            #[trigger] beam_map(a).contains_key(n) == beam_map(b).contains_key(n) && (beam_map(a).contains_key(n)
                ==> beam_map(a)[n].md5 == beam_map(b)[n].md5),
    decreases a.len(),
{
    if a.len() > 0 {
        let da = a.drop_last();
        let db = b.drop_last();
        assert forall|k: int| 0 <= k < da.len() implies (#[trigger] da[k]).name == db[k].name && da[k].md5 == db[k].md5 by {
            assert(da[k] == a[k] && db[k] == b[k]);
        }
        lemma_beam_map_same_md5(da, db);
        assert(a.last() == a[a.len() - 1] && b.last() == b[b.len() - 1]);
        assert forall|n: Seq<u8>|
            #[trigger] beam_map(a).contains_key(n) == beam_map(b).contains_key(n) && (beam_map(a).contains_key(n)
                ==> beam_map(a)[n].md5 == beam_map(b)[n].md5) by {
            if n != a.last().name {
                assert(beam_map(da).contains_key(n) == beam_map(db).contains_key(n));
            }
        }
    }
}

proof fn lemma_beam_table_front(e: BeamEntryView, rest: Seq<BeamEntryView>)
    ensures
        beam_table_bytes(seq![e] + rest) == beam_record_bytes(e) + beam_table_bytes(rest),
    decreases rest.len(),
{
    let s = seq![e] + rest;
    assert(beam_table_bytes(s) == beam_table_bytes(s.drop_last()) + beam_record_bytes(s.last()));
    if rest.len() == 0 {
        assert(s.drop_last() =~= Seq::<BeamEntryView>::empty());
        assert(beam_record_bytes(e) + Seq::<u8>::empty() =~= beam_record_bytes(e));
        assert(Seq::<u8>::empty() + beam_record_bytes(e) =~= beam_record_bytes(e));
    } else {
        assert(s.drop_last() =~= seq![e] + rest.drop_last());
        lemma_beam_table_front(e, rest.drop_last());
        assert(s.last() == rest.last());
        assert(beam_table_bytes(rest) == beam_table_bytes(rest.drop_last()) + beam_record_bytes(rest.last()));
        assert(beam_record_bytes(e) + beam_table_bytes(rest.drop_last()) + beam_record_bytes(rest.last())
            =~= beam_record_bytes(e) + (beam_table_bytes(rest.drop_last()) + beam_record_bytes(rest.last())));
    }
}

/// Records that fit the format: names of at most 255 bytes, 16-byte digests.
pub open spec fn records_fit(es: Seq<BeamEntryView>) -> bool {
    forall|k: int| 0 <= k < es.len() ==> (#[trigger] es[k]).name.len() <= MAX_NAME_LEN && es[k].md5.len() == 16
}

proof fn lemma_beam_table_len(es: Seq<BeamEntryView>)
    requires
        records_fit(es),
    ensures
        beam_table_bytes(es).len() == table_size(es),
    decreases es.len(),
{
    if es.len() > 0 {
        lemma_auto_spec_u32_to_from_le_bytes();
        lemma_auto_spec_u64_to_from_le_bytes();
        assert(records_fit(es.drop_last())) by {
            assert forall|k: int| 0 <= k < es.drop_last().len() implies (#[trigger] es.drop_last()[k]).name.len() <= MAX_NAME_LEN
                && es.drop_last()[k].md5.len() == 16 by {
                assert(es.drop_last()[k] == es[k]);
            }
        }
        lemma_beam_table_len(es.drop_last());
        assert(es.last() == es[es.len() - 1]);
    }
}

/// Records written by `beam_table_bytes` read back, whatever follows them.
proof fn lemma_beam_table_round_trip(es: Seq<BeamEntryView>, tail: Seq<u8>, base: int)
    requires
        records_fit(es),
    ensures
        beam_records(beam_table_bytes(es) + tail, base, es.len()) == Ok::<Seq<BeamEntryView>, Error>(es),
    decreases es.len(),
{
    lemma_auto_spec_u32_to_from_le_bytes();
    lemma_auto_spec_u64_to_from_le_bytes();
    if es.len() == 0 {
        assert(es =~= Seq::<BeamEntryView>::empty());
    } else {
        let e = es[0];
        let rest = es.drop_first();
        assert(es =~= seq![e] + rest);
        lemma_beam_table_front(e, rest);
        assert(records_fit(rest)) by {
            assert forall|k: int| 0 <= k < rest.len() implies (#[trigger] rest[k]).name.len() <= MAX_NAME_LEN
                && rest[k].md5.len() == 16 by {
                assert(rest[k] == es[k + 1]);
            }
        }
        let n = e.name.len() as int;
        lemma_beam_table_round_trip(rest, tail, base + 33 + n);
        let r = beam_record_bytes(e);
        let s = r + beam_table_bytes(rest) + tail;
        assert(beam_table_bytes(es) + tail =~= s);
        assert(r.len() == 33 + n);
        assert(s[0] == n as u8);
        assert((n as u8) as int == n);
        assert(s.subrange(1, 1 + n) =~= e.name);
        assert(s.subrange(1 + n, 17 + n) =~= e.md5);
        assert(s.subrange(17 + n, 21 + n) =~= le32(e.compressed_size));
        assert(s.subrange(21 + n, 25 + n) =~= le32(e.uncompressed_size));
        assert(s.subrange(25 + n, 33 + n) =~= le64(e.offset));
        assert(s.subrange(33 + n, s.len() as int) =~= beam_table_bytes(rest) + tail);
        assert(rest.len() == (es.len() - 1) as nat);
    }
}

proof fn lemma_concat_prefix(bs: Seq<Seq<u8>>, j: int)
    requires
        0 <= j <= bs.len(),
    ensures
        concat(bs.subrange(0, j)).len() <= concat(bs).len(),
        concat(bs).subrange(0, concat(bs.subrange(0, j)).len() as int) == concat(bs.subrange(0, j)),
    decreases bs.len(),
{
    if j == bs.len() {
        assert(bs.subrange(0, j) =~= bs);
        assert(concat(bs).subrange(0, concat(bs).len() as int) =~= concat(bs));
    } else {
        let d = bs.drop_last();
        assert(bs.subrange(0, j) =~= d.subrange(0, j));
        lemma_concat_prefix(d, j);
        assert(concat(bs) == concat(d) + bs.last());
        assert(concat(bs).subrange(0, concat(bs.subrange(0, j)).len() as int) =~= concat(d).subrange(
            0,
            concat(d.subrange(0, j)).len() as int,
        ));
    }
}

/// Body `k` stands in `concat(bs)` after the bodies before it.
proof fn lemma_concat_at(bs: Seq<Seq<u8>>, k: int)
    requires
        0 <= k < bs.len(),
    ensures
        concat(bs.subrange(0, k + 1)) == concat(bs.subrange(0, k)) + bs[k],
        concat(bs.subrange(0, k + 1)).len() <= concat(bs).len(),
        concat(bs).subrange(concat(bs.subrange(0, k)).len() as int, concat(bs.subrange(0, k + 1)).len() as int) == bs[k],
{
    assert(bs.subrange(0, k + 1).drop_last() =~= bs.subrange(0, k));
    lemma_concat_prefix(bs, k + 1);
    let p = concat(bs.subrange(0, k)).len() as int;
    let q = concat(bs.subrange(0, k + 1)).len() as int;
    assert(concat(bs).subrange(p, q) =~= concat(bs).subrange(0, q).subrange(p, q));
    assert(concat(bs.subrange(0, k + 1)).subrange(p, q) =~= bs[k]);
}

proof fn lemma_laid_out(es: Seq<BeamEntryView>, bs: Seq<Seq<u8>>, n: nat, start: int)
    requires
        n <= es.len(),
        n <= bs.len(),
        laid_out(es, bs, n, start) is Ok,
    ensures
        laid_out(es, bs, n, start)->Ok_0.0.len() == n,
        laid_out(es, bs, n, start)->Ok_0.1 == start + concat(bs.subrange(0, n as int)).len(),
        forall|k: int|
            0 <= k < n ==> (#[trigger] laid_out(es, bs, n, start)->Ok_0.0[k]) == (BeamEntryView {
                name: es[k].name,
                md5: es[k].md5,
                compressed_size: bs[k].len() as u32,
                uncompressed_size: es[k].uncompressed_size,
                offset: (start + concat(bs.subrange(0, k)).len()) as u64,
            }) && bs[k].len() <= u32::MAX && start + concat(bs.subrange(0, k + 1)).len() <= u64::MAX,
    decreases n,
{
    if n == 0 {
        assert(bs.subrange(0, 0) =~= Seq::<Seq<u8>>::empty());
    } else {
        lemma_laid_out(es, bs, (n - 1) as nat, start);
        let prev = laid_out(es, bs, (n - 1) as nat, start)->Ok_0;
        let st = laid_out(es, bs, n, start)->Ok_0;
        lemma_concat_at(bs, n - 1);
        assert forall|k: int| 0 <= k < n implies (#[trigger] st.0[k]) == (BeamEntryView {
            name: es[k].name,
            md5: es[k].md5,
            compressed_size: bs[k].len() as u32,
            uncompressed_size: es[k].uncompressed_size,
            offset: (start + concat(bs.subrange(0, k)).len()) as u64,
        }) && bs[k].len() <= u32::MAX && start + concat(bs.subrange(0, k + 1)).len() <= u64::MAX by {
            if k < n - 1 {
                assert(st.0[k] == prev.0[k]);
            }
        }
    }
}

proof fn lemma_packed_facts(source: Seq<u8>, fd: Seq<(Seq<u8>, Seq<u8>)>, es: Seq<BeamEntryView>, n: nat)
    requires
        n <= es.len(),
        packed_bodies(source, fd, es, n) is Ok,
    ensures
        packed_bodies(source, fd, es, n)->Ok_0.len() == n,
        forall|k: int|
            0 <= k < n ==> (#[trigger] data_for(source, fd, es[k])) is Ok && packed_bodies(source, fd, es, n)->Ok_0[k]
                == zlib_encoded(data_for(source, fd, es[k])->Ok_0),
    decreases n,
{
    if n > 0 {
        lemma_packed_facts(source, fd, es, (n - 1) as nat);
        let prev = packed_bodies(source, fd, es, (n - 1) as nat)->Ok_0;
        let cur = packed_bodies(source, fd, es, n)->Ok_0;
        assert forall|k: int| 0 <= k < n implies (#[trigger] data_for(source, fd, es[k])) is Ok && cur[k] == zlib_encoded(
            data_for(source, fd, es[k])->Ok_0,
        ) by {
            if k < n - 1 {
                assert(cur[k] == prev[k]);
            }
        }
    }
}

proof fn lemma_table_size_same(a: Seq<BeamEntryView>, b: Seq<BeamEntryView>)
    requires
        a.len() == b.len(),
        forall|k: int| 0 <= k < a.len() ==> (#[trigger] a[k]).name == b[k].name,
    ensures
        table_size(a) == table_size(b),
    decreases a.len(),
{
    if a.len() > 0 {
        assert forall|k: int| 0 <= k < a.drop_last().len() implies (#[trigger] a.drop_last()[k]).name == b.drop_last()[k].name by {
            assert(a.drop_last()[k] == a[k] && b.drop_last()[k] == b[k]);
        }
        lemma_table_size_same(a.drop_last(), b.drop_last());
        assert(a.last() == a[a.len() - 1] && b.last() == b[b.len() - 1]);
    }
}

/// What a successful `save` guarantees: the image opens with the saved
/// records, and each name extracts, checked against its MD5, to the data
/// stored for it.
proof fn lemma_beam_saved_laws(
    version: u32,
    source: Seq<u8>,
    fd: Seq<(Seq<u8>, Seq<u8>)>,
    es: Seq<BeamEntryView>,
    img: Seq<u8>,
    laid: Seq<BeamEntryView>,
)
    requires
        unique_beam_names(es),
        records_fit(es),
        forall|n: Seq<u8>|
            #[trigger] beam_map(es).contains_key(n) && pmap(fd).contains_key(n) ==> beam_map(es)[n].md5 == md5_of(pmap(fd)[n]),
        beam_saved(version, source, fd, es) == Ok::<(Seq<u8>, Seq<BeamEntryView>), Error>((img, laid)),
        forall|k: int|
            0 <= k < es.len() ==> zlib_decoded(zlib_encoded(#[trigger] data_for(source, fd, es[k])->Ok_0)) == Some(
                data_for(source, fd, es[k])->Ok_0,
            ),
    ensures
        beam_image(img) == Ok::<(u32, Map<Seq<u8>, BeamEntryView>), Error>((version, beam_map(laid))),
        forall|k: int|
            0 <= k < es.len() ==> beam_extract(img, beam_map(laid), (#[trigger] es[k]).name) == data_for(source, fd, es[k]),
{
    lemma_auto_spec_u32_to_from_le_bytes();
    let n = es.len();
    lemma_packed_facts(source, fd, es, n);
    let bs = packed_bodies(source, fd, es, n)->Ok_0;
    let start = 64 + table_size(es);
    lemma_laid_out(es, bs, n, start);
    let st = laid_out(es, bs, n, start)->Ok_0;
    assert(st.0 == laid);
    assert forall|k: int| 0 <= k < laid.len() implies (#[trigger] laid[k]).name.len() <= MAX_NAME_LEN && laid[k].md5.len() == 16 by {
        assert(laid[k].name == es[k].name);
    }
    assert(records_fit(laid));
    assert forall|a: int, b: int|
        0 <= a < laid.len() && 0 <= b < laid.len() && a != b implies #[trigger] laid[a].name != #[trigger] laid[b].name by {
        assert(laid[a].name == es[a].name && laid[b].name == es[b].name);
    }
    lemma_table_size_same(laid, es);
    lemma_beam_table_len(laid);
    let h = beam_header(version, n as u32);
    let t = beam_table_bytes(laid);
    let c = concat(bs);
    assert(img == h + t + c);
    assert(h.len() == 64);
    assert(img.subrange(0, 4) =~= beam_magic());
    assert(img.subrange(4, 8) =~= le32(version));
    assert(img.subrange(8, 12) =~= le32(n as u32));
    assert(img.subrange(64, img.len() as int) =~= t + c);
    lemma_beam_table_round_trip(laid, c, 64);
    assert(bs.subrange(0, n as int) =~= bs);
    assert forall|k: int| 0 <= k < es.len() implies beam_extract(img, beam_map(laid), (#[trigger] es[k]).name) == data_for(
        source,
        fd,
        es[k],
    ) by {
        lemma_beam_map_index(laid, k);
        lemma_beam_map_index(es, k);
        lemma_concat_at(bs, k);
        let e = laid[k];
        let p = concat(bs.subrange(0, k)).len() as int;
        let q = concat(bs.subrange(0, k + 1)).len() as int;
        assert(e.offset == start + p);
        assert(img.subrange(e.offset as int, e.offset + e.compressed_size) =~= c.subrange(p, q));
        let d = data_for(source, fd, es[k])->Ok_0;
        if pmap(fd).contains_key(es[k].name) {
            assert(beam_map(es).contains_key(es[k].name));
        }
    }
}

/// A record whose stored digest is changed (a flipped bit, say) while its
/// body stays the same no longer extracts: it fails with
/// `ChecksumMismatch`.
pub proof fn lemma_changed_digest_is_refused(img: Seq<u8>, e: BeamEntryView, md5: Seq<u8>)
    requires
        beam_payload(img, e) is Ok,
        md5 != e.md5,
    ensures
        beam_payload(
            img,
            BeamEntryView {
                name: e.name,
                md5,
                compressed_size: e.compressed_size,
                uncompressed_size: e.uncompressed_size,
                offset: e.offset,
            },
        ) == Err::<Seq<u8>, Error>(Error::ChecksumMismatch),
{
}

/// The payload of record `e` of `image`, checked against its MD5.
pub fn beam_entry_payload(image: &[u8], e: &BeamEntry) -> (r: Result<Vec<u8>, Error>)
    ensures
        match beam_payload(image@, e@) {
            Ok(d) => r is Ok && r->Ok_0@ == d,
            Err(x) => r == Err::<Vec<u8>, Error>(x),
        },
{
    if (image.len() as u64) < e.offset || image.len() as u64 - e.offset < e.compressed_size as u64 {
        return Err(Error::MalformedArchive(e.offset));
    }
    let from = e.offset as usize;
    let raw = vstd::slice::slice_subrange(image, from, from + e.compressed_size as usize);
    let d = zlib_decompress(raw)?;
    let sum = md5_digest(d.as_slice());
    if !crate::cursor::bytes_eq(sum.as_slice(), e.md5_hash.as_slice()) {
        return Err(Error::ChecksumMismatch);
    }
    Ok(d)
}

proof fn lemma_beam_prefixed_step(acc: Seq<BeamEntryView>, e: BeamEntryView, r: Result<Seq<BeamEntryView>, Error>)
    ensures
        beam_prefixed(acc, beam_prefixed(seq![e], r)) == beam_prefixed(acc.push(e), r),
{
    match r {
        Ok(rest) => {
            assert(acc + (seq![e] + rest) =~= acc.push(e) + rest);
        },
        Err(_) => {},
    }
}

/// Reads the `count` records that start at offset 64 of `img`.
fn parse_beam_records(img: &[u8], count: u32) -> (r: Result<Vec<BeamEntry>, Error>)
    requires
        img@.len() >= 64,
    ensures
        match beam_records(img@.subrange(64, img@.len() as int), 64, count as nat) {
            Ok(recs) => r is Ok && unique_beam_names(beam_views(r->Ok_0@)) && beam_map(beam_views(r->Ok_0@))
                == beam_map(recs) && beam_views(r->Ok_0@) == beam_keyed_seq(recs) && forall|i: int|
                0 <= i < r->Ok_0@.len() ==> (#[trigger] r->Ok_0@[i]).filename@.len() <= MAX_NAME_LEN,
            Err(e) => r == Err::<Vec<BeamEntry>, Error>(e),
        },
{
    let len = img.len();
    let mut entries: Vec<BeamEntry> = Vec::new();
    let mut pos: usize = 64;
    let mut k: u32 = 0;
    let ghost mut acc: Seq<BeamEntryView> = seq![];
    let ghost whole = img@.subrange(64, len as int);
    proof {
        match beam_records(whole, 64, count as nat) {
            Ok(rest) => { assert(Seq::<BeamEntryView>::empty() + rest =~= rest); }
            Err(_) => {}
        }
        assert(beam_views(entries@) =~= seq![]);
    }
    while k < count
        invariant
            len == img@.len(),
            64 <= pos <= len,
            k <= count,
            whole == img@.subrange(64, len as int),
            beam_records(whole, 64, count as nat) == beam_prefixed(
                acc,
                beam_records(img@.subrange(pos as int, len as int), pos as int, (count - k) as nat),
            ),
            unique_beam_names(beam_views(entries@)),
            beam_map(beam_views(entries@)) == beam_map(acc),
            beam_views(entries@) == beam_keyed_seq(acc),
            forall|i: int| 0 <= i < entries@.len() ==> (#[trigger] entries@[i]).filename@.len() <= MAX_NAME_LEN,
        decreases count - k,
    {
        let ghost s = img@.subrange(pos as int, len as int);
        let n = read_u8(img, pos)? as usize;
        let name = read_bytes(img, pos + 1, n)?;
        let p = pos + 1 + n;
        if len - p < 32 {
            return Err(Error::MalformedArchive(p as u64));
        }
        let sum = read_bytes(img, p, 16)?;
        let mut md5_hash: [u8; 16] = [0; 16];
        let mut t: usize = 0;
        while t < 16
            invariant
                t <= 16,
                sum@.len() == 16,
                md5_hash@.len() == 16,
                forall|j: int| 0 <= j < t ==> md5_hash@[j] == sum@[j],
            decreases 16 - t,
        {
            md5_hash[t] = sum[t];
            t = t + 1;
        }
        let csize = read_u32_le(img, p + 16)?;
        let usize_ = read_u32_le(img, p + 20)?;
        let offset = read_u64_le(img, p + 24)?;
        let ghost q = (1 + n) as int;
        proof {
            assert(md5_hash@ =~= sum@);
            assert(name@ =~= s.subrange(1, q));
            assert(sum@ =~= s.subrange(q, q + 16));
            assert(img@.subrange(p + 16, p + 20) =~= s.subrange(q + 16, q + 20));
            assert(img@.subrange(p + 20, p + 24) =~= s.subrange(q + 20, q + 24));
            assert(img@.subrange(p + 24, p + 32) =~= s.subrange(q + 24, q + 32));
        }
        let e = BeamEntry { filename: name, md5_hash, compressed_size: csize, uncompressed_size: usize_, offset };
        let ghost ev = e@;
        beam_upsert(&mut entries, e);
        pos = p + 32;
        k = k + 1;
        proof {
            assert(s.subrange(q + 32, s.len() as int) =~= img@.subrange(pos as int, len as int));
            lemma_beam_prefixed_step(acc, ev, beam_records(img@.subrange(pos as int, len as int), pos as int, (count - k) as nat));
            assert(acc.push(ev).drop_last() =~= acc);
            acc = acc.push(ev);
        }
    }
    proof {
        assert(acc + Seq::<BeamEntryView>::empty() =~= acc);
    }
    Ok(entries)
}

} // verus!
