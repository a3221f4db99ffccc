use vstd::prelude::*;
use crate::compress::{zlib_decoded, zlib_decompress, zlib_encoded, zlib_compress};
use crate::cursor::{append_bytes, le32, read_u32_le, u32_at, write_u32_le};
use vstd::bytes::lemma_auto_spec_u32_to_from_le_bytes;
use crate::error::Error;
use crate::grf_table::{
    EntryView, GrfEntry, as_map, find_entry, len_records, lemma_as_map_dom, lemma_as_map_index,
    lemma_as_map_len, lemma_table_round_trip, name_ok, keyed_seq, nul_records, parse_len_table, parse_nul_table,
    table_bytes, unique_names, views,
};

verus! {

/// Size of the fixed GRF header; entry offsets count from its end.
pub const GRF_HEADER_SIZE: usize = 46;
pub const GRF_VERSION_0X101: u32 = 0x101;
pub const GRF_VERSION_0X102: u32 = 0x102;
pub const GRF_VERSION_0X103: u32 = 0x103;
pub const GRF_VERSION_0X200: u32 = 0x200;
pub const GRF_VERSION_0X300: u32 = 0x300;
/// Payloads larger than this are offered to the compressor on rebuild.
pub const COMPRESS_THRESHOLD: usize = 1024;
/// Entry flag: the body is a zlib stream.
pub const FLAG_DEFLATED: u8 = 0x01;
/// Entry flags that ask for a cipher.
pub const FLAG_ENCRYPTED: u8 = 0x06;

/// `Master of Magic`.
pub open spec fn grf_magic() -> Seq<u8> {
    seq![0x4du8, 0x61, 0x73, 0x74, 0x65, 0x72, 0x20, 0x6f, 0x66, 0x20, 0x4d, 0x61, 0x67, 0x69, 0x63]
}

/// The obfuscation key written into every new header: bytes 1 to 14.
pub open spec fn header_key() -> Seq<u8> {
    seq![1u8, 2, 3, 4, 5, 6, 7, 8, 9, 10, 11, 12, 13, 14]
}

/// The 46-byte header: magic, separator, key, table offset, seed 0, file
/// count, version.
pub open spec fn header_bytes(table_offset: u32, count: u32, version: u32) -> Seq<u8> {
    grf_magic() + seq![0u8] + header_key() + le32(table_offset) + le32(0) + le32(count) + le32(version)
}

/// The container that `create_new` writes: a 0x200 header with no files,
/// no body and no table.
pub open spec fn new_image() -> Seq<u8> {
    header_bytes(0, 0, GRF_VERSION_0X200)
}

pub open spec fn known_version(v: u32) -> bool {
    v == GRF_VERSION_0X101 || v == GRF_VERSION_0X102 || v == GRF_VERSION_0X103 || v == GRF_VERSION_0X200
        || v == GRF_VERSION_0X300
}

/// The versions whose containers can be rebuilt.
pub open spec fn writable_version(v: u32) -> bool {
    v == GRF_VERSION_0X200 || v == GRF_VERSION_0X300
}

/// The table records of a container of version `v` whose header was read.
pub open spec fn table_of(img: Seq<u8>, v: u32) -> Result<Seq<EntryView>, Error> {
    if v == GRF_VERSION_0X200 {
        let pos = u32_at(img, 30) as int + 46;
        if u32_at(img, 38) == 0 && pos >= img.len() {
            Ok(seq![])
        } else if img.len() < pos + 8 {
            Err(Error::MalformedArchive(pos as u64))
        } else {
            let c = u32_at(img, pos) as int;
            if img.len() < pos + 8 + c {
                Err(Error::MalformedArchive((pos + 8) as u64))
            } else {
                match zlib_decoded(img.subrange(pos + 8, pos + 8 + c)) {
                    None => Err(Error::Decompression),
                    Some(t) => nul_records(t, 0),
                }
            }
        }
    } else if v == GRF_VERSION_0X300 {
        if img.len() < 50 {
            Err(Error::MalformedArchive(46))
        } else if img.len() < 54 {
            Err(Error::MalformedArchive(50))
        } else {
            let pos = u32_at(img, 42) as int + 46;
            let c = u32_at(img, 50) as int;
            if img.len() < pos + c {
                Err(Error::MalformedArchive(pos as u64))
            } else {
                match zlib_decoded(img.subrange(pos, pos + c)) {
                    None => Err(Error::Decompression),
                    Some(t) => nul_records(t, 0),
                }
            }
        }
    } else {
        len_records(img.subrange(46, img.len() as int), 46, u32_at(img, 38) as nat)
    }
}

/// The version of a container image and the records of its table, in
/// table order.
pub open spec fn grf_records(img: Seq<u8>) -> Result<(u32, Seq<EntryView>), Error> {
    if img.len() < 46 || img.subrange(0, 15) != grf_magic() {
        Err(Error::InvalidHeader)
    } else {
        let v = u32_at(img, 42);
        if !known_version(v) {
            Err(Error::UnsupportedVersion(v))
        } else {
            match table_of(img, v) {
                Ok(recs) => Ok((v, recs)),
                Err(e) => Err(e),
            }
        }
    }
}

/// What a container image holds: its version and its name-keyed entries.
pub open spec fn grf_image(img: Seq<u8>) -> Result<(u32, Map<Seq<u8>, EntryView>), Error> {
    match grf_records(img) {
        Ok((v, recs)) => Ok((v, as_map(recs))),
        Err(e) => Err(e),
    }
}

/// The uncompressed contents of entry `e` of image `img`.
pub open spec fn entry_payload(img: Seq<u8>, e: EntryView) -> Result<Seq<u8>, Error> {
    let start = e.offset as int + 46;
    if (e.flags & FLAG_ENCRYPTED) != 0 {
        Err(Error::EncryptedEntry)
    } else if e.compressed_size > e.compressed_size_aligned || img.len() < start
        + e.compressed_size_aligned {
        Err(Error::MalformedArchive(start as u64))
    } else {
        let raw = img.subrange(start, start + e.compressed_size);
        if (e.flags & FLAG_DEFLATED) != 0 {
            match zlib_decoded(raw) {
                Some(d) => Ok(d),
                None => Err(Error::Decompression),
            }
        } else {
            Ok(raw)
        }
    }
}

/// The contents of `name` in image `img` whose table is `entries`.
pub open spec fn extract_spec(img: Seq<u8>, entries: Map<Seq<u8>, EntryView>, name: Seq<u8>) -> Result<Seq<u8>, Error> {
    if !entries.contains_key(name) {
        Err(Error::FileNotFound)
    } else {
        entry_payload(img, entries[name])
    }
}

/// The contents of `name` in a container image, opened afresh.
pub open spec fn extract_from_image(img: Seq<u8>, name: Seq<u8>) -> Result<Seq<u8>, Error> {
    match grf_image(img) {
        Ok((_, entries)) => extract_spec(img, entries, name),
        Err(e) => Err(e),
    }
}

/// A staged write: `filename` is to hold `data` after the next commit.
#[derive(Debug)]
pub struct PendingPatch {
    pub filename: Vec<u8>,
    pub data: Vec<u8>,
}

/// No two staged writes share a name.
pub open spec fn unique_keys(ps: Seq<(Seq<u8>, Seq<u8>)>) -> bool {
    forall|i: int, j: int|
        0 <= i < ps.len() && 0 <= j < ps.len() && i != j ==> #[trigger] ps[i].0 != #[trigger] ps[j].0
}

/// Whether `name` is staged in `ps`.
pub open spec fn is_staged(ps: Seq<(Seq<u8>, Seq<u8>)>, name: Seq<u8>) -> bool {
    exists|i: int| 0 <= i < ps.len() && (#[trigger] ps[i]).0 == name
}

/// A GRF container handle: its version, its file table, and the writes
/// staged for the next commit. The body bytes stay with the caller, who
/// passes the container's image to the calls that read it.
#[derive(Debug)]
pub struct Grf {
    pub version: u32,
    pub entries: Vec<GrfEntry>,
    pub pending: Vec<PendingPatch>,
}

impl Grf {
    /// The file table, in internal order.
    pub open spec fn entry_views(&self) -> Seq<EntryView> {
        views(self.entries@)
    }

    /// The file table, keyed by name.
    pub open spec fn entries_map(&self) -> Map<Seq<u8>, EntryView> {
        as_map(self.entry_views())
    }

    /// The staged writes, as (name, bytes), in internal order.
    pub open spec fn pending_views(&self) -> Seq<(Seq<u8>, Seq<u8>)> {
        pending_views_of(self.pending@)
    }

    /// The staged writes, keyed by name.
    pub open spec fn pending_map(&self) -> Map<Seq<u8>, Seq<u8>> {
        pmap(self.pending_views())
    }

    /// Every name in the table and among the staged writes can be stored
    /// in a NUL-terminated table: not empty, no NUL byte.
    pub open spec fn names_fit(&self) -> bool {
        names_fit_of(self.entry_views(), self.pending_views())
    }

    /// Names are unique in the table and among the staged writes.
    pub open spec fn wf(&self) -> bool {
        unique_names(self.entry_views()) && unique_keys(self.pending_views())
    }

    /// The names of the file table, in internal order.
    pub open spec fn names(&self) -> Seq<Seq<u8>> {
        self.entry_views().map_values(|e: EntryView| e.name)
    }

    /// A new, empty 0x200 container: the handle, and the 46 bytes to write
    /// for it (header only: no files, no body, no table).
    pub fn create_new() -> (r: (Grf, Vec<u8>))
        ensures
            r.0.wf(),
            r.0.version == GRF_VERSION_0X200,
            r.0.entries@.len() == 0,
            r.0.pending@.len() == 0,
            r.1@ == new_image(),
    {
        let g = Grf { version: GRF_VERSION_0X200, entries: Vec::new(), pending: Vec::new() };
        assert(g.entry_views() =~= seq![]);
        assert(g.pending_views() =~= seq![]);
        (g, header(0, 0, GRF_VERSION_0X200))
    }

    /// A readable label for a version number.
    pub fn version_name(version: u32) -> (r: &'static str)
        ensures
            r@ == version_label(version),
    {
        if version == GRF_VERSION_0X101 {
            "0x101 (Legacy)"
        } else if version == GRF_VERSION_0X102 {
            "0x102 (Standard Encryption)"
        } else if version == GRF_VERSION_0X103 {
            "0x103 (Enhanced Encryption)"
        } else if version == GRF_VERSION_0X200 {
            "0x200 (Modern Standard)"
        } else if version == GRF_VERSION_0X300 {
            "0x300 (Gepard Shield / Custom Encryption)"
        } else {
            "Unknown"
        }
    }

    /// The table entry named `filename`, if any.
    pub fn get_entry(&self, filename: &[u8]) -> (r: Option<&GrfEntry>)
        requires
            self.wf(),
        ensures
            match r {
                Some(e) => self.entries_map().contains_key(filename@) && e@ == self.entries_map()[filename@],
                None => !self.entries_map().contains_key(filename@),
            },
    {
        proof { lemma_as_map_dom(self.entry_views(), filename@); }
        match find_entry(&self.entries, filename) {
            Some(i) => {
                proof {
                    assert(self.entry_views()[i as int] == self.entries@[i as int]@);
                    lemma_as_map_index(self.entry_views(), i as int);
                }
                Some(&self.entries[i])
            },
            None => {
                proof {
                    assert forall|j: int| 0 <= j < self.entry_views().len() implies self.entry_views()[j].name != filename@ by {
                        assert(self.entry_views()[j] == self.entries@[j]@);
                    }
                }
                None
            },
        }
    }

    /// The uncompressed contents of `filename`, read from `image`, the
    /// bytes of the container this handle was opened from.
    pub fn extract_file(&self, image: &[u8], filename: &[u8]) -> (r: Result<Vec<u8>, Error>)
        requires
            self.wf(),
        ensures
            match extract_spec(image@, self.entries_map(), filename@) {
                Ok(d) => r is Ok && r->Ok_0@ == d,
                Err(e) => r == Err::<Vec<u8>, Error>(e),
            },
    {
        match self.get_entry(filename) {
            None => Err(Error::FileNotFound),
            Some(e) => entry_contents(image, e),
        }
    }

    /// Stages `data` as the new contents of `filename`, replacing what was
    /// staged for it before. Nothing is written until the next commit.
    pub fn patch_file(&mut self, filename: &[u8], data: &[u8]) -> (r: Result<(), Error>)
        requires
            old(self).wf(),
        ensures
            r is Ok,
            final(self).wf(),
            final(self).version == old(self).version,
            final(self).entries == old(self).entries,
            staged_after(old(self).pending_views(), final(self).pending_views(), filename@, data@),
            final(self).pending_map() == old(self).pending_map().insert(filename@, data@),
            final(self).pending_views() == stage_seq(old(self).pending_views(), filename@, data@),
    {
        stage_write(&mut self.pending, filename, data);
        Ok(())
    }

    /// The names of the file table.
    pub fn list_files(&self) -> (r: Vec<Vec<u8>>)
        ensures
            r@.map_values(|v: Vec<u8>| v@) == self.names(),
    {
        let mut r: Vec<Vec<u8>> = Vec::new();
        let mut i: usize = 0;
        while i < self.entries.len()
            invariant
                i <= self.entries@.len(),
                r@.map_values(|v: Vec<u8>| v@) == self.names().subrange(0, i as int),
            decreases self.entries@.len() - i,
        {
            let ghost before = r@;
            let name = vstd::slice::slice_to_vec(self.entries[i].filename.as_slice());
            assert(name@ == self.names()[i as int]);
            r.push(name);
            proof {
                assert(r@ == before.push(name));
                assert(r@.map_values(|v: Vec<u8>| v@) =~= before.map_values(|v: Vec<u8>| v@).push(name@));
            }
            i = i + 1;
            assert(r@.map_values(|v: Vec<u8>| v@) =~= self.names().subrange(0, i as int));
        }
        assert(self.names().subrange(0, i as int) =~= self.names());
        r
    }

    /// The number of files in the table.
    pub fn file_count(&self) -> (r: usize)
        requires
            self.wf(),
        ensures
            r == self.names().len(),
            r == self.entries_map().dom().len(),
    {
        proof { lemma_as_map_len(self.entry_views()); }
        self.entries.len()
    }

    /// Whether `name` is staged.
    fn is_staged_name(&self, name: &[u8]) -> (r: bool)
        ensures
            r == is_staged(self.pending_views(), name@),
    {
        let ghost ps = self.pending_views();
        let mut i: usize = 0;
        while i < self.pending.len()
            invariant
                ps == self.pending_views(),
                i <= ps.len(),
                forall|j: int| 0 <= j < i ==> (#[trigger] ps[j]).0 != name@,
            decreases ps.len() - i,
        {
            if crate::cursor::bytes_eq(self.pending[i].filename.as_slice(), name) {
                assert(ps[i as int].0 == name@);
                return true;
            }
            assert(ps[i as int].0 != name@);
            i = i + 1;
        }
        false
    }

    /// First phase of a rebuild: the existing entries that are not staged,
    /// with their aligned bodies copied from `image`.
    fn copy_existing(&self, image: &[u8]) -> (r: Result<(Vec<u8>, Vec<GrfEntry>), Error>)
        requires
            self.wf(),
        ensures
            match copy_phase(image@, self.entry_views(), self.pending_views(), self.entry_views().len()) {
                Ok(st) => r is Ok && r->Ok_0.0@ == st.0 && views(r->Ok_0.1@) == st.1,
                Err(x) => r == Err::<(Vec<u8>, Vec<GrfEntry>), Error>(x),
            },
            r is Ok ==> r->Ok_0.0@.len() <= 0xFFFF_FFFF,
            r is Ok ==> unique_names(views(r->Ok_0.1@)),
            r is Ok ==> forall|k: int|
                0 <= k < r->Ok_0.1@.len() ==> !is_staged(self.pending_views(), (#[trigger] r->Ok_0.1@[k]).filename@),
    {
        let ghost es = self.entry_views();
        let ghost ps = self.pending_views();
        let mut body: Vec<u8> = Vec::new();
        let mut out: Vec<GrfEntry> = Vec::new();
        let mut i: usize = 0;
        proof {
            assert(views(out@) =~= seq![]);
            assert(body@ =~= seq![]);
        }
        while i < self.entries.len()
            invariant
                self.wf(),
                es == self.entry_views(),
                ps == self.pending_views(),
                i <= es.len(),
                body@.len() <= 0xFFFF_FFFF,
                copy_phase(image@, es, ps, i as nat) == Ok::<(Seq<u8>, Seq<EntryView>), Error>((body@, views(out@))),
                unique_names(views(out@)),
                forall|k: int|
                    0 <= k < out@.len() ==> !is_staged(ps, (#[trigger] out@[k]).filename@) && exists|m: int|
                        0 <= m < i && es[m].name == out@[k].filename@,
            decreases es.len() - i,
        {
            let e = &self.entries[i];
            assert(es[i as int] == e@);
            if !self.is_staged_name(e.filename.as_slice()) {
                let start = e.offset as u64 + 46;
                let aligned = e.compressed_size_aligned as u64;
                if start + aligned > image.len() as u64 {
                    proof { lemma_copy_err(image@, es, ps, (i + 1) as nat, es.len()); }
                    return Err(Error::MalformedArchive(start));
                }
                if body.len() as u64 + aligned > 0xFFFF_FFFFu64 {
                    proof { lemma_copy_err(image@, es, ps, (i + 1) as nat, es.len()); }
                    return Err(Error::CapacityExceeded);
                }
                let off = body.len() as u32;
                let ghost old_out = views(out@);
                let ghost old_raw = out@;
                append_bytes(&mut body, vstd::slice::slice_subrange(image, start as usize, (start + aligned) as usize));
                let ne = GrfEntry {
                    filename: vstd::slice::slice_to_vec(e.filename.as_slice()),
                    compressed_size: e.compressed_size,
                    compressed_size_aligned: e.compressed_size_aligned,
                    uncompressed_size: e.uncompressed_size,
                    flags: e.flags,
                    offset: off,
                };
                out.push(ne);
                proof {
                    assert(views(out@) =~= old_out.push(moved(e@, off)));
                    let nv = views(out@);
                    assert forall|a: int, b: int|
                        0 <= a < nv.len() && 0 <= b < nv.len() && a != b implies #[trigger] nv[a].name != #[trigger] nv[b].name by {
                        if a < old_out.len() && b < old_out.len() {
                            assert(nv[a] == old_out[a] && nv[b] == old_out[b]);
                        } else if a == old_out.len() {
                            assert(nv[b] == old_out[b]);
                            assert(old_raw[b]@ == old_out[b]);
                            let m = choose|m: int| 0 <= m < i && es[m].name == old_raw[b].filename@;
                            assert(es[m].name != es[i as int].name);
                        } else {
                            assert(nv[a] == old_out[a]);
                            assert(old_raw[a]@ == old_out[a]);
                            let m = choose|m: int| 0 <= m < i && es[m].name == old_raw[a].filename@;
                            assert(es[m].name != es[i as int].name);
                        }
                    }
                    assert forall|k: int| 0 <= k < out@.len() implies !is_staged(ps, (#[trigger] out@[k]).filename@)
                        && exists|m: int| 0 <= m < i + 1 && es[m].name == out@[k].filename@ by {
                        if k < old_raw.len() {
                            assert(out@[k] == old_raw[k]);
                        } else {
                            assert(out@[k].filename@ == es[i as int].name);
                        }
                    }
                }
            } else {
                proof {
                    assert forall|k: int| 0 <= k < out@.len() implies !is_staged(ps, (#[trigger] out@[k]).filename@)
                        && exists|m: int| 0 <= m < i + 1 && es[m].name == out@[k].filename@ by {
                        let m = choose|m: int| 0 <= m < i && es[m].name == out@[k].filename@;
                        assert(0 <= m < i + 1);
                    }
                }
            }
            i = i + 1;
        }
        Ok((body, out))
    }

    /// Second phase of a rebuild: each staged write appended to `body`,
    /// compressed where that pays, and padded to a multiple of 8.
    fn add_staged(&self, body0: Vec<u8>, out0: Vec<GrfEntry>) -> (r: Result<(Vec<u8>, Vec<GrfEntry>), Error>)
        requires
            self.wf(),
            body0@.len() <= 0xFFFF_FFFF,
            unique_names(views(out0@)),
            forall|k: int| 0 <= k < out0@.len() ==> !is_staged(self.pending_views(), (#[trigger] out0@[k]).filename@),
        ensures
            match add_phase(self.pending_views(), self.pending_views().len(), (body0@, views(out0@))) {
                Ok(st) => r is Ok && r->Ok_0.0@ == st.0 && views(r->Ok_0.1@) == st.1,
                Err(x) => r == Err::<(Vec<u8>, Vec<GrfEntry>), Error>(x),
            },
            r is Ok ==> unique_names(views(r->Ok_0.1@)),
            r is Ok ==> forall|j: int|
                0 <= j < self.pending_views().len() && (#[trigger] self.pending_views()[j]).1.len() > COMPRESS_THRESHOLD
                    ==> zlib_decoded(zlib_encoded(self.pending_views()[j].1)) == Some(self.pending_views()[j].1),
    {
        let ghost ps = self.pending_views();
        let ghost start = (body0@, views(out0@));
        let ghost n0 = out0@.len();
        let mut body = body0;
        let mut out = out0;
        let mut j: usize = 0;
        while j < self.pending.len()
            invariant
                self.wf(),
                ps == self.pending_views(),
                start == (body0@, views(out0@)),
                j <= ps.len(),
                body@.len() <= 0xFFFF_FFFF,
                n0 <= out@.len(),
                add_phase(ps, j as nat, start) == Ok::<(Seq<u8>, Seq<EntryView>), Error>((body@, views(out@))),
                unique_names(views(out@)),
                forall|k: int| 0 <= k < n0 ==> !is_staged(ps, (#[trigger] out@[k]).filename@),
                forall|k: int| n0 <= k < out@.len() ==> (#[trigger] out@[k]).filename@ == ps[k - n0].0,
                out@.len() == n0 + j,
                forall|m: int|
                    0 <= m < j && (#[trigger] ps[m]).1.len() > COMPRESS_THRESHOLD ==> zlib_decoded(zlib_encoded(ps[m].1))
                        == Some(ps[m].1),
            decreases ps.len() - j,
        {
            let p = &self.pending[j];
            assert(ps[j as int] == (p.filename@, p.data@));
            let d = p.data.as_slice();
            if d.len() as u64 > 0xFFFF_FFFFu64 {
                proof {
                    assert(d@ == ps[j as int].1);
                    assert(add_phase(ps, (j + 1) as nat, start) == Err::<(Seq<u8>, Seq<EntryView>), Error>(Error::CapacityExceeded));
                    lemma_add_err(ps, (j + 1) as nat, ps.len(), start);
                }
                return Err(Error::CapacityExceeded);
            }
            let payload: Vec<u8>;
            let flags: u8;
            if d.len() > COMPRESS_THRESHOLD {
                let c = zlib_compress(d)?;
                if c.len() < d.len() {
                    payload = c;
                    flags = FLAG_DEFLATED;
                } else {
                    payload = vstd::slice::slice_to_vec(d);
                    flags = 0;
                }
            } else {
                payload = vstd::slice::slice_to_vec(d);
                flags = 0;
            }
            assert(payload@ == stored(d@).0 && flags == stored(d@).1);
            let cs = payload.len() as u64;
            let al = (cs + 7) - (cs + 7) % 8;
            if body.len() as u64 + al > 0xFFFF_FFFFu64 {
                proof {
                    assert(al == align8(stored(ps[j as int].1).0.len() as int));
                    assert(add_phase(ps, (j + 1) as nat, start) == Err::<(Seq<u8>, Seq<EntryView>), Error>(Error::CapacityExceeded));
                    lemma_add_err(ps, (j + 1) as nat, ps.len(), start);
                }
                return Err(Error::CapacityExceeded);
            }
            let off = body.len() as u32;
            let ghost b0 = body@;
            let ghost old_out = views(out@);
            let ghost old_raw = out@;
            append_bytes(&mut body, payload.as_slice());
            let mut k: u64 = cs;
            while k < al
                invariant
                    cs <= k <= al,
                    al < 0x1_0000_0000u64,
                    body@ == b0 + payload@ + zeros(k - cs),
                decreases al - k,
            {
                body.push(0);
                k = k + 1;
                assert(body@ =~= b0 + payload@ + zeros(k - cs));
            }
            let ne = GrfEntry {
                filename: vstd::slice::slice_to_vec(p.filename.as_slice()),
                compressed_size: cs as u32,
                compressed_size_aligned: al as u32,
                uncompressed_size: d.len() as u32,
                flags,
                offset: off,
            };
            out.push(ne);
            proof {
                assert(ne@ == staged_entry(ps[j as int].0, ps[j as int].1, off));
                assert(views(out@) =~= old_out.push(ne@));
                let nv = views(out@);
                assert forall|a: int, b: int|
                    0 <= a < nv.len() && 0 <= b < nv.len() && a != b implies #[trigger] nv[a].name != #[trigger] nv[b].name by {
                    if a < old_out.len() && b < old_out.len() {
                        assert(nv[a] == old_out[a] && nv[b] == old_out[b]);
                    } else {
                        let o = if a == old_out.len() { b } else { a };
                        assert(nv[o] == old_out[o]);
                        assert(old_raw[o]@ == old_out[o]);
                        if o < n0 {
                            assert(!is_staged(ps, old_raw[o].filename@));
                            assert(ps[j as int].0 == ne.filename@);
                        } else {
                            assert(old_raw[o].filename@ == ps[o - n0].0);
                            assert(ps[o - n0].0 != ps[j as int].0);
                        }
                    }
                }
                assert forall|k: int| 0 <= k < n0 implies !is_staged(ps, (#[trigger] out@[k]).filename@) by {
                    assert(out@[k] == old_raw[k]);
                }
                assert forall|k: int| n0 <= k < out@.len() implies (#[trigger] out@[k]).filename@ == ps[k - n0].0 by {
                    if k < old_raw.len() {
                        assert(out@[k] == old_raw[k]);
                    }
                }
            }
            j = j + 1;
        }
        Ok((body, out))
    }

    /// The whole rebuilt image and its table.
    fn rebuild_image(&self, image: &[u8]) -> (r: Result<(Vec<u8>, Vec<GrfEntry>), Error>)
        requires
            self.wf(),
        ensures
            match rebuild(image@, self.version, self.entry_views(), self.pending_views()) {
                Ok(st) => r is Ok && r->Ok_0.0@ == st.0 && views(r->Ok_0.1@) == st.1,
                Err(x) => r == Err::<(Vec<u8>, Vec<GrfEntry>), Error>(x),
            },
            r is Ok ==> unique_names(views(r->Ok_0.1@)),
            r is Ok ==> zlib_decoded(zlib_encoded(table_bytes(views(r->Ok_0.1@)))) == Some(table_bytes(views(r->Ok_0.1@))),
            r is Ok ==> forall|j: int|
                0 <= j < self.pending_views().len() && (#[trigger] self.pending_views()[j]).1.len() > COMPRESS_THRESHOLD
                    ==> zlib_decoded(zlib_encoded(self.pending_views()[j].1)) == Some(self.pending_views()[j].1),
    {
        let (body, out) = self.copy_existing(image)?;
        let (body, out) = self.add_staged(body, out)?;
        let t = table_of_entries(&out);
        if out.len() as u64 > 0xFFFF_FFFFu64 || t.len() as u64 > 0xFFFF_FFFFu64 {
            return Err(Error::CapacityExceeded);
        }
        let c = zlib_compress(t.as_slice())?;
        if c.len() as u64 > 0xFFFF_FFFFu64 {
            return Err(Error::CapacityExceeded);
        }
        let mut img = header(body.len() as u32, out.len() as u32, self.version);
        append_bytes(&mut img, body.as_slice());
        write_u32_le(&mut img, c.len() as u32);
        write_u32_le(&mut img, t.len() as u32);
        append_bytes(&mut img, c.as_slice());
        Ok((img, out))
    }

    /// Commits the staged writes. With nothing staged, nothing is to be
    /// written (`Ok(None)`). Otherwise the container is rebuilt from
    /// `image`, the bytes of the current file: the unstaged entries' bodies
    /// are copied, each staged write is appended (compressed where that pays,
    /// padded to 8 bytes), and a compressed table follows; the handle then
    /// holds the new table and nothing staged, and the new image is returned
    /// for the caller to write in place of the old file.
    ///
    /// The rebuilt table is always written in the 0x200 layout and the
    /// version field is kept, so a rebuilt 0x300 container does not reopen
    /// with the 0x300 reader; the reopening laws are stated for 0x200.
    pub fn save(&mut self, image: &[u8]) -> (r: Result<Option<Vec<u8>>, Error>)
        requires
            old(self).wf(),
        ensures
            commit_outcome(image@, old(self).version, old(self).entry_views(), old(self).pending_views(), r, *final(self)),
            commit_laws(image@, old(self).version, old(self).entry_views(), old(self).pending_views(), r, *final(self)),
            r is Err ==> *final(self) == *old(self),
    {
        if self.version != GRF_VERSION_0X200 && self.version != GRF_VERSION_0X300 {
            return Err(Error::UnsupportedVersion(self.version));
        }
        if self.pending.len() == 0 {
            return Ok(None);
        }
        let (img, out) = self.rebuild_image(image)?;
        proof {
            let es = self.entry_views();
            let ps = self.pending_views();
            if self.names_fit() {
                lemma_rebuild_laws(image@, es, ps, self.version, img@, views(out@));
            }
            lemma_rebuild_alignment(image@, es, ps, self.version, img@, views(out@));
        }
        self.entries = out;
        self.pending = Vec::new();
        assert(self.pending_views() =~= seq![]);
        Ok(Some(img))
    }

    /// Opens a container from its image: reads the header and the file
    /// table; no body bytes are copied.
    pub fn open(image: &[u8]) -> (r: Result<Grf, Error>)
        ensures
            match grf_image(image@) {
                Ok((v, m)) => r is Ok && r->Ok_0.wf() && r->Ok_0.version == v && r->Ok_0.entries_map() == m
                    && r->Ok_0.pending_views().len() == 0,
                Err(e) => r == Err::<Grf, Error>(e),
            },
            r is Ok ==> r->Ok_0.entry_views() == keyed_seq(grf_records(image@)->Ok_0.1),
    {
        let version = Grf::detect_header(image)?;
        let entries = Grf::read_file_table(image, version)?;
        let r = Grf { version, entries, pending: Vec::new() };
        assert(r.pending_views().len() == 0);
        Ok(r)
    }

    /// Checks the magic and reads the version field of an image.
    fn detect_header(image: &[u8]) -> (r: Result<u32, Error>)
        ensures
            image@.len() < 46 || image@.subrange(0, 15) != grf_magic() ==> r == Err::<u32, Error>(Error::InvalidHeader),
            !(image@.len() < 46 || image@.subrange(0, 15) != grf_magic()) ==> {
                let v = u32_at(image@, 42);
                if known_version(v) { r == Ok::<u32, Error>(v) } else { r == Err::<u32, Error>(Error::UnsupportedVersion(v)) }
            },
    {
        if image.len() < GRF_HEADER_SIZE {
            return Err(Error::InvalidHeader);
        }
        let magic: [u8; 15] = [0x4d, 0x61, 0x73, 0x74, 0x65, 0x72, 0x20, 0x6f, 0x66, 0x20, 0x4d, 0x61, 0x67, 0x69, 0x63];
        assert(magic@ =~= grf_magic());
        let head = vstd::slice::slice_subrange(image, 0, 15);
        if !crate::cursor::bytes_eq(head, magic.as_slice()) {
            return Err(Error::InvalidHeader);
        }
        let v = read_u32_le(image, 42)?;
        if v == GRF_VERSION_0X101 || v == GRF_VERSION_0X102 || v == GRF_VERSION_0X103 || v == GRF_VERSION_0X200
            || v == GRF_VERSION_0X300 {
            Ok(v)
        } else {
            Err(Error::UnsupportedVersion(v))
        }
    }

    /// Reads the version of a container from its header (the first 46 bytes
    /// or more): the magic must match and the version must be one of the
    /// five known ones.
    pub fn detect_version(header: &[u8]) -> (r: Result<u32, Error>)
        ensures
            header@.len() < 46 || header@.subrange(0, 15) != grf_magic() || !known_version(u32_at(header@, 42))
                ==> r == Err::<u32, Error>(Error::InvalidHeader),
            !(header@.len() < 46 || header@.subrange(0, 15) != grf_magic() || !known_version(u32_at(header@, 42)))
                ==> r == Ok::<u32, Error>(u32_at(header@, 42)),
    {
        match Grf::detect_header(header) {
            Ok(v) => Ok(v),
            Err(_) => Err(Error::InvalidHeader),
        }
    }

    /// Reads the file table of an image whose header names version `version`.
    fn read_file_table(image: &[u8], version: u32) -> (r: Result<Vec<GrfEntry>, Error>)
        requires
            image@.len() >= 46,
        ensures
            match table_of(image@, version) {
                Ok(recs) => r is Ok && unique_names(views(r->Ok_0@)) && as_map(views(r->Ok_0@)) == as_map(recs)
                    && views(r->Ok_0@) == keyed_seq(recs),
                Err(e) => r == Err::<Vec<GrfEntry>, Error>(e),
            },
    {
        let len = image.len();
        if version == GRF_VERSION_0X200 {
            let toff = read_u32_le(image, 30)?;
            let count = read_u32_le(image, 38)?;
            let pos64 = toff as u64 + 46;
            if count == 0 && pos64 >= len as u64 {
                let v: Vec<GrfEntry> = Vec::new();
                proof { lemma_empty_records(v); }
                return Ok(v);
            }
            if pos64 > len as u64 {
                return Err(Error::MalformedArchive(pos64));
            }
            let pos = pos64 as usize;
            let c = read_u32_le(image, pos)? as usize;
            if len - pos < 8 {
                return Err(Error::MalformedArchive(pos as u64));
            }
            if len - (pos + 8) < c {
                return Err(Error::MalformedArchive((pos + 8) as u64));
            }
            let packed = vstd::slice::slice_subrange(image, pos + 8, pos + 8 + c);
            let table = zlib_decompress(packed)?;
            parse_nul_table(table.as_slice())
        } else if version == GRF_VERSION_0X300 {
            if len < 50 {
                return Err(Error::MalformedArchive(46));
            }
            if len < 54 {
                return Err(Error::MalformedArchive(50));
            }
            let toff = read_u32_le(image, 42)?;
            let c = read_u32_le(image, 50)? as usize;
            let pos64 = toff as u64 + 46;
            if pos64 > len as u64 {
                return Err(Error::MalformedArchive(pos64));
            }
            let pos = pos64 as usize;
            if len - pos < c {
                return Err(Error::MalformedArchive(pos as u64));
            }
            let packed = vstd::slice::slice_subrange(image, pos, pos + c);
            let table = zlib_decompress(packed)?;
            parse_nul_table(table.as_slice())
        } else {
            let count = read_u32_le(image, 38)?;
            parse_len_table(image, GRF_HEADER_SIZE, count)
        }
    }
}

/// The staged writes of `v`, as (name, bytes).
pub open spec fn pending_views_of(v: Seq<PendingPatch>) -> Seq<(Seq<u8>, Seq<u8>)> {
    v.map_values(|p: PendingPatch| (p.filename@, p.data@))
}

/// `after` is `before` with `data` staged under `name`: the earlier value
/// of that name replaced in place, or a new write at the end.
pub open spec fn staged_after(
    before: Seq<(Seq<u8>, Seq<u8>)>,
    after: Seq<(Seq<u8>, Seq<u8>)>,
    name: Seq<u8>,
    data: Seq<u8>,
) -> bool {
    (exists|i: int| 0 <= i < before.len() && before[i].0 == name && after == before.update(i, (name, data)))
        || (!is_staged(before, name) && after == before.push((name, data)))
}

/// Every name of `es` and `ps` can be stored in a NUL-terminated table.
pub open spec fn names_fit_of(es: Seq<EntryView>, ps: Seq<(Seq<u8>, Seq<u8>)>) -> bool {
    &&& forall|m: int| 0 <= m < es.len() ==> name_ok(#[trigger] es[m].name)
    &&& forall|j: int| 0 <= j < ps.len() ==> name_ok(#[trigger] ps[j].0)
}

/// What committing a handle of version `version`, table `es` and staged
/// writes `ps` against `image` gives: the result `r`, and the handle
/// `after`. Nothing staged: no write. Otherwise the rebuilt image, with the
/// rebuilt table and nothing staged after; on a failure the handle keeps
/// its table and staged writes.
pub open spec fn commit_outcome(
    image: Seq<u8>,
    version: u32,
    es: Seq<EntryView>,
    ps: Seq<(Seq<u8>, Seq<u8>)>,
    r: Result<Option<Vec<u8>>, Error>,
    after: Grf,
) -> bool {
    &&& after.wf()
    &&& after.version == version
    &&& !writable_version(version) ==> r == Err::<Option<Vec<u8>>, Error>(Error::UnsupportedVersion(version))
        && after.entry_views() == es && after.pending_views() == ps
    &&& writable_version(version) && ps.len() == 0 ==> r == Ok::<Option<Vec<u8>>, Error>(None)
        && after.entry_views() == es && after.pending_views() == ps
    &&& writable_version(version) && ps.len() > 0 ==> match rebuild(image, version, es, ps) {
        Ok(st) => r is Ok && r->Ok_0 is Some && r->Ok_0->Some_0@ == st.0 && after.entry_views() == st.1
            && after.pending_views().len() == 0,
        Err(x) => r == Err::<Option<Vec<u8>>, Error>(x) && after.entry_views() == es && after.pending_views() == ps,
    }
}

/// The laws a commit that wrote an image obeys. Each staged write is stored
/// aligned to 8 bytes, and so is every entry where every kept one was. For
/// a 0x200 container whose names fit a NUL-terminated table, the new image
/// opens with the new table, each staged name extracts to its staged bytes,
/// and every other name extracts as it did from the old image, wherever
/// that succeeded.
pub open spec fn commit_laws(
    image: Seq<u8>,
    version: u32,
    es: Seq<EntryView>,
    ps: Seq<(Seq<u8>, Seq<u8>)>,
    r: Result<Option<Vec<u8>>, Error>,
    after: Grf,
) -> bool {
    r is Ok && r->Ok_0 is Some ==> {
        let img = r->Ok_0->Some_0@;
        &&& forall|j: int| 0 <= j < ps.len() ==> aligned_ok(#[trigger] after.entries_map()[ps[j].0])
        &&& (forall|m: int| 0 <= m < es.len() ==> aligned_ok(#[trigger] es[m])) ==> forall|k: int|
            0 <= k < after.entry_views().len() ==> aligned_ok(#[trigger] after.entry_views()[k])
        &&& version == GRF_VERSION_0X200 && names_fit_of(es, ps) ==> {
            &&& grf_image(img) == Ok::<(u32, Map<Seq<u8>, EntryView>), Error>((GRF_VERSION_0X200, after.entries_map()))
            &&& forall|j: int|
                0 <= j < ps.len() ==> extract_from_image(img, (#[trigger] ps[j]).0) == Ok::<Seq<u8>, Error>(ps[j].1)
            &&& forall|n: Seq<u8>|
                !is_staged(ps, n) && (#[trigger] extract_spec(image, as_map(es), n)) is Ok ==> extract_from_image(img, n)
                    == extract_spec(image, as_map(es), n)
        }
    }
}

/// The staged writes keyed by name.
pub open spec fn pmap(ps: Seq<(Seq<u8>, Seq<u8>)>) -> Map<Seq<u8>, Seq<u8>>
    decreases ps.len(),
{
    if ps.len() == 0 {
        Map::empty()
    } else {
        pmap(ps.drop_last()).insert(ps.last().0, ps.last().1)
    }
}

proof fn lemma_pmap_update(ps: Seq<(Seq<u8>, Seq<u8>)>, i: int, d: Seq<u8>)
    requires
        unique_keys(ps),
        0 <= i < ps.len(),
    ensures
        pmap(ps.update(i, (ps[i].0, d))) == pmap(ps).insert(ps[i].0, d),
    decreases ps.len(),
{
    let k = ps[i].0;
    let u = ps.update(i, (k, d));
    let dl = ps.drop_last();
    if i == ps.len() - 1 {
        assert(u.drop_last() =~= dl);
        assert(pmap(u) =~= pmap(ps).insert(k, d));
    } else {
        assert(u.drop_last() =~= dl.update(i, (k, d)));
        assert(unique_keys(dl)) by {
            assert forall|a: int, b: int|
                0 <= a < dl.len() && 0 <= b < dl.len() && a != b implies #[trigger] dl[a].0 != #[trigger] dl[b].0 by {
                assert(dl[a] == ps[a] && dl[b] == ps[b]);
            }
        }
        assert(dl[i] == ps[i]);
        lemma_pmap_update(dl, i, d);
        assert(ps.last().0 != k);
        assert(pmap(u) =~= pmap(ps).insert(k, d));
    }
}

/// Staging `data` under `name` sets that name's value in the keyed view.
pub proof fn lemma_staged_after_map(
    before: Seq<(Seq<u8>, Seq<u8>)>,
    after: Seq<(Seq<u8>, Seq<u8>)>,
    name: Seq<u8>,
    data: Seq<u8>,
)
    requires
        unique_keys(before),
        staged_after(before, after, name, data),
    ensures
        pmap(after) == pmap(before).insert(name, data),
{
    if exists|i: int| 0 <= i < before.len() && before[i].0 == name && after == before.update(i, (name, data)) {
        let i = choose|i: int| 0 <= i < before.len() && before[i].0 == name && after == before.update(i, (name, data));
        lemma_pmap_update(before, i, data);
    } else {
        assert(after.drop_last() =~= before);
    }
}

/// With unique keys, each staged write is what its name maps to.
pub proof fn lemma_pmap_index(ps: Seq<(Seq<u8>, Seq<u8>)>, i: int)
    requires
        unique_keys(ps),
        0 <= i < ps.len(),
    ensures
        pmap(ps).contains_key(ps[i].0),
        pmap(ps)[ps[i].0] == ps[i].1,
    decreases ps.len(),
{
    if i < ps.len() - 1 {
        let d = ps.drop_last();
        assert(d[i] == ps[i]);
        assert(unique_keys(d)) by {
            assert forall|a: int, b: int|
                0 <= a < d.len() && 0 <= b < d.len() && a != b implies #[trigger] d[a].0 != #[trigger] d[b].0 by {
                assert(d[a] == ps[a] && d[b] == ps[b]);
            }
        }
        lemma_pmap_index(d, i);
        assert(ps[i].0 != ps.last().0);
    }
}

/// A name is a key of `pmap(ps)` exactly when it is staged.
pub proof fn lemma_pmap_dom(ps: Seq<(Seq<u8>, Seq<u8>)>, name: Seq<u8>)
    ensures
        pmap(ps).contains_key(name) <==> is_staged(ps, name),
    decreases ps.len(),
{
    if ps.len() > 0 {
        let d = ps.drop_last();
        lemma_pmap_dom(d, name);
        if is_staged(d, name) {
            let i = choose|i: int| 0 <= i < d.len() && (#[trigger] d[i]).0 == name;
            assert(ps[i] == d[i]);
        }
        if is_staged(ps, name) {
            let i = choose|i: int| 0 <= i < ps.len() && (#[trigger] ps[i]).0 == name;
            if i < ps.len() - 1 {
                assert(d[i] == ps[i]);
            }
        }
    }
}

/// `ps` with `data` staged under `name`: the earlier value of that name
/// replaced in place, or a new write at the end.
pub open spec fn stage_seq(ps: Seq<(Seq<u8>, Seq<u8>)>, name: Seq<u8>, data: Seq<u8>) -> Seq<(Seq<u8>, Seq<u8>)> {
    if is_staged(ps, name) {
        ps.update(choose|i: int| 0 <= i < ps.len() && (#[trigger] ps[i]).0 == name, (name, data))
    } else {
        ps.push((name, data))
    }
}

/// Stages `data` under `filename` in `pending`.
pub fn stage_write(pending: &mut Vec<PendingPatch>, filename: &[u8], data: &[u8])
    requires
        unique_keys(pending_views_of(old(pending)@)),
    ensures
        unique_keys(pending_views_of(final(pending)@)),
        staged_after(pending_views_of(old(pending)@), pending_views_of(final(pending)@), filename@, data@),
        pmap(pending_views_of(final(pending)@)) == pmap(pending_views_of(old(pending)@)).insert(filename@, data@),
        pending_views_of(final(pending)@) == stage_seq(pending_views_of(old(pending)@), filename@, data@),
{
    let ghost ps = pending_views_of(pending@);
    let p = PendingPatch {
        filename: vstd::slice::slice_to_vec(filename),
        data: vstd::slice::slice_to_vec(data),
    };
    let mut i: usize = 0;
    while i < pending.len()
        invariant
            pending_views_of(pending@) == ps,
            ps == pending_views_of(old(pending)@),
            unique_keys(ps),
            p.filename@ == filename@,
            p.data@ == data@,
            i <= ps.len(),
            forall|j: int| 0 <= j < i ==> (#[trigger] ps[j]).0 != filename@,
        decreases ps.len() - i,
    {
        if crate::cursor::bytes_eq(pending[i].filename.as_slice(), filename) {
            assert(ps[i as int].0 == filename@);
            pending.set(i, p);
            proof {
                let nv = pending_views_of(pending@);
                assert(nv =~= ps.update(i as int, (filename@, data@)));
                assert forall|a: int, b: int|
                    0 <= a < nv.len() && 0 <= b < nv.len() && a != b implies #[trigger] nv[a].0 != #[trigger] nv[b].0 by {
                    if a != i && b != i {
                        assert(nv[a] == ps[a] && nv[b] == ps[b]);
                    } else if a == i {
                        assert(nv[b] == ps[b]);
                        assert(ps[i as int].0 != ps[b].0);
                    } else {
                        assert(nv[a] == ps[a]);
                        assert(ps[i as int].0 != ps[a].0);
                    }
                }
            }
            proof {
                lemma_staged_after_map(ps, pending_views_of(pending@), filename@, data@);
                let c = choose|c: int| 0 <= c < ps.len() && (#[trigger] ps[c]).0 == filename@;
                if c != i {
                    assert(ps[c].0 != ps[i as int].0);
                }
            }
            return;
        }
        assert(ps[i as int].0 != filename@);
        i = i + 1;
    }
    pending.push(p);
    proof {
        let nv = pending_views_of(pending@);
        assert(nv =~= ps.push((filename@, data@)));
        assert forall|a: int, b: int|
            0 <= a < nv.len() && 0 <= b < nv.len() && a != b implies #[trigger] nv[a].0 != #[trigger] nv[b].0 by {
            if a < ps.len() && b < ps.len() {
                assert(nv[a] == ps[a] && nv[b] == ps[b]);
            } else if a == ps.len() {
                assert(nv[b] == ps[b]);
            } else {
                assert(nv[a] == ps[a]);
            }
        }
    }
    proof {
        lemma_staged_after_map(ps, pending_views_of(pending@), filename@, data@);
    }
}

/// The label that `version_name` gives each version.
pub open spec fn version_label(v: u32) -> Seq<char> {
    if v == GRF_VERSION_0X101 {
        "0x101 (Legacy)"@
    } else if v == GRF_VERSION_0X102 {
        "0x102 (Standard Encryption)"@
    } else if v == GRF_VERSION_0X103 {
        "0x103 (Enhanced Encryption)"@
    } else if v == GRF_VERSION_0X200 {
        "0x200 (Modern Standard)"@
    } else if v == GRF_VERSION_0X300 {
        "0x300 (Gepard Shield / Custom Encryption)"@
    } else {
        "Unknown"@
    }
}

/// An image that starts with a header written by this library reads back
/// the header's fields.
pub proof fn lemma_header_fields(img: Seq<u8>, table_offset: u32, count: u32, version: u32)
    requires
        img.len() >= 46,
        img.subrange(0, 46) == header_bytes(table_offset, count, version),
    ensures
        img.subrange(0, 15) == grf_magic(),
        u32_at(img, 30) == table_offset,
        u32_at(img, 38) == count,
        u32_at(img, 42) == version,
{
    lemma_auto_spec_u32_to_from_le_bytes();
    let h = header_bytes(table_offset, count, version);
    assert(h.len() == 46);
    assert(img.subrange(0, 15) =~= h.subrange(0, 15));
    assert(h.subrange(0, 15) =~= grf_magic());
    assert(img.subrange(30, 34) =~= h.subrange(30, 34));
    assert(h.subrange(30, 34) =~= le32(table_offset));
    assert(img.subrange(38, 42) =~= h.subrange(38, 42));
    assert(h.subrange(38, 42) =~= le32(count));
    assert(img.subrange(42, 46) =~= h.subrange(42, 46));
    assert(h.subrange(42, 46) =~= le32(version));
}

/// A container just made by `create_new` opens as version 0x200 with an
/// empty table: it lists no file and has no entry under any name.
pub proof fn lemma_new_container_is_empty()
    ensures
        grf_image(new_image()) == Ok::<(u32, Map<Seq<u8>, EntryView>), Error>((GRF_VERSION_0X200, Map::empty())),
{
    lemma_auto_spec_u32_to_from_le_bytes();
    let img = new_image();
    assert(img.len() == 46);
    assert(img.subrange(0, 46) =~= img);
    lemma_header_fields(img, 0, 0, GRF_VERSION_0X200);
    assert(as_map(seq![]) =~= Map::<Seq<u8>, EntryView>::empty());
}

/// The entry's body occupies a multiple of 8 bytes, with less than 8
/// bytes of padding.
pub open spec fn aligned_ok(e: EntryView) -> bool {
    e.compressed_size_aligned % 8 == 0 && e.compressed_size <= e.compressed_size_aligned
        && e.compressed_size_aligned - e.compressed_size < 8
}

/// `bytes` stand at `off` in `body`.
pub open spec fn placed(body: Seq<u8>, off: int, bytes: Seq<u8>) -> bool {
    0 <= off && off + bytes.len() <= body.len() && body.subrange(off, off + bytes.len()) == bytes
}

proof fn lemma_placed_extend(body: Seq<u8>, off: int, bytes: Seq<u8>, x: Seq<u8>)
    requires
        placed(body, off, bytes),
    ensures
        placed(body + x, off, bytes),
{
    assert((body + x).subrange(off, off + bytes.len()) =~= body.subrange(off, off + bytes.len()));
}

/// Existing entry `e` was carried over into table `m`, its aligned body
/// copied from `img` into `body`.
pub open spec fn kept_ok(img: Seq<u8>, body: Seq<u8>, m: Map<Seq<u8>, EntryView>, e: EntryView) -> bool {
    &&& m.contains_key(e.name)
    &&& m[e.name] == moved(e, m[e.name].offset)
    &&& img.len() >= e.offset + 46 + e.compressed_size_aligned
    &&& placed(body, m[e.name].offset as int, img.subrange(e.offset + 46, e.offset + 46 + e.compressed_size_aligned))
}

/// The padded payload written for staged bytes `d`.
pub open spec fn padded(d: Seq<u8>) -> Seq<u8> {
    stored(d).0 + zeros(align8(stored(d).0.len() as int) - stored(d).0.len())
}

/// Staged write (`name`, `d`) is in table `m` with its padded payload in
/// `body`.
pub open spec fn staged_ok(body: Seq<u8>, m: Map<Seq<u8>, EntryView>, name: Seq<u8>, d: Seq<u8>) -> bool {
    &&& m.contains_key(name)
    &&& m[name] == staged_entry(name, d, m[name].offset)
    &&& placed(body, m[name].offset as int, padded(d))
    &&& d.len() <= u32::MAX
    &&& align8(stored(d).0.len() as int) <= u32::MAX
}

proof fn lemma_copy_phase(img: Seq<u8>, es: Seq<EntryView>, ps: Seq<(Seq<u8>, Seq<u8>)>, n: nat)
    requires
        unique_names(es),
        n <= es.len(),
        copy_phase(img, es, ps, n) is Ok,
    ensures
        forall|m: int|
            0 <= m < n && !is_staged(ps, es[m].name) ==> kept_ok(
                img,
                copy_phase(img, es, ps, n)->Ok_0.0,
                as_map(copy_phase(img, es, ps, n)->Ok_0.1),
                #[trigger] es[m],
            ),
        (forall|m: int| 0 <= m < es.len() ==> name_ok(#[trigger] es[m].name)) ==> forall|k: int|
            0 <= k < copy_phase(img, es, ps, n)->Ok_0.1.len() ==> name_ok(
                #[trigger] copy_phase(img, es, ps, n)->Ok_0.1[k].name,
            ),
        copy_phase(img, es, ps, n)->Ok_0.0.len() <= u32::MAX,
        (forall|m: int| 0 <= m < es.len() ==> aligned_ok(#[trigger] es[m])) ==> forall|k: int|
            0 <= k < copy_phase(img, es, ps, n)->Ok_0.1.len() ==> aligned_ok(#[trigger] copy_phase(img, es, ps, n)->Ok_0.1[k]),
    decreases n,
{
    if n > 0 {
        lemma_copy_phase(img, es, ps, (n - 1) as nat);
        if forall|m: int| 0 <= m < es.len() ==> aligned_ok(#[trigger] es[m]) {
            let prev = copy_phase(img, es, ps, (n - 1) as nat)->Ok_0;
            let st = copy_phase(img, es, ps, n)->Ok_0;
            assert(aligned_ok(es[n - 1]));
            assert forall|k: int| 0 <= k < st.1.len() implies aligned_ok(#[trigger] st.1[k]) by {
                if k < prev.1.len() {
                    assert(st.1[k] == prev.1[k]);
                }
            }
        }
        let prev = copy_phase(img, es, ps, (n - 1) as nat)->Ok_0;
        let st = copy_phase(img, es, ps, n)->Ok_0;
        let e = es[n - 1];
        if !is_staged(ps, e.name) {
            let start = e.offset as int + 46;
            let region = img.subrange(start, start + e.compressed_size_aligned);
            let ne = moved(e, prev.0.len() as u32);
            assert(st.0 == prev.0 + region);
            assert(st.1 == prev.1.push(ne));
            assert(st.1.drop_last() =~= prev.1);
            assert(as_map(st.1) == as_map(prev.1).insert(e.name, ne));
            assert forall|m: int| 0 <= m < n && !is_staged(ps, es[m].name) implies kept_ok(img, st.0, as_map(st.1), #[trigger] es[m]) by {
                if m < n - 1 {
                    assert(es[m].name != e.name);
                    lemma_placed_extend(prev.0, as_map(prev.1)[es[m].name].offset as int, img.subrange(es[m].offset + 46, es[m].offset + 46 + es[m].compressed_size_aligned), region);
                } else {
                    assert(st.0.subrange(prev.0.len() as int, prev.0.len() + region.len() as int) =~= region);
                }
            }
            if forall|m: int| 0 <= m < es.len() ==> name_ok(#[trigger] es[m].name) {
                assert forall|k: int| 0 <= k < st.1.len() implies name_ok(#[trigger] st.1[k].name) by {
                    if k < prev.1.len() {
                        assert(st.1[k] == prev.1[k]);
                    }
                }
            }
        }
    }
}

proof fn lemma_add_phase(
    img: Seq<u8>,
    es: Seq<EntryView>,
    ps: Seq<(Seq<u8>, Seq<u8>)>,
    n: nat,
    start: (Seq<u8>, Seq<EntryView>),
)
    requires
        unique_keys(ps),
        n <= ps.len(),
        add_phase(ps, n, start) is Ok,
        forall|m: int|
            0 <= m < es.len() && !is_staged(ps, es[m].name) ==> kept_ok(img, start.0, as_map(start.1), #[trigger] es[m]),
        start.0.len() <= u32::MAX,
    ensures
        add_phase(ps, n, start)->Ok_0.0.len() <= u32::MAX,
        (forall|k: int| 0 <= k < start.1.len() ==> aligned_ok(#[trigger] start.1[k])) ==> forall|k: int|
            0 <= k < add_phase(ps, n, start)->Ok_0.1.len() ==> aligned_ok(#[trigger] add_phase(ps, n, start)->Ok_0.1[k]),
        forall|j: int|
            0 <= j < n ==> staged_ok(
                add_phase(ps, n, start)->Ok_0.0,
                as_map(add_phase(ps, n, start)->Ok_0.1),
                (#[trigger] ps[j]).0,
                ps[j].1,
            ),
        forall|m: int|
            0 <= m < es.len() && !is_staged(ps, es[m].name) ==> kept_ok(
                img,
                add_phase(ps, n, start)->Ok_0.0,
                as_map(add_phase(ps, n, start)->Ok_0.1),
                #[trigger] es[m],
            ),
        (forall|k: int| 0 <= k < start.1.len() ==> name_ok(#[trigger] start.1[k].name)) && (forall|j: int|
            0 <= j < ps.len() ==> name_ok(#[trigger] ps[j].0)) ==> forall|k: int|
            0 <= k < add_phase(ps, n, start)->Ok_0.1.len() ==> name_ok(#[trigger] add_phase(ps, n, start)->Ok_0.1[k].name),
    decreases n,
{
    if n > 0 {
        lemma_add_phase(img, es, ps, (n - 1) as nat, start);
        let prev = add_phase(ps, (n - 1) as nat, start)->Ok_0;
        let st = add_phase(ps, n, start)->Ok_0;
        let name = ps[n - 1].0;
        let d = ps[n - 1].1;
        let p = stored(d).0;
        let al = align8(p.len() as int);
        let ne = staged_entry(name, d, prev.0.len() as u32);
        let tail = p + zeros(al - p.len());
        lemma_align8(p.len() as int);
        if forall|k: int| 0 <= k < start.1.len() ==> aligned_ok(#[trigger] start.1[k]) {
            assert forall|k: int| 0 <= k < st.1.len() implies aligned_ok(#[trigger] st.1[k]) by {
                if k < prev.1.len() {
                    assert(st.1[k] == prev.1[k]);
                } else {
                    assert(st.1[k] == ne);
                }
            }
        }
        assert(tail =~= padded(d));
        assert(st.0 == prev.0 + p + zeros(al - p.len()));
        assert(st.0 =~= prev.0 + tail);
        assert(st.1 == prev.1.push(ne));
        assert(st.1.drop_last() =~= prev.1);
        assert(as_map(st.1) == as_map(prev.1).insert(name, ne));
        assert(is_staged(ps, name));
        assert forall|j: int| 0 <= j < n implies staged_ok(st.0, as_map(st.1), (#[trigger] ps[j]).0, ps[j].1) by {
            if j < n - 1 {
                assert(ps[j].0 != name);
                lemma_placed_extend(prev.0, as_map(prev.1)[ps[j].0].offset as int, padded(ps[j].1), tail);
            } else {
                assert(st.0.subrange(prev.0.len() as int, prev.0.len() + tail.len() as int) =~= tail);
            }
        }
        assert forall|m: int|
            0 <= m < es.len() && !is_staged(ps, es[m].name) implies kept_ok(img, st.0, as_map(st.1), #[trigger] es[m]) by {
            assert(es[m].name != name);
            lemma_placed_extend(prev.0, as_map(prev.1)[es[m].name].offset as int, img.subrange(es[m].offset + 46, es[m].offset + 46 + es[m].compressed_size_aligned), tail);
        }
        if (forall|k: int| 0 <= k < start.1.len() ==> name_ok(#[trigger] start.1[k].name)) && (forall|j: int|
            0 <= j < ps.len() ==> name_ok(#[trigger] ps[j].0)) {
            assert forall|k: int| 0 <= k < st.1.len() implies name_ok(#[trigger] st.1[k].name) by {
                if k < prev.1.len() {
                    assert(st.1[k] == prev.1[k]);
                } else {
                    assert(ps[n - 1].0 == name);
                }
            }
        }
    }
}

proof fn lemma_body_in_image(body: Seq<u8>, rest: Seq<u8>, h: Seq<u8>, off: int, len: int)
    requires
        h.len() == 46,
        0 <= off,
        0 <= len,
        off + len <= body.len(),
    ensures
        (h + body + rest).subrange(46 + off, 46 + off + len) == body.subrange(off, off + len),
{
    assert((h + body + rest).subrange(46 + off, 46 + off + len) =~= body.subrange(off, off + len));
}

proof fn lemma_align8(n: int)
    requires
        0 <= n,
    ensures
        n <= align8(n) < n + 8,
        align8(n) % 8 == 0,
{
}

/// What a successful commit of a 0x200 container guarantees: the new image
/// opens with the rebuilt table; each staged name extracts to its staged
/// bytes; each name that was not staged extracts as it did from the old
/// image, wherever that extraction succeeded.
proof fn lemma_rebuild_laws(
    img: Seq<u8>,
    es: Seq<EntryView>,
    ps: Seq<(Seq<u8>, Seq<u8>)>,
    version: u32,
    img2: Seq<u8>,
    out: Seq<EntryView>,
)
    requires
        unique_names(es),
        unique_keys(ps),
        unique_names(out),
        rebuild(img, version, es, ps) == Ok::<(Seq<u8>, Seq<EntryView>), Error>((img2, out)),
        forall|m: int| 0 <= m < es.len() ==> name_ok(#[trigger] es[m].name),
        forall|j: int| 0 <= j < ps.len() ==> name_ok(#[trigger] ps[j].0),
        zlib_decoded(zlib_encoded(table_bytes(out))) == Some(table_bytes(out)),
        forall|j: int|
            0 <= j < ps.len() && (#[trigger] ps[j]).1.len() > COMPRESS_THRESHOLD ==> zlib_decoded(zlib_encoded(ps[j].1))
                == Some(ps[j].1),
    ensures
        version == GRF_VERSION_0X200 ==> grf_image(img2) == Ok::<(u32, Map<Seq<u8>, EntryView>), Error>(
            (GRF_VERSION_0X200, as_map(out)),
        ),
        version == GRF_VERSION_0X200 ==> forall|j: int|
            0 <= j < ps.len() ==> extract_from_image(img2, (#[trigger] ps[j]).0) == Ok::<Seq<u8>, Error>(ps[j].1),
        version == GRF_VERSION_0X200 ==> forall|n: Seq<u8>|
            !is_staged(ps, n) && (#[trigger] extract_spec(img, as_map(es), n)) is Ok ==> extract_from_image(img2, n)
                == extract_spec(img, as_map(es), n),
        forall|j: int|
            0 <= j < ps.len() ==> aligned_ok(#[trigger] as_map(out)[ps[j].0]),
{
    lemma_auto_spec_u32_to_from_le_bytes();
    lemma_copy_phase(img, es, ps, es.len());
    let s0 = copy_phase(img, es, ps, es.len())->Ok_0;
    lemma_add_phase(img, es, ps, ps.len(), s0);
    let st = add_phase(ps, ps.len(), s0)->Ok_0;
    let body = st.0;
    assert(st.1 == out);
    let t = table_bytes(out);
    let c = zlib_encoded(t);
    let h = header_bytes(body.len() as u32, out.len() as u32, version);
    let rest = le32(c.len() as u32) + le32(t.len() as u32) + c;
    assert(img2 == h + body + le32(c.len() as u32) + le32(t.len() as u32) + c);
    assert(img2 =~= h + body + rest);
    assert(img2.subrange(0, 46) =~= h);
    lemma_header_fields(img2, body.len() as u32, out.len() as u32, version);
    let pos = body.len() + 46int;
    assert(img2.subrange(pos, pos + 4) =~= le32(c.len() as u32));
    assert(img2.subrange(pos + 8, pos + 8 + c.len() as int) =~= c);
    lemma_table_round_trip(out, 0);
    if version == GRF_VERSION_0X200 {
        assert(table_of(img2, GRF_VERSION_0X200) == Ok::<Seq<EntryView>, Error>(out));
    }
    let m2 = as_map(out);
    assert forall|j: int| 0 <= j < ps.len() implies aligned_ok(#[trigger] m2[ps[j].0]) by {
        assert(staged_ok(body, m2, ps[j].0, ps[j].1));
        lemma_align8(stored(ps[j].1).0.len() as int);
    }
    assert forall|j: int| 0 <= j < ps.len() && version == GRF_VERSION_0X200 implies extract_from_image(img2, (#[trigger] ps[j]).0) == Ok::<Seq<u8>, Error>(ps[j].1) by {
        let name = ps[j].0;
        let d = ps[j].1;
        assert(staged_ok(body, m2, name, d));
        let e = m2[name];
        let p = stored(d).0;
        let off = e.offset as int;
        lemma_align8(p.len() as int);
        assert(padded(d).len() == align8(p.len() as int));
        assert(((0u8 & 6u8) == 0u8) && ((1u8 & 6u8) == 0u8) && ((1u8 & 1u8) != 0u8) && ((0u8 & 1u8) == 0u8)) by (bit_vector);
        lemma_body_in_image(body, rest, h, off, p.len() as int);
        assert(body.subrange(off, off + p.len()) =~= padded(d).subrange(0, p.len() as int));
        assert(padded(d).subrange(0, p.len() as int) =~= p);
        assert(img2.subrange(off + 46, off + 46 + e.compressed_size) == p);
    }
    assert forall|n: Seq<u8>|
        version == GRF_VERSION_0X200 && !is_staged(ps, n) && (#[trigger] extract_spec(img, as_map(es), n)) is Ok implies extract_from_image(img2, n)
            == extract_spec(img, as_map(es), n) by {
        lemma_as_map_dom(es, n);
        let m = choose|m: int| 0 <= m < es.len() && es[m].name == n;
        lemma_as_map_index(es, m);
        let e = es[m];
        assert(kept_ok(img, body, m2, e));
        let ne = m2[n];
        let off = ne.offset as int;
        let start = e.offset as int + 46;
        let region = img.subrange(start, start + e.compressed_size_aligned);
        lemma_body_in_image(body, rest, h, off, e.compressed_size as int);
        assert(body.subrange(off, off + e.compressed_size) =~= region.subrange(0, e.compressed_size as int));
        assert(region.subrange(0, e.compressed_size as int) =~= img.subrange(start, start + e.compressed_size));
    }
}

/// Every staged write of a successful rebuild is stored aligned.
proof fn lemma_rebuild_alignment(
    img: Seq<u8>,
    es: Seq<EntryView>,
    ps: Seq<(Seq<u8>, Seq<u8>)>,
    version: u32,
    img2: Seq<u8>,
    out: Seq<EntryView>,
)
    requires
        unique_names(es),
        unique_keys(ps),
        rebuild(img, version, es, ps) == Ok::<(Seq<u8>, Seq<EntryView>), Error>((img2, out)),
    ensures
        forall|j: int| 0 <= j < ps.len() ==> aligned_ok(#[trigger] as_map(out)[ps[j].0]),
        (forall|m: int| 0 <= m < es.len() ==> aligned_ok(#[trigger] es[m])) ==> forall|k: int|
            0 <= k < out.len() ==> aligned_ok(#[trigger] out[k]),
{
    lemma_copy_phase(img, es, ps, es.len());
    let s0 = copy_phase(img, es, ps, es.len())->Ok_0;
    lemma_add_phase(img, es, ps, ps.len(), s0);
    let st = add_phase(ps, ps.len(), s0)->Ok_0;
    assert(st.1 == out);
    assert forall|j: int| 0 <= j < ps.len() implies aligned_ok(#[trigger] as_map(out)[ps[j].0]) by {
        assert(staged_ok(st.0, as_map(out), ps[j].0, ps[j].1));
        lemma_align8(stored(ps[j].1).0.len() as int);
    }
}

/// The 46 header bytes for the given fields.
pub fn header(table_offset: u32, count: u32, version: u32) -> (r: Vec<u8>)
    ensures
        r@ == header_bytes(table_offset, count, version),
{
    let mut r: Vec<u8> = vec![0x4du8, 0x61, 0x73, 0x74, 0x65, 0x72, 0x20, 0x6f, 0x66, 0x20, 0x4d, 0x61, 0x67, 0x69, 0x63];
    assert(r@ =~= grf_magic());
    r.push(0);
    let key: [u8; 14] = [1, 2, 3, 4, 5, 6, 7, 8, 9, 10, 11, 12, 13, 14];
    assert(key@ =~= header_key());
    append_bytes(&mut r, key.as_slice());
    write_u32_le(&mut r, table_offset);
    write_u32_le(&mut r, 0);
    write_u32_le(&mut r, count);
    write_u32_le(&mut r, version);
    r
}

/// The uncompressed contents of entry `e` of `image`.
pub fn entry_contents(image: &[u8], e: &GrfEntry) -> (r: Result<Vec<u8>, Error>)
    ensures
        match entry_payload(image@, e@) {
            Ok(d) => r is Ok && r->Ok_0@ == d,
            Err(x) => r == Err::<Vec<u8>, Error>(x),
        },
{
    if (e.flags & FLAG_ENCRYPTED) != 0 {
        return Err(Error::EncryptedEntry);
    }
    let start = e.offset as u64 + 46;
    if e.compressed_size > e.compressed_size_aligned || start + e.compressed_size_aligned as u64 > image.len() as u64 {
        return Err(Error::MalformedArchive(start));
    }
    let from = start as usize;
    let raw = vstd::slice::slice_subrange(image, from, from + e.compressed_size as usize);
    if (e.flags & FLAG_DEFLATED) != 0 {
        zlib_decompress(raw)
    } else {
        Ok(vstd::slice::slice_to_vec(raw))
    }
}

/// The payload stored for staged bytes `d`, and its flags: the zlib stream
/// where `d` is over the threshold and the stream is strictly shorter, else
/// `d` itself.
pub open spec fn stored(d: Seq<u8>) -> (Seq<u8>, u8) {
    if d.len() > COMPRESS_THRESHOLD && zlib_encoded(d).len() < d.len() {
        (zlib_encoded(d), FLAG_DEFLATED)
    } else {
        (d, 0u8)
    }
}

/// `n` rounded up to a multiple of 8.
pub open spec fn align8(n: int) -> int {
    (n + 7) - (n + 7) % 8
}

/// `n` zero bytes.
pub open spec fn zeros(n: int) -> Seq<u8> {
    Seq::new(n as nat, |i: int| 0u8)
}

/// Entry `e` placed at `offset`.
pub open spec fn moved(e: EntryView, offset: u32) -> EntryView {
    EntryView {
        name: e.name,
        compressed_size: e.compressed_size,
        compressed_size_aligned: e.compressed_size_aligned,
        uncompressed_size: e.uncompressed_size,
        flags: e.flags,
        offset,
    }
}

/// The entry written for staged bytes `d` under `name` at `offset`.
pub open spec fn staged_entry(name: Seq<u8>, d: Seq<u8>, offset: u32) -> EntryView {
    EntryView {
        name,
        compressed_size: stored(d).0.len() as u32,
        compressed_size_aligned: align8(stored(d).0.len() as int) as u32,
        uncompressed_size: d.len() as u32,
        flags: stored(d).1,
        offset,
    }
}

/// The body and table after the first `n` existing entries were copied:
/// an entry that is staged is skipped; another has its aligned bytes copied
/// from the old image and is placed where they start in the new body.
pub open spec fn copy_phase(
    img: Seq<u8>,
    es: Seq<EntryView>,
    ps: Seq<(Seq<u8>, Seq<u8>)>,
    n: nat,
) -> Result<(Seq<u8>, Seq<EntryView>), Error>
    decreases n,
{
    if n == 0 {
        Ok((seq![], seq![]))
    } else {
        match copy_phase(img, es, ps, (n - 1) as nat) {
            Err(x) => Err(x),
            Ok(st) => {
                let e = es[n - 1];
                let start = e.offset as int + 46;
                if is_staged(ps, e.name) {
                    Ok(st)
                } else if img.len() < start + e.compressed_size_aligned {
                    Err(Error::MalformedArchive(start as u64))
                } else if st.0.len() + e.compressed_size_aligned > u32::MAX {
                    Err(Error::CapacityExceeded)
                } else {
                    Ok(
                        (
                            st.0 + img.subrange(start, start + e.compressed_size_aligned),
                            st.1.push(moved(e, st.0.len() as u32)),
                        ),
                    )
                }
            },
        }
    }
}

/// The body and table after the first `n` staged writes were appended to
/// `start`: each payload is padded with zeros to a multiple of 8.
pub open spec fn add_phase(
    ps: Seq<(Seq<u8>, Seq<u8>)>,
    n: nat,
    start: (Seq<u8>, Seq<EntryView>),
) -> Result<(Seq<u8>, Seq<EntryView>), Error>
    decreases n,
{
    if n == 0 {
        Ok(start)
    } else {
        match add_phase(ps, (n - 1) as nat, start) {
            Err(x) => Err(x),
            Ok(st) => {
                let name = ps[n - 1].0;
                let d = ps[n - 1].1;
                let p = stored(d).0;
                let al = align8(p.len() as int);
                if d.len() > u32::MAX || st.0.len() + al > u32::MAX {
                    Err(Error::CapacityExceeded)
                } else {
                    Ok((st.0 + p + zeros(al - p.len()), st.1.push(staged_entry(name, d, st.0.len() as u32))))
                }
            },
        }
    }
}

/// The image that a commit writes, and its table: header, body, the two
/// table lengths, and the compressed table.
pub open spec fn rebuild(
    img: Seq<u8>,
    version: u32,
    es: Seq<EntryView>,
    ps: Seq<(Seq<u8>, Seq<u8>)>,
) -> Result<(Seq<u8>, Seq<EntryView>), Error> {
    match copy_phase(img, es, ps, es.len()) {
        Err(x) => Err(x),
        Ok(s0) => match add_phase(ps, ps.len(), s0) {
            Err(x) => Err(x),
            Ok(st) => {
                let t = table_bytes(st.1);
                let c = zlib_encoded(t);
                if st.1.len() > u32::MAX || t.len() > u32::MAX || c.len() > u32::MAX {
                    Err(Error::CapacityExceeded)
                } else {
                    Ok(
                        (
                            header_bytes(st.0.len() as u32, st.1.len() as u32, version) + st.0 + le32(
                                c.len() as u32,
                            ) + le32(t.len() as u32) + c,
                            st.1,
                        ),
                    )
                }
            },
        },
    }
}

proof fn lemma_copy_err(img: Seq<u8>, es: Seq<EntryView>, ps: Seq<(Seq<u8>, Seq<u8>)>, k: nat, n: nat)
    requires
        k <= n,
        copy_phase(img, es, ps, k) is Err,
    ensures
        copy_phase(img, es, ps, n) == copy_phase(img, es, ps, k),
    decreases n,
{
    if n > k {
        lemma_copy_err(img, es, ps, k, (n - 1) as nat);
    }
}

proof fn lemma_add_err(ps: Seq<(Seq<u8>, Seq<u8>)>, k: nat, n: nat, start: (Seq<u8>, Seq<EntryView>))
    requires
        k <= n,
        add_phase(ps, k, start) is Err,
    ensures
        add_phase(ps, n, start) == add_phase(ps, k, start),
    decreases n,
{
    if n > k {
        lemma_add_err(ps, k, (n - 1) as nat, start);
    }
}

/// The NUL-terminated table of `entries`.
pub fn table_of_entries(entries: &Vec<GrfEntry>) -> (r: Vec<u8>)
    ensures
        r@ == table_bytes(views(entries@)),
{
    let ghost es = views(entries@);
    let mut t: Vec<u8> = Vec::new();
    let mut i: usize = 0;
    while i < entries.len()
        invariant
            es == views(entries@),
            i <= es.len(),
            t@ == table_bytes(es.subrange(0, i as int)),
        decreases es.len() - i,
    {
        let e = &entries[i];
        let ghost before = t@;
        append_bytes(&mut t, e.filename.as_slice());
        t.push(0);
        write_u32_le(&mut t, e.compressed_size);
        write_u32_le(&mut t, e.compressed_size_aligned);
        write_u32_le(&mut t, e.uncompressed_size);
        t.push(e.flags);
        write_u32_le(&mut t, e.offset);
        proof {
            assert(es[i as int] == e@);
            assert(t@ =~= before + crate::grf_table::record_bytes(e@));
            assert(es.subrange(0, i + 1).drop_last() =~= es.subrange(0, i as int));
        }
        i = i + 1;
    }
    assert(es.subrange(0, i as int) =~= es);
    t
}

proof fn lemma_empty_records(v: Vec<GrfEntry>)
    requires
        v@.len() == 0,
    ensures
        unique_names(views(v@)),
        as_map(views(v@)) == as_map(seq![]),
        views(v@) == keyed_seq(seq![]),
{
    assert(views(v@) =~= seq![]);
}

} // verus!
