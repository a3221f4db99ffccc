use vstd::prelude::*;
use crate::beam::{
    BeamArchive, BeamEntryView, beam_extract, beam_image, beam_keyed_seq, beam_map, beam_records_of, lemma_beam_map_dom,
};
use crate::error::Error;
use crate::gpf::Gpf;
use crate::grf::{Grf, commit_laws, commit_outcome, extract_spec, grf_image, grf_records, stage_seq};
use crate::grf_table::{EntryView, as_map, keyed_seq, lemma_as_map_dom};
use crate::rgz::{Rgz, RgzEntry, RgzOp};
use crate::thor::{Thor, ThorEntry, ThorOp};

verus! {

/// The patch-archive formats the orchestrator knows.
#[derive(Debug, Clone, Copy, PartialEq, Eq, Structural)]
pub enum PatchFormat {
    Beam,
    Thor,
    Rgz,
    Gpf,
}

/// `s` with ASCII capitals turned into small letters.
pub open spec fn ascii_lower(s: Seq<u8>) -> Seq<u8> {
    s.map_values(|c: u8| if 0x41 <= c && c <= 0x5a { (c + 32) as u8 } else { c })
}

/// Index of the last byte of `s` equal to `a` or `b`, or -1.
pub open spec fn last_pos(s: Seq<u8>, a: u8, b: u8) -> int
    decreases s.len(),
{
    if s.len() == 0 {
        -1
    } else if s.last() == a || s.last() == b {
        s.len() - 1
    } else {
        last_pos(s.drop_last(), a, b)
    }
}

/// The extension of the last component of a path: the bytes after its last
/// `.`, where that dot is not the component's first byte.
pub open spec fn extension(path: Seq<u8>) -> Option<Seq<u8>> {
    let base = path.subrange(last_pos(path, 0x2f, 0x5c) + 1, path.len() as int);
    let d = last_pos(base, 0x2e, 0x2e);
    if d <= 0 {
        None
    } else {
        Some(base.subrange(d + 1, base.len() as int))
    }
}

/// The format of a patch archive named `path`, by its extension, whatever
/// the case of its ASCII letters.
pub open spec fn patch_format(path: Seq<u8>) -> Result<PatchFormat, Error> {
    match extension(ascii_lower(path)) {
        Some(e) => if e == seq![0x62u8, 0x65, 0x61, 0x6d] {
            Ok(PatchFormat::Beam)
        } else if e == seq![0x74u8, 0x68, 0x6f, 0x72] {
            Ok(PatchFormat::Thor)
        } else if e == seq![0x72u8, 0x67, 0x7a] {
            Ok(PatchFormat::Rgz)
        } else if e == seq![0x67u8, 0x70, 0x66] {
            Ok(PatchFormat::Gpf)
        } else {
            Err(Error::UnknownPatchFormat)
        },
        None => Err(Error::UnknownPatchFormat),
    }
}

/// Names that differ only in the case of ASCII letters are classified
/// alike.
pub proof fn lemma_classification_ignores_case(a: Seq<u8>, b: Seq<u8>)
    requires
        ascii_lower(a) == ascii_lower(b),
    ensures
        patch_format(a) == patch_format(b),
{
}

/// Applying the same patch under names that differ only in the case of
/// ASCII letters stages the same writes, or fails alike; `apply_patch`'s
/// outcome depends on nothing else of the name.
pub proof fn lemma_staging_ignores_case(ps: Seq<(Seq<u8>, Seq<u8>)>, a: Seq<u8>, b: Seq<u8>, patch: Seq<u8>)
    requires
        ascii_lower(a) == ascii_lower(b),
    ensures
        staged_seq(ps, a, patch) == staged_seq(ps, b, patch),
{
}

fn last_pos_exec(s: &[u8], a: u8, b: u8) -> (r: i64)
    requires
        s@.len() < 0x7FFF_FFFF_FFFF_FFFF,
    ensures
        r == last_pos(s@, a, b),
        -1 <= r < s@.len(),
{
    proof { lemma_last_pos_range(s@, a, b); }
    let mut i: usize = s.len();
    assert(s@.subrange(0, i as int) =~= s@);
    while i > 0
        invariant
            i <= s@.len(),
            s@.len() < 0x7FFF_FFFF_FFFF_FFFF,
            last_pos(s@, a, b) == last_pos(s@.subrange(0, i as int), a, b),
        decreases i,
    {
        let c = s[i - 1];
        assert(s@.subrange(0, i as int).last() == c);
        if c == a || c == b {
            assert(last_pos(s@.subrange(0, i as int), a, b) == i - 1);
            return (i - 1) as i64;
        }
        assert(s@.subrange(0, i as int).drop_last() =~= s@.subrange(0, i - 1));
        i = i - 1;
    }
    -1
}

proof fn lemma_last_pos_range(s: Seq<u8>, a: u8, b: u8)
    ensures
        -1 <= last_pos(s, a, b) < s.len(),
    decreases s.len(),
{
    if s.len() > 0 {
        lemma_last_pos_range(s.drop_last(), a, b);
    }
}

/// Tells which format a patch archive named `path` is in, by its
/// extension, ignoring the case of ASCII letters.
pub fn classify_patch(path: &[u8]) -> (r: Result<PatchFormat, Error>)
    requires
        path@.len() < 0x7FFF_FFFF_FFFF_FFFF,
    ensures
        r == patch_format(path@),
{
    let mut low: Vec<u8> = Vec::new();
    let mut i: usize = 0;
    while i < path.len()
        invariant
            i <= path@.len(),
            low@ == ascii_lower(path@.subrange(0, i as int)),
        decreases path@.len() - i,
    {
        let c = path[i];
        low.push(if 0x41 <= c && c <= 0x5a { c + 32 } else { c });
        i = i + 1;
        assert(low@ =~= ascii_lower(path@.subrange(0, i as int)));
    }
    assert(path@.subrange(0, i as int) =~= path@);
    let sep = last_pos_exec(low.as_slice(), 0x2f, 0x5c);
    let from = (sep + 1) as usize;
    let base = vstd::slice::slice_subrange(low.as_slice(), from, low.len());
    let d = last_pos_exec(base, 0x2e, 0x2e);
    if d <= 0 {
        return Err(Error::UnknownPatchFormat);
    }
    let ext = vstd::slice::slice_subrange(base, (d + 1) as usize, base.len());
    let beam: [u8; 4] = [0x62, 0x65, 0x61, 0x6d];
    let thor: [u8; 4] = [0x74, 0x68, 0x6f, 0x72];
    let rgz: [u8; 3] = [0x72, 0x67, 0x7a];
    let gpf: [u8; 3] = [0x67, 0x70, 0x66];
    assert(beam@ =~= seq![0x62u8, 0x65, 0x61, 0x6d]);
    assert(thor@ =~= seq![0x74u8, 0x68, 0x6f, 0x72]);
    assert(rgz@ =~= seq![0x72u8, 0x67, 0x7a]);
    assert(gpf@ =~= seq![0x67u8, 0x70, 0x66]);
    if crate::cursor::bytes_eq(ext, beam.as_slice()) {
        Ok(PatchFormat::Beam)
    } else if crate::cursor::bytes_eq(ext, thor.as_slice()) {
        Ok(PatchFormat::Thor)
    } else if crate::cursor::bytes_eq(ext, rgz.as_slice()) {
        Ok(PatchFormat::Rgz)
    } else if crate::cursor::bytes_eq(ext, gpf.as_slice()) {
        Ok(PatchFormat::Gpf)
    } else {
        Err(Error::UnknownPatchFormat)
    }
}

/// The staged writes after the THOR operations `ops` are applied in order:
/// an `Add` stages its bytes, a `Remove` leaves the container as it is.
pub open spec fn thor_staged(m: Map<Seq<u8>, Seq<u8>>, ops: Seq<ThorOp>) -> Map<Seq<u8>, Seq<u8>>
    decreases ops.len(),
{
    if ops.len() == 0 {
        m
    } else {
        let before = thor_staged(m, ops.drop_last());
        match ops.last() {
            ThorOp::Add { filename, data } => before.insert(filename, data),
            ThorOp::Remove { .. } => before,
        }
    }
}

/// The staged writes after the RGZ records `ops` are applied in order: a
/// file stages its bytes, a directory is ignored.
pub open spec fn rgz_staged(m: Map<Seq<u8>, Seq<u8>>, ops: Seq<RgzOp>) -> Map<Seq<u8>, Seq<u8>>
    decreases ops.len(),
{
    if ops.len() == 0 {
        m
    } else {
        let before = rgz_staged(m, ops.drop_last());
        match ops.last() {
            RgzOp::File { name, data } => before.insert(name, data),
            RgzOp::Directory { .. } => before,
        }
    }
}

/// The staged writes after each name of `names` is staged with `data[i]`.
pub open spec fn all_staged(m: Map<Seq<u8>, Seq<u8>>, names: Seq<Seq<u8>>, data: Seq<Seq<u8>>) -> Map<Seq<u8>, Seq<u8>>
    decreases names.len(),
{
    if names.len() == 0 {
        m
    } else {
        all_staged(m, names.drop_last(), data).insert(names.last(), data[names.len() - 1])
    }
}

/// Staging each of the distinct `names` with `data[i]`, in order, gives
/// `m` with those names set: the order does not matter.
pub proof fn lemma_all_staged_union(
    m: Map<Seq<u8>, Seq<u8>>,
    names: Seq<Seq<u8>>,
    data: Seq<Seq<u8>>,
    add: Map<Seq<u8>, Seq<u8>>,
)
    requires
        names.len() <= data.len(),
        forall|i: int, j: int| 0 <= i < names.len() && 0 <= j < names.len() && i != j ==> names[i] != names[j],
        forall|n: Seq<u8>| #[trigger] add.contains_key(n) <==> exists|i: int| 0 <= i < names.len() && names[i] == n,
        forall|i: int| 0 <= i < names.len() ==> add[#[trigger] names[i]] == data[i],
    ensures
        all_staged(m, names, data) == m.union_prefer_right(add),
    decreases names.len(),
{
    if names.len() == 0 {
        assert(m.union_prefer_right(add) =~= m);
    } else {
        let d = names.drop_last();
        let last = names.last();
        let add0 = add.remove(last);
        assert forall|n: Seq<u8>| #[trigger] add0.contains_key(n) <==> exists|i: int| 0 <= i < d.len() && d[i] == n by {
            if add0.contains_key(n) {
                let i = choose|i: int| 0 <= i < names.len() && names[i] == n;
                assert(i != names.len() - 1);
                assert(d[i] == n);
            }
            if exists|i: int| 0 <= i < d.len() && d[i] == n {
                let i = choose|i: int| 0 <= i < d.len() && d[i] == n;
                assert(names[i] == n);
                assert(names[i] != names[names.len() - 1]);
            }
        }
        assert forall|i: int| 0 <= i < d.len() implies add0[#[trigger] d[i]] == data[i] by {
            assert(names[i] == d[i]);
            assert(names[i] != names[names.len() - 1]);
        }
        lemma_all_staged_union(m, d, data, add0);
        assert(add.contains_key(last));
        assert(all_staged(m, names, data) =~= m.union_prefer_right(add));
    }
}

/// The staged writes after the THOR operations `ops` are applied to `ps`
/// in order.
pub open spec fn thor_stage_seq(ps: Seq<(Seq<u8>, Seq<u8>)>, ops: Seq<ThorOp>) -> Seq<(Seq<u8>, Seq<u8>)>
    decreases ops.len(),
{
    if ops.len() == 0 {
        ps
    } else {
        let before = thor_stage_seq(ps, ops.drop_last());
        match ops.last() {
            ThorOp::Add { filename, data } => stage_seq(before, filename, data),
            ThorOp::Remove { .. } => before,
        }
    }
}

/// The staged writes after the RGZ records `ops` are applied to `ps` in
/// order.
pub open spec fn rgz_stage_seq(ps: Seq<(Seq<u8>, Seq<u8>)>, ops: Seq<RgzOp>) -> Seq<(Seq<u8>, Seq<u8>)>
    decreases ops.len(),
{
    if ops.len() == 0 {
        ps
    } else {
        let before = rgz_stage_seq(ps, ops.drop_last());
        match ops.last() {
            RgzOp::File { name, data } => stage_seq(before, name, data),
            RgzOp::Directory { .. } => before,
        }
    }
}

/// The staged writes after each of `names` is staged with `data[i]`, in
/// order.
pub open spec fn names_stage_seq(
    ps: Seq<(Seq<u8>, Seq<u8>)>,
    names: Seq<Seq<u8>>,
    data: Seq<Seq<u8>>,
) -> Seq<(Seq<u8>, Seq<u8>)>
    decreases names.len(),
{
    if names.len() == 0 {
        ps
    } else {
        stage_seq(names_stage_seq(ps, names.drop_last(), data), names.last(), data[names.len() - 1])
    }
}

/// The error of the first of `names` that fails to extract from BEAM image
/// `img`, if any.
pub open spec fn beam_first_error(img: Seq<u8>, bm: Map<Seq<u8>, BeamEntryView>, names: Seq<Seq<u8>>) -> Option<Error>
    decreases names.len(),
{
    if names.len() == 0 {
        None
    } else {
        match beam_extract(img, bm, names[0]) {
            Err(e) => Some(e),
            Ok(_) => beam_first_error(img, bm, names.drop_first()),
        }
    }
}

/// The error of the first of `names` that fails to extract from GPF image
/// `img`, if any.
pub open spec fn gpf_first_error(img: Seq<u8>, gm: Map<Seq<u8>, EntryView>, names: Seq<Seq<u8>>) -> Option<Error>
    decreases names.len(),
{
    if names.len() == 0 {
        None
    } else {
        match extract_spec(img, gm, names[0]) {
            Err(e) => Some(e),
            Ok(_) => gpf_first_error(img, gm, names.drop_first()),
        }
    }
}

/// The staged writes after patch archive `patch`, named `path`, is staged
/// onto `ps`; or the error that stops it. A BEAM or GPF archive stages its
/// files in table order, and nothing when any of them fails to extract.
pub open spec fn staged_seq(ps: Seq<(Seq<u8>, Seq<u8>)>, path: Seq<u8>, patch: Seq<u8>) -> Result<
    Seq<(Seq<u8>, Seq<u8>)>,
    Error,
> {
    match patch_format(path) {
        Err(e) => Err(e),
        Ok(PatchFormat::Thor) => match crate::thor::thor_file(patch) {
            Err(e) => Err(e),
            Ok(ops) => Ok(thor_stage_seq(ps, ops)),
        },
        Ok(PatchFormat::Rgz) => match crate::rgz::rgz_file(patch) {
            Err(e) => Err(e),
            Ok(ops) => Ok(rgz_stage_seq(ps, ops)),
        },
        Ok(PatchFormat::Beam) => match beam_records_of(patch) {
            Err(e) => Err(e),
            Ok((_, recs)) => {
                let es = beam_keyed_seq(recs);
                let names = es.map_values(|e: BeamEntryView| e.name);
                let bm = beam_map(es);
                match beam_first_error(patch, bm, names) {
                    Some(e) => Err(e),
                    None => Ok(names_stage_seq(ps, names, beam_payloads(patch, bm, names))),
                }
            },
        },
        Ok(PatchFormat::Gpf) => match grf_records(patch) {
            Err(e) => Err(e),
            Ok((_, recs)) => {
                let es = keyed_seq(recs);
                let names = es.map_values(|e: EntryView| e.name);
                let gm = as_map(es);
                match gpf_first_error(patch, gm, names) {
                    Some(e) => Err(e),
                    None => Ok(names_stage_seq(ps, names, gpf_payloads(patch, gm, names))),
                }
            },
        },
    }
}

proof fn lemma_beam_first_error_step(img: Seq<u8>, bm: Map<Seq<u8>, BeamEntryView>, names: Seq<Seq<u8>>, i: int)
    requires
        0 <= i < names.len(),
    ensures
        beam_first_error(img, bm, names.subrange(i, names.len() as int)) == match beam_extract(img, bm, names[i]) {
            Err(e) => Some(e),
            Ok(_) => beam_first_error(img, bm, names.subrange(i + 1, names.len() as int)),
        },
{
    let t = names.subrange(i, names.len() as int);
    assert(t[0] == names[i]);
    assert(t.drop_first() =~= names.subrange(i + 1, names.len() as int));
}

proof fn lemma_gpf_first_error_step(img: Seq<u8>, gm: Map<Seq<u8>, EntryView>, names: Seq<Seq<u8>>, i: int)
    requires
        0 <= i < names.len(),
    ensures
        gpf_first_error(img, gm, names.subrange(i, names.len() as int)) == match extract_spec(img, gm, names[i]) {
            Err(e) => Some(e),
            Ok(_) => gpf_first_error(img, gm, names.subrange(i + 1, names.len() as int)),
        },
{
    let t = names.subrange(i, names.len() as int);
    assert(t[0] == names[i]);
    assert(t.drop_first() =~= names.subrange(i + 1, names.len() as int));
}

/// Stages the `Add` operations of a THOR patch into `grf`, in archive
/// order; `Remove` operations are left out.
pub fn stage_thor_entries(grf: &mut Grf, thor: &Thor)
    requires
        old(grf).wf(),
    ensures
        final(grf).wf(),
        final(grf).version == old(grf).version,
        final(grf).entries == old(grf).entries,
        final(grf).pending_map() == thor_staged(old(grf).pending_map(), thor.ops()),
        final(grf).pending_views() == thor_stage_seq(old(grf).pending_views(), thor.ops()),
{
    let ghost ops = thor.ops();
    let mut i: usize = 0;
    while i < thor.entries.len()
        invariant
            ops == thor.ops(),
            i <= ops.len(),
            grf.wf(),
            grf.version == old(grf).version,
            grf.entries == old(grf).entries,
            grf.pending_map() == thor_staged(old(grf).pending_map(), ops.subrange(0, i as int)),
            grf.pending_views() == thor_stage_seq(old(grf).pending_views(), ops.subrange(0, i as int)),
        decreases ops.len() - i,
    {
        assert(ops[i as int] == thor.entries@[i as int]@);
        assert(ops.subrange(0, i + 1).drop_last() =~= ops.subrange(0, i as int));
        match &thor.entries[i] {
            ThorEntry::Add { filename, data } => {
                let _ = grf.patch_file(filename.as_slice(), data.as_slice());
            },
            ThorEntry::Remove { .. } => {},
        }
        i = i + 1;
    }
    assert(ops.subrange(0, i as int) =~= ops);
}

/// Stages the file records of an RGZ patch into `grf`, in archive order;
/// directory records are ignored.
pub fn stage_rgz_entries(grf: &mut Grf, rgz: &Rgz)
    requires
        old(grf).wf(),
    ensures
        final(grf).wf(),
        final(grf).version == old(grf).version,
        final(grf).entries == old(grf).entries,
        final(grf).pending_map() == rgz_staged(old(grf).pending_map(), rgz.ops()),
        final(grf).pending_views() == rgz_stage_seq(old(grf).pending_views(), rgz.ops()),
{
    let ghost ops = rgz.ops();
    let mut i: usize = 0;
    while i < rgz.entries.len()
        invariant
            ops == rgz.ops(),
            i <= ops.len(),
            grf.wf(),
            grf.version == old(grf).version,
            grf.entries == old(grf).entries,
            grf.pending_map() == rgz_staged(old(grf).pending_map(), ops.subrange(0, i as int)),
            grf.pending_views() == rgz_stage_seq(old(grf).pending_views(), ops.subrange(0, i as int)),
        decreases ops.len() - i,
    {
        assert(ops[i as int] == rgz.entries@[i as int]@);
        assert(ops.subrange(0, i + 1).drop_last() =~= ops.subrange(0, i as int));
        match &rgz.entries[i] {
            RgzEntry::File { name, data } => {
                let _ = grf.patch_file(name.as_slice(), data.as_slice());
            },
            RgzEntry::Directory { .. } => {},
        }
        i = i + 1;
    }
    assert(ops.subrange(0, i as int) =~= ops);
}

/// The payloads of `names` in BEAM image `img` whose records are `m`.
pub open spec fn beam_payloads(img: Seq<u8>, m: Map<Seq<u8>, crate::beam::BeamEntryView>, names: Seq<Seq<u8>>) -> Seq<Seq<u8>> {
    Seq::new(names.len(), |i: int| beam_extract(img, m, names[i])->Ok_0)
}

/// The contents of `names` in GPF image `img` whose table is `m`.
pub open spec fn gpf_payloads(img: Seq<u8>, m: Map<Seq<u8>, crate::grf_table::EntryView>, names: Seq<Seq<u8>>) -> Seq<Seq<u8>> {
    Seq::new(names.len(), |i: int| extract_spec(img, m, names[i])->Ok_0)
}

/// Stages every file of a BEAM patch into `grf`, in table order. All
/// payloads are checked against their MD5 first: on the first failure
/// nothing is staged and its error is returned.
pub fn stage_beam_entries(grf: &mut Grf, beam: &BeamArchive, image: &[u8]) -> (r: Result<(), Error>)
    requires
        old(grf).wf(),
        beam.wf(),
    ensures
        final(grf).wf(),
        final(grf).version == old(grf).version,
        final(grf).entries == old(grf).entries,
        ({
            let names = beam.entry_views().map_values(|e: BeamEntryView| e.name);
            match beam_first_error(image@, beam.entries_map(), names) {
                Some(e) => r == Err::<(), Error>(e) && *final(grf) == *old(grf),
                None => r is Ok && final(grf).pending_views() == names_stage_seq(
                    old(grf).pending_views(),
                    names,
                    beam_payloads(image@, beam.entries_map(), names),
                ),
            }
        }),
        ({
            let names = beam.entry_views().map_values(|e: BeamEntryView| e.name);
            if forall|i: int| 0 <= i < names.len() ==> (#[trigger] beam_extract(image@, beam.entries_map(), names[i])) is Ok {
                r is Ok && final(grf).pending_map() == all_staged(
                    old(grf).pending_map(),
                    names,
                    beam_payloads(image@, beam.entries_map(), names),
                )
            } else {
                r is Err && *final(grf) == *old(grf)
            }
        }),
{
    let names = beam.list_files();
    let ghost nm = beam.entry_views().map_values(|e: BeamEntryView| e.name);
    let ghost bm = beam.entries_map();
    assert(names@.len() == nm.len()) by {
        assert(names@.map_values(|v: Vec<u8>| v@).len() == names@.len());
    }
    assert(nm.subrange(0, nm.len() as int) =~= nm);
    let mut i: usize = 0;
    while i < names.len()
        invariant
            beam.wf(),
            bm == beam.entries_map(),
            nm == beam.entry_views().map_values(|e: BeamEntryView| e.name),
            names@.map_values(|v: Vec<u8>| v@) == nm,
            names@.len() == nm.len(),
            i <= nm.len(),
            *grf == *old(grf),
            old(grf).wf(),
            forall|j: int| 0 <= j < i ==> (#[trigger] beam_extract(image@, bm, nm[j])) is Ok,
            beam_first_error(image@, bm, nm) == beam_first_error(image@, bm, nm.subrange(i as int, nm.len() as int)),
        decreases nm.len() - i,
    {
        assert(names@[i as int]@ == nm[i as int]);
        proof { lemma_beam_first_error_step(image@, bm, nm, i as int); }
        match beam.verify_file(image, names[i].as_slice()) {
            Ok(true) => {},
            Ok(false) => {
                assert(beam_extract(image@, bm, nm[i as int]) == Err::<Seq<u8>, Error>(Error::ChecksumMismatch));
                assert(!(forall|j: int| 0 <= j < nm.len() ==> (#[trigger] beam_extract(image@, beam.entries_map(), nm[j])) is Ok));
                return Err(Error::ChecksumMismatch);
            },
            Err(e) => {
                assert(beam_extract(image@, bm, nm[i as int]) == Err::<Seq<u8>, Error>(e));
                assert(!(forall|j: int| 0 <= j < nm.len() ==> (#[trigger] beam_extract(image@, beam.entries_map(), nm[j])) is Ok));
                return Err(e);
            },
        }
        i = i + 1;
    }
    assert(nm.subrange(i as int, nm.len() as int) =~= Seq::<Seq<u8>>::empty());
    let ghost pay = beam_payloads(image@, bm, nm);
    let mut k: usize = 0;
    while k < names.len()
        invariant
            beam.wf(),
            bm == beam.entries_map(),
            nm == beam.entry_views().map_values(|e: BeamEntryView| e.name),
            names@.map_values(|v: Vec<u8>| v@) == nm,
            names@.len() == nm.len(),
            pay == beam_payloads(image@, bm, nm),
            k <= nm.len(),
            forall|j: int| 0 <= j < nm.len() ==> (#[trigger] beam_extract(image@, bm, nm[j])) is Ok,
            grf.wf(),
            grf.version == old(grf).version,
            grf.entries == old(grf).entries,
            grf.pending_map() == all_staged(old(grf).pending_map(), nm.subrange(0, k as int), pay),
            grf.pending_views() == names_stage_seq(old(grf).pending_views(), nm.subrange(0, k as int), pay),
        decreases nm.len() - k,
    {
        assert(names@[k as int]@ == nm[k as int]);
        assert(beam_extract(image@, bm, nm[k as int]) is Ok);
        let data = match beam.extract_file(image, names[k].as_slice()) {
            Ok(d) => d,
            Err(e) => {
                return Err(e);
            },
        };
        let _ = grf.patch_file(names[k].as_slice(), data.as_slice());
        proof {
            assert(nm.subrange(0, k + 1).drop_last() =~= nm.subrange(0, k as int));
        }
        k = k + 1;
    }
    assert(nm.subrange(0, k as int) =~= nm);
    Ok(())
}

/// Stages every file of a GPF patch into `grf`, in table order. All files
/// are extracted first: on the first failure nothing is staged and its
/// error is returned.
pub fn stage_gpf_entries(grf: &mut Grf, gpf: &Gpf, image: &[u8]) -> (r: Result<(), Error>)
    requires
        old(grf).wf(),
        gpf.wf(),
    ensures
        final(grf).wf(),
        final(grf).version == old(grf).version,
        final(grf).entries == old(grf).entries,
        ({
            let names = gpf.grf.names();
            match gpf_first_error(image@, gpf.entries_map(), names) {
                Some(e) => r == Err::<(), Error>(e) && *final(grf) == *old(grf),
                None => r is Ok && final(grf).pending_views() == names_stage_seq(
                    old(grf).pending_views(),
                    names,
                    gpf_payloads(image@, gpf.entries_map(), names),
                ),
            }
        }),
        ({
            let names = gpf.grf.names();
            if forall|i: int| 0 <= i < names.len() ==> (#[trigger] extract_spec(image@, gpf.entries_map(), names[i])) is Ok {
                r is Ok && final(grf).pending_map() == all_staged(
                    old(grf).pending_map(),
                    names,
                    gpf_payloads(image@, gpf.entries_map(), names),
                )
            } else {
                r is Err && *final(grf) == *old(grf)
            }
        }),
{
    let names = gpf.list_files();
    let ghost nm = gpf.grf.names();
    let ghost gm = gpf.entries_map();
    let ghost pay = gpf_payloads(image@, gm, nm);
    assert(names@.len() == nm.len()) by {
        assert(names@.map_values(|v: Vec<u8>| v@).len() == names@.len());
    }
    assert(nm.subrange(0, nm.len() as int) =~= nm);
    let mut contents: Vec<Vec<u8>> = Vec::new();
    let mut i: usize = 0;
    while i < names.len()
        invariant
            gpf.wf(),
            gm == gpf.entries_map(),
            nm == gpf.grf.names(),
            names@.map_values(|v: Vec<u8>| v@) == nm,
            names@.len() == nm.len(),
            pay == gpf_payloads(image@, gm, nm),
            i <= nm.len(),
            *grf == *old(grf),
            old(grf).wf(),
            contents@.len() == i,
            forall|j: int| 0 <= j < i ==> (#[trigger] extract_spec(image@, gm, nm[j])) is Ok,
            forall|j: int| 0 <= j < i ==> (#[trigger] contents@[j])@ == pay[j],
            gpf_first_error(image@, gm, nm) == gpf_first_error(image@, gm, nm.subrange(i as int, nm.len() as int)),
        decreases nm.len() - i,
    {
        assert(names@[i as int]@ == nm[i as int]);
        proof { lemma_gpf_first_error_step(image@, gm, nm, i as int); }
        let data = match gpf.extract_file(image, names[i].as_slice()) {
            Ok(d) => d,
            Err(e) => {
                assert(!(forall|j: int| 0 <= j < nm.len() ==> (#[trigger] extract_spec(image@, gpf.entries_map(), nm[j])) is Ok));
                return Err(e);
            },
        };
        contents.push(data);
        i = i + 1;
    }
    assert(nm.subrange(i as int, nm.len() as int) =~= Seq::<Seq<u8>>::empty());
    let mut k: usize = 0;
    while k < names.len()
        invariant
            gpf.wf(),
            gm == gpf.entries_map(),
            nm == gpf.grf.names(),
            names@.map_values(|v: Vec<u8>| v@) == nm,
            names@.len() == nm.len(),
            pay == gpf_payloads(image@, gm, nm),
            contents@.len() == nm.len(),
            forall|j: int| 0 <= j < nm.len() ==> (#[trigger] contents@[j])@ == pay[j],
            k <= nm.len(),
            grf.wf(),
            grf.version == old(grf).version,
            grf.entries == old(grf).entries,
            grf.pending_map() == all_staged(old(grf).pending_map(), nm.subrange(0, k as int), pay),
            grf.pending_views() == names_stage_seq(old(grf).pending_views(), nm.subrange(0, k as int), pay),
        decreases nm.len() - k,
    {
        assert(names@[k as int]@ == nm[k as int]);
        let _ = grf.patch_file(names[k].as_slice(), contents[k].as_slice());
        proof {
            assert(nm.subrange(0, k + 1).drop_last() =~= nm.subrange(0, k as int));
        }
        k = k + 1;
    }
    assert(nm.subrange(0, k as int) =~= nm);
    Ok(())
}

/// The files a BEAM archive with records `bm` in image `img` adds.
pub open spec fn beam_additions(img: Seq<u8>, bm: Map<Seq<u8>, BeamEntryView>) -> Map<Seq<u8>, Seq<u8>> {
    Map::new(|n: Seq<u8>| bm.contains_key(n), |n: Seq<u8>| beam_extract(img, bm, n)->Ok_0)
}

/// The files a GPF archive with table `gm` in image `img` adds.
pub open spec fn gpf_additions(img: Seq<u8>, gm: Map<Seq<u8>, EntryView>) -> Map<Seq<u8>, Seq<u8>> {
    Map::new(|n: Seq<u8>| gm.contains_key(n), |n: Seq<u8>| extract_spec(img, gm, n)->Ok_0)
}

/// Classifies and parses a patch archive and stages its files into `grf`,
/// without committing. A THOR `Remove` and an RGZ directory stage nothing;
/// a BEAM archive stages nothing unless every file passes its MD5 check.
pub fn stage_patch(grf: &mut Grf, patch_path: &[u8], patch: &[u8]) -> (r: Result<(), Error>)
    requires
        old(grf).wf(),
        patch_path@.len() < 0x7FFF_FFFF_FFFF_FFFF,
    ensures
        final(grf).wf(),
        final(grf).version == old(grf).version,
        final(grf).entries == old(grf).entries,
        match staged_seq(old(grf).pending_views(), patch_path@, patch@) {
            Ok(ps) => r is Ok && final(grf).pending_views() == ps,
            Err(e) => r == Err::<(), Error>(e) && *final(grf) == *old(grf),
        },
        match patch_format(patch_path@) {
            Err(e) => r == Err::<(), Error>(e) && *final(grf) == *old(grf),
            Ok(PatchFormat::Thor) => match crate::thor::thor_file(patch@) {
                Err(e) => r == Err::<(), Error>(e) && *final(grf) == *old(grf),
                Ok(ops) => r is Ok && final(grf).pending_map() == thor_staged(old(grf).pending_map(), ops),
            },
            Ok(PatchFormat::Rgz) => match crate::rgz::rgz_file(patch@) {
                Err(e) => r == Err::<(), Error>(e) && *final(grf) == *old(grf),
                Ok(ops) => r is Ok && final(grf).pending_map() == rgz_staged(old(grf).pending_map(), ops),
            },
            Ok(PatchFormat::Beam) => match beam_image(patch@) {
                Err(e) => r == Err::<(), Error>(e) && *final(grf) == *old(grf),
                Ok((_, bm)) => if forall|n: Seq<u8>| #[trigger] bm.contains_key(n) ==> beam_extract(patch@, bm, n) is Ok {
                    r is Ok && final(grf).pending_map() == old(grf).pending_map().union_prefer_right(
                        beam_additions(patch@, bm),
                    )
                } else {
                    r is Err && *final(grf) == *old(grf)
                },
            },
            Ok(PatchFormat::Gpf) => match grf_image(patch@) {
                Err(e) => r == Err::<(), Error>(e) && *final(grf) == *old(grf),
                Ok((_, gm)) => if forall|n: Seq<u8>| #[trigger] gm.contains_key(n) ==> extract_spec(patch@, gm, n) is Ok {
                    r is Ok && final(grf).pending_map() == old(grf).pending_map().union_prefer_right(
                        gpf_additions(patch@, gm),
                    )
                } else {
                    r is Err && *final(grf) == *old(grf)
                },
            },
        },
{
    let format = classify_patch(patch_path)?;
    match format {
        PatchFormat::Beam => {
            let beam = BeamArchive::open(patch)?;
            let ghost bm = beam.entries_map();
            let ghost names = beam.entry_views().map_values(|e: BeamEntryView| e.name);
            proof {
                assert forall|n: Seq<u8>| #[trigger] bm.contains_key(n) <==> exists|i: int| 0 <= i < names.len() && names[i] == n by {
                    lemma_beam_map_dom(beam.entry_views(), n);
                    if bm.contains_key(n) {
                        let i = choose|i: int| 0 <= i < beam.entry_views().len() && beam.entry_views()[i].name == n;
                        assert(names[i] == n);
                    }
                }
                let ok_all = forall|n: Seq<u8>| #[trigger] bm.contains_key(n) ==> beam_extract(patch@, bm, n) is Ok;
                let ok_names = forall|i: int| 0 <= i < names.len() ==> (#[trigger] beam_extract(patch@, bm, names[i])) is Ok;
                if ok_all {
                    assert forall|i: int| 0 <= i < names.len() implies (#[trigger] beam_extract(patch@, bm, names[i])) is Ok by {
                        assert(bm.contains_key(names[i]));
                    }
                }
                if ok_names {
                    assert forall|n: Seq<u8>| #[trigger] bm.contains_key(n) implies beam_extract(patch@, bm, n) is Ok by {
                        let i = choose|i: int| 0 <= i < names.len() && names[i] == n;
                        assert(beam_extract(patch@, bm, names[i]) is Ok);
                    }
                }
                assert(ok_all == ok_names);
            }
            let ghost before = grf.pending_map();
            stage_beam_entries(grf, &beam, patch)?;
            proof {
                let add = beam_additions(patch@, bm);
                let data = crate::patcher::beam_payloads(patch@, bm, names);
                assert forall|i: int, j: int| 0 <= i < names.len() && 0 <= j < names.len() && i != j implies names[i] != names[j] by {
                    assert(names[i] == beam.entry_views()[i].name && names[j] == beam.entry_views()[j].name);
                }
                assert forall|n: Seq<u8>| #[trigger] add.contains_key(n) <==> exists|i: int| 0 <= i < names.len() && names[i] == n by {
                    assert(add.contains_key(n) == bm.contains_key(n));
                }
                assert forall|i: int| 0 <= i < names.len() implies add[#[trigger] names[i]] == data[i] by {
                    assert(bm.contains_key(names[i]));
                }
                lemma_all_staged_union(before, names, data, add);
            }
        },
        PatchFormat::Thor => {
            let thor = Thor::from_bytes(patch)?;
            stage_thor_entries(grf, &thor);
        },
        PatchFormat::Rgz => {
            let rgz = Rgz::from_bytes(patch)?;
            stage_rgz_entries(grf, &rgz);
        },
        PatchFormat::Gpf => {
            let gpf = Gpf::open(patch)?;
            let ghost gm = gpf.entries_map();
            let ghost names = gpf.grf.names();
            proof {
                assert forall|n: Seq<u8>| #[trigger] gm.contains_key(n) <==> exists|i: int| 0 <= i < names.len() && names[i] == n by {
                    lemma_as_map_dom(gpf.grf.entry_views(), n);
                    if gm.contains_key(n) {
                        let i = choose|i: int| 0 <= i < gpf.grf.entry_views().len() && gpf.grf.entry_views()[i].name == n;
                        assert(names[i] == n);
                    }
                }
                let ok_all = forall|n: Seq<u8>| #[trigger] gm.contains_key(n) ==> extract_spec(patch@, gm, n) is Ok;
                let ok_names = forall|i: int| 0 <= i < names.len() ==> (#[trigger] extract_spec(patch@, gm, names[i])) is Ok;
                if ok_all {
                    assert forall|i: int| 0 <= i < names.len() implies (#[trigger] extract_spec(patch@, gm, names[i])) is Ok by {
                        assert(gm.contains_key(names[i]));
                    }
                }
                if ok_names {
                    assert forall|n: Seq<u8>| #[trigger] gm.contains_key(n) implies extract_spec(patch@, gm, n) is Ok by {
                        let i = choose|i: int| 0 <= i < names.len() && names[i] == n;
                        assert(extract_spec(patch@, gm, names[i]) is Ok);
                    }
                }
                assert(ok_all == ok_names);
            }
            let ghost before = grf.pending_map();
            stage_gpf_entries(grf, &gpf, patch)?;
            proof {
                let add = gpf_additions(patch@, gm);
                let data = crate::patcher::gpf_payloads(patch@, gm, names);
                assert forall|i: int, j: int| 0 <= i < names.len() && 0 <= j < names.len() && i != j implies names[i] != names[j] by {
                    assert(names[i] == gpf.grf.entry_views()[i].name && names[j] == gpf.grf.entry_views()[j].name);
                }
                assert forall|n: Seq<u8>| #[trigger] add.contains_key(n) <==> exists|i: int| 0 <= i < names.len() && names[i] == n by {
                    assert(add.contains_key(n) == gm.contains_key(n));
                }
                assert forall|i: int| 0 <= i < names.len() implies add[#[trigger] names[i]] == data[i] by {
                    assert(gm.contains_key(names[i]));
                }
                lemma_all_staged_union(before, names, data, add);
            }
        },
    }
    Ok(())
}

/// Merges a patch archive into a GRF: classifies it by the extension of
/// `patch_path`, parses `patch` (its bytes), stages its files into `grf`,
/// and commits against `grf_image`, the bytes of the GRF file. When the
/// patch cannot be staged, its error is returned and `grf` is left as it
/// was; otherwise the result is that of committing the staged handle: the
/// new image to write, if any, with the laws of a commit.
pub fn apply_patch(grf: &mut Grf, grf_image: &[u8], patch_path: &[u8], patch: &[u8]) -> (r: Result<Option<Vec<u8>>, Error>)
    requires
        old(grf).wf(),
        patch_path@.len() < 0x7FFF_FFFF_FFFF_FFFF,
    ensures
        final(grf).wf(),
        match staged_seq(old(grf).pending_views(), patch_path@, patch@) {
            Err(e) => r == Err::<Option<Vec<u8>>, Error>(e) && *final(grf) == *old(grf),
            Ok(ps) => commit_outcome(grf_image@, old(grf).version, old(grf).entry_views(), ps, r, *final(grf))
                && commit_laws(grf_image@, old(grf).version, old(grf).entry_views(), ps, r, *final(grf)),
        },
{
    stage_patch(grf, patch_path, patch)?;
    grf.save(grf_image)
}

} // verus!
