use vstd::prelude::*;
use crate::compress::{gzip_decoded, gzip_decompress};
use crate::cursor::{read_bytes, read_u32_le, read_u8, u32_at};
use crate::error::Error;

verus! {

/// Length of the fixed THOR magic.
pub const THOR_MAGIC_LEN: usize = 28;

/// The fixed THOR magic, `ASSF (C) 2007 Aeomin DEV` followed by
/// `1A 04 0C 00`.
pub open spec fn thor_magic() -> Seq<u8> {
    seq![
        0x41u8, 0x53, 0x53, 0x46, 0x20, 0x28, 0x43, 0x29, 0x20, 0x32, 0x30, 0x30, 0x37, 0x20,
        0x41, 0x65, 0x6f, 0x6d, 0x69, 0x6e, 0x20, 0x44, 0x45, 0x56, 0x1a, 0x04, 0x0c, 0x00,
    ]
}

fn magic_bytes() -> (r: Vec<u8>)
    ensures
        r@ == thor_magic(),
{
    let r: Vec<u8> = vec![
        0x41u8, 0x53, 0x53, 0x46, 0x20, 0x28, 0x43, 0x29, 0x20, 0x32, 0x30, 0x30, 0x37, 0x20,
        0x41, 0x65, 0x6f, 0x6d, 0x69, 0x6e, 0x20, 0x44, 0x45, 0x56, 0x1a, 0x04, 0x0c, 0x00,
    ];
    assert(r@ =~= thor_magic());
    r
}

/// One operation of a THOR patch, as a value.
pub enum ThorOp {
    Add { filename: Seq<u8>, data: Seq<u8> },
    Remove { filename: Seq<u8> },
}

/// One operation of a THOR patch.
#[derive(Debug)]
pub enum ThorEntry {
    /// Add or replace `filename` with `data`.
    Add { filename: Vec<u8>, data: Vec<u8> },
    /// Remove `filename`.
    Remove { filename: Vec<u8> },
}

impl View for ThorEntry {
    type V = ThorOp;

    open spec fn view(&self) -> ThorOp {
        match self {
            ThorEntry::Add { filename, data } => ThorOp::Add { filename: filename@, data: data@ },
            ThorEntry::Remove { filename } => ThorOp::Remove { filename: filename@ },
        }
    }
}

/// `acc` in front of the records of a successful parse; an error unchanged.
pub open spec fn thor_prefixed(acc: Seq<ThorOp>, r: Result<Seq<ThorOp>, Error>) -> Result<Seq<ThorOp>, Error> {
    match r {
        Ok(rest) => Ok(acc + rest),
        Err(e) => Err(e),
    }
}

/// The operations held by a decompressed THOR body `s`, read to its end;
/// `base` is the offset of `s` in the body, used in error offsets.
/// A record is: mode, name length `n`, `n` name bytes; mode 1 adds a
/// length-prefixed payload, mode 2 is a removal, other modes are skipped.
pub open spec fn thor_records(s: Seq<u8>, base: int) -> Result<Seq<ThorOp>, Error>
    decreases s.len(),
{
    if s.len() == 0 {
        Ok(seq![])
    } else if s.len() < 2 {
        Err(Error::MalformedArchive((base + 1) as u64))
    } else {
        let n = s[1] as int;
        if s.len() < 2 + n {
            Err(Error::MalformedArchive((base + 2) as u64))
        } else {
            let name = s.subrange(2, 2 + n);
            if s[0] == 1 {
                if s.len() < 6 + n {
                    Err(Error::MalformedArchive((base + 2 + n) as u64))
                } else {
                    let size = u32_at(s, 2 + n) as int;
                    if s.len() < 6 + n + size {
                        Err(Error::MalformedArchive((base + 6 + n) as u64))
                    } else {
                        thor_prefixed(
                            seq![ThorOp::Add { filename: name, data: s.subrange(6 + n, 6 + n + size) }],
                            thor_records(s.subrange(6 + n + size, s.len() as int), base + 6 + n + size),
                        )
                    }
                }
            } else if s[0] == 2 {
                thor_prefixed(
                    seq![ThorOp::Remove { filename: name }],
                    thor_records(s.subrange(2 + n, s.len() as int), base + 2 + n),
                )
            } else {
                thor_records(s.subrange(2 + n, s.len() as int), base + 2 + n)
            }
        }
    }
}

/// Length of the record at the start of `s`, where its fields fit in `s`.
pub open spec fn thor_record_len(s: Seq<u8>) -> Option<int> {
    if s.len() < 2 || s.len() < 2 + s[1] {
        None
    } else if s[0] != 1 {
        Some(2 + s[1] as int)
    } else if s.len() < 6 + s[1] {
        None
    } else if s.len() < 6 + s[1] + u32_at(s, 2 + s[1] as int) {
        None
    } else {
        Some(6 + s[1] as int + u32_at(s, 2 + s[1] as int))
    }
}

/// `s` is a whole number of records, with nothing left over.
pub open spec fn thor_tiled(s: Seq<u8>) -> bool
    decreases s.len(),
{
    if s.len() == 0 {
        true
    } else {
        match thor_record_len(s) {
            None => false,
            Some(k) => 0 < k <= s.len() && thor_tiled(s.subrange(k, s.len() as int)),
        }
    }
}

/// A THOR body parses exactly when its records run to its last byte.
pub proof fn lemma_thor_parse_reads_to_end(s: Seq<u8>, base: int)
    ensures
        thor_records(s, base) is Ok <==> thor_tiled(s),
    decreases s.len(),
{
    if s.len() > 0 {
        match thor_record_len(s) {
            None => {},
            Some(k) => {
                lemma_thor_parse_reads_to_end(s.subrange(k, s.len() as int), base + k);
            },
        }
    }
}

/// What a whole THOR file `data` holds: the magic, then a gzip stream whose
/// decompressed body is a sequence of records.
pub open spec fn thor_file(data: Seq<u8>) -> Result<Seq<ThorOp>, Error> {
    if data.len() < THOR_MAGIC_LEN || data.subrange(0, THOR_MAGIC_LEN as int) != thor_magic() {
        Err(Error::InvalidHeader)
    } else {
        match gzip_decoded(data.subrange(THOR_MAGIC_LEN as int, data.len() as int)) {
            None => Err(Error::Decompression),
            Some(body) => thor_records(body, 0),
        }
    }
}

/// A parsed THOR patch archive.
#[derive(Debug)]
pub struct Thor {
    pub entries: Vec<ThorEntry>,
}

impl Thor {
    /// The operations, in archive order.
    pub open spec fn ops(&self) -> Seq<ThorOp> {
        self.entries@.map_values(|e: ThorEntry| e@)
    }

    /// Parses a whole THOR file.
    pub fn from_bytes(data: &[u8]) -> (r: Result<Thor, Error>)
        ensures
            match thor_file(data@) {
                Ok(ops) => r is Ok && r->Ok_0.ops() == ops,
                Err(e) => r == Err::<Thor, Error>(e),
            },
    {
        if data.len() < THOR_MAGIC_LEN {
            return Err(Error::InvalidHeader);
        }
        let magic = magic_bytes();
        let head = vstd::slice::slice_subrange(data, 0, THOR_MAGIC_LEN);
        if !crate::cursor::bytes_eq(head, magic.as_slice()) {
            return Err(Error::InvalidHeader);
        }
        let rest = vstd::slice::slice_subrange(data, THOR_MAGIC_LEN, data.len());
        let body = gzip_decompress(rest)?;
        Thor::from_body(body.as_slice())
    }

    /// Parses a decompressed THOR body: records until the end of `body`.
    pub fn from_body(body: &[u8]) -> (r: Result<Thor, Error>)
        ensures
            match thor_records(body@, 0) {
                Ok(ops) => r is Ok && r->Ok_0.ops() == ops,
                Err(e) => r == Err::<Thor, Error>(e),
            },
    {
        let s = Ghost(body@);
        let len = body.len();
        let mut entries: Vec<ThorEntry> = Vec::new();
        let mut pos: usize = 0;
        proof {
            assert(s@.subrange(0, len as int) =~= s@);
            assert(thor_prefixed(seq![], thor_records(s@, 0)) == thor_records(s@, 0)) by {
                match thor_records(s@, 0) {
                    Ok(rest) => { assert(Seq::<ThorOp>::empty() + rest =~= rest); }
                    Err(_) => {}
                }
            }
        }
        while pos < len
            invariant
                s@ == body@,
                len == body@.len(),
                pos <= len,
                thor_records(s@, 0) == thor_prefixed(
                    entries@.map_values(|e: ThorEntry| e@),
                    thor_records(s@.subrange(pos as int, len as int), pos as int),
                ),
            decreases len - pos,
        {
            let ghost t = s@.subrange(pos as int, len as int);
            let ghost acc = entries@.map_values(|e: ThorEntry| e@);
            let mode = read_u8(body, pos)?;
            let n = read_u8(body, pos + 1)? as usize;
            let name = read_bytes(body, pos + 2, n)?;
            assert(name@ =~= t.subrange(2, 2 + n));
            if mode == 1 {
                let size = read_u32_le(body, pos + 2 + n)? as usize;
                assert(t.subrange(2 + n, 6 + n) =~= s@.subrange(pos + 2 + n, pos + 6 + n));
                let data = read_bytes(body, pos + 6 + n, size)?;
                assert(data@ =~= t.subrange(6 + n, 6 + n + size));
                let ghost op = ThorOp::Add { filename: name@, data: data@ };
                entries.push(ThorEntry::Add { filename: name, data });
                pos = pos + 6 + n + size;
                proof {
                    assert(t.subrange(6 + n + size, t.len() as int) =~= s@.subrange(pos as int, len as int));
                    assert(entries@.map_values(|e: ThorEntry| e@) =~= acc + seq![op]);
                    let r = thor_records(s@.subrange(pos as int, len as int), pos as int);
                    match r {
                        Ok(rest) => { assert(acc + (seq![op] + rest) =~= (acc + seq![op]) + rest); }
                        Err(_) => {}
                    }
                }
            } else if mode == 2 {
                let ghost op = ThorOp::Remove { filename: name@ };
                entries.push(ThorEntry::Remove { filename: name });
                pos = pos + 2 + n;
                proof {
                    assert(t.subrange(2 + n, t.len() as int) =~= s@.subrange(pos as int, len as int));
                    assert(entries@.map_values(|e: ThorEntry| e@) =~= acc + seq![op]);
                    let r = thor_records(s@.subrange(pos as int, len as int), pos as int);
                    match r {
                        Ok(rest) => { assert(acc + (seq![op] + rest) =~= (acc + seq![op]) + rest); }
                        Err(_) => {}
                    }
                }
            } else {
                pos = pos + 2 + n;
                assert(t.subrange(2 + n, t.len() as int) =~= s@.subrange(pos as int, len as int));
            }
        }
        proof {
            let acc = entries@.map_values(|e: ThorEntry| e@);
            assert(s@.subrange(pos as int, len as int).len() == 0);
            assert(acc + Seq::<ThorOp>::empty() =~= acc);
        }
        Ok(Thor { entries })
    }

    /// The operations, in archive order.
    pub fn get_entries(&self) -> (r: &[ThorEntry])
        ensures
            r@ == self.entries@,
    {
        self.entries.as_slice()
    }
}

} // verus!
