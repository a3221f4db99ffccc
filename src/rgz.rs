use vstd::prelude::*;
use crate::compress::{gzip_decoded, gzip_decompress};
use crate::cursor::{read_bytes, read_u32_le, read_u8, u32_at};
use crate::error::Error;

verus! {

/// Record tag of a file.
pub const TAG_FILE: u8 = 0x66;
/// Record tag of a directory.
pub const TAG_DIR: u8 = 0x64;
/// Record tag that ends the stream.
pub const TAG_END: u8 = 0x65;

/// One record of an RGZ patch, as a value.
pub enum RgzOp {
    File { name: Seq<u8>, data: Seq<u8> },
    Directory { name: Seq<u8> },
}

/// One record of an RGZ patch.
#[derive(Debug)]
pub enum RgzEntry {
    /// A file `name` with contents `data`.
    File { name: Vec<u8>, data: Vec<u8> },
    /// A directory `name`.
    Directory { name: Vec<u8> },
}

impl View for RgzEntry {
    type V = RgzOp;

    open spec fn view(&self) -> RgzOp {
        match self {
            RgzEntry::File { name, data } => RgzOp::File { name: name@, data: data@ },
            RgzEntry::Directory { name } => RgzOp::Directory { name: name@ },
        }
    }
}

/// `acc` in front of the records of a successful parse; an error unchanged.
pub open spec fn rgz_prefixed(acc: Seq<RgzOp>, r: Result<Seq<RgzOp>, Error>) -> Result<Seq<RgzOp>, Error> {
    match r {
        Ok(rest) => Ok(acc + rest),
        Err(e) => Err(e),
    }
}

/// The records held by a decompressed RGZ body `s`, read up to the end
/// marker (or the end of `s`); `base` is the offset of `s` in the body,
/// used in error offsets.
pub open spec fn rgz_records(s: Seq<u8>, base: int) -> Result<Seq<RgzOp>, Error>
    decreases s.len(),
{
    if s.len() == 0 || s[0] == TAG_END {
        Ok(seq![])
    } else if s[0] != TAG_FILE && s[0] != TAG_DIR {
        Err(Error::InvalidFormat)
    } else if s.len() < 2 {
        Err(Error::MalformedArchive((base + 1) as u64))
    } else {
        let n = s[1] as int;
        if s.len() < 2 + n {
            Err(Error::MalformedArchive((base + 2) as u64))
        } else {
            let name = s.subrange(2, 2 + n);
            if s[0] == TAG_DIR {
                rgz_prefixed(
                    seq![RgzOp::Directory { name }],
                    rgz_records(s.subrange(2 + n, s.len() as int), base + 2 + n),
                )
            } else if s.len() < 6 + n {
                Err(Error::MalformedArchive((base + 2 + n) as u64))
            } else {
                let size = u32_at(s, 2 + n) as int;
                if s.len() < 6 + n + size {
                    Err(Error::MalformedArchive((base + 6 + n) as u64))
                } else {
                    rgz_prefixed(
                        seq![RgzOp::File { name, data: s.subrange(6 + n, 6 + n + size) }],
                        rgz_records(s.subrange(6 + n + size, s.len() as int), base + 6 + n + size),
                    )
                }
            }
        }
    }
}

/// Length of the file or directory record at the start of `s`, where its
/// fields fit in `s`.
pub open spec fn rgz_record_len(s: Seq<u8>) -> Option<int> {
    if s.len() < 2 || s.len() < 2 + s[1] {
        None
    } else if s[0] == TAG_DIR {
        Some(2 + s[1] as int)
    } else if s.len() < 6 + s[1] {
        None
    } else if s.len() < 6 + s[1] + u32_at(s, 2 + s[1] as int) {
        None
    } else {
        Some(6 + s[1] as int + u32_at(s, 2 + s[1] as int))
    }
}

/// `s` is a whole number of file and directory records followed either by
/// nothing or by the end marker (after which anything may follow).
pub open spec fn rgz_tiled(s: Seq<u8>) -> bool
    decreases s.len(),
{
    if s.len() == 0 || s[0] == TAG_END {
        true
    } else if s[0] != TAG_FILE && s[0] != TAG_DIR {
        false
    } else {
        match rgz_record_len(s) {
            None => false,
            Some(k) => 0 < k <= s.len() && rgz_tiled(s.subrange(k, s.len() as int)),
        }
    }
}

/// An RGZ body parses exactly when its records run up to the end marker or
/// to its last byte.
pub proof fn lemma_rgz_parse_reads_to_end(s: Seq<u8>, base: int)
    ensures
        rgz_records(s, base) is Ok <==> rgz_tiled(s),
    decreases s.len(),
{
    if s.len() > 0 && s[0] != TAG_END && (s[0] == TAG_FILE || s[0] == TAG_DIR) {
        match rgz_record_len(s) {
            None => {},
            Some(k) => {
                lemma_rgz_parse_reads_to_end(s.subrange(k, s.len() as int), base + k);
            },
        }
    }
}

/// What a whole RGZ file holds: a gzip stream of records.
pub open spec fn rgz_file(data: Seq<u8>) -> Result<Seq<RgzOp>, Error> {
    match gzip_decoded(data) {
        None => Err(Error::Decompression),
        Some(body) => rgz_records(body, 0),
    }
}

/// A parsed RGZ patch archive.
#[derive(Debug)]
pub struct Rgz {
    pub entries: Vec<RgzEntry>,
}

impl Rgz {
    /// The records, in archive order.
    pub open spec fn ops(&self) -> Seq<RgzOp> {
        self.entries@.map_values(|e: RgzEntry| e@)
    }

    /// Parses a whole RGZ file.
    pub fn from_bytes(data: &[u8]) -> (r: Result<Rgz, Error>)
        ensures
            match rgz_file(data@) {
                Ok(ops) => r is Ok && r->Ok_0.ops() == ops,
                Err(e) => r == Err::<Rgz, Error>(e),
            },
    {
        let body = gzip_decompress(data)?;
        Rgz::from_body(body.as_slice())
    }

    /// Parses a decompressed RGZ body: records up to the end marker.
    pub fn from_body(body: &[u8]) -> (r: Result<Rgz, Error>)
        ensures
            match rgz_records(body@, 0) {
                Ok(ops) => r is Ok && r->Ok_0.ops() == ops,
                Err(e) => r == Err::<Rgz, Error>(e),
            },
    {
        let s = Ghost(body@);
        let len = body.len();
        let mut entries: Vec<RgzEntry> = Vec::new();
        let mut pos: usize = 0;
        proof {
            assert(s@.subrange(0, len as int) =~= s@);
            assert(rgz_prefixed(seq![], rgz_records(s@, 0)) == rgz_records(s@, 0)) by {
                match rgz_records(s@, 0) {
                    Ok(rest) => { assert(Seq::<RgzOp>::empty() + rest =~= rest); }
                    Err(_) => {}
                }
            }
        }
        while pos < len
            invariant
                s@ == body@,
                len == body@.len(),
                pos <= len,
                rgz_records(s@, 0) == rgz_prefixed(
                    entries@.map_values(|e: RgzEntry| e@),
                    rgz_records(s@.subrange(pos as int, len as int), pos as int),
                ),
            decreases len - pos,
        {
            let ghost t = s@.subrange(pos as int, len as int);
            let ghost acc = entries@.map_values(|e: RgzEntry| e@);
            let tag = body[pos];
            if tag == TAG_END {
                assert(acc + Seq::<RgzOp>::empty() =~= acc);
                return Ok(Rgz { entries });
            }
            if tag != TAG_FILE && tag != TAG_DIR {
                return Err(Error::InvalidFormat);
            }
            let n = read_u8(body, pos + 1)? as usize;
            let name = read_bytes(body, pos + 2, n)?;
            assert(name@ =~= t.subrange(2, 2 + n));
            if tag == TAG_DIR {
                let ghost op = RgzOp::Directory { name: name@ };
                entries.push(RgzEntry::Directory { name });
                pos = pos + 2 + n;
                proof {
                    assert(t.subrange(2 + n, t.len() as int) =~= s@.subrange(pos as int, len as int));
                    assert(entries@.map_values(|e: RgzEntry| e@) =~= acc + seq![op]);
                    match rgz_records(s@.subrange(pos as int, len as int), pos as int) {
                        Ok(rest) => { assert(acc + (seq![op] + rest) =~= (acc + seq![op]) + rest); }
                        Err(_) => {}
                    }
                }
            } else {
                let size = read_u32_le(body, pos + 2 + n)? as usize;
                assert(t.subrange(2 + n, 6 + n) =~= s@.subrange(pos + 2 + n, pos + 6 + n));
                let data = read_bytes(body, pos + 6 + n, size)?;
                assert(data@ =~= t.subrange(6 + n, 6 + n + size));
                let ghost op = RgzOp::File { name: name@, data: data@ };
                entries.push(RgzEntry::File { name, data });
                pos = pos + 6 + n + size;
                proof {
                    assert(t.subrange(6 + n + size, t.len() as int) =~= s@.subrange(pos as int, len as int));
                    assert(entries@.map_values(|e: RgzEntry| e@) =~= acc + seq![op]);
                    match rgz_records(s@.subrange(pos as int, len as int), pos as int) {
                        Ok(rest) => { assert(acc + (seq![op] + rest) =~= (acc + seq![op]) + rest); }
                        Err(_) => {}
                    }
                }
            }
        }
        proof {
            let acc = entries@.map_values(|e: RgzEntry| e@);
            assert(s@.subrange(pos as int, len as int).len() == 0);
            assert(acc + Seq::<RgzOp>::empty() =~= acc);
        }
        Ok(Rgz { entries })
    }

    /// The records, in archive order.
    pub fn get_entries(&self) -> (r: &[RgzEntry])
        ensures
            r@ == self.entries@,
    {
        self.entries.as_slice()
    }
}

} // verus!
