use vstd::prelude::*;
use crate::error::Error;
use crate::grf::{Grf, extract_spec, grf_image, grf_records};
use crate::grf_table::keyed_seq;
use crate::grf_table::{EntryView, GrfEntry};

verus! {

/// A read-only view of a GPF patch archive, which shares the GRF layout.
#[derive(Debug)]
pub struct Gpf {
    pub grf: Grf,
}

impl Gpf {
    /// The file table, keyed by name.
    pub open spec fn entries_map(&self) -> Map<Seq<u8>, EntryView> {
        self.grf.entries_map()
    }

    pub open spec fn wf(&self) -> bool {
        self.grf.wf()
    }

    /// Opens an archive from its image.
    pub fn open(image: &[u8]) -> (r: Result<Gpf, Error>)
        ensures
            match grf_image(image@) {
                Ok((_, m)) => r is Ok && r->Ok_0.wf() && r->Ok_0.entries_map() == m,
                Err(e) => r == Err::<Gpf, Error>(e),
            },
            r is Ok ==> r->Ok_0.grf.entry_views() == keyed_seq(grf_records(image@)->Ok_0.1),
    {
        let grf = Grf::open(image)?;
        Ok(Gpf { grf })
    }

    /// The entry named `filename`, if any.
    pub fn get_entry(&self, filename: &[u8]) -> (r: Option<&GrfEntry>)
        requires
            self.wf(),
        ensures
            match r {
                Some(e) => self.entries_map().contains_key(filename@) && e@ == self.entries_map()[filename@],
                None => !self.entries_map().contains_key(filename@),
            },
    {
        self.grf.get_entry(filename)
    }

    /// The uncompressed contents of `filename`, read from `image`.
    pub fn extract_file(&self, image: &[u8], filename: &[u8]) -> (r: Result<Vec<u8>, Error>)
        requires
            self.wf(),
        ensures
            match extract_spec(image@, self.entries_map(), filename@) {
                Ok(d) => r is Ok && r->Ok_0@ == d,
                Err(e) => r == Err::<Vec<u8>, Error>(e),
            },
    {
        self.grf.extract_file(image, filename)
    }

    /// The names in the archive.
    pub fn list_files(&self) -> (r: Vec<Vec<u8>>)
        ensures
            r@.map_values(|v: Vec<u8>| v@) == self.grf.names(),
    {
        self.grf.list_files()
    }

    /// The number of files in the archive.
    pub fn file_count(&self) -> (r: usize)
        requires
            self.wf(),
        ensures
            r == self.entries_map().dom().len(),
    {
        self.grf.file_count()
    }
}

} // verus!
