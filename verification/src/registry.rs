//! Download bookkeeping for the model registry: per-model progress records
//! with unique names, and the resource URI under which a download is
//! published.

use vstd::prelude::*;
use vstd::string::StringSliceAdditionalSpecFns;

use crate::bytes::{starts_with_seq, starts_with_sub};

verus! {

/// Where a model's download stands.
pub enum DownloadStatus {
    /// Known to the registry, not downloaded yet.
    Pending,
    /// A download is under way.
    Downloading,
    /// The model is on disk.
    Complete,
    /// The download failed; the diagnostic text is kept.
    Failed(Vec<u8>),
}

/// One model's download record.
pub struct DownloadProgress {
    /// The model's name.
    pub model: Vec<u8>,
    /// Percentage finished, 0 to 100.
    pub progress: u8,
    /// Where the download stands.
    pub status: DownloadStatus,
}

/// Download records, one per model.
pub struct ProgressTable {
    /// The records; no two carry the same model name.
    pub entries: Vec<DownloadProgress>,
}

impl ProgressTable {
    /// No two records carry the same model name.
    pub open spec fn wf(self) -> bool {
        forall|i: int, j: int|
            0 <= i < j < self.entries@.len() ==> (#[trigger] self.entries@[i]).model@ != (
            #[trigger] self.entries@[j]).model@
    }

    /// Some record carries this model name.
    pub open spec fn has_model(self, m: Seq<u8>) -> bool {
        exists|i: int| 0 <= i < self.entries@.len() && (#[trigger] self.entries@[i]).model@ == m
    }

    /// An empty table.
    pub fn new() -> (r: Self)
        ensures
            r.wf(),
            r.entries@.len() == 0,
    {
        ProgressTable { entries: Vec::new() }
    }

    /// The position of the model's record, if it has one.
    fn find(&self, model: &[u8]) -> (r: Option<usize>)
        ensures
            match r {
                Some(i) => i < self.entries@.len() && self.entries@[i as int].model@ == model@,
                None => !self.has_model(model@),
            },
    {
        let n = self.entries.len();
        let mut i: usize = 0;
        while i < n
            invariant
                n == self.entries@.len(),
                i <= n,
                forall|k: int| 0 <= k < i ==> (#[trigger] self.entries@[k]).model@ != model@,
            decreases n - i,
        {
            if crate::bytes::bytes_eq(self.entries[i].model.as_slice(), model) {
                return Some(i);
            }
            i += 1;
        }
        None
    }

    /// The model's current download record, if the registry knows it: the
    /// stored entry itself, untouched.
    pub fn query_download_progress(&self, model: &[u8]) -> (r: Option<&DownloadProgress>)
        ensures
            match r {
                Some(p) => self.has_model(model@) && p.model@ == model@ && exists|i: int|
                    0 <= i < self.entries@.len() && #[trigger] self.entries@[i] == *p,
                None => !self.has_model(model@),
            },
    {
        match self.find(model) {
            Some(i) => Some(&self.entries[i]),
            None => None,
        }
    }

    /// Writes the model's download record: an existing record is replaced,
    /// a new model gets a fresh record; no other record changes.
    pub fn update_progress(&mut self, model: Vec<u8>, progress: u8, status: DownloadStatus)
        requires
            old(self).wf(),
        ensures
            final(self).wf(),
            final(self).has_model(model@),
            exists|i: int|
                0 <= i < final(self).entries@.len() && (#[trigger] final(self).entries@[i]).model@
                    == model@ && final(self).entries@[i].progress == progress && final(self).entries@[i].status == status,
            old(self).entries@.len() <= final(self).entries@.len() <= old(
                self,
            ).entries@.len() + 1,
            forall|k: int|
                0 <= k < old(self).entries@.len() && (#[trigger] old(self).entries@[k]).model@
                    != model@ ==> final(self).entries@[k] == old(self).entries@[k],
    {
        let ghost m = model@;
        match self.find(model.as_slice()) {
            Some(i) => {
                self.entries.set(i, DownloadProgress { model, progress, status });
                proof {
                    assert((final(self).entries@[i as int]).model@ == m);
                    assert forall|a: int, b: int|
                        0 <= a < b < self.entries@.len() implies (
                    #[trigger] self.entries@[a]).model@ != (#[trigger] self.entries@[b]).model@ by {
                        assert(old(self).entries@[a].model@ != old(self).entries@[b].model@);
                    }
                }
            },
            None => {
                self.entries.push(DownloadProgress { model, progress, status });
                proof {
                    let last = self.entries@.len() - 1;
                    assert((self.entries@[last]).model@ == m);
                    assert forall|a: int, b: int|
                        0 <= a < b < self.entries@.len() implies (
                    #[trigger] self.entries@[a]).model@ != (#[trigger] self.entries@[b]).model@ by {
                        if b < last {
                            assert(old(self).entries@[a].model@ != old(self).entries@[b].model@);
                        } else {
                            assert(self.entries@[a] == old(self).entries@[a]);
                            assert(!old(self).has_model(m));
                        }
                    }
                }
            },
        }
    }
}

/// The model named by a download resource URI `litert://downloads/<model>`,
/// if the URI has that shape.
pub open spec fn download_uri_model(uri: Seq<u8>) -> Option<Seq<u8>> {
    let pat = "litert://downloads/".spec_bytes();
    if starts_with_seq(uri, pat) {
        Some(uri.skip(pat.len() as int))
    } else {
        None
    }
}

/// Reads the model name out of a download resource URI, or nothing when
/// the URI does not carry the downloads prefix.
pub fn parse_download_uri(uri: &[u8]) -> (r: Option<Vec<u8>>)
    ensures
        match r {
            Some(m) => download_uri_model(uri@) == Some(m@),
            None => download_uri_model(uri@) is None,
        },
{
    let pat = "litert://downloads/".as_bytes();
    if starts_with_sub(uri, pat) {
        let m = vstd::slice::slice_to_vec(&uri[pat.len()..uri.len()]);
        proof {
            assert(m@ =~= uri@.skip("litert://downloads/".spec_bytes().len() as int));
        }
        Some(m)
    } else {
        None
    }
}

} // verus!
