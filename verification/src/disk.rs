//! The data file: pages of one size, numbered from 0.
//!
//! The manager holds the file's pages and decides what a read or a write does. The host
//! saves the pages that [`DiskManager::take_unsaved`] names; where it cannot, it tells
//! the manager with [`DiskManager::fail`].

use crate::error::{DiskError, IoError};
use crate::page::PageId;
use std::collections::HashMap;
use vstd::prelude::*;
use vstd::std_specs::hash::group_hash_axioms;

verus! {

broadcast use group_hash_axioms;

/// The pages of a database file.
pub struct DiskManager {
    page_size: usize,
    pages: HashMap<u64, Vec<u8>>,
    count: u64,
    broken: Option<IoError>,
    unsaved: Vec<PageId>,
    sync_calls: u64,
}

/// A database file.
#[verifier::ext_equal]
pub ghost struct DiskView {
    pub page_size: int,
    /// The pages that were written.
    pub pages: Map<u64, Seq<u8>>,
    /// The file's length in pages.
    pub count: u64,
    /// Why the file cannot be used, where the host has said so.
    pub broken: Option<IoError>,
    /// The pages written since the host last saved, in order.
    pub unsaved: Seq<PageId>,
}

impl DiskView {
    /// Every page that was written is one of the file's, of the right size.
    pub open spec fn wf(self) -> bool {
        forall|id: u64| #[trigger]
            self.pages.dom().contains(id) ==> id < self.count && self.pages[id].len()
                == self.page_size
    }

    /// The bytes of a page: zeros where it was never written.
    pub open spec fn content(self, id: u64) -> Seq<u8> {
        if self.pages.dom().contains(id) {
            self.pages[id]
        } else {
            Seq::new(self.page_size as nat, |i: int| 0u8)
        }
    }

    /// The file after the page was written.
    pub open spec fn put(self, id: u64, data: Seq<u8>) -> DiskView {
        DiskView {
            pages: self.pages.insert(id, data),
            count: if id < self.count {
                self.count
            } else {
                (id + 1) as u64
            },
            unsaved: self.unsaved.push(id),
            ..self
        }
    }
}

/// A page that was written is read back, and the others keep their bytes.
pub proof fn law_written_page_is_read(d: DiskView, id: u64, data: Seq<u8>, other: u64)
    requires
        d.wf(),
        id < u64::MAX,
        data.len() == d.page_size,
    ensures
        d.put(id, data).wf(),
        d.put(id, data).content(id) == data,
        other != id ==> d.put(id, data).content(other) == d.content(other),
        id < d.put(id, data).count,
        d.count <= d.put(id, data).count,
{
}

/// The file ends behind the last page that was ever written to it, and is asked to save what was
/// written.
pub proof fn law_file_grows(d: DiskView, id: u64, data: Seq<u8>)
    requires
        id < u64::MAX,
    ensures
        d.put(id, data).count >= d.count,
        d.put(id, data).count > id,
        d.put(id, data).count == d.count || d.put(id, data).count == id + 1,
        d.put(id, data).unsaved == d.unsaved.push(id),
        d.put(id, data).page_size == d.page_size,
        d.put(id, data).broken == d.broken,
{
}

impl View for DiskManager {
    type V = DiskView;

    closed spec fn view(&self) -> DiskView {
        DiskView {
            page_size: self.page_size as int,
            pages: self.pages@.map_values(|v: Vec<u8>| v@),
            count: self.count,
            broken: self.broken,
            unsaved: self.unsaved@,
        }
    }
}

impl DiskManager {
    /// Every page that was written is one of the file's, of the right size.
    pub open spec fn wf(&self) -> bool {
        self@.wf()
    }

    /// How often a sync was asked for, up to the largest number.
    pub closed spec fn syncs(&self) -> u64 {
        self.sync_calls
    }

    /// An empty file with pages of the given size.
    pub fn new(page_size: usize) -> (dm: Self)
        ensures
            dm.wf(),
            dm.syncs() == 0,
            dm@ == (DiskView {
                page_size: page_size as int,
                pages: Map::empty(),
                count: 0,
                broken: None,
                unsaved: Seq::empty(),
            }),
    {
        let dm = DiskManager {
            page_size,
            pages: HashMap::new(),
            count: 0,
            broken: None,
            unsaved: Vec::new(),
            sync_calls: 0,
        };
        assert(dm@.pages =~= Map::empty());
        dm
    }

    /// The size of a page.
    pub fn page_size(&self) -> (n: usize)
        ensures
            n == self@.page_size,
    {
        self.page_size
    }

    /// The number of pages in the file.
    pub fn num_pages(&self) -> (r: Result<u64, DiskError>)
        ensures
            r == (match self@.broken {
                Some(e) => Err::<u64, DiskError>(DiskError::Io(e)),
                None => Ok(self@.count),
            }),
    {
        match self.broken {
            Some(e) => Err(DiskError::Io(e)),
            None => Ok(self.count),
        }
    }

    /// Reads a page into the buffer, whose size must be that of a page.
    pub fn read_page(&self, page_id: PageId, buffer: &mut [u8]) -> (r: Result<(), DiskError>)
        requires
            self.wf(),
        ensures
            final(buffer)@.len() == old(buffer)@.len(),
            if old(buffer)@.len() != self@.page_size {
                r == Err::<(), DiskError>(DiskError::InvalidPageSize)
            } else if self@.broken is Some {
                r == Err::<(), DiskError>(DiskError::Io(self@.broken->0))
            } else if page_id >= self@.count {
                r == Err::<(), DiskError>(DiskError::Io(IoError::UnexpectedEof))
            } else {
                r is Ok && final(buffer)@ == self@.content(page_id)
            },
            r is Err ==> final(buffer)@ == old(buffer)@,
    {
        if buffer.len() != self.page_size {
            return Err(DiskError::InvalidPageSize);
        }
        if let Some(e) = self.broken {
            return Err(DiskError::Io(e));
        }
        if page_id >= self.count {
            return Err(DiskError::Io(IoError::UnexpectedEof));
        }
        match self.pages.get(&page_id) {
            Some(data) => {
                assert(self@.pages.dom().contains(page_id));
                assert(self@.pages[page_id] == data@);
                crate::bytes::write_bytes(buffer, 0, data.as_slice());
                assert(buffer@ =~= data@);
            },
            None => {
                let n: usize = buffer.len();
                crate::bytes::zero_bytes(buffer, 0, n);
                assert(buffer@ =~= self@.content(page_id));
            },
        }
        Ok(())
    }

    /// Writes a page, whose size must be right. It is durable once
    /// [`DiskManager::sync_data`] has succeeded after it.
    pub fn write_page(&mut self, page_id: PageId, data: &[u8]) -> (r: Result<(), DiskError>)
        requires
            old(self).wf(),
            page_id < u64::MAX,
        ensures
            final(self).wf(),
            final(self).syncs() == old(self).syncs(),
            if data@.len() != old(self)@.page_size {
                r == Err::<(), DiskError>(DiskError::InvalidPageSize) && final(self)@ == old(self)@
            } else if old(self)@.broken is Some {
                r == Err::<(), DiskError>(DiskError::Io(old(self)@.broken->0)) && final(self)@
                    == old(self)@
            } else {
                r is Ok && final(self)@ == old(self)@.put(page_id, data@)
            },
    {
        if data.len() != self.page_size {
            return Err(DiskError::InvalidPageSize);
        }
        if let Some(e) = self.broken {
            return Err(DiskError::Io(e));
        }
        let ghost before = self@;
        let copy: Vec<u8> = vstd::slice::slice_to_vec(data);
        self.pages.insert(page_id, copy);
        if page_id >= self.count {
            self.count = page_id + 1;
        }
        self.unsaved.push(page_id);
        proof {
            assert(self@.pages =~= before.put(page_id, data@).pages);
            law_written_page_is_read(before, page_id, data@, page_id);
        }
        Ok(())
    }

    /// Makes what was written durable.
    pub fn sync_data(&mut self) -> (r: Result<(), DiskError>)
        ensures
            final(self)@ == old(self)@,
            final(self).syncs() == (if old(self).syncs() < u64::MAX {
                old(self).syncs() + 1
            } else {
                u64::MAX as int
            }),
            r == (match old(self)@.broken {
                Some(e) => Err::<(), DiskError>(DiskError::Io(e)),
                None => Ok(()),
            }),
    {
        if self.sync_calls < u64::MAX {
            self.sync_calls = self.sync_calls + 1;
        }
        match self.broken {
            Some(e) => Err(DiskError::Io(e)),
            None => Ok(()),
        }
    }

    /// How often a sync was asked for.
    pub fn sync_data_call_count(&self) -> (n: u64)
        ensures
            n == self.syncs(),
    {
        self.sync_calls
    }

    /// Tells the manager that the host cannot use the file any more.
    pub fn fail(&mut self, error: IoError)
        ensures
            final(self)@ == (DiskView { broken: Some(error), ..old(self)@ }),
            final(self).syncs() == old(self).syncs(),
    {
        self.broken = Some(error);
    }

    /// Tells the manager that the host can use the file again.
    pub fn mend(&mut self)
        ensures
            final(self)@ == (DiskView { broken: None, ..old(self)@ }),
            final(self).syncs() == old(self).syncs(),
    {
        self.broken = None;
    }

    /// Hands the host the pages to save, in the order in which they were written.
    pub fn take_unsaved(&mut self) -> (ids: Vec<PageId>)
        ensures
            ids@ == old(self)@.unsaved,
            final(self)@ == (DiskView { unsaved: Seq::empty(), ..old(self)@ }),
            final(self).syncs() == old(self).syncs(),
    {
        let mut ids: Vec<PageId> = Vec::new();
        std::mem::swap(&mut ids, &mut self.unsaved);
        ids
    }
}

} // verus!
