//! One record of the recency table: the stable identifier assigned at first
//! sight, the handle the item was last seen under, and the time of that use.

use vstd::prelude::*;

use crate::ext;
use crate::time_stamp::{Timestamp, TsView};

verus! {

/// Mathematical model of a [`StickersEntry`].
#[verifier::ext_equal]
pub ghost struct EntryView {
    pub id: Seq<char>,
    pub file_id: Seq<char>,
    pub at: TsView,
}

impl EntryView {
    /// The entry's timestamp is well formed.
    pub open spec fn wf(self) -> bool {
        self.at.wf()
    }
}

/// One tracked sticker: `id` is assigned once and never changes; `file_id`
/// and `last_usage_time` are replaced on every later use.
pub struct StickersEntry {
    pub id: String,
    pub file_id: String,
    pub last_usage_time: Timestamp,
}

impl View for StickersEntry {
    type V = EntryView;

    open spec fn view(&self) -> EntryView {
        EntryView { id: self.id@, file_id: self.file_id@, at: self.last_usage_time@ }
    }
}

impl Clone for StickersEntry {
    fn clone(&self) -> (r: Self)
        ensures
            r@ == self@,
    {
        let r = StickersEntry {
            id: self.id.clone(),
            file_id: self.file_id.clone(),
            last_usage_time: self.last_usage_time.clone(),
        };
        proof {
            assert(r@ =~= self@);
        }
        r
    }
}

impl StickersEntry {
    /// A brand-new entry: a freshly drawn identifier, the given handle, and
    /// the current time.
    pub fn new(file_id: String) -> (r: Self)
        ensures
            r@.file_id == file_id@,
            r@.id.len() == 36,
            r@.wf(),
    {
        StickersEntry { id: ext::fresh_id(), file_id, last_usage_time: Timestamp::now() }
    }

    /// A brand-new entry from the given identifier and time.
    pub fn new_at(id: String, file_id: String, at: Timestamp) -> (r: Self)
        ensures
            r@ == (EntryView { id: id@, file_id: file_id@, at: at@ }),
    {
        let r = StickersEntry { id, file_id, last_usage_time: at };
        proof {
            assert(r@ =~= (EntryView { id: r.id@, file_id: r.file_id@, at: r.last_usage_time@ }));
        }
        r
    }

    /// A later use of the same item: the handle and the time are replaced,
    /// the identifier is kept.
    pub fn update(&mut self, file_id: String)
        ensures
            final(self)@.id == old(self)@.id,
            final(self)@.file_id == file_id@,
            final(self)@.at.wf(),
    {
        self.file_id = file_id;
        self.last_usage_time = Timestamp::now();
    }

    /// A later use at the given time: the handle and the time are replaced,
    /// the identifier is kept.
    pub fn update_at(&mut self, file_id: String, at: Timestamp)
        ensures
            final(self)@ == (EntryView { id: old(self)@.id, file_id: file_id@, at: at@ }),
    {
        self.file_id = file_id;
        self.last_usage_time = at;
        proof {
            assert(self@ =~= (EntryView { id: self.id@, file_id: self.file_id@, at: self.last_usage_time@ }));
        }
    }
}

} // verus!
