//! A recency-tracked sticker store: a table mapping each sticker's stable
//! identity key to the handle it was last seen under and the time of that use,
//! with an upsert on every use, a most-recent-first listing, and a textual
//! snapshot format for persistence.

mod codec;
mod entry;
mod ext;
mod laws;
mod table;
mod time_stamp;

pub use codec::{
    entries_json, entry_json, esc, esc_char, lemma_snapshot_round_trip, lit_fid, lit_header,
    lit_id, lit_ts, quoted, spec_json,
};
pub use entry::{EntryView, StickersEntry};
pub use ext::rfc3339_instant;
pub use laws::{lemma_recency_ordering, lemma_update_reorders, lemma_upsert_id_stable};
pub use table::{
    distinct_keys, entries, entry_of, has_key, key_index, lemma_key_index_props,
    lemma_upsert_props, sorted_desc, table_wf, upsert, views, Data, TableView,
};
pub use time_stamp::{Timestamp, TsView};
