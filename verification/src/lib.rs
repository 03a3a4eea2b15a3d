use vstd::prelude::*;

pub mod text;
pub mod ordering;
pub mod playback;
pub mod parsers;
pub mod tags;
pub mod tag_tree;
pub mod tag_reconcile;
pub mod tag_views;
pub mod tag_edit;
pub mod tag_songs;
pub mod tag_write;
pub mod subsonic;
pub mod subsonic_sync;
pub mod restart;
pub mod stats;
pub mod scheduler;
pub mod auto_sync;
pub mod errors;
pub mod scrobbler;
pub mod acoustid;
pub mod playlist;

verus! {

} // verus!
