//! Choices a song library provider is driven with: how the song list is
//! filtered and sorted. The providers themselves (file system scan, online
//! service) live in the host around this library.

use vstd::prelude::*;

verus! {

/// Which recorded scores a score list shows.
#[derive(Debug, Clone, Copy, PartialEq, Eq, Structural)]
pub enum ScoreFilter {
    /// Scores recorded on this machine.
    Local,
    /// Scores fetched from an online service.
    Online,
    /// Both, merged.
    Mixed,
}

/// Direction of a song sort.
#[derive(Debug, Clone, Copy, PartialEq, Eq, Structural)]
pub enum SortDir {
    Asc,
    Desc,
}

/// How the song list is sorted.
#[derive(Debug, Clone, Copy, PartialEq, Eq, Structural)]
pub enum SongSort {
    /// By song title, in the given direction.
    Title(SortDir),
}

/// How the song list is narrowed down.
#[derive(Debug, PartialEq, Eq)]
pub enum SongFilter {
    /// Only charts of the given difficulty level.
    Level(u8),
    /// Only songs in the named folder.
    Folder(String),
    /// Only songs in the named collection.
    Collection(String),
}

} // verus!
