use vstd::prelude::*;

verus! {

/// The list of items a library query returns.
#[derive(Debug, Clone, PartialEq, Eq)]
pub struct ItemsResponse {
    pub items: Vec<Item>,
}

/// A library item (a series) by its identifier and display name.
#[derive(Debug, Clone, PartialEq, Eq)]
pub struct Item {
    pub id: String,
    pub name: String,
}

/// One stream (video, audio, subtitle) inside a media file.
#[derive(Debug, Clone, PartialEq, Eq)]
pub struct MediaStream {
    pub stream_type: Option<String>,
    pub height: Option<i32>,
    pub codec: Option<String>,
}

/// One file that holds a version of an episode or a movie.
#[derive(Debug, Clone, PartialEq, Eq)]
pub struct MediaSource {
    pub path: Option<String>,
    pub container: Option<String>,
    pub size: Option<i64>,
    pub bitrate: Option<i64>,
    pub height: Option<i32>,
    pub media_streams: Option<Vec<MediaStream>>,
}

/// The episodes of one series.
#[derive(Debug, Clone, PartialEq, Eq)]
pub struct EpisodesResponse {
    pub items: Vec<Episode>,
}

/// An episode; not every episode carries a name or a season/episode number.
#[derive(Debug, Clone, PartialEq, Eq)]
pub struct Episode {
    pub name: Option<String>,
    pub episode_number: Option<u32>,
    pub season_number: Option<u32>,
    pub media_sources: Option<Vec<MediaSource>>,
}

/// A movie; its title and production year decide which movies are copies of each other.
#[derive(Debug, Clone, PartialEq, Eq)]
pub struct Movie {
    pub _id: String,
    pub name: String,
    pub year: Option<u32>,
    pub media_sources: Option<Vec<MediaSource>>,
}

/// The movies of the library.
#[derive(Debug, Clone, PartialEq, Eq)]
pub struct MoviesResponse {
    pub items: Vec<Movie>,
}

/// A file chosen for removal, with its size in bytes (0 where unknown).
#[derive(Debug, Clone, PartialEq, Eq, Hash)]
pub struct FileToDelete {
    pub path: String,
    pub size: i64,
}

impl FileToDelete {
    /// A copy with the same path and size.
    pub fn copy(&self) -> (r: FileToDelete)
        ensures
            r == *self,
    {
        FileToDelete { path: self.path.clone(), size: self.size }
    }
}

} // verus!
