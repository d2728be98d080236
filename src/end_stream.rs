//! Playback records and their classification by content kind.
use vstd::prelude::*;

verus! {

/// The kind of content that one playback record stands for.
#[derive(Debug, Clone, Copy, PartialEq, Eq, Structural, Hash, PartialOrd, Ord)]
pub enum EndStreamKind {
    EndSong,
    EndEpisode,
    EndVideoOrElse,
}

/// Position of a kind in the order of the grouping key.
pub open spec fn kind_rank(k: EndStreamKind) -> int {
    match k {
        EndStreamKind::EndSong => 0,
        EndStreamKind::EndEpisode => 1,
        EndStreamKind::EndVideoOrElse => 2,
    }
}

/// One playback event of the exported history.
///
/// `ts` is the end of the stream in whole seconds since the Unix epoch (UTC),
/// `ms_played` the time played in milliseconds.
#[derive(Debug, Clone, PartialEq, Eq, Hash)]
pub struct EndStream {
    pub ts: i64,
    pub username: String,
    pub platform: String,
    pub ms_played: i64,
    pub conn_country: String,
    pub ip_addr_decrypted: Option<String>,
    pub user_agent_decrypted: Option<String>,
    pub master_metadata_track_name: Option<String>,
    pub master_metadata_album_artist_name: Option<String>,
    pub master_metadata_album_album_name: Option<String>,
    pub spotify_track_uri: Option<String>,
    pub episode_name: Option<String>,
    pub episode_show_name: Option<String>,
    pub spotify_episode_uri: Option<String>,
    pub reason_start: Option<String>,
    pub reason_end: Option<String>,
    pub shuffle: Option<bool>,
    pub skipped: Option<bool>,
    pub offline: Option<bool>,
    pub offline_timestamp: Option<u128>,
    pub incognito_mode: Option<bool>,
}

/// The view of an optional string.
pub open spec fn opt_view(o: Option<String>) -> Option<Seq<char>> {
    match o {
        Some(s) => Some(s@),
        None => None,
    }
}

/// Artist and album names present: a song; else an episode name present: an
/// episode; else anything else.
pub open spec fn kind_spec(r: EndStream) -> EndStreamKind {
    if r.master_metadata_album_artist_name is Some && r.master_metadata_album_album_name is Some {
        EndStreamKind::EndSong
    } else if r.episode_name is Some {
        EndStreamKind::EndEpisode
    } else {
        EndStreamKind::EndVideoOrElse
    }
}

/// The three label fields that group a record of the given kind: artist,
/// show and episode for an episode; artist, album and track otherwise.
pub open spec fn label_fields(r: EndStream, k: EndStreamKind) -> (
    Option<String>,
    Option<String>,
    Option<String>,
) {
    match k {
        EndStreamKind::EndEpisode => (
            r.master_metadata_album_artist_name,
            r.episode_show_name,
            r.episode_name,
        ),
        _ => (
            r.master_metadata_album_artist_name,
            r.master_metadata_album_album_name,
            r.master_metadata_track_name,
        ),
    }
}

/// The kind of a record and its three labels, when all three are present.
pub open spec fn classify_spec(r: EndStream) -> Option<(EndStreamKind, Seq<char>, Seq<char>, Seq<char>)> {
    let k = kind_spec(r);
    let (a, b, c) = label_fields(r, k);
    if a is Some && b is Some && c is Some {
        Some((k, a->0@, b->0@, c->0@))
    } else {
        None
    }
}

/// Decides the kind of a record from the identifying fields it has.
pub fn kind_of(r: &EndStream) -> (k: EndStreamKind)
    ensures
        k == kind_spec(*r),
{
    if r.master_metadata_album_artist_name.is_some() && r.master_metadata_album_album_name.is_some() {
        EndStreamKind::EndSong
    } else if r.episode_name.is_some() {
        EndStreamKind::EndEpisode
    } else {
        EndStreamKind::EndVideoOrElse
    }
}

/// Classifies a record: its kind and the three strings that group it, or
/// `None` when one of those strings is missing.
pub fn classify(r: &EndStream) -> (res: Option<(EndStreamKind, String, String, String)>)
    ensures
        match res {
            Some((k, a, b, c)) => classify_spec(*r) == Some((k, a@, b@, c@)),
            None => classify_spec(*r) is None,
        },
{
    let k = kind_of(r);
    let (a, b, c) = match k {
        EndStreamKind::EndEpisode => (
            &r.master_metadata_album_artist_name,
            &r.episode_show_name,
            &r.episode_name,
        ),
        _ => (
            &r.master_metadata_album_artist_name,
            &r.master_metadata_album_album_name,
            &r.master_metadata_track_name,
        ),
    };
    match (a, b, c) {
        (Some(a), Some(b), Some(c)) => Some((k, a.clone(), b.clone(), c.clone())),
        _ => None,
    }
}

/// A record together with its kind.
#[derive(Debug, Clone, PartialEq, Eq, Hash)]
pub struct EndStreamWithKind {
    pub kind: EndStreamKind,
    pub end_stream: EndStream,
}

impl From<EndStream> for EndStreamWithKind {
    fn from(value: EndStream) -> (r: Self)
        ensures
            r.kind == kind_spec(value),
            r.end_stream == value,
    {
        let kind = kind_of(&value);
        EndStreamWithKind { kind, end_stream: value }
    }
}

impl vstd::std_specs::convert::FromSpecImpl<EndStream> for EndStreamWithKind {
    open spec fn obeys_from_spec() -> bool {
        true
    }

    open spec fn from_spec(v: EndStream) -> Self {
        EndStreamWithKind { kind: kind_spec(v), end_stream: v }
    }
}

} // verus!
