use spotify_stats::compression::{
    AssocInfo, CompressedEndStreamWithKindContainer, EndStreamLog, EndStreamLogEntry, GroupKey,
    MergeError,
};
use spotify_stats::end_stream::{classify, kind_of, EndStream, EndStreamKind, EndStreamWithKind};
use spotify_stats::time::{format_timestamp, parse_timestamp, TimestampError};

fn bare(ts: i64, ms: i64) -> EndStream {
    EndStream {
        ts,
        username: "user".to_string(),
        platform: "android".to_string(),
        ms_played: ms,
        conn_country: "NL".to_string(),
        ip_addr_decrypted: None,
        user_agent_decrypted: None,
        master_metadata_track_name: None,
        master_metadata_album_artist_name: None,
        master_metadata_album_album_name: None,
        spotify_track_uri: None,
        episode_name: None,
        episode_show_name: None,
        spotify_episode_uri: None,
        reason_start: None,
        reason_end: None,
        shuffle: None,
        skipped: None,
        offline: None,
        offline_timestamp: None,
        incognito_mode: None,
    }
}

fn song(ts: i64, ms: i64, artist: &str, album: &str, track: &str) -> EndStream {
    let mut r = bare(ts, ms);
    r.master_metadata_album_artist_name = Some(artist.to_string());
    r.master_metadata_album_album_name = Some(album.to_string());
    r.master_metadata_track_name = Some(track.to_string());
    r.spotify_track_uri = Some(format!("spotify:track:{track}"));
    r
}

fn ts(text: &str) -> i64 {
    parse_timestamp(text).unwrap()
}

#[test]
fn song_with_artist_and_album_is_a_song() {
    let r = song(0, 1, "a", "b", "c");
    assert_eq!(kind_of(&r), EndStreamKind::EndSong);
    let c = classify(&r).unwrap();
    assert_eq!(c, (EndStreamKind::EndSong, "a".to_string(), "b".to_string(), "c".to_string()));
    assert_eq!(EndStreamWithKind::from(r).kind, EndStreamKind::EndSong);
}

#[test]
fn episode_name_alone_is_an_episode() {
    let mut r = bare(0, 1);
    r.episode_name = Some("ep".to_string());
    assert_eq!(kind_of(&r), EndStreamKind::EndEpisode);
    // an episode groups by artist, show and episode: without an artist it is left out
    assert_eq!(classify(&r), None);
    r.master_metadata_album_artist_name = Some("host".to_string());
    r.episode_show_name = Some("show".to_string());
    assert_eq!(
        classify(&r),
        Some((EndStreamKind::EndEpisode, "host".to_string(), "show".to_string(), "ep".to_string()))
    );
}

#[test]
fn record_without_names_is_other_and_excluded() {
    let r = bare(0, 1);
    assert_eq!(kind_of(&r), EndStreamKind::EndVideoOrElse);
    assert_eq!(classify(&r), None);
    let idx = CompressedEndStreamWithKindContainer::fold(&vec![r]).unwrap();
    assert_eq!(idx.len(), 0);
}

#[test]
fn artist_without_album_is_not_a_song() {
    let mut r = bare(0, 1);
    r.master_metadata_album_artist_name = Some("a".to_string());
    r.master_metadata_track_name = Some("t".to_string());
    assert_eq!(kind_of(&r), EndStreamKind::EndVideoOrElse);
    assert_eq!(classify(&r), None);
}

#[test]
fn empty_string_counts_as_present() {
    let r = song(0, 1, "", "", "");
    assert_eq!(classify(&r), Some((EndStreamKind::EndSong, String::new(), String::new(), String::new())));
}

#[test]
fn drop_policy_missing_names_gives_no_group() {
    let r = bare(0, 1234);
    let idx = CompressedEndStreamWithKindContainer::fold(&vec![r.clone()]).unwrap();
    assert_eq!(idx.len(), 0);

    // album and track added, artist still missing: still no group
    let mut partial = r.clone();
    partial.master_metadata_album_album_name = Some("album".to_string());
    partial.master_metadata_track_name = Some("track".to_string());
    let idx = CompressedEndStreamWithKindContainer::fold(&vec![partial.clone()]).unwrap();
    assert_eq!(idx.len(), 0);

    let mut full = partial;
    full.master_metadata_album_artist_name = Some("artist".to_string());
    let idx = CompressedEndStreamWithKindContainer::fold(&vec![full]).unwrap();
    assert_eq!(idx.len(), 1);
    assert_eq!(idx.groups()[0].1.total_ms_played, 1234);
}

#[test]
fn two_plays_of_one_track_make_one_group() {
    let a = song(ts("2023-01-01T10:00:00Z"), 1000, "artist", "album", "track");
    let b = song(ts("2023-01-01T11:00:00Z"), 2000, "artist", "album", "track");
    let idx = CompressedEndStreamWithKindContainer::fold(&vec![a, b]).unwrap();
    assert_eq!(idx.len(), 1);
    let (key, info) = &idx.groups()[0];
    assert_eq!(key.username, "user");
    assert_eq!(key.conn_country, "NL");
    assert_eq!(key.kind, EndStreamKind::EndSong);
    assert_eq!(key.artist_or_podcast, "artist");
    assert_eq!(key.album_or_show, "album");
    assert_eq!(key.track_or_episode, "track");
    assert_eq!(info.total_ms_played, 3000);
    assert_eq!(info.end_stream_log.len(), 2);
    let entries = info.end_stream_log.entries();
    assert_eq!(entries[0].0, 1672567200);
    assert_eq!(entries[1].0, 1672570800);
    assert_eq!(entries[0].1.ms_played, 1000);
    assert_eq!(entries[1].1.ms_played, 2000);
}

#[test]
fn same_group_same_timestamp_is_a_collision() {
    let t = ts("2023-01-01T10:00:00Z");
    let a = song(t, 1000, "artist", "album", "track");
    let b = song(t, 2000, "artist", "album", "track");
    assert_eq!(
        CompressedEndStreamWithKindContainer::fold(&vec![a, b]),
        Err(MergeError::TimestampCollision)
    );
}

#[test]
fn same_timestamp_in_different_groups_is_fine() {
    let t = ts("2023-01-01T10:00:00Z");
    let a = song(t, 1000, "artist", "album", "one");
    let b = song(t, 2000, "artist", "album", "two");
    let idx = CompressedEndStreamWithKindContainer::fold(&vec![a, b]).unwrap();
    assert_eq!(idx.len(), 2);
}

#[test]
fn fold_order_keeps_totals_and_timestamps() {
    let a = song(100, 1000, "x", "y", "z");
    let mut b = song(50, 2500, "x", "y", "z");
    b.spotify_track_uri = Some("other".to_string());
    let ab = CompressedEndStreamWithKindContainer::fold(&vec![a.clone(), b.clone()]).unwrap();
    let ba = CompressedEndStreamWithKindContainer::fold(&vec![b, a]).unwrap();
    let (_, x) = &ab.groups()[0];
    let (_, y) = &ba.groups()[0];
    assert_eq!(x.total_ms_played, 3500);
    assert_eq!(y.total_ms_played, 3500);
    let kx: Vec<i64> = x.end_stream_log.entries().iter().map(|e| e.0).collect();
    let ky: Vec<i64> = y.end_stream_log.entries().iter().map(|e| e.0).collect();
    assert_eq!(kx, vec![50, 100]);
    assert_eq!(kx, ky);
    // identifiers come from the first record of the group
    assert_eq!(x.spotify_track_uri, Some("spotify:track:z".to_string()));
    assert_eq!(y.spotify_track_uri, Some("other".to_string()));
}

#[test]
fn total_overflow_is_reported() {
    let a = song(1, i64::MAX, "x", "y", "z");
    let b = song(2, 1, "x", "y", "z");
    assert_eq!(
        CompressedEndStreamWithKindContainer::fold(&vec![a, b]),
        Err(MergeError::DurationOverflow)
    );
}

#[test]
fn groups_come_in_key_order() {
    let recs = vec![
        song(1, 1, "b", "a", "a"),
        song(2, 1, "a", "b", "a"),
        song(3, 1, "a", "a", "b"),
        song(4, 1, "a", "a", "a"),
        song(5, 1, "é", "a", "a"),
        song(6, 1, "Z", "a", "a"),
    ];
    let idx = CompressedEndStreamWithKindContainer::fold(&recs).unwrap();
    let keys: Vec<(String, String, String)> = idx
        .groups()
        .iter()
        .map(|g| (g.0.artist_or_podcast.clone(), g.0.album_or_show.clone(), g.0.track_or_episode.clone()))
        .collect();
    let mut sorted = keys.clone();
    sorted.sort();
    assert_eq!(keys, sorted);
    assert_eq!(keys[0].0, "Z");
    assert_eq!(keys[5].0, "é");
}

#[test]
fn kind_orders_groups_after_country() {
    let mut ep = bare(1, 10);
    ep.master_metadata_album_artist_name = Some("a".to_string());
    ep.episode_show_name = Some("a".to_string());
    ep.episode_name = Some("a".to_string());
    let s = song(2, 10, "z", "z", "z");
    let idx = CompressedEndStreamWithKindContainer::fold(&vec![ep, s]).unwrap();
    assert_eq!(idx.groups()[0].0.kind, EndStreamKind::EndSong);
    assert_eq!(idx.groups()[1].0.kind, EndStreamKind::EndEpisode);
}

#[test]
fn merge_adds_totals_and_unites_logs() {
    let mut a = AssocInfo::from_end_stream(&song(10, 5, "x", "y", "z"));
    let b = AssocInfo::from_end_stream(&song(5, 7, "x", "y", "w"));
    assert_eq!(a.merge(&b), Ok(()));
    assert_eq!(a.total_ms_played, 12);
    let keys: Vec<i64> = a.end_stream_log.entries().iter().map(|e| e.0).collect();
    assert_eq!(keys, vec![5, 10]);
    assert_eq!(a.spotify_track_uri, Some("spotify:track:z".to_string()));
    let before = a.clone();
    assert_eq!(a.merge(&b), Err(MergeError::TimestampCollision));
    assert_eq!(a, before);
}

#[test]
fn insert_merges_under_equal_keys() {
    let mut idx = CompressedEndStreamWithKindContainer::new();
    let key = GroupKey {
        username: "u".to_string(),
        conn_country: "SE".to_string(),
        kind: EndStreamKind::EndSong,
        artist_or_podcast: "a".to_string(),
        album_or_show: "b".to_string(),
        track_or_episode: "c".to_string(),
    };
    let entry = EndStreamLogEntry::from_end_stream(&song(1, 3, "a", "b", "c"));
    let info = AssocInfo {
        total_ms_played: 3,
        spotify_track_uri: None,
        spotify_episode_uri: None,
        end_stream_log: EndStreamLog::bind(1, entry.clone()),
    };
    assert_eq!(idx.insert(key.clone(), info.clone()), Ok(()));
    let mut later = info.clone();
    later.end_stream_log = EndStreamLog::bind(2, entry);
    assert_eq!(idx.insert(key.clone(), later), Ok(()));
    assert_eq!(idx.len(), 1);
    assert_eq!(idx.groups()[0].1.total_ms_played, 6);
    assert_eq!(idx.insert(key, info), Err(MergeError::TimestampCollision));
    assert_eq!(idx.groups()[0].1.total_ms_played, 6);
}

#[test]
fn log_from_sorted_checks_order() {
    let entry = EndStreamLogEntry::from_end_stream(&song(1, 3, "a", "b", "c"));
    assert!(EndStreamLog::from_sorted(vec![(1, entry.clone()), (2, entry.clone())]).is_some());
    assert!(EndStreamLog::from_sorted(vec![(2, entry.clone()), (1, entry.clone())]).is_none());
    assert!(EndStreamLog::from_sorted(vec![(2, entry.clone()), (2, entry)]).is_none());
    assert_eq!(EndStreamLog::new().len(), 0);
}

#[test]
fn timestamps_parse_and_format() {
    assert_eq!(parse_timestamp("2023-01-01T10:00:00Z"), Ok(1672567200));
    assert_eq!(parse_timestamp("1970-01-01T00:00:00Z"), Ok(0));
    assert_eq!(parse_timestamp("2023-01-01 10:00"), Err(TimestampError::Unparsable));
    assert_eq!(format_timestamp(1672570800), Ok("2023-01-01T11:00:00Z".to_string()));
    assert_eq!(format_timestamp(i64::MAX), Err(TimestampError::OutOfRange));
}

#[test]
fn unclassified_records_are_counted() {
    let mut ep = bare(3, 1);
    ep.episode_name = Some("ep".to_string());
    let recs = vec![song(1, 1, "a", "b", "c"), bare(2, 1), ep, song(4, 1, "a", "b", "c")];
    assert_eq!(CompressedEndStreamWithKindContainer::count_unclassified(&recs), 2);
    assert_eq!(CompressedEndStreamWithKindContainer::fold(&recs).unwrap().len(), 1);
}

#[test]
fn rows_rebuild_the_index() {
    let recs = vec![song(1, 10, "a", "b", "c"), song(2, 20, "a", "b", "d"), song(3, 30, "a", "b", "c")];
    let idx = CompressedEndStreamWithKindContainer::fold(&recs).unwrap();
    let rows = idx.groups().clone();
    assert_eq!(CompressedEndStreamWithKindContainer::from_rows(&rows), Ok(idx.clone()));
    let mut reversed = rows.clone();
    reversed.reverse();
    assert_eq!(CompressedEndStreamWithKindContainer::from_rows(&reversed), Ok(idx));
    let mut twice = rows.clone();
    twice.extend(rows);
    assert_eq!(
        CompressedEndStreamWithKindContainer::from_rows(&twice),
        Err(MergeError::TimestampCollision)
    );
}
