use spotify_stats::compression::CompressedEndStreamWithKindContainer;
use spotify_stats::end_stream::EndStream;
use spotify_stats::index_format::{decode, encode};
use spotify_stats::persist::{load_snapshot, CodecError, LoadError, SnapshotFile, FORMAT_VERSION};

fn play(ts: i64, ms: i64, user: &str, artist: &str, album: &str, track: &str) -> EndStream {
    EndStream {
        ts,
        username: user.to_string(),
        platform: "Linux".to_string(),
        ms_played: ms,
        conn_country: "SE".to_string(),
        ip_addr_decrypted: Some("192.0.2.1".to_string()),
        user_agent_decrypted: Some("agent".to_string()),
        master_metadata_track_name: Some(track.to_string()),
        master_metadata_album_artist_name: Some(artist.to_string()),
        master_metadata_album_album_name: Some(album.to_string()),
        spotify_track_uri: Some(format!("spotify:track:{track}")),
        episode_name: None,
        episode_show_name: None,
        spotify_episode_uri: None,
        reason_start: Some("trackdone".to_string()),
        reason_end: Some("endplay".to_string()),
        shuffle: Some(true),
        skipped: Some(false),
        offline: None,
        offline_timestamp: Some(1680000000000u128 + ts as u128),
        incognito_mode: Some(false),
    }
}

fn sample() -> CompressedEndStreamWithKindContainer {
    let mut ep = play(500, 42, "bob", "host", "", "");
    ep.master_metadata_album_album_name = None;
    ep.episode_name = Some("Épisode ✓".to_string());
    ep.episode_show_name = Some("show".to_string());
    ep.spotify_episode_uri = Some("spotify:episode:1".to_string());
    ep.offline_timestamp = Some(u128::MAX);
    let recs = vec![
        play(100, 1000, "alice", "Artist", "Album", "One"),
        play(200, 2000, "alice", "Artist", "Album", "One"),
        play(150, -5, "alice", "Artist", "Album", "Two"),
        play(i64::MIN, 7, "bob", "日本", "アルバム", "曲"),
        ep,
    ];
    CompressedEndStreamWithKindContainer::fold(&recs).unwrap()
}

#[test]
fn raw_snapshot_round_trips() {
    let idx = sample();
    let bytes = idx.to_bytes(false).unwrap();
    assert_eq!(&bytes[..6], &[0x53, 0x50, 0x53, 0x54, FORMAT_VERSION, 0]);
    let back = CompressedEndStreamWithKindContainer::from_bytes(&bytes).unwrap();
    assert_eq!(back, idx);
    assert_eq!(back.to_bytes(false).unwrap(), bytes);
}

#[test]
fn compressed_snapshot_round_trips() {
    let idx = sample();
    let bytes = idx.to_bytes(true).unwrap();
    assert_eq!(bytes[5], 1);
    assert_ne!(&bytes[6..], &encode(&idx)[..]);
    let back = CompressedEndStreamWithKindContainer::from_bytes(&bytes).unwrap();
    assert_eq!(back, idx);
}

#[test]
fn empty_index_round_trips() {
    let idx = CompressedEndStreamWithKindContainer::new();
    for compress in [false, true] {
        let bytes = idx.to_bytes(compress).unwrap();
        assert_eq!(CompressedEndStreamWithKindContainer::from_bytes(&bytes).unwrap(), idx);
    }
}

#[test]
fn reload_gives_the_built_index() {
    let recs: Vec<EndStream> = (0..50)
        .map(|i| play(i * 60, 1000 + i, "u", &format!("a{}", i % 3), "b", &format!("t{}", i % 7)))
        .collect();
    let built = CompressedEndStreamWithKindContainer::fold(&recs).unwrap();
    let loaded = load_snapshot(SnapshotFile::Contents(built.to_bytes(true).unwrap())).unwrap();
    assert_eq!(loaded, built);
}

#[test]
fn encoding_layout_is_stable() {
    let idx = CompressedEndStreamWithKindContainer::new();
    assert_eq!(encode(&idx), vec![0xdd, 0, 0, 0, 0, 0, 0, 0, 0]);
    assert_eq!(decode(&[0xdd, 0, 0, 0, 0, 0, 0, 0, 0]), Some(idx));
    let one = CompressedEndStreamWithKindContainer::fold(&vec![play(1, 2, "u", "a", "b", "c")]).unwrap();
    let bytes = encode(&one);
    assert_eq!(&bytes[..9], &[0xdd, 0, 0, 0, 0, 0, 0, 0, 1]);
    assert_eq!(&bytes[9..19], &[0xdb, 0, 0, 0, 0, 0, 0, 0, 1, b'u']);
}

#[test]
fn header_errors_are_reported() {
    let good = sample().to_bytes(false).unwrap();
    assert_eq!(
        CompressedEndStreamWithKindContainer::from_bytes(&good[..5]),
        Err(CodecError::TooShort)
    );
    let mut bad = good.clone();
    bad[0] = b'X';
    assert_eq!(CompressedEndStreamWithKindContainer::from_bytes(&bad), Err(CodecError::BadMagic));
    let mut bad = good.clone();
    bad[4] = 9;
    assert_eq!(
        CompressedEndStreamWithKindContainer::from_bytes(&bad),
        Err(CodecError::UnsupportedVersion(9))
    );
    let mut bad = good;
    bad[5] = 2;
    assert_eq!(
        CompressedEndStreamWithKindContainer::from_bytes(&bad),
        Err(CodecError::UnknownCompression(2))
    );
}

#[test]
fn truncated_or_altered_payload_is_malformed() {
    let good = sample().to_bytes(false).unwrap();
    for cut in [6, 7, 20, good.len() - 1] {
        assert_eq!(
            CompressedEndStreamWithKindContainer::from_bytes(&good[..cut]),
            Err(CodecError::Malformed)
        );
    }
    let mut longer = good.clone();
    longer.push(0xc0);
    assert_eq!(
        CompressedEndStreamWithKindContainer::from_bytes(&longer),
        Err(CodecError::Malformed)
    );
    let mut bad_tag = good;
    bad_tag[6] = 0x00;
    assert_eq!(
        CompressedEndStreamWithKindContainer::from_bytes(&bad_tag),
        Err(CodecError::Malformed)
    );
}

#[test]
fn unsorted_payload_is_malformed() {
    let a = CompressedEndStreamWithKindContainer::fold(&vec![play(1, 2, "u", "a", "b", "c")]).unwrap();
    let b = CompressedEndStreamWithKindContainer::fold(&vec![play(1, 2, "u", "b", "b", "c")]).unwrap();
    let ea = encode(&a);
    let eb = encode(&b);
    // two groups, in decreasing key order
    let mut bytes = vec![0xdd, 0, 0, 0, 0, 0, 0, 0, 2];
    bytes.extend_from_slice(&eb[9..]);
    bytes.extend_from_slice(&ea[9..]);
    assert_eq!(decode(&bytes), None);
    let mut framed = vec![0x53, 0x50, 0x53, 0x54, FORMAT_VERSION, 0];
    framed.extend_from_slice(&bytes);
    assert_eq!(
        CompressedEndStreamWithKindContainer::from_bytes(&framed),
        Err(CodecError::Malformed)
    );
}

#[test]
fn invalid_utf8_is_malformed() {
    let one = CompressedEndStreamWithKindContainer::fold(&vec![play(1, 2, "u", "a", "b", "c")]).unwrap();
    let mut bytes = encode(&one);
    bytes[18] = 0xff;
    assert_eq!(decode(&bytes), None);
}

#[test]
fn corrupt_compressed_payload_is_reported() {
    let framed = vec![0x53, 0x50, 0x53, 0x54, FORMAT_VERSION, 1, 0x07, 0x01, 0x02];
    let r = CompressedEndStreamWithKindContainer::from_bytes(&framed);
    assert!(matches!(r, Err(CodecError::Decompression) | Err(CodecError::Malformed)));
}

#[test]
fn compression_shrinks_a_large_index() {
    let recs: Vec<EndStream> = (0..10_000)
        .map(|i| play(i, 1000, "listener", &format!("artist {:05}", i), "The Album", "The Track"))
        .collect();
    let idx = CompressedEndStreamWithKindContainer::fold(&recs).unwrap();
    assert_eq!(idx.len(), 10_000);
    let raw = idx.to_bytes(false).unwrap();
    let packed = idx.to_bytes(true).unwrap();
    assert!(packed.len() < raw.len());
    assert_eq!(CompressedEndStreamWithKindContainer::from_bytes(&packed).unwrap(), idx);
}

#[test]
fn load_keeps_missing_unreadable_and_corrupt_apart() {
    assert_eq!(load_snapshot(SnapshotFile::NotFound), Err(LoadError::NotFound));
    assert_eq!(load_snapshot(SnapshotFile::Unreadable), Err(LoadError::Unreadable));
    assert_eq!(
        load_snapshot(SnapshotFile::Contents(vec![1, 2, 3])),
        Err(LoadError::Corrupt(CodecError::TooShort))
    );
    let idx = sample();
    assert_eq!(load_snapshot(SnapshotFile::Contents(idx.to_bytes(false).unwrap())), Ok(idx));
}
