//! The index as a stream of tokens, and back.
//!
//! An index is a sequence token with its number of groups, then each group:
//! user, country, kind (0 song, 1 episode, 2 other), the three labels, the
//! total play time, the track and episode identifiers, and the log as a
//! sequence token with its number of events, each event being its timestamp
//! followed by eleven detail tokens.
use vstd::prelude::*;
use crate::codec::{
    lemma_parse_tokens, opt_bool_token, opt_str_token, opt_u128_token, parse_tokens, read_tokens,
    token_fits, tokens_bytes, tokens_view, Token, TokenView, TokenWriter,
};
use crate::compression::{
    index_wf, AssocInfo, CompressedEndStreamWithKindContainer, EndStreamLog, EndStreamLogEntry,
    GroupKey, IndexView, KeyView, LogEntryView, LogView, SumView,
};
use crate::end_stream::{kind_rank, opt_view, EndStreamKind};

verus! {

pub open spec fn entry_tokens(e: LogEntryView) -> Seq<TokenView> {
    seq![
        TokenView::Str(e.platform),
        TokenView::Int(e.ms_played),
        opt_str_token(e.reason_start),
        opt_str_token(e.reason_end),
        opt_bool_token(e.shuffle),
        opt_bool_token(e.skipped),
        opt_bool_token(e.offline),
        opt_str_token(e.ip_addr_decrypted),
        opt_str_token(e.user_agent_decrypted),
        opt_u128_token(e.offline_timestamp),
        opt_bool_token(e.incognito_mode),
    ]
}

pub open spec fn item_tokens(x: (i64, LogEntryView)) -> Seq<TokenView> {
    seq![TokenView::Int(x.0)] + entry_tokens(x.1)
}

pub open spec fn items_tokens(l: LogView) -> Seq<TokenView> {
    l.map_values(|x: (i64, LogEntryView)| item_tokens(x)).flatten()
}

pub open spec fn key_tokens(k: KeyView) -> Seq<TokenView> {
    seq![
        TokenView::Str(k.username),
        TokenView::Str(k.conn_country),
        TokenView::Int(kind_rank(k.kind) as i64),
        TokenView::Str(k.artist_or_podcast),
        TokenView::Str(k.album_or_show),
        TokenView::Str(k.track_or_episode),
    ]
}

pub open spec fn group_tokens(g: (KeyView, SumView)) -> Seq<TokenView> {
    key_tokens(g.0) + seq![
        TokenView::Int(g.1.total_ms_played),
        opt_str_token(g.1.spotify_track_uri),
        opt_str_token(g.1.spotify_episode_uri),
        TokenView::List(g.1.log.len() as u64),
    ] + items_tokens(g.1.log)
}

pub open spec fn groups_tokens(x: IndexView) -> Seq<TokenView> {
    x.map_values(|g: (KeyView, SumView)| group_tokens(g)).flatten()
}

/// The tokens of an index.
pub open spec fn index_tokens(x: IndexView) -> Seq<TokenView> {
    seq![TokenView::List(x.len() as u64)] + groups_tokens(x)
}

/// The bytes of an index.
pub open spec fn encode_index(x: IndexView) -> Seq<u8> {
    tokens_bytes(index_tokens(x))
}

/// An index can be written: its counts and string lengths fit in 64 bits.
pub open spec fn index_fits(x: IndexView) -> bool {
    &&& x.len() <= u64::MAX
    &&& forall|i: int| 0 <= i < x.len() ==> (#[trigger] x[i]).1.log.len() <= u64::MAX
    &&& forall|i: int|
        0 <= i < index_tokens(x).len() ==> token_fits(#[trigger] index_tokens(x)[i])
}

pub open spec fn tok_str(t: TokenView) -> Option<Seq<char>> {
    match t {
        TokenView::Str(s) => Some(s),
        _ => None,
    }
}

pub open spec fn tok_int(t: TokenView) -> Option<i64> {
    match t {
        TokenView::Int(i) => Some(i),
        _ => None,
    }
}

pub open spec fn tok_opt_str(t: TokenView) -> Option<Option<Seq<char>>> {
    match t {
        TokenView::Nil => Some(None),
        TokenView::Str(s) => Some(Some(s)),
        _ => None,
    }
}

pub open spec fn tok_opt_bool(t: TokenView) -> Option<Option<bool>> {
    match t {
        TokenView::Nil => Some(None),
        TokenView::Bool(b) => Some(Some(b)),
        _ => None,
    }
}

pub open spec fn tok_opt_u128(t: TokenView) -> Option<Option<u128>> {
    match t {
        TokenView::Nil => Some(None),
        TokenView::U128(u) => Some(Some(u)),
        _ => None,
    }
}

pub open spec fn tok_kind(t: TokenView) -> Option<EndStreamKind> {
    match t {
        TokenView::Int(0) => Some(EndStreamKind::EndSong),
        TokenView::Int(1) => Some(EndStreamKind::EndEpisode),
        TokenView::Int(2) => Some(EndStreamKind::EndVideoOrElse),
        _ => None,
    }
}

/// The event details held by the eleven tokens from `p`.
pub open spec fn entry_at(ts: Seq<TokenView>, p: int) -> Option<LogEntryView> {
    if 0 <= p && p + 11 <= ts.len() && tok_str(ts[p]) is Some && tok_int(ts[p + 1]) is Some
        && tok_opt_str(ts[p + 2]) is Some && tok_opt_str(ts[p + 3]) is Some && tok_opt_bool(
        ts[p + 4],
    ) is Some && tok_opt_bool(ts[p + 5]) is Some && tok_opt_bool(ts[p + 6]) is Some
        && tok_opt_str(ts[p + 7]) is Some && tok_opt_str(ts[p + 8]) is Some && tok_opt_u128(
        ts[p + 9],
    ) is Some && tok_opt_bool(ts[p + 10]) is Some {
        Some(
            LogEntryView {
                platform: tok_str(ts[p]).unwrap(),
                ms_played: tok_int(ts[p + 1]).unwrap(),
                reason_start: tok_opt_str(ts[p + 2]).unwrap(),
                reason_end: tok_opt_str(ts[p + 3]).unwrap(),
                shuffle: tok_opt_bool(ts[p + 4]).unwrap(),
                skipped: tok_opt_bool(ts[p + 5]).unwrap(),
                offline: tok_opt_bool(ts[p + 6]).unwrap(),
                ip_addr_decrypted: tok_opt_str(ts[p + 7]).unwrap(),
                user_agent_decrypted: tok_opt_str(ts[p + 8]).unwrap(),
                offline_timestamp: tok_opt_u128(ts[p + 9]).unwrap(),
                incognito_mode: tok_opt_bool(ts[p + 10]).unwrap(),
            },
        )
    } else {
        None
    }
}

/// The `n` events held by the tokens from `p`, twelve tokens each.
pub open spec fn items_at(ts: Seq<TokenView>, p: int, n: nat) -> Option<LogView>
    decreases n,
{
    if n == 0 {
        Some(Seq::empty())
    } else if 0 <= p && p + 12 <= ts.len() && tok_int(ts[p]) is Some && entry_at(ts, p + 1) is Some {
        match items_at(ts, p + 12, (n - 1) as nat) {
            Some(rest) => Some(seq![(tok_int(ts[p]).unwrap(), entry_at(ts, p + 1).unwrap())] + rest),
            None => None,
        }
    } else {
        None
    }
}

/// The group held by the tokens from `p`, and where the next one starts.
pub open spec fn group_at(ts: Seq<TokenView>, p: int) -> Option<((KeyView, SumView), int)> {
    if 0 <= p && p + 10 <= ts.len() && tok_str(ts[p]) is Some && tok_str(ts[p + 1]) is Some
        && tok_kind(ts[p + 2]) is Some && tok_str(ts[p + 3]) is Some && tok_str(ts[p + 4]) is Some
        && tok_str(ts[p + 5]) is Some && tok_int(ts[p + 6]) is Some && tok_opt_str(ts[p + 7]) is Some
        && tok_opt_str(ts[p + 8]) is Some && ts[p + 9] is List {
        let m = ts[p + 9]->List_0;
        match items_at(ts, p + 10, m as nat) {
            Some(log) => Some(
                (
                    (
                        KeyView {
                            username: tok_str(ts[p]).unwrap(),
                            conn_country: tok_str(ts[p + 1]).unwrap(),
                            kind: tok_kind(ts[p + 2]).unwrap(),
                            artist_or_podcast: tok_str(ts[p + 3]).unwrap(),
                            album_or_show: tok_str(ts[p + 4]).unwrap(),
                            track_or_episode: tok_str(ts[p + 5]).unwrap(),
                        },
                        SumView {
                            total_ms_played: tok_int(ts[p + 6]).unwrap(),
                            spotify_track_uri: tok_opt_str(ts[p + 7]).unwrap(),
                            spotify_episode_uri: tok_opt_str(ts[p + 8]).unwrap(),
                            log,
                        },
                    ),
                    p + 10 + 12 * m,
                ),
            ),
            None => None,
        }
    } else {
        None
    }
}

/// The `n` groups held by the tokens from `p`, and where they end.
pub open spec fn groups_at(ts: Seq<TokenView>, p: int, n: nat) -> Option<(IndexView, int)>
    decreases n,
{
    if n == 0 {
        Some((Seq::empty(), p))
    } else {
        match group_at(ts, p) {
            Some((g, q)) => match groups_at(ts, q, (n - 1) as nat) {
                Some((rest, r)) => Some((seq![g] + rest, r)),
                None => None,
            },
            None => None,
        }
    }
}

/// The index held by a whole stream of tokens.
pub open spec fn index_from_tokens(ts: Seq<TokenView>) -> Option<IndexView> {
    if ts.len() >= 1 && ts[0] is List {
        match groups_at(ts, 1, ts[0]->List_0 as nat) {
            Some((x, q)) => if q == ts.len() {
                Some(x)
            } else {
                None
            },
            None => None,
        }
    } else {
        None
    }
}

/// The index that bytes hold: a whole stream of tokens that holds an index
/// whose keys strictly increase and whose logs are sorted.
pub open spec fn decode_index(b: Seq<u8>) -> Option<IndexView> {
    match parse_tokens(b, 0) {
        Some(ts) => match index_from_tokens(ts) {
            Some(x) => if index_wf(x) {
                Some(x)
            } else {
                None
            },
            None => None,
        },
        None => None,
    }
}

proof fn lemma_flatten_front<A>(s: Seq<Seq<A>>)
    requires
        s.len() > 0,
    ensures
        s.flatten() == s[0] + s.drop_first().flatten(),
{
}

proof fn lemma_items_tokens_front(l: LogView)
    requires
        l.len() > 0,
    ensures
        items_tokens(l) == item_tokens(l[0]) + items_tokens(l.drop_first()),
{
    let m = l.map_values(|x: (i64, LogEntryView)| item_tokens(x));
    assert(m.drop_first() =~= l.drop_first().map_values(|x: (i64, LogEntryView)| item_tokens(x)));
    lemma_flatten_front(m);
}

proof fn lemma_items_tokens_len(l: LogView)
    ensures
        items_tokens(l).len() == 12 * l.len(),
    decreases l.len(),
{
    if l.len() == 0 {
        assert(l.map_values(|x: (i64, LogEntryView)| item_tokens(x)) =~= Seq::<Seq<TokenView>>::empty());
    } else {
        lemma_items_tokens_front(l);
        lemma_items_tokens_len(l.drop_first());
    }
}

proof fn lemma_groups_tokens_front(x: IndexView)
    requires
        x.len() > 0,
    ensures
        groups_tokens(x) == group_tokens(x[0]) + groups_tokens(x.drop_first()),
{
    let m = x.map_values(|g: (KeyView, SumView)| group_tokens(g));
    assert(m.drop_first() =~= x.drop_first().map_values(|g: (KeyView, SumView)| group_tokens(g)));
    lemma_flatten_front(m);
}

proof fn lemma_entry_at(e: LogEntryView, ts: Seq<TokenView>, p: int)
    requires
        0 <= p,
        p + 11 <= ts.len(),
        ts.subrange(p, p + 11) == entry_tokens(e),
    ensures
        entry_at(ts, p) == Some(e),
{
    let s = ts.subrange(p, p + 11);
    assert(forall|i: int| 0 <= i < 11 ==> #[trigger] s[i] == ts[p + i]);
    let t = entry_tokens(e);
    assert(s[0] == t[0] && s[1] == t[1] && s[2] == t[2] && s[3] == t[3] && s[4] == t[4]);
    assert(s[5] == t[5] && s[6] == t[6] && s[7] == t[7] && s[8] == t[8] && s[9] == t[9] && s[10]
        == t[10]);
    assert(ts[p] == t[0] && ts[p + 1] == t[1] && ts[p + 2] == t[2] && ts[p + 3] == t[3]);
    assert(ts[p + 4] == t[4] && ts[p + 5] == t[5] && ts[p + 6] == t[6] && ts[p + 7] == t[7]);
    assert(ts[p + 8] == t[8] && ts[p + 9] == t[9] && ts[p + 10] == t[10]);
}

proof fn lemma_items_at(l: LogView, ts: Seq<TokenView>, p: int)
    requires
        0 <= p,
        p + 12 * l.len() <= ts.len(),
        ts.subrange(p, p + 12 * l.len()) == items_tokens(l),
    ensures
        items_at(ts, p, l.len()) == Some(l),
    decreases l.len(),
{
    if l.len() == 0 {
        assert(l =~= Seq::<(i64, LogEntryView)>::empty());
    } else {
        lemma_items_tokens_front(l);
        lemma_items_tokens_len(l.drop_first());
        let it = item_tokens(l[0]);
        let all = ts.subrange(p, p + 12 * l.len());
        assert(it.len() == 12);
        assert(ts[p] == it[0]) by {
            assert(all[0] == ts[p]);
        }
        assert(ts.subrange(p + 1, p + 12) =~= entry_tokens(l[0].1)) by {
            assert forall|i: int| 0 <= i < 11 implies #[trigger] ts.subrange(p + 1, p + 12)[i]
                == entry_tokens(l[0].1)[i] by {
                assert(all[1 + i] == ts[p + 1 + i]);
                assert(it[1 + i] == entry_tokens(l[0].1)[i]);
            }
        }
        lemma_entry_at(l[0].1, ts, p + 1);
        let rest = l.drop_first();
        assert(ts.subrange(p + 12, p + 12 + 12 * rest.len()) =~= items_tokens(rest)) by {
            assert forall|i: int| 0 <= i < 12 * rest.len() implies #[trigger] ts.subrange(
                p + 12,
                p + 12 + 12 * rest.len(),
            )[i] == items_tokens(rest)[i] by {
                assert(all[12 + i] == ts[p + 12 + i]);
            }
        }
        lemma_items_at(rest, ts, p + 12);
        assert(seq![(l[0].0, l[0].1)] + rest =~= l);
    }
}

proof fn lemma_group_tokens_len(g: (KeyView, SumView))
    ensures
        group_tokens(g).len() == 10 + 12 * g.1.log.len(),
{
    lemma_items_tokens_len(g.1.log);
}

proof fn lemma_group_at(g: (KeyView, SumView), ts: Seq<TokenView>, p: int)
    requires
        0 <= p,
        g.1.log.len() <= u64::MAX,
        p + group_tokens(g).len() <= ts.len(),
        ts.subrange(p, p + group_tokens(g).len()) == group_tokens(g),
    ensures
        group_at(ts, p) == Some((g, p + group_tokens(g).len())),
{
    lemma_group_tokens_len(g);
    let gt = group_tokens(g);
    let all = ts.subrange(p, p + gt.len());
    let kt = key_tokens(g.0);
    let mid = seq![
        TokenView::Int(g.1.total_ms_played),
        opt_str_token(g.1.spotify_track_uri),
        opt_str_token(g.1.spotify_episode_uri),
        TokenView::List(g.1.log.len() as u64),
    ];
    let it = items_tokens(g.1.log);
    assert(gt == kt + mid + it);
    assert forall|i: int| 0 <= i < 10 implies ts[p + i] == #[trigger] gt[i] by {
        assert(all[i] == ts[p + i]);
    }
    assert(gt[0] == kt[0] && gt[1] == kt[1] && gt[2] == kt[2] && gt[3] == kt[3] && gt[4] == kt[4]
        && gt[5] == kt[5]);
    assert(gt[6] == mid[0] && gt[7] == mid[1] && gt[8] == mid[2] && gt[9] == mid[3]);
    let m = g.1.log.len();
    assert(ts[p + 9] == TokenView::List(m as u64));
    assert(ts.subrange(p + 10, p + 10 + 12 * m) =~= it) by {
        assert forall|i: int| 0 <= i < 12 * m implies #[trigger] ts.subrange(p + 10, p + 10 + 12 * m)[i]
            == it[i] by {
            assert(all[10 + i] == ts[p + 10 + i]);
            assert(gt[10 + i] == it[i]);
        }
    }
    lemma_items_at(g.1.log, ts, p + 10);
    assert(tok_kind(ts[p + 2]) == Some(g.0.kind)) by {
        assert(ts[p + 2] == TokenView::Int(kind_rank(g.0.kind) as i64));
        match g.0.kind {
            EndStreamKind::EndSong => {},
            EndStreamKind::EndEpisode => {},
            EndStreamKind::EndVideoOrElse => {},
        }
    }
    let key = KeyView {
        username: tok_str(ts[p]).unwrap(),
        conn_country: tok_str(ts[p + 1]).unwrap(),
        kind: tok_kind(ts[p + 2]).unwrap(),
        artist_or_podcast: tok_str(ts[p + 3]).unwrap(),
        album_or_show: tok_str(ts[p + 4]).unwrap(),
        track_or_episode: tok_str(ts[p + 5]).unwrap(),
    };
    assert(key == g.0);
    let sum = SumView {
        total_ms_played: tok_int(ts[p + 6]).unwrap(),
        spotify_track_uri: tok_opt_str(ts[p + 7]).unwrap(),
        spotify_episode_uri: tok_opt_str(ts[p + 8]).unwrap(),
        log: g.1.log,
    };
    assert(tok_opt_str(ts[p + 7]).unwrap() == g.1.spotify_track_uri);
    assert(tok_opt_str(ts[p + 8]).unwrap() == g.1.spotify_episode_uri);
    assert(sum == g.1);
}

proof fn lemma_groups_at(x: IndexView, ts: Seq<TokenView>, p: int)
    requires
        0 <= p,
        forall|i: int| 0 <= i < x.len() ==> (#[trigger] x[i]).1.log.len() <= u64::MAX,
        p + groups_tokens(x).len() <= ts.len(),
        ts.subrange(p, p + groups_tokens(x).len()) == groups_tokens(x),
    ensures
        groups_at(ts, p, x.len()) == Some((x, p + groups_tokens(x).len())),
    decreases x.len(),
{
    if x.len() == 0 {
        assert(x.map_values(|g: (KeyView, SumView)| group_tokens(g)) =~= Seq::<Seq<TokenView>>::empty());
        assert(x =~= Seq::<(KeyView, SumView)>::empty());
    } else {
        lemma_groups_tokens_front(x);
        let gt = group_tokens(x[0]);
        let rest = x.drop_first();
        let all = ts.subrange(p, p + groups_tokens(x).len());
        assert(x[0].1.log.len() <= u64::MAX);
        assert(ts.subrange(p, p + gt.len()) =~= gt) by {
            assert forall|i: int| 0 <= i < gt.len() implies #[trigger] ts.subrange(p, p + gt.len())[i]
                == gt[i] by {
                assert(all[i] == ts[p + i]);
            }
        }
        lemma_group_at(x[0], ts, p);
        let q = p + gt.len();
        assert(ts.subrange(q, q + groups_tokens(rest).len()) =~= groups_tokens(rest)) by {
            assert forall|i: int| 0 <= i < groups_tokens(rest).len() implies #[trigger] ts.subrange(
                q,
                q + groups_tokens(rest).len(),
            )[i] == groups_tokens(rest)[i] by {
                assert(all[gt.len() + i] == ts[q + i]);
            }
        }
        assert forall|i: int| 0 <= i < rest.len() implies (#[trigger] rest[i]).1.log.len() <= u64::MAX by {
            assert(rest[i] == x[i + 1]);
        }
        lemma_groups_at(rest, ts, q);
        assert(seq![x[0]] + rest =~= x);
    }
}

/// Decoding the encoding of a well-formed index gives it back.
pub proof fn lemma_index_round_trip(x: IndexView)
    requires
        index_wf(x),
        index_fits(x),
    ensures
        decode_index(encode_index(x)) == Some(x),
{
    let ts = index_tokens(x);
    let b = encode_index(x);
    assert(b.subrange(0, b.len() as int) =~= b);
    lemma_parse_tokens(ts, b, 0);
    let gs = groups_tokens(x);
    assert(ts.subrange(1, 1 + gs.len() as int) =~= gs);
    lemma_groups_at(x, ts, 1);
    assert(ts[0] == TokenView::List(x.len() as u64));
}

fn put_entry(w: &mut TokenWriter, e: &EndStreamLogEntry)
    requires
        old(w).wf(),
    ensures
        final(w).wf(),
        final(w).tokens() == old(w).tokens() + entry_tokens(e@),
{
    let ghost start = w.tokens();
    w.put_str(e.platform.as_str());
    w.put_int(e.ms_played);
    w.put_opt_str(&e.reason_start);
    w.put_opt_str(&e.reason_end);
    w.put_opt_bool(e.shuffle);
    w.put_opt_bool(e.skipped);
    w.put_opt_bool(e.offline);
    w.put_opt_str(&e.ip_addr_decrypted);
    w.put_opt_str(&e.user_agent_decrypted);
    w.put_opt_u128(e.offline_timestamp);
    w.put_opt_bool(e.incognito_mode);
    assert(w.tokens() =~= start + entry_tokens(e@));
}

fn put_log(w: &mut TokenWriter, l: &EndStreamLog)
    requires
        old(w).wf(),
    ensures
        final(w).wf(),
        final(w).tokens() == old(w).tokens() + seq![TokenView::List(l@.len() as u64)]
            + items_tokens(l@),
        l@.len() <= u64::MAX,
{
    let entries = l.entries();
    let ghost v = l@;
    w.put_list(entries.len() as u64);
    let ghost start = w.tokens();
    let mut i: usize = 0;
    assert(v.take(0).map_values(|x: (i64, LogEntryView)| item_tokens(x)) =~= Seq::<Seq<TokenView>>::empty());
    assert(start =~= start + items_tokens(v.take(0)));
    while i < entries.len()
        invariant
            w.wf(),
            v == l@,
            v.len() == entries@.len(),
            v == entries@.map_values(|e: (i64, EndStreamLogEntry)| (e.0, e.1@)),
            i <= v.len(),
            w.tokens() == start + items_tokens(v.take(i as int)),
        decreases entries.len() - i,
    {
        let ghost before = w.tokens();
        w.put_int(entries[i].0);
        put_entry(w, &entries[i].1);
        proof {
            let f = |x: (i64, LogEntryView)| item_tokens(x);
            assert(v.take(i + 1).map_values(f) =~= v.take(i as int).map_values(f).push(item_tokens(v[i as int])));
            v.take(i as int).map_values(f).lemma_flatten_push(item_tokens(v[i as int]));
            assert(w.tokens() =~= start + items_tokens(v.take(i + 1)));
        }
        i += 1;
    }
    assert(v.take(i as int) =~= v);
}

fn put_group(w: &mut TokenWriter, g: &(GroupKey, AssocInfo))
    requires
        old(w).wf(),
    ensures
        final(w).wf(),
        final(w).tokens() == old(w).tokens() + group_tokens((g.0@, g.1@)),
        g.1@.log.len() <= u64::MAX,
{
    let ghost start = w.tokens();
    let k = &g.0;
    w.put_str(k.username.as_str());
    w.put_str(k.conn_country.as_str());
    let rank: i64 = match k.kind {
        EndStreamKind::EndSong => 0,
        EndStreamKind::EndEpisode => 1,
        EndStreamKind::EndVideoOrElse => 2,
    };
    w.put_int(rank);
    w.put_str(k.artist_or_podcast.as_str());
    w.put_str(k.album_or_show.as_str());
    w.put_str(k.track_or_episode.as_str());
    let info = &g.1;
    w.put_int(info.total_ms_played);
    w.put_opt_str(&info.spotify_track_uri);
    w.put_opt_str(&info.spotify_episode_uri);
    put_log(w, &info.end_stream_log);
    assert(w.tokens() =~= start + group_tokens((g.0@, g.1@)));
}

/// Writes an index in the binary format.
pub fn encode(idx: &CompressedEndStreamWithKindContainer) -> (b: Vec<u8>)
    ensures
        b@ == encode_index(idx@),
        index_fits(idx@),
{
    let groups = idx.groups();
    let ghost x = idx@;
    let mut w = TokenWriter::new();
    w.put_list(groups.len() as u64);
    let ghost start = w.tokens();
    let mut i: usize = 0;
    assert(x.take(0).map_values(|g: (KeyView, SumView)| group_tokens(g)) =~= Seq::<Seq<TokenView>>::empty());
    assert(start =~= start + groups_tokens(x.take(0)));
    while i < groups.len()
        invariant
            w.wf(),
            x == idx@,
            x.len() == groups@.len(),
            x == groups@.map_values(|g: (GroupKey, AssocInfo)| (g.0@, g.1@)),
            i <= x.len(),
            start == seq![TokenView::List(x.len() as u64)],
            w.tokens() == start + groups_tokens(x.take(i as int)),
            forall|j: int| 0 <= j < i ==> (#[trigger] x[j]).1.log.len() <= u64::MAX,
        decreases groups.len() - i,
    {
        put_group(&mut w, &groups[i]);
        proof {
            let f = |g: (KeyView, SumView)| group_tokens(g);
            assert(x.take(i + 1).map_values(f) =~= x.take(i as int).map_values(f).push(group_tokens(x[i as int])));
            x.take(i as int).map_values(f).lemma_flatten_push(group_tokens(x[i as int]));
            assert(w.tokens() =~= start + groups_tokens(x.take(i + 1)));
        }
        i += 1;
    }
    assert(x.take(i as int) =~= x);
    assert(w.tokens() == index_tokens(x));
    let b = w.finish();
    b
}

fn str_of(t: &Token) -> (r: Option<String>)
    ensures
        match r {
            Some(s) => tok_str(t@) == Some(s@),
            None => tok_str(t@) is None,
        },
{
    match t {
        Token::Str(s) => Some(s.clone()),
        _ => None,
    }
}

fn int_of(t: &Token) -> (r: Option<i64>)
    ensures
        r == tok_int(t@),
{
    match t {
        Token::Int(i) => Some(*i),
        _ => None,
    }
}

fn opt_str_of(t: &Token) -> (r: Option<Option<String>>)
    ensures
        match r {
            Some(o) => tok_opt_str(t@) == Some(opt_view(o)),
            None => tok_opt_str(t@) is None,
        },
{
    match t {
        Token::Nil => Some(None),
        Token::Str(s) => Some(Some(s.clone())),
        _ => None,
    }
}

fn opt_bool_of(t: &Token) -> (r: Option<Option<bool>>)
    ensures
        r == tok_opt_bool(t@),
{
    match t {
        Token::Nil => Some(None),
        Token::Bool(b) => Some(Some(*b)),
        _ => None,
    }
}

fn opt_u128_of(t: &Token) -> (r: Option<Option<u128>>)
    ensures
        r == tok_opt_u128(t@),
{
    match t {
        Token::Nil => Some(None),
        Token::U128(u) => Some(Some(*u)),
        _ => None,
    }
}

fn kind_of_token(t: &Token) -> (r: Option<EndStreamKind>)
    ensures
        r == tok_kind(t@),
{
    match t {
        Token::Int(0) => Some(EndStreamKind::EndSong),
        Token::Int(1) => Some(EndStreamKind::EndEpisode),
        Token::Int(2) => Some(EndStreamKind::EndVideoOrElse),
        _ => None,
    }
}

fn read_entry(ts: &Vec<Token>, p: usize) -> (r: Option<EndStreamLogEntry>)
    ensures
        match r {
            Some(e) => entry_at(tokens_view(ts@), p as int) == Some(e@),
            None => entry_at(tokens_view(ts@), p as int) is None,
        },
{
    let ghost tv = tokens_view(ts@);
    if ts.len() < 11 || p > ts.len() - 11 {
        return None;
    }
    assert(forall|i: int| 0 <= i < 11 ==> #[trigger] tv[p + i] == ts@[p + i]@);
    assert(tv[p as int] == ts@[p as int]@);
    let platform = match str_of(&ts[p]) {
        Some(v) => v,
        None => return None,
    };
    let ms_played = match int_of(&ts[p + 1]) {
        Some(v) => v,
        None => return None,
    };
    let reason_start = match opt_str_of(&ts[p + 2]) {
        Some(v) => v,
        None => return None,
    };
    let reason_end = match opt_str_of(&ts[p + 3]) {
        Some(v) => v,
        None => return None,
    };
    let shuffle = match opt_bool_of(&ts[p + 4]) {
        Some(v) => v,
        None => return None,
    };
    let skipped = match opt_bool_of(&ts[p + 5]) {
        Some(v) => v,
        None => return None,
    };
    let offline = match opt_bool_of(&ts[p + 6]) {
        Some(v) => v,
        None => return None,
    };
    let ip_addr_decrypted = match opt_str_of(&ts[p + 7]) {
        Some(v) => v,
        None => return None,
    };
    let user_agent_decrypted = match opt_str_of(&ts[p + 8]) {
        Some(v) => v,
        None => return None,
    };
    let offline_timestamp = match opt_u128_of(&ts[p + 9]) {
        Some(v) => v,
        None => return None,
    };
    let incognito_mode = match opt_bool_of(&ts[p + 10]) {
        Some(v) => v,
        None => return None,
    };
    Some(
        EndStreamLogEntry {
            platform,
            ms_played,
            reason_start,
            reason_end,
            shuffle,
            skipped,
            offline,
            ip_addr_decrypted,
            user_agent_decrypted,
            offline_timestamp,
            incognito_mode,
        },
    )
}

/// The view of decoded events.
pub open spec fn entries_view(v: Seq<(i64, EndStreamLogEntry)>) -> LogView {
    v.map_values(|e: (i64, EndStreamLogEntry)| (e.0, e.1@))
}

fn read_items(ts: &Vec<Token>, p: usize, n: u64) -> (r: Option<Vec<(i64, EndStreamLogEntry)>>)
    ensures
        match r {
            Some(v) => items_at(tokens_view(ts@), p as int, n as nat) == Some(entries_view(v@)),
            None => items_at(tokens_view(ts@), p as int, n as nat) is None,
        },
{
    let ghost tv = tokens_view(ts@);
    let mut out: Vec<(i64, EndStreamLogEntry)> = Vec::new();
    let mut q: usize = p;
    let mut i: u64 = 0;
    assert(entries_view(out@) =~= Seq::<(i64, LogEntryView)>::empty());
    while i < n
        invariant
            tv == tokens_view(ts@),
            tv.len() == ts@.len(),
            i <= n,
            items_at(tv, q as int, (n - i) as nat) matches Some(rest) ==> items_at(tv, p as int, n as nat)
                == Some(entries_view(out@) + rest),
            items_at(tv, q as int, (n - i) as nat) is None ==> items_at(tv, p as int, n as nat) is None,
        decreases n - i,
    {
        if ts.len() < 12 || q > ts.len() - 12 {
            return None;
        }
        assert(tv[q as int] == ts@[q as int]@);
        let t = match int_of(&ts[q]) {
            Some(v) => v,
            None => return None,
        };
        let e = match read_entry(ts, q + 1) {
            Some(v) => v,
            None => return None,
        };
        let ghost before = entries_view(out@);
        let ghost item = (t, e@);
        out.push((t, e));
        assert(entries_view(out@) =~= before.push(item));
        proof {
            if let Some(rest) = items_at(tv, q + 12, (n - i - 1) as nat) {
                assert(before + (seq![item] + rest) =~= before.push(item) + rest);
            }
        }
        q = q + 12;
        i = i + 1;
    }
    assert(entries_view(out@) + Seq::<(i64, LogEntryView)>::empty() =~= entries_view(out@));
    Some(out)
}

fn read_group(ts: &Vec<Token>, p: usize) -> (r: Option<((GroupKey, AssocInfo), usize)>)
    ensures
        match r {
            Some((g, q)) => group_at(tokens_view(ts@), p as int) == Some(((g.0@, g.1@), q as int)),
            None => group_at(tokens_view(ts@), p as int) is None,
        },
{
    let ghost tv = tokens_view(ts@);
    if ts.len() < 10 || p > ts.len() - 10 {
        return None;
    }
    assert(forall|i: int| 0 <= i < 10 ==> #[trigger] tv[p + i] == ts@[p + i]@);
    assert(tv[p as int] == ts@[p as int]@);
    let username = match str_of(&ts[p]) {
        Some(v) => v,
        None => return None,
    };
    let conn_country = match str_of(&ts[p + 1]) {
        Some(v) => v,
        None => return None,
    };
    let kind = match kind_of_token(&ts[p + 2]) {
        Some(v) => v,
        None => return None,
    };
    let artist_or_podcast = match str_of(&ts[p + 3]) {
        Some(v) => v,
        None => return None,
    };
    let album_or_show = match str_of(&ts[p + 4]) {
        Some(v) => v,
        None => return None,
    };
    let track_or_episode = match str_of(&ts[p + 5]) {
        Some(v) => v,
        None => return None,
    };
    let total_ms_played = match int_of(&ts[p + 6]) {
        Some(v) => v,
        None => return None,
    };
    let spotify_track_uri = match opt_str_of(&ts[p + 7]) {
        Some(v) => v,
        None => return None,
    };
    let spotify_episode_uri = match opt_str_of(&ts[p + 8]) {
        Some(v) => v,
        None => return None,
    };
    let m = match &ts[p + 9] {
        Token::List(m) => *m,
        _ => return None,
    };
    let entries = match read_items(ts, p + 10, m) {
        Some(v) => v,
        None => return None,
    };
    let ghost log = entries_view(entries@);
    proof {
        lemma_items_at_len(tv, p + 10, m as nat);
    }
    let end = p + 10 + 12 * (m as usize);
    let key = GroupKey {
        username,
        conn_country,
        kind,
        artist_or_podcast,
        album_or_show,
        track_or_episode,
    };
    let info = AssocInfo {
        total_ms_played,
        spotify_track_uri,
        spotify_episode_uri,
        end_stream_log: EndStreamLog::from_entries(entries),
    };
    Some(((key, info), end))
}

/// Events that parse fit in the tokens they were read from.
proof fn lemma_items_at_len(ts: Seq<TokenView>, p: int, n: nat)
    requires
        items_at(ts, p, n) is Some,
        0 <= p <= ts.len(),
    ensures
        p + 12 * n <= ts.len(),
    decreases n,
{
    if n > 0 {
        lemma_items_at_len(ts, p + 12, (n - 1) as nat);
        assert(12 * n == 12 + 12 * (n - 1)) by (nonlinear_arith);
    }
}

fn read_groups(ts: &Vec<Token>, p: usize, n: u64) -> (r: Option<(Vec<(GroupKey, AssocInfo)>, usize)>)
    ensures
        match r {
            Some((v, q)) => groups_at(tokens_view(ts@), p as int, n as nat) == Some(
                (v@.map_values(|g: (GroupKey, AssocInfo)| (g.0@, g.1@)), q as int),
            ),
            None => groups_at(tokens_view(ts@), p as int, n as nat) is None,
        },
{
    let ghost tv = tokens_view(ts@);
    let mut out: Vec<(GroupKey, AssocInfo)> = Vec::new();
    let mut q: usize = p;
    let mut i: u64 = 0;
    assert(out@.map_values(|g: (GroupKey, AssocInfo)| (g.0@, g.1@)) =~= Seq::<(KeyView, SumView)>::empty());
    while i < n
        invariant
            tv == tokens_view(ts@),
            i <= n,
            groups_at(tv, q as int, (n - i) as nat) matches Some((rest, e)) ==> groups_at(tv, p as int, n as nat)
                == Some((out@.map_values(|g: (GroupKey, AssocInfo)| (g.0@, g.1@)) + rest, e)),
            groups_at(tv, q as int, (n - i) as nat) is None ==> groups_at(tv, p as int, n as nat) is None,
        decreases n - i,
    {
        let (g, next) = match read_group(ts, q) {
            Some(v) => v,
            None => return None,
        };
        let ghost before = out@.map_values(|g: (GroupKey, AssocInfo)| (g.0@, g.1@));
        let ghost gv = (g.0@, g.1@);
        out.push(g);
        assert(out@.map_values(|g: (GroupKey, AssocInfo)| (g.0@, g.1@)) =~= before.push(gv));
        proof {
            if let Some((rest, e)) = groups_at(tv, next as int, (n - i - 1) as nat) {
                assert(before + (seq![gv] + rest) =~= before.push(gv) + rest);
            }
        }
        q = next;
        i = i + 1;
    }
    assert(out@.map_values(|g: (GroupKey, AssocInfo)| (g.0@, g.1@)) + Seq::<(KeyView, SumView)>::empty()
        =~= out@.map_values(|g: (GroupKey, AssocInfo)| (g.0@, g.1@)));
    Some((out, q))
}

/// Reads an index written in the binary format; `None` unless the bytes
/// are exactly the encoding of an index whose keys strictly increase and
/// whose logs are sorted.
pub fn decode(b: &[u8]) -> (r: Option<CompressedEndStreamWithKindContainer>)
    ensures
        match r {
            Some(idx) => decode_index(b@) == Some(idx@) && idx.wf(),
            None => decode_index(b@) is None,
        },
{
    let ts = match read_tokens(b) {
        Some(v) => v,
        None => return None,
    };
    let ghost tv = tokens_view(ts@);
    if ts.len() < 1 {
        return None;
    }
    assert(tv[0] == ts@[0]@);
    let n = match &ts[0] {
        Token::List(n) => *n,
        _ => return None,
    };
    let (groups, q) = match read_groups(&ts, 1, n) {
        Some(v) => v,
        None => return None,
    };
    if q != ts.len() {
        return None;
    }
    let idx = CompressedEndStreamWithKindContainer::from_groups(groups);
    if !idx.is_wf() {
        return None;
    }
    Some(idx)
}

} // verus!
