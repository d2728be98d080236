//! The aggregated index: playback records folded into groups keyed by user,
//! country, kind and three labels, each with its total play time and its log
//! of events by timestamp.
use vstd::prelude::*;
use crate::end_stream::{
    classify, classify_spec, kind_rank, kind_spec, opt_view, EndStream, EndStreamKind, EndStreamWithKind,
};
use crate::order::{compare_str, lemma_str_cmp_basics, lemma_str_cmp_trans, str_cmp};

verus! {

/// Why two contributions to one group could not be merged.
#[derive(Debug, Clone, Copy, PartialEq, Eq, Structural, Hash)]
pub enum MergeError {
    /// Both event logs hold an event at the same timestamp.
    TimestampCollision,
    /// The total play time does not fit in an `i64` of milliseconds.
    DurationOverflow,
}

/// The details of one playback event, kept in a group's log.
#[derive(Debug, Clone, PartialEq, Eq, Hash)]
pub struct EndStreamLogEntry {
    pub platform: String,
    /// Time played, in milliseconds.
    pub ms_played: i64,
    pub reason_start: Option<String>,
    pub reason_end: Option<String>,
    pub shuffle: Option<bool>,
    pub skipped: Option<bool>,
    pub offline: Option<bool>,
    pub ip_addr_decrypted: Option<String>,
    pub user_agent_decrypted: Option<String>,
    pub offline_timestamp: Option<u128>,
    pub incognito_mode: Option<bool>,
}

/// The details of one event, as values.
pub struct LogEntryView {
    pub platform: Seq<char>,
    pub ms_played: i64,
    pub reason_start: Option<Seq<char>>,
    pub reason_end: Option<Seq<char>>,
    pub shuffle: Option<bool>,
    pub skipped: Option<bool>,
    pub offline: Option<bool>,
    pub ip_addr_decrypted: Option<Seq<char>>,
    pub user_agent_decrypted: Option<Seq<char>>,
    pub offline_timestamp: Option<u128>,
    pub incognito_mode: Option<bool>,
}

impl View for EndStreamLogEntry {
    type V = LogEntryView;

    open spec fn view(&self) -> LogEntryView {
        LogEntryView {
            platform: self.platform@,
            ms_played: self.ms_played,
            reason_start: opt_view(self.reason_start),
            reason_end: opt_view(self.reason_end),
            shuffle: self.shuffle,
            skipped: self.skipped,
            offline: self.offline,
            ip_addr_decrypted: opt_view(self.ip_addr_decrypted),
            user_agent_decrypted: opt_view(self.user_agent_decrypted),
            offline_timestamp: self.offline_timestamp,
            incognito_mode: self.incognito_mode,
        }
    }
}

/// The log entry that a record contributes.
pub open spec fn entry_spec(r: EndStream) -> LogEntryView {
    LogEntryView {
        platform: r.platform@,
        ms_played: r.ms_played,
        reason_start: opt_view(r.reason_start),
        reason_end: opt_view(r.reason_end),
        shuffle: r.shuffle,
        skipped: r.skipped,
        offline: r.offline,
        ip_addr_decrypted: opt_view(r.ip_addr_decrypted),
        user_agent_decrypted: opt_view(r.user_agent_decrypted),
        offline_timestamp: r.offline_timestamp,
        incognito_mode: r.incognito_mode,
    }
}

fn clone_opt_string(o: &Option<String>) -> (r: Option<String>)
    ensures
        r == *o,
{
    match o {
        Some(s) => Some(s.clone()),
        None => None,
    }
}

impl EndStreamLogEntry {
    /// The event details of a record.
    pub fn from_end_stream(r: &EndStream) -> (e: EndStreamLogEntry)
        ensures
            e@ == entry_spec(*r),
    {
        EndStreamLogEntry {
            platform: r.platform.clone(),
            ms_played: r.ms_played,
            reason_start: clone_opt_string(&r.reason_start),
            reason_end: clone_opt_string(&r.reason_end),
            shuffle: r.shuffle,
            skipped: r.skipped,
            offline: r.offline,
            ip_addr_decrypted: clone_opt_string(&r.ip_addr_decrypted),
            user_agent_decrypted: clone_opt_string(&r.user_agent_decrypted),
            offline_timestamp: r.offline_timestamp,
            incognito_mode: r.incognito_mode,
        }
    }

    pub fn clone_entry(&self) -> (e: EndStreamLogEntry)
        ensures
            e == *self,
    {
        EndStreamLogEntry {
            platform: self.platform.clone(),
            ms_played: self.ms_played,
            reason_start: clone_opt_string(&self.reason_start),
            reason_end: clone_opt_string(&self.reason_end),
            shuffle: self.shuffle,
            skipped: self.skipped,
            offline: self.offline,
            ip_addr_decrypted: clone_opt_string(&self.ip_addr_decrypted),
            user_agent_decrypted: clone_opt_string(&self.user_agent_decrypted),
            offline_timestamp: self.offline_timestamp,
            incognito_mode: self.incognito_mode,
        }
    }
}

/// A log as a sequence of (timestamp, details) pairs.
pub type LogView = Seq<(i64, LogEntryView)>;

/// Timestamps strictly increase along the log, so each is there once.
pub open spec fn ts_sorted(s: LogView) -> bool {
    forall|i: int, j: int| 0 <= i < j < s.len() ==> s[i].0 < s[j].0
}

/// The timestamps of a log.
pub open spec fn log_keys(s: LogView) -> Set<i64> {
    Set::new(|t: i64| exists|i: int| 0 <= i < s.len() && s[i].0 == t)
}

/// No timestamp is in both logs.
pub open spec fn logs_disjoint(a: LogView, b: LogView) -> bool {
    forall|i: int, j: int| 0 <= i < a.len() && 0 <= j < b.len() ==> a[i].0 != b[j].0
}

/// The union of two logs, in timestamp order.
pub open spec fn merge_logs(a: LogView, b: LogView) -> LogView
    decreases a.len() + b.len(),
{
    if a.len() == 0 {
        b
    } else if b.len() == 0 {
        a
    } else if a[0].0 < b[0].0 {
        seq![a[0]] + merge_logs(a.drop_first(), b)
    } else {
        seq![b[0]] + merge_logs(a, b.drop_first())
    }
}

/// A bound below every timestamp of two logs is below every timestamp of
/// their merge.
proof fn lemma_merge_logs_bound(a: LogView, b: LogView, x: i64)
    requires
        forall|i: int| 0 <= i < a.len() ==> x < #[trigger] a[i].0,
        forall|i: int| 0 <= i < b.len() ==> x < #[trigger] b[i].0,
    ensures
        merge_logs(a, b).len() == a.len() + b.len(),
        forall|i: int| 0 <= i < merge_logs(a, b).len() ==> x < #[trigger] merge_logs(a, b)[i].0,
    decreases a.len() + b.len(),
{
    if a.len() > 0 && b.len() > 0 {
        let m = merge_logs(a, b);
        if a[0].0 < b[0].0 {
            let a1 = a.drop_first();
            lemma_merge_logs_bound(a1, b, x);
            assert forall|i: int| 0 <= i < m.len() implies x < #[trigger] m[i].0 by {
                if i > 0 {
                    assert(m[i] == merge_logs(a1, b)[i - 1]);
                }
            }
        } else {
            let b1 = b.drop_first();
            lemma_merge_logs_bound(a, b1, x);
            assert forall|i: int| 0 <= i < m.len() implies x < #[trigger] m[i].0 by {
                if i > 0 {
                    assert(m[i] == merge_logs(a, b1)[i - 1]);
                }
            }
        }
    }
}

/// Merging two sorted, disjoint logs gives a sorted log.
pub proof fn lemma_merge_logs_sorted(a: LogView, b: LogView)
    requires
        ts_sorted(a),
        ts_sorted(b),
        logs_disjoint(a, b),
    ensures
        ts_sorted(merge_logs(a, b)),
        merge_logs(a, b).len() == a.len() + b.len(),
    decreases a.len() + b.len(),
{
    if a.len() > 0 && b.len() > 0 {
        let m = merge_logs(a, b);
        if a[0].0 < b[0].0 {
            let a1 = a.drop_first();
            let x = a[0].0;
            assert(logs_disjoint(a1, b)) by {
                assert forall|i: int, j: int| 0 <= i < a1.len() && 0 <= j < b.len() implies a1[i].0
                    != b[j].0 by {
                    assert(a1[i] == a[i + 1]);
                }
            }
            lemma_merge_logs_sorted(a1, b);
            assert forall|i: int| 0 <= i < a1.len() implies x < #[trigger] a1[i].0 by {
                assert(a1[i] == a[i + 1]);
            }
            assert forall|i: int| 0 <= i < b.len() implies x < #[trigger] b[i].0 by {
                assert(i == 0 || b[0].0 < b[i].0);
            }
            lemma_merge_logs_bound(a1, b, x);
            let r = merge_logs(a1, b);
            assert forall|i: int, j: int| 0 <= i < j < m.len() implies m[i].0 < m[j].0 by {
                assert(m[j] == r[j - 1]);
                if i > 0 {
                    assert(m[i] == r[i - 1]);
                }
            }
        } else {
            let b1 = b.drop_first();
            let x = b[0].0;
            assert(a[0].0 != b[0].0);
            assert(logs_disjoint(a, b1)) by {
                assert forall|i: int, j: int| 0 <= i < a.len() && 0 <= j < b1.len() implies a[i].0
                    != b1[j].0 by {
                    assert(b1[j] == b[j + 1]);
                }
            }
            lemma_merge_logs_sorted(a, b1);
            assert forall|i: int| 0 <= i < b1.len() implies x < #[trigger] b1[i].0 by {
                assert(b1[i] == b[i + 1]);
            }
            assert forall|i: int| 0 <= i < a.len() implies x < #[trigger] a[i].0 by {
                assert(i == 0 || a[0].0 < a[i].0);
            }
            lemma_merge_logs_bound(a, b1, x);
            let r = merge_logs(a, b1);
            assert forall|i: int, j: int| 0 <= i < j < m.len() implies m[i].0 < m[j].0 by {
                assert(m[j] == r[j - 1]);
                if i > 0 {
                    assert(m[i] == r[i - 1]);
                }
            }
        }
    }
}

/// The events of one group, by timestamp; each timestamp is there once.
#[derive(Debug, Clone, PartialEq, Eq, Hash)]
pub struct EndStreamLog {
    entries: Vec<(i64, EndStreamLogEntry)>,
}

impl View for EndStreamLog {
    type V = LogView;

    closed spec fn view(&self) -> LogView {
        self.entries@.map_values(|e: (i64, EndStreamLogEntry)| (e.0, e.1@))
    }
}

impl EndStreamLog {
    pub open spec fn wf(&self) -> bool {
        ts_sorted(self@)
    }

    /// The empty log.
    pub fn new() -> (r: EndStreamLog)
        ensures
            r@ == Seq::<(i64, LogEntryView)>::empty(),
            r.wf(),
    {
        EndStreamLog { entries: Vec::new() }
    }

    /// The log of one event.
    pub fn bind(ts: i64, entry: EndStreamLogEntry) -> (r: EndStreamLog)
        ensures
            r@ == seq![(ts, entry@)],
            r.wf(),
    {
        let mut entries = Vec::new();
        entries.push((ts, entry));
        let r = EndStreamLog { entries };
        assert(r@ =~= seq![(ts, entry@)]);
        r
    }

    /// A copy of this log.
    pub fn clone_log(&self) -> (r: EndStreamLog)
        ensures
            r@ == self@,
    {
        let mut entries: Vec<(i64, EndStreamLogEntry)> = Vec::new();
        let mut i: usize = 0;
        while i < self.entries.len()
            invariant
                i <= self.entries@.len(),
                entries@.map_values(|e: (i64, EndStreamLogEntry)| (e.0, e.1@)) == self@.take(i as int),
                self@.len() == self.entries@.len(),
            decreases self.entries.len() - i,
        {
            let ghost before = entries@.map_values(|e: (i64, EndStreamLogEntry)| (e.0, e.1@));
            assert(self@[i as int] == (self.entries@[i as int].0, self.entries@[i as int].1@));
            entries.push((self.entries[i].0, self.entries[i].1.clone_entry()));
            assert(entries@.map_values(|e: (i64, EndStreamLogEntry)| (e.0, e.1@)) =~= before.push(self@[i as int]));
            assert(self@.take(i + 1) =~= self@.take(i as int).push(self@[i as int]));
            i += 1;
        }
        assert(self@.take(i as int) =~= self@);
        EndStreamLog { entries }
    }

    /// The events, in timestamp order.
    pub fn entries(&self) -> (r: &Vec<(i64, EndStreamLogEntry)>)
        ensures
            r@.map_values(|e: (i64, EndStreamLogEntry)| (e.0, e.1@)) == self@,
    {
        &self.entries
    }

    pub fn len(&self) -> (r: usize)
        ensures
            r == self@.len(),
    {
        self.entries.len()
    }

    /// A log of the given events, in the given order, sorted or not.
    pub(crate) fn from_entries(entries: Vec<(i64, EndStreamLogEntry)>) -> (r: EndStreamLog)
        ensures
            r@ == entries@.map_values(|e: (i64, EndStreamLogEntry)| (e.0, e.1@)),
    {
        EndStreamLog { entries }
    }

    /// Whether timestamps strictly increase along the log.
    pub fn is_sorted(&self) -> (r: bool)
        ensures
            r == self.wf(),
    {
        let ghost v = self@;
        let mut i: usize = 1;
        while i < self.entries.len()
            invariant
                1 <= i,
                v == self@,
                v.len() == self.entries@.len(),
                forall|a: int, b: int| 0 <= a < b < i && b < v.len() ==> v[a].0 < v[b].0,
            decreases self.entries.len() - i,
        {
            assert(v[i - 1].0 == self.entries@[i - 1].0 && v[i as int].0 == self.entries@[i as int].0);
            if self.entries[i - 1].0 >= self.entries[i].0 {
                return false;
            }
            assert forall|a: int, b: int| 0 <= a < b < i + 1 && b < v.len() implies v[a].0
                < v[b].0 by {
                if b == i && a < i - 1 {
                    assert(v[a].0 < v[i - 1].0);
                }
            }
            i += 1;
        }
        true
    }

    /// Builds a log from events; `None` unless timestamps strictly increase.
    pub fn from_sorted(entries: Vec<(i64, EndStreamLogEntry)>) -> (r: Option<EndStreamLog>)
        ensures
            match r {
                Some(l) => l.wf() && l@ == entries@.map_values(
                    |e: (i64, EndStreamLogEntry)| (e.0, e.1@),
                ),
                None => !ts_sorted(entries@.map_values(|e: (i64, EndStreamLogEntry)| (e.0, e.1@))),
            },
    {
        let ghost v = entries@.map_values(|e: (i64, EndStreamLogEntry)| (e.0, e.1@));
        let mut i: usize = 1;
        while i < entries.len()
            invariant
                1 <= i,
                v == entries@.map_values(|e: (i64, EndStreamLogEntry)| (e.0, e.1@)),
                forall|a: int, b: int| 0 <= a < b < i && b < v.len() ==> v[a].0 < v[b].0,
            decreases entries.len() - i,
        {
            if entries[i - 1].0 >= entries[i].0 {
                assert(!ts_sorted(v)) by {
                    assert(v[i - 1].0 >= v[i as int].0);
                }
                return None;
            }
            assert forall|a: int, b: int| 0 <= a < b < i + 1 && b < v.len() implies v[a].0
                < v[b].0 by {
                if b == i && a < i - 1 {
                    assert(v[a].0 < v[i - 1].0);
                }
            }
            i += 1;
        }
        Some(EndStreamLog { entries })
    }

    /// The union of two logs, or `TimestampCollision` when a timestamp is in
    /// both.
    pub fn merged(&self, other: &EndStreamLog) -> (r: Result<EndStreamLog, MergeError>)
        requires
            self.wf(),
            other.wf(),
        ensures
            match r {
                Ok(l) => logs_disjoint(self@, other@) && l@ == merge_logs(self@, other@) && l.wf(),
                Err(e) => e == MergeError::TimestampCollision && !logs_disjoint(self@, other@),
            },
    {
        let ghost a = self@;
        let ghost b = other@;
        let mut out: Vec<(i64, EndStreamLogEntry)> = Vec::new();
        let mut i: usize = 0;
        let mut j: usize = 0;
        assert(a.skip(0) =~= a);
        assert(b.skip(0) =~= b);
        while i < self.entries.len() || j < other.entries.len()
            invariant
                a == self@,
                b == other@,
                ts_sorted(a),
                ts_sorted(b),
                i <= a.len(),
                j <= b.len(),
                out@.map_values(|e: (i64, EndStreamLogEntry)| (e.0, e.1@)) + merge_logs(
                    a.skip(i as int),
                    b.skip(j as int),
                ) == merge_logs(a, b),
                forall|x: int, y: int| 0 <= x < i && 0 <= y < b.len() ==> a[x].0 != b[y].0,
                forall|x: int, y: int| 0 <= x < a.len() && 0 <= y < j ==> a[x].0 != b[y].0,
            decreases a.len() + b.len() - i - j,
        {
            let ghost before = out@.map_values(|e: (i64, EndStreamLogEntry)| (e.0, e.1@));
            let ghost sa = a.skip(i as int);
            let ghost sb = b.skip(j as int);
            if i < self.entries.len() && j < other.entries.len() && self.entries[i].0
                == other.entries[j].0 {
                assert(a[i as int].0 == b[j as int].0);
                return Err(MergeError::TimestampCollision);
            }
            if j == other.entries.len() || (i < self.entries.len() && self.entries[i].0
                < other.entries[j].0) {
                let e = self.entries[i].1.clone_entry();
                out.push((self.entries[i].0, e));
                assert(sa.drop_first() =~= a.skip(i + 1));
                assert(sa[0] == a[i as int]);
                assert(out@.map_values(|e: (i64, EndStreamLogEntry)| (e.0, e.1@)) =~= before
                    + seq![a[i as int]]);
                assert forall|y: int| 0 <= y < b.len() implies a[i as int].0 != b[y].0 by {
                    if y >= j {
                        assert(y == j || b[j as int].0 < b[y].0);
                    }
                }
                i += 1;
            } else {
                let e = other.entries[j].1.clone_entry();
                out.push((other.entries[j].0, e));
                assert(sb.drop_first() =~= b.skip(j + 1));
                assert(sb[0] == b[j as int]);
                assert(out@.map_values(|e: (i64, EndStreamLogEntry)| (e.0, e.1@)) =~= before
                    + seq![b[j as int]]);
                assert forall|x: int| 0 <= x < a.len() implies a[x].0 != b[j as int].0 by {
                    if x >= i {
                        assert(x == i || a[i as int].0 < a[x].0);
                    }
                }
                j += 1;
            }
        }
        assert(a.skip(i as int) =~= Seq::<(i64, LogEntryView)>::empty());
        assert(b.skip(j as int) =~= Seq::<(i64, LogEntryView)>::empty());
        assert(out@.map_values(|e: (i64, EndStreamLogEntry)| (e.0, e.1@)) =~= merge_logs(a, b));
        proof {
            lemma_merge_logs_sorted(a, b);
        }
        Ok(EndStreamLog { entries: out })
    }
}

/// What one group has accumulated.
pub struct SumView {
    pub total_ms_played: i64,
    pub spotify_track_uri: Option<Seq<char>>,
    pub spotify_episode_uri: Option<Seq<char>>,
    pub log: LogView,
}

/// The summary of one group: total play time, the identifiers of its first
/// contribution, and its event log.
#[derive(Debug, Clone, PartialEq, Eq, Hash)]
pub struct AssocInfo {
    /// Total time played, in milliseconds.
    pub total_ms_played: i64,
    pub spotify_track_uri: Option<String>,
    pub spotify_episode_uri: Option<String>,
    pub end_stream_log: EndStreamLog,
}

impl View for AssocInfo {
    type V = SumView;

    open spec fn view(&self) -> SumView {
        SumView {
            total_ms_played: self.total_ms_played,
            spotify_track_uri: opt_view(self.spotify_track_uri),
            spotify_episode_uri: opt_view(self.spotify_episode_uri),
            log: self.end_stream_log@,
        }
    }
}

/// Merging two summaries of one group: play times add, logs are united
/// (they must not share a timestamp), identifiers stay those of the left.
pub open spec fn merge_spec(x: SumView, y: SumView) -> Result<SumView, MergeError> {
    if !logs_disjoint(x.log, y.log) {
        Err(MergeError::TimestampCollision)
    } else if x.total_ms_played + y.total_ms_played > i64::MAX || x.total_ms_played
        + y.total_ms_played < i64::MIN {
        Err(MergeError::DurationOverflow)
    } else {
        Ok(
            SumView {
                total_ms_played: (x.total_ms_played + y.total_ms_played) as i64,
                spotify_track_uri: x.spotify_track_uri,
                spotify_episode_uri: x.spotify_episode_uri,
                log: merge_logs(x.log, y.log),
            },
        )
    }
}

/// The summary that one record contributes to its group.
pub open spec fn summary_spec(r: EndStream) -> SumView {
    SumView {
        total_ms_played: r.ms_played,
        spotify_track_uri: opt_view(r.spotify_track_uri),
        spotify_episode_uri: opt_view(r.spotify_episode_uri),
        log: seq![(r.ts, entry_spec(r))],
    }
}

impl AssocInfo {
    pub open spec fn wf(&self) -> bool {
        self.end_stream_log.wf()
    }

    /// The summary of a single record.
    pub fn from_end_stream(r: &EndStream) -> (info: AssocInfo)
        ensures
            info@ == summary_spec(*r),
            info.wf(),
    {
        AssocInfo {
            total_ms_played: r.ms_played,
            spotify_track_uri: clone_opt_string(&r.spotify_track_uri),
            spotify_episode_uri: clone_opt_string(&r.spotify_episode_uri),
            end_stream_log: EndStreamLog::bind(r.ts, EndStreamLogEntry::from_end_stream(r)),
        }
    }

    /// A copy of this summary.
    pub fn clone_info(&self) -> (r: AssocInfo)
        ensures
            r@ == self@,
    {
        AssocInfo {
            total_ms_played: self.total_ms_played,
            spotify_track_uri: clone_opt_string(&self.spotify_track_uri),
            spotify_episode_uri: clone_opt_string(&self.spotify_episode_uri),
            end_stream_log: self.end_stream_log.clone_log(),
        }
    }

    /// The summary of a classified record.
    pub fn from_with_kind(r: &EndStreamWithKind) -> (info: AssocInfo)
        ensures
            info@ == summary_spec(r.end_stream),
            info.wf(),
    {
        AssocInfo::from_end_stream(&r.end_stream)
    }

    /// Merges `rhs` into this summary; on error nothing changes.
    pub fn merge(&mut self, rhs: &AssocInfo) -> (r: Result<(), MergeError>)
        requires
            old(self).wf(),
            rhs.wf(),
        ensures
            match merge_spec(old(self)@, rhs@) {
                Ok(v) => r is Ok && final(self)@ == v,
                Err(e) => r == Err::<(), MergeError>(e) && *final(self) == *old(self),
            },
            final(self).wf(),
    {
        let log = match self.end_stream_log.merged(&rhs.end_stream_log) {
            Ok(l) => l,
            Err(e) => return Err(e),
        };
        let total = match self.total_ms_played.checked_add(rhs.total_ms_played) {
            Some(t) => t,
            None => return Err(MergeError::DurationOverflow),
        };
        self.total_ms_played = total;
        self.end_stream_log = log;
        Ok(())
    }
}

/// The key of a group, as values.
pub struct KeyView {
    pub username: Seq<char>,
    pub conn_country: Seq<char>,
    pub kind: EndStreamKind,
    pub artist_or_podcast: Seq<char>,
    pub album_or_show: Seq<char>,
    pub track_or_episode: Seq<char>,
}

/// The key that groups records: user, country, kind and three labels
/// (artist, album, track; or artist, show, episode).
#[derive(Debug, Clone, PartialEq, Eq, Hash)]
pub struct GroupKey {
    pub username: String,
    pub conn_country: String,
    pub kind: EndStreamKind,
    pub artist_or_podcast: String,
    pub album_or_show: String,
    pub track_or_episode: String,
}

impl View for GroupKey {
    type V = KeyView;

    open spec fn view(&self) -> KeyView {
        KeyView {
            username: self.username@,
            conn_country: self.conn_country@,
            kind: self.kind,
            artist_or_podcast: self.artist_or_podcast@,
            album_or_show: self.album_or_show@,
            track_or_episode: self.track_or_episode@,
        }
    }
}

impl GroupKey {
    /// A copy of this key.
    pub fn clone_key(&self) -> (r: GroupKey)
        ensures
            r == *self,
    {
        GroupKey {
            username: self.username.clone(),
            conn_country: self.conn_country.clone(),
            kind: self.kind,
            artist_or_podcast: self.artist_or_podcast.clone(),
            album_or_show: self.album_or_show.clone(),
            track_or_episode: self.track_or_episode.clone(),
        }
    }
}

/// Lexicographic three-way comparison of keys, field by field in the order
/// user, country, kind, and the three labels.
pub open spec fn key_cmp(a: KeyView, b: KeyView) -> int {
    if str_cmp(a.username, b.username) != 0 {
        str_cmp(a.username, b.username)
    } else if str_cmp(a.conn_country, b.conn_country) != 0 {
        str_cmp(a.conn_country, b.conn_country)
    } else if kind_rank(a.kind) < kind_rank(b.kind) {
        -1
    } else if kind_rank(a.kind) > kind_rank(b.kind) {
        1
    } else if str_cmp(a.artist_or_podcast, b.artist_or_podcast) != 0 {
        str_cmp(a.artist_or_podcast, b.artist_or_podcast)
    } else if str_cmp(a.album_or_show, b.album_or_show) != 0 {
        str_cmp(a.album_or_show, b.album_or_show)
    } else {
        str_cmp(a.track_or_episode, b.track_or_episode)
    }
}

proof fn lemma_str_three(x: Seq<char>, y: Seq<char>, z: Seq<char>)
    ensures
        (str_cmp(x, y) == 0) == (x == y),
        (str_cmp(y, z) == 0) == (y == z),
        (str_cmp(x, z) == 0) == (x == z),
        str_cmp(x, y) == -str_cmp(y, x),
        str_cmp(y, z) == -str_cmp(z, y),
        str_cmp(x, z) == -str_cmp(z, x),
        str_cmp(x, y) < 0 && str_cmp(y, z) < 0 ==> str_cmp(x, z) < 0,
{
    lemma_str_cmp_basics(x, y);
    lemma_str_cmp_basics(y, z);
    lemma_str_cmp_basics(x, z);
    if str_cmp(x, y) < 0 && str_cmp(y, z) < 0 {
        lemma_str_cmp_trans(x, y, z);
    }
}

/// Key comparison is a strict total order: zero exactly on equal keys,
/// antisymmetric and transitive.
pub proof fn lemma_key_cmp(a: KeyView, b: KeyView, c: KeyView)
    ensures
        (key_cmp(a, b) == 0) == (a == b),
        key_cmp(a, b) == -key_cmp(b, a),
        key_cmp(a, b) < 0 && key_cmp(b, c) < 0 ==> key_cmp(a, c) < 0,
{
    lemma_str_three(a.username, b.username, c.username);
    lemma_str_three(a.conn_country, b.conn_country, c.conn_country);
    lemma_str_three(a.artist_or_podcast, b.artist_or_podcast, c.artist_or_podcast);
    lemma_str_three(a.album_or_show, b.album_or_show, c.album_or_show);
    lemma_str_three(a.track_or_episode, b.track_or_episode, c.track_or_episode);
}

/// Compares two keys in the order of the index.
pub fn compare_keys(a: &GroupKey, b: &GroupKey) -> (r: i8)
    ensures
        r as int == key_cmp(a@, b@),
{
    let c = compare_str(a.username.as_str(), b.username.as_str());
    if c != 0 {
        return c;
    }
    let c = compare_str(a.conn_country.as_str(), b.conn_country.as_str());
    if c != 0 {
        return c;
    }
    let ra: u8 = match a.kind {
        EndStreamKind::EndSong => 0,
        EndStreamKind::EndEpisode => 1,
        EndStreamKind::EndVideoOrElse => 2,
    };
    let rb: u8 = match b.kind {
        EndStreamKind::EndSong => 0,
        EndStreamKind::EndEpisode => 1,
        EndStreamKind::EndVideoOrElse => 2,
    };
    if ra < rb {
        return -1;
    }
    if ra > rb {
        return 1;
    }
    let c = compare_str(a.artist_or_podcast.as_str(), b.artist_or_podcast.as_str());
    if c != 0 {
        return c;
    }
    let c = compare_str(a.album_or_show.as_str(), b.album_or_show.as_str());
    if c != 0 {
        return c;
    }
    compare_str(a.track_or_episode.as_str(), b.track_or_episode.as_str())
}

/// An index as a sequence of (key, summary) pairs.
pub type IndexView = Seq<(KeyView, SumView)>;

/// Keys strictly increase along the index.
pub open spec fn keys_sorted(s: IndexView) -> bool {
    forall|i: int, j: int| 0 <= i < j < s.len() ==> key_cmp(s[i].0, s[j].0) < 0
}

/// Keys strictly increase and every log is sorted.
pub open spec fn index_wf(s: IndexView) -> bool {
    keys_sorted(s) && forall|i: int| 0 <= i < s.len() ==> ts_sorted(#[trigger] s[i].1.log)
}

/// How many keys of the index are below `k`: where `k` goes.
pub open spec fn lower_bound(s: IndexView, k: KeyView) -> int
    decreases s.len(),
{
    if s.len() == 0 {
        0
    } else {
        lower_bound(s.drop_last(), k) + if key_cmp(s.last().0, k) < 0 {
            1int
        } else {
            0int
        }
    }
}

/// Merge-inserts a contribution: merged into the group of its key when there
/// is one, else added as a new group in key order.
pub open spec fn index_insert(s: IndexView, k: KeyView, v: SumView) -> Result<IndexView, MergeError> {
    if exists|i: int| 0 <= i < s.len() && s[i].0 == k {
        let i = choose|i: int| 0 <= i < s.len() && s[i].0 == k;
        match merge_spec(s[i].1, v) {
            Ok(m) => Ok(s.update(i, (k, m))),
            Err(e) => Err(e),
        }
    } else {
        Ok(s.insert(lower_bound(s, k), (k, v)))
    }
}

/// The key and summary that a record contributes, if it classifies.
pub open spec fn contribution(r: EndStream) -> Option<(KeyView, SumView)> {
    match classify_spec(r) {
        Some((k, a, b, c)) => Some(
            (
                KeyView {
                    username: r.username@,
                    conn_country: r.conn_country@,
                    kind: k,
                    artist_or_podcast: a,
                    album_or_show: b,
                    track_or_episode: c,
                },
                summary_spec(r),
            ),
        ),
        None => None,
    }
}

/// Folding records, in order, into an index that starts empty.
pub open spec fn fold_spec(recs: Seq<EndStream>) -> Result<IndexView, MergeError>
    decreases recs.len(),
{
    if recs.len() == 0 {
        Ok(Seq::empty())
    } else {
        match fold_spec(recs.drop_last()) {
            Err(e) => Err(e),
            Ok(s) => match contribution(recs.last()) {
                None => Ok(s),
                Some((k, v)) => index_insert(s, k, v),
            },
        }
    }
}

/// Merge-inserting (key, summary) pairs, in order, into an index.
pub open spec fn insert_all(s: IndexView, rows: IndexView) -> Result<IndexView, MergeError>
    decreases rows.len(),
{
    if rows.len() == 0 {
        Ok(s)
    } else {
        match insert_all(s, rows.drop_last()) {
            Ok(t) => index_insert(t, rows.last().0, rows.last().1),
            Err(e) => Err(e),
        }
    }
}

proof fn lemma_insert_all_err_extends(s: IndexView, rows: IndexView, n: int)
    requires
        0 <= n <= rows.len(),
        insert_all(s, rows.take(n)) is Err,
    ensures
        insert_all(s, rows) == insert_all(s, rows.take(n)),
    decreases rows.len() - n,
{
    if n < rows.len() {
        assert(rows.take(n + 1).drop_last() =~= rows.take(n));
        lemma_insert_all_err_extends(s, rows, n + 1);
    } else {
        assert(rows.take(n) =~= rows);
    }
}

/// How many of the records do not classify, and so add nothing to an index.
pub open spec fn unclassified(recs: Seq<EndStream>) -> nat
    decreases recs.len(),
{
    if recs.len() == 0 {
        0
    } else {
        unclassified(recs.drop_last()) + if contribution(recs.last()) is None {
            1nat
        } else {
            0nat
        }
    }
}

/// Once folding fails, folding more records fails the same way.
proof fn lemma_fold_err_extends(recs: Seq<EndStream>, n: int)
    requires
        0 <= n <= recs.len(),
        fold_spec(recs.take(n)) is Err,
    ensures
        fold_spec(recs) == fold_spec(recs.take(n)),
    decreases recs.len() - n,
{
    if n < recs.len() {
        assert(recs.take(n + 1).drop_last() =~= recs.take(n));
        lemma_fold_err_extends(recs, n + 1);
    } else {
        assert(recs.take(n) =~= recs);
    }
}

proof fn lemma_lower_bound(s: IndexView, k: KeyView, p: int)
    requires
        0 <= p <= s.len(),
        forall|j: int| 0 <= j < p ==> key_cmp(#[trigger] s[j].0, k) < 0,
        forall|j: int| p <= j < s.len() ==> key_cmp(#[trigger] s[j].0, k) >= 0,
    ensures
        lower_bound(s, k) == p,
    decreases s.len(),
{
    if s.len() > 0 {
        let t = s.drop_last();
        if p == s.len() {
            lemma_lower_bound(t, k, p - 1);
        } else {
            lemma_lower_bound(t, k, p);
        }
    }
}

/// Records folded into groups: the aggregated index.
///
/// Groups are kept in strictly increasing key order.
#[derive(Debug, Clone, PartialEq, Eq, Hash)]
pub struct CompressedEndStreamWithKindContainer {
    groups: Vec<(GroupKey, AssocInfo)>,
}

impl View for CompressedEndStreamWithKindContainer {
    type V = IndexView;

    closed spec fn view(&self) -> IndexView {
        self.groups@.map_values(|g: (GroupKey, AssocInfo)| (g.0@, g.1@))
    }
}

impl CompressedEndStreamWithKindContainer {
    pub open spec fn wf(&self) -> bool {
        index_wf(self@)
    }

    /// The empty index.
    pub fn new() -> (r: Self)
        ensures
            r@ == Seq::<(KeyView, SumView)>::empty(),
            r.wf(),
    {
        let r = CompressedEndStreamWithKindContainer { groups: Vec::new() };
        assert(r@ =~= Seq::<(KeyView, SumView)>::empty());
        r
    }

    /// An index of the given groups, in the given order, well-formed or not.
    pub(crate) fn from_groups(groups: Vec<(GroupKey, AssocInfo)>) -> (r: Self)
        ensures
            r@ == groups@.map_values(|g: (GroupKey, AssocInfo)| (g.0@, g.1@)),
    {
        CompressedEndStreamWithKindContainer { groups }
    }

    /// Whether keys strictly increase and every log is sorted.
    pub fn is_wf(&self) -> (r: bool)
        ensures
            r == self.wf(),
    {
        let ghost v = self@;
        let mut i: usize = 0;
        while i < self.groups.len()
            invariant
                v == self@,
                v.len() == self.groups@.len(),
                i <= v.len(),
                forall|a: int, b: int| 0 <= a < b < i ==> key_cmp(v[a].0, v[b].0) < 0,
                forall|a: int| 0 <= a < i ==> ts_sorted(#[trigger] v[a].1.log),
            decreases self.groups.len() - i,
        {
            assert(v[i as int] == (self.groups@[i as int].0@, self.groups@[i as int].1@));
            if !self.groups[i].1.end_stream_log.is_sorted() {
                assert(!ts_sorted(v[i as int].1.log));
                return false;
            }
            if i > 0 {
                assert(v[i - 1] == (self.groups@[i - 1].0@, self.groups@[i - 1].1@));
                if compare_keys(&self.groups[i - 1].0, &self.groups[i].0) >= 0 {
                    assert(key_cmp(v[i - 1].0, v[i as int].0) >= 0);
                    assert(!keys_sorted(v));
                    return false;
                }
                assert forall|a: int, b: int| 0 <= a < b < i + 1 implies key_cmp(v[a].0, v[b].0)
                    < 0 by {
                    if b == i && a < i - 1 {
                        lemma_key_cmp(v[a].0, v[i - 1].0, v[b].0);
                    }
                }
            }
            i += 1;
        }
        true
    }

    /// The number of groups.
    pub fn len(&self) -> (r: usize)
        ensures
            r == self@.len(),
    {
        self.groups.len()
    }

    /// The groups, in key order.
    pub fn groups(&self) -> (r: &Vec<(GroupKey, AssocInfo)>)
        ensures
            r@.map_values(|g: (GroupKey, AssocInfo)| (g.0@, g.1@)) == self@,
    {
        &self.groups
    }

    /// Where `key` is or would go: `(true, i)` when group `i` has that key,
    /// else `(false, i)` with every key before `i` below it and every other
    /// above.
    fn search(&self, key: &GroupKey) -> (r: (bool, usize))
        requires
            self.wf(),
        ensures
            r.1 <= self@.len(),
            forall|j: int| 0 <= j < r.1 ==> key_cmp(#[trigger] self@[j].0, key@) < 0,
            r.0 ==> r.1 < self@.len() && self@[r.1 as int].0 == key@,
            !r.0 ==> forall|j: int| r.1 <= j < self@.len() ==> key_cmp(key@, #[trigger] self@[j].0) < 0,
    {
        let ghost s = self@;
        let mut lo: usize = 0;
        let mut hi: usize = self.groups.len();
        while lo < hi
            invariant
                s == self@,
                index_wf(s),
                s.len() == self.groups.len(),
                lo <= hi <= s.len(),
                forall|j: int| 0 <= j < lo ==> key_cmp(#[trigger] s[j].0, key@) < 0,
                forall|j: int| hi <= j < s.len() ==> key_cmp(key@, #[trigger] s[j].0) < 0,
            decreases hi - lo,
        {
            let mid = lo + (hi - lo) / 2;
            assert(s[mid as int].0 == self.groups@[mid as int].0@);
            let c = compare_keys(&self.groups[mid].0, key);
            if c == 0 {
                proof {
                    lemma_key_cmp(s[mid as int].0, key@, key@);
                }
                return (true, mid);
            } else if c < 0 {
                assert forall|j: int| 0 <= j < mid + 1 implies key_cmp(#[trigger] s[j].0, key@)
                    < 0 by {
                    lemma_key_cmp(s[j].0, s[mid as int].0, key@);
                }
                lo = mid + 1;
            } else {
                assert forall|j: int| mid <= j < s.len() implies key_cmp(key@, #[trigger] s[j].0)
                    < 0 by {
                    lemma_key_cmp(key@, s[mid as int].0, s[j].0);
                    lemma_key_cmp(s[mid as int].0, key@, key@);
                }
                hi = mid;
            }
        }
        (false, lo)
    }

    /// Merge-inserts a summary under its key; on error nothing changes.
    pub fn insert(&mut self, key: GroupKey, info: AssocInfo) -> (r: Result<(), MergeError>)
        requires
            old(self).wf(),
            info.wf(),
        ensures
            match index_insert(old(self)@, key@, info@) {
                Ok(s) => r is Ok && final(self)@ == s,
                Err(e) => r == Err::<(), MergeError>(e) && final(self)@ == old(self)@,
            },
            final(self).wf(),
    {
        let ghost s = self@;
        let (found, pos) = self.search(&key);
        if found {
            proof {
                assert forall|i: int| 0 <= i < s.len() && s[i].0 == key@ implies i == pos by {
                    if i < pos {
                        lemma_key_cmp(s[i].0, s[pos as int].0, key@);
                    } else if i > pos {
                        lemma_key_cmp(s[pos as int].0, s[i].0, key@);
                    }
                }
                assert(s[pos as int].1 == self.groups@[pos as int].1@);
                assert(exists|i: int| 0 <= i < s.len() && s[i].0 == key@);
                let c = choose|i: int| 0 <= i < s.len() && s[i].0 == key@;
                assert(c == pos);
            }
            let r = self.groups[pos].1.merge(&info);
            proof {
                if r is Ok {
                    lemma_merge_logs_sorted(s[pos as int].1.log, info@.log);
                }
            }
            assert(self@ =~= (if r is Ok { s.update(pos as int, (key@, self@[pos as int].1)) } else { s }));
            proof {
                if r is Ok {
                    assert forall|i: int| 0 <= i < self@.len() implies ts_sorted(#[trigger] self@[i].1.log) by {
                        if i != pos {
                            assert(self@[i] == s[i]);
                        }
                    }
                }
            }
            r
        } else {
            proof {
                assert forall|j: int| pos <= j < s.len() implies key_cmp(#[trigger] s[j].0, key@) >= 0 by {
                    lemma_key_cmp(key@, s[j].0, key@);
                }
                lemma_lower_bound(s, key@, pos as int);
                assert forall|j: int| 0 <= j < s.len() implies #[trigger] s[j].0 != key@ by {
                    lemma_key_cmp(s[j].0, key@, key@);
                }
            }
            self.groups.insert(pos, (key, info));
            let ghost t = self@;
            assert(t =~= s.insert(pos as int, (key@, info@)));
            proof {
                assert forall|i: int, j: int| 0 <= i < j < t.len() implies key_cmp(t[i].0, t[j].0) < 0 by {
                    if j < pos {
                    } else if j == pos {
                        assert(t[i] == s[i]);
                    } else if i == pos {
                        assert(t[j] == s[j - 1]);
                        lemma_key_cmp(key@, s[j - 1].0, key@);
                    } else if i < pos {
                        assert(t[j] == s[j - 1]);
                        assert(t[i] == s[i]);
                    } else {
                        assert(t[j] == s[j - 1]);
                        assert(t[i] == s[i - 1]);
                    }
                }
                assert forall|i: int| 0 <= i < t.len() implies ts_sorted(#[trigger] t[i].1.log) by {
                    if i < pos {
                        assert(t[i] == s[i]);
                    } else if i > pos {
                        assert(t[i] == s[i - 1]);
                    }
                }
            }
            Ok(())
        }
    }

    /// The key and summary that a record contributes, if it classifies.
    pub fn contribution_of(r: &EndStream) -> (c: Option<(GroupKey, AssocInfo)>)
        ensures
            match c {
                Some((k, v)) => contribution(*r) == Some((k@, v@)) && v.wf(),
                None => contribution(*r) is None,
            },
    {
        match classify(r) {
            Some((kind, a, b, t)) => {
                let key = GroupKey {
                    username: r.username.clone(),
                    conn_country: r.conn_country.clone(),
                    kind,
                    artist_or_podcast: a,
                    album_or_show: b,
                    track_or_episode: t,
                };
                Some((key, AssocInfo::from_end_stream(r)))
            },
            None => None,
        }
    }

    /// Builds an index from (key, summary) pairs, merge-inserting them in
    /// order into an empty index.
    pub fn from_rows(rows: &Vec<(GroupKey, AssocInfo)>) -> (r: Result<Self, MergeError>)
        requires
            forall|i: int| 0 <= i < rows@.len() ==> (#[trigger] rows@[i]).1.wf(),
        ensures
            match insert_all(
                Seq::empty(),
                rows@.map_values(|g: (GroupKey, AssocInfo)| (g.0@, g.1@)),
            ) {
                Ok(s) => r matches Ok(idx) && idx@ == s && idx.wf(),
                Err(e) => r == Err::<Self, MergeError>(e),
            },
    {
        let ghost v = rows@.map_values(|g: (GroupKey, AssocInfo)| (g.0@, g.1@));
        let mut out = Self::new();
        let mut i: usize = 0;
        assert(v.take(0) =~= Seq::<(KeyView, SumView)>::empty());
        while i < rows.len()
            invariant
                i <= rows.len(),
                v == rows@.map_values(|g: (GroupKey, AssocInfo)| (g.0@, g.1@)),
                forall|j: int| 0 <= j < rows@.len() ==> (#[trigger] rows@[j]).1.wf(),
                out.wf(),
                insert_all(Seq::empty(), v.take(i as int)) == Ok::<IndexView, MergeError>(out@),
            decreases rows.len() - i,
        {
            assert(v.take(i + 1).drop_last() =~= v.take(i as int));
            assert(v.take(i + 1).last() == v[i as int]);
            assert(rows@[i as int].1.wf());
            let key = rows[i].0.clone_key();
            let info = rows[i].1.clone_info();
            let res = out.insert(key, info);
            if let Err(e) = res {
                proof {
                    lemma_insert_all_err_extends(Seq::empty(), v, i + 1);
                }
                return Err(e);
            }
            i += 1;
        }
        assert(v.take(i as int) =~= v);
        Ok(out)
    }

    /// Counts the records that do not classify: those that folding skips.
    pub fn count_unclassified(records: &Vec<EndStream>) -> (r: usize)
        ensures
            r == unclassified(records@),
    {
        let mut n: usize = 0;
        let mut i: usize = 0;
        assert(records@.take(0) =~= Seq::<EndStream>::empty());
        while i < records.len()
            invariant
                i <= records.len(),
                n == unclassified(records@.take(i as int)),
                n <= i,
            decreases records.len() - i,
        {
            assert(records@.take(i + 1).drop_last() =~= records@.take(i as int));
            assert(records@.take(i + 1).last() == records@[i as int]);
            if Self::contribution_of(&records[i]).is_none() {
                n += 1;
            }
            i += 1;
        }
        assert(records@.take(i as int) =~= records@);
        n
    }

    /// Folds records, in order, into an index: each record that classifies
    /// is merge-inserted under its key, the others are skipped. Fails when two
    /// records of one group share a timestamp, or a total overflows.
    pub fn fold(records: &Vec<EndStream>) -> (r: Result<Self, MergeError>)
        ensures
            match fold_spec(records@) {
                Ok(s) => r matches Ok(idx) && idx@ == s && idx.wf(),
                Err(e) => r == Err::<Self, MergeError>(e),
            },
    {
        let mut out = Self::new();
        let mut i: usize = 0;
        assert(records@.take(0) =~= Seq::<EndStream>::empty());
        while i < records.len()
            invariant
                i <= records.len(),
                out.wf(),
                fold_spec(records@.take(i as int)) == Ok::<IndexView, MergeError>(out@),
            decreases records.len() - i,
        {
            assert(records@.take(i + 1).drop_last() =~= records@.take(i as int));
            assert(records@.take(i + 1).last() == records@[i as int]);
            match Self::contribution_of(&records[i]) {
                Some((key, info)) => {
                    let res = out.insert(key, info);
                    if let Err(e) = res {
                        proof {
                            lemma_fold_err_extends(records@, i + 1);
                        }
                        return Err(e);
                    }
                },
                None => {},
            }
            i += 1;
        }
        assert(records@.take(i as int) =~= records@);
        Ok(out)
    }
}

/// In a sorted index, the keys before the lower bound of `k` are below it
/// and the others are not.
proof fn lemma_lower_bound_split(s: IndexView, k: KeyView)
    requires
        keys_sorted(s),
    ensures
        0 <= lower_bound(s, k) <= s.len(),
        forall|j: int| 0 <= j < lower_bound(s, k) ==> key_cmp(#[trigger] s[j].0, k) < 0,
        forall|j: int| lower_bound(s, k) <= j < s.len() ==> key_cmp(#[trigger] s[j].0, k) >= 0,
    decreases s.len(),
{
    if s.len() > 0 {
        let t = s.drop_last();
        assert(keys_sorted(t)) by {
            assert forall|i: int, j: int| 0 <= i < j < t.len() implies key_cmp(t[i].0, t[j].0)
                < 0 by {
                assert(t[i] == s[i] && t[j] == s[j]);
            }
        }
        lemma_lower_bound_split(t, k);
        let lt = lower_bound(t, k);
        assert(lower_bound(s, k) == lt + if key_cmp(s.last().0, k) < 0 {
            1int
        } else {
            0int
        });
        if key_cmp(s.last().0, k) < 0 {
            assert forall|j: int| 0 <= j < t.len() implies key_cmp(#[trigger] t[j].0, k) < 0 by {
                assert(t[j] == s[j]);
                lemma_key_cmp(s[j].0, s.last().0, k);
            }
            if lt < t.len() {
                assert(key_cmp(t[lt].0, k) >= 0);
            }
            assert(lt == t.len());
            assert forall|j: int| 0 <= j < lower_bound(s, k) implies key_cmp(#[trigger] s[j].0, k) < 0 by {
                if j < t.len() {
                    assert(t[j] == s[j]);
                }
            }
        } else {
            assert forall|j: int| 0 <= j < lower_bound(s, k) implies key_cmp(#[trigger] s[j].0, k) < 0 by {
                assert(t[j] == s[j]);
            }
            assert forall|j: int| lower_bound(s, k) <= j < s.len() implies key_cmp(#[trigger] s[j].0, k) >= 0 by {
                if j < t.len() {
                    assert(t[j] == s[j]);
                }
            }
        }
    }
}

/// Merge-inserting into a well-formed index keeps it well-formed.
pub proof fn lemma_index_insert_wf(s: IndexView, k: KeyView, v: SumView)
    requires
        index_wf(s),
        ts_sorted(v.log),
    ensures
        index_insert(s, k, v) matches Ok(t) ==> index_wf(t),
{
    if exists|i: int| 0 <= i < s.len() && s[i].0 == k {
        let p = choose|i: int| 0 <= i < s.len() && s[i].0 == k;
        assert forall|i: int| 0 <= i < s.len() && #[trigger] s[i].0 == k implies i == p by {
            lemma_key_cmp(s[i].0, s[p].0, k);
        }
        if let Ok(m) = merge_spec(s[p].1, v) {
            lemma_merge_logs_sorted(s[p].1.log, v.log);
            let t = s.update(p, (k, m));
            assert forall|i: int, j: int| 0 <= i < j < t.len() implies key_cmp(t[i].0, t[j].0)
                < 0 by {
                assert(t[i].0 == s[i].0 && t[j].0 == s[j].0);
            }
            assert forall|i: int| 0 <= i < t.len() implies ts_sorted(#[trigger] t[i].1.log) by {
                if i != p {
                    assert(t[i] == s[i]);
                }
            }
            assert(index_wf(t));
            assert(index_insert(s, k, v) == Ok::<IndexView, MergeError>(t));
        }
    } else {
        let p = lower_bound(s, k);
        lemma_lower_bound_split(s, k);
        let q = p;
        assert forall|j: int| q <= j < s.len() implies key_cmp(k, #[trigger] s[j].0) < 0 by {
            lemma_key_cmp(s[j].0, k, k);
            assert(s[j].0 != k);
        }
        let t = s.insert(p, (k, v));
        assert forall|i: int, j: int| 0 <= i < j < t.len() implies key_cmp(t[i].0, t[j].0) < 0 by {
            if j < p {
                assert(t[i] == s[i] && t[j] == s[j]);
            } else if j == p {
                assert(t[i] == s[i]);
            } else if i == p {
                assert(t[j] == s[j - 1]);
            } else if i < p {
                assert(t[j] == s[j - 1]);
                assert(t[i] == s[i]);
            } else {
                assert(t[j] == s[j - 1]);
                assert(t[i] == s[i - 1]);
            }
        }
        assert forall|i: int| 0 <= i < t.len() implies ts_sorted(#[trigger] t[i].1.log) by {
            if i < p {
                assert(t[i] == s[i]);
            } else if i > p {
                assert(t[i] == s[i - 1]);
            }
        }
        assert(index_wf(t));
        assert(index_insert(s, k, v) == Ok::<IndexView, MergeError>(t));
    }
}

/// Every index that folding produces is well-formed: keys strictly
/// increase and every log is sorted.
pub proof fn lemma_fold_wf(recs: Seq<EndStream>)
    ensures
        fold_spec(recs) matches Ok(s) ==> index_wf(s),
    decreases recs.len(),
{
    if recs.len() > 0 {
        lemma_fold_wf(recs.drop_last());
        if let Ok(s) = fold_spec(recs.drop_last()) {
            if let Some((k, v)) = contribution(recs.last()) {
                lemma_index_insert_wf(s, k, v);
            }
        }
    }
}

/// Folding two records of one group in either order gives the same total
/// play time and the same set of event timestamps, in a single group; when
/// one order fails, the other fails with the same error.
pub proof fn lemma_fold_two_commutes(a: EndStream, b: EndStream)
    requires
        contribution(a) is Some,
        contribution(b) is Some,
        contribution(a).unwrap().0 == contribution(b).unwrap().0,
    ensures
        match (fold_spec(seq![a, b]), fold_spec(seq![b, a])) {
            (Ok(x), Ok(y)) => x.len() == 1 && y.len() == 1 && x[0].1.total_ms_played
                == y[0].1.total_ms_played && log_keys(x[0].1.log) == log_keys(y[0].1.log),
            (Err(e1), Err(e2)) => e1 == e2,
            _ => false,
        },
{
    let (k, va) = contribution(a).unwrap();
    let vb = contribution(b).unwrap().1;
    let e = Seq::<(KeyView, SumView)>::empty();
    assert(seq![a, b].drop_last() =~= seq![a]);
    assert(seq![b, a].drop_last() =~= seq![b]);
    assert(seq![a].drop_last() =~= Seq::<EndStream>::empty());
    assert(seq![b].drop_last() =~= Seq::<EndStream>::empty());
    assert(lower_bound(e, k) == 0);
    assert(fold_spec(Seq::<EndStream>::empty()) == Ok::<IndexView, MergeError>(e));
    assert(fold_spec(seq![a]) == Ok::<IndexView, MergeError>(seq![(k, va)])) by {
        assert(e.insert(0, (k, va)) =~= seq![(k, va)]);
    }
    assert(fold_spec(seq![b]) == Ok::<IndexView, MergeError>(seq![(k, vb)])) by {
        assert(e.insert(0, (k, vb)) =~= seq![(k, vb)]);
    }
    let sa = seq![(k, va)];
    let sb = seq![(k, vb)];
    assert(sa[0].0 == k);
    assert(sb[0].0 == k);
    let ca = choose|i: int| 0 <= i < sa.len() && sa[i].0 == k;
    let cb = choose|i: int| 0 <= i < sb.len() && sb[i].0 == k;
    assert(ca == 0 && cb == 0);
    let xa = va.log[0];
    let xb = vb.log[0];
    assert(logs_disjoint(va.log, vb.log) == (xa.0 != xb.0));
    assert(logs_disjoint(vb.log, va.log) == (xa.0 != xb.0));
    if xa.0 != xb.0 {
        let m1 = merge_logs(va.log, vb.log);
        let m2 = merge_logs(vb.log, va.log);
        assert(va.log.drop_first() =~= Seq::<(i64, LogEntryView)>::empty());
        assert(vb.log.drop_first() =~= Seq::<(i64, LogEntryView)>::empty());
        assert(va.log.len() == 1 && vb.log.len() == 1);
        assert(merge_logs(va.log.drop_first(), vb.log) == vb.log);
        assert(merge_logs(vb.log.drop_first(), va.log) == va.log);
        assert(merge_logs(va.log, vb.log.drop_first()) == va.log);
        assert(merge_logs(vb.log, va.log.drop_first()) == vb.log);
        if xa.0 < xb.0 {
            assert(m1 =~= seq![xa, xb]);
            assert(m2 =~= seq![xa, xb]);
        } else {
            assert(m1 =~= seq![xb, xa]);
            assert(m2 =~= seq![xb, xa]);
        }
    }
}

/// A record with artist and album names is a song; one without both but
/// with an episode name is an episode; a record with neither adds nothing
/// to the index.
pub proof fn lemma_classification_complete(r: EndStream)
    ensures
        r.master_metadata_album_artist_name is Some && r.master_metadata_album_album_name is Some
            ==> kind_spec(r) == EndStreamKind::EndSong,
        !(r.master_metadata_album_artist_name is Some && r.master_metadata_album_album_name is Some)
            && r.episode_name is Some ==> kind_spec(r) == EndStreamKind::EndEpisode,
        !(r.master_metadata_album_artist_name is Some && r.master_metadata_album_album_name is Some)
            && r.episode_name is None ==> fold_spec(seq![r]) == Ok::<IndexView, MergeError>(
            Seq::empty(),
        ),
{
    assert(seq![r].drop_last() =~= Seq::<EndStream>::empty());
    assert(fold_spec(Seq::<EndStream>::empty()) == Ok::<IndexView, MergeError>(Seq::empty()));
}

/// A record with no artist, album or track name adds no group; one with all
/// three makes an index of exactly one group, whose total is the record's
/// play time.
pub proof fn lemma_drop_policy(r: EndStream)
    ensures
        r.master_metadata_album_artist_name is None && r.master_metadata_album_album_name is None
            && r.master_metadata_track_name is None ==> fold_spec(seq![r]) == Ok::<
            IndexView,
            MergeError,
        >(Seq::empty()),
        r.master_metadata_album_artist_name is Some && r.master_metadata_album_album_name is Some
            && r.master_metadata_track_name is Some ==> (fold_spec(seq![r]) matches Ok(s) && s.len()
            == 1 && s[0].1.total_ms_played == r.ms_played),
{
    assert(seq![r].drop_last() =~= Seq::<EndStream>::empty());
    let e = Seq::<(KeyView, SumView)>::empty();
    assert(fold_spec(Seq::<EndStream>::empty()) == Ok::<IndexView, MergeError>(e));
    if let Some((k, v)) = contribution(r) {
        assert(lower_bound(e, k) == 0);
        assert(e.insert(0, (k, v)) =~= seq![(k, v)]);
    }
}

} // verus!
