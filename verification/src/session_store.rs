//! Sessions in memory, and how they are kept on disk.
//!
//! Each session lives in its own directory below the state directory:
//!
//! ```text
//! <state_dir>/<session_id>/
//!   log.cbor      records of the session tree
//!   events.cbor   durable protocol events
//!   meta.json     working directory, creation and last use
//!   lock          locked while a store has the session open for writing
//! ```
//!
//! Sessions are loaded when the store is opened; locks are taken with the first
//! write, so that readers do not compete with a running daemon.

use crate::path::{join, joined};
use crate::records::{
    decoded_all, framed, framed_all, law_appended_record_is_read_last, read_items,
};
use crate::session::{
    branch, law_branch_ends_at_the_head, law_changes_keep_tree, lemma_replay_keeps_name, NodeId,
    PersistedSessionRecord, SessionChange, SessionEntry, SessionTree, ToolActivityRecord,
    TreeModel,
};
use crate::text::{decimal, push_decimal, str_eq, trim, trim_str, views};
use vstd::prelude::*;

verus! {

// ---------------------------------------------------------------------------
// Errors
// ---------------------------------------------------------------------------

/// Errors of the session store. `source` is the text of the cause.
#[derive(Debug)]
pub enum SessionStoreError {
    CreateParentDirectory { path: String, source: String },
    Open { path: String, source: String },
    Read { path: String, source: String },
    Write { path: String, source: String },
    Decode { path: String, source: String },
    Encode { path: String, source: String },
    /// Another process holds the lock of this session.
    Locked { path: String, holder: String },
    InvalidSessionDir { path: String },
}

/// The text of an error.
pub open spec fn error_message(e: SessionStoreError) -> Seq<char> {
    match e {
        SessionStoreError::CreateParentDirectory { path, source } =>
            "failed to create parent directory for session store "@ + path@ + ": "@ + source@,
        SessionStoreError::Open { path, source } => "failed to open session store "@ + path@ + ": "@
            + source@,
        SessionStoreError::Read { path, source } => "failed to read session store "@ + path@ + ": "@
            + source@,
        SessionStoreError::Write { path, source } => "failed to write session store "@ + path@
            + ": "@ + source@,
        SessionStoreError::Decode { path, source } =>
            "failed to decode session store record from "@ + path@ + ": "@ + source@,
        SessionStoreError::Encode { path, source } =>
            "failed to encode session store record for "@ + path@ + ": "@ + source@,
        SessionStoreError::Locked { path, holder } => "session lock at "@ + path@
            + " held by another process ("@ + trim(holder@) + ")"@,
        SessionStoreError::InvalidSessionDir { path } =>
            "invalid session directory name (non-utf8): "@ + path@,
    }
}

fn three(head: &str, path: &str, source: &str) -> (s: String)
    ensures
        s@ == head@ + path@ + ": "@ + source@,
{
    let mut s = head.to_owned();
    s.append(path);
    s.append(": ");
    s.append(source);
    s
}

impl SessionStoreError {
    /// The text of the error.
    pub fn message(&self) -> (s: String)
        ensures
            s@ == error_message(*self),
    {
        match self {
            SessionStoreError::CreateParentDirectory { path, source } => three(
                "failed to create parent directory for session store ",
                path.as_str(),
                source.as_str(),
            ),
            SessionStoreError::Open { path, source } => three(
                "failed to open session store ",
                path.as_str(),
                source.as_str(),
            ),
            SessionStoreError::Read { path, source } => three(
                "failed to read session store ",
                path.as_str(),
                source.as_str(),
            ),
            SessionStoreError::Write { path, source } => three(
                "failed to write session store ",
                path.as_str(),
                source.as_str(),
            ),
            SessionStoreError::Decode { path, source } => three(
                "failed to decode session store record from ",
                path.as_str(),
                source.as_str(),
            ),
            SessionStoreError::Encode { path, source } => three(
                "failed to encode session store record for ",
                path.as_str(),
                source.as_str(),
            ),
            SessionStoreError::Locked { path, holder } => {
                let mut s = "session lock at ".to_owned();
                s.append(path.as_str());
                s.append(" held by another process (");
                s.append(trim_str(holder.as_str()).as_str());
                s.append(")");
                s
            },
            SessionStoreError::InvalidSessionDir { path } => {
                let mut s = "invalid session directory name (non-utf8): ".to_owned();
                s.append(path.as_str());
                s
            },
        }
    }
}

/// What is written into a lock file: the process and the time of locking.
pub fn lock_text(pid: u32, now: u64) -> (s: String)
    ensures
        s@ == "pid="@ + decimal(pid as nat) + " start="@ + decimal(now as nat) + "\n"@,
{
    let mut s = "pid=".to_owned();
    push_decimal(&mut s, pid as u128);
    s.append(" start=");
    push_decimal(&mut s, now as u128);
    s.append("\n");
    s
}

// ---------------------------------------------------------------------------
// Reading logs
// ---------------------------------------------------------------------------

/// The first error among the decoded records.
pub open spec fn first_decode_error<T>(decoded: Seq<Result<T, String>>) -> Option<Seq<char>>
    decreases decoded.len(),
{
    if decoded.len() == 0 {
        None
    } else {
        match decoded[0] {
            Err(e) => Some(e@),
            Ok(_) => first_decode_error(decoded.drop_first()),
        }
    }
}

/// Whether the records are the decoded ones.
pub open spec fn all_decoded<T>(decoded: Seq<Result<T, String>>, records: Seq<T>) -> bool {
    decoded.len() == records.len() && forall|i: int|
        0 <= i < records.len() ==> #[trigger] decoded[i] == Ok::<T, String>(records[i])
}

/// The records of a log, from what decoding each of them gave and the error of
/// a last record that is cut off. The first error counts.
pub fn read_cbor_records<T>(
    path: &str,
    decoded: Vec<Result<T, String>>,
    cut_off: Option<String>,
) -> (r: Result<Vec<T>, SessionStoreError>)
    ensures
        match r {
            Ok(records) => cut_off is None && all_decoded(decoded@, records@),
            Err(SessionStoreError::Decode { path: p, source }) => p@ == path@
                && first_decode_error(decoded@) == Some(source@),
            Err(SessionStoreError::Read { path: p, source }) => p@ == path@ && first_decode_error(
                decoded@,
            ) is None && (cut_off matches Some(e) && source@ == e@),
            Err(_) => false,
        },
{
    let ghost all = decoded@;
    let mut left = decoded;
    let mut records: Vec<T> = Vec::new();
    let count = left.len();
    proof {
        assert(all.skip(0) =~= all);
    }
    while records.len() < count
        invariant
            records@.len() <= count,
            count == all.len(),
            all == decoded@,
            left@ == all.skip(records@.len() as int),
            first_decode_error(all) == first_decode_error(all.skip(records@.len() as int)),
            forall|i: int|
                0 <= i < records@.len() ==> #[trigger] all[i] == Ok::<T, String>(records@[i]),
        decreases count - records@.len(),
    {
        let ghost rest = left@;
        let next = left.remove(0);
        proof {
            assert(rest[0] == all[records@.len() as int]);
            assert(rest.drop_first() =~= all.skip(records@.len() as int + 1));
            assert(left@ =~= all.skip(records@.len() as int + 1));
        }
        match next {
            Ok(record) => {
                records.push(record);
            },
            Err(source) => {
                return Err(SessionStoreError::Decode { path: path.to_owned(), source });
            },
        }
    }
    match cut_off {
        Some(source) => Err(SessionStoreError::Read { path: path.to_owned(), source }),
        None => Ok(records),
    }
}

/// The session tree of a log, from what decoding each of its records gave and
/// the error of a last record that is cut off.
pub fn load_session_log(
    path: &str,
    session_id: String,
    decoded: Vec<Result<PersistedSessionRecord, String>>,
    cut_off: Option<String>,
) -> (r: Result<SessionTree, SessionStoreError>)
    ensures
        match r {
            Ok(tree) => cut_off is None && tree@.session_id == session_id@ && exists|
                records: Seq<PersistedSessionRecord>,
            |
                #![trigger all_decoded(decoded@, records)]
                all_decoded(decoded@, records) && tree@ == TreeModel::fresh(
                    session_id@,
                ).replayed(records),
            Err(SessionStoreError::Decode { path: p, source }) => p@ == path@
                && first_decode_error(decoded@) == Some(source@),
            Err(SessionStoreError::Read { path: p, source }) => p@ == path@ && first_decode_error(
                decoded@,
            ) is None && (cut_off matches Some(e) && source@ == e@),
            Err(_) => false,
        },
{
    let ghost all = decoded@;
    let mut records = match read_cbor_records(path, decoded, cut_off) {
        Ok(records) => records,
        Err(e) => {
            return Err(e);
        },
    };
    let ghost read = records@;
    let ghost start = TreeModel::fresh(session_id@);
    let mut tree = SessionTree::new(session_id);
    let count = records.len();
    let mut done: usize = 0;
    proof {
        assert(read.skip(0) =~= read);
        assert(read.take(0) =~= Seq::<PersistedSessionRecord>::empty());
    }
    while done < count
        invariant
            done <= count,
            count == read.len(),
            records@ == read.skip(done as int),
            tree@ == start.replayed(read.take(done as int)),
        decreases count - done,
    {
        let record = records.remove(0);
        proof {
            assert(record == read[done as int]);
            assert(records@ =~= read.skip(done + 1));
            assert(read.take(done + 1).drop_last() =~= read.take(done as int));
            assert(read.take(done + 1).last() == record);
        }
        tree.apply(record);
        done = done + 1;
    }
    proof {
        assert(read.take(done as int) =~= read);
        assert(all_decoded(all, read));
        lemma_replay_keeps_name(start, read);
    }
    Ok(tree)
}

// ---------------------------------------------------------------------------
// Durable events
// ---------------------------------------------------------------------------

/// Number of a durable event of a session.
#[derive(Clone, Copy, PartialEq, Eq, Structural, Debug)]
pub struct LogEventId(u64);

impl LogEventId {
    /// The number.
    pub closed spec fn value(self) -> nat {
        self.0 as nat
    }

    /// The event number `n`.
    pub fn new(n: u64) -> (id: Self)
        ensures
            id.value() == n,
    {
        LogEventId(n)
    }

    /// The number.
    pub fn get(self) -> (n: u64)
        ensures
            n == self.value(),
    {
        self.0
    }
}

/// One durable protocol event of a session.
#[derive(Debug)]
pub struct PersistedSessionEvent<E> {
    pub id: LogEventId,
    pub source: Option<String>,
    pub event: E,
}

/// The number of the next durable event: one more than that of the last, or
/// zero.
pub open spec fn next_event_number<E>(events: Seq<PersistedSessionEvent<E>>) -> nat {
    if events.len() > 0 {
        events.last().id.value() + 1
    } else {
        0
    }
}

/// Whether every event has a larger number than those before it.
pub open spec fn numbers_ascend<E>(events: Seq<PersistedSessionEvent<E>>) -> bool {
    forall|i: int, j: int|
        0 <= i < j < events.len() ==> (#[trigger] events[i]).id.value() < (
        #[trigger] events[j]).id.value()
}

/// The number of the next durable event.
pub fn next_session_event_id<E>(events: &[PersistedSessionEvent<E>]) -> (id: LogEventId)
    requires
        next_event_number(events@) <= u64::MAX,
    ensures
        id.value() == next_event_number(events@),
{
    if events.len() == 0 {
        LogEventId::new(0)
    } else {
        let last = events[events.len() - 1].id;
        LogEventId::new(last.get() + 1)
    }
}

/// The record of the next durable event.
pub fn next_session_event<E>(
    events: &[PersistedSessionEvent<E>],
    source: Option<String>,
    event: E,
) -> (r: PersistedSessionEvent<E>)
    requires
        next_event_number(events@) <= u64::MAX,
    ensures
        r.id.value() == next_event_number(events@),
        r.source == source,
        r.event == event,
{
    PersistedSessionEvent { id: next_session_event_id(events), source, event }
}

// ---------------------------------------------------------------------------
// Metadata
// ---------------------------------------------------------------------------

/// Metadata of a session.
#[derive(Debug)]
pub struct SessionMeta {
    /// Working directory when the session was created.
    pub cwd: Option<String>,
    /// Seconds since the epoch when the session was created; zero while that is
    /// not known.
    pub created_at: u64,
    /// Seconds since the epoch of the last append.
    pub last_touched: u64,
}

/// What a [`SessionMeta`] says.
#[verifier::ext_equal]
pub struct MetaModel {
    pub cwd: Option<Seq<char>>,
    pub created_at: u64,
    pub last_touched: u64,
}

impl View for SessionMeta {
    type V = MetaModel;

    open spec fn view(&self) -> MetaModel {
        MetaModel {
            cwd: match self.cwd {
                Some(d) => Some(d@),
                None => None,
            },
            created_at: self.created_at,
            last_touched: self.last_touched,
        }
    }
}

impl Default for SessionMeta {
    fn default() -> (m: Self)
        ensures
            m@ == unknown_meta(),
    {
        SessionMeta { cwd: None, created_at: 0, last_touched: 0 }
    }
}

/// The metadata of a session of which none was read.
pub open spec fn unknown_meta() -> MetaModel {
    MetaModel { cwd: None, created_at: 0, last_touched: 0 }
}

impl MetaModel {
    /// Touched at time `now`; an unknown creation time becomes `now`.
    pub open spec fn touched(self, now: u64) -> MetaModel {
        MetaModel {
            created_at: if self.created_at == 0 {
                now
            } else {
                self.created_at
            },
            last_touched: now,
            ..self
        }
    }

    /// Touched at time `now`; an unknown working directory becomes `cwd`.
    pub open spec fn recorded(self, cwd: Option<Seq<char>>, now: u64) -> MetaModel {
        MetaModel {
            cwd: if self.cwd is None {
                cwd
            } else {
                self.cwd
            },
            ..self.touched(now)
        }
    }
}

/// What was read, or the metadata of a session of which none was read.
pub open spec fn meta_or_unknown(read: Option<SessionMeta>) -> MetaModel {
    match read {
        Some(m) => m@,
        None => unknown_meta(),
    }
}

/// The metadata after an append at time `now`; `read` is what was there, if it
/// could be read.
pub fn touch_meta(read: Option<SessionMeta>, now: u64) -> (m: SessionMeta)
    ensures
        m@ == meta_or_unknown(read).touched(now),
{
    let mut meta = match read {
        Some(meta) => meta,
        None => SessionMeta::default(),
    };
    if meta.created_at == 0 {
        meta.created_at = now;
    }
    meta.last_touched = now;
    meta
}

/// The metadata with the working directory recorded, unless one is known.
pub fn record_session_meta(read: Option<SessionMeta>, cwd: Option<String>, now: u64) -> (m:
    SessionMeta)
    ensures
        m@ == meta_or_unknown(read).recorded(
            match cwd {
                Some(d) => Some(d@),
                None => None,
            },
            now,
        ),
{
    let mut meta = touch_meta(read, now);
    if meta.cwd.is_none() {
        meta.cwd = cwd;
    }
    meta
}

/// Recording again only changes the time of last use.
pub proof fn law_recording_is_idempotent(
    m: MetaModel,
    first: Option<Seq<char>>,
    second: Option<Seq<char>>,
    t1: u64,
    t2: u64,
)
    requires
        t1 != 0,
        first is Some,
    ensures
        m.recorded(first, t1).recorded(second, t2) == (MetaModel {
            last_touched: t2,
            ..m.recorded(first, t1)
        }),
{
}

/// One entry of the state directory, as far as listing goes.
#[derive(Debug)]
pub struct MetaEntry {
    pub is_dir: bool,
    /// The name, where it is valid text.
    pub name: Option<String>,
    /// The metadata, where they could be read.
    pub meta: Option<SessionMeta>,
}

/// A listed session.
pub open spec fn listed(entry: MetaEntry) -> Option<(Seq<char>, MetaModel)> {
    match (entry.name, entry.meta) {
        (Some(name), Some(meta)) if entry.is_dir => Some((name@, meta@)),
        _ => None,
    }
}

/// The listed sessions of a directory.
pub open spec fn listing(entries: Seq<MetaEntry>) -> Seq<(Seq<char>, MetaModel)>
    decreases entries.len(),
{
    if entries.len() == 0 {
        Seq::empty()
    } else {
        let before = listing(entries.drop_last());
        match listed(entries.last()) {
            Some(session) => before.push(session),
            None => before,
        }
    }
}

/// What a list of sessions says.
pub open spec fn listing_views(v: Seq<(String, SessionMeta)>) -> Seq<(Seq<char>, MetaModel)> {
    Seq::new(v.len(), |i: int| (v[i].0@, v[i].1@))
}

/// The sessions of a directory with their metadata. Entries that are no
/// directory, have no valid name or no readable metadata are left out.
pub fn list_session_metas(entries: Vec<MetaEntry>) -> (out: Vec<(String, SessionMeta)>)
    ensures
        listing_views(out@) == listing(entries@),
{
    let mut entries = entries;
    let ghost all = entries@;
    let count = entries.len();
    let mut done: usize = 0;
    let mut out: Vec<(String, SessionMeta)> = Vec::new();
    proof {
        assert(all.skip(0) =~= all);
        assert(all.take(0) =~= Seq::<MetaEntry>::empty());
        assert(listing_views(out@) =~= listing(all.take(0)));
    }
    while done < count
        invariant
            done <= count,
            count == all.len(),
            entries@ == all.skip(done as int),
            listing_views(out@) == listing(all.take(done as int)),
        decreases count - done,
    {
        let ghost before = out@;
        let entry = entries.remove(0);
        proof {
            assert(entry == all[done as int]);
            assert(entries@ =~= all.skip(done + 1));
            assert(all.take(done + 1).drop_last() =~= all.take(done as int));
            assert(all.take(done + 1).last() == entry);
        }
        if entry.is_dir {
            if let Some(name) = entry.name {
                if let Some(meta) = entry.meta {
                    out.push((name, meta));
                    proof {
                        assert(listing_views(out@) =~= listing_views(before).push(
                            (name@, meta@),
                        ));
                    }
                }
            }
        }
        done = done + 1;
    }
    proof {
        assert(all.take(done as int) =~= all);
    }
    out
}

// ---------------------------------------------------------------------------
// The store
// ---------------------------------------------------------------------------

/// What a [`SessionStore`] holds.
#[verifier::ext_equal]
pub struct StoreModel {
    pub state_dir: Seq<char>,
    pub sessions: Map<Seq<char>, TreeModel>,
    pub locked: Set<Seq<char>>,
}

/// The sessions of a list by their names.
pub open spec fn session_map(trees: Seq<SessionTree>) -> Map<Seq<char>, TreeModel>
    decreases trees.len(),
{
    if trees.len() == 0 {
        Map::empty()
    } else {
        session_map(trees.drop_last()).insert(trees.last()@.session_id, trees.last()@)
    }
}

/// Whether no session stands in the list twice.
pub open spec fn distinct_sessions(trees: Seq<SessionTree>) -> bool {
    forall|i: int, j: int|
        0 <= i < j < trees.len() ==> (#[trigger] trees[i])@.session_id != (
        #[trigger] trees[j])@.session_id
}

/// Tree-structured session histories below one state directory.
#[derive(Debug)]
pub struct SessionStore {
    state_dir: String,
    sessions: Vec<SessionTree>,
    /// The sessions whose lock is held.
    locked: Vec<String>,
}

impl View for SessionStore {
    type V = StoreModel;

    closed spec fn view(&self) -> StoreModel {
        StoreModel {
            state_dir: self.state_dir@,
            sessions: session_map(self.sessions@),
            locked: views(self.locked@).to_set(),
        }
    }
}

proof fn lemma_session_found(trees: Seq<SessionTree>, k: int)
    requires
        distinct_sessions(trees),
        0 <= k < trees.len(),
    ensures
        session_map(trees).contains_key(trees[k]@.session_id),
        session_map(trees)[trees[k]@.session_id] == trees[k]@,
    decreases trees.len(),
{
    if k < trees.len() - 1 {
        let before = trees.drop_last();
        assert(distinct_sessions(before)) by {
            assert forall|i: int, j: int| 0 <= i < j < before.len() implies (
            #[trigger] before[i])@.session_id != (#[trigger] before[j])@.session_id by {
                assert(before[i] == trees[i]);
                assert(before[j] == trees[j]);
            }
        }
        assert(trees[k]@.session_id != trees[trees.len() - 1]@.session_id);
        lemma_session_found(before, k);
        assert(before[k] == trees[k]);
    }
}

proof fn lemma_session_absent(trees: Seq<SessionTree>, id: Seq<char>)
    requires
        forall|i: int| 0 <= i < trees.len() ==> (#[trigger] trees[i])@.session_id != id,
    ensures
        !session_map(trees).contains_key(id),
    decreases trees.len(),
{
    if trees.len() > 0 {
        let before = trees.drop_last();
        assert(trees[trees.len() - 1]@.session_id != id);
        assert forall|i: int| 0 <= i < before.len() implies (#[trigger] before[i])@.session_id
            != id by {
            assert(before[i] == trees[i]);
        }
        lemma_session_absent(before, id);
    }
}

proof fn lemma_session_updated(trees: Seq<SessionTree>, k: int, t: SessionTree)
    requires
        distinct_sessions(trees),
        0 <= k < trees.len(),
        t@.session_id == trees[k]@.session_id,
    ensures
        distinct_sessions(trees.update(k, t)),
        session_map(trees.update(k, t)) == session_map(trees).insert(t@.session_id, t@),
    decreases trees.len(),
{
    let after = trees.update(k, t);
    assert forall|i: int, j: int| 0 <= i < j < after.len() implies (
    #[trigger] after[i])@.session_id != (#[trigger] after[j])@.session_id by {
        assert(trees[i]@.session_id != trees[j]@.session_id);
    }
    let before = trees.drop_last();
    assert(distinct_sessions(before)) by {
        assert forall|i: int, j: int| 0 <= i < j < before.len() implies (
        #[trigger] before[i])@.session_id != (#[trigger] before[j])@.session_id by {
            assert(before[i] == trees[i]);
            assert(before[j] == trees[j]);
        }
    }
    if k < trees.len() - 1 {
        lemma_session_updated(before, k, t);
        assert(after.drop_last() =~= before.update(k, t));
        assert(trees[k]@.session_id != trees[trees.len() - 1]@.session_id);
        assert(session_map(after) =~= session_map(trees).insert(t@.session_id, t@));
    } else {
        assert(after.drop_last() =~= before);
        assert(session_map(after) =~= session_map(trees).insert(t@.session_id, t@));
    }
}

impl StoreModel {
    /// The session, or a new one.
    pub open spec fn session_or_fresh(self, id: Seq<char>) -> TreeModel {
        if self.sessions.contains_key(id) {
            self.sessions[id]
        } else {
            TreeModel::fresh(id)
        }
    }

    /// With an entry appended to a session, which is made where it is new.
    pub open spec fn appended(self, id: Seq<char>, entry: SessionEntry) -> StoreModel {
        StoreModel {
            sessions: self.sessions.insert(id, self.session_or_fresh(id).appended(entry)),
            ..self
        }
    }

    /// With the head of a known session moved.
    pub open spec fn with_head(self, id: Seq<char>, node_id: NodeId) -> StoreModel {
        StoreModel {
            sessions: self.sessions.insert(id, self.sessions[id].with_head(node_id)),
            ..self
        }
    }

    /// With a record applied to a session, which is made where it is new.
    pub open spec fn applied(self, id: Seq<char>, record: PersistedSessionRecord) -> StoreModel {
        StoreModel {
            sessions: self.sessions.insert(id, self.session_or_fresh(id).applied(record)),
            ..self
        }
    }

    /// The directory of a session.
    pub open spec fn session_dir(self, id: Seq<char>) -> Seq<char> {
        joined(self.state_dir, id)
    }
}

impl SessionStore {
    /// Whether every session stands in the store once, under its name.
    pub closed spec fn wf(self) -> bool {
        distinct_sessions(self.sessions@)
    }

    /// What [`SessionStore::wf`] gives: a session is kept under its own name.
    pub proof fn lemma_wf(self)
        requires
            self.wf(),
        ensures
            forall|id: Seq<char>|
                self@.sessions.contains_key(id) ==> (#[trigger] self@.sessions[id]).session_id
                    == id,
    {
        lemma_names(self.sessions@);
    }

    /// The store without sessions and locks.
    pub fn new(state_dir: &str) -> (s: Self)
        ensures
            s.wf(),
            s@ == (StoreModel {
                state_dir: state_dir@,
                sessions: Map::empty(),
                locked: Set::empty(),
            }),
    {
        let s = SessionStore {
            state_dir: state_dir.to_owned(),
            sessions: Vec::new(),
            locked: Vec::new(),
        };
        proof {
            assert(views(s.locked@).to_set() =~= Set::<Seq<char>>::empty());
        }
        s
    }

    /// The state directory.
    pub fn state_dir(&self) -> (s: &str)
        ensures
            s@ == self@.state_dir,
    {
        self.state_dir.as_str()
    }

    /// The directory of a session.
    pub fn session_dir(&self, session_id: &str) -> (s: String)
        ensures
            s@ == self@.session_dir(session_id@),
    {
        join(self.state_dir.as_str(), session_id)
    }

    /// Position of a session in the list, or its length.
    fn position(&self, session_id: &str) -> (k: usize)
        requires
            self.wf(),
        ensures
            k <= self.sessions@.len(),
            k < self.sessions@.len() ==> self.sessions@[k as int]@.session_id == session_id@
                && self@.sessions.contains_key(session_id@) && self@.sessions[session_id@]
                == self.sessions@[k as int]@,
            k == self.sessions@.len() ==> !self@.sessions.contains_key(session_id@) && forall|
                i: int,
            |
                0 <= i < self.sessions@.len() ==> (#[trigger] self.sessions@[i])@.session_id
                    != session_id@,
    {
        let mut k: usize = 0;
        while k < self.sessions.len()
            invariant
                self.wf(),
                k <= self.sessions@.len(),
                forall|i: int|
                    0 <= i < k ==> (#[trigger] self.sessions@[i])@.session_id != session_id@,
            decreases self.sessions@.len() - k,
        {
            if str_eq(self.sessions[k].session_id(), session_id) {
                proof {
                    lemma_session_found(self.sessions@, k as int);
                }
                return k;
            }
            k = k + 1;
        }
        proof {
            lemma_session_absent(self.sessions@, session_id@);
        }
        k
    }

    /// The tree of a session, if there is one.
    pub fn session(&self, session_id: &str) -> (t: Option<&SessionTree>)
        requires
            self.wf(),
        ensures
            match t {
                Some(t) => self@.sessions.contains_key(session_id@) && t@
                    == self@.sessions[session_id@],
                None => !self@.sessions.contains_key(session_id@),
            },
    {
        let k = self.position(session_id);
        if k < self.sessions.len() {
            Some(&self.sessions[k])
        } else {
            None
        }
    }

    /// All sessions, each once, in no particular order.
    pub fn sessions(&self) -> (t: &[SessionTree])
        requires
            self.wf(),
        ensures
            session_map(t@) == self@.sessions,
            distinct_sessions(t@),
    {
        self.sessions.as_slice()
    }

    /// Whether the lock of a session still has to be taken.
    pub fn needs_lock(&self, session_id: &str) -> (r: bool)
        ensures
            r == !self@.locked.contains(session_id@),
    {
        let ghost all = views(self.locked@);
        let mut i: usize = 0;
        while i < self.locked.len()
            invariant
                i <= self.locked@.len(),
                all == views(self.locked@),
                forall|j: int| 0 <= j < i ==> (#[trigger] all[j]) != session_id@,
            decreases self.locked@.len() - i,
        {
            if str_eq(self.locked[i].as_str(), session_id) {
                proof {
                    assert(all[i as int] == session_id@);
                    assert(all.contains(session_id@));
                }
                return false;
            }
            proof {
                assert(all[i as int] == self.locked@[i as int]@);
            }
            i = i + 1;
        }
        proof {
            assert(!all.contains(session_id@));
        }
        true
    }

    /// Notes that the lock of a session was taken.
    pub fn lock_taken(&mut self, session_id: &str)
        requires
            old(self).wf(),
        ensures
            final(self).wf(),
            final(self)@ == (StoreModel {
                locked: old(self)@.locked.insert(session_id@),
                ..old(self)@
            }),
    {
        let ghost before = views(self.locked@);
        self.locked.push(session_id.to_owned());
        proof {
            let after = views(self.locked@);
            assert(after =~= before.push(session_id@));
            assert forall|x: Seq<char>| after.to_set().contains(x) == before.to_set().insert(
                session_id@,
            ).contains(x) by {
                if after.contains(x) {
                    let i = choose|i: int| 0 <= i < after.len() && after[i] == x;
                    if i < before.len() {
                        assert(before[i] == x);
                    }
                }
                if before.contains(x) {
                    let i = choose|i: int| 0 <= i < before.len() && before[i] == x;
                    assert(after[i] == x);
                }
                if x == session_id@ {
                    assert(after[before.len() as int] == x);
                }
            }
            assert(after.to_set() =~= before.to_set().insert(session_id@));
        }
    }

    /// Takes in a session that was read from disk, in place of one with the same
    /// name.
    pub fn insert_loaded(&mut self, tree: SessionTree)
        requires
            old(self).wf(),
        ensures
            final(self).wf(),
            final(self)@ == (StoreModel {
                sessions: old(self)@.sessions.insert(tree@.session_id, tree@),
                ..old(self)@
            }),
    {
        let k = self.position(tree.session_id());
        let ghost before = self.sessions@;
        if k < self.sessions.len() {
            self.sessions.set(k, tree);
            proof {
                lemma_session_updated(before, k as int, tree);
            }
        } else {
            self.sessions.push(tree);
            proof {
                assert(self.sessions@.drop_last() =~= before);
                lemma_session_pushed(before, tree);
            }
        }
    }

    /// The record of an append at the head of a session, before it is made.
    pub fn append_record(&self, session_id: &str, entry: SessionEntry) -> (r:
        PersistedSessionRecord)
        requires
            self.wf(),
        ensures
            r == self@.session_or_fresh(session_id@).append_record(entry),
    {
        match self.session(session_id) {
            Some(tree) => tree.append_record(entry),
            None => SessionTree::new(session_id.to_owned()).append_record(entry),
        }
    }

    /// The record of a move of the head of a session, before it is made. An
    /// unknown session is an error.
    pub fn head_record(&self, session_id: &str, node_id: NodeId) -> (r: Result<
        PersistedSessionRecord,
        SessionStoreError,
    >)
        requires
            self.wf(),
        ensures
            match r {
                Ok(record) => self@.sessions.contains_key(session_id@) && record
                    == self@.sessions[session_id@].change_record(SessionChange::SetHead(node_id)),
                Err(SessionStoreError::Open { path, source }) => !self@.sessions.contains_key(
                    session_id@,
                ) && path@ == self@.session_dir(session_id@) && source@ == "session not found"@,
                Err(_) => false,
            },
    {
        match self.session(session_id) {
            Some(_) => Ok(PersistedSessionRecord::SetHead { node_id }),
            None => Err(
                SessionStoreError::Open {
                    path: self.session_dir(session_id),
                    source: "session not found".to_owned(),
                },
            ),
        }
    }

    /// Applies a record to a session, which is made where it is new; returns the
    /// new head of the session.
    pub fn apply(&mut self, session_id: &str, record: PersistedSessionRecord) -> (head: NodeId)
        requires
            old(self).wf(),
        ensures
            final(self).wf(),
            final(self)@ == old(self)@.applied(session_id@, record),
            final(self)@.sessions[session_id@].head == Some(head),
    {
        let k = self.position(session_id);
        let ghost before = self.sessions@;
        if k < self.sessions.len() {
            let mut tree = self.sessions.remove(k);
            let head = tree.apply(record);
            self.sessions.insert(k, tree);
            proof {
                assert(self.sessions@ =~= before.update(k as int, tree));
                lemma_session_updated(before, k as int, tree);
            }
            head
        } else {
            let mut tree = SessionTree::new(session_id.to_owned());
            let head = tree.apply(record);
            self.sessions.push(tree);
            proof {
                assert(self.sessions@.drop_last() =~= before);
                lemma_session_pushed(before, tree);
            }
            head
        }
    }

    /// Appends an entry at the head of a session, which is made where it is
    /// new; returns the id of the new node.
    pub fn append(&mut self, session_id: &str, entry: SessionEntry) -> (id: NodeId)
        requires
            old(self).wf(),
        ensures
            final(self).wf(),
            final(self)@ == old(self)@.appended(session_id@, entry),
            id == NodeId(old(self)@.session_or_fresh(session_id@).nodes.len() as u64),
    {
        let record = self.append_record(session_id, entry);
        self.apply(session_id, record)
    }

    /// Moves the head of a session to a node. An unknown session is an error.
    pub fn set_head(&mut self, session_id: &str, node_id: NodeId) -> (r: Result<
        (),
        SessionStoreError,
    >)
        requires
            old(self).wf(),
        ensures
            final(self).wf(),
            match r {
                Ok(()) => old(self)@.sessions.contains_key(session_id@) && final(self)@ == old(
                    self,
                )@.with_head(session_id@, node_id),
                Err(SessionStoreError::Open { path, source }) => !old(
                    self,
                )@.sessions.contains_key(session_id@) && final(self)@ == old(self)@ && path@
                    == old(self)@.session_dir(session_id@) && source@ == "session not found"@,
                Err(_) => false,
            },
    {
        match self.head_record(session_id, node_id) {
            Ok(record) => {
                self.apply(session_id, record);
                Ok(())
            },
            Err(e) => Err(e),
        }
    }

    /// Appends one user message to a session.
    pub fn append_user_message(&mut self, session_id: &str, text: String) -> (id: NodeId)
        requires
            old(self).wf(),
        ensures
            final(self).wf(),
            final(self)@ == old(self)@.appended(session_id@, SessionEntry::UserMessage { text }),
            id == NodeId(old(self)@.session_or_fresh(session_id@).nodes.len() as u64),
    {
        self.append(session_id, SessionEntry::UserMessage { text })
    }

    /// Appends one agent message to a session.
    pub fn append_agent_message(&mut self, session_id: &str, text: String) -> (id: NodeId)
        requires
            old(self).wf(),
        ensures
            final(self).wf(),
            final(self)@ == old(self)@.appended(
                session_id@,
                SessionEntry::AgentMessage { text, thinking: None },
            ),
            id == NodeId(old(self)@.session_or_fresh(session_id@).nodes.len() as u64),
    {
        self.append_agent_message_with_thinking(session_id, text, None)
    }

    /// Appends one agent message to a session, with a reasoning summary.
    pub fn append_agent_message_with_thinking(
        &mut self,
        session_id: &str,
        text: String,
        thinking: Option<String>,
    ) -> (id: NodeId)
        requires
            old(self).wf(),
        ensures
            final(self).wf(),
            final(self)@ == old(self)@.appended(
                session_id@,
                SessionEntry::AgentMessage { text, thinking },
            ),
            id == NodeId(old(self)@.session_or_fresh(session_id@).nodes.len() as u64),
    {
        self.append(session_id, SessionEntry::AgentMessage { text, thinking })
    }

    /// Appends one tool activity record to a session.
    pub fn append_tool_activity(&mut self, session_id: &str, activity: ToolActivityRecord) -> (id:
        NodeId)
        requires
            old(self).wf(),
        ensures
            final(self).wf(),
            final(self)@ == old(self)@.appended(
                session_id@,
                SessionEntry::ToolActivity(activity),
            ),
            id == NodeId(old(self)@.session_or_fresh(session_id@).nodes.len() as u64),
    {
        self.append(session_id, SessionEntry::ToolActivity(activity))
    }
}

proof fn lemma_session_pushed(trees: Seq<SessionTree>, t: SessionTree)
    requires
        distinct_sessions(trees),
        forall|i: int|
            0 <= i < trees.len() ==> (#[trigger] trees[i])@.session_id != t@.session_id,
    ensures
        distinct_sessions(trees.push(t)),
{
    let after = trees.push(t);
    assert forall|i: int, j: int| 0 <= i < j < after.len() implies (
    #[trigger] after[i])@.session_id != (#[trigger] after[j])@.session_id by {
        assert(after[i] == trees[i]);
        if j < trees.len() {
            assert(after[j] == trees[j]);
        }
    }
}

proof fn lemma_names(trees: Seq<SessionTree>)
    ensures
        forall|id: Seq<char>|
            session_map(trees).contains_key(id) ==> (#[trigger] session_map(trees)[id]).session_id
                == id,
    decreases trees.len(),
{
    if trees.len() > 0 {
        lemma_names(trees.drop_last());
        assert forall|id: Seq<char>| session_map(trees).contains_key(id) implies (
        #[trigger] session_map(trees)[id]).session_id == id by {
            if id != trees.last()@.session_id {
                assert(session_map(trees.drop_last()).contains_key(id));
                assert(session_map(trees.drop_last())[id].session_id == id);
            }
        }
    }
}

/// One entry of the state directory, as far as opening the store goes.
#[derive(Debug)]
pub struct StateEntry {
    pub path: String,
    pub is_dir: bool,
    pub has_log: bool,
    /// The name, where it is valid text.
    pub name: Option<String>,
}

/// The session that an entry of the state directory holds: only a directory
/// with a log holds one, and its name has to be valid text.
pub fn session_of_entry(entry: StateEntry) -> (r: Result<Option<String>, SessionStoreError>)
    ensures
        match r {
            Ok(Some(name)) => entry.is_dir && entry.has_log && entry.name == Some(name),
            Ok(None) => !entry.is_dir || !entry.has_log,
            Err(SessionStoreError::InvalidSessionDir { path }) => entry.is_dir && entry.has_log
                && entry.name is None && path == entry.path,
            Err(_) => false,
        },
{
    if !entry.is_dir || !entry.has_log {
        return Ok(None);
    }
    match entry.name {
        Some(name) => Ok(Some(name)),
        None => Err(SessionStoreError::InvalidSessionDir { path: entry.path }),
    }
}

// ---------------------------------------------------------------------------
// Laws
// ---------------------------------------------------------------------------

/// Appending to one session leaves all others alone.
pub proof fn law_sessions_are_independent(
    store: StoreModel,
    id: Seq<char>,
    entry: SessionEntry,
    other: Seq<char>,
)
    requires
        other != id,
    ensures
        store.appended(id, entry).session_or_fresh(other) == store.session_or_fresh(other),
        store.appended(id, entry).sessions.contains_key(other) == store.sessions.contains_key(
            other,
        ),
{
}

/// The record of a change says what the change does: applying it to the store as
/// it was gives the store as it is.
pub proof fn law_records_say_what_changed(
    store: StoreModel,
    id: Seq<char>,
    entry: SessionEntry,
    node_id: NodeId,
)
    ensures
        store.applied(id, store.session_or_fresh(id).append_record(entry)) == store.appended(
            id,
            entry,
        ),
        store.sessions.contains_key(id) ==> store.applied(
            id,
            store.sessions[id].change_record(SessionChange::SetHead(node_id)),
        ) == store.with_head(id, node_id),
{
}

/// The records in the log of each session.
pub type Logs = Map<Seq<char>, Seq<PersistedSessionRecord>>;

/// The logs with a record appended to that of a session, which is made where it
/// is new.
pub open spec fn log_appended(logs: Logs, id: Seq<char>, record: PersistedSessionRecord) -> Logs {
    logs.insert(
        id,
        if logs.contains_key(id) {
            logs[id].push(record)
        } else {
            seq![record]
        },
    )
}

/// A store and the logs below its state directory.
#[verifier::ext_equal]
pub struct Stored {
    pub store: StoreModel,
    pub logs: Logs,
}

impl Stored {
    /// With an entry appended or the head moved, in the store and in the log. To
    /// move the head of an unknown session is refused and changes nothing.
    pub open spec fn changed(self, id: Seq<char>, change: SessionChange) -> Stored {
        let record = self.store.session_or_fresh(id).change_record(change);
        match change {
            SessionChange::Append(entry) => Stored {
                store: self.store.appended(id, entry),
                logs: log_appended(self.logs, id, record),
            },
            SessionChange::SetHead(node_id) => if self.store.sessions.contains_key(id) {
                Stored {
                    store: self.store.with_head(id, node_id),
                    logs: log_appended(self.logs, id, record),
                }
            } else {
                self
            },
        }
    }

    /// With changes made in order, each to the session that it names.
    pub open spec fn changed_all(self, changes: Seq<(Seq<char>, SessionChange)>) -> Stored
        decreases changes.len(),
    {
        if changes.len() == 0 {
            self
        } else {
            self.changed_all(changes.drop_last()).changed(changes.last().0, changes.last().1)
        }
    }

    /// Whether the store holds what its logs say, and no other session.
    pub open spec fn in_step(self) -> bool {
        &&& self.store.sessions.dom() == self.logs.dom()
        &&& forall|id: Seq<char>|
            self.logs.contains_key(id) ==> #[trigger] self.store.sessions[id]
                == TreeModel::fresh(id).replayed(self.logs[id])
    }
}

/// The store that loads the logs of the named sessions, one after the other.
pub open spec fn opened(state_dir: Seq<char>, names: Seq<Seq<char>>, logs: Logs) -> StoreModel
    decreases names.len(),
{
    if names.len() == 0 {
        StoreModel { state_dir, sessions: Map::empty(), locked: Set::empty() }
    } else {
        let before = opened(state_dir, names.drop_last(), logs);
        let tree = TreeModel::fresh(names.last()).replayed(logs[names.last()]);
        StoreModel { sessions: before.sessions.insert(tree.session_id, tree), ..before }
    }
}

proof fn lemma_opened(state_dir: Seq<char>, names: Seq<Seq<char>>, logs: Logs)
    ensures
        forall|id: Seq<char>| #[trigger]
            opened(state_dir, names, logs).sessions.contains_key(id) <==> names.contains(id),
        forall|id: Seq<char>|
            names.contains(id) ==> #[trigger] opened(state_dir, names, logs).sessions[id]
                == TreeModel::fresh(id).replayed(logs[id]),
    decreases names.len(),
{
    if names.len() > 0 {
        let before = names.drop_last();
        let last = names.last();
        lemma_opened(state_dir, before, logs);
        lemma_replay_keeps_name(TreeModel::fresh(last), logs[last]);
        assert forall|id: Seq<char>| names.contains(id) <==> before.contains(id) || id == last by {
            if names.contains(id) {
                let i = choose|i: int| 0 <= i < names.len() && names[i] == id;
                if i < before.len() {
                    assert(before[i] == id);
                }
            }
            if before.contains(id) {
                let i = choose|i: int| 0 <= i < before.len() && before[i] == id;
                assert(names[i] == id);
            }
            if id == last {
                assert(names[names.len() - 1] == id);
            }
        }
    }
}

/// A store that is opened holds what the logs say, in whatever order they are
/// loaded.
pub proof fn law_opened_store_is_in_step(state_dir: Seq<char>, names: Seq<Seq<char>>, logs: Logs)
    requires
        forall|id: Seq<char>| names.contains(id) <==> #[trigger] logs.contains_key(id),
    ensures
        (Stored { store: opened(state_dir, names, logs), logs }).in_step(),
{
    lemma_opened(state_dir, names, logs);
    assert(opened(state_dir, names, logs).sessions.dom() =~= logs.dom());
}

/// No change brings the store and its logs out of step.
pub proof fn law_changes_keep_logs_in_step(s: Stored, changes: Seq<(Seq<char>, SessionChange)>)
    requires
        s.in_step(),
    ensures
        s.changed_all(changes).in_step(),
    decreases changes.len(),
{
    if changes.len() > 0 {
        law_changes_keep_logs_in_step(s, changes.drop_last());
        let before = s.changed_all(changes.drop_last());
        let (id, change) = changes.last();
        let after = before.changed(id, change);
        let record = before.store.session_or_fresh(id).change_record(change);
        assert(after.store.sessions.dom() =~= after.logs.dom());
        let fresh = TreeModel::fresh(id);
        assert(before.logs.dom().contains(id) == before.store.sessions.dom().contains(id));
        if before.logs.contains_key(id) {
            assert(before.store.sessions[id] == fresh.replayed(before.logs[id]));
            assert(before.logs[id].push(record).drop_last() =~= before.logs[id]);
            assert(fresh.replayed(before.logs[id].push(record))
                == before.store.session_or_fresh(id).applied(record));
        } else {
            let none = Seq::<PersistedSessionRecord>::empty();
            assert(seq![record].drop_last() =~= none);
            assert(fresh.replayed(none) == fresh);
            assert(fresh.replayed(seq![record]) == fresh.applied(record));
        }
        assert forall|other: Seq<char>| after.logs.contains_key(other) implies
            #[trigger] after.store.sessions[other] == TreeModel::fresh(other).replayed(
            after.logs[other],
        ) by {
            if other != id {
                assert(before.logs.contains_key(other));
                assert(before.store.sessions[other] == TreeModel::fresh(other).replayed(
                    before.logs[other],
                ));
            }
        }
    }
}

/// Opening a store again gives back its sessions, no more and no less: whatever
/// was appended and however the heads were moved since the store was opened,
/// loading the logs in any order leads to the same sessions.
pub proof fn law_reopening_restores_store(
    state_dir: Seq<char>,
    names: Seq<Seq<char>>,
    logs: Logs,
    changes: Seq<(Seq<char>, SessionChange)>,
    names_after: Seq<Seq<char>>,
)
    requires
        forall|id: Seq<char>| names.contains(id) <==> #[trigger] logs.contains_key(id),
        forall|id: Seq<char>|
            names_after.contains(id) <==> #[trigger] (Stored {
                store: opened(state_dir, names, logs),
                logs,
            }).changed_all(changes).logs.contains_key(id),
    ensures
        ({
            let after = (Stored { store: opened(state_dir, names, logs), logs }).changed_all(
                changes,
            );
            opened(state_dir, names_after, after.logs).sessions == after.store.sessions
        }),
{
    let start = Stored { store: opened(state_dir, names, logs), logs };
    let after = start.changed_all(changes);
    law_opened_store_is_in_step(state_dir, names, logs);
    law_changes_keep_logs_in_step(start, changes);
    lemma_opened(state_dir, names_after, after.logs);
    let again = opened(state_dir, names_after, after.logs);
    assert(again.sessions.dom() =~= after.store.sessions.dom()) by {
        assert forall|id: Seq<char>| again.sessions.dom().contains(id)
            == after.store.sessions.dom().contains(id) by {
            assert(again.sessions.contains_key(id) <==> names_after.contains(id));
            assert(names_after.contains(id) <==> after.logs.contains_key(id));
        }
    }
    assert forall|id: Seq<char>| again.sessions.contains_key(id) implies
        #[trigger] again.sessions[id] == after.store.sessions[id] by {
        assert(names_after.contains(id));
        assert(after.logs.contains_key(id));
    }
    assert(again.sessions =~= after.store.sessions);
}

/// A store that starts without sessions is restored from the logs that it wrote:
/// loading them in any order leads to the sessions that the changes led to, no
/// more and no less.
pub proof fn law_new_store_is_restored_from_logs(
    state_dir: Seq<char>,
    changes: Seq<(Seq<char>, SessionChange)>,
    names: Seq<Seq<char>>,
)
    requires
        forall|id: Seq<char>|
            names.contains(id) <==> #[trigger] (Stored {
                store: StoreModel { state_dir, sessions: Map::empty(), locked: Set::empty() },
                logs: Map::empty(),
            }).changed_all(changes).logs.contains_key(id),
    ensures
        ({
            let after = (Stored {
                store: StoreModel { state_dir, sessions: Map::empty(), locked: Set::empty() },
                logs: Map::empty(),
            }).changed_all(changes);
            opened(state_dir, names, after.logs).sessions == after.store.sessions
        }),
{
    law_reopening_restores_store(
        state_dir,
        Seq::empty(),
        Map::empty(),
        changes,
        names,
    );
}

/// Whether `decoded` is what `decode` makes of the records.
pub open spec fn decodes<T>(
    decode: spec_fn(Seq<u8>) -> Option<T>,
    records: Seq<Seq<u8>>,
    decoded: Seq<Result<T, String>>,
) -> bool {
    decoded.len() == records.len() && forall|i: int|
        0 <= i < records.len() ==> match #[trigger] decoded[i] {
            Ok(item) => decode(records[i]) == Some(item),
            Err(_) => decode(records[i]) is None,
        }
}

/// The records that [`read_cbor_records`] returns are what the log holds, and
/// where it reports a record that cannot be decoded, the log holds one.
pub proof fn law_decoded_records_are_those_of_the_log<T>(
    decode: spec_fn(Seq<u8>) -> Option<T>,
    records: Seq<Seq<u8>>,
    decoded: Seq<Result<T, String>>,
    items: Seq<T>,
)
    requires
        decodes(decode, records, decoded),
    ensures
        all_decoded(decoded, items) ==> decoded_all(decode, records) == Some(items),
        first_decode_error(decoded) is Some ==> decoded_all(decode, records) is None,
{
    if all_decoded(decoded, items) {
        lemma_all_decoded(decode, records, decoded, items);
    }
    if first_decode_error(decoded) is Some {
        let k = lemma_first_error(decoded);
        lemma_one_fails(decode, records, k);
    }
}

proof fn lemma_all_decoded<T>(
    decode: spec_fn(Seq<u8>) -> Option<T>,
    records: Seq<Seq<u8>>,
    decoded: Seq<Result<T, String>>,
    items: Seq<T>,
)
    requires
        decodes(decode, records, decoded),
        all_decoded(decoded, items),
    ensures
        decoded_all(decode, records) == Some(items),
    decreases records.len(),
{
    if records.len() == 0 {
        assert(items =~= Seq::<T>::empty());
    } else {
        let n = records.len() - 1;
        let r = records.drop_last();
        let d = decoded.drop_last();
        let before = items.drop_last();
        assert forall|i: int| 0 <= i < r.len() implies match #[trigger] d[i] {
            Ok(item) => decode(r[i]) == Some(item),
            Err(_) => decode(r[i]) is None,
        } by {
            assert(d[i] == decoded[i]);
        }
        assert forall|i: int| 0 <= i < before.len() implies #[trigger] d[i] == Ok::<T, String>(
            before[i],
        ) by {
            assert(d[i] == decoded[i]);
        }
        lemma_all_decoded(decode, r, d, before);
        assert(decoded[n] == Ok::<T, String>(items[n]));
        assert(before.push(items[n]) =~= items);
    }
}

proof fn lemma_first_error<T>(decoded: Seq<Result<T, String>>) -> (k: int)
    requires
        first_decode_error(decoded) is Some,
    ensures
        0 <= k < decoded.len(),
        decoded[k] is Err,
    decreases decoded.len(),
{
    if decoded[0] is Err {
        0
    } else {
        let k = lemma_first_error(decoded.drop_first());
        assert(decoded.drop_first()[k] == decoded[k + 1]);
        k + 1
    }
}

proof fn lemma_one_fails<T>(
    decode: spec_fn(Seq<u8>) -> Option<T>,
    records: Seq<Seq<u8>>,
    k: int,
)
    requires
        0 <= k < records.len(),
        decode(records[k]) is None,
    ensures
        decoded_all(decode, records) is None,
    decreases records.len(),
{
    if k < records.len() - 1 {
        lemma_one_fails(decode, records.drop_last(), k);
    }
}

/// An event that is appended under the next number is read last, behind the
/// events that were read before, and the numbers go on ascending. `content` is
/// what is written for the event.
///
/// The file holds whole records. Left out is one that ends in a length which is
/// cut off: reading passes over it, but a record behind it is not found.
pub proof fn law_appended_event_is_read_last<E>(
    decode: spec_fn(Seq<u8>) -> Option<PersistedSessionEvent<E>>,
    records: Seq<Seq<u8>>,
    events: Seq<PersistedSessionEvent<E>>,
    next: PersistedSessionEvent<E>,
    content: Seq<u8>,
)
    requires
        forall|i: int| 0 <= i < records.len() ==> (#[trigger] records[i]).len() <= u64::MAX,
        content.len() <= u64::MAX,
        read_items(decode, framed_all(records)) == Some(events),
        next.id.value() == next_event_number(events),
        decode(content) == Some(next),
    ensures
        read_items(decode, framed_all(records) + framed(content)) == Some(events.push(next)),
        numbers_ascend(events) ==> numbers_ascend(events.push(next)),
{
    law_appended_record_is_read_last(decode, records, content);
    if numbers_ascend(events) {
        let all = events.push(next);
        assert forall|i: int, j: int| 0 <= i < j < all.len() implies (
        #[trigger] all[i]).id.value() < (#[trigger] all[j]).id.value() by {
            let last = events.len() - 1;
            assert(all[i] == events[i]);
            if j < events.len() {
                assert(all[j] == events[j]);
            } else if i < last {
                assert(events[i].id.value() < events[last].id.value());
            }
        }
    }
}

/// What is known of a session stays: the time of its creation and its working
/// directory are those of the first record, and the time of its last use is that
/// of the last one.
pub proof fn law_first_record_of_a_session_stays(
    m: MetaModel,
    cwd: Seq<char>,
    other: Option<Seq<char>>,
    first: u64,
    later: u64,
)
    requires
        first != 0,
    ensures
        unknown_meta().recorded(Some(cwd), first) == (MetaModel {
            cwd: Some(cwd),
            created_at: first,
            last_touched: first,
        }),
        unknown_meta().recorded(Some(cwd), first).recorded(other, later) == (MetaModel {
            cwd: Some(cwd),
            created_at: first,
            last_touched: later,
        }),
        unknown_meta().recorded(Some(cwd), first).touched(later) == (MetaModel {
            cwd: Some(cwd),
            created_at: first,
            last_touched: later,
        }),
        m.cwd is Some ==> m.recorded(other, later).cwd == m.cwd,
        m.created_at != 0 ==> m.recorded(other, later).created_at == m.created_at,
{
}

proof fn lemma_listing_add(a: Seq<MetaEntry>, b: Seq<MetaEntry>)
    ensures
        listing(a + b) == listing(a) + listing(b),
    decreases b.len(),
{
    if b.len() == 0 {
        assert(a + b =~= a);
        assert(listing(a) + listing(b) =~= listing(a));
    } else {
        assert((a + b).drop_last() =~= a + b.drop_last());
        assert((a + b).last() == b.last());
        lemma_listing_add(a, b.drop_last());
        assert(listing(a + b) =~= listing(a) + listing(b));
    }
}

/// A session is listed with its name and its metadata, after those before it and
/// before those behind it. What is no directory, or has no name or no metadata,
/// is passed over.
pub proof fn law_sessions_are_listed_in_order(
    before: Seq<MetaEntry>,
    entry: MetaEntry,
    after: Seq<MetaEntry>,
)
    ensures
        listing(before + seq![entry] + after) == listing(before) + (if entry.is_dir && entry.name
            is Some && entry.meta is Some {
            seq![(entry.name->0@, entry.meta->0@)]
        } else {
            Seq::empty()
        }) + listing(after),
{
    lemma_listing_add(before + seq![entry], after);
    lemma_listing_add(before, seq![entry]);
    assert(seq![entry].drop_last() =~= Seq::<MetaEntry>::empty());
    assert(seq![entry].last() == entry);
    reveal_with_fuel(listing, 2);
    assert(listing(seq![entry]) =~= if entry.is_dir && entry.name is Some && entry.meta is Some {
        seq![(entry.name->0@, entry.meta->0@)]
    } else {
        Seq::empty()
    });
}

/// The first record that cannot be decoded is the one that is reported.
pub proof fn law_first_error_is_reported<T>(decoded: Seq<Result<T, String>>, k: int)
    requires
        0 <= k <= decoded.len(),
        forall|i: int| 0 <= i < k ==> (#[trigger] decoded[i]) is Ok,
        k < decoded.len() ==> decoded[k] is Err,
    ensures
        k < decoded.len() ==> first_decode_error(decoded) == Some(decoded[k]->Err_0@),
        k == decoded.len() ==> first_decode_error(decoded) is None,
    decreases decoded.len(),
{
    if k > 0 {
        let rest = decoded.drop_first();
        assert(decoded[0] is Ok);
        assert forall|i: int| 0 <= i < k - 1 implies (#[trigger] rest[i]) is Ok by {
            assert(rest[i] == decoded[i + 1]);
        }
        law_first_error_is_reported(rest, k - 1);
    }
}

/// An entry that is appended to a session ends its current branch; to a new
/// session it is the whole branch. A moved head ends it with the entry of that
/// node.
pub proof fn law_appended_entry_ends_the_branch(
    store: StoreModel,
    id: Seq<char>,
    entry: SessionEntry,
    node_id: NodeId,
)
    requires
        store.session_or_fresh(id).wf(),
        store.session_or_fresh(id).nodes.len() < u64::MAX,
    ensures
        ({
            let before = store.session_or_fresh(id);
            let after = store.appended(id, entry).sessions[id];
            &&& store.appended(id, entry).sessions.contains_key(id)
            &&& branch(after.nodes, after.head) == branch(before.nodes, before.head).push(entry)
            &&& !store.sessions.contains_key(id) ==> branch(after.nodes, after.head) == seq![entry]
            &&& store.sessions.contains_key(id) && node_id.0 < before.nodes.len() ==> branch(
                store.with_head(id, node_id).sessions[id].nodes,
                store.with_head(id, node_id).sessions[id].head,
            ).last() == before.nodes[node_id.0 as int].entry
        }),
{
    let before = store.session_or_fresh(id);
    law_changes_keep_tree(before, entry, node_id);
    if !store.sessions.contains_key(id) {
        assert(branch(before.nodes, before.head) =~= Seq::<SessionEntry>::empty());
        assert(Seq::<SessionEntry>::empty().push(entry) =~= seq![entry]);
    }
    if node_id.0 < before.nodes.len() {
        law_branch_ends_at_the_head(before, node_id);
    }
}

} // verus!
