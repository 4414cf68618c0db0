//! Sessions: which of several requests for the same data reads it.
//!
//! The requests of one session carry the same three header values. The first of them reads the
//! data; those that come later, while it reads or after it is done, are answered at once. A
//! session is forgotten some time after it was completed. Times are nanoseconds on one clock.

use crate::frame::frameable;
use crate::text::{copy_text, opt_text};
use crate::util::StringMap;
use vstd::prelude::*;
use vstd::string::*;

verus! {

/// The header values that tell one session from another.
#[derive(Debug)]
pub struct SessionKey {
    /// The transaction.
    pub xid: String,
    /// The command.
    pub cid: String,
    /// The segment.
    pub sn: String,
}

/// A session key as a value.
pub struct KeyView {
    pub xid: Seq<char>,
    pub cid: Seq<char>,
    pub sn: Seq<char>,
}

impl View for SessionKey {
    type V = KeyView;

    open spec fn view(&self) -> KeyView {
        KeyView { xid: self.xid@, cid: self.cid@, sn: self.sn@ }
    }
}

impl SessionKey {
    /// A copy of the key.
    pub fn duplicate(&self) -> (r: Self)
        ensures
            r@ == self@,
    {
        SessionKey { xid: self.xid.clone(), cid: self.cid.clone(), sn: self.sn.clone() }
    }

    fn same(&self, other: &SessionKey) -> (r: bool)
        ensures
            r == (self@ == other@),
    {
        self.xid == other.xid && self.cid == other.cid && self.sn == other.sn
    }
}

/// How far a session has come.
#[derive(Debug, Clone, Copy, PartialEq, Eq, Structural)]
pub enum SessionStatus {
    InProgress,
    Completed,
}

/// What is to be done with a request of a session.
#[derive(Debug, Clone, Copy, PartialEq, Eq, Structural)]
pub enum SessionDecision {
    /// Read the data.
    StartRead,
    /// Answer at once: another request is reading the data.
    ShortCircuitInProgress,
    /// Answer at once: the data has been read.
    ShortCircuitCompleted,
}

/// What is known of a session.
#[derive(Debug)]
pub struct SessionState {
    pub status: SessionStatus,
    /// Whether a request is reading the data, or has read it.
    pub reader_claimed: bool,
    pub started_at: u128,
    pub completed_at: Option<u128>,
    /// The first error of the session.
    pub error_message: Option<String>,
    /// The name of the source, for the answers to later requests.
    pub logical_name: Option<String>,
}

/// What is known of a session, as a value.
pub struct StateView {
    pub status: SessionStatus,
    pub reader_claimed: bool,
    pub started_at: u128,
    pub completed_at: Option<u128>,
    pub error_message: Option<Seq<char>>,
    pub logical_name: Option<Seq<char>>,
}

impl View for SessionState {
    type V = StateView;

    open spec fn view(&self) -> StateView {
        StateView {
            status: self.status,
            reader_claimed: self.reader_claimed,
            started_at: self.started_at,
            completed_at: self.completed_at,
            error_message: opt_text(self.error_message),
            logical_name: opt_text(self.logical_name),
        }
    }
}

impl StateView {
    /// A session that has just been started.
    pub open spec fn started(now: u128) -> Self {
        StateView {
            status: SessionStatus::InProgress,
            reader_claimed: true,
            started_at: now,
            completed_at: None,
            error_message: None,
            logical_name: None,
        }
    }

    /// The session with its data read.
    pub open spec fn completed(self, now: u128) -> Self {
        StateView { status: SessionStatus::Completed, completed_at: Some(now), ..self }
    }

    /// The session with a name for its source.
    pub open spec fn named(self, name: Seq<char>) -> Self {
        StateView { logical_name: Some(name), ..self }
    }

    /// The session with an error, unless it had one before.
    pub open spec fn failed(self, error: Seq<char>) -> Self {
        StateView {
            error_message: match self.error_message {
                Some(first) => Some(first),
                None => Some(error),
            },
            ..self
        }
    }

    /// What is to be done with a request of this session.
    pub open spec fn decision(self) -> SessionDecision {
        match self.status {
            SessionStatus::Completed => SessionDecision::ShortCircuitCompleted,
            SessionStatus::InProgress => if self.reader_claimed {
                SessionDecision::ShortCircuitInProgress
            } else {
                SessionDecision::StartRead
            },
        }
    }

    /// Whether the session is still remembered: it is in progress, or was completed less than
    /// `ttl` ago.
    pub open spec fn remembered(self, now: u128, ttl: u128) -> bool {
        match (self.status, self.completed_at) {
            (SessionStatus::Completed, Some(done)) => if now > done {
                now - done < ttl
            } else {
                0 < ttl
            },
            _ => true,
        }
    }

    /// What holds of every session: while it is in progress a request is reading its data, and
    /// it has a time of completion exactly when it is completed.
    pub open spec fn wf(self) -> bool {
        &&& self.reader_claimed
        &&& self.status == SessionStatus::Completed <==> self.completed_at is Some
    }
}

/// All sessions.
pub type Sessions = Map<KeyView, StateView>;

/// What is to be done with a request of the session `key`.
pub open spec fn decision(m: Sessions, key: KeyView) -> SessionDecision {
    if m.contains_key(key) {
        m[key].decision()
    } else {
        SessionDecision::StartRead
    }
}

/// The sessions after a request of the session `key`.
pub open spec fn requested(m: Sessions, key: KeyView, now: u128) -> Sessions {
    if m.contains_key(key) {
        m.insert(key, StateView { reader_claimed: true, ..m[key] })
    } else {
        m.insert(key, StateView::started(now))
    }
}

/// The sessions with `key` completed.
pub open spec fn completed(m: Sessions, key: KeyView, now: u128) -> Sessions {
    if m.contains_key(key) {
        m.insert(key, m[key].completed(now))
    } else {
        m
    }
}

/// The sessions with a name for the source of `key`.
pub open spec fn named(m: Sessions, key: KeyView, name: Seq<char>) -> Sessions {
    if m.contains_key(key) {
        m.insert(key, m[key].named(name))
    } else {
        m
    }
}

/// The sessions with an error for `key`.
pub open spec fn failed(m: Sessions, key: KeyView, error: Seq<char>) -> Sessions {
    if m.contains_key(key) {
        m.insert(key, m[key].failed(error))
    } else {
        m
    }
}

/// The sessions that are still remembered.
pub open spec fn remembered(m: Sessions, now: u128, ttl: u128) -> Sessions {
    Map::new(
        |k: KeyView| m.contains_key(k) && m[k].remembered(now, ttl),
        |k: KeyView| m[k],
    )
}

/// What holds of all sessions.
pub open spec fn all_wf(m: Sessions) -> bool {
    forall|k: KeyView| #[trigger] m.contains_key(k) ==> m[k].wf()
}

/// Whether every name and every error of a session fits into a frame.
pub open spec fn all_fit(m: Sessions) -> bool {
    forall|k: KeyView| #[trigger]
        m.contains_key(k) ==> (m[k].logical_name is Some ==> frameable(m[k].logical_name->0)) && (
        m[k].error_message is Some ==> frameable(m[k].error_message->0))
}

/// The sessions that the server knows of.
pub struct SessionManager {
    entries: Vec<(SessionKey, SessionState)>,
}

spec fn has_key(entries: Seq<(SessionKey, SessionState)>, key: KeyView) -> bool {
    exists|i: int| 0 <= i < entries.len() && #[trigger] entries[i].0@ == key
}

spec fn at_key(entries: Seq<(SessionKey, SessionState)>, key: KeyView) -> int {
    choose|i: int| 0 <= i < entries.len() && #[trigger] entries[i].0@ == key
}

spec fn table(entries: Seq<(SessionKey, SessionState)>) -> Sessions {
    Map::new(|k: KeyView| has_key(entries, k), |k: KeyView| entries[at_key(entries, k)].1@)
}

spec fn distinct(entries: Seq<(SessionKey, SessionState)>) -> bool {
    forall|i: int, j: int|
        0 <= i < j < entries.len() ==> (#[trigger] entries[i]).0@ != (#[trigger] entries[j]).0@
}

spec fn kept_of(
    entry: (SessionKey, SessionState),
    all: Seq<(SessionKey, SessionState)>,
    from: int,
    now: u128,
    ttl: u128,
) -> bool {
    exists|j: int|
        from <= j < all.len() && entry == #[trigger] all[j] && all[j].1@.remembered(now, ttl)
}

proof fn lemma_table(entries: Seq<(SessionKey, SessionState)>)
    requires
        distinct(entries),
    ensures
        forall|i: int|
            0 <= i < entries.len() ==> table(entries).contains_key(#[trigger] entries[i].0@)
                && table(entries)[entries[i].0@] == entries[i].1@,
        forall|k: KeyView| #[trigger]
            table(entries).contains_key(k) ==> 0 <= at_key(entries, k) < entries.len()
                && entries[at_key(entries, k)].0@ == k,
{
    assert forall|i: int| 0 <= i < entries.len() implies table(entries).contains_key(
        #[trigger] entries[i].0@,
    ) && table(entries)[entries[i].0@] == entries[i].1@ by {
        let k = entries[i].0@;
        assert(has_key(entries, k));
        let j = at_key(entries, k);
        assert(entries[j].0@ == k);
        if i < j {
            assert(entries[i].0@ != entries[j].0@);
        } else if j < i {
            assert(entries[j].0@ != entries[i].0@);
        }
    }
    assert forall|k: KeyView| #[trigger] table(entries).contains_key(k) implies 0 <= at_key(
        entries,
        k,
    ) < entries.len() && entries[at_key(entries, k)].0@ == k by {
        assert(has_key(entries, k));
    }
}

proof fn lemma_replace(
    before: Seq<(SessionKey, SessionState)>,
    after: Seq<(SessionKey, SessionState)>,
    i: int,
)
    requires
        distinct(before),
        0 <= i < before.len(),
        after.len() == before.len(),
        after[i].0@ == before[i].0@,
        forall|j: int| 0 <= j < before.len() && j != i ==> #[trigger] after[j] == before[j],
    ensures
        distinct(after),
        table(after) == table(before).insert(before[i].0@, after[i].1@),
{
    assert forall|a: int, b: int| 0 <= a < b < after.len() implies (#[trigger] after[a]).0@ != (
    #[trigger] after[b]).0@ by {
        assert(before[a].0@ != before[b].0@);
    }
    lemma_table(before);
    lemma_table(after);
    let expected = table(before).insert(before[i].0@, after[i].1@);
    assert forall|k: KeyView| table(after).contains_key(k) == expected.contains_key(k) by {
        if table(after).contains_key(k) {
            let j = at_key(after, k);
            assert(before[j].0@ == k);
        }
        if expected.contains_key(k) && k != before[i].0@ {
            let j = at_key(before, k);
            assert(after[j].0@ == k);
        }
        assert(after[i].0@ == before[i].0@);
    }
    assert forall|k: KeyView| expected.contains_key(k) implies table(after)[k] == expected[k] by {
        if k == before[i].0@ {
            assert(table(after)[after[i].0@] == after[i].1@);
        } else {
            let j = at_key(before, k);
            assert(after[j] == before[j]);
            assert(table(after)[after[j].0@] == after[j].1@);
        }
    }
    assert(table(after) =~= expected);
}

impl View for SessionManager {
    type V = Sessions;

    closed spec fn view(&self) -> Sessions {
        table(self.entries@)
    }
}

impl SessionManager {
    /// No session stands in the list twice, every session is well formed, and what is kept of
    /// it fits into frames.
    pub closed spec fn wf(&self) -> bool {
        distinct(self.entries@) && all_wf(self@) && all_fit(self@)
    }

    /// What holds of the sessions of a well-formed manager.
    pub proof fn law_wf(&self)
        requires
            self.wf(),
        ensures
            all_wf(self@),
            all_fit(self@),
    {
    }

    /// No sessions.
    pub fn new() -> (r: Self)
        ensures
            r.wf(),
            r@ == Map::<KeyView, StateView>::empty(),
    {
        let r = SessionManager { entries: Vec::new() };
        assert(r@ =~= Map::<KeyView, StateView>::empty());
        r
    }

    fn position(&self, key: &SessionKey) -> (r: Option<usize>)
        requires
            self.wf(),
        ensures
            match r {
                Some(i) => {
                    &&& i < self.entries@.len()
                    &&& self.entries@[i as int].0@ == key@
                    &&& self@.contains_key(key@)
                    &&& self@[key@] == self.entries@[i as int].1@
                },
                None => !self@.contains_key(key@),
            },
    {
        let mut i: usize = 0;
        while i < self.entries.len()
            invariant
                self.wf(),
                i <= self.entries@.len(),
                forall|j: int| 0 <= j < i ==> #[trigger] self.entries@[j].0@ != key@,
            decreases self.entries@.len() - i,
        {
            if self.entries[i].0.same(key) {
                proof {
                    lemma_table(self.entries@);
                }
                return Some(i);
            }
            i += 1;
        }
        None
    }

    /// Decides what is to be done with a request of a session, and remembers that it came.
    pub fn decide(&mut self, key: SessionKey, now: u128) -> (r: SessionDecision)
        requires
            old(self).wf(),
        ensures
            final(self).wf(),
            r == decision(old(self)@, key@),
            final(self)@ == requested(old(self)@, key@, now),
    {
        match self.position(&key) {
            Some(i) => {
                proof {
                    assert(self@[key@].wf());
                    assert(requested(self@, key@, now) =~= self@);
                }
                match self.entries[i].1.status {
                    SessionStatus::InProgress => {
                        if self.entries[i].1.reader_claimed {
                            SessionDecision::ShortCircuitInProgress
                        } else {
                            self.entries[i].1.reader_claimed = true;
                            SessionDecision::StartRead
                        }
                    },
                    SessionStatus::Completed => SessionDecision::ShortCircuitCompleted,
                }
            },
            None => {
                let ghost before = self.entries@;
                let ghost k = key@;
                let state = SessionState {
                    status: SessionStatus::InProgress,
                    reader_claimed: true,
                    started_at: now,
                    completed_at: None,
                    error_message: None,
                    logical_name: None,
                };
                self.entries.push((key, state));
                proof {
                    let after = self.entries@;
                    assert(after[before.len() as int].0@ == k);
                    assert forall|a: int, b: int| 0 <= a < b < after.len() implies (
                    #[trigger] after[a]).0@ != (#[trigger] after[b]).0@ by {
                        if b < before.len() {
                            assert(before[a].0@ != before[b].0@);
                        } else {
                            assert(before[a].0@ != k) by {
                                if before[a].0@ == k {
                                    assert(has_key(before, k));
                                }
                            }
                        }
                    }
                    lemma_table(before);
                    lemma_table(after);
                    let expected = table(before).insert(k, StateView::started(now));
                    assert forall|x: KeyView|
                        table(after).contains_key(x) == expected.contains_key(x) by {
                        if table(after).contains_key(x) {
                            let j = at_key(after, x);
                            if j < before.len() {
                                assert(before[j].0@ == x);
                            }
                        }
                        if table(before).contains_key(x) {
                            let j = at_key(before, x);
                            assert(after[j].0@ == x);
                        }
                    }
                    assert forall|x: KeyView| expected.contains_key(x) implies table(after)[x]
                        == expected[x] by {
                        if x == k {
                            assert(table(after)[after[before.len() as int].0@]
                                == StateView::started(now));
                        } else {
                            let j = at_key(before, x);
                            assert(after[j] == before[j]);
                            assert(table(after)[after[j].0@] == after[j].1@);
                        }
                    }
                    assert(table(after) =~= expected);
                }
                SessionDecision::StartRead
            },
        }
    }

    /// Remembers that the data of a session has been read.
    pub fn mark_completed(&mut self, key: &SessionKey, now: u128)
        requires
            old(self).wf(),
        ensures
            final(self).wf(),
            final(self)@ == completed(old(self)@, key@, now),
    {
        if let Some(i) = self.position(key) {
            let ghost before = self.entries@;
            self.entries[i].1.status = SessionStatus::Completed;
            self.entries[i].1.completed_at = Some(now);
            proof {
                assert(self.entries@[i as int].1@ == before[i as int].1@.completed(now));
                lemma_replace(before, self.entries@, i as int);
            }
        }
    }

    /// Remembers the name of the source that a session reads.
    pub fn set_logical_name(&mut self, key: &SessionKey, name: String)
        requires
            old(self).wf(),
            frameable(name@),
        ensures
            final(self).wf(),
            final(self)@ == named(old(self)@, key@, name@),
    {
        if let Some(i) = self.position(key) {
            let ghost before = self.entries@;
            let ghost text = name@;
            self.entries[i].1.logical_name = Some(name);
            proof {
                assert(self.entries@[i as int].1@ == before[i as int].1@.named(text));
                lemma_replace(before, self.entries@, i as int);
            }
        }
    }

    /// Remembers the first error of a session.
    pub fn set_error_message(&mut self, key: &SessionKey, error: String)
        requires
            old(self).wf(),
            frameable(error@),
        ensures
            final(self).wf(),
            final(self)@ == failed(old(self)@, key@, error@),
    {
        if let Some(i) = self.position(key) {
            let ghost before = self.entries@;
            let ghost text = error@;
            if self.entries[i].1.error_message.is_none() {
                self.entries[i].1.error_message = Some(error);
            }
            proof {
                assert(self.entries@[i as int].1@ == before[i as int].1@.failed(text));
                lemma_replace(before, self.entries@, i as int);
            }
        }
    }

    /// The name of the source of a session, and its first error.
    pub fn get_session_info(&self, key: &SessionKey) -> (r: Option<
        (Option<String>, Option<String>),
    >)
        requires
            self.wf(),
        ensures
            match r {
                Some((name, error)) => self@.contains_key(key@) && opt_text(name)
                    == self@[key@].logical_name && opt_text(error) == self@[key@].error_message,
                None => !self@.contains_key(key@),
            },
            r matches Some((name, error)) ==> (name is Some ==> frameable(name->0@)) && (
            error is Some ==> frameable(error->0@)),
    {
        match self.position(key) {
            Some(i) => Some(
                (
                    copy_text(&self.entries[i].1.logical_name),
                    copy_text(&self.entries[i].1.error_message),
                ),
            ),
            None => None,
        }
    }

    /// Forgets the sessions that were completed `ttl` ago or earlier.
    pub fn evict_old_sessions(&mut self, now: u128, ttl: u128)
        requires
            old(self).wf(),
        ensures
            final(self).wf(),
            final(self)@ == remembered(old(self)@, now, ttl),
    {
        let ghost all = self.entries@;
        let mut kept: Vec<(SessionKey, SessionState)> = Vec::new();
        proof {
            lemma_table(all);
        }
        while self.entries.len() > 0
            invariant
                distinct(all),
                self.entries@.len() <= all.len(),
                self.entries@ == all.take(self.entries@.len() as int),
                distinct(kept@),
                forall|i: int|
                    0 <= i < kept@.len() ==> kept_of(
                        #[trigger] kept@[i],
                        all,
                        self.entries@.len() as int,
                        now,
                        ttl,
                    ),
                forall|j: int|
                    self.entries@.len() <= j < all.len() && (#[trigger] all[j]).1@.remembered(
                        now,
                        ttl,
                    ) ==> has_key(kept@, all[j].0@),
            decreases self.entries@.len(),
        {
            let ghost n = self.entries@.len() - 1;
            let ghost kept_before = kept@;
            match self.entries.pop() {
                Some(entry) => {
                    assert(entry == all[n]);
                    assert(self.entries@ =~= all.take(n));
                    let keep: bool = match entry.1.status {
                        SessionStatus::Completed => match entry.1.completed_at {
                            Some(done) => {
                                let age: u128 = if now > done {
                                    now - done
                                } else {
                                    0
                                };
                                age < ttl
                            },
                            None => true,
                        },
                        SessionStatus::InProgress => true,
                    };
                    assert(keep == entry.1@.remembered(now, ttl));
                    if keep {
                        kept.push(entry);
                        proof {
                            assert(kept@[kept_before.len() as int].0@ == all[n].0@);
                            assert forall|a: int, b: int| 0 <= a < b < kept@.len() implies (
                            #[trigger] kept@[a]).0@ != (#[trigger] kept@[b]).0@ by {
                                if b < kept_before.len() {
                                    assert(kept_before[a].0@ != kept_before[b].0@);
                                } else {
                                    assert(kept@[a] == kept_before[a]);
                                    assert(kept_of(kept_before[a], all, n + 1, now, ttl));
                                    let j = choose|j: int|
                                        n + 1 <= j < all.len() && kept_before[a]
                                            == #[trigger] all[j] && all[j].1@.remembered(now, ttl);
                                    assert(all[n].0@ != all[j].0@);
                                }
                            }
                        }
                    }
                    proof {
                        assert forall|i: int| 0 <= i < kept@.len() implies kept_of(
                            #[trigger] kept@[i],
                            all,
                            n,
                            now,
                            ttl,
                        ) by {
                            if i < kept_before.len() {
                                assert(kept@[i] == kept_before[i]);
                                assert(kept_of(kept_before[i], all, n + 1, now, ttl));
                            } else {
                                assert(kept@[i] == all[n]);
                            }
                        }
                        assert forall|j: int|
                            n <= j < all.len() && (#[trigger] all[j]).1@.remembered(
                                now,
                                ttl,
                            ) implies has_key(kept@, all[j].0@) by {
                            if j == n {
                                assert(kept@[kept_before.len() as int].0@ == all[j].0@);
                            } else {
                                let i = at_key(kept_before, all[j].0@);
                                assert(has_key(kept_before, all[j].0@));
                                assert(kept@[i].0@ == all[j].0@);
                            }
                        }
                    }
                },
                None => {},
            }
        }
        self.entries = kept;
        proof {
            let now_kept = self.entries@;
            lemma_table(now_kept);
            let expected = remembered(table(all), now, ttl);
            assert forall|k: KeyView|
                table(now_kept).contains_key(k) == expected.contains_key(k) by {
                if table(now_kept).contains_key(k) {
                    let i = at_key(now_kept, k);
                    assert(kept_of(now_kept[i], all, 0, now, ttl));
                    let j = choose|j: int|
                        0 <= j < all.len() && now_kept[i] == #[trigger] all[j]
                            && all[j].1@.remembered(now, ttl);
                    assert(table(all).contains_key(all[j].0@));
                }
                if expected.contains_key(k) {
                    let j = at_key(all, k);
                    assert(all[j].1@.remembered(now, ttl));
                    assert(has_key(now_kept, all[j].0@));
                }
            }
            assert forall|k: KeyView| expected.contains_key(k) implies table(now_kept)[k]
                == expected[k] by {
                assert(table(now_kept).contains_key(k));
                let i = at_key(now_kept, k);
                assert(kept_of(now_kept[i], all, 0, now, ttl));
                let j = choose|j: int|
                    0 <= j < all.len() && now_kept[i] == #[trigger] all[j]
                        && all[j].1@.remembered(now, ttl);
                assert(table(all)[all[j].0@] == all[j].1@);
                assert(table(now_kept)[now_kept[i].0@] == now_kept[i].1@);
            }
            assert(table(now_kept) =~= expected);
        }
    }
}

/// The session that a request belongs to: the one that its three session headers name, where it
/// has all of them.
pub open spec fn session_key_of(headers: Map<Seq<char>, Seq<char>>) -> Option<KeyView> {
    if headers.contains_key("x-gp-xid"@) && headers.contains_key("x-gp-cid"@)
        && headers.contains_key("x-gp-sn"@) {
        Some(
            KeyView {
                xid: headers["x-gp-xid"@],
                cid: headers["x-gp-cid"@],
                sn: headers["x-gp-sn"@],
            },
        )
    } else {
        None
    }
}

/// The key in an optional session key.
pub open spec fn opt_key(k: Option<SessionKey>) -> Option<KeyView> {
    match k {
        Some(key) => Some(key@),
        None => None,
    }
}

/// Reads the session that a request belongs to from its headers.
pub fn extract_session_key(headers: &StringMap) -> (r: Option<SessionKey>)
    ensures
        opt_key(r) == session_key_of(headers@),
{
    match (headers.get("x-gp-xid"), headers.get("x-gp-cid"), headers.get("x-gp-sn")) {
        (Some(xid), Some(cid), Some(sn)) => Some(
            SessionKey { xid: xid.clone(), cid: cid.clone(), sn: sn.clone() },
        ),
        _ => None,
    }
}

// ---------------------------------------------------------------- laws

/// What can happen to the sessions.
pub enum SessionEvent {
    Request { key: KeyView, now: u128 },
    Complete { key: KeyView, now: u128 },
    Name { key: KeyView, name: Seq<char> },
    Fail { key: KeyView, error: Seq<char> },
    Evict { now: u128, ttl: u128 },
}

/// The sessions after an event.
pub open spec fn step(m: Sessions, event: SessionEvent) -> Sessions {
    match event {
        SessionEvent::Request { key, now } => requested(m, key, now),
        SessionEvent::Complete { key, now } => completed(m, key, now),
        SessionEvent::Name { key, name } => named(m, key, name),
        SessionEvent::Fail { key, error } => failed(m, key, error),
        SessionEvent::Evict { now, ttl } => remembered(m, now, ttl),
    }
}

/// The sessions after some events, one after the other.
pub open spec fn run(m: Sessions, events: Seq<SessionEvent>) -> Sessions
    decreases events.len(),
{
    if events.len() == 0 {
        m
    } else {
        step(run(m, events.drop_last()), events.last())
    }
}

/// Every event leaves every session well formed.
pub proof fn law_sessions_stay_well_formed(m: Sessions, events: Seq<SessionEvent>)
    requires
        all_wf(m),
    ensures
        all_wf(run(m, events)),
    decreases events.len(),
{
    if events.len() > 0 {
        law_sessions_stay_well_formed(m, events.drop_last());
    }
}

/// A session has one reader: once a request of it has come, every later one is answered at
/// once, whatever happens in between, until the session is forgotten.
pub proof fn law_one_reader(m: Sessions, key: KeyView, now: u128, events: Seq<SessionEvent>)
    requires
        all_wf(m),
        forall|i: int| 0 <= i < events.len() ==> !(#[trigger] events[i] is Evict),
    ensures
        run(requested(m, key, now), events).contains_key(key),
        decision(run(requested(m, key, now), events), key) != SessionDecision::StartRead,
    decreases events.len(),
{
    law_sessions_stay_well_formed(requested(m, key, now), events);
    if events.len() > 0 {
        let before = events.drop_last();
        assert forall|i: int| 0 <= i < before.len() implies !(#[trigger] before[i] is Evict) by {
            assert(before[i] == events[i]);
        }
        law_one_reader(m, key, now, before);
        assert(!(events[events.len() - 1] is Evict));
    }
}

/// The first request of a session reads the data, and so does the first one after the session
/// was forgotten.
pub proof fn law_first_request_reads(m: Sessions, key: KeyView, now: u128, ttl: u128)
    ensures
        !m.contains_key(key) ==> decision(m, key) == SessionDecision::StartRead,
        m.contains_key(key) && !m[key].remembered(now, ttl) ==> decision(
            remembered(m, now, ttl),
            key,
        ) == SessionDecision::StartRead,
{
}

/// A session is not forgotten before it is completed, and until then later requests are told
/// that it is in progress.
pub proof fn law_in_progress_until_completed(
    m: Sessions,
    key: KeyView,
    events: Seq<SessionEvent>,
)
    requires
        all_wf(m),
        m.contains_key(key),
        m[key].status == SessionStatus::InProgress,
        forall|i: int|
            0 <= i < events.len() ==> !(#[trigger] events[i] is Complete
                && events[i]->Complete_key == key),
    ensures
        run(m, events).contains_key(key),
        run(m, events)[key].status == SessionStatus::InProgress,
        decision(run(m, events), key) == SessionDecision::ShortCircuitInProgress,
    decreases events.len(),
{
    law_sessions_stay_well_formed(m, events);
    if events.len() > 0 {
        let before = events.drop_last();
        assert forall|i: int| 0 <= i < before.len() implies !(#[trigger] before[i] is Complete
            && before[i]->Complete_key == key) by {
            assert(before[i] == events[i]);
        }
        law_in_progress_until_completed(m, key, before);
        let last = events[events.len() - 1];
        assert(!(last is Complete && last->Complete_key == key));
    }
}

/// Once a session is completed, later requests are told so, until it is forgotten.
pub proof fn law_completed_until_forgotten(
    m: Sessions,
    key: KeyView,
    now: u128,
    events: Seq<SessionEvent>,
)
    requires
        m.contains_key(key),
        forall|i: int| 0 <= i < events.len() ==> !(#[trigger] events[i] is Evict),
    ensures
        decision(run(completed(m, key, now), events), key)
            == SessionDecision::ShortCircuitCompleted,
        run(completed(m, key, now), events).contains_key(key),
    decreases events.len(),
{
    if events.len() > 0 {
        let before = events.drop_last();
        assert forall|i: int| 0 <= i < before.len() implies !(#[trigger] before[i] is Evict) by {
            assert(before[i] == events[i]);
        }
        law_completed_until_forgotten(m, key, now, before);
        assert(!(events[events.len() - 1] is Evict));
    }
}

/// The first error of a session is the one that is remembered.
pub proof fn law_first_error_is_kept(
    m: Sessions,
    key: KeyView,
    error: Seq<char>,
    events: Seq<SessionEvent>,
)
    requires
        m.contains_key(key),
        m[key].error_message is None,
        forall|i: int| 0 <= i < events.len() ==> !(#[trigger] events[i] is Evict),
    ensures
        run(failed(m, key, error), events).contains_key(key),
        run(failed(m, key, error), events)[key].error_message == Some(error),
    decreases events.len(),
{
    if events.len() > 0 {
        let before = events.drop_last();
        assert forall|i: int| 0 <= i < before.len() implies !(#[trigger] before[i] is Evict) by {
            assert(before[i] == events[i]);
        }
        law_first_error_is_kept(m, key, error, before);
        assert(!(events[events.len() - 1] is Evict));
    }
}

/// The name of the source is remembered until another one is given.
pub proof fn law_name_is_kept(
    m: Sessions,
    key: KeyView,
    name: Seq<char>,
    events: Seq<SessionEvent>,
)
    requires
        m.contains_key(key),
        forall|i: int|
            0 <= i < events.len() ==> !(#[trigger] events[i] is Evict) && !(events[i] is Name
                && events[i]->Name_key == key),
    ensures
        run(named(m, key, name), events).contains_key(key),
        run(named(m, key, name), events)[key].logical_name == Some(name),
    decreases events.len(),
{
    if events.len() > 0 {
        let before = events.drop_last();
        assert forall|i: int| 0 <= i < before.len() implies !(#[trigger] before[i] is Evict) && !(
        before[i] is Name && before[i]->Name_key == key) by {
            assert(before[i] == events[i]);
        }
        law_name_is_kept(m, key, name, before);
        let last = events[events.len() - 1];
        assert(!(last is Evict) && !(last is Name && last->Name_key == key));
    }
}

/// What happens to one session leaves every other one as it was.
pub proof fn law_sessions_are_independent(
    m: Sessions,
    key: KeyView,
    other: KeyView,
    now: u128,
    text: Seq<char>,
)
    requires
        key != other,
    ensures
        requested(m, key, now).contains_key(other) == m.contains_key(other),
        completed(m, key, now).contains_key(other) == m.contains_key(other),
        named(m, key, text).contains_key(other) == m.contains_key(other),
        failed(m, key, text).contains_key(other) == m.contains_key(other),
        m.contains_key(other) ==> requested(m, key, now)[other] == m[other] && completed(
            m,
            key,
            now,
        )[other] == m[other] && named(m, key, text)[other] == m[other] && failed(
            m,
            key,
            text,
        )[other] == m[other],
{
}

/// What each event does to its session, field by field: a first request starts it with a reader
/// and nothing else; completing it sets its status and time; a name and an error are kept as
/// they are given, the error only where there was none.
pub proof fn law_what_events_change(
    m: Sessions,
    key: KeyView,
    now: u128,
    text: Seq<char>,
)
    ensures
        !m.contains_key(key) ==> {
            let s = requested(m, key, now)[key];
            &&& requested(m, key, now).contains_key(key)
            &&& s.status == SessionStatus::InProgress
            &&& s.started_at == now
            &&& s.completed_at is None
            &&& s.error_message is None
            &&& s.logical_name is None
        },
        requested(m, key, now)[key].reader_claimed,
        m.contains_key(key) ==> {
            let r = requested(m, key, now)[key];
            let c = completed(m, key, now)[key];
            let n = named(m, key, text)[key];
            let f = failed(m, key, text)[key];
            &&& r == StateView { reader_claimed: true, ..m[key] }
            &&& c.status == SessionStatus::Completed
            &&& c.completed_at == Some(now)
            &&& c.error_message == m[key].error_message
            &&& c.logical_name == m[key].logical_name
            &&& n == StateView { logical_name: Some(text), ..m[key] }
            &&& m[key].error_message is None ==> f == StateView {
                error_message: Some(text),
                ..m[key]
            }
            &&& m[key].error_message is Some ==> f == m[key]
        },
        !m.contains_key(key) ==> completed(m, key, now) == m && named(m, key, text) == m && failed(
            m,
            key,
            text,
        ) == m,
{
}

/// A completed session is remembered, unchanged, until `ttl` has passed since it was completed;
/// one in progress is always remembered; and no session comes out of nothing.
pub proof fn law_sessions_are_forgotten_in_time(m: Sessions, key: KeyView, now: u128, ttl: u128)
    requires
        all_wf(m),
    ensures
        remembered(m, now, ttl).contains_key(key) <==> m.contains_key(key) && (m[key].status
            == SessionStatus::InProgress || (if now > m[key].completed_at->0 {
            now - m[key].completed_at->0
        } else {
            0
        }) < ttl),
        remembered(m, now, ttl).contains_key(key) ==> remembered(m, now, ttl)[key] == m[key],
{
    if m.contains_key(key) {
        assert(m[key].wf());
    }
}

/// A request belongs to a session where it has all three session headers, and the session is
/// told from others by their values alone: two requests are of the same session exactly where
/// all three values are the same.
pub proof fn law_session_of_a_request(
    a: Map<Seq<char>, Seq<char>>,
    b: Map<Seq<char>, Seq<char>>,
)
    ensures
        session_key_of(a) is Some <==> a.contains_key("x-gp-xid"@) && a.contains_key("x-gp-cid"@)
            && a.contains_key("x-gp-sn"@),
        session_key_of(a) is Some && session_key_of(b) is Some ==> (session_key_of(a)
            == session_key_of(b) <==> a["x-gp-xid"@] == b["x-gp-xid"@] && a["x-gp-cid"@]
            == b["x-gp-cid"@] && a["x-gp-sn"@] == b["x-gp-sn"@]),
        session_key_of(a) is Some ==> session_key_of(a) == Some(
            KeyView { xid: a["x-gp-xid"@], cid: a["x-gp-cid"@], sn: a["x-gp-sn"@] },
        ),
{
}

} // verus!
