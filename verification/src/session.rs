//! Sessions and the store that holds them until they are won, removed or
//! swept after their time has run out.

use dashmap::DashMap;
use vstd::prelude::*;
use crate::clock::unix_now;
use crate::game::board::Board;
use crate::game::model::{BoardView, HitDisplayDiff, HitError};
use crate::game::point::Point;

verus! {

/// The name of a session.
pub type SessionID = u128;

/// How many fresh ids are tried before the store reports that it is full.
pub const ID_ATTEMPTS: u32 = 65535;

/// The mathematical value of a [`Session`].
pub struct SessionView {
    /// The second, counted from the Unix epoch, from which the session may be swept.
    pub expires: int,
    pub board: BoardView,
}

/// One player's game in progress and the time at which it runs out.
#[derive(Debug, Clone)]
pub struct Session {
    expires: i128,
    pub board: Board,
}

impl View for Session {
    type V = SessionView;

    closed spec fn view(&self) -> SessionView {
        SessionView { expires: self.expires as int, board: self.board@ }
    }
}

impl Session {
    /// A session on `board` that runs out at `expires`.
    pub fn new(board: Board, expires: i128) -> (r: Self)
        ensures
            r@ == (SessionView { expires: expires as int, board: board@ }),
    {
        Self { expires, board }
    }

    /// The second from which the session may be swept.
    pub fn expires(&self) -> (r: i128)
        ensures
            r == self@.expires,
    {
        self.expires
    }

    /// Whether the session has time left at `now`.
    pub fn is_live(&self, now: i64) -> (r: bool)
        ensures
            r == (self@.expires > now),
    {
        self.expires > now as i128
    }

    /// Spells out the view in terms of the fields.
    proof fn view_def(&self)
        ensures
            self@ == (SessionView { expires: self.expires as int, board: self.board@ }),
    {
    }
}

// ----- the concurrent map of the `dashmap` crate -----

/// `dashmap::DashMap`, a map that may be shared between threads. Nothing
/// of its inside is known here; [`sessions_of`] names what it holds, and
/// the functions below are the only ones that touch it. Each of them that
/// changes the map takes it by exclusive reference, so that what a map
/// holds changes only where the code says so.
#[verifier::external_type_specification]
#[verifier::external_body]
#[verifier::reject_recursive_types(K)]
#[verifier::reject_recursive_types(V)]
#[verifier::reject_recursive_types(S)]
pub struct ExDashMap<K, V, S>(dashmap::DashMap<K, V, S>);

/// The sessions that a map holds, by id.
pub uninterp spec fn sessions_of(data: DashMap<SessionID, Session>) -> Map<SessionID, SessionView>;

/// No session at all.
pub open spec fn no_sessions() -> Map<SessionID, SessionView> {
    Map::empty()
}

/// Calls `DashMap::new`: a map that holds nothing.
#[verifier::external_body]
fn map_new() -> (r: DashMap<SessionID, Session>)
    ensures
        sessions_of(r) == no_sessions(),
{
    DashMap::new()
}

/// Calls `DashMap::contains_key`: whether the map holds `id`.
#[verifier::external_body]
fn map_contains(data: &DashMap<SessionID, Session>, id: SessionID) -> (r: bool)
    ensures
        r == sessions_of(*data).contains_key(id),
{
    data.contains_key(&id)
}

/// Calls `DashMap::get` and clones the session found: the session under
/// `id`, if the map holds one. The map is left as it is.
#[verifier::external_body]
fn map_get(data: &DashMap<SessionID, Session>, id: SessionID) -> (r: Option<Session>)
    ensures
        r is Some <==> sessions_of(*data).contains_key(id),
        r is Some ==> r->0@ == sessions_of(*data)[id],
{
    data.get(&id).map(|entry| entry.value().clone())
}

/// Calls `DashMap::insert`: afterwards the map holds `session` under `id`
/// and is otherwise as before. Returns the session that was there before,
/// if there was one.
#[verifier::external_body]
fn map_insert(data: &mut DashMap<SessionID, Session>, id: SessionID, session: Session) -> (r:
    Option<Session>)
    ensures
        sessions_of(*final(data)) == sessions_of(*old(data)).insert(id, session@),
        r is Some <==> sessions_of(*old(data)).contains_key(id),
        r is Some ==> r->0@ == sessions_of(*old(data))[id],
{
    data.insert(id, session)
}

/// Calls `DashMap::remove`: afterwards the map does not hold `id` and is
/// otherwise as before. Returns the session that was there, if there was one.
#[verifier::external_body]
fn map_remove(data: &mut DashMap<SessionID, Session>, id: SessionID) -> (r: Option<Session>)
    ensures
        sessions_of(*final(data)) == sessions_of(*old(data)).remove(id),
        r is Some <==> sessions_of(*old(data)).contains_key(id),
        r is Some ==> r->0@ == sessions_of(*old(data))[id],
{
    data.remove(&id).map(|entry| entry.1)
}

/// Calls `DashMap::retain` with [`Session::is_live`] at `now` as the test:
/// afterwards the map holds exactly the sessions that had time left, each
/// as it was.
#[verifier::external_body]
fn map_retain_live(data: &mut DashMap<SessionID, Session>, now: i64)
    ensures
        sessions_of(*final(data)) == sessions_of(*old(data)).restrict(
            Set::new(|id: SessionID| sessions_of(*old(data))[id].expires > now),
        ),
{
    data.retain(|_, session| session.is_live(now));
}

/// Calls `uuid::Uuid::now_v7` and takes the result's `as_u128`: a new id made
/// from the current time and random bits. Nothing is known of the value.
#[verifier::external_body]
fn fresh_id() -> SessionID {
    uuid::Uuid::now_v7().as_u128()
}

// ----- the store -----

/// Why the store refused a request.
#[derive(Debug, Clone, Copy, PartialEq, Eq, Structural)]
pub enum StoreError {
    /// No free id was found within the attempts allowed.
    StoreFull,
    /// The store holds no session under the id given.
    NotFound,
    /// The id given is in use.
    IdTaken,
}

/// Why a turn was not played.
#[derive(Debug, Clone, Copy, PartialEq, Eq, Structural)]
pub enum TurnError {
    /// The store holds no session under the id given.
    NotFound,
    /// The board refused the hit.
    Hit(HitError),
}

/// What a turn came to: what the hit changed, and whether it won the game.
#[derive(Debug, Clone, Copy, PartialEq, Eq, Structural)]
pub struct Turn {
    pub diff: HitDisplayDiff,
    pub win: bool,
}

/// The mathematical value of a [`Store`].
pub struct StoreView {
    pub sessions: Map<SessionID, SessionView>,
    /// Seconds that a session lasts.
    pub lifetime: int,
}

impl StoreView {
    /// Every board in the store is well formed.
    pub open spec fn wf(self) -> bool {
        forall|id: SessionID|
            self.sessions.contains_key(id) ==> (#[trigger] self.sessions[id]).board.wf()
    }

    /// The store with `session` under `id`.
    pub open spec fn with_session(self, id: SessionID, session: SessionView) -> StoreView {
        StoreView { sessions: self.sessions.insert(id, session), ..self }
    }

    /// The store without the session under `id`.
    pub open spec fn without(self, id: SessionID) -> StoreView {
        StoreView { sessions: self.sessions.remove(id), ..self }
    }

    /// The session that a game on `board` gets when it is created at `now`.
    pub open spec fn session_at(self, board: BoardView, now: int) -> SessionView {
        SessionView { expires: now + self.lifetime, board }
    }

    /// The store after a sweep at `now`: the sessions that run out later than
    /// `now` stay, the others are gone.
    pub open spec fn swept(self, now: int) -> StoreView {
        StoreView {
            sessions: self.sessions.restrict(
                Set::new(|id: SessionID| self.sessions[id].expires > now),
            ),
            ..self
        }
    }

    /// What a hit on `point` in the game `id` answers.
    pub open spec fn turn_outcome(self, id: SessionID, point: Point) -> Result<Turn, TurnError> {
        if !self.sessions.contains_key(id) {
            Err(TurnError::NotFound)
        } else {
            let board = self.sessions[id].board;
            match board.hit_outcome(point) {
                Err(e) => Err(TurnError::Hit(e)),
                Ok(diff) => Ok(Turn { diff, win: board.hit(point).is_win() }),
            }
        }
    }

    /// The store after a hit on `point` in the game `id`: the game has moved
    /// on, and if the hit won it, its session is gone.
    pub open spec fn after_turn(self, id: SessionID, point: Point) -> StoreView {
        if self.turn_outcome(id, point) is Err {
            self
        } else {
            let session = self.sessions[id];
            let board = session.board.hit(point);
            if board.is_win() {
                self.without(id)
            } else {
                self.with_session(id, SessionView { board, ..session })
            }
        }
    }
}

/// All sessions of the process, by id.
///
/// Whatever changes the store takes it by exclusive reference: threads that
/// share a store put it behind a lock of their own, and a turn, which
/// touches several cells, a ship and a counter, is then seen by the others
/// as a whole or not at all.
pub struct Store {
    data: DashMap<SessionID, Session>,
    session_lifetime: i64,
}

impl View for Store {
    type V = StoreView;

    closed spec fn view(&self) -> StoreView {
        StoreView { sessions: sessions_of(self.data), lifetime: self.session_lifetime as int }
    }
}

impl Store {
    /// The invariant of every store; see [`StoreView::wf`].
    pub open spec fn wf(&self) -> bool {
        self@.wf()
    }

    /// An empty store whose sessions last `session_lifetime` seconds.
    pub fn new(session_lifetime: i64) -> (r: Self)
        ensures
            r.wf(),
            r@ == (StoreView { sessions: Map::empty(), lifetime: session_lifetime as int }),
    {
        Self { data: map_new(), session_lifetime }
    }

    /// Seconds that a session lasts.
    pub fn session_lifetime(&self) -> (r: i64)
        ensures
            r == self@.lifetime,
    {
        self.session_lifetime
    }

    /// Whether the store holds a session under `id`.
    pub fn contains(&self, id: SessionID) -> (r: bool)
        ensures
            r == self@.sessions.contains_key(id),
    {
        map_contains(&self.data, id)
    }

    /// Puts `session` under `id`, unless the id is in use.
    pub fn insert(&mut self, id: SessionID, session: Session) -> (r: Result<(), StoreError>)
        requires
            old(self).wf(),
            session@.board.wf(),
        ensures
            final(self).wf(),
            old(self)@.sessions.contains_key(id) ==> r == Err::<(), StoreError>(StoreError::IdTaken)
                && final(self)@ == old(self)@,
            !old(self)@.sessions.contains_key(id) ==> r is Ok && final(self)@ == old(self)@.with_session(
                id,
                session@,
            ),
    {
        if map_contains(&self.data, id) {
            return Err(StoreError::IdTaken);
        }
        let _ = map_insert(&mut self.data, id, session);
        proof {
            lemma_with_session_wf(old(self)@, id, session@);
        }
        Ok(())
    }

    /// Looks for an id that is not in use, trying up to [`ID_ATTEMPTS`]
    /// fresh ids. An empty store always yields one.
    pub fn get_vacant_id(&self) -> (r: Option<SessionID>)
        ensures
            r is Some ==> !self@.sessions.contains_key(r->0),
            r is None ==> exists|id: SessionID| self@.sessions.contains_key(id),
    {
        let mut attempt: u32 = 0;
        while attempt < ID_ATTEMPTS
            invariant
                attempt > 0 ==> exists|id: SessionID| self@.sessions.contains_key(id),
            decreases ID_ATTEMPTS - attempt,
        {
            let id = fresh_id();
            if !map_contains(&self.data, id) {
                return Some(id);
            }
            assert(self@.sessions.contains_key(id));
            attempt = attempt + 1;
        }
        None
    }

    /// Puts `session` under an id that was not in use and returns the id.
    /// Fails with `StoreFull`, leaving the store as it was, if no free id
    /// was found.
    pub fn insert_new(&mut self, session: Session) -> (r: Result<SessionID, StoreError>)
        requires
            old(self).wf(),
            session@.board.wf(),
        ensures
            final(self).wf(),
            match r {
                Ok(id) => !old(self)@.sessions.contains_key(id) && final(self)@ == old(
                    self,
                )@.with_session(id, session@),
                Err(e) => e == StoreError::StoreFull && final(self)@ == old(self)@ && exists|
                    id: SessionID,
                | old(self)@.sessions.contains_key(id),
            },
    {
        match self.get_vacant_id() {
            None => Err(StoreError::StoreFull),
            Some(id) => {
                let _ = map_insert(&mut self.data, id, session);
                proof {
                    lemma_with_session_wf(old(self)@, id, session@);
                }
                Ok(id)
            },
        }
    }

    /// Starts a session on `board` at the time `now`, in seconds since the
    /// Unix epoch: the session runs out at `now` plus the lifetime.
    pub fn create(&mut self, board: Board, now: i64) -> (r: Result<SessionID, StoreError>)
        requires
            old(self).wf(),
            board.wf(),
        ensures
            final(self).wf(),
            match r {
                Ok(id) => !old(self)@.sessions.contains_key(id) && final(self)@ == old(
                    self,
                )@.with_session(id, old(self)@.session_at(board@, now as int)),
                Err(e) => e == StoreError::StoreFull && final(self)@ == old(self)@ && exists|
                    id: SessionID,
                | old(self)@.sessions.contains_key(id),
            },
    {
        let expires = now as i128 + self.session_lifetime as i128;
        self.insert_new(Session::new(board, expires))
    }

    /// Starts a session on `board` now, by the wall clock.
    pub fn new_session(&mut self, board: Board) -> (r: Result<SessionID, StoreError>)
        requires
            old(self).wf(),
            board.wf(),
        ensures
            final(self).wf(),
            match r {
                Ok(id) => !old(self)@.sessions.contains_key(id) && exists|now: i64|
                    final(self)@ == old(self)@.with_session(
                        id,
                        #[trigger] old(self)@.session_at(board@, now as int),
                    ),
                Err(e) => e == StoreError::StoreFull && final(self)@ == old(self)@ && exists|
                    id: SessionID,
                | old(self)@.sessions.contains_key(id),
            },
    {
        let now = unix_now();
        self.create(board, now)
    }

    /// A copy of the session under `id`, if there is one. Whether the
    /// session has run out plays no part: until a sweep takes it, it is served.
    pub fn get_session(&self, id: SessionID) -> (r: Option<Session>)
        requires
            self.wf(),
        ensures
            r is Some <==> self@.sessions.contains_key(id),
            r is Some ==> r->0@ == self@.sessions[id] && r->0@.board.wf(),
    {
        let found = map_get(&self.data, id);
        proof {
            if found is Some {
                found->0.view_def();
            }
        }
        found
    }

    /// Removes the session under `id` at once. Fails with `NotFound` if
    /// there is none.
    pub fn remove_session(&mut self, id: SessionID) -> (r: Result<(), StoreError>)
        requires
            old(self).wf(),
        ensures
            final(self).wf(),
            final(self)@ == old(self)@.without(id),
            r is Ok <==> old(self)@.sessions.contains_key(id),
            r is Err ==> r == Err::<(), StoreError>(StoreError::NotFound),
    {
        let removed = map_remove(&mut self.data, id);
        proof {
            lemma_without_wf(old(self)@, id);
        }
        match removed {
            Some(_) => Ok(()),
            None => Err(StoreError::NotFound),
        }
    }

    /// Sweeps the store at the time `now`, in seconds since the Unix epoch:
    /// every session that runs out at `now` or earlier is removed.
    pub fn cleanup(&mut self, now: i64)
        requires
            old(self).wf(),
        ensures
            final(self).wf(),
            final(self)@ == old(self)@.swept(now as int),
    {
        map_retain_live(&mut self.data, now);
        proof {
            lemma_swept_wf(old(self)@, now as int);
        }
    }

    /// Sweeps the store now, by the wall clock.
    pub fn cleanup_now(&mut self)
        requires
            old(self).wf(),
        ensures
            final(self).wf(),
            exists|now: i64| final(self)@ == #[trigger] old(self)@.swept(now as int),
    {
        let now = unix_now();
        self.cleanup(now);
    }

    /// Plays one turn of the game `id`: a hit on `point`.
    ///
    /// Fails with `NotFound` if there is no such game, and with the board's
    /// refusal if it refuses the hit; the store is left as it was. Otherwise
    /// the hit is resolved on the game's board. A hit that wins the game
    /// removes its session.
    pub fn hit(&mut self, id: SessionID, point: Point) -> (r: Result<Turn, TurnError>)
        requires
            old(self).wf(),
        ensures
            final(self).wf(),
            r == old(self)@.turn_outcome(id, point),
            final(self)@ == old(self)@.after_turn(id, point),
    {
        let mut session = match map_remove(&mut self.data, id) {
            None => {
                assert(self@.sessions =~= old(self)@.sessions);
                return Err(TurnError::NotFound);
            },
            Some(session) => session,
        };
        let ghost before = session@;
        proof {
            session.view_def();
        }
        let outcome = session.board.hit(point);
        proof {
            session.view_def();
        }
        match outcome {
            Err(e) => {
                let _ = map_insert(&mut self.data, id, session);
                assert(self@.sessions =~= old(self)@.sessions);
                Err(TurnError::Hit(e))
            },
            Ok(diff) => {
                let win = session.board.is_win();
                if !win {
                    let _ = map_insert(&mut self.data, id, session);
                    assert(self@.sessions =~= old(self)@.after_turn(id, point).sessions);
                }
                Ok(Turn { diff, win })
            },
        }
    }
}

/// Adding a session on a well-formed board keeps the store well formed.
pub proof fn lemma_with_session_wf(store: StoreView, id: SessionID, session: SessionView)
    requires
        store.wf(),
        session.board.wf(),
    ensures
        store.with_session(id, session).wf(),
{
    let after = store.with_session(id, session);
    assert forall|k: SessionID| after.sessions.contains_key(k) implies (#[trigger] after.sessions[k]).board.wf() by {
        if k != id {
            assert(store.sessions.contains_key(k));
            assert(store.sessions[k].board.wf());
        }
    }
}

/// Removing a session keeps the store well formed.
pub proof fn lemma_without_wf(store: StoreView, id: SessionID)
    requires
        store.wf(),
    ensures
        store.without(id).wf(),
{
    let after = store.without(id);
    assert forall|k: SessionID| after.sessions.contains_key(k) implies (#[trigger] after.sessions[k]).board.wf() by {
        assert(store.sessions.contains_key(k));
        assert(store.sessions[k].board.wf());
    }
}

/// A sweep keeps the store well formed.
pub proof fn lemma_swept_wf(store: StoreView, now: int)
    requires
        store.wf(),
    ensures
        store.swept(now).wf(),
{
    let after = store.swept(now);
    assert forall|k: SessionID| after.sessions.contains_key(k) implies (#[trigger] after.sessions[k]).board.wf() by {
        assert(store.sessions.contains_key(k));
        assert(store.sessions[k].board.wf());
    }
}

/// A session can be had from its creation until a sweep finds that its time
/// has run out, or until it is removed: created at `created` in a store that
/// does not hold `id`, it is in the store; a sweep at any time before
/// `created` plus the lifetime leaves it there as it is; a sweep at that time
/// or later removes it; and removing it takes it out whatever the time.
pub proof fn lemma_session_lifetime(
    store: StoreView,
    id: SessionID,
    board: BoardView,
    created: int,
    now: int,
)
    ensures
        ({
            let session = store.session_at(board, created);
            let started = store.with_session(id, session);
            &&& started.sessions.contains_key(id)
            &&& started.sessions[id] == session
            &&& now < created + store.lifetime ==> started.swept(now).sessions.contains_key(id)
                && started.swept(now).sessions[id] == session
            &&& now >= created + store.lifetime ==> !started.swept(now).sessions.contains_key(id)
            &&& !started.without(id).sessions.contains_key(id)
        }),
{
}

/// A sweep touches no session that has time left, and neither a sweep nor a
/// removal touches a session under another id than the one concerned.
pub proof fn lemma_sweep_spares_the_live(store: StoreView, id: SessionID, other: SessionID, now: int)
    requires
        store.sessions.contains_key(id),
    ensures
        store.sessions[id].expires > now ==> store.swept(now).sessions.contains_key(id)
            && store.swept(now).sessions[id] == store.sessions[id],
        store.sessions[id].expires <= now ==> !store.swept(now).sessions.contains_key(id),
        other != id ==> store.without(other).sessions.contains_key(id) && store.without(
            other,
        ).sessions[id] == store.sessions[id],
{
}

} // verus!
