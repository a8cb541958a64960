//! The registry of live Sessions, by Client ID.
//!
//! A Session has a set of attached Connections. Detaching the last one removes the Session in the
//! same step.

use vstd::prelude::*;
use std::collections::HashMap;
use dashmap::DashMap;
use crate::bytes::law_number_bytes;
use crate::bytes::number_of;
use crate::ids::ClientId;
use crate::rpc::following;
use crate::session::init::Config;
use crate::session::init::InitRequest;
use crate::session::init::RegisteredFunction;
use crate::session::init::registration_views;

verus! {

/// One Connection's attachment. Local to this run of the Daemon.
#[derive(Debug, Clone, Copy, PartialEq, Eq, Hash, PartialOrd, Ord, Structural)]
pub struct ConnectionId(pub u64);

impl ConnectionId {
    /// The counter's value.
    pub fn get(self) -> (r: u64)
        ensures
            r == self.0,
    {
        self.0
    }
}

/// A Backend's Session: its Config, its Registered Functions, and the Connections attached to it.
#[derive(Debug)]
pub struct Session {
    config: Config,
    registrations: Vec<RegisteredFunction>,
    connections: HashMap<u64, ()>,
}

/// What a [`Session`] is.
#[verifier::ext_equal]
pub ghost struct SessionView {
    pub registrations: Seq<(Seq<char>, bool)>,
    pub connections: Set<u64>,
}

impl View for Session {
    type V = SessionView;

    closed spec fn view(&self) -> SessionView {
        SessionView { registrations: registration_views(self.registrations@), connections: self.connections@.dom() }
    }
}

/// What can be read of a Session.
pub struct Facts {
    /// How many Connections are attached.
    pub attached: usize,
    /// The Registered Functions, each with whether it holds a blanket grant.
    pub registrations: Vec<(String, bool)>,
}

/// Some names with their grants.
pub open spec fn grants_view(list: Seq<(String, bool)>) -> Seq<(Seq<char>, bool)> {
    Seq::new(list.len(), |i: int| (list[i].0@, list[i].1))
}

/// Whether facts are those of a Session.
pub open spec fn describes(facts: Facts, session: SessionView) -> bool {
    &&& session.connections.finite()
    &&& facts.attached == session.connections.len()
    &&& grants_view(facts.registrations@) == session.registrations
}

impl Session {
    /// What can be read of the Session.
    pub fn facts(&self) -> (r: Facts)
        ensures
            describes(r, self@),
    {
        broadcast use vstd::std_specs::hash::group_hash_axioms;

        let mut registrations: Vec<(String, bool)> = Vec::new();
        let mut i: usize = 0;
        while i < self.registrations.len()
            invariant
                i <= self.registrations@.len(),
                registrations@.len() == i,
                forall|k: int| 0 <= k < i ==> (#[trigger] registrations@[k]).0@ == self.registrations@[k]@.0
                    && registrations@[k].1 == self.registrations@[k]@.1,
            decreases self.registrations.len() - i,
        {
            registrations.push((self.registrations[i].name().to_owned(), self.registrations[i].blanket()));
            i = i + 1;
        }
        proof {
            assert(grants_view(registrations@) =~= self@.registrations);
        }
        Facts { attached: self.connections.len(), registrations }
    }
}

/// `dashmap::DashMap`: a concurrent hash map.
#[verifier::external_type_specification]
#[verifier::external_body]
#[verifier::reject_recursive_types(K)]
#[verifier::reject_recursive_types(V)]
#[verifier::reject_recursive_types(S)]
pub struct ExDashMap<K, V, S>(DashMap<K, V, S>);

/// The Sessions that a map holds.
pub uninterp spec fn live_in(map: DashMap<u128, Session>) -> Map<u128, SessionView>;

/// No Session at all.
pub open spec fn no_sessions() -> Map<u128, SessionView> {
    Map::empty()
}

/// `DashMap::new`: a map with nothing in it.
#[verifier::external_body]
fn new_map() -> (r: DashMap<u128, Session>)
    ensures
        live_in(r) == no_sessions(),
{
    DashMap::new()
}

/// `DashMap::insert`: the Session is under its key, in place of any that was.
#[verifier::external_body]
fn map_insert(map: &mut DashMap<u128, Session>, key: u128, session: Session)
    ensures
        live_in(*final(map)) == live_in(*old(map)).insert(key, session@),
{
    map.insert(key, session);
}

/// `DashMap::remove`: the Session under the key comes out, if there is one.
#[verifier::external_body]
fn map_remove(map: &mut DashMap<u128, Session>, key: u128) -> (r: Option<Session>)
    ensures
        live_in(*final(map)) == live_in(*old(map)).remove(key),
        match r {
            Some(session) => live_in(*old(map)).dom().contains(key) && session@ == live_in(*old(map))[key],
            None => !live_in(*old(map)).dom().contains(key),
        },
{
    map.remove(&key).map(|entry| entry.1)
}

/// `DashMap::contains_key`: whether there is a Session under the key.
#[verifier::external_body]
fn map_contains(map: &DashMap<u128, Session>, key: u128) -> (r: bool)
    ensures
        r == live_in(*map).dom().contains(key),
{
    map.contains_key(&key)
}

/// `DashMap::get`: the facts of the Session under the key, if there is one.
#[verifier::external_body]
fn map_facts(map: &DashMap<u128, Session>, key: u128) -> (r: Option<Facts>)
    ensures
        match r {
            Some(facts) => live_in(*map).dom().contains(key) && describes(facts, live_in(*map)[key]),
            None => !live_in(*map).dom().contains(key),
        },
{
    map.get(&key).map(|session| session.facts())
}

/// Whether there are `n` keys.
pub open spec fn keys_counted(keys: Set<u128>, n: usize) -> bool {
    keys.finite() && keys.len() == n
}

/// `DashMap::len`: how many Sessions there are, which is finitely many.
#[verifier::external_body]
fn map_len(map: &DashMap<u128, Session>) -> (r: usize)
    ensures
        keys_counted(live_in(*map).dom(), r),
{
    map.len()
}

/// `getrandom::fill`: sixteen bytes from the operating system's random number generator, or `None`
/// when it cannot be read. Nothing is said of which.
#[verifier::external_body]
fn draw() -> (r: Option<[u8; 16]>)
{
    let mut bytes = [0_u8; 16];
    getrandom::fill(&mut bytes).ok().map(|_| bytes)
}

/// What a registry is: the live Sessions, and the next Connection's id.
#[verifier::ext_equal]
pub ghost struct SessionsView {
    pub live: Map<u128, SessionView>,
    pub next: u64,
}

/// The registry of live Sessions. One per run of the Daemon.
pub struct Sessions {
    sessions: DashMap<u128, Session>,
    next_connection: u64,
}

impl View for Sessions {
    type V = SessionsView;

    closed spec fn view(&self) -> SessionsView {
        SessionsView { live: live_in(self.sessions), next: self.next_connection }
    }
}

/// The key of a Client ID: its bytes as one number.
pub open spec fn key_of(id: Seq<u8>) -> u128 {
    number_of(id) as u128
}

proof fn lemma_reach()
    ensures
        crate::bytes::reach(16) == 0x1_0000_0000_0000_0000_0000_0000_0000_0000,
{
    reveal_with_fuel(crate::bytes::reach, 17);
}

/// No two Client IDs share a key.
pub proof fn law_keys_differ(a: Seq<u8>, b: Seq<u8>)
    requires
        a.len() == 16,
        b.len() == 16,
        key_of(a) == key_of(b),
    ensures
        a == b,
{
    lemma_reach();
    law_number_bytes(0, 0, a);
    law_number_bytes(0, 0, b);
}

fn key(id: &ClientId) -> (r: u128)
    ensures
        r == key_of(id@),
        id@.len() == 16,
{
    let bytes = id.as_bytes();
    let mut n: u128 = 0;
    let mut i: usize = 0;
    proof {
        assert(bytes@.take(0) =~= Seq::empty());
    }
    while i < 16
        invariant
            i <= 16,
            bytes@.len() == 16,
            n == number_of(bytes@.take(i as int)),
        decreases 16 - i,
    {
        proof {
            let next = bytes@.take(i + 1);
            assert(next.drop_last() =~= bytes@.take(i as int));
            law_number_bytes(0, 0, next);
            lemma_reach_small(i + 1);
        }
        n = n * 256 + bytes[i] as u128;
        i = i + 1;
    }
    proof {
        assert(bytes@.take(16) =~= bytes@);
    }
    n
}

proof fn lemma_reach_small(n: int)
    requires
        0 <= n <= 16,
    ensures
        crate::bytes::reach(n as nat) <= 0x1_0000_0000_0000_0000_0000_0000_0000_0000,
    decreases 16 - n,
{
    lemma_reach();
    if n < 16 {
        lemma_reach_small(n + 1);
    }
}

/// Why a Session was not created.
pub enum CreateFailure {
    /// The random number generator cannot be read: no id may be issued.
    NoRandomness,
    /// As many ids as can be counted were drawn, and each belongs to a live Session; here is the
    /// request back.
    Exhausted(InitRequest),
}

impl Sessions {
    /// An empty registry.
    pub fn new() -> (r: Self)
        ensures
            r@ == (SessionsView { live: no_sessions(), next: 0 }),
    {
        Sessions { sessions: new_map(), next_connection: 0 }
    }

    /// Issue an id for a Connection that opened.
    pub fn connect(&mut self) -> (r: ConnectionId)
        ensures
            r.0 == old(self)@.next,
            final(self)@ == (SessionsView { next: following(old(self)@.next), ..old(self)@ }),
    {
        let id: u64 = self.next_connection;
        self.next_connection = if id == u64::MAX {
            0
        } else {
            id + 1
        };
        ConnectionId(id)
    }

    /// Create a Session under a given id with one Connection attached. A live Session is never
    /// overwritten: the request comes back.
    pub fn create_as(&mut self, init: InitRequest, connection: ConnectionId, id: &ClientId) -> (r: Result<(), InitRequest>)
        ensures
            old(self)@.live.dom().contains(key_of(id@)) ==> (r matches Err(back) && back == init) && final(self)@
                == old(self)@,
            !old(self)@.live.dom().contains(key_of(id@)) ==> r is Ok && final(self)@ == (SessionsView {
                live: old(self)@.live.insert(
                    key_of(id@),
                    SessionView { registrations: init@, connections: Set::empty().insert(connection.0) },
                ),
                ..old(self)@
            }),
    {
        broadcast use vstd::std_specs::hash::group_hash_axioms;

        let key = key(id);
        if map_contains(&self.sessions, key) {
            return Err(init);
        }
        let ghost registered = init@;
        let (config, registrations) = init.into_parts();
        let mut connections: HashMap<u64, ()> = HashMap::new();
        connections.insert(connection.0, ());
        let session = Session { config, registrations, connections };
        proof {
            assert(session@ =~= SessionView {
                registrations: registered,
                connections: Set::empty().insert(connection.0),
            });
        }
        map_insert(&mut self.sessions, key, session);
        Ok(())
    }

    /// Create a Session with one Connection attached, under an id drawn from the operating system's
    /// random number generator. An id that a live Session has is drawn again. Nothing is said of
    /// which id it is, nor of whether the generator can be read.
    pub fn create(&mut self, init: InitRequest, connection: ConnectionId) -> (r: Result<ClientId, CreateFailure>)
        ensures
            match r {
                Ok(id) => !old(self)@.live.dom().contains(key_of(id@)) && final(self)@ == (SessionsView {
                    live: old(self)@.live.insert(
                        key_of(id@),
                        SessionView { registrations: init@, connections: Set::empty().insert(connection.0) },
                    ),
                    ..old(self)@
                }),
                Err(CreateFailure::NoRandomness) => final(self)@ == old(self)@,
                Err(CreateFailure::Exhausted(back)) => back == init && final(self)@ == old(self)@,
            },
    {
        let mut request = init;
        let mut left: u64 = u64::MAX;
        while left > 0
            invariant
                request == init,
                self@ == old(self)@,
            decreases left,
        {
            let id = match draw() {
                Some(bytes) => ClientId::from_bytes(bytes),
                None => {
                    return Err(CreateFailure::NoRandomness);
                },
            };
            match self.create_as(request, connection, &id) {
                Ok(()) => {
                    return Ok(id);
                },
                Err(back) => {
                    request = back;
                },
            }
            left = left - 1;
        }
        Err(CreateFailure::Exhausted(request))
    }

    /// Attach one more Connection to a live Session. `None` when no Session has this id.
    pub fn attach(&mut self, id: &ClientId) -> (r: Option<ConnectionId>)
        ensures
            !old(self)@.live.dom().contains(key_of(id@)) ==> r is None && final(self)@ == old(self)@,
            old(self)@.live.dom().contains(key_of(id@)) ==> (r matches Some(connection) && connection.0
                == old(self)@.next) && final(self)@ == (SessionsView {
                live: old(self)@.live.insert(
                    key_of(id@),
                    SessionView {
                        connections: old(self)@.live[key_of(id@)].connections.insert(old(self)@.next),
                        ..old(self)@.live[key_of(id@)]
                    },
                ),
                next: following(old(self)@.next),
            }),
    {
        broadcast use vstd::std_specs::hash::group_hash_axioms;

        let key = key(id);
        let mut session = match map_remove(&mut self.sessions, key) {
            Some(session) => session,
            None => {
                proof {
                    assert(self@.live =~= old(self)@.live);
                }
                return None;
            },
        };
        let connection = self.connect();
        let ghost before = session@;
        session.connections.insert(connection.0, ());
        proof {
            assert(session@ =~= SessionView { connections: before.connections.insert(connection.0), ..before });
        }
        map_insert(&mut self.sessions, key, session);
        proof {
            assert(self@.live =~= old(self)@.live.insert(key, session@));
        }
        Some(connection)
    }

    /// Detach a Connection from its Session. When it was the last one attached, the Session is
    /// removed. Detaching a Connection that is not attached, or from a Session that is not there,
    /// does nothing.
    pub fn detach(&mut self, id: &ClientId, connection: ConnectionId)
        ensures
            final(self)@ == detached(old(self)@, key_of(id@), connection.0),
    {
        broadcast use vstd::std_specs::hash::group_hash_axioms;

        let key = key(id);
        let mut session = match map_remove(&mut self.sessions, key) {
            Some(session) => session,
            None => {
                proof {
                    assert(self@.live =~= old(self)@.live);
                }
                return;
            },
        };
        let ghost before = session@;
        let was_attached = session.connections.remove(&connection.0).is_some();
        proof {
            assert(session@.connections =~= before.connections.remove(connection.0));
            assert(session@ =~= SessionView { connections: before.connections.remove(connection.0), ..before });
        }
        if was_attached && session.connections.len() == 0 {
            proof {
                assert(session@.connections =~= Set::empty());
            }
            return;
        }
        map_insert(&mut self.sessions, key, session);
        proof {
            if !was_attached {
                assert(session@ =~= before);
                assert(self@.live =~= old(self)@.live);
            } else {
                assert(self@.live =~= old(self)@.live.insert(key, session@));
            }
        }
    }

    /// Whether a Session with this id is live.
    pub fn contains(&self, id: &ClientId) -> (r: bool)
        ensures
            r == self@.live.dom().contains(key_of(id@)),
    {
        map_contains(&self.sessions, key(id))
    }

    /// How many Connections a Session has attached; `None` when it does not exist.
    pub fn attached(&self, id: &ClientId) -> (r: Option<usize>)
        ensures
            match r {
                Some(n) => self@.live.dom().contains(key_of(id@)) && n == self@.live[key_of(id@)].connections.len()
                    && self@.live[key_of(id@)].connections.finite(),
                None => !self@.live.dom().contains(key_of(id@)),
            },
    {
        match map_facts(&self.sessions, key(id)) {
            Some(facts) => Some(facts.attached),
            None => None,
        }
    }

    /// A Session's Registered Functions with their grants, in registration order; `None` when it
    /// does not exist.
    pub fn registrations(&self, id: &ClientId) -> (r: Option<Vec<(String, bool)>>)
        ensures
            match r {
                Some(list) => self@.live.dom().contains(key_of(id@)) && grants_view(list@)
                    == self@.live[key_of(id@)].registrations,
                None => !self@.live.dom().contains(key_of(id@)),
            },
    {
        match map_facts(&self.sessions, key(id)) {
            Some(facts) => Some(facts.registrations),
            None => None,
        }
    }

    /// The names of a Session's Registered Functions, in registration order; `None` when it does not
    /// exist.
    pub fn registration_names(&self, id: &ClientId) -> (r: Option<Vec<String>>)
        ensures
            match r {
                Some(names) => {
                    let registrations = self@.live[key_of(id@)].registrations;
                    &&& self@.live.dom().contains(key_of(id@))
                    &&& names@.len() == registrations.len()
                    &&& forall|i: int| 0 <= i < names@.len() ==> (#[trigger] names@[i])@ == registrations[i].0
                },
                None => !self@.live.dom().contains(key_of(id@)),
            },
    {
        let list = match self.registrations(id) {
            Some(list) => list,
            None => {
                return None;
            },
        };
        let ghost views = grants_view(list@);
        let mut names: Vec<String> = Vec::new();
        let mut i: usize = 0;
        while i < list.len()
            invariant
                i <= list@.len(),
                names@.len() == i,
                views == grants_view(list@),
                forall|k: int| 0 <= k < i ==> (#[trigger] names@[k])@ == views[k].0,
            decreases list.len() - i,
        {
            proof {
                assert(views[i as int].0 == list@[i as int].0@);
            }
            names.push(list[i].0.as_str().to_owned());
            i = i + 1;
        }
        Some(names)
    }

    /// How many Sessions are live.
    pub fn len(&self) -> (r: usize)
        ensures
            r == self@.live.len(),
            self@.live.dom().finite(),
    {
        map_len(&self.sessions)
    }

    /// Whether no Session is live.
    pub fn is_empty(&self) -> (r: bool)
        ensures
            r == (self@.live == no_sessions()),
    {
        let n = map_len(&self.sessions);
        proof {
            if n == 0 {
                assert(self@.live.dom() =~= Set::empty());
                assert(self@.live =~= no_sessions());
            }
        }
        n == 0
    }
}

impl Default for Sessions {
    fn default() -> (r: Self)
        ensures
            r@ == (SessionsView { live: no_sessions(), next: 0 }),
    {
        Sessions::new()
    }
}

/// A registry without one attachment: a Session that has no other is gone with it.
pub open spec fn detached(sessions: SessionsView, key: u128, connection: u64) -> SessionsView {
    if !sessions.live.dom().contains(key) || !sessions.live[key].connections.contains(connection) {
        sessions
    } else {
        let left = sessions.live[key].connections.remove(connection);
        SessionsView {
            live: if left == Set::<u64>::empty() {
                sessions.live.remove(key)
            } else {
                sessions.live.insert(key, SessionView { connections: left, ..sessions.live[key] })
            },
            ..sessions
        }
    }
}

/// Whether every live Session has a Connection attached.
pub open spec fn all_attached(sessions: SessionsView) -> bool {
    forall|key: u128|
        #[trigger] sessions.live.dom().contains(key) ==> sessions.live[key].connections != Set::<u64>::empty()
}

/// A Session lives exactly as long as a Connection is attached: creating and attaching keep one
/// attached to every live Session, and so does detaching, which removes the Session with its last.
pub proof fn law_live_means_attached(sessions: SessionsView, key: u128, connection: u64, session: SessionView)
    requires
        all_attached(sessions),
        session.connections != Set::<u64>::empty(),
    ensures
        all_attached((SessionsView { live: no_sessions(), next: 0 })),
        all_attached((SessionsView { live: sessions.live.insert(key, session), ..sessions })),
        all_attached(detached(sessions, key, connection)),
        sessions.live.dom().contains(key) && sessions.live[key].connections == Set::empty().insert(connection)
            ==> !detached(sessions, key, connection).live.dom().contains(key),
{
    let left = sessions.live[key].connections.remove(connection);
    if sessions.live[key].connections == Set::empty().insert(connection) {
        assert(sessions.live[key].connections.contains(connection));
        assert(left =~= Set::<u64>::empty());
    }
}

/// A connection that leaves is gone from its Session and from no other: the Session stays with the connections that it
/// still has, and with its registrations, and every other Session stays as it is.
pub proof fn law_leaving(sessions: SessionsView, key: u128, connection: u64, other: u128, c: u64)
    requires
        sessions.live.dom().contains(key),
        sessions.live[key].connections.contains(connection),
    ensures
        detached(sessions, key, connection).next == sessions.next,
        other != key ==> detached(sessions, key, connection).live.dom().contains(other) == sessions.live.dom().contains(other)
            && detached(sessions, key, connection).live[other] == sessions.live[other],
        c != connection && sessions.live[key].connections.contains(c) ==> detached(sessions, key, connection).live.dom().contains(
            key,
        ) && detached(sessions, key, connection).live[key].registrations == sessions.live[key].registrations && detached(
            sessions,
            key,
            connection,
        ).live[key].connections.contains(c) && !detached(sessions, key, connection).live[key].connections.contains(connection),
{
    let left = sessions.live[key].connections.remove(connection);
    if c != connection && sessions.live[key].connections.contains(c) {
        assert(left.contains(c));
    }
}

} // verus!
