use vstd::prelude::*;

use crate::fingerprint::Fingerprint;
use crate::hashing::{hash_bytes, push_bytes, push_u128_le, push_u64_le, u128_le_bytes, u64_le_bytes, xxh3_of};

verus! {

/// A hybrid-logical-clock timestamp: a time value and the unique identifier of
/// the node that minted it. Timestamps are totally ordered by `(time, node_id)`.
///
/// The time value counts milliseconds since the epoch shared by all replicas.
#[derive(Clone, Copy, Debug, PartialEq, Eq, Structural)]
pub struct Timestamp {
    pub time: u64,
    pub node_id: u128,
}

impl Timestamp {
    /// The total order on timestamps: first by time, ties broken by node id.
    pub open spec fn spec_le(self, other: Timestamp) -> bool {
        self.time < other.time || (self.time == other.time && self.node_id <= other.node_id)
    }

    pub open spec fn spec_lt(self, other: Timestamp) -> bool {
        self.spec_le(other) && self != other
    }

    pub fn le(&self, other: &Timestamp) -> (r: bool)
        ensures
            r == self.spec_le(*other),
    {
        self.time < other.time || (self.time == other.time && self.node_id <= other.node_id)
    }
}

/// What a publication did to its key: wrote a value, or deleted it.
#[derive(Clone, Copy, Debug, PartialEq, Eq, Structural)]
pub enum Action {
    Put,
    Delete,
}

/// One publication: the (possibly prefix-stripped) key expression it happened
/// on, when it happened, what it did, and the fingerprint that summarises it.
///
/// The key is `None` when the publication's key expression equals the
/// configured prefix, so that stripping it leaves nothing.
#[derive(Debug, Clone)]
pub struct Event {
    pub maybe_stripped_key: Option<Vec<u8>>,
    pub timestamp: Timestamp,
    pub action: Action,
    pub fingerprint: Fingerprint,
}

/// The mathematical shadow of an [`Event`]: the same record with the key taken
/// as an abstract byte sequence, so that two events read equal exactly when
/// their contents are.
#[verifier::ext_equal]
pub struct EventModel {
    pub key: Option<Seq<u8>>,
    pub timestamp: Timestamp,
    pub action: Action,
    pub fingerprint: Fingerprint,
}

/// The bytes an event's fingerprint is computed over: the key bytes (empty
/// when there is no key), then the time, then the node id, both little-endian.
pub open spec fn fingerprint_input(key: Option<Seq<u8>>, ts: Timestamp) -> Seq<u8> {
    (match key {
        Some(k) => k,
        None => Seq::empty(),
    }) + u64_le_bytes(ts.time) + u128_le_bytes(ts.node_id)
}

/// The fingerprint of a publication on `key` at `ts`.
pub open spec fn event_fingerprint(key: Option<Seq<u8>>, ts: Timestamp) -> Fingerprint {
    Fingerprint { value: xxh3_of(fingerprint_input(key, ts)) }
}

impl Event {
    /// The key as an abstract byte sequence.
    pub open spec fn key(self) -> Option<Seq<u8>> {
        self.maybe_stripped_key.deep_view()
    }

    /// The event as a value record, for contracts and for the log's model.
    pub open spec fn model(self) -> EventModel {
        EventModel {
            key: self.key(),
            timestamp: self.timestamp,
            action: self.action,
            fingerprint: self.fingerprint,
        }
    }

    /// Creates a new event and computes its fingerprint from the key and the
    /// timestamp.
    pub fn new(key_expr: Option<Vec<u8>>, timestamp: Timestamp, action: Action) -> (r: Event)
        ensures
            r.maybe_stripped_key == key_expr,
            r.timestamp == timestamp,
            r.action == action,
            r.fingerprint == event_fingerprint(key_expr.deep_view(), timestamp),
    {
        let mut buf: Vec<u8> = Vec::new();
        match &key_expr {
            Some(k) => push_bytes(&mut buf, k),
            None => (),
        }
        push_u64_le(&mut buf, timestamp.time);
        push_u128_le(&mut buf, timestamp.node_id);
        proof {
            assert(buf@ =~= fingerprint_input(key_expr.deep_view(), timestamp));
        }
        let value = hash_bytes(&buf);
        Event { maybe_stripped_key: key_expr, timestamp, action, fingerprint: Fingerprint { value } }
    }

    /// Returns a reference to the key expression of this event, `None` when
    /// the stored key was stripped down to nothing by the configured prefix.
    pub fn key_expr(&self) -> (r: &Option<Vec<u8>>)
        ensures
            *r == self.maybe_stripped_key,
    {
        &self.maybe_stripped_key
    }

    /// Returns the timestamp of this event.
    pub fn timestamp(&self) -> (r: &Timestamp)
        ensures
            *r == self.timestamp,
    {
        &self.timestamp
    }

    /// Returns the fingerprint of this event.
    pub fn fingerprint(&self) -> (r: Fingerprint)
        ensures
            r == self.fingerprint,
    {
        self.fingerprint
    }
}

/// Copies an optional key, byte for byte.
pub fn clone_key(key: &Option<Vec<u8>>) -> (r: Option<Vec<u8>>)
    ensures
        r.deep_view() == key.deep_view(),
{
    match key {
        None => None,
        Some(bytes) => {
            let mut out: Vec<u8> = Vec::new();
            push_bytes(&mut out, bytes);
            proof {
                assert(out.deep_view() =~= bytes.deep_view());
            }
            Some(out)
        },
    }
}

/// Copies an event; the copy carries the same key, timestamp, action and
/// fingerprint.
pub fn clone_event(event: &Event) -> (r: Event)
    ensures
        r.model() == event.model(),
{
    Event {
        maybe_stripped_key: clone_key(&event.maybe_stripped_key),
        timestamp: event.timestamp,
        action: event.action,
        fingerprint: event.fingerprint,
    }
}

/// Compares two byte vectors by contents.
pub fn bytes_eq(a: &Vec<u8>, b: &Vec<u8>) -> (r: bool)
    ensures
        r == (a@ == b@),
{
    if a.len() != b.len() {
        return false;
    }
    let mut i: usize = 0;
    while i < a.len()
        invariant
            a@.len() == b@.len(),
            i <= a@.len(),
            forall|j: int| 0 <= j < i ==> a@[j] == b@[j],
        decreases a@.len() - i,
    {
        if a[i] != b[i] {
            return false;
        }
        i = i + 1;
    }
    proof {
        assert(a@ =~= b@);
    }
    true
}

/// Compares two optional keys by contents.
pub fn keys_eq(a: &Option<Vec<u8>>, b: &Option<Vec<u8>>) -> (r: bool)
    ensures
        r == (a.deep_view() == b.deep_view()),
{
    match (a, b) {
        (None, None) => true,
        (Some(ka), Some(kb)) => {
            proof {
                assert(ka.deep_view() =~= ka@);
                assert(kb.deep_view() =~= kb@);
            }
            bytes_eq(ka, kb)
        },
        _ => false,
    }
}

impl PartialEq for Event {
    fn eq(&self, other: &Event) -> (r: bool) {
        keys_eq(&self.maybe_stripped_key, &other.maybe_stripped_key)
            && self.timestamp == other.timestamp && self.action == other.action
            && self.fingerprint == other.fingerprint
    }
}

impl Eq for Event {}

impl vstd::std_specs::cmp::PartialEqSpecImpl for Event {
    open spec fn obeys_eq_spec() -> bool {
        true
    }

    open spec fn eq_spec(&self, other: &Event) -> bool {
        self.model() =~= other.model()
    }
}

/// The outcome of inserting an event in the replication log.
///
/// - `New(event)`: no event with that key was tracked; the event was inserted.
/// - `ReplacedOlder(old)`: an older event with the same key was replaced; the
///   removed event is returned.
/// - `NotInsertedAsOlder`: an event with the same key and a timestamp at least
///   as recent is already tracked; nothing changed.
/// - `NotInsertedAsOutOfBound`: the event's timestamp is so far in the future
///   that it cannot be classified; the event was not inserted.
#[derive(Debug, Clone)]
pub enum EventInsertion {
    New(Event),
    ReplacedOlder(Event),
    NotInsertedAsOlder,
    NotInsertedAsOutOfBound,
}

impl PartialEq for EventInsertion {
    fn eq(&self, other: &EventInsertion) -> (r: bool) {
        match (self, other) {
            (EventInsertion::New(a), EventInsertion::New(b)) => a == b,
            (EventInsertion::ReplacedOlder(a), EventInsertion::ReplacedOlder(b)) => a == b,
            (EventInsertion::NotInsertedAsOlder, EventInsertion::NotInsertedAsOlder) => true,
            (EventInsertion::NotInsertedAsOutOfBound, EventInsertion::NotInsertedAsOutOfBound) => true,
            _ => false,
        }
    }
}

impl Eq for EventInsertion {}

impl vstd::std_specs::cmp::PartialEqSpecImpl for EventInsertion {
    open spec fn obeys_eq_spec() -> bool {
        true
    }

    open spec fn eq_spec(&self, other: &EventInsertion) -> bool {
        match (self, other) {
            (EventInsertion::New(a), EventInsertion::New(b)) => a.model() =~= b.model(),
            (EventInsertion::ReplacedOlder(a), EventInsertion::ReplacedOlder(b)) => a.model()
                =~= b.model(),
            (EventInsertion::NotInsertedAsOlder, EventInsertion::NotInsertedAsOlder) => true,
            (EventInsertion::NotInsertedAsOutOfBound, EventInsertion::NotInsertedAsOutOfBound) => true,
            _ => false,
        }
    }
}

} // verus!
