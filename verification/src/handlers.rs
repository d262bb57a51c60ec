//! Stable handler keys and the keyed handler tables.
//!
//! A tree definition names its leaves' behaviour by key; the code behind a
//! key is registered separately, once per application. The tables here are
//! generic over what is registered, so the library decides lookup and
//! replacement while the application supplies the callbacks.
use vstd::prelude::*;

use crate::text::same_text;

verus! {

/// Key of a registered action.
#[derive(Debug)]
pub struct ActionKey(pub String);

/// Key of a registered condition.
#[derive(Debug)]
pub struct ConditionKey(pub String);

/// Key of a registered service.
#[derive(Debug)]
pub struct ServiceKey(pub String);

impl Clone for ActionKey {
    fn clone(&self) -> (r: Self)
        ensures
            r == *self,
    {
        ActionKey(self.0.clone())
    }
}

impl Clone for ConditionKey {
    fn clone(&self) -> (r: Self)
        ensures
            r == *self,
    {
        ConditionKey(self.0.clone())
    }
}

impl Clone for ServiceKey {
    fn clone(&self) -> (r: Self)
        ensures
            r == *self,
    {
        ServiceKey(self.0.clone())
    }
}

impl From<String> for ActionKey {
    fn from(value: String) -> (r: Self) {
        ActionKey(value)
    }
}

impl vstd::std_specs::convert::FromSpecImpl<String> for ActionKey {
    open spec fn obeys_from_spec() -> bool {
        true
    }

    open spec fn from_spec(v: String) -> Self {
        ActionKey(v)
    }
}

impl From<String> for ConditionKey {
    fn from(value: String) -> (r: Self) {
        ConditionKey(value)
    }
}

impl vstd::std_specs::convert::FromSpecImpl<String> for ConditionKey {
    open spec fn obeys_from_spec() -> bool {
        true
    }

    open spec fn from_spec(v: String) -> Self {
        ConditionKey(v)
    }
}

impl From<String> for ServiceKey {
    fn from(value: String) -> (r: Self) {
        ServiceKey(value)
    }
}

impl vstd::std_specs::convert::FromSpecImpl<String> for ServiceKey {
    open spec fn obeys_from_spec() -> bool {
        true
    }

    open spec fn from_spec(v: String) -> Self {
        ServiceKey(v)
    }
}

/// A handler key, read as text.
pub trait HandlerKey {
    spec fn key_text(&self) -> Seq<char>;

    fn as_text(&self) -> (r: &str)
        ensures
            r@ == self.key_text(),
    ;
}

impl HandlerKey for ActionKey {
    open spec fn key_text(&self) -> Seq<char> {
        self.0@
    }

    fn as_text(&self) -> (r: &str) {
        self.0.as_str()
    }
}

impl HandlerKey for ConditionKey {
    open spec fn key_text(&self) -> Seq<char> {
        self.0@
    }

    fn as_text(&self) -> (r: &str) {
        self.0.as_str()
    }
}

impl HandlerKey for ServiceKey {
    open spec fn key_text(&self) -> Seq<char> {
        self.0@
    }

    fn as_text(&self) -> (r: &str) {
        self.0.as_str()
    }
}

/// The entries of a table as (key text, handler) pairs.
pub open spec fn entry_view<K: HandlerKey, H>(entries: Seq<(K, H)>) -> Seq<(Seq<char>, H)> {
    entries.map_values(|e: (K, H)| (e.0.key_text(), e.1))
}

/// `i` is the first entry registered under `key`.
pub open spec fn first_keyed<H>(entries: Seq<(Seq<char>, H)>, key: Seq<char>, i: int) -> bool {
    &&& 0 <= i < entries.len()
    &&& entries[i].0 == key
    &&& forall|j: int| 0 <= j < i ==> (#[trigger] entries[j]).0 != key
}

/// The position of the first entry under `key`, if any.
pub open spec fn keyed_position<H>(entries: Seq<(Seq<char>, H)>, key: Seq<char>) -> Option<int> {
    if exists|i: int| first_keyed(entries, key, i) {
        Some(choose|i: int| first_keyed(entries, key, i))
    } else {
        None
    }
}

/// The handler registered under `key`, if any.
pub open spec fn keyed_lookup<H>(entries: Seq<(Seq<char>, H)>, key: Seq<char>) -> Option<H> {
    match keyed_position(entries, key) {
        Some(i) => Some(entries[i].1),
        None => None,
    }
}

/// The entries after registering `handler` under `key`: it replaces the
/// handler of the first entry with that key, or is appended.
pub open spec fn registered<H>(entries: Seq<(Seq<char>, H)>, key: Seq<char>, handler: H) -> Seq<(Seq<char>, H)> {
    match keyed_position(entries, key) {
        Some(i) => entries.update(i, (key, handler)),
        None => entries.push((key, handler)),
    }
}

proof fn lemma_first_keyed_unique<H>(entries: Seq<(Seq<char>, H)>, key: Seq<char>, i: int, j: int)
    requires
        first_keyed(entries, key, i),
        first_keyed(entries, key, j),
    ensures
        i == j,
{
    if i < j {
        assert(entries[i].0 != key);
    } else if j < i {
        assert(entries[j].0 != key);
    }
}

fn find_keyed<K: HandlerKey, H>(entries: &Vec<(K, H)>, key: &str) -> (r: Option<usize>)
    ensures
        match r {
            Some(i) => keyed_position(entry_view(entries@), key@) == Some(i as int),
            None => keyed_position(entry_view(entries@), key@) is None,
        },
{
    let ghost v = entry_view(entries@);
    let mut i: usize = 0;
    while i < entries.len()
        invariant
            v == entry_view(entries@),
            i <= entries@.len(),
            forall|j: int| 0 <= j < i ==> (#[trigger] v[j]).0 != key@,
        decreases entries@.len() - i,
    {
        if same_text(entries[i].0.as_text(), key) {
            proof {
                assert(first_keyed(v, key@, i as int));
                let c = choose|c: int| first_keyed(v, key@, c);
                lemma_first_keyed_unique(v, key@, i as int, c);
            }
            return Some(i);
        }
        assert(v[i as int].0 == entries@[i as int].0.key_text());
        i = i + 1;
    }
    proof {
        assert forall|c: int| !first_keyed(v, key@, c) by {
            if 0 <= c < v.len() {
                assert(v[c].0 != key@);
            }
        }
    }
    None
}

fn register_keyed<K: HandlerKey, H>(entries: &mut Vec<(K, H)>, key: K, handler: H)
    ensures
        entry_view(final(entries)@) == registered(entry_view(old(entries)@), key.key_text(), handler),
{
    let ghost t = key.key_text();
    match find_keyed(entries, key.as_text()) {
        Some(i) => {
            entries[i].1 = handler;
            proof {
                assert(entry_view(entries@) =~= entry_view(old(entries)@).update(i as int, (t, handler)));
            }
        },
        None => {
            entries.push((key, handler));
            proof {
                assert(entry_view(entries@) =~= entry_view(old(entries)@).push((t, handler)));
            }
        },
    }
}

fn lookup_keyed<'a, K: HandlerKey, H>(entries: &'a Vec<(K, H)>, key: &str) -> (r: Option<&'a H>)
    ensures
        match r {
            Some(h) => keyed_lookup(entry_view(entries@), key@) == Some(*h),
            None => keyed_lookup(entry_view(entries@), key@) is None,
        },
{
    match find_keyed(entries, key) {
        Some(i) => Some(&entries[i].1),
        None => None,
    }
}

/// Looking up a key right after registering a handler under it gives that
/// handler.
pub proof fn law_lookup_after_register<H>(entries: Seq<(Seq<char>, H)>, key: Seq<char>, handler: H)
    ensures
        keyed_lookup(registered(entries, key, handler), key) == Some(handler),
{
    let after = registered(entries, key, handler);
    match keyed_position(entries, key) {
        Some(i) => {
            assert(first_keyed(after, key, i));
            let c = choose|c: int| first_keyed(after, key, c);
            lemma_first_keyed_unique(after, key, i, c);
        },
        None => {
            let n = entries.len() as int;
            assert forall|j: int| 0 <= j < n implies (#[trigger] after[j]).0 != key by {
                assert(after[j] == entries[j]);
                if entries[j].0 == key {
                    lemma_some_first(entries, key, j);
                }
            }
            assert(first_keyed(after, key, n));
            let c = choose|c: int| first_keyed(after, key, c);
            lemma_first_keyed_unique(after, key, n, c);
        },
    }
}

/// An entry under `key` means there is a first one.
proof fn lemma_some_first<H>(entries: Seq<(Seq<char>, H)>, key: Seq<char>, j: int)
    requires
        0 <= j < entries.len(),
        entries[j].0 == key,
    ensures
        exists|i: int| first_keyed(entries, key, i),
    decreases j,
{
    if forall|m: int| 0 <= m < j ==> (#[trigger] entries[m]).0 != key {
        assert(first_keyed(entries, key, j));
    } else {
        let m = choose|m: int| 0 <= m < j && (#[trigger] entries[m]).0 == key;
        lemma_some_first(entries, key, m);
    }
}

/// Registering under one key leaves what every other key finds unchanged.
pub proof fn law_register_keeps_other_keys<H>(
    entries: Seq<(Seq<char>, H)>,
    key: Seq<char>,
    handler: H,
    other: Seq<char>,
)
    requires
        other != key,
    ensures
        keyed_lookup(registered(entries, key, handler), other) == keyed_lookup(entries, other),
{
    let after = registered(entries, key, handler);
    assert(after.len() >= entries.len());
    assert forall|j: int| 0 <= j < entries.len() implies (#[trigger] after[j]).0 == entries[j].0 by {
        match keyed_position(entries, key) {
            Some(p) => {
                let p2 = choose|i: int| first_keyed(entries, key, i);
                assert(first_keyed(entries, key, p2));
            },
            None => {},
        }
    }
    assert(after.len() > entries.len() ==> after[entries.len() as int].0 == key);
    assert forall|i: int| #[trigger] first_keyed(after, other, i) implies first_keyed(entries, other, i) by {
        assert(after[i].0 == other);
        assert(i < entries.len());
        assert forall|j: int| 0 <= j < i implies (#[trigger] entries[j]).0 != other by {
            assert(after[j].0 != other);
        }
    }
    assert forall|i: int| #[trigger] first_keyed(entries, other, i) implies first_keyed(after, other, i) by {
        assert forall|j: int| 0 <= j < i implies (#[trigger] after[j]).0 != other by {
            assert(entries[j].0 != other);
        }
    }
    if exists|i: int| first_keyed(entries, other, i) {
        let i = choose|i: int| first_keyed(entries, other, i);
        assert(first_keyed(after, other, i));
        let c = choose|c: int| first_keyed(after, other, c);
        lemma_first_keyed_unique(after, other, i, c);
        assert(after[i].1 == entries[i].1 || after[i].0 == key);
    } else {
        assert forall|c: int| !first_keyed(after, other, c) by {
            if first_keyed(after, other, c) {
                assert(first_keyed(entries, other, c));
            }
        }
    }
}

/// The application's handlers, each registered under a stable key: actions,
/// conditions and services.
pub struct BehaviorTreeHandlers<A, C, S> {
    pub actions: Vec<(ActionKey, A)>,
    pub conditions: Vec<(ConditionKey, C)>,
    pub services: Vec<(ServiceKey, S)>,
}

impl<A, C, S> Default for BehaviorTreeHandlers<A, C, S> {
    fn default() -> (r: Self)
        ensures
            r.actions@.len() == 0,
            r.conditions@.len() == 0,
            r.services@.len() == 0,
    {
        BehaviorTreeHandlers { actions: Vec::new(), conditions: Vec::new(), services: Vec::new() }
    }
}

impl<A, C, S> BehaviorTreeHandlers<A, C, S> {
    /// Registers an action handler; one already under the key is replaced.
    pub fn register_action(&mut self, key: &str, handler: A)
        ensures
            entry_view(final(self).actions@) == registered(entry_view(old(self).actions@), key@, handler),
            final(self).conditions@ == old(self).conditions@,
            final(self).services@ == old(self).services@,
    {
        register_keyed(&mut self.actions, ActionKey(key.to_owned()), handler);
    }

    /// Registers a condition handler; one already under the key is replaced.
    pub fn register_condition(&mut self, key: &str, handler: C)
        ensures
            entry_view(final(self).conditions@) == registered(entry_view(old(self).conditions@), key@, handler),
            final(self).actions@ == old(self).actions@,
            final(self).services@ == old(self).services@,
    {
        register_keyed(&mut self.conditions, ConditionKey(key.to_owned()), handler);
    }

    /// Registers a service handler; one already under the key is replaced.
    pub fn register_service(&mut self, key: &str, handler: S)
        ensures
            entry_view(final(self).services@) == registered(entry_view(old(self).services@), key@, handler),
            final(self).actions@ == old(self).actions@,
            final(self).conditions@ == old(self).conditions@,
    {
        register_keyed(&mut self.services, ServiceKey(key.to_owned()), handler);
    }

    /// The action handler registered under `key`.
    pub fn action(&self, key: &ActionKey) -> (r: Option<&A>)
        ensures
            match r {
                Some(h) => keyed_lookup(entry_view(self.actions@), key.0@) == Some(*h),
                None => keyed_lookup(entry_view(self.actions@), key.0@) is None,
            },
    {
        lookup_keyed(&self.actions, key.0.as_str())
    }

    /// The condition handler registered under `key`.
    pub fn condition(&self, key: &ConditionKey) -> (r: Option<&C>)
        ensures
            match r {
                Some(h) => keyed_lookup(entry_view(self.conditions@), key.0@) == Some(*h),
                None => keyed_lookup(entry_view(self.conditions@), key.0@) is None,
            },
    {
        lookup_keyed(&self.conditions, key.0.as_str())
    }

    /// The service handler registered under `key`.
    pub fn service(&self, key: &ServiceKey) -> (r: Option<&S>)
        ensures
            match r {
                Some(h) => keyed_lookup(entry_view(self.services@), key.0@) == Some(*h),
                None => keyed_lookup(entry_view(self.services@), key.0@) is None,
            },
    {
        lookup_keyed(&self.services, key.0.as_str())
    }
}

/// Identifies one asynchronous completion of a running action.
#[derive(Clone, Copy, Debug, PartialEq, Eq, Structural, Hash)]
pub struct ActionTicket(pub u64);

} // verus!
