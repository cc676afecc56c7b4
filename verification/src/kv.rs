//! The authenticated key/value store: flat string pairs, unique per
//! (owner, key), with mutation gated by an allow-list of identities and
//! an explicit override switch.

use vstd::prelude::*;
use vstd::string::StringExecFns;
use crate::assoc::{
    assoc_at, assoc_del, assoc_get, assoc_get_or, assoc_has, assoc_put, keys_distinct,
    lemma_assoc_at_unique, lemma_assoc_del, lemma_assoc_put,
};
use crate::caller::{principal_of_text, text_of_principal, CallerId};

verus! {

/// Why a request was rejected.
#[derive(Clone, Copy, PartialEq, Eq, Structural, Debug)]
pub enum OpError {
    /// The guard denied a mutating call.
    Unauthorized,
    /// A textual identity argument could not be parsed.
    MalformedInput,
}

impl OpError {
    /// The human-readable reason reported to the caller.
    pub fn message(&self) -> (r: String)
        ensures
            *self is Unauthorized ==> r@ == "operation restricted to authorized identities."@,
            *self is MalformedInput ==> r@ == "not a valid textual identity."@,
    {
        match self {
            OpError::Unauthorized => String::from_str(
                "operation restricted to authorized identities.",
            ),
            OpError::MalformedInput => String::from_str("not a valid textual identity."),
        }
    }
}

/// The outcome of a mutating key/value operation.
#[derive(Clone, Copy, PartialEq, Eq, Structural, Debug)]
pub enum Status {
    /// The operation took effect.
    Done,
    /// A create hit a key that is already present.
    AlreadyExists,
    /// An update or removal found nothing to touch.
    NoMatch,
}

/// One stored key/value pair.
#[derive(Clone, Debug, PartialEq, Eq)]
pub struct KvPair {
    pub key: String,
    pub value: String,
}

impl View for KvPair {
    type V = (Seq<char>, Seq<char>);

    open spec fn view(&self) -> (Seq<char>, Seq<char>) {
        (self.key@, self.value@)
    }
}

impl DeepView for KvPair {
    type V = (Seq<char>, Seq<char>);

    open spec fn deep_view(&self) -> (Seq<char>, Seq<char>) {
        self.view()
    }
}

/// One owner's slot in the key/value store.
struct OwnerEntries {
    owner: CallerId,
    entries: Vec<KvPair>,
}

/// The authenticated store: key/value pairs per owner, an allow-list of
/// identities permitted to mutate, and the authorization override
/// switch.
pub struct KvStore {
    owners: Vec<OwnerEntries>,
    users: Vec<CallerId>,
    override_on: bool,
}

/// The pairs stored under owner `o`, empty when `o` has no slot.
pub open spec fn entries_of(
    s: Seq<(Seq<u8>, Seq<(Seq<char>, Seq<char>)>)>,
    o: Seq<u8>,
) -> Seq<(Seq<char>, Seq<char>)> {
    assoc_get_or(s, o, Seq::empty())
}

/// The value stored under `(o, k)`, if any.
pub open spec fn value_of(
    s: Seq<(Seq<u8>, Seq<(Seq<char>, Seq<char>)>)>,
    o: Seq<u8>,
    k: Seq<char>,
) -> Option<Seq<char>> {
    if assoc_has(s, o) && assoc_has(assoc_get(s, o), k) {
        Some(assoc_get(assoc_get(s, o), k))
    } else {
        None
    }
}

/// The store after owner `o` creates `(k, v)`: unchanged when `k` is
/// already present for `o`, else the pair is appended to `o`'s slot
/// (created on first write).
pub open spec fn store_after_kv_add(
    s: Seq<(Seq<u8>, Seq<(Seq<char>, Seq<char>)>)>,
    o: Seq<u8>,
    k: Seq<char>,
    v: Seq<char>,
) -> Seq<(Seq<u8>, Seq<(Seq<char>, Seq<char>)>)> {
    if assoc_has(entries_of(s, o), k) {
        s
    } else {
        assoc_put(s, o, entries_of(s, o).push((k, v)))
    }
}

/// The status a create reports: a conflict exactly when the key is
/// already present.
pub open spec fn kv_add_status(
    s: Seq<(Seq<u8>, Seq<(Seq<char>, Seq<char>)>)>,
    o: Seq<u8>,
    k: Seq<char>,
) -> Status {
    if assoc_has(entries_of(s, o), k) {
        Status::AlreadyExists
    } else {
        Status::Done
    }
}

/// The store after owner `o` overwrites `k` with `v`: unchanged unless
/// `(o, k)` already exists.
pub open spec fn store_after_kv_update(
    s: Seq<(Seq<u8>, Seq<(Seq<char>, Seq<char>)>)>,
    o: Seq<u8>,
    k: Seq<char>,
    v: Seq<char>,
) -> Seq<(Seq<u8>, Seq<(Seq<char>, Seq<char>)>)> {
    if value_of(s, o, k) is Some {
        assoc_put(s, o, assoc_put(assoc_get(s, o), k, v))
    } else {
        s
    }
}

/// The status an update reports: no match unless `(o, k)` exists.
pub open spec fn kv_update_status(
    s: Seq<(Seq<u8>, Seq<(Seq<char>, Seq<char>)>)>,
    o: Seq<u8>,
    k: Seq<char>,
) -> Status {
    if value_of(s, o, k) is Some {
        Status::Done
    } else {
        Status::NoMatch
    }
}

/// The store after owner `o` removes `k`: the pair is dropped when
/// present; the owner's slot stays, possibly empty.
pub open spec fn store_after_kv_remove(
    s: Seq<(Seq<u8>, Seq<(Seq<char>, Seq<char>)>)>,
    o: Seq<u8>,
    k: Seq<char>,
) -> Seq<(Seq<u8>, Seq<(Seq<char>, Seq<char>)>)> {
    if value_of(s, o, k) is Some {
        assoc_put(s, o, assoc_del(assoc_get(s, o), k))
    } else {
        s
    }
}

/// The status a removal reports: no match unless `(o, k)` exists.
pub open spec fn kv_remove_status(
    s: Seq<(Seq<u8>, Seq<(Seq<char>, Seq<char>)>)>,
    o: Seq<u8>,
    k: Seq<char>,
) -> Status {
    if value_of(s, o, k) is Some {
        Status::Done
    } else {
        Status::NoMatch
    }
}

impl KvStore {
    /// The primary store: owner bytes and that owner's pairs, in
    /// first-write order.
    pub closed spec fn store(self) -> Seq<(Seq<u8>, Seq<(Seq<char>, Seq<char>)>)> {
        self.owners@.map_values(|e: OwnerEntries| (e.owner@, e.entries.deep_view()))
    }

    /// The allow-list, in grant order.
    pub closed spec fn user_views(self) -> Seq<Seq<u8>> {
        self.users@.map_values(|c: CallerId| c@)
    }

    /// Whether the override switch disables the guard.
    pub closed spec fn override_enabled(self) -> bool {
        self.override_on
    }

    /// Each owner has one slot, each key is unique within a slot, and
    /// the allow-list holds no identity twice.
    pub open spec fn wf(self) -> bool {
        &&& keys_distinct(self.store())
        &&& forall|i: int|
            0 <= i < self.store().len() ==> keys_distinct((#[trigger] self.store()[i]).1)
        &&& forall|i: int, j: int|
            0 <= i < j < self.user_views().len() ==> (#[trigger] self.user_views()[i])
                != (#[trigger] self.user_views()[j])
    }

    /// Whether `c` may mutate: on the allow-list, or the override switch
    /// is on.
    pub open spec fn allowed(self, c: Seq<u8>) -> bool {
        self.user_views().contains(c) || self.override_enabled()
    }

    /// An empty store whose allow-list is seeded with the initializing
    /// identity.
    pub fn new(initial: &CallerId, override_on: bool) -> (r: KvStore)
        ensures
            r.wf(),
            r.store() == Seq::<(Seq<u8>, Seq<(Seq<char>, Seq<char>)>)>::empty(),
            r.user_views() == seq![initial@],
            r.override_enabled() == override_on,
    {
        let mut users: Vec<CallerId> = Vec::new();
        users.push(initial.duplicate());
        let r = KvStore { owners: Vec::new(), users, override_on };
        proof {
            assert(r.store() =~= Seq::<(Seq<u8>, Seq<(Seq<char>, Seq<char>)>)>::empty());
            assert(r.user_views() =~= seq![initial@]);
        }
        r
    }

    /// The position of `caller` on the allow-list.
    fn find_user(&self, caller: &CallerId) -> (r: Option<usize>)
        ensures
            match r {
                Some(i) => i < self.user_views().len() && self.user_views()[i as int] == caller@,
                None => !self.user_views().contains(caller@),
            },
    {
        let n = self.users.len();
        let mut i: usize = 0;
        while i < n
            invariant
                i <= n,
                n == self.users@.len(),
                n == self.user_views().len(),
                forall|j: int| 0 <= j < i ==> (#[trigger] self.user_views()[j]) != caller@,
            decreases n - i,
        {
            if self.users[i].same_as(caller) {
                return Some(i);
            }
            i = i + 1;
        }
        proof {
            if self.user_views().contains(caller@) {
                let j = choose|j: int|
                    0 <= j < self.user_views().len() && self.user_views()[j] == caller@;
                assert(self.user_views()[j] == caller@);
            }
        }
        None
    }

    /// The authorization guard: allow a caller on the allow-list, allow
    /// anyone when the override switch is on, and otherwise deny.
    pub fn check_access(&self, caller: &CallerId) -> (r: Result<(), OpError>)
        ensures
            r is Ok <==> self.allowed(caller@),
            r is Err ==> r == Err::<(), OpError>(OpError::Unauthorized),
    {
        match self.find_user(caller) {
            Some(_) => {
                proof {
                    assert(self.user_views().contains(caller@));
                }
                Ok(())
            },
            None => {
                if self.override_on {
                    Ok(())
                } else {
                    Err(OpError::Unauthorized)
                }
            },
        }
    }

    /// Grant `new_user` the right to mutate.  Only an allowed caller may
    /// grant; the allow-list never shrinks and holds no identity twice.
    pub fn add_user(&mut self, caller: &CallerId, new_user: CallerId) -> (r: Result<(), OpError>)
        requires
            old(self).wf(),
        ensures
            final(self).wf(),
            final(self).store() == old(self).store(),
            final(self).override_enabled() == old(self).override_enabled(),
            old(self).allowed(caller@) ==> r == Ok::<(), OpError>(()) && final(self).user_views()
                == (if old(self).user_views().contains(new_user@) {
                old(self).user_views()
            } else {
                old(self).user_views().push(new_user@)
            }),
            !old(self).allowed(caller@) ==> r == Err::<(), OpError>(OpError::Unauthorized)
                && final(self).user_views() == old(self).user_views(),
    {
        match self.check_access(caller) {
            Err(e) => Err(e),
            Ok(_) => {
                match self.find_user(&new_user) {
                    Some(_) => {
                        proof {
                            assert(self.user_views().contains(new_user@));
                        }
                        Ok(())
                    },
                    None => {
                        proof {
                            if self.user_views().contains(new_user@) {
                                let j = choose|j: int|
                                    0 <= j < self.user_views().len() && self.user_views()[j]
                                        == new_user@;
                                assert(self.user_views()[j] == new_user@);
                            }
                        }
                        let ghost prior = self.user_views();
                        self.users.push(new_user);
                        proof {
                            assert(self.user_views() =~= prior.push(new_user@));
                            assert(self.store() =~= old(self).store());
                            assert forall|a: int, b: int|
                                0 <= a < b < self.user_views().len() implies (
                            #[trigger] self.user_views()[a]) != (
                            #[trigger] self.user_views()[b]) by {
                                if b < prior.len() {
                                } else {
                                    assert(self.user_views()[b] == new_user@);
                                    assert(!prior.contains(new_user@));
                                    assert(prior[a] != new_user@) by {
                                        if prior[a] == new_user@ {
                                            assert(prior.contains(new_user@));
                                        }
                                    }
                                }
                            }
                        }
                        Ok(())
                    },
                }
            },
        }
    }

    /// The position of `caller`'s slot in the primary store.
    fn find_entry(&self, caller: &CallerId) -> (r: Option<usize>)
        requires
            self.wf(),
        ensures
            match r {
                Some(i) => i < self.store().len() && assoc_has(self.store(), caller@)
                    && assoc_at(self.store(), caller@) == i,
                None => !assoc_has(self.store(), caller@),
            },
    {
        let n = self.owners.len();
        let mut i: usize = 0;
        while i < n
            invariant
                i <= n,
                n == self.owners@.len(),
                self.wf(),
                n == self.store().len(),
                forall|j: int| 0 <= j < i ==> (#[trigger] self.store()[j]).0 != caller@,
            decreases n - i,
        {
            if self.owners[i].owner.same_as(caller) {
                proof {
                    assert(self.store()[i as int].0 == caller@);
                    lemma_assoc_at_unique(self.store(), i as int);
                }
                return Some(i);
            }
            i = i + 1;
        }
        proof {
            if assoc_has(self.store(), caller@) {
                let j = assoc_at(self.store(), caller@);
                assert(self.store()[j].0 == caller@);
            }
        }
        None
    }

    /// The caller's own textual identity; only an allowed caller may ask.
    pub fn get_self(&self, caller: &CallerId) -> (r: Result<String, OpError>)
        requires
            caller.wf(),
        ensures
            match r {
                Ok(t) => self.allowed(caller@) && t@ == text_of_principal(caller@),
                Err(e) => !self.allowed(caller@) && e == OpError::Unauthorized,
            },
    {
        match self.check_access(caller) {
            Err(e) => Err(e),
            Ok(_) => Ok(caller.to_text()),
        }
    }

    /// The value the caller stored under `key`, if any.  Reads are not
    /// gated.
    pub fn get(&self, caller: &CallerId, key: &String) -> (r: Option<String>)
        requires
            self.wf(),
        ensures
            match r {
                Some(v) => value_of(self.store(), caller@, key@) == Some(v@),
                None => value_of(self.store(), caller@, key@) is None,
            },
    {
        match self.find_entry(caller) {
            None => None,
            Some(i) => {
                proof {
                    assert(keys_distinct(self.store()[i as int].1));
                }
                match find_key(&self.owners[i].entries, key) {
                    None => None,
                    Some(j) => Some(self.owners[i].entries[j].value.clone()),
                }
            },
        }
    }

    /// The caller's full key/value collection as a list of pairs, absent
    /// when the caller has no slot.  Reads are not gated.
    pub fn get_all(&self, caller: &CallerId) -> (r: Option<Vec<KvPair>>)
        requires
            self.wf(),
        ensures
            match r {
                Some(v) => assoc_has(self.store(), caller@) && v.deep_view() == assoc_get(
                    self.store(),
                    caller@,
                ),
                None => !assoc_has(self.store(), caller@),
            },
    {
        match self.find_entry(caller) {
            None => None,
            Some(i) => Some(duplicate_pairs(&self.owners[i].entries)),
        }
    }

    /// The key/value collection of the owner a textual identity names.
    /// A malformed identity fails this one request and touches nothing.
    pub fn get_by_id(&self, id: &String) -> (r: Result<Option<Vec<KvPair>>, OpError>)
        requires
            self.wf(),
        ensures
            r is Err ==> principal_of_text(id@) is None && r == Err::<
                Option<Vec<KvPair>>,
                OpError,
            >(OpError::MalformedInput),
            r matches Ok(opt) ==> principal_of_text(id@) matches Some(o) && (match opt {
                Some(v) => assoc_has(self.store(), o) && v.deep_view() == assoc_get(
                    self.store(),
                    o,
                ),
                None => !assoc_has(self.store(), o),
            }),
    {
        match CallerId::from_text(id.as_str()) {
            None => Err(OpError::MalformedInput),
            Some(owner) => Ok(self.get_all(&owner)),
        }
    }

    /// Create `(key, value)` for the caller: rejected for a caller the
    /// guard denies, a conflict when the key already exists (the stored
    /// value stays), and otherwise the pair is appended to the caller's
    /// slot, created on first write.
    pub fn add(&mut self, caller: &CallerId, key: String, value: String) -> (r: Result<
        Status,
        OpError,
    >)
        requires
            old(self).wf(),
        ensures
            final(self).wf(),
            final(self).user_views() == old(self).user_views(),
            final(self).override_enabled() == old(self).override_enabled(),
            match r {
                Ok(st) => old(self).allowed(caller@) && st == kv_add_status(
                    old(self).store(),
                    caller@,
                    key@,
                ) && final(self).store() == store_after_kv_add(
                    old(self).store(),
                    caller@,
                    key@,
                    value@,
                ),
                Err(e) => !old(self).allowed(caller@) && e == OpError::Unauthorized && final(self).store()
                    == old(self).store(),
            },
    {
        let ghost s = self.store();
        if let Err(e) = self.check_access(caller) {
            return Err(e);
        }
        let found = self.find_entry(caller);
        match found {
            Some(i) => {
                proof {
                    assert(keys_distinct(s[i as int].1));
                    assert(entries_of(s, caller@) == s[i as int].1);
                }
                if let Some(_) = find_key(&self.owners[i].entries, &key) {
                    return Ok(Status::AlreadyExists);
                }
                let ghost inner = entries_of(s, caller@);
                let mut e = self.owners.remove(i);
                e.entries.push(KvPair { key, value });
                self.owners.insert(i, e);
                proof {
                    let i = i as int;
                    let pair = (key@, value@);
                    assert(self.owners@ =~= old(self).owners@.update(i, self.owners@[i]));
                    assert(self.owners@[i].entries.deep_view() =~= inner.push(pair));
                    assert(self.store() =~= assoc_put(s, caller@, inner.push(pair)));
                    assert(self.user_views() =~= old(self).user_views());
                    lemma_assoc_put(s, caller@, inner.push(pair));
                    lemma_assoc_put(inner, key@, value@);
                    assert(keys_distinct(inner.push(pair)));
                    assert forall|ix: int| 0 <= ix < self.store().len() implies keys_distinct(
                        (#[trigger] self.store()[ix]).1,
                    ) by {
                        if ix != i {
                            assert(self.store()[ix] == s[ix]);
                        }
                    }
                }
                Ok(Status::Done)
            },
            None => {
                proof {
                    assert(entries_of(s, caller@) =~= Seq::<(Seq<char>, Seq<char>)>::empty());
                }
                let ghost inner = entries_of(s, caller@);
                let mut entries: Vec<KvPair> = Vec::new();
                entries.push(KvPair { key, value });
                self.owners.push(OwnerEntries { owner: caller.duplicate(), entries });
                proof {
                    let pair = (key@, value@);
                    assert(self.owners@[s.len() as int].entries.deep_view() =~= inner.push(pair));
                    assert(self.store() =~= assoc_put(s, caller@, inner.push(pair)));
                    assert(self.user_views() =~= old(self).user_views());
                    lemma_assoc_put(s, caller@, inner.push(pair));
                    lemma_assoc_put(inner, key@, value@);
                    assert(keys_distinct(inner.push(pair)));
                    assert forall|ix: int| 0 <= ix < self.store().len() implies keys_distinct(
                        (#[trigger] self.store()[ix]).1,
                    ) by {
                        if ix < s.len() {
                            assert(self.store()[ix] == s[ix]);
                        }
                    }
                }
                Ok(Status::Done)
            },
        }
    }

    /// Overwrite the caller's value under `key`: rejected for a caller
    /// the guard denies, no match when `(caller, key)` does not exist,
    /// and otherwise the stored value becomes `value`.
    pub fn update(&mut self, caller: &CallerId, key: String, value: String) -> (r: Result<
        Status,
        OpError,
    >)
        requires
            old(self).wf(),
        ensures
            final(self).wf(),
            final(self).user_views() == old(self).user_views(),
            final(self).override_enabled() == old(self).override_enabled(),
            match r {
                Ok(st) => old(self).allowed(caller@) && st == kv_update_status(
                    old(self).store(),
                    caller@,
                    key@,
                ) && final(self).store() == store_after_kv_update(
                    old(self).store(),
                    caller@,
                    key@,
                    value@,
                ),
                Err(e) => !old(self).allowed(caller@) && e == OpError::Unauthorized && final(self).store()
                    == old(self).store(),
            },
    {
        let ghost s = self.store();
        if let Err(e) = self.check_access(caller) {
            return Err(e);
        }
        let found = self.find_entry(caller);
        match found {
            None => Ok(Status::NoMatch),
            Some(i) => {
                proof {
                    assert(keys_distinct(s[i as int].1));
                }
                let ghost inner = entries_of(s, caller@);
                let found_key = find_key(&self.owners[i].entries, &key);
                match found_key {
                    None => Ok(Status::NoMatch),
                    Some(j) => {
                        let mut e = self.owners.remove(i);
                        e.entries.remove(j);
                        e.entries.insert(j, KvPair { key, value });
                        self.owners.insert(i, e);
                        proof {
                            let i = i as int;
                            let j = j as int;
                            assert(self.owners@ =~= old(self).owners@.update(i, self.owners@[i]));
                            assert(self.owners@[i].entries@ =~= old(self).owners@[i].entries@
                                .update(j, self.owners@[i].entries@[j]));
                            assert(self.owners@[i].entries.deep_view() =~= assoc_put(
                                inner,
                                key@,
                                value@,
                            ));
                            assert(self.store() =~= assoc_put(
                                s,
                                caller@,
                                assoc_put(inner, key@, value@),
                            ));
                            assert(self.user_views() =~= old(self).user_views());
                            lemma_assoc_put(s, caller@, assoc_put(inner, key@, value@));
                            lemma_assoc_put(inner, key@, value@);
                            assert forall|ix: int|
                                0 <= ix < self.store().len() implies keys_distinct(
                                (#[trigger] self.store()[ix]).1,
                            ) by {
                                if ix != i {
                                    assert(self.store()[ix] == s[ix]);
                                }
                            }
                        }
                        Ok(Status::Done)
                    },
                }
            },
        }
    }

    /// Remove the caller's pair under `key`: rejected for a caller the
    /// guard denies, no match when `(caller, key)` does not exist, and
    /// otherwise the pair is dropped — the caller's slot stays, possibly
    /// empty.
    pub fn remove(&mut self, caller: &CallerId, key: &String) -> (r: Result<Status, OpError>)
        requires
            old(self).wf(),
        ensures
            final(self).wf(),
            final(self).user_views() == old(self).user_views(),
            final(self).override_enabled() == old(self).override_enabled(),
            match r {
                Ok(st) => old(self).allowed(caller@) && st == kv_remove_status(
                    old(self).store(),
                    caller@,
                    key@,
                ) && final(self).store() == store_after_kv_remove(
                    old(self).store(),
                    caller@,
                    key@,
                ),
                Err(e) => !old(self).allowed(caller@) && e == OpError::Unauthorized && final(self).store()
                    == old(self).store(),
            },
    {
        let ghost s = self.store();
        if let Err(e) = self.check_access(caller) {
            return Err(e);
        }
        let found = self.find_entry(caller);
        match found {
            None => Ok(Status::NoMatch),
            Some(i) => {
                proof {
                    assert(keys_distinct(s[i as int].1));
                }
                let ghost inner = entries_of(s, caller@);
                let found_key = find_key(&self.owners[i].entries, key);
                match found_key {
                    None => Ok(Status::NoMatch),
                    Some(j) => {
                        let mut e = self.owners.remove(i);
                        e.entries.remove(j);
                        self.owners.insert(i, e);
                        proof {
                            let i = i as int;
                            let j = j as int;
                            assert(self.owners@ =~= old(self).owners@.update(i, self.owners@[i]));
                            assert(self.owners@[i].entries.deep_view() =~= assoc_del(inner, key@));
                            assert(self.store() =~= assoc_put(s, caller@, assoc_del(inner, key@)));
                            assert(self.user_views() =~= old(self).user_views());
                            lemma_assoc_put(s, caller@, assoc_del(inner, key@));
                            lemma_assoc_del(inner, key@);
                            assert forall|ix: int|
                                0 <= ix < self.store().len() implies keys_distinct(
                                (#[trigger] self.store()[ix]).1,
                            ) by {
                                if ix != i {
                                    assert(self.store()[ix] == s[ix]);
                                }
                            }
                        }
                        Ok(Status::Done)
                    },
                }
            },
        }
    }
}

/// The position of `key` in one owner's pair list.
fn find_key(v: &Vec<KvPair>, key: &String) -> (r: Option<usize>)
    requires
        keys_distinct(v.deep_view()),
    ensures
        match r {
            Some(j) => j < v.deep_view().len() && assoc_has(v.deep_view(), key@) && assoc_at(
                v.deep_view(),
                key@,
            ) == j,
            None => !assoc_has(v.deep_view(), key@),
        },
{
    let n = v.len();
    let mut i: usize = 0;
    while i < n
        invariant
            i <= n,
            n == v@.len(),
            keys_distinct(v.deep_view()),
            n == v.deep_view().len(),
            forall|j: int| 0 <= j < i ==> (#[trigger] v.deep_view()[j]).0 != key@,
        decreases n - i,
    {
        if v[i].key == *key {
            proof {
                assert(v.deep_view()[i as int].0 == key@);
                lemma_assoc_at_unique(v.deep_view(), i as int);
            }
            return Some(i);
        }
        proof {
            assert(v.deep_view()[i as int].0 == v@[i as int].key@);
        }
        i = i + 1;
    }
    proof {
        if assoc_has(v.deep_view(), key@) {
            let j = assoc_at(v.deep_view(), key@);
            assert(v.deep_view()[j].0 == key@);
        }
    }
    None
}

/// An identical copy of one owner's pair list.
fn duplicate_pairs(v: &Vec<KvPair>) -> (r: Vec<KvPair>)
    ensures
        r.deep_view() == v.deep_view(),
{
    let mut out: Vec<KvPair> = Vec::new();
    let n = v.len();
    let mut i: usize = 0;
    while i < n
        invariant
            i <= n,
            n == v@.len(),
            out@.len() == i,
            forall|j: int| 0 <= j < i ==> out@[j]@ == v@[j]@,
        decreases n - i,
    {
        out.push(KvPair { key: v[i].key.clone(), value: v[i].value.clone() });
        i = i + 1;
    }
    proof {
        assert(out.deep_view() =~= v.deep_view());
    }
    out
}

/// Creating a fresh key stores its value; a second create of the same
/// key reports the conflict and leaves the store as it was; an update
/// afterwards overwrites the value.
pub proof fn lemma_kv_create_conflict_update(
    s: Seq<(Seq<u8>, Seq<(Seq<char>, Seq<char>)>)>,
    o: Seq<u8>,
    k: Seq<char>,
    v: Seq<char>,
    v2: Seq<char>,
)
    requires
        keys_distinct(s),
        forall|i: int| 0 <= i < s.len() ==> keys_distinct((#[trigger] s[i]).1),
        !assoc_has(entries_of(s, o), k),
    ensures
        kv_add_status(s, o, k) == Status::Done,
        value_of(store_after_kv_add(s, o, k, v), o, k) == Some(v),
        kv_add_status(store_after_kv_add(s, o, k, v), o, k) == Status::AlreadyExists,
        store_after_kv_add(store_after_kv_add(s, o, k, v), o, k, v2) == store_after_kv_add(
            s,
            o,
            k,
            v,
        ),
        value_of(store_after_kv_update(store_after_kv_add(s, o, k, v), o, k, v2), o, k) == Some(
            v2,
        ),
{
    let inner = entries_of(s, o);
    let inner1 = inner.push((k, v));
    let s1 = store_after_kv_add(s, o, k, v);
    lemma_assoc_put(s, o, inner1);
    lemma_assoc_put(inner, k, v);
    assert(assoc_put(inner, k, v) == inner1);
    assert(s1 == assoc_put(s, o, inner1));
    assert(entries_of(s1, o) == inner1);
    assert(value_of(s1, o, k) == Some(v));
    let inner2 = assoc_put(inner1, k, v2);
    let s2 = store_after_kv_update(s1, o, k, v2);
    lemma_assoc_put(inner1, k, v2);
    lemma_assoc_put(s1, o, inner2);
    assert(s2 == assoc_put(s1, o, inner2));
    assert(entries_of(s2, o) == inner2);
    assert(value_of(s2, o, k) == Some(v2));
}

/// Removing an absent key reports no match and leaves the store as it
/// was; removing a present key deletes exactly it, so a subsequent
/// lookup of that key is absent while every other pair of every owner
/// stays.
pub proof fn lemma_kv_remove_effect(
    s: Seq<(Seq<u8>, Seq<(Seq<char>, Seq<char>)>)>,
    o: Seq<u8>,
    k: Seq<char>,
)
    requires
        keys_distinct(s),
        forall|i: int| 0 <= i < s.len() ==> keys_distinct((#[trigger] s[i]).1),
    ensures
        value_of(s, o, k) is None ==> kv_remove_status(s, o, k) == Status::NoMatch
            && store_after_kv_remove(s, o, k) == s,
        value_of(s, o, k) is Some ==> kv_remove_status(s, o, k) == Status::Done && value_of(
            store_after_kv_remove(s, o, k),
            o,
            k,
        ) is None,
        forall|k2: Seq<char>|
            k2 != k ==> #[trigger] value_of(store_after_kv_remove(s, o, k), o, k2) == value_of(
                s,
                o,
                k2,
            ),
        forall|o2: Seq<u8>, k2: Seq<char>|
            o2 != o ==> #[trigger] value_of(store_after_kv_remove(s, o, k), o2, k2) == value_of(
                s,
                o2,
                k2,
            ),
{
    let t = store_after_kv_remove(s, o, k);
    if value_of(s, o, k) is Some {
        let inner = assoc_get(s, o);
        let i = assoc_at(s, o);
        assert(keys_distinct(s[i].1));
        lemma_assoc_del(inner, k);
        lemma_assoc_put(s, o, assoc_del(inner, k));
        assert(entries_of(t, o) == assoc_del(inner, k));
        assert(value_of(t, o, k) is None);
        assert forall|k2: Seq<char>| k2 != k implies #[trigger] value_of(t, o, k2) == value_of(
            s,
            o,
            k2,
        ) by {
            assert(assoc_has(assoc_del(inner, k), k2) == assoc_has(inner, k2));
        }
        assert forall|o2: Seq<u8>, k2: Seq<char>| o2 != o implies #[trigger] value_of(t, o2, k2)
            == value_of(s, o2, k2) by {
            assert(assoc_has(t, o2) == assoc_has(s, o2));
        }
    }
}

/// With the override switch off, a caller outside the allow-list is not
/// allowed to mutate: the mutating operations' contracts then report
/// the rejection and leave the store unchanged.
pub proof fn lemma_unlisted_caller_denied(st: KvStore, c: Seq<u8>)
    requires
        !st.user_views().contains(c),
        !st.override_enabled(),
    ensures
        !st.allowed(c),
{
}

} // verus!
