//! The open profile book: every caller keeps a growable list of
//! profiles, and a global name index remembers, for each profile name,
//! the identity that last registered it.
//!
//! Mutation is not gated here: any caller may append to its own list,
//! and the name index is readable across owners.

use vstd::prelude::*;
use crate::assoc::{
    assoc_at, assoc_del, assoc_get, assoc_get_or, assoc_has, assoc_put, keys_distinct,
    lemma_assoc_at_unique, lemma_assoc_put,
};
use crate::caller::CallerId;
use crate::text::{contains_text, is_substring, lower_of, lowercase};

verus! {

/// A structured record: a name, a description, and keyword tokens.
pub struct Profile {
    pub name: String,
    pub description: String,
    pub keywords: Vec<String>,
}

/// The mathematical value of a [`Profile`].
#[verifier::ext_equal]
pub struct ProfileView {
    pub name: Seq<char>,
    pub description: Seq<char>,
    pub keywords: Seq<Seq<char>>,
}

impl View for Profile {
    type V = ProfileView;

    open spec fn view(&self) -> ProfileView {
        ProfileView {
            name: self.name@,
            description: self.description@,
            keywords: self.keywords.deep_view(),
        }
    }
}

impl DeepView for Profile {
    type V = ProfileView;

    open spec fn deep_view(&self) -> ProfileView {
        self.view()
    }
}

impl Profile {
    /// An identical copy of this profile.
    pub fn duplicate(&self) -> (r: Profile)
        ensures
            r@ == self@,
    {
        let mut kws: Vec<String> = Vec::new();
        let n = self.keywords.len();
        let mut i: usize = 0;
        while i < n
            invariant
                i <= n,
                n == self.keywords@.len(),
                kws@.len() == i,
                forall|j: int| 0 <= j < i ==> kws@[j] == self.keywords@[j],
            decreases n - i,
        {
            kws.push(self.keywords[i].clone());
            i = i + 1;
        }
        let r = Profile { name: self.name.clone(), description: self.description.clone(), keywords: kws };
        proof {
            assert(r.keywords.deep_view() =~= self.keywords.deep_view());
            assert(r@ =~= self@);
        }
        r
    }
}

/// An identical copy of a profile list.
fn duplicate_profiles(v: &Vec<Profile>) -> (r: Vec<Profile>)
    ensures
        r.deep_view() == v.deep_view(),
{
    let mut out: Vec<Profile> = Vec::new();
    let n = v.len();
    let mut i: usize = 0;
    while i < n
        invariant
            i <= n,
            n == v@.len(),
            out@.len() == i,
            forall|j: int| 0 <= j < i ==> out@[j]@ == v@[j]@,
        decreases n - i,
    {
        out.push(v[i].duplicate());
        i = i + 1;
    }
    proof {
        assert(out.deep_view() =~= v.deep_view());
    }
    out
}

/// One owner's slot in the primary store.
struct OwnerRecords {
    owner: CallerId,
    records: Vec<Profile>,
}

/// One registration in the name index.
struct NameOwner {
    name: String,
    owner: CallerId,
}

/// The profile book: a primary store keyed by owner identity and a name
/// index keyed by profile name.
pub struct ProfileBook {
    entries: Vec<OwnerRecords>,
    names: Vec<NameOwner>,
}

/// The profiles stored under owner `o`, empty when `o` never stored any.
pub open spec fn records_of(s: Seq<(Seq<u8>, Seq<ProfileView>)>, o: Seq<u8>) -> Seq<ProfileView> {
    assoc_get_or(s, o, Seq::empty())
}

/// The identity the index resolves `name` to, if any.
pub open spec fn resolve(idx: Seq<(Seq<char>, Seq<u8>)>, name: Seq<char>) -> Option<Seq<u8>> {
    if assoc_has(idx, name) {
        Some(assoc_get(idx, name))
    } else {
        None
    }
}

/// The store after owner `o` adds profile `p`: `p` is appended to `o`'s
/// list (created when absent); no other owner's list changes.
pub open spec fn store_after_add(
    s: Seq<(Seq<u8>, Seq<ProfileView>)>,
    o: Seq<u8>,
    p: ProfileView,
) -> Seq<(Seq<u8>, Seq<ProfileView>)> {
    assoc_put(s, o, records_of(s, o).push(p))
}

/// A profile list with every profile of the given name dropped, order
/// otherwise kept.
pub open spec fn without_name(ps: Seq<ProfileView>, name: Seq<char>) -> Seq<ProfileView>
    decreases ps.len(),
{
    if ps.len() == 0 {
        Seq::empty()
    } else {
        let rest = without_name(ps.drop_last(), name);
        if ps.last().name == name {
            rest
        } else {
            rest.push(ps.last())
        }
    }
}

/// The store after owner `o` removes its profiles named `name`: a no-op
/// when `o` has no slot, even when nothing matches.
pub open spec fn store_after_remove(
    s: Seq<(Seq<u8>, Seq<ProfileView>)>,
    o: Seq<u8>,
    name: Seq<char>,
) -> Seq<(Seq<u8>, Seq<ProfileView>)> {
    if assoc_has(s, o) {
        assoc_put(s, o, without_name(assoc_get(s, o), name))
    } else {
        s
    }
}

/// The lowercased text `t` matches profile `p`: as a substring of the
/// lowercased name or description, or exactly equal to a lowercased
/// keyword.
pub open spec fn profile_matches(p: ProfileView, t: Seq<char>) -> bool {
    ||| is_substring(t, lower_of(p.name))
    ||| is_substring(t, lower_of(p.description))
    ||| exists|i: int| 0 <= i < p.keywords.len() && lower_of(#[trigger] p.keywords[i]) == t
}

/// Some profile of the list matches the lowercased text `t`.
pub open spec fn any_profile_matches(ps: Seq<ProfileView>, t: Seq<char>) -> bool {
    exists|i: int| 0 <= i < ps.len() && profile_matches(#[trigger] ps[i], t)
}

/// Every owner's collection, in store order.
pub open spec fn all_collections(s: Seq<(Seq<u8>, Seq<ProfileView>)>) -> Seq<Seq<ProfileView>> {
    s.map_values(|e: (Seq<u8>, Seq<ProfileView>)| e.1)
}

/// The first-match search result: the whole collection of the first
/// owner, in store order, holding a matching profile; absent when no
/// profile anywhere matches.
pub open spec fn spec_search(
    s: Seq<(Seq<u8>, Seq<ProfileView>)>,
    t: Seq<char>,
) -> Option<Seq<ProfileView>>
    decreases s.len(),
{
    if s.len() == 0 {
        None
    } else if any_profile_matches(s[0].1, t) {
        Some(s[0].1)
    } else {
        spec_search(s.drop_first(), t)
    }
}

impl ProfileBook {
    /// The primary store: owner bytes and that owner's profiles, in
    /// first-write order.
    pub closed spec fn store(self) -> Seq<(Seq<u8>, Seq<ProfileView>)> {
        self.entries@.map_values(|e: OwnerRecords| (e.owner@, e.records.deep_view()))
    }

    /// The name index: profile name and the owner that last registered
    /// it, in first-registration order.
    pub closed spec fn index(self) -> Seq<(Seq<char>, Seq<u8>)> {
        self.names@.map_values(|e: NameOwner| (e.name@, e.owner@))
    }

    /// Each owner has one slot; each name has one registration.
    pub open spec fn wf(self) -> bool {
        keys_distinct(self.store()) && keys_distinct(self.index())
    }

    /// What a lookup by name yields: the resolved owner's profiles, or
    /// nothing when the name is unregistered or the owner has no slot.
    pub open spec fn lookup_by_name(self, name: Seq<char>) -> Seq<ProfileView> {
        match resolve(self.index(), name) {
            Some(o) => records_of(self.store(), o),
            None => Seq::empty(),
        }
    }

    /// An empty book.
    pub fn new() -> (r: ProfileBook)
        ensures
            r.store() == Seq::<(Seq<u8>, Seq<ProfileView>)>::empty(),
            r.index() == Seq::<(Seq<char>, Seq<u8>)>::empty(),
            r.wf(),
    {
        let r = ProfileBook { entries: Vec::new(), names: Vec::new() };
        proof {
            assert(r.store() =~= Seq::<(Seq<u8>, Seq<ProfileView>)>::empty());
            assert(r.index() =~= Seq::<(Seq<char>, Seq<u8>)>::empty());
        }
        r
    }

    /// The position of `caller`'s slot in the primary store.
    fn find_entry(&self, caller: &CallerId) -> (r: Option<usize>)
        requires
            self.wf(),
        ensures
            match r {
                Some(i) => i < self.store().len() && assoc_has(self.store(), caller@)
                    && assoc_at(self.store(), caller@) == i,
                None => !assoc_has(self.store(), caller@),
            },
    {
        let n = self.entries.len();
        let mut i: usize = 0;
        while i < n
            invariant
                i <= n,
                n == self.entries@.len(),
                self.wf(),
                n == self.store().len(),
                forall|j: int| 0 <= j < i ==> (#[trigger] self.store()[j]).0 != caller@,
            decreases n - i,
        {
            if self.entries[i].owner.same_as(caller) {
                proof {
                    assert(self.store()[i as int].0 == caller@);
                    lemma_assoc_at_unique(self.store(), i as int);
                }
                return Some(i);
            }
            i = i + 1;
        }
        proof {
            if assoc_has(self.store(), caller@) {
                let j = assoc_at(self.store(), caller@);
                assert(self.store()[j].0 == caller@);
            }
        }
        None
    }

    /// The position of `name`'s registration in the name index.
    fn find_name(&self, name: &String) -> (r: Option<usize>)
        requires
            self.wf(),
        ensures
            match r {
                Some(i) => i < self.index().len() && assoc_has(self.index(), name@)
                    && assoc_at(self.index(), name@) == i,
                None => !assoc_has(self.index(), name@),
            },
    {
        let n = self.names.len();
        let mut i: usize = 0;
        while i < n
            invariant
                i <= n,
                n == self.names@.len(),
                self.wf(),
                n == self.index().len(),
                forall|j: int| 0 <= j < i ==> (#[trigger] self.index()[j]).0 != name@,
            decreases n - i,
        {
            if self.names[i].name == *name {
                proof {
                    assert(self.index()[i as int].0 == name@);
                    lemma_assoc_at_unique(self.index(), i as int);
                }
                return Some(i);
            }
            i = i + 1;
        }
        proof {
            if assoc_has(self.index(), name@) {
                let j = assoc_at(self.index(), name@);
                assert(self.index()[j].0 == name@);
            }
        }
        None
    }

    /// The caller's own profiles; empty when the caller stored none.
    pub fn get_self(&self, caller: &CallerId) -> (r: Vec<Profile>)
        requires
            self.wf(),
        ensures
            r.deep_view() == records_of(self.store(), caller@),
    {
        match self.find_entry(caller) {
            Some(i) => duplicate_profiles(&self.entries[i].records),
            None => {
                let r: Vec<Profile> = Vec::new();
                proof {
                    assert(r.deep_view() =~= Seq::<ProfileView>::empty());
                }
                r
            },
        }
    }

    /// The profiles of whichever owner last registered `name`; empty
    /// when the name is unregistered or that owner has no slot.
    pub fn get(&self, name: &String) -> (r: Vec<Profile>)
        requires
            self.wf(),
        ensures
            r.deep_view() == self.lookup_by_name(name@),
    {
        match self.find_name(name) {
            Some(i) => {
                let owner = self.names[i].owner.duplicate();
                proof {
                    assert(self.index()[i as int].1 == owner@);
                }
                self.get_self(&owner)
            },
            None => {
                let r: Vec<Profile> = Vec::new();
                proof {
                    assert(r.deep_view() =~= Seq::<ProfileView>::empty());
                }
                r
            },
        }
    }
    /// Case-insensitive first-match search over every owner's every
    /// profile: the whole collection of the first owner, in store order,
    /// holding a match is returned; absent when nothing matches.
    pub fn search(&self, text: &String) -> (r: Option<Vec<Profile>>)
        ensures
            match r {
                Some(v) => spec_search(self.store(), lower_of(text@)) == Some(v.deep_view()),
                None => spec_search(self.store(), lower_of(text@)) is None,
            },
    {
        let t = lowercase(text.as_str());
        let n = self.entries.len();
        let mut i: usize = 0;
        while i < n
            invariant
                i <= n,
                n == self.entries@.len(),
                n == self.store().len(),
                t@ == lower_of(text@),
                forall|j: int|
                    0 <= j < i ==> !any_profile_matches((#[trigger] self.store()[j]).1, t@),
            decreases n - i,
        {
            if collection_matches(&self.entries[i].records, &t) {
                proof {
                    assert(self.store()[i as int].1 == self.entries@[i as int].records.deep_view());
                    lemma_search_prefix(self.store(), t@, i as int);
                    assert(self.store().skip(i as int)[0] == self.store()[i as int]);
                }
                return Some(duplicate_profiles(&self.entries[i].records));
            }
            i = i + 1;
        }
        proof {
            lemma_search_prefix(self.store(), t@, n as int);
            assert(self.store().skip(n as int) =~= Seq::<(Seq<u8>, Seq<ProfileView>)>::empty());
        }
        None
    }

    /// Every owner's collection, unfiltered, in store order.
    pub fn iterate(&self) -> (r: Vec<Vec<Profile>>)
        ensures
            r.deep_view() == all_collections(self.store()),
    {
        let mut out: Vec<Vec<Profile>> = Vec::new();
        let n = self.entries.len();
        let mut i: usize = 0;
        while i < n
            invariant
                i <= n,
                n == self.entries@.len(),
                n == self.store().len(),
                out@.len() == i,
                forall|j: int|
                    0 <= j < i ==> out.deep_view()[j] == (#[trigger] self.store()[j]).1,
            decreases n - i,
        {
            out.push(duplicate_profiles(&self.entries[i].records));
            proof {
                assert(self.store()[i as int].1 == self.entries@[i as int].records.deep_view());
            }
            i = i + 1;
        }
        proof {
            assert(out.deep_view() =~= all_collections(self.store()));
        }
        out
    }

    /// Register `name` as last written by `caller`, overwriting any
    /// earlier registration of the same name.
    fn register_name(&mut self, name: &String, caller: &CallerId)
        requires
            old(self).wf(),
        ensures
            final(self).wf(),
            final(self).index() == assoc_put(old(self).index(), name@, caller@),
            final(self).store() == old(self).store(),
    {
        let found = self.find_name(name);
        match found {
            Some(i) => {
                let mut e = self.names.remove(i);
                e.owner = caller.duplicate();
                self.names.insert(i, e);
                proof {
                    let idx = old(self).index();
                    let i = i as int;
                    assert(self.names@ =~= old(self).names@.update(i, self.names@[i]));
                    assert(self.index() =~= assoc_put(idx, name@, caller@));
                    assert(self.store() =~= old(self).store());
                    lemma_assoc_put(idx, name@, caller@);
                }
            },
            None => {
                self.names.push(NameOwner { name: name.clone(), owner: caller.duplicate() });
                proof {
                    let idx = old(self).index();
                    assert(self.index() =~= assoc_put(idx, name@, caller@));
                    assert(self.store() =~= old(self).store());
                    lemma_assoc_put(idx, name@, caller@);
                }
            },
        }
    }

    /// Append `profile` to `caller`'s collection, creating the slot on
    /// first write.
    fn append_record(&mut self, caller: &CallerId, profile: Profile)
        requires
            old(self).wf(),
        ensures
            final(self).wf(),
            final(self).store() == store_after_add(old(self).store(), caller@, profile@),
            final(self).index() == old(self).index(),
    {
        let ghost s = self.store();
        let ghost p = profile@;
        let found = self.find_entry(caller);
        match found {
            Some(i) => {
                let mut e = self.entries.remove(i);
                e.records.push(profile);
                self.entries.insert(i, e);
                proof {
                    let i = i as int;
                    assert(self.entries@ =~= old(self).entries@.update(i, self.entries@[i]));
                    assert(self.entries@[i].records.deep_view() =~= records_of(s, caller@).push(p));
                    assert(self.store() =~= assoc_put(s, caller@, records_of(s, caller@).push(p)));
                    assert(self.index() =~= old(self).index());
                    lemma_assoc_put(s, caller@, records_of(s, caller@).push(p));
                }
            },
            None => {
                let mut records: Vec<Profile> = Vec::new();
                records.push(profile);
                self.entries.push(OwnerRecords { owner: caller.duplicate(), records });
                proof {
                    assert(records_of(s, caller@) =~= Seq::<ProfileView>::empty());
                    assert(self.entries@[s.len() as int].records.deep_view() =~= records_of(
                        s,
                        caller@,
                    ).push(p));
                    assert(self.store() =~= assoc_put(s, caller@, records_of(s, caller@).push(p)));
                    assert(self.index() =~= old(self).index());
                    lemma_assoc_put(s, caller@, records_of(s, caller@).push(p));
                }
            },
        }
    }

    /// Store a profile for `caller`: the profile is appended to the
    /// caller's collection — never merged with an equal one — and the
    /// profile's name is registered to `caller` in the name index.
    pub fn add(&mut self, caller: &CallerId, profile: Profile)
        requires
            old(self).wf(),
        ensures
            final(self).wf(),
            final(self).index() == assoc_put(old(self).index(), profile@.name, caller@),
            final(self).store() == store_after_add(old(self).store(), caller@, profile@),
    {
        self.register_name(&profile.name, caller);
        self.append_record(caller, profile);
    }

    /// Append a profile to `caller`'s collection without touching the
    /// name index.
    pub fn update(&mut self, caller: &CallerId, profile: Profile)
        requires
            old(self).wf(),
        ensures
            final(self).wf(),
            final(self).index() == old(self).index(),
            final(self).store() == store_after_add(old(self).store(), caller@, profile@),
    {
        self.append_record(caller, profile);
    }

    /// Drop every profile named `name` from `caller`'s collection.  The
    /// name index is not retracted, and removing a name nobody stored is
    /// a no-op.
    pub fn remove(&mut self, caller: &CallerId, name: &String)
        requires
            old(self).wf(),
        ensures
            final(self).wf(),
            final(self).index() == old(self).index(),
            final(self).store() == store_after_remove(old(self).store(), caller@, name@),
    {
        let ghost s = self.store();
        let found = self.find_entry(caller);
        match found {
            None => {},
            Some(i) => {
                let mut e = self.entries.remove(i);
                let kept = retain_unnamed(&e.records, name);
                e.records = kept;
                self.entries.insert(i, e);
                proof {
                    let i = i as int;
                    assert(self.entries@ =~= old(self).entries@.update(i, self.entries@[i]));
                    assert(s[i].1 == assoc_get(s, caller@));
                    assert(self.store() =~= assoc_put(
                        s,
                        caller@,
                        without_name(assoc_get(s, caller@), name@),
                    ));
                    assert(self.index() =~= old(self).index());
                    lemma_assoc_put(s, caller@, without_name(assoc_get(s, caller@), name@));
                }
            },
        }
    }
}

/// Whether the lowercased text `t` matches `p`.
fn matches_profile(p: &Profile, t: &String) -> (r: bool)
    ensures
        r == profile_matches(p@, t@),
{
    let ln = lowercase(p.name.as_str());
    if contains_text(ln.as_str(), t.as_str()) {
        return true;
    }
    let ld = lowercase(p.description.as_str());
    if contains_text(ld.as_str(), t.as_str()) {
        return true;
    }
    let n = p.keywords.len();
    let mut i: usize = 0;
    while i < n
        invariant
            i <= n,
            n == p.keywords@.len(),
            forall|j: int| 0 <= j < i ==> lower_of(#[trigger] p@.keywords[j]) != t@,
        decreases n - i,
    {
        let lk = lowercase(p.keywords[i].as_str());
        if lk == *t {
            proof {
                assert(p@.keywords[i as int] == p.keywords@[i as int]@);
            }
            return true;
        }
        proof {
            assert(p@.keywords[i as int] == p.keywords@[i as int]@);
        }
        i = i + 1;
    }
    false
}

/// Whether some profile of the list matches the lowercased text `t`.
fn collection_matches(v: &Vec<Profile>, t: &String) -> (r: bool)
    ensures
        r == any_profile_matches(v.deep_view(), t@),
{
    let n = v.len();
    let mut i: usize = 0;
    while i < n
        invariant
            i <= n,
            n == v@.len(),
            forall|j: int| 0 <= j < i ==> !profile_matches(#[trigger] v.deep_view()[j], t@),
        decreases n - i,
    {
        if matches_profile(&v[i], t) {
            proof {
                assert(v.deep_view()[i as int] == v@[i as int]@);
            }
            return true;
        }
        proof {
            assert(v.deep_view()[i as int] == v@[i as int]@);
        }
        i = i + 1;
    }
    false
}

/// A scan that skips owners without a match lands where the whole scan
/// lands.
proof fn lemma_search_prefix(s: Seq<(Seq<u8>, Seq<ProfileView>)>, t: Seq<char>, i: int)
    requires
        0 <= i <= s.len(),
        forall|j: int| 0 <= j < i ==> !any_profile_matches((#[trigger] s[j]).1, t),
    ensures
        spec_search(s, t) == spec_search(s.skip(i), t),
    decreases i,
{
    if i > 0 {
        assert(!any_profile_matches(s[0].1, t));
        let d = s.drop_first();
        assert forall|j: int| 0 <= j < i - 1 implies !any_profile_matches(
            (#[trigger] d[j]).1,
            t,
        ) by {
            assert(d[j] == s[j + 1]);
        }
        lemma_search_prefix(d, t, i - 1);
        assert(d.skip(i - 1) =~= s.skip(i));
    } else {
        assert(s.skip(0) =~= s);
    }
}

/// A copy of a profile list with every profile of the given name left
/// out, order otherwise kept.
fn retain_unnamed(v: &Vec<Profile>, name: &String) -> (r: Vec<Profile>)
    ensures
        r.deep_view() == without_name(v.deep_view(), name@),
{
    let mut out: Vec<Profile> = Vec::new();
    let n = v.len();
    let mut i: usize = 0;
    while i < n
        invariant
            i <= n,
            n == v@.len(),
            out.deep_view() == without_name(v.deep_view().take(i as int), name@),
        decreases n - i,
    {
        let ghost pre = v.deep_view().take(i as int);
        let ghost cur = v.deep_view().take(i + 1);
        proof {
            assert(cur.drop_last() =~= pre);
            assert(cur.last() == v@[i as int]@);
        }
        if !(v[i].name == *name) {
            out.push(v[i].duplicate());
            proof {
                assert(out.deep_view() =~= without_name(cur, name@));
            }
        } else {
            proof {
                assert(out.deep_view() =~= without_name(cur, name@));
            }
        }
        i = i + 1;
    }
    proof {
        assert(v.deep_view().take(n as int) =~= v.deep_view());
    }
    out
}

/// After an owner adds a profile, the owner's own collection is the old
/// one with that profile appended: a self-lookup includes the new
/// profile, an equal profile added twice stands there twice, and no
/// other owner's collection changes.
pub proof fn lemma_add_appends(s: Seq<(Seq<u8>, Seq<ProfileView>)>, o: Seq<u8>, p: ProfileView)
    requires
        keys_distinct(s),
    ensures
        records_of(store_after_add(s, o, p), o) == records_of(s, o).push(p),
        records_of(store_after_add(s, o, p), o).last() == p,
        forall|o2: Seq<u8>|
            o2 != o ==> #[trigger] records_of(store_after_add(s, o, p), o2) == records_of(s, o2),
{
    lemma_assoc_put(s, o, records_of(s, o).push(p));
    let t = store_after_add(s, o, p);
    assert forall|o2: Seq<u8>| o2 != o implies #[trigger] records_of(t, o2) == records_of(
        s,
        o2,
    ) by {
        assert(assoc_has(t, o2) == assoc_has(s, o2));
    }
}

/// The name index is global and last-writer-wins: after any owner adds a
/// profile, the profile's name resolves to that owner for every reader,
/// and every other name resolves as before.
pub proof fn lemma_add_registers(idx: Seq<(Seq<char>, Seq<u8>)>, name: Seq<char>, o: Seq<u8>)
    requires
        keys_distinct(idx),
    ensures
        resolve(assoc_put(idx, name, o), name) == Some(o),
        forall|n2: Seq<char>|
            n2 != name ==> #[trigger] resolve(assoc_put(idx, name, o), n2) == resolve(idx, n2),
{
    lemma_assoc_put(idx, name, o);
    let t = assoc_put(idx, name, o);
    assert forall|n2: Seq<char>| n2 != name implies #[trigger] resolve(t, n2) == resolve(
        idx,
        n2,
    ) by {
        assert(assoc_has(t, n2) == assoc_has(idx, n2));
    }
}

/// The search scan yields the absent marker exactly when no owner's
/// collection holds a matching profile; in particular an empty store
/// yields absent for every text.
pub proof fn lemma_search_none(s: Seq<(Seq<u8>, Seq<ProfileView>)>, t: Seq<char>)
    ensures
        (spec_search(s, t) is None) <==> (forall|i: int|
            0 <= i < s.len() ==> !any_profile_matches((#[trigger] s[i]).1, t)),
        s.len() == 0 ==> spec_search(s, t) is None,
    decreases s.len(),
{
    if s.len() > 0 {
        let d = s.drop_first();
        lemma_search_none(d, t);
        if spec_search(s, t) is None {
            assert forall|i: int| 0 <= i < s.len() implies !any_profile_matches(
                (#[trigger] s[i]).1,
                t,
            ) by {
                if i > 0 {
                    assert(d[i - 1] == s[i]);
                }
            }
        } else {
            if !any_profile_matches(s[0].1, t) {
                assert(spec_search(d, t) is Some);
                let j = choose|j: int|
                    0 <= j < d.len() && any_profile_matches((#[trigger] d[j]).1, t);
                assert(s[j + 1] == d[j]);
            }
        }
    }
}

/// Reads are idempotent: with no intervening write, two self-lookups,
/// two searches, or two enumerations over the same store agree.
pub proof fn lemma_reads_idempotent(
    s: Seq<(Seq<u8>, Seq<ProfileView>)>,
    o: Seq<u8>,
    t: Seq<char>,
    self1: Seq<ProfileView>,
    self2: Seq<ProfileView>,
    found1: Option<Seq<ProfileView>>,
    found2: Option<Seq<ProfileView>>,
    all1: Seq<Seq<ProfileView>>,
    all2: Seq<Seq<ProfileView>>,
)
    requires
        self1 == records_of(s, o),
        self2 == records_of(s, o),
        found1 == spec_search(s, t),
        found2 == spec_search(s, t),
        all1 == all_collections(s),
        all2 == all_collections(s),
    ensures
        self1 == self2,
        found1 == found2,
        all1 == all2,
{
}

} // verus!
