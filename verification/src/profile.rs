//! The profile data model and the in-memory profile store.
//!
//! A [`Profile`] records how to launch the application: a display name, the
//! application variant, a render backend, and named feature-flag overrides.
//! The [`ProfileManager`] owns a mapping from 128-bit identifiers to
//! profiles; every mutation is staged in memory and only made durable when
//! the surrounding application writes the serialized snapshot back to disk.

use vstd::prelude::*;

use crate::fs::FsError;

verus! {

/// Which application binary a profile launches.
#[derive(Debug, Clone, Copy, PartialEq, Eq, Structural)]
pub enum RobloxType {
    RobloxPlayer,
    RobloxStudio,
}

/// Which rendering API a profile selects.
#[derive(Debug, Clone, Copy, PartialEq, Eq, Structural)]
pub enum Renderer {
    D3D11,
    Vulkan,
    OpenGL,
}

/// An override value for a named feature flag: text, a 64-bit signed
/// integer, or a boolean.  The tag is preserved exactly by the snapshot
/// codec.
#[derive(Debug, Clone, PartialEq)]
pub enum FFlagValue {
    Text(String),
    Number(i64),
    Boolean(bool),
}

/// The mathematical value of an [`FFlagValue`].
pub enum FlagView {
    Text(Seq<char>),
    Number(i64),
    Boolean(bool),
}

impl View for FFlagValue {
    type V = FlagView;

    open spec fn view(&self) -> FlagView {
        match self {
            FFlagValue::Text(s) => FlagView::Text(s@),
            FFlagValue::Number(n) => FlagView::Number(*n),
            FFlagValue::Boolean(b) => FlagView::Boolean(*b),
        }
    }
}

/// A launch profile.  Feature flags are kept as a sequence of
/// (name, value) pairs; names are expected to be distinct, and the store
/// persists and restores the sequence exactly as given.
#[derive(Debug, Clone, PartialEq)]
pub struct Profile {
    pub name: String,
    pub roblox: RobloxType,
    pub renderer: Renderer,
    pub fflags: Vec<(String, FFlagValue)>,
}

/// The mathematical value of a [`Profile`].
pub struct ProfileView {
    pub name: Seq<char>,
    pub roblox: RobloxType,
    pub renderer: Renderer,
    pub fflags: Seq<(Seq<char>, FlagView)>,
}

/// The mathematical value of a flag list.
pub open spec fn flags_of(v: Seq<(String, FFlagValue)>) -> Seq<(Seq<char>, FlagView)> {
    v.map_values(|e: (String, FFlagValue)| (e.0@, e.1@))
}

/// Appending a flag appends its value.
pub proof fn lemma_flags_of_push(v: Seq<(String, FFlagValue)>, x: (String, FFlagValue))
    ensures
        flags_of(v.push(x)) == flags_of(v).push((x.0@, x.1@)),
{
    assert(flags_of(v.push(x)) =~= flags_of(v).push((x.0@, x.1@)));
}

impl View for Profile {
    type V = ProfileView;

    open spec fn view(&self) -> ProfileView {
        ProfileView {
            name: self.name@,
            roblox: self.roblox,
            renderer: self.renderer,
            fflags: flags_of(self.fflags@),
        }
    }
}

impl Profile {
    /// The value of the flag named `k`, if the profile has one.
    pub open spec fn spec_flag(&self, k: Seq<char>) -> Option<FlagView> {
        flag_lookup(self@.fflags, k)
    }

    /// Borrow the override stored under `name`, if the profile has one.
    #[verifier::loop_isolation(false)]
    pub fn get_flag(&self, name: &String) -> (r: Option<&FFlagValue>)
        ensures
            match r {
                Option::Some(v) => self.spec_flag(name@) == Option::Some(v@),
                Option::None => self.spec_flag(name@) is None,
            },
    {
        let n = self.fflags.len();
        let mut i: usize = 0;
        proof {
            assert(self@.fflags.skip(0) =~= self@.fflags);
        }
        while i < n
            invariant
                i <= n,
                flag_lookup(self@.fflags, name@) == flag_lookup(
                    self@.fflags.skip(i as int),
                    name@,
                ),
            decreases n - i,
        {
            proof {
                assert(self@.fflags[i as int] == (self.fflags@[i as int].0@, self.fflags@[
                    i as int].1@));
                assert(self@.fflags.skip(i as int)[0] == self@.fflags[i as int]);
                assert(self@.fflags.skip(i as int).drop_first() =~= self@.fflags.skip(
                    i as int + 1,
                ));
            }
            if self.fflags[i].0 == *name {
                return Option::Some(&self.fflags[i].1);
            }
            proof {
                assert(flag_lookup(self@.fflags.skip(i as int), name@) == flag_lookup(
                    self@.fflags.skip(i as int + 1),
                    name@,
                ));
            }
            i = i + 1;
        }
        proof {
            assert(self@.fflags.skip(n as int) =~= Seq::<(Seq<char>, FlagView)>::empty());
        }
        Option::None
    }
}

/// First entry of `flags` whose name is `k`, scanning from the front.
pub open spec fn flag_lookup(flags: Seq<(Seq<char>, FlagView)>, k: Seq<char>) -> Option<FlagView>
    decreases flags.len(),
{
    if flags.len() == 0 {
        Option::None
    } else if flags[0].0 == k {
        Option::Some(flags[0].1)
    } else {
        flag_lookup(flags.drop_first(), k)
    }
}

impl Default for Profile {
    /// An empty profile: no name, player variant, default render backend,
    /// no flag overrides.
    fn default() -> (r: Profile)
        ensures
            r@.name == Seq::<char>::empty(),
            r@.roblox == RobloxType::RobloxPlayer,
            r@.renderer == Renderer::D3D11,
            r@.fflags == Seq::<(Seq<char>, FlagView)>::empty(),
    {
        let r = Profile {
            name: String::new(),
            roblox: RobloxType::RobloxPlayer,
            renderer: Renderer::D3D11,
            fflags: Vec::new(),
        };
        proof {
            assert(r@.fflags =~= Seq::<(Seq<char>, FlagView)>::empty());
        }
        r
    }
}

impl Default for RobloxType {
    /// Profiles launch the player variant unless told otherwise.
    fn default() -> (r: RobloxType)
        ensures
            r == RobloxType::RobloxPlayer,
    {
        RobloxType::RobloxPlayer
    }
}

impl Default for Renderer {
    /// The render backend chosen when a profile does not pick one.
    fn default() -> (r: Renderer)
        ensures
            r == Renderer::D3D11,
    {
        Renderer::D3D11
    }
}

/// Why a store operation failed.
///
/// `DbError` and `FsUtilsError` carry failures seen by the surrounding
/// application while touching the embedded database or the filesystem;
/// `CodecError` reports malformed snapshot bytes; `ProfileNotExist`
/// reports a delete or update against an unknown identifier.
#[derive(Debug, Clone)]
pub enum ProfileError {
    DbError(String),
    CodecError(String),
    FsUtilsError(FsError),
    ProfileNotExist,
}

/// The store's entries, keyed by identifier.  Later entries win, though a
/// well-formed store never has two entries with one identifier.
pub open spec fn entries_map(s: Seq<(u128, ProfileView)>) -> Map<u128, ProfileView>
    decreases s.len(),
{
    if s.len() == 0 {
        Map::empty()
    } else {
        entries_map(s.drop_last()).insert(s.last().0, s.last().1)
    }
}

/// No two entries share an identifier.
pub open spec fn ids_distinct(s: Seq<(u128, ProfileView)>) -> bool {
    forall|i: int, j: int| 0 <= i < j < s.len() ==> s[i].0 != s[j].0
}

/// An identifier is in the map exactly when some entry carries it.
pub proof fn lemma_entries_map_contains(s: Seq<(u128, ProfileView)>, id: u128)
    ensures
        entries_map(s).contains_key(id) <==> exists|i: int| 0 <= i < s.len() && s[i].0 == id,
    decreases s.len(),
{
    if s.len() > 0 {
        lemma_entries_map_contains(s.drop_last(), id);
        if s.last().0 == id {
            assert(s[s.len() - 1].0 == id);
        } else if entries_map(s).contains_key(id) {
            let i = choose|i: int| 0 <= i < s.drop_last().len() && s.drop_last()[i].0 == id;
            assert(s[i].0 == id);
        } else if exists|i: int| 0 <= i < s.len() && s[i].0 == id {
            let i = choose|i: int| 0 <= i < s.len() && s[i].0 == id;
            assert(s.drop_last()[i].0 == id);
        }
    }
}

/// With distinct identifiers, the entry at `i` is what the map holds for
/// its identifier.
pub proof fn lemma_entries_map_index(s: Seq<(u128, ProfileView)>, i: int)
    requires
        ids_distinct(s),
        0 <= i < s.len(),
    ensures
        entries_map(s).contains_key(s[i].0),
        entries_map(s)[s[i].0] == s[i].1,
    decreases s.len(),
{
    lemma_entries_map_contains(s, s[i].0);
    if i < s.len() - 1 {
        assert(ids_distinct(s.drop_last())) by {
            assert(forall|p: int, q: int|
                0 <= p < q < s.drop_last().len() ==> s.drop_last()[p].0 != s.drop_last()[q].0);
        }
        lemma_entries_map_index(s.drop_last(), i);
        assert(s.drop_last()[i] == s[i]);
        assert(s.last().0 != s[i].0);
    }
}

/// Appending a fresh entry inserts it into the map.
pub proof fn lemma_entries_map_push(s: Seq<(u128, ProfileView)>, id: u128, p: ProfileView)
    ensures
        entries_map(s.push((id, p))) == entries_map(s).insert(id, p),
{
    let t = s.push((id, p));
    assert(t.drop_last() =~= s);
    assert(t.last() == (id, p));
}

/// Replacing the entry at `i` (keeping its identifier) re-inserts into the
/// map under that identifier.
pub proof fn lemma_entries_map_update(s: Seq<(u128, ProfileView)>, i: int, p: ProfileView)
    requires
        ids_distinct(s),
        0 <= i < s.len(),
    ensures
        entries_map(s.update(i, (s[i].0, p))) == entries_map(s).insert(s[i].0, p),
    decreases s.len(),
{
    let id = s[i].0;
    let t = s.update(i, (id, p));
    if i == s.len() - 1 {
        assert(t.drop_last() =~= s.drop_last());
        assert(t.last() == (id, p));
        assert(entries_map(t) == entries_map(s.drop_last()).insert(id, p));
        lemma_entries_map_contains(s.drop_last(), id);
        assert(forall|j: int| 0 <= j < s.drop_last().len() ==> s[j].0 != id);
        assert(!entries_map(s.drop_last()).contains_key(id));
        assert(entries_map(s.drop_last()).insert(id, s[i].1).insert(id, p)
            =~= entries_map(s.drop_last()).insert(id, p));
    } else {
        assert(ids_distinct(s.drop_last())) by {
            assert(forall|p0: int, q: int|
                0 <= p0 < q < s.drop_last().len() ==> s.drop_last()[p0].0 != s.drop_last()[q].0);
        }
        assert(s.drop_last()[i] == s[i]);
        lemma_entries_map_update(s.drop_last(), i, p);
        assert(t.drop_last() =~= s.drop_last().update(i, (id, p)));
        assert(t.last() == s.last());
        assert(s.last().0 != id);
        assert(entries_map(s.drop_last()).insert(id, p).insert(s.last().0, s.last().1)
            =~= entries_map(s.drop_last()).insert(s.last().0, s.last().1).insert(id, p));
    }
}

/// Removing the entry at `i` removes its identifier from the map.
pub proof fn lemma_entries_map_remove(s: Seq<(u128, ProfileView)>, i: int)
    requires
        ids_distinct(s),
        0 <= i < s.len(),
    ensures
        entries_map(s.remove(i)) == entries_map(s).remove(s[i].0),
    decreases s.len(),
{
    let id = s[i].0;
    let t = s.remove(i);
    if i == s.len() - 1 {
        assert(t =~= s.drop_last());
        lemma_entries_map_contains(s.drop_last(), id);
        assert(forall|j: int| 0 <= j < s.drop_last().len() ==> s[j].0 != id);
        assert(!entries_map(s.drop_last()).contains_key(id));
        assert(entries_map(s.drop_last()).insert(id, s[i].1).remove(id)
            =~= entries_map(s.drop_last()));
    } else {
        assert(ids_distinct(s.drop_last())) by {
            assert(forall|p0: int, q: int|
                0 <= p0 < q < s.drop_last().len() ==> s.drop_last()[p0].0 != s.drop_last()[q].0);
        }
        assert(s.drop_last()[i] == s[i]);
        lemma_entries_map_remove(s.drop_last(), i);
        assert(t.drop_last() =~= s.drop_last().remove(i));
        assert(t.last() == s.last());
        assert(s.last().0 != id);
        assert(entries_map(s.drop_last()).remove(id).insert(s.last().0, s.last().1)
            =~= entries_map(s.drop_last()).insert(s.last().0, s.last().1).remove(id));
    }
}

/// The in-memory profile store: a mapping from 128-bit identifiers to
/// profiles, persisted as one snapshot by the surrounding application.
#[derive(Debug)]
pub struct ProfileManager {
    pub profiles: Vec<(u128, Profile)>,
}

/// The mathematical value of an entry list.
pub open spec fn entries_of(v: Seq<(u128, Profile)>) -> Seq<(u128, ProfileView)> {
    v.map_values(|e: (u128, Profile)| (e.0, e.1@))
}

/// Appending an entry appends its value.
pub proof fn lemma_entries_of_push(v: Seq<(u128, Profile)>, x: (u128, Profile))
    ensures
        entries_of(v.push(x)) == entries_of(v).push((x.0, x.1@)),
{
    assert(entries_of(v.push(x)) =~= entries_of(v).push((x.0, x.1@)));
}

impl View for ProfileManager {
    type V = Seq<(u128, ProfileView)>;

    open spec fn view(&self) -> Seq<(u128, ProfileView)> {
        entries_of(self.profiles@)
    }
}

impl ProfileManager {
    /// A well-formed store never holds two entries with one identifier.
    pub open spec fn wf(&self) -> bool {
        ids_distinct(self@)
    }

    /// The store's contents as a mapping from identifier to profile.
    pub open spec fn as_map(&self) -> Map<u128, ProfileView> {
        entries_map(self@)
    }

    /// Index of the entry carrying `id`, if any.
    fn find_index(&self, id: u128) -> (r: Option<usize>)
        ensures
            match r {
                Option::Some(i) => i < self@.len() && self@[i as int].0 == id,
                Option::None => forall|j: int| 0 <= j < self@.len() ==> self@[j].0 != id,
            },
    {
        let n = self.profiles.len();
        let mut i: usize = 0;
        while i < n
            invariant
                n == self@.len(),
                i <= n,
                forall|j: int| 0 <= j < i ==> self@[j].0 != id,
            decreases n - i,
        {
            if self.profiles[i].0 == id {
                return Option::Some(i);
            }
            i = i + 1;
        }
        Option::None
    }

    /// Whether the store holds a profile under `id`.
    pub fn contains(&self, id: u128) -> (r: bool)
        ensures
            r == self.as_map().contains_key(id),
    {
        proof {
            lemma_entries_map_contains(self@, id);
        }
        self.find_index(id).is_some()
    }

    /// Borrow the profile stored under `id`, if any.
    pub fn get(&self, id: u128) -> (r: Option<&Profile>)
        requires
            self.wf(),
        ensures
            match r {
                Option::Some(p) => self.as_map().contains_key(id) && p@ == self.as_map()[id],
                Option::None => !self.as_map().contains_key(id),
            },
    {
        proof {
            lemma_entries_map_contains(self@, id);
        }
        match self.find_index(id) {
            Option::Some(i) => {
                proof {
                    lemma_entries_map_index(self@, i as int);
                }
                Option::Some(&self.profiles[i].1)
            },
            Option::None => Option::None,
        }
    }

    /// The canonical text forms of all identifiers in the store, in entry
    /// order.  Callers must not rely on the order beyond what this states.
    #[verifier::loop_isolation(false)]
    pub fn list(&self) -> (r: Vec<String>)
        ensures
            r@.len() == self@.len(),
            forall|i: int|
                0 <= i < r@.len() ==> (#[trigger] r@[i])@ == crate::ident::spec_id_string(
                    self@[i].0,
                ),
    {
        let mut out: Vec<String> = Vec::new();
        let n = self.profiles.len();
        let mut i: usize = 0;
        while i < n
            invariant
                i <= n,
                out@.len() == i,
                forall|j: int|
                    0 <= j < i ==> (#[trigger] out@[j])@ == crate::ident::spec_id_string(
                        self@[j].0,
                    ),
            decreases n - i,
        {
            out.push(crate::ident::id_to_string(self.profiles[i].0));
            i = i + 1;
        }
        out
    }

    /// Mint a fresh random identifier, insert the profile under it, and
    /// return it.  The mutation is in memory only; nothing is persisted
    /// until the snapshot is saved.  Identifier collision is treated as
    /// negligible and not defended against: should the fresh identifier
    /// collide with an existing one, that entry is replaced, exactly as an
    /// insertion into a map would.
    pub fn create(&mut self, profile: Profile) -> (r: Result<u128, ProfileError>)
        requires
            old(self).wf(),
        ensures
            final(self).wf(),
            r is Ok,
            final(self).as_map() == old(self).as_map().insert(r->Ok_0, profile@),
            !old(self).as_map().contains_key(r->Ok_0) ==> final(self)@.len() == old(self)@.len()
                + 1,
            old(self).as_map().contains_key(r->Ok_0) ==> final(self)@.len() == old(self)@.len(),
    {
        let id = crate::ident::fresh_id_bits();
        self.put(id, profile);
        Result::Ok(id)
    }

    /// Insert or replace the profile under `id`.
    fn put(&mut self, id: u128, profile: Profile)
        requires
            old(self).wf(),
        ensures
            final(self).wf(),
            final(self).as_map() == old(self).as_map().insert(id, profile@),
            !old(self).as_map().contains_key(id) ==> final(self)@.len() == old(self)@.len() + 1,
            old(self).as_map().contains_key(id) ==> final(self)@.len() == old(self)@.len(),
    {
        proof {
            lemma_entries_map_contains(self@, id);
        }
        match self.find_index(id) {
            Option::Some(i) => {
                proof {
                    lemma_entries_map_update(self@, i as int, profile@);
                }
                self.profiles[i] = (id, profile);
                proof {
                    assert(self@ =~= old(self)@.update(i as int, (id, profile@)));
                }
            },
            Option::None => {
                proof {
                    lemma_entries_map_push(self@, id, profile@);
                }
                self.profiles.push((id, profile));
                proof {
                    assert(self@ =~= old(self)@.push((id, profile@)));
                    assert(forall|p0: int, q: int|
                        0 <= p0 < q < self@.len() ==> self@[p0].0 != self@[q].0);
                }
            },
        }
    }

    /// Remove the profile stored under `id`.  Fails with
    /// [`ProfileError::ProfileNotExist`], leaving the store unchanged, when
    /// no profile carries that identifier.  In-memory only; durability
    /// requires saving the snapshot afterwards.
    pub fn delete(&mut self, id: u128) -> (r: Result<(), ProfileError>)
        requires
            old(self).wf(),
        ensures
            final(self).wf(),
            old(self).as_map().contains_key(id) ==> {
                &&& r is Ok
                &&& final(self).as_map() == old(self).as_map().remove(id)
                &&& final(self)@.len() + 1 == old(self)@.len()
            },
            !old(self).as_map().contains_key(id) ==> {
                &&& r matches Result::Err(ProfileError::ProfileNotExist)
                &&& *final(self) == *old(self)
            },
    {
        proof {
            lemma_entries_map_contains(self@, id);
        }
        match self.find_index(id) {
            Option::Some(i) => {
                proof {
                    lemma_entries_map_remove(self@, i as int);
                }
                self.profiles.remove(i);
                proof {
                    assert(self@ =~= old(self)@.remove(i as int));
                    assert(forall|p0: int, q: int|
                        0 <= p0 < q < self@.len() ==> self@[p0].0 != self@[q].0);
                }
                Result::Ok(())
            },
            Option::None => Result::Err(ProfileError::ProfileNotExist),
        }
    }

    /// Replace the whole profile stored under `id`.  Fails with
    /// [`ProfileError::ProfileNotExist`] when no profile carries that
    /// identifier; no entry is ever inserted by an update.
    pub fn update(&mut self, id: u128, updated_profile: Profile) -> (r: Result<(), ProfileError>)
        requires
            old(self).wf(),
        ensures
            final(self).wf(),
            old(self).as_map().contains_key(id) ==> {
                &&& r is Ok
                &&& final(self).as_map() == old(self).as_map().insert(id, updated_profile@)
                &&& final(self)@.len() == old(self)@.len()
            },
            !old(self).as_map().contains_key(id) ==> {
                &&& r matches Result::Err(ProfileError::ProfileNotExist)
                &&& *final(self) == *old(self)
            },
    {
        proof {
            lemma_entries_map_contains(self@, id);
        }
        match self.find_index(id) {
            Option::Some(i) => {
                proof {
                    lemma_entries_map_update(self@, i as int, updated_profile@);
                }
                self.profiles[i] = (id, updated_profile);
                proof {
                    assert(self@ =~= old(self)@.update(i as int, (id, updated_profile@)));
                }
                Result::Ok(())
            },
            Option::None => Result::Err(ProfileError::ProfileNotExist),
        }
    }
}

impl Default for ProfileManager {
    /// The empty store.
    fn default() -> (r: ProfileManager)
        ensures
            r@ == Seq::<(u128, ProfileView)>::empty(),
            r.wf(),
            r.as_map() == Map::<u128, ProfileView>::empty(),
    {
        let r = ProfileManager { profiles: Vec::new() };
        proof {
            assert(r@ =~= Seq::<(u128, ProfileView)>::empty());
        }
        r
    }
}

} // verus!
