//! Which file a path names, and which store is registered for it.

use vstd::prelude::*;

use crate::assoc;
use crate::text;

verus! {

/// How many dangling links are followed in search of a key.
pub const SYMLINK_FOLLOW_LIMIT: usize = 8;

/// How far the search for a key has come. What is waited for is asked of the
/// file system.
#[derive(Debug)]
pub enum KeyStage {
    /// Where the current path really is, or which path it links to, is to be
    /// found out.
    Locate { current: String, follows: usize },
    /// Where the current path's directory really is, joined with its last
    /// component, is to be found out.
    Parent { current: String, exhausted: bool },
    /// The absolute form of the path that was asked about is to be found out.
    Absolute,
    /// The key, and whether it may still change.
    Done { key: String, provisional: bool },
}

/// The stage as a contract sees it.
pub enum KeyView {
    Locate { current: Seq<char>, follows: nat },
    Parent { current: Seq<char>, exhausted: bool },
    Absolute,
    Done { key: Seq<char>, provisional: bool },
}

impl View for KeyStage {
    type V = KeyView;

    open spec fn view(&self) -> KeyView {
        match self {
            KeyStage::Locate { current, follows } => KeyView::Locate {
                current: current@,
                follows: *follows as nat,
            },
            KeyStage::Parent { current, exhausted } => KeyView::Parent {
                current: current@,
                exhausted: *exhausted,
            },
            KeyStage::Absolute => KeyView::Absolute,
            KeyStage::Done { key, provisional } => KeyView::Done {
                key: key@,
                provisional: *provisional,
            },
        }
    }
}

/// What the file system says of the current path.
#[derive(Debug)]
pub enum Located {
    /// It exists, and this is where.
    Canonical(String),
    /// It is a link to something that does not exist; its target.
    Link(String),
    /// Neither.
    Missing,
}

/// The stage after the file system was asked where a path is.
pub open spec fn after_locating(current: Seq<char>, follows: nat, found: Located) -> KeyView {
    match found {
        Located::Canonical(key) => KeyView::Done { key: key@, provisional: false },
        Located::Link(target) => if follows + 1 < SYMLINK_FOLLOW_LIMIT {
            KeyView::Locate { current: target@, follows: follows + 1 }
        } else {
            KeyView::Parent { current: target@, exhausted: true }
        },
        Located::Missing => KeyView::Parent { current, exhausted: false },
    }
}

/// Begins the search for the key of a path.
pub fn begin_key(path: &str) -> (stage: KeyStage)
    ensures
        stage@ == (KeyView::Locate { current: path@, follows: 0 }),
{
    KeyStage::Locate { current: String::from_str(path), follows: 0 }
}

/// Goes on after the file system was asked where a path is.
pub fn located(current: &str, follows: usize, found: Located) -> (stage: KeyStage)
    requires
        follows < SYMLINK_FOLLOW_LIMIT,
    ensures
        stage@ == after_locating(current@, follows as nat, found),
{
    match found {
        Located::Canonical(key) => KeyStage::Done { key, provisional: false },
        Located::Link(target) => if follows + 1 < SYMLINK_FOLLOW_LIMIT {
            KeyStage::Locate { current: target, follows: follows + 1 }
        } else {
            KeyStage::Parent { current: target, exhausted: true }
        },
        Located::Missing => KeyStage::Parent {
            current: String::from_str(current),
            exhausted: false,
        },
    }
}

/// Goes on after the file system was asked where a path's directory is. A key
/// that was found only because the links ran out may still change.
pub fn parent_resolved(exhausted: bool, found: Option<String>) -> (stage: KeyStage)
    ensures
        stage@ == match found {
            Some(key) => KeyView::Done { key: key@, provisional: exhausted },
            None => KeyView::Absolute,
        },
{
    match found {
        Some(key) => KeyStage::Done { key, provisional: exhausted },
        None => KeyStage::Absolute,
    }
}

/// Ends with the absolute form of the path, or with the path itself where it
/// has none. Such a key may still change.
pub fn absolute_resolved(path: &str, found: Option<String>) -> (stage: KeyStage)
    ensures
        stage@ == (KeyView::Done {
            key: match found {
                Some(key) => key@,
                None => path@,
            },
            provisional: true,
        }),
{
    match found {
        Some(key) => KeyStage::Done { key, provisional: true },
        None => KeyStage::Done { key: String::from_str(path), provisional: true },
    }
}

/// How many more answers a search may need.
pub open spec fn answers_left(stage: KeyView) -> int {
    match stage {
        KeyView::Locate { follows, .. } => SYMLINK_FOLLOW_LIMIT - follows + 2,
        KeyView::Parent { .. } => 2,
        KeyView::Absolute => 1,
        KeyView::Done { .. } => 0,
    }
}

/// The search for a key ends: each answer about where a path is brings it
/// nearer to its end, links or not.
pub proof fn a_search_ends(current: Seq<char>, follows: nat, found: Located)
    requires
        follows < SYMLINK_FOLLOW_LIMIT,
    ensures
        0 <= answers_left(after_locating(current, follows, found)) < answers_left(
            KeyView::Locate { current, follows },
        ),
        after_locating(current, follows, found) matches KeyView::Locate { follows: n, .. } ==> n
            < SYMLINK_FOLLOW_LIMIT,
{
}

// ---------------------------------------------------------------------------
// The registry
// ---------------------------------------------------------------------------

/// The live stores by the path they are registered under. No path occurs twice.
#[derive(Debug)]
pub struct StoreRegistry {
    slots: Vec<(String, u64)>,
}

/// What the slots say.
spec fn slot_views(slots: Seq<(String, u64)>) -> Seq<(Seq<char>, u64)> {
    slots.map_values(|s: (String, u64)| (s.0@, s.1))
}

impl View for StoreRegistry {
    type V = Map<Seq<char>, u64>;

    closed spec fn view(&self) -> Map<Seq<char>, u64> {
        assoc::as_map(slot_views(self.slots@))
    }
}

/// What moving a registration under the key that the path has now comes to.
#[derive(Debug, Clone, Copy, PartialEq, Eq, Structural)]
pub enum Migration {
    /// The key was free; the registration moved there.
    Moved,
    /// The key was this store's already.
    Settled,
    /// Another store has the key. The two are to be united; the old key now
    /// leads to that store too.
    Unified { target: u64 },
}

/// What a migration comes to.
pub open spec fn migration(
    registry: Map<Seq<char>, u64>,
    derived: Seq<char>,
    store: u64,
) -> Migration {
    if !registry.contains_key(derived) {
        Migration::Moved
    } else if registry[derived] == store {
        Migration::Settled
    } else {
        Migration::Unified { target: registry[derived] }
    }
}

/// The registry after a migration.
pub open spec fn migrated(
    registry: Map<Seq<char>, u64>,
    registered: Seq<char>,
    derived: Seq<char>,
    store: u64,
) -> Map<Seq<char>, u64> {
    match migration(registry, derived, store) {
        Migration::Moved => if registry.contains_key(registered) {
            registry.remove(registered).insert(derived, registry[registered])
        } else {
            registry
        },
        Migration::Settled => registry,
        Migration::Unified { target } => registry.insert(registered, target),
    }
}

impl StoreRegistry {
    #[verifier::type_invariant]
    spec fn well_formed(&self) -> bool {
        assoc::keys_differ(slot_views(self.slots@))
    }

    /// A registry of no store.
    pub fn new() -> (r: Self)
        ensures
            r@ == Map::<Seq<char>, u64>::empty(),
    {
        let r = StoreRegistry { slots: Vec::new() };
        assert(r@ =~= Map::<Seq<char>, u64>::empty());
        r
    }

    fn find(&self, path: &str) -> (place: Option<usize>)
        ensures
            ({
                let all = slot_views(self.slots@);
                match place {
                    Some(i) => i == assoc::place(all, path@) && i < all.len(),
                    None => assoc::place(all, path@) == all.len(),
                }
            }),
    {
        let ghost all = slot_views(self.slots@);
        let mut i: usize = 0;
        assert(all.skip(0) =~= all);
        while i < self.slots.len()
            invariant
                i <= self.slots.len(),
                all == slot_views(self.slots@),
                assoc::place(all, path@) == i + assoc::place(all.skip(i as int), path@),
            decreases self.slots.len() - i,
        {
            assert(all.skip(i as int)[0] == all[i as int]);
            if text::same_text(self.slots[i].0.as_str(), path) {
                return Some(i);
            }
            assert(all.skip(i as int).skip(1) =~= all.skip(i + 1));
            i = i + 1;
        }
        None
    }

    /// The store that is registered under a path.
    pub fn get(&self, path: &str) -> (store: Option<u64>)
        ensures
            store == if self@.contains_key(path@) {
                Some(self@[path@])
            } else {
                None
            },
    {
        match self.find(path) {
            Some(i) => Some(self.slots[i].1),
            None => None,
        }
    }

    /// Registers a store under a path, in place of any other.
    pub fn insert(&mut self, path: String, store: u64)
        ensures
            final(self)@ == old(self)@.insert(path@, store),
    {
        proof {
            use_type_invariant(&*self);
        }
        let ghost before = slot_views(self.slots@);
        let ghost name = path@;
        let place = self.find(path.as_str());
        let mut slots: Vec<(String, u64)> = Vec::new();
        core::mem::swap(&mut self.slots, &mut slots);
        match place {
            Some(i) => {
                proof {
                    assoc::lemma_replaced(before, name, store);
                }
                slots.set(i, (path, store));
                assert(slot_views(slots@) =~= before.update(i as int, (name, store)));
            },
            None => {
                proof {
                    assoc::lemma_added(before, name, store);
                }
                slots.push((path, store));
                assert(slot_views(slots@) =~= before.push((name, store)));
            },
        }
        self.slots = slots;
    }

    /// Takes a path out of the registry.
    pub fn remove(&mut self, path: &str)
        ensures
            final(self)@ == old(self)@.remove(path@),
    {
        proof {
            use_type_invariant(&*self);
        }
        let ghost before = slot_views(self.slots@);
        match self.find(path) {
            Some(i) => {
                let mut slots: Vec<(String, u64)> = Vec::new();
                core::mem::swap(&mut self.slots, &mut slots);
                proof {
                    assoc::lemma_place(before, path@);
                    assoc::lemma_removed(before, i as int);
                }
                let _gone = slots.remove(i);
                assert(slot_views(slots@) =~= before.remove(i as int));
                self.slots = slots;
            },
            None => {
                assert(self@ =~= self@.remove(path@));
            },
        }
    }

    /// Moves the registration of a store whose path turned out to be another,
    /// or finds the store to unite it with.
    pub fn migrate(&mut self, registered: &str, derived: &str, store: u64) -> (outcome: Migration)
        ensures
            outcome == migration(old(self)@, derived@, store),
            final(self)@ == migrated(old(self)@, registered@, derived@, store),
    {
        match self.get(derived) {
            None => {
                if let Some(held) = self.get(registered) {
                    self.remove(registered);
                    self.insert(String::from_str(derived), held);
                }
                Migration::Moved
            },
            Some(occupant) => {
                if occupant == store {
                    Migration::Settled
                } else {
                    self.insert(String::from_str(registered), occupant);
                    Migration::Unified { target: occupant }
                }
            },
        }
    }
}

/// After a migration, both the old key and the one that the path has now lead
/// to one store, where the old key still leads anywhere.
pub proof fn both_keys_lead_to_one_store(
    registry: Map<Seq<char>, u64>,
    registered: Seq<char>,
    derived: Seq<char>,
    store: u64,
)
    requires
        registry.contains_key(registered),
        registry[registered] == store,
        registered != derived,
    ensures
        ({
            let after = migrated(registry, registered, derived, store);
            &&& after.contains_key(derived)
            &&& after.contains_key(registered) ==> after[registered] == after[derived]
        }),
{
}

/// A registration, with what the file system says of it now.
#[derive(Debug)]
pub struct Registration {
    /// The key that the store is registered under.
    pub registered: String,
    /// The key that the store's path has now.
    pub derived: String,
    /// The store.
    pub store: u64,
    /// Whether the store was made under a key that may still change.
    pub provisional: bool,
}

/// A registration as a contract sees it.
pub struct RegistrationView {
    pub registered: Seq<char>,
    pub derived: Seq<char>,
    pub store: u64,
    pub provisional: bool,
}

impl View for Registration {
    type V = RegistrationView;

    open spec fn view(&self) -> RegistrationView {
        RegistrationView {
            registered: self.registered@,
            derived: self.derived@,
            store: self.store,
            provisional: self.provisional,
        }
    }
}

/// What registrations say.
pub open spec fn registration_views(list: Seq<Registration>) -> Seq<RegistrationView> {
    list.map_values(|r: Registration| r@)
}

/// Whether a registration is to be migrated: its key was one that may change,
/// and it has changed.
pub open spec fn is_stale(r: RegistrationView) -> bool {
    r.provisional && r.derived != r.registered
}

/// The registry after the first `n` registrations were migrated as far as they
/// are to be.
pub open spec fn converged(
    registry: Map<Seq<char>, u64>,
    list: Seq<RegistrationView>,
    n: nat,
) -> Map<Seq<char>, u64>
    decreases n,
{
    if n == 0 {
        registry
    } else {
        let before = converged(registry, list, (n - 1) as nat);
        let r = list[n - 1];
        if is_stale(r) {
            migrated(before, r.registered, r.derived, r.store)
        } else {
            before
        }
    }
}

impl StoreRegistry {
    /// The registered paths, each with its store.
    pub fn registrations(&self) -> (out: Vec<(String, u64)>)
        ensures
            forall|i: int|
                0 <= i < out@.len() ==> self@.contains_key((#[trigger] out@[i]).0@)
                    && self@[out@[i].0@] == out@[i].1,
            forall|i: int, j: int|
                0 <= i < j < out@.len() ==> (#[trigger] out@[i]).0@ != (#[trigger] out@[j]).0@,
            forall|path: Seq<char>| #[trigger]
                self@.contains_key(path) ==> exists|i: int|
                    0 <= i < out@.len() && (#[trigger] out@[i]).0@ == path,
    {
        proof {
            use_type_invariant(self);
        }
        let ghost all = slot_views(self.slots@);
        let mut out: Vec<(String, u64)> = Vec::new();
        let mut i: usize = 0;
        while i < self.slots.len()
            invariant
                i <= self.slots.len(),
                out@.len() == i,
                all == slot_views(self.slots@),
                forall|k: int|
                    0 <= k < i ==> (#[trigger] out@[k]).0@ == all[k].0 && out@[k].1 == all[k].1,
            decreases self.slots.len() - i,
        {
            assert(all[i as int] == (self.slots@[i as int].0@, self.slots@[i as int].1));
            out.push((String::from_str(self.slots[i].0.as_str()), self.slots[i].1));
            i = i + 1;
        }
        proof {
            assert forall|k: int| 0 <= k < out@.len() implies self@.contains_key(
                (#[trigger] out@[k]).0@,
            ) && self@[out@[k].0@] == out@[k].1 by {
                assoc::lemma_found(all, all[k].0, k);
            }
            assert forall|a: int, b: int| 0 <= a < b < out@.len() implies (#[trigger] out@[a]).0@
                != (#[trigger] out@[b]).0@ by {
                assert(all[a].0 != all[b].0);
            }
            assert forall|path: Seq<char>| #[trigger] self@.contains_key(path) implies exists|k: int|
                0 <= k < out@.len() && (#[trigger] out@[k]).0@ == path by {
                assoc::lemma_place(all, path);
                let k = assoc::place(all, path);
                assert(out@[k].0@ == path);
            }
        }
        out
    }

    /// Migrates the registrations whose key has changed, one after the other.
    /// The result says of each what came of it, or nothing where it stays.
    pub fn migrate_provisional_entries(&mut self, found: &Vec<Registration>) -> (outcomes: Vec<
        Option<Migration>,
    >)
        ensures
            final(self)@ == converged(old(self)@, registration_views(found@), found@.len()),
            outcomes@.len() == found@.len(),
            forall|i: int|
                0 <= i < found@.len() ==> #[trigger] outcomes@[i] == if is_stale(found@[i]@) {
                    Some(
                        migration(
                            converged(old(self)@, registration_views(found@), i as nat),
                            found@[i]@.derived,
                            found@[i]@.store,
                        ),
                    )
                } else {
                    None
                },
    {
        let ghost list = registration_views(found@);
        let ghost start = self@;
        let mut outcomes: Vec<Option<Migration>> = Vec::new();
        let mut i: usize = 0;
        while i < found.len()
            invariant
                i <= found.len(),
                outcomes@.len() == i,
                list == registration_views(found@),
                self@ == converged(start, list, i as nat),
                forall|k: int|
                    0 <= k < i ==> #[trigger] outcomes@[k] == if is_stale(found@[k]@) {
                        Some(
                            migration(
                                converged(start, list, k as nat),
                                found@[k]@.derived,
                                found@[k]@.store,
                            ),
                        )
                    } else {
                        None
                    },
            decreases found.len() - i,
        {
            let r = &found[i];
            assert(list[i as int] == r@);
            if r.provisional && !text::same_text(r.derived.as_str(), r.registered.as_str()) {
                let outcome = self.migrate(r.registered.as_str(), r.derived.as_str(), r.store);
                outcomes.push(Some(outcome));
            } else {
                outcomes.push(None);
            }
            i = i + 1;
        }
        outcomes
    }
}

/// A key that no stale registration has, or had, leads where it led.
pub proof fn migrating_leaves_other_keys_alone(
    registry: Map<Seq<char>, u64>,
    list: Seq<RegistrationView>,
    n: nat,
    key: Seq<char>,
)
    requires
        n <= list.len(),
        forall|i: int|
            0 <= i < n && is_stale(#[trigger] list[i]) ==> list[i].registered != key
                && list[i].derived != key,
    ensures
        converged(registry, list, n).contains_key(key) == registry.contains_key(key),
        registry.contains_key(key) ==> converged(registry, list, n)[key] == registry[key],
    decreases n,
{
    if n > 0 {
        migrating_leaves_other_keys_alone(registry, list, (n - 1) as nat, key);
        let r = list[n - 1];
        if is_stale(r) {
            assert(r.registered != key && r.derived != key);
        }
    }
}

/// Where every key is settled, nothing is migrated.
pub proof fn a_settled_registry_stays(
    registry: Map<Seq<char>, u64>,
    list: Seq<RegistrationView>,
    n: nat,
)
    requires
        n <= list.len(),
        forall|i: int| 0 <= i < n ==> !is_stale(#[trigger] list[i]),
    ensures
        converged(registry, list, n) == registry,
    decreases n,
{
    if n > 0 {
        a_settled_registry_stays(registry, list, (n - 1) as nat);
        assert(!is_stale(list[n - 1]));
    }
}

/// A path that can be told is its own key for good. A link is followed, at most
/// seven times in a row and not once more; and a path that is missing goes by
/// its parent, as does the eighth link's target.
pub proof fn links_are_followed_up_to_the_limit(
    current: Seq<char>,
    follows: nat,
    target: String,
)
    ensures
        after_locating(current, follows, Located::Canonical(target)) == (KeyView::Done {
            key: target@,
            provisional: false,
        }),
        follows < 7 ==> after_locating(current, follows, Located::Link(target)) == (
        KeyView::Locate { current: target@, follows: follows + 1 }),
        follows >= 7 ==> after_locating(current, follows, Located::Link(target)) == (
        KeyView::Parent { current: target@, exhausted: true }),
        after_locating(current, follows, Located::Missing) == (KeyView::Parent {
            current,
            exhausted: false,
        }),
{
}

/// A store moves to a key that nobody has, stays where the key is its own
/// already, and gives way to another store that has it.
pub proof fn a_store_gives_way_to_the_one_that_is_there(
    registry: Map<Seq<char>, u64>,
    registered: Seq<char>,
    derived: Seq<char>,
    store: u64,
)
    ensures
        ({
            let after = migrated(registry, registered, derived, store);
            &&& !registry.contains_key(derived) ==> migration(registry, derived, store)
                == Migration::Moved
            &&& registry.contains_key(derived) && registry[derived] == store ==> migration(
                registry,
                derived,
                store,
            ) == Migration::Settled && after == registry
            &&& registry.contains_key(derived) && registry[derived] != store ==> migration(
                registry,
                derived,
                store,
            ) == (Migration::Unified { target: registry[derived] }) && after.contains_key(
                registered,
            ) && after[registered] == registry[derived] && after[derived] == registry[derived]
            &&& !registry.contains_key(derived) && registry.contains_key(registered) && registered
                != derived ==> after.contains_key(derived) && after[derived] == registry[registered]
                && !after.contains_key(registered)
            &&& !registry.contains_key(derived) && !registry.contains_key(registered) ==> after
                == registry
            &&& forall|key: Seq<char>|
                key != registered && key != derived ==> #[trigger] after.contains_key(key)
                    == registry.contains_key(key)
            &&& forall|key: Seq<char>|
                key != registered && key != derived && #[trigger] registry.contains_key(key)
                    ==> after[key] == registry[key]
        }),
{
}

/// Every stale registration is migrated in its turn, and no other: one whose
/// key may still change and has changed.
pub proof fn every_stale_registration_is_migrated(
    registry: Map<Seq<char>, u64>,
    list: Seq<RegistrationView>,
    r: RegistrationView,
)
    ensures
        ({
            let before = converged(registry, list, list.len());
            let after = converged(registry, list.push(r), list.len() + 1);
            &&& r.provisional && r.derived != r.registered ==> after == migrated(
                before,
                r.registered,
                r.derived,
                r.store,
            )
            &&& !r.provisional || r.derived == r.registered ==> after == before
        }),
        converged(registry, Seq::empty(), 0) == registry,
{
    let more = list.push(r);
    lemma_same_registrations(registry, list, more, list.len());
    assert(more[list.len() as int] == r);
}

proof fn lemma_same_registrations(
    registry: Map<Seq<char>, u64>,
    a: Seq<RegistrationView>,
    b: Seq<RegistrationView>,
    n: nat,
)
    requires
        n <= a.len(),
        n <= b.len(),
        forall|i: int| 0 <= i < n ==> a[i] == b[i],
    ensures
        converged(registry, a, n) == converged(registry, b, n),
    decreases n,
{
    if n > 0 {
        lemma_same_registrations(registry, a, b, (n - 1) as nat);
        assert(a[n - 1] == b[n - 1]);
    }
}

} // verus!
