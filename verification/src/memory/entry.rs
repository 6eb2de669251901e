//! Memory entries.

use vstd::prelude::*;

use crate::ids;
use crate::single::Single;
use crate::text;

verus! {

/// The kind of knowledge that an entry holds.
#[derive(Debug, Clone, Copy, PartialEq, Eq, Structural)]
pub enum MemoryCategory {
    /// A record of what the agent did.
    Trajectory,
    /// An observation worth keeping.
    Insight,
    /// An error and what helps against it.
    ErrorPattern,
    /// A way of working that succeeded.
    Strategy,
    /// A fact about the project.
    Fact,
    /// Short-lived working memory.
    Working,
}

/// One remembered thing.
///
/// Instants are nanoseconds since the Unix epoch.
#[derive(Debug)]
pub struct MemoryEntry {
    pub id: u128,
    pub category: MemoryCategory,
    pub memory: String,
    pub tags: Vec<String>,
    pub created_at: i128,
    pub last_accessed: Option<i128>,
    pub last_decayed: Option<i128>,
    pub relevance: Single,
    pub access_count: usize,
    pub validated: bool,
}

/// What an entry holds.
pub struct EntryView {
    pub id: u128,
    pub category: MemoryCategory,
    pub memory: Seq<char>,
    pub tags: Seq<Seq<char>>,
    pub created_at: i128,
    pub last_accessed: Option<i128>,
    pub last_decayed: Option<i128>,
    pub relevance: Single,
    pub access_count: usize,
    pub validated: bool,
}

impl View for MemoryEntry {
    type V = EntryView;

    open spec fn view(&self) -> EntryView {
        EntryView {
            id: self.id,
            category: self.category,
            memory: self.memory@,
            tags: text::texts(self.tags@),
            created_at: self.created_at,
            last_accessed: self.last_accessed,
            last_decayed: self.last_decayed,
            relevance: self.relevance,
            access_count: self.access_count,
            validated: self.validated,
        }
    }
}

/// What a list of entries holds.
pub open spec fn entry_views(entries: Seq<MemoryEntry>) -> Seq<EntryView> {
    entries.map_values(|e: MemoryEntry| e@)
}

impl Clone for MemoryEntry {
    fn clone(&self) -> (r: Self)
        ensures
            r@ == self@,
    {
        MemoryEntry {
            id: self.id,
            category: self.category,
            memory: self.memory.clone(),
            tags: text::copy_texts(&self.tags),
            created_at: self.created_at,
            last_accessed: self.last_accessed,
            last_decayed: self.last_decayed,
            relevance: self.relevance,
            access_count: self.access_count,
            validated: self.validated,
        }
    }
}

/// Copies a list of entries.
pub fn copy_entries(entries: &Vec<MemoryEntry>) -> (out: Vec<MemoryEntry>)
    ensures
        entry_views(out@) == entry_views(entries@),
{
    let mut out: Vec<MemoryEntry> = Vec::new();
    let mut i: usize = 0;
    while i < entries.len()
        invariant
            i <= entries.len(),
            entry_views(out@) == entry_views(entries@).take(i as int),
        decreases entries.len() - i,
    {
        let copy = entries[i].clone();
        proof {
            assert(entry_views(out@.push(copy)) =~= entry_views(out@).push(copy@));
            assert(entry_views(entries@).take(i + 1) =~= entry_views(entries@).take(i as int).push(
                entries@[i as int]@,
            ));
        }
        out.push(copy);
        i = i + 1;
    }
    assert(entry_views(entries@).take(entries@.len() as int) =~= entry_views(entries@));
    out
}

/// The relevance of an entry that was made deliberately: 1.0.
pub const FULL_RELEVANCE: u32 = 0x3f80_0000;

/// The relevance of an entry that was made by default: 0.5.
pub const DEFAULT_RELEVANCE: u32 = 0x3f00_0000;

/// The entry that holds `memory` and nothing else yet.
pub open spec fn fresh_entry(
    id: u128,
    category: MemoryCategory,
    memory: Seq<char>,
    created_at: i128,
    relevance: Single,
) -> EntryView {
    EntryView {
        id,
        category,
        memory,
        tags: Seq::empty(),
        created_at,
        last_accessed: None,
        last_decayed: None,
        relevance,
        access_count: 0,
        validated: false,
    }
}

impl MemoryEntry {
    /// An entry with full relevance under a fresh random id.
    pub fn new(category: MemoryCategory, memory: String, created_at: i128) -> (r: Self)
        ensures
            r@ == fresh_entry(
                r.id,
                category,
                memory@,
                created_at,
                (Single { bits: FULL_RELEVANCE }),
            ),
            ids::is_random_id(r.id),
    {
        let tags: Vec<String> = Vec::new();
        assert(text::texts(tags@) =~= Seq::<Seq<char>>::empty());
        MemoryEntry {
            id: ids::mint_uuid(),
            category,
            memory,
            tags,
            created_at,
            last_accessed: None,
            last_decayed: None,
            relevance: Single { bits: FULL_RELEVANCE },
            access_count: 0,
            validated: false,
        }
    }

    /// An empty working entry of middling relevance, under a fresh random id.
    pub fn working(created_at: i128) -> (r: Self)
        ensures
            r@ == fresh_entry(
                r.id,
                MemoryCategory::Working,
                Seq::empty(),
                created_at,
                (Single { bits: DEFAULT_RELEVANCE }),
            ),
            ids::is_random_id(r.id),
    {
        let mut r = MemoryEntry::new(MemoryCategory::Working, String::new(), created_at);
        r.relevance = Single { bits: DEFAULT_RELEVANCE };
        r
    }

    /// The entry with one more tag.
    pub fn with_tag(self, tag: String) -> (r: Self)
        ensures
            r@ == (EntryView { tags: self@.tags.push(tag@), ..self@ }),
    {
        let mut r = self;
        r.tags.push(tag);
        assert(text::texts(r.tags@) =~= self@.tags.push(tag@));
        r
    }

    /// The entry marked as validated.
    pub fn validated(self) -> (r: Self)
        ensures
            r@ == (EntryView { validated: true, ..self@ }),
    {
        let mut r = self;
        r.validated = true;
        r
    }
}

/// What a consolidation pass did.
#[derive(Debug, Clone, Copy, PartialEq, Eq, Structural)]
pub struct ConsolidationStats {
    /// Entries before the pass.
    pub entries_before: usize,
    /// Entries after the pass.
    pub entries_after: usize,
    /// Entries that fell below the floor.
    pub pruned: usize,
    /// Entries that were merged into another.
    pub merged: usize,
    /// Text bytes of the pruned and merged entries.
    pub bytes_saved: usize,
}

impl Default for ConsolidationStats {
    fn default() -> (r: Self)
        ensures
            r == (ConsolidationStats {
                entries_before: 0,
                entries_after: 0,
                pruned: 0,
                merged: 0,
                bytes_saved: 0,
            }),
    {
        ConsolidationStats {
            entries_before: 0,
            entries_after: 0,
            pruned: 0,
            merged: 0,
            bytes_saved: 0,
        }
    }
}

/// An entry that was just made was never looked up, decayed or confirmed, and
/// has no tags.
pub proof fn a_fresh_entry_has_no_history(
    id: u128,
    category: MemoryCategory,
    memory: Seq<char>,
    created_at: i128,
    relevance: Single,
)
    ensures
        ({
            let e = fresh_entry(id, category, memory, created_at, relevance);
            &&& e.id == id
            &&& e.category == category
            &&& e.memory == memory
            &&& e.created_at == created_at
            &&& e.relevance == relevance
            &&& e.tags.len() == 0
            &&& e.last_accessed is None
            &&& e.last_decayed is None
            &&& e.access_count == 0
            &&& !e.validated
        }),
{
}

/// Full relevance is one, and the relevance of working memory one half.
pub proof fn relevance_starts_in_the_unit_interval()
    ensures
        FULL_RELEVANCE == 0x3f80_0000,
        DEFAULT_RELEVANCE == 0x3f00_0000,
{
}

} // verus!
