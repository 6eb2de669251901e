//! Results of tool calls that are handed out again.

pub mod builtin;

use vstd::prelude::*;

use crate::assoc;
use crate::hashing;
use crate::json;
use crate::message;
use crate::message::{ResultPartView, ResultView, ToolResult, ToolResultPart};
use crate::middleware::dispatch::{CallView, DispatchView, ToolDispatchContext, ToolDispatchResult};
use crate::text;

verus! {

/// Says which paths a call touches.
pub trait PathExtractor {
    /// The paths that a call touches, from the root on.
    fn paths(&self, tool_name: &str, input: &str) -> (paths: Vec<String>);

    /// The paths that a call touches that runs in the directory `cwd`. Where
    /// the directory makes no difference, this is left to what is said of the
    /// call alone.
    fn paths_with_cwd(&self, tool_name: &str, input: &str, cwd: &str) -> (paths: Vec<String>)
        default_ensures
            call_ensures(Self::paths, (self, tool_name, input), paths),
    {
        self.paths(tool_name, input)
    }
}

/// Says of every call that it touches nothing.
#[derive(Debug, Clone, Copy)]
pub struct NoopPathExtractor;

impl PathExtractor for NoopPathExtractor {
    fn paths(&self, tool_name: &str, input: &str) -> (paths: Vec<String>)
        ensures
            paths@.len() == 0,
    {
        Vec::new()
    }

    fn paths_with_cwd(&self, tool_name: &str, input: &str, cwd: &str) -> (paths: Vec<String>)
        ensures
            paths@.len() == 0,
    {
        Vec::new()
    }
}

// ---------------------------------------------------------------------------
// Keys and entries
// ---------------------------------------------------------------------------

/// A tool and the hash of its input.
#[derive(Debug, PartialEq, Eq)]
pub struct CacheKey {
    pub tool_name: String,
    pub input_hash: u64,
}

/// What a key says.
pub struct KeyView {
    pub tool_name: Seq<char>,
    pub input_hash: u64,
}

impl View for CacheKey {
    type V = KeyView;

    open spec fn view(&self) -> KeyView {
        KeyView { tool_name: self.tool_name@, input_hash: self.input_hash }
    }
}

impl Clone for CacheKey {
    fn clone(&self) -> (r: Self)
        ensures
            r@ == self@,
    {
        CacheKey {
            tool_name: String::from_str(self.tool_name.as_str()),
            input_hash: self.input_hash,
        }
    }
}

/// The key of a call. Its input counts in its compact form, so that neither
/// spaces nor the order of its keys matter.
pub open spec fn key_of(tool_name: Seq<char>, input: Seq<char>) -> KeyView {
    KeyView {
        tool_name,
        input_hash: hashing::text_hash(json::canonical(input)),
    }
}

/// The key of a call.
pub fn make_key(tool_name: &str, input: &str) -> (key: CacheKey)
    ensures
        key@ == key_of(tool_name@, input@),
{
    let canonical = json::canonical_text(input);
    CacheKey {
        tool_name: String::from_str(tool_name),
        input_hash: hashing::hash_text(canonical.as_str()),
    }
}

/// A result that was kept.
#[derive(Debug)]
pub struct CacheEntry {
    pub result: ToolDispatchResult,
    pub turn_inserted: usize,
    pub paths: Vec<String>,
}

/// What a kept result says.
pub struct KeptView {
    pub result: DispatchView,
    pub turn_inserted: nat,
    pub paths: Seq<Seq<char>>,
}

impl View for CacheEntry {
    type V = KeptView;

    open spec fn view(&self) -> KeptView {
        KeptView {
            result: self.result@,
            turn_inserted: self.turn_inserted as nat,
            paths: text::texts(self.paths@),
        }
    }
}

/// Whether a kept result is too old.
pub open spec fn expired(kept: KeptView, turn: nat, ttl: u32) -> bool {
    let age: int = if turn >= kept.turn_inserted {
        turn - kept.turn_inserted
    } else {
        0
    };
    age >= ttl
}

/// Whether two lists of paths have one in common.
pub open spec fn overlap(a: Seq<Seq<char>>, b: Seq<Seq<char>>) -> bool {
    exists|i: int| 0 <= i < a.len() && b.contains(#[trigger] a[i])
}

// ---------------------------------------------------------------------------
// The cache
// ---------------------------------------------------------------------------

/// The results that are kept, one to a key.
#[derive(Debug)]
pub struct ResultCache {
    slots: Vec<(CacheKey, CacheEntry)>,
}

spec fn slot_views(slots: Seq<(CacheKey, CacheEntry)>) -> Seq<(KeyView, KeptView)> {
    slots.map_values(|s: (CacheKey, CacheEntry)| (s.0@, s.1@))
}

impl View for ResultCache {
    type V = Map<KeyView, KeptView>;

    closed spec fn view(&self) -> Map<KeyView, KeptView> {
        assoc::as_map(slot_views(self.slots@))
    }
}

/// The cache after a result was asked for: one that is too old is dropped.
pub open spec fn looked_up(cache: Map<KeyView, KeptView>, key: KeyView, turn: nat, ttl: u32) -> Map<
    KeyView,
    KeptView,
> {
    if cache.contains_key(key) && expired(cache[key], turn, ttl) {
        cache.remove(key)
    } else {
        cache
    }
}

/// What a cache hands out.
pub open spec fn fresh(
    cache: Map<KeyView, KeptView>,
    key: KeyView,
    turn: nat,
    ttl: u32,
) -> Option<DispatchView> {
    if cache.contains_key(key) && !expired(cache[key], turn, ttl) {
        Some(cache[key].result)
    } else {
        None
    }
}

/// The cache after a write: what touched one of its paths is dropped.
pub open spec fn invalidated(cache: Map<KeyView, KeptView>, paths: Seq<Seq<char>>) -> Map<
    KeyView,
    KeptView,
> {
    Map::new(
        |key: KeyView| cache.contains_key(key) && !overlap(cache[key].paths, paths),
        |key: KeyView| cache[key],
    )
}

fn paths_overlap(a: &Vec<String>, b: &Vec<String>) -> (r: bool)
    ensures
        r == overlap(text::texts(a@), text::texts(b@)),
{
    let ghost mine = text::texts(a@);
    let ghost theirs = text::texts(b@);
    let mut i: usize = 0;
    while i < a.len()
        invariant
            i <= a.len(),
            mine == text::texts(a@),
            theirs == text::texts(b@),
            forall|k: int| 0 <= k < i ==> !theirs.contains(#[trigger] mine[k]),
        decreases a.len() - i,
    {
        assert(mine[i as int] == a@[i as int]@);
        if text::list_contains(b, a[i].as_str()) {
            return true;
        }
        i = i + 1;
    }
    false
}

impl ResultCache {
    #[verifier::type_invariant]
    spec fn well_formed(&self) -> bool {
        assoc::keys_differ(slot_views(self.slots@))
    }

    /// A cache that keeps nothing.
    pub fn new() -> (r: Self)
        ensures
            r@ == Map::<KeyView, KeptView>::empty(),
    {
        let r = ResultCache { slots: Vec::new() };
        assert(r@ =~= Map::<KeyView, KeptView>::empty());
        r
    }

    /// The number of results that are kept.
    pub fn len(&self) -> (n: usize)
        ensures
            self@.dom().finite(),
            n == self@.len(),
    {
        proof {
            use_type_invariant(self);
            assoc::lemma_size(slot_views(self.slots@));
        }
        self.slots.len()
    }

    fn find(&self, key: &CacheKey) -> (place: Option<usize>)
        ensures
            ({
                let all = slot_views(self.slots@);
                match place {
                    Some(i) => i == assoc::place(all, key@) && i < all.len(),
                    None => assoc::place(all, key@) == all.len(),
                }
            }),
    {
        let ghost all = slot_views(self.slots@);
        let mut i: usize = 0;
        assert(all.skip(0) =~= all);
        while i < self.slots.len()
            invariant
                i <= self.slots.len(),
                all == slot_views(self.slots@),
                assoc::place(all, key@) == i + assoc::place(all.skip(i as int), key@),
            decreases self.slots.len() - i,
        {
            assert(all.skip(i as int)[0] == all[i as int]);
            let here = &self.slots[i].0;
            if here.input_hash == key.input_hash && text::same_text(
                here.tool_name.as_str(),
                key.tool_name.as_str(),
            ) {
                return Some(i);
            }
            assert(all.skip(i as int).skip(1) =~= all.skip(i + 1));
            i = i + 1;
        }
        None
    }

    /// Whether a result is kept under a key.
    pub fn contains_key(&self, key: &CacheKey) -> (r: bool)
        ensures
            r == self@.contains_key(key@),
    {
        self.find(key).is_some()
    }

    /// Keeps a result, in place of any other under its key.
    pub fn insert(&mut self, key: CacheKey, entry: CacheEntry)
        ensures
            final(self)@ == old(self)@.insert(key@, entry@),
    {
        proof {
            use_type_invariant(&*self);
        }
        let ghost before = slot_views(self.slots@);
        let ghost name = key@;
        let ghost value = entry@;
        let place = self.find(&key);
        let mut slots: Vec<(CacheKey, CacheEntry)> = Vec::new();
        core::mem::swap(&mut self.slots, &mut slots);
        match place {
            Some(i) => {
                proof {
                    assoc::lemma_replaced(before, name, value);
                }
                slots.set(i, (key, entry));
                assert(slot_views(slots@) =~= before.update(i as int, (name, value)));
            },
            None => {
                proof {
                    assoc::lemma_added(before, name, value);
                }
                slots.push((key, entry));
                assert(slot_views(slots@) =~= before.push((name, value)));
            },
        }
        self.slots = slots;
    }

    /// The result under a key, where it is not too old. One that is too old is
    /// dropped.
    pub fn lookup_fresh(&mut self, key: &CacheKey, turn: usize, ttl: u32) -> (found: Option<
        ToolDispatchResult,
    >)
        ensures
            final(self)@ == looked_up(old(self)@, key@, turn as nat, ttl),
            match found {
                Some(r) => fresh(old(self)@, key@, turn as nat, ttl) == Some(r@),
                None => fresh(old(self)@, key@, turn as nat, ttl) is None,
            },
    {
        proof {
            use_type_invariant(&*self);
        }
        let ghost before = slot_views(self.slots@);
        match self.find(key) {
            None => None,
            Some(i) => {
                let inserted: usize = self.slots[i].1.turn_inserted;
                let age: usize = if turn >= inserted {
                    turn - inserted
                } else {
                    0
                };
                assert(before[i as int].1.turn_inserted == inserted);
                if age as u128 >= ttl as u128 {
                    let mut slots: Vec<(CacheKey, CacheEntry)> = Vec::new();
                    core::mem::swap(&mut self.slots, &mut slots);
                    proof {
                        assoc::lemma_place(before, key@);
                        assoc::lemma_removed(before, i as int);
                    }
                    let _gone = slots.remove(i);
                    assert(slot_views(slots@) =~= before.remove(i as int));
                    self.slots = slots;
                    None
                } else {
                    Some(self.slots[i].1.result.clone())
                }
            },
        }
    }

    /// Drops the results that touched one of these paths.
    pub fn invalidate_paths(&mut self, paths: &Vec<String>)
        ensures
            final(self)@ == invalidated(old(self)@, text::texts(paths@)),
    {
        proof {
            use_type_invariant(&*self);
        }
        let ghost start = slot_views(self.slots@);
        let ghost cache = assoc::as_map(start);
        let ghost written = text::texts(paths@);
        let mut slots: Vec<(CacheKey, CacheEntry)> = Vec::new();
        core::mem::swap(&mut self.slots, &mut slots);
        let mut i: usize = slots.len();
        while i > 0
            invariant
                i <= slots.len(),
                written == text::texts(paths@),
                assoc::keys_differ(slot_views(slots@)),
                forall|key: KeyView| #[trigger]
                    assoc::as_map(slot_views(slots@)).contains_key(key) ==> cache.contains_key(key)
                        && assoc::as_map(slot_views(slots@))[key] == cache[key],
                forall|key: KeyView| #[trigger]
                    cache.contains_key(key) && !overlap(cache[key].paths, written)
                        ==> assoc::as_map(slot_views(slots@)).contains_key(key),
                forall|k: int|
                    i <= k < slots.len() ==> !overlap(
                        (#[trigger] slot_views(slots@)[k]).1.paths,
                        written,
                    ),
            decreases i,
        {
            let ghost before = slot_views(slots@);
            let at: usize = i - 1;
            assert(before[at as int] == (slots@[at as int].0@, slots@[at as int].1@));
            if paths_overlap(&slots[at].1.paths, paths) {
                proof {
                    assoc::lemma_removed(before, at as int);
                    assoc::lemma_found(before, before[at as int].0, at as int);
                }
                let _gone = slots.remove(at);
                proof {
                    assert(slot_views(slots@) =~= before.remove(at as int));
                    assert forall|k: int| at <= k < slots.len() implies !overlap(
                        (#[trigger] slot_views(slots@)[k]).1.paths,
                        written,
                    ) by {
                        assert(slot_views(slots@)[k] == before[k + 1]);
                    }
                }
            }
            i = at;
        }
        proof {
            let after = slot_views(slots@);
            let want = invalidated(cache, written);
            assert forall|key: KeyView| #[trigger] assoc::as_map(after).contains_key(
                key,
            ) <==> want.contains_key(key) by {
                if assoc::as_map(after).contains_key(key) {
                    assoc::lemma_place(after, key);
                    assert(!overlap(after[assoc::place(after, key)].1.paths, written));
                }
            }
            assert(assoc::as_map(after) =~= want);
        }
        self.slots = slots;
    }
}

/// A result that is kept is handed out until it is too old.
pub proof fn what_is_kept_is_handed_out(
    cache: Map<KeyView, KeptView>,
    key: KeyView,
    kept: KeptView,
    turn: nat,
    ttl: u32,
)
    ensures
        turn < kept.turn_inserted + ttl && ttl > 0 ==> fresh(
            cache.insert(key, kept),
            key,
            turn,
            ttl,
        ) == Some(kept.result),
        turn >= kept.turn_inserted + ttl ==> fresh(cache.insert(key, kept), key, turn, ttl) is None,
{
}

/// A write drops what touched one of its paths and nothing else; a write
/// without paths drops nothing.
pub proof fn a_write_drops_only_what_it_touches(
    cache: Map<KeyView, KeptView>,
    key: KeyView,
    paths: Seq<Seq<char>>,
)
    requires
        cache.contains_key(key),
    ensures
        overlap(cache[key].paths, paths) ==> !invalidated(cache, paths).contains_key(key),
        !overlap(cache[key].paths, paths) ==> invalidated(cache, paths).contains_key(key)
            && invalidated(cache, paths)[key] == cache[key],
        invalidated(cache, Seq::empty()) == cache,
{
    let none = Seq::<Seq<char>>::empty();
    assert forall|k: KeyView| cache.contains_key(k) implies !overlap(
        #[trigger] cache[k].paths,
        none,
    ) by {}
    assert(invalidated(cache, none) =~= cache);
}

// ---------------------------------------------------------------------------
// The layer
// ---------------------------------------------------------------------------

/// A result with the mark of one that was handed out before.
pub open spec fn marked_cached(output: ResultView) -> ResultView {
    match output {
        ResultView::Text(s) => ResultView::Text(s + "\n[cached]"@),
        ResultView::Multipart(parts) => ResultView::Multipart(
            parts.push(ResultPartView::Text { text: "[cached]"@ }),
        ),
    }
}

/// Marks a result as one that was handed out before.
pub fn append_cached_marker(output: &mut ToolResult)
    ensures
        final(output)@ == marked_cached(old(output)@),
{
    match output {
        ToolResult::Text(s) => {
            text::push_text(s, "\n[cached]");
        },
        ToolResult::Multipart(parts) => {
            let ghost before = parts@;
            let part = ToolResultPart::text("[cached]");
            parts.push(part);
            assert(message::result_parts(parts@) =~= message::result_parts(before).push(part@));
        },
    }
}

/// Keeps the results of some tools, and drops them when others write.
#[derive(Debug)]
pub struct MemoizingMiddleware<E> {
    cache: ResultCache,
    tools: Vec<String>,
    write_tools: Vec<String>,
    path_extractor: E,
    ttl_turns: u32,
}

/// What the layer goes by.
pub struct MemoView {
    pub cache: Map<KeyView, KeptView>,
    pub tools: Seq<Seq<char>>,
    pub write_tools: Seq<Seq<char>>,
    pub ttl_turns: u32,
}

impl<E> View for MemoizingMiddleware<E> {
    type V = MemoView;

    closed spec fn view(&self) -> MemoView {
        MemoView {
            cache: self.cache@,
            tools: text::texts(self.tools@),
            write_tools: text::texts(self.write_tools@),
            ttl_turns: self.ttl_turns,
        }
    }
}

/// What is to be remembered of a call while it runs.
#[derive(Debug)]
pub struct PendingCall {
    pub key: Option<CacheKey>,
    pub is_write: bool,
    pub turn: usize,
}

/// What happens to a call before it runs.
#[derive(Debug)]
pub enum MemoStep {
    /// It does not run: this is its result.
    Hit(ToolDispatchResult),
    /// It runs.
    Run(PendingCall),
}

/// A kept result as it is handed out.
pub open spec fn handed_out(result: DispatchView) -> DispatchView {
    DispatchView { output: marked_cached(result.output), duration: 0, ..result }
}

/// The layer after a call ran.
pub open spec fn after_call(
    memo: MemoView,
    key: Option<KeyView>,
    is_write: bool,
    turn: nat,
    result: DispatchView,
    paths: Seq<Seq<char>>,
) -> MemoView {
    if result.is_error {
        memo
    } else if is_write {
        MemoView { cache: invalidated(memo.cache, paths), ..memo }
    } else if let Some(k) = key {
        MemoView {
            cache: memo.cache.insert(k, KeptView { result, turn_inserted: turn, paths }),
            ..memo
        }
    } else {
        memo
    }
}

/// The key of a pending call.
pub open spec fn pending_key(pending: PendingCall) -> Option<KeyView> {
    match pending.key {
        Some(k) => Some(k@),
        None => None,
    }
}

impl<E> MemoizingMiddleware<E> {
    /// What says which paths a call touches.
    pub closed spec fn extractor(&self) -> E {
        self.path_extractor
    }

    /// A layer that keeps the results of `tools` for `ttl_turns` turns, and
    /// drops them when one of `write_tools` writes to what they touched.
    pub fn new(
        tools: Vec<String>,
        write_tools: Vec<String>,
        path_extractor: E,
        ttl_turns: u32,
    ) -> (r: Self)
        ensures
            r@ == (MemoView {
                cache: Map::empty(),
                tools: text::texts(tools@),
                write_tools: text::texts(write_tools@),
                ttl_turns,
            }),
            r.extractor() == path_extractor,
    {
        MemoizingMiddleware {
            cache: ResultCache::new(),
            tools,
            write_tools,
            path_extractor,
            ttl_turns,
        }
    }

    /// The name of the layer.
    pub fn name(&self) -> (r: &'static str)
        ensures
            r@ == "memoize"@,
    {
        "memoize"
    }

    /// The number of results that are kept.
    pub fn cached(&self) -> (n: usize)
        ensures
            self@.cache.dom().finite(),
            n == self@.cache.len(),
    {
        self.cache.len()
    }

    /// What happens to a call before it runs: a result that is kept and not
    /// too old is handed out, marked and without a duration.
    pub fn before_dispatch(&mut self, ctx: &ToolDispatchContext) -> (step: MemoStep)
        ensures
            final(self).extractor() == old(self).extractor(),
            ({
                let memo = old(self)@;
                let key = key_of(ctx@.tool_name, ctx@.input);
                let memoized = memo.tools.contains(ctx@.tool_name);
                let found = fresh(memo.cache, key, ctx@.turn_number, memo.ttl_turns);
                &&& final(self)@ == (MemoView {
                    cache: if memoized {
                        looked_up(memo.cache, key, ctx@.turn_number, memo.ttl_turns)
                    } else {
                        memo.cache
                    },
                    ..memo
                })
                &&& match step {
                    MemoStep::Hit(result) => {
                        &&& memoized
                        &&& found is Some
                        &&& result@ == handed_out(found->0)
                    },
                    MemoStep::Run(pending) => {
                        &&& !(memoized && found is Some)
                        &&& pending_key(pending) == if memoized {
                            Some(key)
                        } else {
                            None
                        }
                        &&& pending.is_write == memo.write_tools.contains(ctx@.tool_name)
                        &&& pending.turn == ctx@.turn_number
                    },
                }
            }),
    {
        let is_write = text::list_contains(&self.write_tools, ctx.tool_name.as_str());
        if !text::list_contains(&self.tools, ctx.tool_name.as_str()) {
            return MemoStep::Run(PendingCall { key: None, is_write, turn: ctx.turn_number });
        }
        let key = make_key(ctx.tool_name.as_str(), ctx.input.as_str());
        match self.cache.lookup_fresh(&key, ctx.turn_number, self.ttl_turns) {
            Some(found) => {
                let mut result = found;
                append_cached_marker(&mut result.output);
                result.duration = 0;
                MemoStep::Hit(result)
            },
            None => MemoStep::Run(PendingCall { key: Some(key), is_write, turn: ctx.turn_number }),
        }
    }

    /// Takes note of a call that ran, given the paths that it touched. Only a
    /// success is kept, and only a successful write drops anything.
    pub fn record(&mut self, pending: PendingCall, result: &ToolDispatchResult, paths: Vec<String>)
        ensures
            final(self).extractor() == old(self).extractor(),
            final(self)@ == after_call(
                old(self)@,
                pending_key(pending),
                pending.is_write,
                pending.turn as nat,
                result@,
                text::texts(paths@),
            ),
    {
        if result.is_error {
            return;
        }
        if pending.is_write {
            self.cache.invalidate_paths(&paths);
        } else if let Some(key) = pending.key {
            let entry = CacheEntry {
                result: result.clone(),
                turn_inserted: pending.turn,
                paths,
            };
            self.cache.insert(key, entry);
        }
    }
}

/// Whether the paths that a call touched matter: it succeeded, and it wrote or
/// its result is kept.
pub open spec fn is_noted(pending: PendingCall, result: DispatchView) -> bool {
    !result.is_error && (pending.is_write || pending.key is Some)
}

/// Whether `paths` are what an extractor says that a call touches.
pub open spec fn are_paths<E: PathExtractor>(
    extractor: E,
    ctx: CallView,
    paths: Seq<Seq<char>>,
) -> bool {
    exists|tool_name: &str, input: &str, cwd: &str, given: Vec<String>|
        {
            &&& tool_name@ == ctx.tool_name
            &&& input@ == ctx.input
            &&& cwd@ == ctx.cwd
            &&& text::texts(given@) == paths
            &&& #[trigger] call_ensures(
                E::paths_with_cwd,
                (&extractor, tool_name, input, cwd),
                given,
            )
        }
}

impl<E: PathExtractor> MemoizingMiddleware<E> {
    /// Takes note of a call that ran. What it touched is asked only where that
    /// matters.
    pub fn after_dispatch(
        &mut self,
        pending: PendingCall,
        ctx: &ToolDispatchContext,
        result: &ToolDispatchResult,
    )
        ensures
            final(self).extractor() == old(self).extractor(),
            !is_noted(pending, result@) ==> final(self)@ == old(self)@,
            is_noted(pending, result@) ==> exists|paths: Seq<Seq<char>>|
                {
                    &&& are_paths(old(self).extractor(), ctx@, paths)
                    &&& final(self)@ == #[trigger] after_call(
                        old(self)@,
                        pending_key(pending),
                        pending.is_write,
                        pending.turn as nat,
                        result@,
                        paths,
                    )
                },
    {
        if result.is_error || !(pending.is_write || pending.key.is_some()) {
            return;
        }
        let paths = self.path_extractor.paths_with_cwd(
            ctx.tool_name.as_str(),
            ctx.input.as_str(),
            ctx.tool_context.cwd.as_str(),
        );
        assert(are_paths(self.extractor(), ctx@, text::texts(paths@)));
        self.record(pending, result, paths);
    }
}

/// A call that failed changes nothing: an error is never kept, and a write
/// that failed drops nothing.
pub proof fn a_failure_leaves_the_cache_alone(
    memo: MemoView,
    key: Option<KeyView>,
    is_write: bool,
    turn: nat,
    result: DispatchView,
    paths: Seq<Seq<char>>,
)
    requires
        result.is_error,
    ensures
        after_call(memo, key, is_write, turn, result, paths) == memo,
{
}

/// The result of a write is never kept.
pub proof fn a_write_is_never_kept(
    memo: MemoView,
    key: KeyView,
    turn: nat,
    result: DispatchView,
    paths: Seq<Seq<char>>,
)
    requires
        !memo.cache.contains_key(key),
    ensures
        !after_call(memo, Some(key), true, turn, result, paths).cache.contains_key(key),
{
}

/// The result of a successful call is handed out from the turn in which it was
/// made up to, and without, the turn in which its time is over. What is handed
/// out for other calls stays as it was.
pub proof fn a_result_is_remembered_for_its_turns(
    memo: MemoView,
    key: KeyView,
    turn: nat,
    result: DispatchView,
    paths: Seq<Seq<char>>,
    later: nat,
    ttl: u32,
)
    requires
        !result.is_error,
    ensures
        ({
            let after = after_call(memo, Some(key), false, turn, result, paths);
            &&& turn <= later < turn + ttl ==> fresh(after.cache, key, later, ttl) == Some(result)
            &&& later >= turn + ttl ==> fresh(after.cache, key, later, ttl) is None
            &&& forall|other: KeyView|
                other != key ==> #[trigger] fresh(after.cache, other, later, ttl) == fresh(
                    memo.cache,
                    other,
                    later,
                    ttl,
                )
        }),
{
}

/// A successful write drops the results that touched one of its paths, whoever
/// got them and whenever; what touched none of them stays, as does every result
/// where the call wrote nothing that is known.
pub proof fn a_write_drops_what_shares_a_path(
    memo: MemoView,
    pending: Option<KeyView>,
    turn: nat,
    result: DispatchView,
    paths: Seq<Seq<char>>,
    key: KeyView,
)
    requires
        !result.is_error,
        memo.cache.contains_key(key),
    ensures
        ({
            let after = after_call(memo, pending, true, turn, result, paths).cache;
            &&& forall|i: int, j: int|
                0 <= i < memo.cache[key].paths.len() && 0 <= j < paths.len()
                    && #[trigger] memo.cache[key].paths[i] == #[trigger] paths[j]
                    ==> !after.contains_key(key)
            &&& (forall|i: int, j: int|
                0 <= i < memo.cache[key].paths.len() && 0 <= j < paths.len()
                    ==> #[trigger] memo.cache[key].paths[i] != #[trigger] paths[j])
                ==> after.contains_key(key) && after[key] == memo.cache[key]
            &&& forall|other: KeyView| #[trigger]
                after.contains_key(other) ==> memo.cache.contains_key(other)
        }),
{
    let after = after_call(memo, pending, true, turn, result, paths).cache;
    let kept = memo.cache[key].paths;
    assert forall|i: int, j: int|
        0 <= i < kept.len() && 0 <= j < paths.len() && #[trigger] kept[i]
            == #[trigger] paths[j] implies !after.contains_key(key) by {
        assert(paths.contains(kept[i]));
        assert(overlap(kept, paths));
    }
}

/// A call changes nothing but what is kept, and one that neither writes nor has
/// its result kept not even that.
pub proof fn a_call_leaves_the_rules_alone(
    memo: MemoView,
    key: Option<KeyView>,
    is_write: bool,
    turn: nat,
    result: DispatchView,
    paths: Seq<Seq<char>>,
)
    ensures
        after_call(memo, key, is_write, turn, result, paths).tools == memo.tools,
        after_call(memo, key, is_write, turn, result, paths).write_tools == memo.write_tools,
        after_call(memo, key, is_write, turn, result, paths).ttl_turns == memo.ttl_turns,
        after_call(memo, None, false, turn, result, paths) == memo,
{
}

/// To ask for a result drops that one where its time is over, and nothing else.
pub proof fn asking_drops_only_what_is_over(
    cache: Map<KeyView, KeptView>,
    key: KeyView,
    turn: nat,
    ttl: u32,
)
    ensures
        ({
            let after = looked_up(cache, key, turn, ttl);
            &&& after.contains_key(key) <==> cache.contains_key(key) && ttl > 0 && turn
                < cache[key].turn_inserted + ttl
            &&& forall|other: KeyView|
                other != key ==> #[trigger] after.contains_key(other) == cache.contains_key(other)
            &&& forall|other: KeyView| #[trigger]
                after.contains_key(other) ==> after[other] == cache[other]
            &&& fresh(cache, key, turn, ttl) is Some <==> after.contains_key(key)
            &&& after.contains_key(key) ==> fresh(cache, key, turn, ttl) == Some(cache[key].result)
        }),
{
}

/// A result that is handed out again says so at its end and took no time; all
/// else is as it was when the call ran.
pub proof fn a_result_is_handed_out_with_its_mark(result: DispatchView)
    ensures
        handed_out(result).tool_call_id == result.tool_call_id,
        handed_out(result).is_error == result.is_error,
        handed_out(result).duration == 0,
        handed_out(result).resolved_tool_name == result.resolved_tool_name,
        handed_out(result).display_hint == result.display_hint,
        result.output matches ResultView::Text(s) ==> handed_out(result).output
            == ResultView::Text(s + seq!['\n', '[', 'c', 'a', 'c', 'h', 'e', 'd', ']']),
        result.output matches ResultView::Multipart(parts) ==> handed_out(result).output
            == ResultView::Multipart(
            parts + seq![
                ResultPartView::Text { text: seq!['[', 'c', 'a', 'c', 'h', 'e', 'd', ']'] },
            ],
        ),
{
    reveal_strlit("\n[cached]");
    reveal_strlit("[cached]");
    assert("\n[cached]"@ =~= seq!['\n', '[', 'c', 'a', 'c', 'h', 'e', 'd', ']']);
    assert("[cached]"@ =~= seq!['[', 'c', 'a', 'c', 'h', 'e', 'd', ']']);
    if let ResultView::Multipart(parts) = result.output {
        let part = ResultPartView::Text { text: "[cached]"@ };
        assert(parts.push(part) =~= parts + seq![part]);
    }
}

/// Two calls share a result only where they name the same tool and their inputs
/// hash alike in their compact form.
pub proof fn calls_of_one_tool_share_a_key(
    a: Seq<char>,
    input: Seq<char>,
    b: Seq<char>,
    other: Seq<char>,
)
    ensures
        key_of(a, input) == key_of(b, other) <==> a == b && hashing::text_hash(
            json::canonical(input),
        ) == hashing::text_hash(json::canonical(other)),
        json::canonical(input) == json::canonical(other) ==> key_of(a, input) == key_of(a, other),
{
}

/// What a call touched matters where it succeeded and wrote, or its result is
/// kept; otherwise it is not asked for.
pub proof fn only_what_matters_is_noted(pending: PendingCall, result: DispatchView)
    ensures
        result.is_error ==> !is_noted(pending, result),
        !result.is_error && pending.is_write ==> is_noted(pending, result),
        !result.is_error && pending.key is Some ==> is_noted(pending, result),
        !pending.is_write && pending.key is None ==> !is_noted(pending, result),
        pending.key is None <==> pending_key(pending) is None,
        pending.key matches Some(k) ==> pending_key(pending) == Some(k@),
{
}

/// The paths that a call touched are what the extractor says of its tool, its
/// input and its directory.
pub proof fn paths_are_what_the_extractor_says<E: PathExtractor>(
    extractor: E,
    ctx: CallView,
    paths: Seq<Seq<char>>,
)
    requires
        are_paths(extractor, ctx, paths),
    ensures
        exists|tool_name: &str, input: &str, cwd: &str, given: Vec<String>|
            {
                &&& tool_name@ == ctx.tool_name
                &&& input@ == ctx.input
                &&& cwd@ == ctx.cwd
                &&& text::texts(given@) == paths
                &&& #[trigger] call_ensures(
                    E::paths_with_cwd,
                    (&extractor, tool_name, input, cwd),
                    given,
                )
            },
{
}

} // verus!
