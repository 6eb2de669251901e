//! Embeddings and a linear index over them.

use vstd::prelude::*;

use crate::error::{ErrorView, LoopError};
use crate::hashing;
use crate::single::Single;
use crate::selection;
use crate::text;

verus! {

/// The arithmetic of single-precision numbers that embeddings need.
pub trait VectorArithmetic {
    /// The cosine of the angle between two vectors of the same length whose
    /// components are finite and, in each, not all zero.
    fn cosine(&self, a: &[Single], b: &[Single]) -> (r: Single);

    /// The component of the unit vector along `counts` at `place`.
    fn unit_component(&self, counts: &[i32], place: usize) -> (r: Single);
}

/// The components of a vector in single precision.
#[derive(Debug)]
pub struct Embedding {
    components: Vec<Single>,
}

impl View for Embedding {
    type V = Seq<Single>;

    closed spec fn view(&self) -> Seq<Single> {
        self.components@
    }
}

impl Clone for Embedding {
    fn clone(&self) -> (r: Self)
        ensures
            r@ == self@,
    {
        Embedding::from_slice(self.as_slice())
    }
}

impl Embedding {
    /// An embedding with these components.
    pub fn new(components: Vec<Single>) -> (r: Self)
        ensures
            r@ == components@,
    {
        Embedding { components }
    }

    /// An embedding with a copy of these components.
    pub fn from_slice(slice: &[Single]) -> (r: Self)
        ensures
            r@ == slice@,
    {
        let mut components: Vec<Single> = Vec::new();
        let mut i: usize = 0;
        while i < slice.len()
            invariant
                i <= slice.len(),
                components@ == slice@.take(i as int),
            decreases slice.len() - i,
        {
            components.push(slice[i]);
            assert(slice@.take(i + 1) =~= slice@.take(i as int).push(slice@[i as int]));
            i = i + 1;
        }
        assert(slice@.take(i as int) =~= slice@);
        Embedding { components }
    }

    /// The number of components.
    pub fn dim(&self) -> (n: usize)
        ensures
            n == self@.len(),
    {
        self.components.len()
    }

    /// The components.
    pub fn as_slice(&self) -> (r: &[Single])
        ensures
            r@ == self@,
    {
        self.components.as_slice()
    }
}

// ---------------------------------------------------------------------------
// Cosine similarity
// ---------------------------------------------------------------------------

/// The bits of one with the sign set.
pub const MINUS_ONE_BITS: u32 = 0xbf80_0000;

/// A number held between minus one and one.
pub open spec fn held(x: Single) -> Single {
    if x.below_spec(Single { bits: MINUS_ONE_BITS }) {
        Single { bits: MINUS_ONE_BITS }
    } else if (Single { bits: crate::single::ONE_BITS }).below_spec(x) {
        Single { bits: crate::single::ONE_BITS }
    } else {
        x
    }
}

/// Whether every component is finite.
pub open spec fn all_finite(a: Seq<Single>) -> bool {
    forall|i: int| 0 <= i < a.len() ==> #[trigger] a[i].magnitude() < crate::single::INFINITY_BITS
}

/// Whether every component is zero, of either sign.
pub open spec fn all_zero(a: Seq<Single>) -> bool {
    forall|i: int| 0 <= i < a.len() ==> #[trigger] a[i].key() == 0
}

/// Whether two vectors have an angle to measure.
pub open spec fn comparable(a: Seq<Single>, b: Seq<Single>) -> bool {
    &&& a.len() == b.len()
    &&& a.len() > 0
    &&& all_finite(a)
    &&& all_finite(b)
    &&& !all_zero(a)
    &&& !all_zero(b)
}

fn scan(a: &[Single]) -> (r: (bool, bool))
    ensures
        r.0 == all_finite(a@),
        r.1 == all_zero(a@),
{
    let mut finite = true;
    let mut zero = true;
    let mut i: usize = 0;
    while i < a.len()
        invariant
            i <= a.len(),
            finite == (forall|k: int| 0 <= k < i ==> #[trigger] a@[k].magnitude() < crate::single::INFINITY_BITS),
            zero == (forall|k: int| 0 <= k < i ==> #[trigger] a@[k].key() == 0),
        decreases a.len() - i,
    {
        let here = a[i];
        if !here.is_finite() {
            finite = false;
        }
        if here.place() != 0 {
            zero = false;
        }
        i = i + 1;
    }
    (finite, zero)
}

/// Whether two vectors have an angle to measure.
pub fn are_comparable(a: &[Single], b: &[Single]) -> (r: bool)
    ensures
        r == comparable(a@, b@),
{
    if a.len() != b.len() || a.len() == 0 {
        return false;
    }
    let (finite_a, zero_a) = scan(a);
    let (finite_b, zero_b) = scan(b);
    finite_a && finite_b && !zero_a && !zero_b
}

/// Holds a number between minus one and one.
pub fn hold(x: Single) -> (r: Single)
    ensures
        r == held(x),
{
    let low = Single::from_bits(MINUS_ONE_BITS);
    let high = Single::from_bits(crate::single::ONE_BITS);
    if x.below(low) {
        low
    } else if high.below(x) {
        high
    } else {
        x
    }
}

/// Whether the host's formula gives this cosine for two vectors.
pub open spec fn is_cosine<A: VectorArithmetic>(
    arithmetic: A,
    a: Seq<Single>,
    b: Seq<Single>,
    raw: Single,
) -> bool {
    exists|x: &[Single], y: &[Single]|
        x@ == a && y@ == b && #[trigger] call_ensures(A::cosine, (&arithmetic, x, y), raw)
}

/// Whether a score is the similarity of two vectors: the host's cosine, held
/// between minus one and one, where they have an angle to measure.
pub open spec fn is_similarity<A: VectorArithmetic>(
    arithmetic: A,
    a: Seq<Single>,
    b: Seq<Single>,
    score: Single,
) -> bool {
    if comparable(a, b) {
        exists|raw: Single| #[trigger] is_cosine(arithmetic, a, b, raw) && score == held(raw)
    } else {
        score == (Single { bits: 0 })
    }
}

/// Whether `scores` are the similarities of a query and each of the rows.
pub open spec fn are_similarities<A: VectorArithmetic>(
    arithmetic: A,
    query: Seq<Single>,
    rows: Seq<(u128, Seq<Single>)>,
    scores: Seq<Single>,
) -> bool {
    &&& scores.len() == rows.len()
    &&& forall|i: int|
        0 <= i < rows.len() ==> is_similarity(arithmetic, query, rows[i].1, #[trigger] scores[i])
}

/// How similar two vectors are, between minus one and one. Vectors without an
/// angle to measure are not similar at all.
pub fn cosine_similarity<A: VectorArithmetic>(arithmetic: &A, a: &[Single], b: &[Single]) -> (r:
    Single)
    ensures
        is_similarity(*arithmetic, a@, b@, r),
{
    if are_comparable(a, b) {
        let raw = arithmetic.cosine(a, b);
        assert(is_cosine(*arithmetic, a@, b@, raw));
        hold(raw)
    } else {
        Single::from_bits(0)
    }
}

/// A similarity that is a number lies between minus one and one.
pub proof fn a_similarity_stays_in_range(raw: Single)
    requires
        !raw.is_nan_spec(),
    ensures
        (Single { bits: MINUS_ONE_BITS }).key() <= held(raw).key() <= (Single {
            bits: crate::single::ONE_BITS,
        }).key(),
        !held(raw).is_nan_spec(),
{
}

// ---------------------------------------------------------------------------
// The index
// ---------------------------------------------------------------------------

/// A vector that an index found.
#[derive(Debug, Clone, Copy, PartialEq, Eq, Structural)]
pub struct VectorMatch {
    pub id: u128,
    pub score: Single,
}

/// Vectors of one length, each under its own id, in the order of their first
/// arrival.
#[derive(Debug)]
pub struct LinearVectorIndex {
    dim: usize,
    rows: Vec<(u128, Embedding)>,
}

/// What an index holds.
pub struct IndexView {
    pub dim: nat,
    pub rows: Seq<(u128, Seq<Single>)>,
}

spec fn row_views(rows: Seq<(u128, Embedding)>) -> Seq<(u128, Seq<Single>)> {
    rows.map_values(|r: (u128, Embedding)| (r.0, r.1@))
}

impl View for LinearVectorIndex {
    type V = IndexView;

    closed spec fn view(&self) -> IndexView {
        IndexView { dim: self.dim as nat, rows: row_views(self.rows@) }
    }
}

/// Where an id stands among the rows, or their number.
pub open spec fn row_of(rows: Seq<(u128, Seq<Single>)>, id: u128) -> int
    decreases rows.len(),
{
    if rows.len() == 0 || rows[0].0 == id {
        0
    } else {
        1 + row_of(rows.skip(1), id)
    }
}

/// The rows after one was added: one under the same id gives way in place.
pub open spec fn rows_with(
    rows: Seq<(u128, Seq<Single>)>,
    id: u128,
    vector: Seq<Single>,
) -> Seq<(u128, Seq<Single>)> {
    let at = row_of(rows, id);
    if at < rows.len() {
        rows.update(at, (id, vector))
    } else {
        rows.push((id, vector))
    }
}

/// The rows without those of an id.
pub open spec fn rows_without(rows: Seq<(u128, Seq<Single>)>, id: u128) -> Seq<
    (u128, Seq<Single>),
>
    decreases rows.len(),
{
    if rows.len() == 0 {
        rows
    } else {
        let before = rows_without(rows.drop_last(), id);
        if rows.last().0 == id {
            before
        } else {
            before.push(rows.last())
        }
    }
}

/// Whether the match at `a` comes before that at `b`: the higher score first,
/// and the lower id first where the scores are equal.
pub open spec fn match_before(ids: Seq<u128>, scores: Seq<Single>, a: int, b: int) -> bool {
    scores[a].key() > scores[b].key() || (scores[a].key() == scores[b].key() && ids[a] < ids[b])
}

/// Whether `order` lists every row once, each before those that it comes
/// before.
pub open spec fn is_match_order(ids: Seq<u128>, scores: Seq<Single>, order: Seq<usize>) -> bool {
    &&& order.len() == scores.len()
    &&& forall|i: int| 0 <= i < order.len() ==> (#[trigger] order[i]) < scores.len()
    &&& forall|i: int, j: int|
        0 <= i < j < order.len() ==> match_before(
            ids,
            scores,
            #[trigger] order[i] as int,
            #[trigger] order[j] as int,
        )
}

/// The ids of the rows.
pub open spec fn row_ids(rows: Seq<(u128, Seq<Single>)>) -> Seq<u128> {
    rows.map_values(|r: (u128, Seq<Single>)| r.0)
}

/// Whether `out` holds the best `k` rows in their order.
pub open spec fn is_search(
    ids: Seq<u128>,
    scores: Seq<Single>,
    k: usize,
    order: Seq<usize>,
    out: Seq<VectorMatch>,
) -> bool {
    let n = if k <= ids.len() {
        k as int
    } else {
        ids.len() as int
    };
    &&& is_match_order(ids, scores, order)
    &&& out == order.take(n).map_values(
        |i: usize| VectorMatch { id: ids[i as int], score: scores[i as int] },
    )
}

/// Whether no id stands twice.
pub open spec fn ids_differ(ids: Seq<u128>) -> bool {
    forall|i: int, j: int| 0 <= i < j < ids.len() ==> #[trigger] ids[i] != #[trigger] ids[j]
}

/// Whether no two matches are of one id.
pub open spec fn matches_differ(out: Seq<VectorMatch>) -> bool {
    forall|i: int, j: int|
        0 <= i < j < out.len() ==> (#[trigger] out[i]).id != (#[trigger] out[j]).id
}

/// What is said of a vector of the wrong length.
pub open spec fn mismatch(what: Seq<char>, dim: nat, got: nat) -> Seq<char> {
    what + " dimension mismatch: index is "@ + text::decimal(dim) + ", got "@ + text::decimal(got)
}

fn mismatch_error(what: &str, dim: usize, got: usize) -> (e: LoopError)
    ensures
        e@ == ErrorView::Memory(mismatch(what@, dim as nat, got as nat)),
{
    let mut m = String::from_str(what);
    text::push_text(&mut m, " dimension mismatch: index is ");
    text::push_decimal(&mut m, dim as u128);
    text::push_text(&mut m, ", got ");
    text::push_decimal(&mut m, got as u128);
    LoopError::Memory(m)
}

impl LinearVectorIndex {
    #[verifier::type_invariant]
    spec fn well_formed(&self) -> bool {
        sound_rows(row_views(self.rows@), self.dim as nat)
    }

    /// An empty index for vectors of this length.
    pub fn new(dim: usize) -> (r: Self)
        ensures
            r@.dim == dim,
            r@.rows == Seq::<(u128, Seq<Single>)>::empty(),
    {
        let r = LinearVectorIndex { dim, rows: Vec::new() };
        assert(row_views(r.rows@) =~= Seq::<(u128, Seq<Single>)>::empty());
        r
    }

    /// The length of the vectors.
    pub fn dim(&self) -> (n: usize)
        ensures
            n == self@.dim,
    {
        self.dim
    }

    /// The number of vectors. No two of them are under one id.
    pub fn len(&self) -> (n: usize)
        ensures
            n == self@.rows.len(),
            ids_differ(row_ids(self@.rows)),
    {
        proof {
            use_type_invariant(self);
        }
        self.rows.len()
    }

    /// Whether there is no vector.
    pub fn is_empty(&self) -> (r: bool)
        ensures
            r == (self@.rows.len() == 0),
    {
        self.rows.len() == 0
    }

    /// Adds a vector, in place of one under the same id. One of the wrong
    /// length is refused.
    pub fn add(&mut self, id: u128, vector: Embedding) -> (r: Result<(), LoopError>)
        ensures
            final(self)@.dim == old(self)@.dim,
            vector@.len() == old(self)@.dim ==> r is Ok && final(self)@.rows == rows_with(
                old(self)@.rows,
                id,
                vector@,
            ),
            vector@.len() != old(self)@.dim ==> final(self)@ == old(self)@ && r is Err
                && r->Err_0@ == ErrorView::Memory(
                mismatch("vector"@, old(self)@.dim, vector@.len()),
            ),
    {
        if vector.dim() != self.dim {
            return Err(mismatch_error("vector", self.dim, vector.dim()));
        }
        proof {
            use_type_invariant(&*self);
        }
        let ghost before = row_views(self.rows@);
        let ghost full = before;
        let mut at: usize = 0;
        assert(before.skip(0) =~= before);
        while at < self.rows.len() && self.rows[at].0 != id
            invariant
                at <= self.rows.len(),
                before == row_views(self.rows@),
                row_of(before, id) == at + row_of(before.skip(at as int), id),
            decreases self.rows.len() - at,
        {
            assert(before.skip(at as int)[0] == before[at as int]);
            assert(before.skip(at as int).skip(1) =~= before.skip(at + 1));
            at = at + 1;
        }
        let mut rows: Vec<(u128, Embedding)> = Vec::new();
        let ghost row = (id, vector@);
        proof {
            assert(row_views(rows@) =~= Seq::<(u128, Seq<Single>)>::empty());
            if at < before.len() {
                assert(before.skip(at as int)[0] == before[at as int]);
            }
            lemma_row_of(before, id);
            lemma_rows_with(before, id, vector@);
        }
        core::mem::swap(&mut self.rows, &mut rows);
        if at < rows.len() {
            let ghost old_rows = rows@;
            rows.set(at, (id, vector));
            assert(row_views(rows@) =~= before.update(at as int, row));
        } else {
            rows.push((id, vector));
            assert(row_views(rows@) =~= before.push(row));
        }
        self.rows = rows;
        Ok(())
    }

    /// Takes a vector out; nothing happens where there is none.
    pub fn remove(&mut self, id: u128)
        ensures
            final(self)@.dim == old(self)@.dim,
            final(self)@.rows == rows_without(old(self)@.rows, id),
    {
        proof {
            use_type_invariant(&*self);
        }
        let ghost before = row_views(self.rows@);
        let mut taken: Vec<(u128, Embedding)> = Vec::new();
        assert(row_views(taken@) =~= Seq::<(u128, Seq<Single>)>::empty());
        core::mem::swap(&mut self.rows, &mut taken);
        let mut rows: Vec<(u128, Embedding)> = Vec::new();
        let mut i: usize = 0;
        assert(before.take(0) =~= Seq::<(u128, Seq<Single>)>::empty());
        while i < taken.len()
            invariant
                i <= taken.len(),
                before == row_views(taken@),
                row_views(rows@) == rows_without(before.take(i as int), id),
            decreases taken.len() - i,
        {
            proof {
                assert(before.take(i + 1).drop_last() =~= before.take(i as int));
                assert(before.take(i + 1).last() == before[i as int]);
            }
            if taken[i].0 != id {
                let copy = (taken[i].0, taken[i].1.clone());
                assert(row_views(rows@.push(copy)) =~= row_views(rows@).push((copy.0, copy.1@)));
                rows.push(copy);
            }
            i = i + 1;
        }
        proof {
            assert(before.take(i as int) =~= before);
            lemma_rows_without(before, id, self.dim as nat);
        }
        self.rows = rows;
    }

    /// The best `k` rows, given how similar each is to what is searched for.
    pub fn best_matches(&self, scores: &Vec<Single>, k: usize) -> (out: Vec<VectorMatch>)
        requires
            scores.len() == self@.rows.len(),
        ensures
            exists|order: Seq<usize>| #[trigger]
                is_search(row_ids(self@.rows), scores@, k, order, out@),
            matches_differ(out@),
    {
        proof {
            use_type_invariant(self);
        }
        let ghost ids = row_ids(self@.rows);
        let mut order: Vec<usize> = Vec::new();
        let mut n: usize = 0;
        while n < scores.len()
            invariant
                n <= scores.len(),
                scores.len() == self@.rows.len(),
                ids == row_ids(self@.rows),
                ids_differ(ids),
                order.len() == n,
                forall|i: int| 0 <= i < order.len() ==> (#[trigger] order@[i]) < n,
                forall|i: int, j: int|
                    0 <= i < j < order.len() ==> match_before(
                        ids,
                        scores@,
                        #[trigger] order@[i] as int,
                        #[trigger] order@[j] as int,
                    ),
            decreases scores.len() - n,
        {
            let here: i64 = scores[n].place();
            let id: u128 = self.rows[n].0;
            let mut at: usize = order.len();
            while at > 0 && (scores[order[at - 1]].place() < here || (scores[order[at
                - 1]].place() == here && self.rows[order[at - 1]].0 > id))
                invariant
                    n < scores.len(),
                    scores.len() == self@.rows.len(),
                    ids == row_ids(self@.rows),
                    here == scores@[n as int].key(),
                    id == ids[n as int],
                    order.len() == n,
                    at <= order.len(),
                    forall|i: int| 0 <= i < order.len() ==> (#[trigger] order@[i]) < n,
                    forall|i: int|
                        at <= i < order.len() ==> match_before(
                            ids,
                            scores@,
                            n as int,
                            (#[trigger] order@[i]) as int,
                        ),
                decreases at,
            {
                at = at - 1;
            }
            let ghost before = order@;
            proof {
                assert forall|i: int| 0 <= i < at implies match_before(
                    ids,
                    scores@,
                    (#[trigger] before[i]) as int,
                    n as int,
                ) by {
                    assert(ids[before[at - 1] as int] != ids[n as int]);
                    if i < at - 1 {
                        assert(match_before(
                            ids,
                            scores@,
                            before[i] as int,
                            before[at - 1] as int,
                        ));
                    }
                }
            }
            order.insert(at, n);
            n = n + 1;
        }
        let take: usize = if k <= order.len() {
            k
        } else {
            order.len()
        };
        let ghost all = order@.map_values(
            |i: usize| VectorMatch { id: ids[i as int], score: scores@[i as int] },
        );
        let mut out: Vec<VectorMatch> = Vec::new();
        let mut i: usize = 0;
        while i < take
            invariant
                i <= take <= order.len(),
                scores.len() == self@.rows.len(),
                ids == row_ids(self@.rows),
                is_match_order(ids, scores@, order@),
                all == order@.map_values(
                    |i: usize| VectorMatch { id: ids[i as int], score: scores@[i as int] },
                ),
                out@ == all.take(i as int),
            decreases take - i,
        {
            let p: usize = order[i];
            assert(p < scores@.len());
            assert(self@.rows[p as int].0 == self.rows@[p as int].0);
            out.push(VectorMatch { id: self.rows[p].0, score: scores[p] });
            assert(all.take(i + 1) =~= all.take(i as int).push(all[i as int]));
            i = i + 1;
        }
        proof {
            assert(all.take(take as int) =~= order@.take(take as int).map_values(
                |i: usize| VectorMatch { id: ids[i as int], score: scores@[i as int] },
            ));
            assert(is_search(ids, scores@, k, order@, out@));
            assert forall|i: int, j: int| 0 <= i < j < out@.len() implies (#[trigger] out@[i]).id
                != (#[trigger] out@[j]).id by {
                let a = order@[i] as int;
                let b = order@[j] as int;
                assert(match_before(ids, scores@, a, b));
                if a < b {
                    assert(ids[a] != ids[b]);
                } else {
                    assert(ids[b] != ids[a]);
                }
            }
        }
        out
    }

    /// The best `k` rows for a query. One of the wrong length is refused.
    pub fn search<A: VectorArithmetic>(&self, arithmetic: &A, query: &Embedding, k: usize) -> (r:
        Result<Vec<VectorMatch>, LoopError>)
        ensures
            match r {
                Ok(out) => {
                    &&& query@.len() == self@.dim
                    &&& exists|scores: Seq<Single>, order: Seq<usize>|
                        {
                            &&& are_similarities(*arithmetic, query@, self@.rows, scores)
                            &&& #[trigger] is_search(row_ids(self@.rows), scores, k, order, out@)
                        }
                    &&& matches_differ(out@)
                },
                Err(e) => {
                    &&& query@.len() != self@.dim
                    &&& e@ == ErrorView::Memory(mismatch("query"@, self@.dim, query@.len()))
                },
            },
    {
        if query.dim() != self.dim {
            return Err(mismatch_error("query", self.dim, query.dim()));
        }
        let mut scores: Vec<Single> = Vec::new();
        let mut i: usize = 0;
        while i < self.rows.len()
            invariant
                i <= self.rows.len(),
                scores.len() == i,
                forall|j: int|
                    0 <= j < i ==> is_similarity(
                        *arithmetic,
                        query@,
                        self@.rows[j].1,
                        #[trigger] scores@[j],
                    ),
            decreases self.rows.len() - i,
        {
            let score = cosine_similarity(
                arithmetic,
                query.as_slice(),
                self.rows[i].1.as_slice(),
            );
            assert(self@.rows[i as int].1 == self.rows@[i as int].1@);
            scores.push(score);
            i = i + 1;
        }
        let out = self.best_matches(&scores, k);
        let found = Ok(out);
        proof {
            let ids = row_ids(self@.rows);
            let got = found->Ok_0@;
            let order = choose|order: Seq<usize>| #[trigger]
                is_search(ids, scores@, k, order, got);
            assert(is_search(ids, scores@, k, order, got));
            assert(are_similarities(*arithmetic, query@, self@.rows, scores@));
        }
        found
    }
}

/// Whether rows are what an index may hold.
spec fn sound_rows(rows: Seq<(u128, Seq<Single>)>, dim: nat) -> bool {
    &&& ids_differ(row_ids(rows))
    &&& forall|i: int| 0 <= i < rows.len() ==> (#[trigger] rows[i]).1.len() == dim
}

proof fn lemma_row_of(rows: Seq<(u128, Seq<Single>)>, id: u128)
    ensures
        0 <= row_of(rows, id) <= rows.len(),
        row_of(rows, id) < rows.len() ==> rows[row_of(rows, id)].0 == id,
        forall|i: int| 0 <= i < row_of(rows, id) ==> (#[trigger] rows[i]).0 != id,
    decreases rows.len(),
{
    if rows.len() > 0 && rows[0].0 != id {
        let rest = rows.skip(1);
        lemma_row_of(rest, id);
        assert forall|i: int| 0 <= i < row_of(rows, id) implies (#[trigger] rows[i]).0 != id by {
            if i > 0 {
                assert(rest[i - 1] == rows[i]);
            }
        }
    }
}

proof fn lemma_rows_with(rows: Seq<(u128, Seq<Single>)>, id: u128, vector: Seq<Single>)
    requires
        sound_rows(rows, vector.len()),
    ensures
        sound_rows(rows_with(rows, id, vector), vector.len()),
{
    lemma_row_of(rows, id);
    let after = rows_with(rows, id, vector);
    let ids = row_ids(after);
    assert forall|i: int, j: int| 0 <= i < j < ids.len() implies #[trigger] ids[i]
        != #[trigger] ids[j] by {
        let was = row_ids(rows);
        if i < rows.len() {
            assert(was[i] == rows[i].0);
        }
        if j < rows.len() {
            assert(was[j] == rows[j].0);
        }
    }
}

proof fn lemma_rows_without(rows: Seq<(u128, Seq<Single>)>, id: u128, dim: nat)
    requires
        sound_rows(rows, dim),
    ensures
        sound_rows(rows_without(rows, id), dim),
        forall|i: int|
            0 <= i < rows_without(rows, id).len() ==> rows.contains(
                #[trigger] rows_without(rows, id)[i],
            ) && rows_without(rows, id)[i].0 != id,
    decreases rows.len(),
{
    if rows.len() > 0 {
        let less = rows.drop_last();
        let ids = row_ids(rows);
        assert(row_ids(less) =~= ids.drop_last());
        assert(sound_rows(less, dim)) by {
            let few = row_ids(less);
            assert forall|i: int, j: int| 0 <= i < j < few.len() implies #[trigger] few[i]
                != #[trigger] few[j] by {
                assert(ids[i] == few[i] && ids[j] == few[j]);
            }
        }
        lemma_rows_without(less, id, dim);
        let before = rows_without(less, id);
        let after = rows_without(rows, id);
        assert forall|i: int| 0 <= i < after.len() implies rows.contains(#[trigger] after[i])
            && after[i].0 != id by {
            if i < before.len() {
                assert(after[i] == before[i]);
                let k = choose|k: int| 0 <= k < less.len() && less[k] == before[i];
                assert(rows[k] == after[i]);
            } else {
                assert(rows[rows.len() - 1] == after[i]);
            }
        }
        let kept = row_ids(after);
        assert forall|i: int, j: int| 0 <= i < j < kept.len() implies #[trigger] kept[i]
            != #[trigger] kept[j] by {
            assert(row_ids(before)[i] == before[i].0);
            assert(after[i] == before[i]);
            if j < before.len() {
                assert(row_ids(before)[j] == before[j].0);
                assert(after[j] == before[j]);
            } else {
                let k = choose|k: int| 0 <= k < less.len() && less[k] == before[i];
                assert(less.contains(before[i]));
                assert(ids[k] == before[i].0);
                assert(ids[rows.len() - 1] == rows.last().0);
            }
        }
    }
}

/// What was added last under an id is what the index holds under it, and no
/// other row changes.
pub proof fn adding_replaces_in_place(
    rows: Seq<(u128, Seq<Single>)>,
    id: u128,
    vector: Seq<Single>,
)
    ensures
        ({
            let after = rows_with(rows, id, vector);
            let at = row_of(rows, id);
            &&& row_of(after, id) == at
            &&& after[at] == (id, vector)
            &&& forall|i: int| 0 <= i < rows.len() && i != at ==> #[trigger] after[i] == rows[i]
            &&& after.len() <= rows.len() + 1
        }),
{
    let after = rows_with(rows, id, vector);
    let at = row_of(rows, id);
    lemma_row_of(rows, id);
    lemma_row_of(after, id);
    let k = row_of(after, id);
    assert(after[at].0 == id);
    if k < at {
        assert(after[k] == rows[k]);
    }
}

/// A removed id is gone, and removing it again changes nothing.
pub proof fn removing_is_final(rows: Seq<(u128, Seq<Single>)>, id: u128)
    ensures
        row_of(rows_without(rows, id), id) == rows_without(rows, id).len(),
        rows_without(rows_without(rows, id), id) == rows_without(rows, id),
    decreases rows.len(),
{
    let after = rows_without(rows, id);
    if rows.len() > 0 {
        let less = rows.drop_last();
        let before = rows_without(less, id);
        removing_is_final(less, id);
        lemma_row_of(before, id);
        lemma_row_of(after, id);
        if rows.last().0 != id {
            let k = row_of(after, id);
            assert(after.drop_last() =~= before);
            if k < before.len() {
                assert(before[k] == after[k]);
            }
        }
    }
}

/// There is one order of matches only, so a search has one answer.
pub proof fn a_search_has_one_answer(
    ids: Seq<u128>,
    scores: Seq<Single>,
    k: usize,
    a: Seq<usize>,
    b: Seq<usize>,
    out_a: Seq<VectorMatch>,
    out_b: Seq<VectorMatch>,
)
    requires
        is_search(ids, scores, k, a, out_a),
        is_search(ids, scores, k, b, out_b),
    ensures
        a == b,
        out_a == out_b,
{
    assert forall|i: int| 0 <= i < a.len() implies a[i] == b[i] by {
        lemma_orders_agree(ids, scores, a, b, i);
    }
    assert(a =~= b);
}

proof fn lemma_order_is_complete(ids: Seq<u128>, scores: Seq<Single>, order: Seq<usize>, place: int)
    requires
        is_match_order(ids, scores, order),
        0 <= place < scores.len(),
    ensures
        exists|i: int| 0 <= i < order.len() && #[trigger] order[i] == place,
{
    let ints = order.map_values(|u: usize| u as int);
    assert forall|i: int, j: int| 0 <= i < ints.len() && 0 <= j < ints.len() && i != j implies ints[i]
        != ints[j] by {
        if i < j {
            assert(match_before(ids, scores, order[i] as int, order[j] as int));
        } else {
            assert(match_before(ids, scores, order[j] as int, order[i] as int));
        }
    }
    ints.unique_seq_to_set();
    vstd::seq_lib::seq_to_set_is_finite(ints);
    let all = vstd::set_lib::set_int_range(0, scores.len() as int);
    vstd::set_lib::lemma_int_range(0, scores.len() as int);
    assert(ints.to_set().subset_of(all)) by {
        assert forall|x: int| ints.to_set().contains(x) implies all.contains(x) by {
            let i = choose|i: int| 0 <= i < ints.len() && ints[i] == x;
            assert(order[i] < scores.len());
        }
    }
    vstd::set_lib::lemma_subset_equality(ints.to_set(), all);
    assert(ints.to_set().contains(place));
    let i = choose|i: int| 0 <= i < ints.len() && ints[i] == place;
    assert(order[i] == place);
}

proof fn lemma_orders_agree(
    ids: Seq<u128>,
    scores: Seq<Single>,
    a: Seq<usize>,
    b: Seq<usize>,
    i: int,
)
    requires
        is_match_order(ids, scores, a),
        is_match_order(ids, scores, b),
        0 <= i < a.len(),
    ensures
        forall|j: int| 0 <= j <= i ==> a[j] == b[j],
    decreases i,
{
    if i > 0 {
        lemma_orders_agree(ids, scores, a, b, i - 1);
    }
    lemma_order_is_complete(ids, scores, b, a[i] as int);
    lemma_order_is_complete(ids, scores, a, b[i] as int);
    let x = choose|x: int| 0 <= x < b.len() && #[trigger] b[x] == a[i];
    let y = choose|y: int| 0 <= y < a.len() && #[trigger] a[y] == b[i];
    if a[i] != b[i] {
        if x < i {
            assert(a[x] == b[x]);
            assert(match_before(ids, scores, a[x] as int, a[i] as int));
        } else if y < i {
            assert(a[y] == b[y]);
            assert(match_before(ids, scores, b[y] as int, b[i] as int));
        } else {
            assert(match_before(ids, scores, a[i] as int, a[y] as int));
            assert(match_before(ids, scores, b[i] as int, b[x] as int));
        }
    }
}

// ---------------------------------------------------------------------------
// The hashing embedder
// ---------------------------------------------------------------------------

/// Above this, adding one to a count in single precision changes nothing.
pub const COUNT_LIMIT: i32 = 16_777_216;

/// A count after one more token, held where single precision holds it.
pub open spec fn counted(count: int, negative: bool) -> int {
    if negative {
        if count > -COUNT_LIMIT {
            count - 1
        } else {
            count
        }
    } else {
        if count < COUNT_LIMIT {
            count + 1
        } else {
            count
        }
    }
}

/// Whether a hash counts against its bucket.
pub open spec fn counts_against(hash: u64) -> bool {
    hash >= 0x8000_0000_0000_0000
}

/// The counts of the buckets after the first `n` hashes.
pub open spec fn tally(hashes: Seq<u64>, dim: nat, n: nat) -> Seq<int>
    decreases n,
{
    if n == 0 {
        Seq::new(dim, |i: int| 0)
    } else {
        let before = tally(hashes, dim, (n - 1) as nat);
        let hash = hashes[n - 1];
        if dim == 0 {
            before
        } else {
            let bucket = hash as int % dim as int;
            before.update(bucket, counted(before[bucket], counts_against(hash)))
        }
    }
}

/// The hashes of the words of a text.
pub open spec fn word_hashes(words: Seq<Seq<char>>) -> Seq<u64> {
    words.map_values(|w: Seq<char>| hashing::text_hash(w))
}

/// The counts as numbers.
pub open spec fn count_views(counts: Seq<i32>) -> Seq<int> {
    counts.map_values(|c: i32| c as int)
}

/// Embeds a text by the hashes of its words.
#[derive(Debug, Clone, Copy)]
pub struct HashingEmbedder {
    pub dim: usize,
}

/// Counts hashes into buckets.
pub fn tally_hashes(hashes: &Vec<u64>, dim: usize) -> (counts: Vec<i32>)
    ensures
        count_views(counts@) == tally(hashes@, dim as nat, hashes@.len()),
        forall|i: int|
            0 <= i < counts@.len() ==> -COUNT_LIMIT <= #[trigger] counts@[i] <= COUNT_LIMIT,
{
    let mut counts: Vec<i32> = Vec::new();
    let mut i: usize = 0;
    while i < dim
        invariant
            i <= dim,
            counts@ == Seq::new(i as nat, |k: int| 0i32),
        decreases dim - i,
    {
        counts.push(0);
        assert(counts@ =~= Seq::new((i + 1) as nat, |k: int| 0i32));
        i = i + 1;
    }
    assert(count_views(counts@) =~= tally(hashes@, dim as nat, 0));
    let mut n: usize = 0;
    while n < hashes.len()
        invariant
            n <= hashes.len(),
            counts.len() == dim,
            count_views(counts@) == tally(hashes@, dim as nat, n as nat),
            forall|k: int|
                0 <= k < counts@.len() ==> -COUNT_LIMIT <= #[trigger] counts@[k] <= COUNT_LIMIT,
        decreases hashes.len() - n,
    {
        if dim > 0 {
            let hash: u64 = hashes[n];
            let bucket: usize = (hash % dim as u64) as usize;
            let count: i32 = counts[bucket];
            let ghost before = counts@;
            if hash >= 0x8000_0000_0000_0000 {
                if count > -COUNT_LIMIT {
                    counts.set(bucket, count - 1);
                }
            } else {
                if count < COUNT_LIMIT {
                    counts.set(bucket, count + 1);
                }
            }
            assert(count_views(counts@) =~= count_views(before).update(
                bucket as int,
                counted(count as int, counts_against(hash)),
            ));
        }
        n = n + 1;
    }
    counts
}

/// Whether every count is zero.
pub open spec fn nothing_counted(counts: Seq<i32>) -> bool {
    forall|i: int| 0 <= i < counts.len() ==> #[trigger] counts[i] == 0
}

/// Whether a component is the one at `place` in the embedding of counts: the
/// host's, or zero where nothing was counted.
pub open spec fn is_component<A: VectorArithmetic>(
    arithmetic: A,
    counts: Seq<i32>,
    place: int,
    component: Single,
) -> bool {
    if nothing_counted(counts) {
        component == (Single { bits: 0 })
    } else {
        exists|all: &[i32]|
            all@ == counts && #[trigger] call_ensures(
                A::unit_component,
                (&arithmetic, all, place as usize),
                component,
            )
    }
}

/// Whether `components` are the embedding of counts.
pub open spec fn is_embedding<A: VectorArithmetic>(
    arithmetic: A,
    counts: Seq<i32>,
    components: Seq<Single>,
) -> bool {
    &&& components.len() == counts.len()
    &&& forall|i: int|
        0 <= i < counts.len() ==> is_component(arithmetic, counts, i, #[trigger] components[i])
}

impl HashingEmbedder {
    /// An embedder into vectors of this length.
    pub fn new(dim: usize) -> (r: Self)
        ensures
            r.dim == dim,
    {
        HashingEmbedder { dim }
    }

    /// The length of the vectors.
    pub fn dim(&self) -> (n: usize)
        ensures
            n == self.dim,
    {
        self.dim
    }

    /// The counts that a text puts into the buckets.
    pub fn count_tokens(&self, text: &str) -> (counts: Vec<i32>)
        ensures
            count_views(counts@) == tally(
                word_hashes(text::words(text@)),
                self.dim as nat,
                text::words(text@).len(),
            ),
    {
        let words = text::split_whitespace(text);
        let ghost want = word_hashes(text::words(text@));
        let mut hashes: Vec<u64> = Vec::new();
        let mut i: usize = 0;
        while i < words.len()
            invariant
                i <= words.len(),
                text::texts(words@) == text::words(text@),
                want == word_hashes(text::words(text@)),
                hashes@ == want.take(i as int),
            decreases words.len() - i,
        {
            let hash: u64 = hashing::hash_text(words[i].as_str());
            assert(text::texts(words@)[i as int] == words@[i as int]@);
            assert(want.take(i + 1) =~= want.take(i as int).push(hash));
            hashes.push(hash);
            i = i + 1;
        }
        assert(want.take(i as int) =~= want);
        tally_hashes(&hashes, self.dim)
    }

    /// The embedding of counts: the unit vector along them, or all zero where
    /// nothing was counted.
    pub fn embed_counts<A: VectorArithmetic>(&self, arithmetic: &A, counts: &Vec<i32>) -> (r:
        Embedding)
        ensures
            is_embedding(*arithmetic, counts@, r@),
    {
        let mut zero = true;
        let mut i: usize = 0;
        while i < counts.len()
            invariant
                i <= counts.len(),
                zero == (forall|k: int| 0 <= k < i ==> #[trigger] counts@[k] == 0),
            decreases counts.len() - i,
        {
            if counts[i] != 0 {
                zero = false;
            }
            i = i + 1;
        }
        let mut components: Vec<Single> = Vec::new();
        let mut k: usize = 0;
        while k < counts.len()
            invariant
                k <= counts.len(),
                components.len() == k,
                zero == nothing_counted(counts@),
                forall|j: int|
                    0 <= j < k ==> is_component(*arithmetic, counts@, j, #[trigger] components@[j]),
            decreases counts.len() - k,
        {
            let component = if zero {
                Single::from_bits(0)
            } else {
                arithmetic.unit_component(counts.as_slice(), k)
            };
            assert(is_component(*arithmetic, counts@, k as int, component));
            components.push(component);
            k = k + 1;
        }
        Embedding::new(components)
    }

    /// The embedding of a text.
    pub fn embed_sync<A: VectorArithmetic>(&self, arithmetic: &A, text: &str) -> (r: Embedding)
        ensures
            r@.len() == self.dim,
            exists|counts: Seq<i32>|
                {
                    &&& #[trigger] is_embedding(*arithmetic, counts, r@)
                    &&& count_views(counts) == tally(
                        word_hashes(text::words(text@)),
                        self.dim as nat,
                        text::words(text@).len(),
                    )
                },
    {
        let counts = self.count_tokens(text);
        proof {
            lemma_tally_length(
                word_hashes(text::words(text@)),
                self.dim as nat,
                text::words(text@).len(),
            );
            assert(count_views(counts@).len() == counts@.len());
        }
        self.embed_counts(arithmetic, &counts)
    }
}

proof fn lemma_tally_length(hashes: Seq<u64>, dim: nat, n: nat)
    ensures
        tally(hashes, dim, n).len() == dim,
    decreases n,
{
    if n > 0 {
        lemma_tally_length(hashes, dim, (n - 1) as nat);
    }
}

/// A number between minus one and one stays as it is, one under them becomes
/// minus one and one over them one.
pub proof fn a_number_in_range_is_held_as_it_is(x: Single)
    ensures
        x.below_spec(Single { bits: 0xbf80_0000 }) ==> held(x) == (Single { bits: 0xbf80_0000 }),
        (Single { bits: 0x3f80_0000 }).below_spec(x) && !x.below_spec(Single { bits: 0xbf80_0000 })
            ==> held(x) == (Single { bits: 0x3f80_0000 }),
        !x.below_spec(Single { bits: 0xbf80_0000 }) && !(Single { bits: 0x3f80_0000 }).below_spec(x)
            ==> held(x) == x,
{
}

/// Two vectors have an angle where they are of one length, each has a component
/// that is not zero, and none is infinite or not a number. Without one their
/// similarity is zero.
pub proof fn only_vectors_with_a_direction_compare(
    a: Seq<Single>,
    b: Seq<Single>,
    i: int,
    j: int,
)
    ensures
        a.len() != b.len() || a.len() == 0 ==> !comparable(a, b),
        0 <= i < a.len() && a[i].magnitude() >= 0x7f80_0000 ==> !comparable(a, b) && !comparable(
            b,
            a,
        ),
        (forall|k: int| 0 <= k < a.len() ==> #[trigger] a[k].key() == 0) ==> !comparable(a, b)
            && !comparable(b, a),
        a.len() == b.len() && 0 <= i < a.len() && a[i].key() != 0 && 0 <= j < b.len() && b[j].key()
            != 0 && (forall|k: int| 0 <= k < a.len() ==> #[trigger] a[k].magnitude() < 0x7f80_0000)
            && (forall|k: int| 0 <= k < b.len() ==> #[trigger] b[k].magnitude() < 0x7f80_0000)
            ==> comparable(a, b),
        comparable(a, b) == comparable(b, a),
{
}

/// A vector under a new id comes last.
pub proof fn a_new_vector_comes_last(rows: Seq<(u128, Seq<Single>)>, id: u128, vector: Seq<Single>)
    ensures
        (forall|i: int| 0 <= i < rows.len() ==> (#[trigger] rows[i]).0 != id) ==> rows_with(
            rows,
            id,
            vector,
        ) == rows + seq![(id, vector)],
        forall|i: int|
            0 <= i < rows.len() && (#[trigger] rows[i]).0 == id && (forall|j: int|
                0 <= j < i ==> (#[trigger] rows[j]).0 != id) ==> rows_with(rows, id, vector)
                == rows.update(i, (id, vector)),
{
    lemma_row_of(rows, id);
    assert(rows.push((id, vector)) =~= rows + seq![(id, vector)]);
}

/// What stays when an id is removed are the rows of the other ids, all of them
/// and in their order: the result names their places.
pub proof fn removing_leaves_every_other_row(rows: Seq<(u128, Seq<Single>)>, id: u128) -> (places:
    Seq<int>)
    ensures
        selection::selects(places, rows.len(), |i: int| rows[i].0 != id),
        rows_without(rows, id) == places.map_values(|i: int| rows[i]),
    decreases rows.len(),
{
    let rule = |i: int| rows[i].0 != id;
    if rows.len() == 0 {
        selection::lemma_none(rule);
        let none = Seq::<int>::empty();
        assert(rows_without(rows, id) =~= none.map_values(|i: int| rows[i]));
        none
    } else {
        let fewer = rows.drop_last();
        let n = fewer.len();
        let before = removing_leaves_every_other_row(fewer, id);
        let shorter = |i: int| fewer[i].0 != id;
        assert(selection::selects(before, n, rule)) by {
            assert forall|p: int| 0 <= p < n && #[trigger] rule(p) implies before.contains(p) by {
                assert(shorter(p));
            }
            assert forall|j: int| 0 <= j < before.len() implies 0 <= #[trigger] before[j] < n
                && rule(before[j]) by {
                assert(shorter(before[j]));
            }
        }
        selection::lemma_next(before, n, rule);
        let places = if rule(n as int) {
            before.push(n as int)
        } else {
            before
        };
        assert(rows_without(rows, id) =~= places.map_values(|i: int| rows[i]));
        places
    }
}

/// A search finds the rows with the highest scores, as many as were asked for
/// or as there are, highest first and by the lower id where they score alike:
/// the result names their places. No row that was left out comes before one
/// that was found.
pub proof fn a_search_finds_the_best_rows(
    ids: Seq<u128>,
    scores: Seq<Single>,
    k: usize,
    order: Seq<usize>,
    out: Seq<VectorMatch>,
) -> (places: Seq<int>)
    requires
        is_search(ids, scores, k, order, out),
        ids.len() == scores.len(),
    ensures
        out.len() == if k <= ids.len() {
            k as nat
        } else {
            ids.len()
        },
        places.len() == out.len(),
        forall|i: int|
            0 <= i < out.len() ==> 0 <= #[trigger] places[i] < ids.len() && out[i].id
                == ids[places[i]] && out[i].score == scores[places[i]],
        forall|i: int, j: int|
            0 <= i < j < out.len() ==> scores[#[trigger] places[i]].key() > scores[
            #[trigger] places[j]].key() || (scores[places[i]].key() == scores[places[j]].key()
                && ids[places[i]] < ids[places[j]]),
        forall|p: int, i: int|
            #![trigger scores[p], places[i]]
            0 <= p < ids.len() && 0 <= i < out.len() && !places.contains(p)
                ==> scores[places[i]].key() > scores[p].key() || (scores[places[i]].key()
                == scores[p].key() && ids[places[i]] < ids[p]),
{
    let n = out.len();
    let places = Seq::new(n, |i: int| order[i] as int);
    assert forall|i: int, j: int| 0 <= i < j < out.len() implies scores[
    #[trigger] places[i]].key() > scores[#[trigger] places[j]].key() || (scores[places[i]].key()
        == scores[places[j]].key() && ids[places[i]] < ids[places[j]]) by {
        assert(match_before(ids, scores, order[i] as int, order[j] as int));
    }
    assert forall|p: int, i: int|
        #![trigger scores[p], places[i]]
        0 <= p < ids.len() && 0 <= i < out.len() && !places.contains(p) implies scores[
    places[i]].key() > scores[p].key() || (scores[places[i]].key() == scores[p].key()
        && ids[places[i]] < ids[p]) by {
        lemma_order_is_complete(ids, scores, order, p);
        let q = choose|q: int| 0 <= q < order.len() && #[trigger] order[q] == p;
        if q < n {
            assert(places[q] == p);
        }
        assert(match_before(ids, scores, order[i] as int, order[q] as int));
    }
    places
}

/// Each hash counts one in the bucket that it leaves as a remainder, against it
/// where its highest bit is set, as long as single precision can tell; all
/// other buckets stay.
pub proof fn every_hash_counts_in_its_bucket(hashes: Seq<u64>, hash: u64, dim: nat)
    requires
        dim > 0,
    ensures
        ({
            let before = tally(hashes, dim, hashes.len());
            let after = tally(hashes.push(hash), dim, hashes.len() + 1);
            let bucket = hash as int % dim as int;
            &&& before.len() == dim
            &&& after.len() == dim
            &&& forall|i: int| 0 <= i < dim && i != bucket ==> #[trigger] after[i] == before[i]
            &&& hash < 0x8000_0000_0000_0000 && before[bucket] < 16_777_216 ==> after[bucket]
                == before[bucket] + 1
            &&& hash < 0x8000_0000_0000_0000 && before[bucket] >= 16_777_216 ==> after[bucket]
                == before[bucket]
            &&& hash >= 0x8000_0000_0000_0000 && before[bucket] > -16_777_216 ==> after[bucket]
                == before[bucket] - 1
            &&& hash >= 0x8000_0000_0000_0000 && before[bucket] <= -16_777_216 ==> after[bucket]
                == before[bucket]
        }),
        forall|i: int| 0 <= i < dim ==> #[trigger] tally(Seq::empty(), dim, 0)[i] == 0,
{
    let more = hashes.push(hash);
    lemma_tally_start(hashes, hash, dim, hashes.len());
    lemma_tally_length(hashes, dim, hashes.len());
    lemma_tally_length(more, dim, more.len());
    let bucket = hash as int % dim as int;
    assert(0 <= bucket < dim) by (nonlinear_arith)
        requires
            dim > 0,
            bucket == hash as int % dim as int,
    ;
    assert(more[hashes.len() as int] == hash);
}

proof fn lemma_tally_start(hashes: Seq<u64>, hash: u64, dim: nat, n: nat)
    requires
        n <= hashes.len(),
    ensures
        tally(hashes.push(hash), dim, n) == tally(hashes, dim, n),
    decreases n,
{
    if n > 0 {
        lemma_tally_start(hashes, hash, dim, (n - 1) as nat);
        assert(hashes.push(hash)[n - 1] == hashes[n - 1]);
    }
}

/// Every word is hashed by itself, in its place.
pub proof fn every_word_is_hashed(words: Seq<Seq<char>>, i: int)
    requires
        0 <= i < words.len(),
    ensures
        word_hashes(words).len() == words.len(),
        word_hashes(words)[i] == hashing::text_hash(words[i]),
{
}

/// The score of a row is the host's cosine of the query and the row's own
/// vector, held between minus one and one, or zero where they have no angle.
pub proof fn every_row_is_scored_by_its_vector<A: VectorArithmetic>(
    arithmetic: A,
    query: Seq<Single>,
    rows: Seq<(u128, Seq<Single>)>,
    scores: Seq<Single>,
    i: int,
) -> (raw: Single)
    requires
        are_similarities(arithmetic, query, rows, scores),
        0 <= i < rows.len(),
    ensures
        scores.len() == rows.len(),
        !comparable(query, rows[i].1) ==> scores[i].bits == 0,
        comparable(query, rows[i].1) ==> is_cosine(arithmetic, query, rows[i].1, raw) && scores[i]
            == held(raw),
{
    assert(is_similarity(arithmetic, query, rows[i].1, scores[i]));
    choose|raw: Single| #[trigger]
        is_cosine(arithmetic, query, rows[i].1, raw) && scores[i] == held(raw)
}

/// A cosine is the host's of these two vectors, in this order, and of no others.
pub proof fn a_cosine_is_of_both_vectors<A: VectorArithmetic>(
    arithmetic: A,
    a: Seq<Single>,
    b: Seq<Single>,
    raw: Single,
)
    ensures
        is_cosine(arithmetic, a, b, raw) <==> exists|x: &[Single], y: &[Single]|
            x@ == a && y@ == b && #[trigger] call_ensures(A::cosine, (&arithmetic, x, y), raw),
{
}

/// The embedding has a component for each count: the host's for that place, or
/// zero where every count is zero.
pub proof fn every_count_has_its_component<A: VectorArithmetic>(
    arithmetic: A,
    counts: Seq<i32>,
    components: Seq<Single>,
    i: int,
)
    requires
        is_embedding(arithmetic, counts, components),
        0 <= i < counts.len(),
    ensures
        components.len() == counts.len(),
        (forall|k: int| 0 <= k < counts.len() ==> #[trigger] counts[k] == 0) ==> components[i].bits
            == 0,
        (exists|k: int| 0 <= k < counts.len() && #[trigger] counts[k] != 0) ==> exists|
            all: &[i32],
        |
            all@ == counts && #[trigger] call_ensures(
                A::unit_component,
                (&arithmetic, all, i as usize),
                components[i],
            ),
{
    assert(is_component(arithmetic, counts, i, components[i]));
}

/// A vector of the wrong length is told the length of the index and then its
/// own.
pub proof fn a_mismatch_tells_both_lengths(what: Seq<char>, dim: nat, got: nat)
    ensures
        mismatch(what, dim, got) == what + " dimension mismatch: index is "@ + text::decimal(dim)
            + ", got "@ + text::decimal(got),
{
}

} // verus!
