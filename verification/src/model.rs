use vstd::prelude::*;

verus! {

/// One activatable library: a one-time signup cost, a per-time-unit
/// throughput, and the set of books it may scan, stored densely by book id.
pub struct Library {
    pub signup_time: u32,
    pub books_per_day: u32,
    pub books: Vec<bool>,
}

/// One committed decision: a library and the books it scans, in selection
/// order.
pub struct Take {
    pub library: u32,
    pub books: Vec<u32>,
}

/// Which rule picks the next take each step.
#[derive(Clone, Copy)]
pub enum Strategy {
    /// Commit the candidate of highest value density.
    Greedy,
    /// Compare the two best candidates and prefer the runner-up when the
    /// best one would strand it.
    Lookahead,
}

/// The whole schedule: the immutable value model (libraries, book scores,
/// duration) plus the mutable stepping state.
pub struct TaskState {
    pub libraries: Vec<Library>,
    pub book_scores: Vec<u16>,
    pub duration: u32,

    /// Time already spent on signups.
    pub cur_time: u32,
    /// Which library ids are still available.
    pub cur_libraries: Vec<bool>,
    /// Which book ids are still available.
    pub cur_books: Vec<bool>,

    /// The committed takes, in commit order.
    pub takes: Vec<Take>,
}

/// How many entries of a boolean sequence are set.
pub open spec fn count_true(s: Seq<bool>) -> int
    decreases s.len(),
{
    if s.len() == 0 {
        0
    } else {
        count_true(s.drop_last()) + if s.last() {
            1int
        } else {
            0int
        }
    }
}

/// Sum of the scores of the first `n` books of `books`.
pub open spec fn sum_scores_prefix(scores: Seq<u16>, books: Seq<u32>, n: int) -> int
    decreases n,
{
    if n <= 0 {
        0
    } else {
        sum_scores_prefix(scores, books, n - 1) + scores[books[n - 1] as int]
    }
}

/// Orders value densities `v1 / c1 <= v2 / c2` exactly, reading `v / 0` as
/// positive infinity for `v > 0` and `0 / 0` as zero.
pub open spec fn density_key(v: int, c: int) -> (int, int) {
    if c > 0 {
        (v, c)
    } else if v > 0 {
        (1, 0)
    } else {
        (0, 1)
    }
}

/// `v1 / c1 <= v2 / c2` on the extended non-negative rationals.
pub open spec fn density_le(v1: int, c1: int, v2: int, c2: int) -> bool {
    density_key(v1, c1).0 * density_key(v2, c2).1 <= density_key(v2, c2).0 * density_key(
        v1,
        c1,
    ).1
}

/// The two states share the immutable value model.
pub open spec fn models_match(a: TaskState, b: TaskState) -> bool {
    &&& a.libraries@ == b.libraries@
    &&& a.book_scores@ == b.book_scores@
    &&& a.duration == b.duration
}

impl TaskState {
    /// Number of books in the value model.
    pub open spec fn book_count(self) -> int {
        self.book_scores@.len() as int
    }

    /// Number of libraries in the value model.
    pub open spec fn lib_count(self) -> int {
        self.libraries@.len() as int
    }

    /// Structural well-formedness: all dense tables agree on the id spaces,
    /// and both id spaces fit in 32 bits.
    pub open spec fn wf(self) -> bool {
        &&& self.book_scores@.len() <= 0x1_0000_0000
        &&& self.libraries@.len() <= 0x1_0000_0000
        &&& self.cur_books@.len() == self.book_count()
        &&& self.cur_libraries@.len() == self.lib_count()
        &&& forall|l: int|
            0 <= l < self.lib_count() ==> (#[trigger] self.libraries@[l]).books@.len()
                == self.book_count()
    }

    /// Library `l` has not been used yet.
    pub open spec fn lib_available(self, l: int) -> bool {
        self.cur_libraries@[l]
    }

    /// Book `b` belongs to library `l` and has not been scanned yet.
    pub open spec fn eligible(self, l: int, b: int) -> bool {
        self.libraries@[l].books@[b] && self.cur_books@[b]
    }

    /// How many books below `upto` are eligible for library `l`.
    pub open spec fn eligible_count(self, l: int, upto: int) -> int
        decreases upto,
    {
        if upto <= 0 {
            0
        } else {
            self.eligible_count(l, upto - 1) + if self.eligible(l, upto - 1) {
                1int
            } else {
                0int
            }
        }
    }

    /// How many books library `l` can scan when it signs up at time `start`:
    /// `floor(free_time * throughput)`, or zero when the signup itself does
    /// not fit in the budget.
    pub open spec fn capacity_at(self, start: int, l: int) -> int {
        let lib = self.libraries@[l];
        if start + lib.signup_time <= self.duration {
            (self.duration - start - lib.signup_time) * lib.books_per_day
        } else {
            0
        }
    }

    /// The take mentions only ids of the model, lists no book twice, and is
    /// small enough for the 32-bit book id space.
    pub open spec fn take_wf(self, t: Take) -> bool {
        &&& t.library < self.libraries@.len()
        &&& t.books@.len() <= 0x1_0000_0000
        &&& t.books@.no_duplicates()
        &&& forall|k: int| 0 <= k < t.books@.len() ==> (#[trigger] t.books@[k]) < self.book_count()
    }

    /// Sum of the signup costs of the first `n` committed takes.
    pub open spec fn signup_sum(self, n: int) -> int
        decreases n,
    {
        if n <= 0 {
            0
        } else {
            self.signup_sum(n - 1) + self.libraries@[self.takes@[n - 1].library as int].signup_time
        }
    }

    /// Realized value of take `t` when its library signs up at `start`: the
    /// prefix of its book list that fits the capacity available then.
    pub open spec fn take_value_at(self, t: Take, start: int) -> int {
        let cap = self.capacity_at(start, t.library as int);
        let n = if cap < t.books@.len() {
            cap
        } else {
            t.books@.len() as int
        };
        sum_scores_prefix(self.book_scores@, t.books@, n)
    }

    /// Total realized value of the first `n` committed takes, replayed from
    /// time zero.
    pub open spec fn score_upto(self, n: int) -> int
        decreases n,
    {
        if n <= 0 {
            0
        } else {
            self.score_upto(n - 1) + self.take_value_at(self.takes@[n - 1], self.signup_sum(n - 1))
        }
    }

    /// Total realized value of the committed sequence.
    pub open spec fn spec_score(self) -> int {
        self.score_upto(self.takes@.len() as int)
    }

    /// Every committed take is structurally sound, non-empty, and its size
    /// obeyed the capacity available when it was committed.
    pub open spec fn takes_within_capacity(self) -> bool {
        forall|i: int|
            0 <= i < self.takes@.len() ==> {
                let t = #[trigger] self.takes@[i];
                &&& self.take_wf(t)
                &&& t.books@.len() >= 1
                &&& t.books@.len() <= self.capacity_at(self.signup_sum(i), t.library as int)
            }
    }

    /// The clock equals the sum of the committed signup costs and never
    /// exceeds the budget.
    pub open spec fn clock_consistent(self) -> bool {
        &&& self.cur_time == self.signup_sum(self.takes@.len() as int)
        &&& self.cur_time <= self.duration
    }

    /// No library and no book appears in two committed takes, and everything
    /// committed has been removed from the available sets.
    pub open spec fn no_double_use(self) -> bool {
        &&& forall|i: int|
            0 <= i < self.takes@.len() ==> !self.lib_available(
                (#[trigger] self.takes@[i]).library as int,
            )
        &&& forall|i: int, j: int|
            0 <= i < self.takes@.len() && 0 <= j < self.takes@.len() && i != j ==> (
            #[trigger] self.takes@[i]).library != (#[trigger] self.takes@[j]).library
        &&& forall|i: int, k: int|
            0 <= i < self.takes@.len() && 0 <= k < self.takes@[i].books@.len()
                ==> !self.cur_books@[#[trigger] self.takes@[i].books@[k] as int]
        &&& forall|i: int, j: int, k: int, m: int|
            #![trigger self.takes@[i].books@[k], self.takes@[j].books@[m]]
            0 <= i < self.takes@.len() && 0 <= j < self.takes@.len() && i != j && 0 <= k
                < self.takes@[i].books@.len() && 0 <= m < self.takes@[j].books@.len()
                ==> self.takes@[i].books@[k] != self.takes@[j].books@[m]
    }

    /// The realized value is bounded by the worth of the books scanned so
    /// far; this keeps every score computation inside `u64`.
    pub open spec fn score_bounded(self) -> bool {
        self.spec_score() + 0xFFFF * count_true(self.cur_books@) <= 0xFFFF * self.book_count()
    }

    /// The step invariant: everything the engine maintains between steps.
    pub open spec fn inv(self) -> bool {
        &&& self.takes_within_capacity()
        &&& self.clock_consistent()
        &&& self.no_double_use()
        &&& self.score_bounded()
    }

    /// A freshly built schedule: nothing spent, everything available.
    pub open spec fn is_initial(self) -> bool {
        &&& self.cur_time == 0
        &&& self.takes@.len() == 0
        &&& forall|l: int| 0 <= l < self.lib_count() ==> self.lib_available(l)
        &&& forall|b: int| 0 <= b < self.book_count() ==> self.cur_books@[b]
    }
}

/// `count_true` stays between zero and the length of the sequence.
pub proof fn lemma_count_true_bounds(s: Seq<bool>)
    ensures
        0 <= count_true(s) <= s.len(),
    decreases s.len(),
{
    if s.len() > 0 {
        lemma_count_true_bounds(s.drop_last());
    }
}

/// Clearing one set entry lowers `count_true` by exactly one.
pub proof fn lemma_count_true_update_false(s: Seq<bool>, i: int)
    requires
        0 <= i < s.len(),
        s[i],
    ensures
        count_true(s.update(i, false)) == count_true(s) - 1,
    decreases s.len(),
{
    let u = s.update(i, false);
    if i == s.len() - 1 {
        assert(u.drop_last() =~= s.drop_last());
    } else {
        assert(u.drop_last() =~= s.drop_last().update(i, false));
        lemma_count_true_update_false(s.drop_last(), i);
    }
}

/// Setting one clear entry raises `count_true` by exactly one.
pub proof fn lemma_count_true_update_true(s: Seq<bool>, i: int)
    requires
        0 <= i < s.len(),
        !s[i],
    ensures
        count_true(s.update(i, true)) == count_true(s) + 1,
    decreases s.len(),
{
    let u = s.update(i, true);
    if i == s.len() - 1 {
        assert(u.drop_last() =~= s.drop_last());
    } else {
        assert(u.drop_last() =~= s.drop_last().update(i, true));
        lemma_count_true_update_true(s.drop_last(), i);
    }
}

/// A sequence with no entry set has `count_true` zero.
pub proof fn lemma_count_true_none(s: Seq<bool>)
    requires
        forall|b: int| 0 <= b < s.len() ==> !s[b],
    ensures
        count_true(s) == 0,
    decreases s.len(),
{
    if s.len() > 0 {
        lemma_count_true_none(s.drop_last());
    }
}

/// A sequence with every entry set has `count_true` equal to its length.
pub proof fn lemma_count_true_all(s: Seq<bool>)
    requires
        forall|b: int| 0 <= b < s.len() ==> s[b],
    ensures
        count_true(s) == s.len(),
    decreases s.len(),
{
    if s.len() > 0 {
        lemma_count_true_all(s.drop_last());
    }
}

/// A prefix sum of in-range scores lies between zero and `0xFFFF * n`.
pub proof fn lemma_sum_scores_prefix_bounds(scores: Seq<u16>, books: Seq<u32>, n: int)
    requires
        n <= books.len(),
        forall|k: int| 0 <= k < n ==> (#[trigger] books[k]) < scores.len(),
    ensures
        n >= 0 ==> 0 <= sum_scores_prefix(scores, books, n) <= 0xFFFF * n,
        n < 0 ==> sum_scores_prefix(scores, books, n) == 0,
    decreases n,
{
    if n > 0 {
        lemma_sum_scores_prefix_bounds(scores, books, n - 1);
    }
}

/// The first `n` summands of `sum_scores_prefix` depend only on the first
/// `n` books.
pub proof fn lemma_sum_scores_prefix_agree(scores: Seq<u16>, b1: Seq<u32>, b2: Seq<u32>, n: int)
    requires
        n <= b1.len(),
        n <= b2.len(),
        forall|k: int| 0 <= k < n ==> b1[k] == b2[k],
    ensures
        sum_scores_prefix(scores, b1, n) == sum_scores_prefix(scores, b2, n),
    decreases n,
{
    if n > 0 {
        lemma_sum_scores_prefix_agree(scores, b1, b2, n - 1);
    }
}

/// `signup_sum(n)` depends only on the model and the first `n` takes.
pub proof fn lemma_signup_sum_agree(a: TaskState, b: TaskState, n: int)
    requires
        a.libraries@ == b.libraries@,
        n <= a.takes@.len(),
        n <= b.takes@.len(),
        forall|i: int| 0 <= i < n ==> a.takes@[i] == b.takes@[i],
    ensures
        a.signup_sum(n) == b.signup_sum(n),
    decreases n,
{
    if n > 0 {
        lemma_signup_sum_agree(a, b, n - 1);
    }
}

/// Signup sums grow with the number of takes counted.
pub proof fn lemma_signup_sum_mono(s: TaskState, i: int, j: int)
    requires
        i <= j,
    ensures
        s.signup_sum(i) <= s.signup_sum(j),
    decreases j - i,
{
    if i < j {
        lemma_signup_sum_mono(s, i, j - 1);
    }
}

/// `score_upto(n)` depends only on the model and the first `n` takes.
pub proof fn lemma_score_upto_agree(a: TaskState, b: TaskState, n: int)
    requires
        models_match(a, b),
        n <= a.takes@.len(),
        n <= b.takes@.len(),
        forall|i: int| 0 <= i < n ==> a.takes@[i] == b.takes@[i],
    ensures
        a.score_upto(n) == b.score_upto(n),
    decreases n,
{
    if n > 0 {
        lemma_score_upto_agree(a, b, n - 1);
        lemma_signup_sum_agree(a, b, n - 1);
    }
}

/// With an empty budget no library can ever sign up, so an invariant state
/// holds no committed take and its score is zero.
pub proof fn lemma_empty_budget(s: TaskState)
    requires
        s.wf(),
        s.inv(),
        s.duration == 0,
    ensures
        s.takes@.len() == 0,
        s.spec_score() == 0,
{
    if s.takes@.len() > 0 {
        let t = s.takes@[0];
        let l = t.library as int;
        let lib = s.libraries@[l];
        assert(s.signup_sum(0) == 0);
        let cap = s.capacity_at(0, l);
        assert(t.books@.len() >= 1 && t.books@.len() <= cap);
        if 0 + lib.signup_time <= s.duration {
            assert(cap == (0 - 0 - lib.signup_time as int) * lib.books_per_day);
            assert(cap <= 0) by (nonlinear_arith)
                requires
                    cap == (0 - 0 - lib.signup_time as int) * lib.books_per_day,
                    lib.signup_time as int >= 0,
                    lib.books_per_day as int >= 0,
            ;
        }
        assert(false);
    }
}

/// Each committed take contributes a non-negative value, so the replayed
/// score grows with the number of takes counted.
pub proof fn lemma_score_upto_mono(s: TaskState, i: int, j: int)
    requires
        s.wf(),
        s.takes_within_capacity(),
        0 <= i <= j <= s.takes@.len(),
    ensures
        s.score_upto(i) <= s.score_upto(j),
    decreases j - i,
{
    if i < j {
        lemma_score_upto_mono(s, i, j - 1);
        let t = s.takes@[j - 1];
        let start = s.signup_sum(j - 1);
        let cap = s.capacity_at(start, t.library as int);
        let n = if cap < t.books@.len() {
            cap
        } else {
            t.books@.len() as int
        };
        assert(n <= t.books@.len());
        lemma_sum_scores_prefix_bounds(s.book_scores@, t.books@, n);
    }
}

} // verus!
