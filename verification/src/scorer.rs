use vstd::prelude::*;

use crate::model::{
    lemma_count_true_bounds, lemma_score_upto_mono, lemma_signup_sum_mono,
    lemma_sum_scores_prefix_bounds, sum_scores_prefix, Take, TaskState,
};

verus! {

impl Take {
    /// Realized value of this take when its library signs up at `start`:
    /// the scores of the prefix of its book list that fits the capacity
    /// still available then.
    pub fn score(&self, state: &TaskState, start: u32) -> (r: u64)
        requires
            state.wf(),
            state.take_wf(*self),
        ensures
            r == state.take_value_at(*self, start as int),
    {
        let lib = &state.libraries[self.library as usize];
        let cap: u64 = if (start as u64) + (lib.signup_time as u64) <= (state.duration as u64) {
            let left = state.duration - start - lib.signup_time;
            assert((left as int) * (lib.books_per_day as int) < 0x1_0000_0000_0000_0000)
                by (nonlinear_arith)
                requires
                    left < 0x1_0000_0000 && lib.books_per_day < 0x1_0000_0000,
            ;
            (left as u64) * (lib.books_per_day as u64)
        } else {
            0
        };
        let ghost gcap = state.capacity_at(start as int, self.library as int);
        assert(cap as int == gcap);
        let n: usize = if cap < (self.books.len() as u64) {
            cap as usize
        } else {
            self.books.len()
        };
        let mut r: u64 = 0;
        let mut k: usize = 0;
        while k < n
            invariant
                state.wf(),
                state.take_wf(*self),
                k <= n,
                n <= self.books@.len(),
                n as int == (if gcap < self.books@.len() {
                    gcap
                } else {
                    self.books@.len() as int
                }),
                r == sum_scores_prefix(state.book_scores@, self.books@, k as int),
                r <= 0xFFFF * k,
            decreases n - k,
        {
            let b = self.books[k];
            r = r + (state.book_scores[b as usize] as u64);
            k += 1;
        }
        r
    }
}

impl TaskState {
    /// Replay the committed takes from time zero and total their realized
    /// value. The result is a function of the state alone, so repeated
    /// calls return the same total and change nothing.
    pub fn score(&self) -> (r: u64)
        requires
            self.wf(),
            self.inv(),
        ensures
            r == self.spec_score(),
    {
        let mut total: u64 = 0;
        let mut start: u32 = 0;
        let mut i: usize = 0;
        while i < self.takes.len()
            invariant
                self.wf(),
                self.inv(),
                i <= self.takes@.len(),
                start == self.signup_sum(i as int),
                total == self.score_upto(i as int),
            decreases self.takes@.len() - i,
        {
            let n = self.takes.len();
            proof {
                lemma_signup_sum_mono(*self, i + 1, n as int);
                lemma_score_upto_mono(*self, i + 1, n as int);
                lemma_count_true_bounds(self.cur_books@);
                let t = self.takes@[i as int];
                let cap = self.capacity_at(self.signup_sum(i as int), t.library as int);
                let nb = if cap < t.books@.len() {
                    cap
                } else {
                    t.books@.len() as int
                };
                lemma_sum_scores_prefix_bounds(self.book_scores@, t.books@, nb);
            }
            let t = &self.takes[i];
            let t_score = t.score(self, start);
            total = total + t_score;
            let su = self.libraries[t.library as usize].signup_time;
            start = start + su;
            i += 1;
        }
        total
    }
}

} // verus!
