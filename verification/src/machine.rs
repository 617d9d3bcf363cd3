use vstd::prelude::*;

use crate::model::{
    count_true, lemma_count_true_bounds, lemma_count_true_update_false, lemma_score_upto_agree,
    lemma_signup_sum_agree, lemma_sum_scores_prefix_bounds, models_match, Strategy, Take,
    TaskState,
};
use crate::policy::pick_ok;

verus! {

/// The step transition that commits the non-empty take `t` of value `v`:
/// the take's library and books stop being available, the clock advances by
/// the library's signup cost, and the take joins the committed sequence.
pub open spec fn commits(
    pre: TaskState,
    post: TaskState,
    t: Take,
    v: u64,
    strategy: Strategy,
) -> bool {
    &&& models_match(pre, post)
    &&& pre.lib_available(t.library as int)
    &&& pre.is_candidate(t.library as int, t, v)
    &&& pick_ok(pre, t, v, strategy)
    &&& t.books@.len() >= 1
    &&& post.takes@ == pre.takes@.push(t)
    &&& post.cur_time == pre.cur_time + pre.libraries@[t.library as int].signup_time
    &&& post.cur_libraries@ == pre.cur_libraries@.update(t.library as int, false)
    &&& post.cur_books@.len() == pre.cur_books@.len()
    &&& forall|b: int|
        0 <= b < post.cur_books@.len() ==> #[trigger] post.cur_books@[b] == (pre.cur_books@[b]
            && !t.books@.contains(b as u32))
}

/// The step transition that halts the machine: either the budget is spent,
/// or nothing is available, or the policy picked an empty take, whose
/// library is consumed without being committed.
pub open spec fn halts(pre: TaskState, post: TaskState, strategy: Strategy) -> bool {
    ||| (pre.cur_time >= pre.duration && post == pre)
    ||| ((forall|l: int| 0 <= l < pre.lib_count() ==> !pre.lib_available(l)) && post == pre)
    ||| (exists|t: Take, v: u64|
        {
            &&& #[trigger] pick_ok(pre, t, v, strategy)
            &&& t.books@.len() == 0
            &&& models_match(pre, post)
            &&& post.cur_time == pre.cur_time
            &&& post.takes@ == pre.takes@
            &&& post.cur_books@ == pre.cur_books@
            &&& post.cur_libraries@ == pre.cur_libraries@.update(t.library as int, false)
        })
}

impl TaskState {
    /// Advance the schedule by one step: ask the selection policy for the
    /// next take and commit it. Returns `true` when the machine is done and
    /// `false` when more steps remain. An empty pick consumes its library
    /// but commits nothing and halts the machine.
    #[verifier::rlimit(100)]
    pub fn do_step(&mut self, strategy: Strategy) -> (done: bool)
        requires
            old(self).wf(),
            old(self).inv(),
        ensures
            final(self).wf(),
            final(self).inv(),
            models_match(*old(self), *final(self)),
            done ==> halts(*old(self), *final(self), strategy),
            !done ==> exists|t: Take, v: u64|
                #[trigger] commits(*old(self), *final(self), t, v, strategy),
            !done ==> count_true(final(self).cur_libraries@) < count_true(
                old(self).cur_libraries@,
            ),
    {
        let ghost pre = *old(self);
        if self.cur_time >= self.duration {
            return true;
        }
        let picked = self.select_next(strategy);
        match picked {
            None => true,
            Some((t, v)) => {
                let ghost gl = t.library as int;
                proof {
                    assert(pre.lib_available(gl) && pre.is_candidate(gl, t, v));
                }
                let li = t.library as usize;
                self.cur_libraries[li] = false;
                if t.books.is_empty() {
                    proof {
                        lemma_signup_sum_agree(*self, pre, pre.takes@.len() as int);
                        lemma_score_upto_agree(*self, pre, pre.takes@.len() as int);
                        assert forall|i: int| 0 <= i < self.takes@.len() implies {
                            let tk = #[trigger] self.takes@[i];
                            &&& self.take_wf(tk)
                            &&& tk.books@.len() >= 1
                            &&& tk.books@.len() <= self.capacity_at(
                                self.signup_sum(i),
                                tk.library as int,
                            )
                        } by {
                            lemma_signup_sum_agree(*self, pre, i);
                        }
                        assert(self.inv());
                        assert(halts(pre, *self, strategy));
                    }
                    return true;
                }
                // The committed take is non-empty, so its capacity was
                // positive and its signup still fits the budget.
                let ghost lib = pre.libraries@[gl];
                proof {
                    assert(t.books@.len() >= 1);
                    assert(pre.capacity_at(pre.cur_time as int, gl) > 0) by {
                        if pre.capacity_at(pre.cur_time as int, gl) <= 0 {
                            assert(t.books@.len() == 0);
                        }
                    }
                    assert(pre.cur_time + lib.signup_time <= pre.duration);
                    assert((pre.duration - pre.cur_time - lib.signup_time) * lib.books_per_day
                        > 0);
                    assert(pre.duration - pre.cur_time - lib.signup_time > 0) by (nonlinear_arith)
                        requires
                            (pre.duration - pre.cur_time - lib.signup_time) * lib.books_per_day
                                > 0,
                            (pre.duration - pre.cur_time - lib.signup_time) >= 0,
                    ;
                }
                let su = self.libraries[li].signup_time;
                self.cur_time = self.cur_time + su;
                // Remove the take's books from the available set.
                let ghost books_pre = self.cur_books@;
                let mut k: usize = 0;
                while k < t.books.len()
                    invariant
                        k <= t.books@.len(),
                        t.books@.no_duplicates(),
                        self.libraries@ == pre.libraries@,
                        self.book_scores@ == pre.book_scores@,
                        self.duration == pre.duration,
                        self.takes@ == pre.takes@,
                        self.cur_time == pre.cur_time + pre.libraries@[gl].signup_time,
                        self.cur_libraries@ == pre.cur_libraries@.update(gl, false),
                        books_pre == pre.cur_books@,
                        books_pre.len() <= 0x1_0000_0000,
                        self.cur_books@.len() == books_pre.len(),
                        forall|m: int|
                            0 <= m < t.books@.len() ==> (#[trigger] t.books@[m] as int)
                                < books_pre.len(),
                        forall|m: int|
                            0 <= m < t.books@.len() ==> books_pre[#[trigger] t.books@[m] as int],
                        forall|b: int|
                            0 <= b < self.cur_books@.len() ==> #[trigger] self.cur_books@[b] == (
                            books_pre[b] && !t.books@.take(k as int).contains(b as u32)),
                        count_true(self.cur_books@) == count_true(books_pre) - k,
                    decreases t.books@.len() - k,
                {
                    let b = t.books[k];
                    let ghost cb_pre = self.cur_books@;
                    proof {
                        assert(!t.books@.take(k as int).contains(b)) by {
                            if t.books@.take(k as int).contains(b) {
                                let m = choose|m: int|
                                    0 <= m < k && (#[trigger] t.books@.take(k as int)[m]) == b;
                                assert(t.books@[m] == t.books@[k as int]);
                            }
                        }
                        assert(self.cur_books@[b as int]);
                        lemma_count_true_update_false(self.cur_books@, b as int);
                    }
                    self.cur_books[b as usize] = false;
                    proof {
                        assert(t.books@.take(k + 1) =~= t.books@.take(k as int).push(
                            t.books@[k as int],
                        ));
                        assert forall|bb: int| 0 <= bb < self.cur_books@.len() implies
                            #[trigger] self.cur_books@[bb] == (books_pre[bb] && !t.books@.take(
                            k + 1,
                        ).contains(bb as u32)) by {
                            let pk = t.books@.take(k as int);
                            let pk1 = t.books@.take(k + 1);
                            assert(pk1.contains(bb as u32) <==> (pk.contains(bb as u32) || bb
                                as u32 == b)) by {
                                if pk1.contains(bb as u32) {
                                    let m = choose|m: int|
                                        0 <= m < pk1.len() && (#[trigger] pk1[m]) == bb as u32;
                                    if m < k {
                                        assert(pk[m] == bb as u32);
                                    }
                                }
                                if pk.contains(bb as u32) {
                                    let m = choose|m: int|
                                        0 <= m < pk.len() && (#[trigger] pk[m]) == bb as u32;
                                    assert(pk1[m] == bb as u32);
                                }
                                if bb as u32 == b {
                                    assert(pk1[k as int] == b);
                                }
                            }
                            if bb != b as int {
                                assert(self.cur_books@[bb] == cb_pre[bb]);
                            }
                        }
                    }
                    k += 1;
                }
                let ghost mid = *self;
                self.takes.push(t);
                proof {
                    let post = *self;
                    let n = pre.takes@.len() as int;
                    assert(post.takes@ == pre.takes@.push(t));
                    assert(t.books@.take(t.books@.len() as int) =~= t.books@);
                    // Clock bookkeeping.
                    lemma_signup_sum_agree(post, pre, n);
                    assert(post.signup_sum(n + 1) == pre.signup_sum(n) + lib.signup_time as int);
                    assert(post.cur_time == post.signup_sum(n + 1));
                    // Every take, old and new, respects its commit-time capacity.
                    assert forall|i: int| 0 <= i < post.takes@.len() implies {
                        let tk = #[trigger] post.takes@[i];
                        &&& post.take_wf(tk)
                        &&& tk.books@.len() >= 1
                        &&& tk.books@.len() <= post.capacity_at(
                            post.signup_sum(i),
                            tk.library as int,
                        )
                    } by {
                        lemma_signup_sum_agree(post, pre, i);
                        if i < n {
                            assert(post.takes@[i] == pre.takes@[i]);
                        } else {
                            assert(post.takes@[i] == t);
                        }
                    }
                    // The bound on the realized value carries over.
                    lemma_score_upto_agree(post, pre, n);
                    assert(post.spec_score() == pre.spec_score() + post.take_value_at(
                        t,
                        post.signup_sum(n),
                    ));
                    let cap = post.capacity_at(post.signup_sum(n), gl);
                    let nb = t.books@.len() as int;
                    assert(post.take_value_at(t, post.signup_sum(n)) == crate::model::sum_scores_prefix(
                        post.book_scores@,
                        t.books@,
                        nb,
                    ));
                    lemma_sum_scores_prefix_bounds(post.book_scores@, t.books@, nb);
                    assert(count_true(post.cur_books@) == count_true(pre.cur_books@) - nb);
                    assert(post.spec_score() + 0xFFFF * count_true(post.cur_books@) <= 0xFFFF
                        * post.book_count()) by (nonlinear_arith)
                        requires
                            post.spec_score() <= pre.spec_score() + 0xFFFF * nb,
                            count_true(post.cur_books@) == count_true(pre.cur_books@) - nb,
                            pre.spec_score() + 0xFFFF * count_true(pre.cur_books@) <= 0xFFFF
                                * post.book_count(),
                    ;
                    assert(post.inv());
                    // The committed library really left the available set.
                    assert(pre.cur_libraries@[gl]);
                    lemma_count_true_update_false(pre.cur_libraries@, gl);
                    assert(commits(pre, post, t, v, strategy));
                }
                false
            },
        }
    }

    /// Run the step loop to completion under one strategy. The loop always
    /// terminates: every committed step consumes one library. The final
    /// state was reached by a legal halting step from an invariant state.
    pub fn run_all(&mut self, strategy: Strategy)
        requires
            old(self).wf(),
            old(self).inv(),
        ensures
            final(self).wf(),
            final(self).inv(),
            models_match(*old(self), *final(self)),
            final(self).cur_time >= old(self).cur_time,
            final(self).takes@.len() >= old(self).takes@.len(),
            forall|i: int|
                0 <= i < old(self).takes@.len() ==> final(self).takes@[i] == old(
                    self,
                ).takes@[i],
            exists|mid: TaskState|
                #[trigger] halts(mid, *final(self), strategy) && mid.wf() && mid.inv(),
    {
        loop
            invariant
                self.wf(),
                self.inv(),
                models_match(*old(self), *self),
                self.cur_time >= old(self).cur_time,
                self.takes@.len() >= old(self).takes@.len(),
                forall|i: int|
                    0 <= i < old(self).takes@.len() ==> self.takes@[i] == old(self).takes@[i],
            ensures
                self.wf(),
                self.inv(),
                models_match(*old(self), *self),
                self.cur_time >= old(self).cur_time,
                self.takes@.len() >= old(self).takes@.len(),
                forall|i: int|
                    0 <= i < old(self).takes@.len() ==> self.takes@[i] == old(self).takes@[i],
                exists|mid: TaskState|
                    #[trigger] halts(mid, *self, strategy) && mid.wf() && mid.inv(),
            decreases count_true(self.cur_libraries@),
        {
            proof {
                lemma_count_true_bounds(self.cur_libraries@);
            }
            let ghost pre = *self;
            let done = self.do_step(strategy);
            proof {
                lemma_count_true_bounds(self.cur_libraries@);
            }
            if done {
                proof {
                    assert(halts(pre, *self, strategy) && pre.wf() && pre.inv());
                }
                break ;
            }
        }
    }
}

} // verus!
