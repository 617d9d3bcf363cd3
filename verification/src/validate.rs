use vstd::prelude::*;

use crate::model::{count_true, lemma_sum_scores_prefix_bounds, TaskState};

verus! {

impl TaskState {
    /// Decide whether a schedule restored from outside — a checkpoint, or
    /// any untrusted source — is consistent: it returns `true` exactly when
    /// the state is well-formed and satisfies the step invariant, so the
    /// machine may resume stepping on it.
    #[verifier::rlimit(100)]
    pub fn check_consistency(&self) -> (r: bool)
        ensures
            r == (self.wf() && self.inv()),
    {
        let nb = self.book_scores.len();
        let nl = self.libraries.len();
        if (nb as u64) > 0x1_0000_0000 || (nl as u64) > 0x1_0000_0000 {
            return false;
        }
        if self.cur_books.len() != nb || self.cur_libraries.len() != nl {
            return false;
        }
        let mut j: usize = 0;
        while j < nl
            invariant
                j <= nl,
                nl == self.libraries@.len(),
                nb == self.book_scores@.len(),
                forall|l: int|
                    0 <= l < j ==> (#[trigger] self.libraries@[l]).books@.len() == nb as int,
            decreases nl - j,
        {
            if self.libraries[j].books.len() != nb {
                return false;
            }
            j += 1;
        }
        if self.cur_time > self.duration {
            return false;
        }
        assert(self.wf());
        let n = self.takes.len();
        let mut seen_libs: Vec<bool> = vec![false; nl];
        let mut seen_books: Vec<bool> = vec![false; nb];
        let mut clock: u64 = 0;
        let mut total: u128 = 0;
        let mut i: usize = 0;
        while i < n
            invariant
                self.wf(),
                i <= n,
                n == self.takes@.len(),
                nb == self.book_scores@.len(),
                nl == self.libraries@.len(),
                self.cur_time <= self.duration,
                seen_libs@.len() == nl,
                seen_books@.len() == nb,
                clock == self.signup_sum(i as int),
                clock <= self.duration,
                total == self.score_upto(i as int),
                total <= (i as int) * 0x1_0000_0000_0000,
                forall|p: int|
                    0 <= p < i ==> {
                        let t = #[trigger] self.takes@[p];
                        &&& self.take_wf(t)
                        &&& t.books@.len() >= 1
                        &&& t.books@.len() <= self.capacity_at(
                            self.signup_sum(p),
                            t.library as int,
                        )
                    },
                forall|p: int|
                    0 <= p < i ==> !self.lib_available(
                        (#[trigger] self.takes@[p]).library as int,
                    ),
                forall|p: int|
                    0 <= p < i ==> seen_libs@[(#[trigger] self.takes@[p]).library as int],
                forall|l: int|
                    0 <= l < nl && #[trigger] seen_libs@[l] ==> exists|p: int|
                        0 <= p < i && (#[trigger] self.takes@[p]).library as int == l,
                forall|p: int, q: int|
                    0 <= p < i && 0 <= q < i && p != q ==> (#[trigger] self.takes@[p]).library != (
                    #[trigger] self.takes@[q]).library,
                forall|p: int, k: int|
                    0 <= p < i && 0 <= k < self.takes@[p].books@.len()
                        ==> !self.cur_books@[#[trigger] self.takes@[p].books@[k] as int],
                forall|p: int, k: int|
                    0 <= p < i && 0 <= k < self.takes@[p].books@.len()
                        ==> seen_books@[#[trigger] self.takes@[p].books@[k] as int],
                forall|x: int|
                    0 <= x < nb && #[trigger] seen_books@[x] ==> exists|p: int, kk: int|
                        0 <= p < i && 0 <= kk < self.takes@[p].books@.len() && (
                        #[trigger] self.takes@[p].books@[kk]) as int == x,
                forall|p: int, q: int, k: int, m: int|
                    #![trigger self.takes@[p].books@[k], self.takes@[q].books@[m]]
                    0 <= p < i && 0 <= q < i && p != q && 0 <= k < self.takes@[p].books@.len() && 0
                        <= m < self.takes@[q].books@.len() ==> self.takes@[p].books@[k]
                        != self.takes@[q].books@[m],
            decreases n - i,
        {
            let t = &self.takes[i];
            let li = t.library as usize;
            if li >= nl {
                proof {
                    assert(!self.takes_within_capacity()) by {
                        if self.takes_within_capacity() {
                            assert(self.take_wf(self.takes@[i as int]));
                        }
                    }
                }
                return false;
            }
            if seen_libs[li] {
                proof {
                    assert(!self.no_double_use()) by {
                        if self.no_double_use() {
                            let p = choose|p: int|
                                0 <= p < i && (#[trigger] self.takes@[p]).library as int
                                    == li as int;
                            assert(self.takes@[p].library != self.takes@[i as int].library);
                        }
                    }
                }
                return false;
            }
            if self.cur_libraries[li] {
                proof {
                    assert(!self.no_double_use()) by {
                        if self.no_double_use() {
                            assert(!self.lib_available(
                                (self.takes@[i as int]).library as int,
                            ));
                        }
                    }
                }
                return false;
            }
            seen_libs[li] = true;
            let nbooks = t.books.len();
            if nbooks == 0 || (nbooks as u64) > 0x1_0000_0000 {
                proof {
                    assert(!self.takes_within_capacity()) by {
                        if self.takes_within_capacity() {
                            assert(self.take_wf(self.takes@[i as int]));
                            assert(self.takes@[i as int].books@.len() >= 1);
                        }
                    }
                }
                return false;
            }
            let lib_su = self.libraries[li].signup_time;
            let lib_bpd = self.libraries[li].books_per_day;
            if clock + (lib_su as u64) > (self.duration as u64) {
                proof {
                    assert(!self.takes_within_capacity()) by {
                        if self.takes_within_capacity() {
                            assert(self.capacity_at(self.signup_sum(i as int), li as int) == 0);
                            assert(self.takes@[i as int].books@.len() >= 1);
                        }
                    }
                }
                return false;
            }
            let free = (self.duration as u64) - clock - (lib_su as u64);
            assert((free as int) * (lib_bpd as int) < 0x1_0000_0000_0000_0000) by (nonlinear_arith)
                requires
                    free < 0x1_0000_0000 && lib_bpd < 0x1_0000_0000,
            ;
            if (nbooks as u64) > free * (lib_bpd as u64) {
                proof {
                    assert(!self.takes_within_capacity()) by {
                        if self.takes_within_capacity() {
                            assert(self.capacity_at(self.signup_sum(i as int), li as int) == (
                            free as int) * (lib_bpd as int));
                            assert(self.takes@[i as int].books@.len() <= (free as int) * (
                            lib_bpd as int));
                        }
                    }
                }
                return false;
            }
            let ghost seen_books_pre = seen_books@;
            let mut k: usize = 0;
            while k < nbooks
                invariant
                    self.wf(),
                    k <= nbooks,
                    nbooks == t.books@.len(),
                    nb == self.book_scores@.len(),
                    seen_books@.len() == nb,
                    t == self.takes@[i as int],
                    i < self.takes@.len(),
                    forall|x: int|
                        0 <= x < nb && #[trigger] seen_books_pre[x] ==> exists|p: int, kk: int|
                            0 <= p < i && 0 <= kk < self.takes@[p].books@.len() && (
                            #[trigger] self.takes@[p].books@[kk]) as int == x,
                    forall|x: int| 0 <= x < nb && seen_books_pre[x] ==> seen_books@[x],
                    forall|x: int|
                        0 <= x < nb && #[trigger] seen_books@[x] && !seen_books_pre[x]
                            ==> exists|kk: int|
                            0 <= kk < k && (#[trigger] t.books@[kk]) as int == x,
                    forall|kk: int|
                        0 <= kk < k ==> !seen_books_pre[(#[trigger] t.books@[kk]) as int],
                    forall|kk: int|
                        0 <= kk < k ==> {
                            let b = #[trigger] t.books@[kk];
                            &&& (b as int) < nb as int
                            &&& seen_books@[b as int]
                            &&& !self.cur_books@[b as int]
                        },
                    forall|k1: int, k2: int|
                        0 <= k1 < k2 < k ==> (#[trigger] t.books@[k1]) != (
                        #[trigger] t.books@[k2]),
                decreases nbooks - k,
            {
                let b = t.books[k];
                if (b as usize) >= nb {
                    proof {
                        assert(!self.takes_within_capacity()) by {
                            if self.takes_within_capacity() {
                                assert(self.take_wf(self.takes@[i as int]));
                                assert((self.takes@[i as int].books@[k as int]) < nb as int);
                            }
                        }
                    }
                    return false;
                }
                if seen_books[b as usize] {
                    proof {
                        assert(!(self.no_double_use() && self.takes_within_capacity())) by {
                            if self.no_double_use() && self.takes_within_capacity() {
                                if seen_books_pre[b as int] {
                                    let (p, kk) = choose|p: int, kk: int|
                                        0 <= p < i && 0 <= kk < self.takes@[p].books@.len() && (
                                        #[trigger] self.takes@[p].books@[kk]) as int == b as int;
                                    assert(self.takes@[p].books@[kk]
                                        != self.takes@[i as int].books@[k as int]);
                                } else {
                                    let kk = choose|kk: int|
                                        0 <= kk < k && (#[trigger] t.books@[kk]) as int
                                            == b as int;
                                    assert(self.take_wf(self.takes@[i as int]));
                                    assert(self.takes@[i as int].books@.no_duplicates());
                                    assert(t.books@[kk] != t.books@[k as int]);
                                }
                            }
                        }
                    }
                    return false;
                }
                if self.cur_books[b as usize] {
                    proof {
                        assert(!self.no_double_use()) by {
                            if self.no_double_use() {
                                assert(!self.cur_books@[self.takes@[i as int].books@[k as int]
                                    as int]);
                            }
                        }
                    }
                    return false;
                }
                seen_books[b as usize] = true;
                k += 1;
            }
            proof {
                assert(t.books@.no_duplicates());
                assert forall|x: int| 0 <= x < nb && #[trigger] seen_books@[x] implies exists|
                    p: int,
                    kk: int,
                |
                    0 <= p < i + 1 && 0 <= kk < self.takes@[p].books@.len() && (
                    #[trigger] self.takes@[p].books@[kk]) as int == x by {
                    if !seen_books_pre[x] {
                        let kk = choose|kk: int|
                            0 <= kk < nbooks && (#[trigger] t.books@[kk]) as int == x;
                        assert((self.takes@[i as int].books@[kk]) as int == x);
                    }
                }
            }
            let t_score = t.score(self, clock as u32);
            proof {
                let gt = self.takes@[i as int];
                let cap = self.capacity_at(self.signup_sum(i as int), gt.library as int);
                let pn = if cap < gt.books@.len() {
                    cap
                } else {
                    gt.books@.len() as int
                };
                lemma_sum_scores_prefix_bounds(self.book_scores@, gt.books@, pn);
            }
            total = total + (t_score as u128);
            clock = clock + (lib_su as u64);
            i += 1;
        }
        if clock != (self.cur_time as u64) {
            proof {
                assert(!self.clock_consistent()) by {
                    if self.clock_consistent() {
                        assert(self.cur_time == self.signup_sum(n as int));
                    }
                }
            }
            return false;
        }
        // Count the books still available and bound the realized value.
        let mut cnt: u64 = 0;
        let mut bi: usize = 0;
        while bi < nb
            invariant
                bi <= nb,
                nb == self.cur_books@.len(),
                cnt == count_true(self.cur_books@.take(bi as int)),
                cnt <= bi,
            decreases nb - bi,
        {
            proof {
                assert(self.cur_books@.take(bi + 1).drop_last() =~= self.cur_books@.take(
                    bi as int,
                ));
            }
            if self.cur_books[bi] {
                cnt = cnt + 1;
            }
            bi += 1;
        }
        proof {
            assert(self.cur_books@.take(nb as int) =~= self.cur_books@);
        }
        if total + 0xFFFFu128 * (cnt as u128) > 0xFFFFu128 * (nb as u128) {
            proof {
                assert(!self.score_bounded()) by {
                    if self.score_bounded() {
                        assert(self.spec_score() + 0xFFFF * count_true(self.cur_books@) <= 0xFFFF
                            * self.book_count());
                    }
                }
            }
            return false;
        }
        proof {
            assert(self.takes_within_capacity());
            assert(self.clock_consistent());
            assert(self.no_double_use());
            assert(self.score_bounded());
        }
        true
    }
}

} // verus!
