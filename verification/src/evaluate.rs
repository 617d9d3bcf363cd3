use vstd::prelude::*;

use crate::model::{lemma_sum_scores_prefix_agree, sum_scores_prefix, Take, TaskState};

verus! {

/// One selection entry: a book's score paired with its id.
pub open spec fn entry_ok(st: TaskState, l: int, e: (u16, u32), upto: int) -> bool {
    &&& (e.1 as int) < upto
    &&& st.eligible(l, e.1 as int)
    &&& e.0 == st.book_scores@[e.1 as int]
}

/// Every entry is an eligible book below `upto` carrying its own score.
pub open spec fn entries_ok(st: TaskState, l: int, s: Seq<(u16, u32)>, upto: int) -> bool {
    forall|k: int| 0 <= k < s.len() ==> entry_ok(st, l, #[trigger] s[k], upto)
}

/// Entries are sorted ascending by score, so the minimum sits at the front.
pub open spec fn sorted_by_score(s: Seq<(u16, u32)>) -> bool {
    forall|i: int, j: int| 0 <= i <= j < s.len() ==> (#[trigger] s[i]).0 <= (#[trigger] s[j]).0
}

/// No book id occurs twice among the entries.
pub open spec fn ids_distinct(s: Seq<(u16, u32)>) -> bool {
    forall|i: int, j: int| 0 <= i < j < s.len() ==> (#[trigger] s[i]).1 != (#[trigger] s[j]).1
}

/// Book `b` occurs among the entries.
pub open spec fn sel_contains_book(s: Seq<(u16, u32)>, b: u32) -> bool {
    exists|k: int| 0 <= k < s.len() && (#[trigger] s[k]).1 == b
}

impl TaskState {
    /// What the candidate evaluator returns for library `l`: an empty take
    /// when the library cannot scan anything in the time left; otherwise a
    /// duplicate-free selection of eligible books, as many as capacity and
    /// eligibility admit, each scoring at least as much as every eligible
    /// book left out, together with the selection's exact total value.
    pub open spec fn is_candidate(self, l: int, t: Take, v: u64) -> bool {
        let cap = self.capacity_at(self.cur_time as int, l);
        let elig = self.eligible_count(l, self.book_count());
        &&& t.library == l
        &&& self.take_wf(t)
        &&& forall|k: int|
            0 <= k < t.books@.len() ==> self.eligible(l, (#[trigger] t.books@[k]) as int)
        &&& v == sum_scores_prefix(self.book_scores@, t.books@, t.books@.len() as int)
        &&& if cap <= 0 {
            t.books@.len() == 0
        } else {
            &&& t.books@.len() == if cap <= elig {
                cap
            } else {
                elig
            }
            &&& forall|k: int, b: int|
                #![trigger t.books@[k], self.eligible(l, b)]
                0 <= k < t.books@.len() && 0 <= b < self.book_count() && self.eligible(l, b)
                    && !t.books@.contains(b as u32) ==> self.book_scores@[b]
                    <= self.book_scores@[t.books@[k] as int]
        }
    }
}

/// There are never more eligible books than books.
pub proof fn lemma_eligible_count_bounds(st: TaskState, l: int, upto: int)
    requires
        upto >= 0,
    ensures
        0 <= st.eligible_count(l, upto) <= upto,
    decreases upto,
{
    if upto > 0 {
        lemma_eligible_count_bounds(st, l, upto - 1);
    }
}

/// First index at which an entry scores more than `score`, in a selection
/// sorted by score.
fn insert_pos(sel: &Vec<(u16, u32)>, score: u16) -> (j: usize)
    requires
        sorted_by_score(sel@),
    ensures
        j <= sel@.len(),
        forall|k: int| 0 <= k < j ==> (#[trigger] sel@[k]).0 <= score,
        j < sel@.len() ==> sel@[j as int].0 > score,
{
    let mut j: usize = 0;
    while j < sel.len() && sel[j].0 <= score
        invariant
            j <= sel@.len(),
            sorted_by_score(sel@),
            forall|k: int| 0 <= k < j ==> (#[trigger] sel@[k]).0 <= score,
        decreases sel@.len() - j,
    {
        j += 1;
    }
    j
}

/// Insert `e` into a selection sorted by score, keeping it sorted.
#[verifier::rlimit(50)]
fn insert_sorted(sel: &mut Vec<(u16, u32)>, e: (u16, u32))
    requires
        sorted_by_score(old(sel)@),
    ensures
        final(sel)@.len() == old(sel)@.len() + 1,
        sorted_by_score(final(sel)@),
        forall|k: int|
            0 <= k < final(sel)@.len() ==> (#[trigger] final(sel)@[k]) == e || old(sel)@.contains(
                final(sel)@[k],
            ),
        forall|b: u32|
            sel_contains_book(final(sel)@, b) <==> (sel_contains_book(old(sel)@, b) || b == e.1),
        ids_distinct(old(sel)@) && !sel_contains_book(old(sel)@, e.1) ==> ids_distinct(
            final(sel)@,
        ),
        final(sel)@[0].0 == if old(sel)@.len() == 0 {
            e.0
        } else if e.0 < old(sel)@[0].0 {
            e.0
        } else {
            old(sel)@[0].0
        },
{
    let j = insert_pos(sel, e.0);
    let ghost s_old = sel@;
    sel.insert(j, e);
    proof {
        s_old.insert_ensures(j as int, e);
        let s_new = sel@;
        let ji = j as int;
        assert forall|a: int, b: int| 0 <= a <= b < s_new.len() implies (#[trigger] s_new[a]).0 <= (
        #[trigger] s_new[b]).0 by {
            if a < ji {
                assert(s_new[a] == s_old[a]);
            }
            if b < ji {
                assert(s_new[b] == s_old[b]);
            }
            if a > ji {
                assert(s_new[a] == s_old[a - 1]);
            }
            if b > ji {
                assert(s_new[b] == s_old[b - 1]);
            }
        }
        assert forall|k: int| 0 <= k < s_new.len() implies (#[trigger] s_new[k]) == e
            || s_old.contains(s_new[k]) by {
            if k < ji {
                assert(s_new[k] == s_old[k]);
            } else if k > ji {
                assert(s_new[k] == s_old[k - 1]);
            }
        }
        assert forall|b: u32| sel_contains_book(s_new, b) <==> (sel_contains_book(s_old, b) || b
            == e.1) by {
            if sel_contains_book(s_old, b) {
                let k = choose|k: int| 0 <= k < s_old.len() && (#[trigger] s_old[k]).1 == b;
                if k < ji {
                    assert(s_new[k].1 == b);
                } else {
                    assert(s_new[k + 1].1 == b);
                }
            }
            if b == e.1 {
                assert(s_new[ji].1 == b);
            }
        }
        if ids_distinct(s_old) && !sel_contains_book(s_old, e.1) {
            assert forall|a: int, b: int| 0 <= a < b < s_new.len() implies (#[trigger] s_new[a]).1
                != (#[trigger] s_new[b]).1 by {
                if a != ji && b != ji {
                    let a0 = if a < ji {
                        a
                    } else {
                        a - 1
                    };
                    let b0 = if b < ji {
                        b
                    } else {
                        b - 1
                    };
                    assert(s_new[a] == s_old[a0] && s_new[b] == s_old[b0]);
                } else if a == ji {
                    assert(s_new[b] == s_old[b - 1]);
                    assert(!(s_old[b - 1].1 == e.1)) by {
                        if s_old[b - 1].1 == e.1 {
                            assert(sel_contains_book(s_old, e.1));
                        }
                    }
                } else {
                    let a0 = if a < ji {
                        a
                    } else {
                        a - 1
                    };
                    assert(s_new[a] == s_old[a0]);
                    assert(!(s_old[a0].1 == e.1)) by {
                        if s_old[a0].1 == e.1 {
                            assert(sel_contains_book(s_old, e.1));
                        }
                    }
                }
            }
        }
        if ji == 0 {
            assert(s_new[0] == e);
        } else {
            assert(s_new[0] == s_old[0]);
            assert(s_old[0].0 <= e.0);
        }
    }
}

impl TaskState {
    /// Candidate evaluator: the best take `library` could commit right now,
    /// with the take's total value. Reads the snapshot only; the bounded
    /// selection keeps at most `capacity` books, evicting the weakest.
    #[verifier::rlimit(80)]
    pub fn step_compute_library_score(&self, library: u32) -> (r: (Take, u64))
        requires
            self.wf(),
            self.cur_time <= self.duration,
            (library as int) < self.lib_count(),
        ensures
            self.is_candidate(library as int, r.0, r.1),
    {
        let ghost gl = library as int;
        let l = library as usize;
        let remaining = self.duration - self.cur_time;
        let signup = self.libraries[l].signup_time;
        if signup > remaining {
            return (Take { library, books: Vec::new() }, 0);
        }
        let left_time = remaining - signup;
        let bpd = self.libraries[l].books_per_day;
        assert((left_time as int) * (bpd as int) < 0x1_0000_0000_0000_0000) by (nonlinear_arith)
            requires
                left_time < 0x1_0000_0000 && bpd < 0x1_0000_0000,
        ;
        let cap: u64 = (left_time as u64) * (bpd as u64);
        let ghost gcap = cap as int;
        assert(gcap == self.capacity_at(self.cur_time as int, gl));
        if cap == 0 {
            return (Take { library, books: Vec::new() }, 0);
        }
        let mut sel: Vec<(u16, u32)> = Vec::new();
        let nbooks = self.book_scores.len();
        let mut i: usize = 0;
        while i < nbooks
            invariant
                self.wf(),
                self.cur_time <= self.duration,
                0 <= gl < self.lib_count(),
                l as int == gl,
                i <= nbooks,
                nbooks == self.book_scores@.len(),
                0 < gcap == cap,
                gcap == self.capacity_at(self.cur_time as int, gl),
                sorted_by_score(sel@),
                entries_ok(*self, gl, sel@, i as int),
                ids_distinct(sel@),
                sel@.len() == if gcap <= self.eligible_count(gl, i as int) {
                    gcap
                } else {
                    self.eligible_count(gl, i as int)
                },
                sel@.len() < gcap ==> forall|b: int|
                    0 <= b < i && #[trigger] self.eligible(gl, b) ==> sel_contains_book(
                        sel@,
                        b as u32,
                    ),
                forall|b: int|
                    0 <= b < i && #[trigger] self.eligible(gl, b) && !sel_contains_book(
                        sel@,
                        b as u32,
                    ) ==> sel@.len() == gcap && self.book_scores@[b] <= sel@[0].0,
            decreases nbooks - i,
        {
            let ghost ec_pre = self.eligible_count(gl, i as int);
            assert(self.eligible_count(gl, i + 1) == ec_pre + if self.eligible(gl, i as int) {
                1int
            } else {
                0int
            });
            if self.libraries[l].books[i] && self.cur_books[i] {
                assert(self.eligible(gl, i as int));
                assert(i < 0x1_0000_0000);
                let score = self.book_scores[i];
                let e = (score, i as u32);
                proof {
                    if sel_contains_book(sel@, e.1) {
                        let k = choose|k: int| 0 <= k < sel@.len() && (#[trigger] sel@[k]).1 == e.1;
                        assert(entry_ok(*self, gl, sel@[k], i as int));
                        assert(false);
                    }
                }
                if (sel.len() as u64) < cap {
                    let ghost s_pre = sel@;
                    insert_sorted(&mut sel, e);
                    proof {
                        assert forall|k: int| 0 <= k < sel@.len() implies entry_ok(
                            *self,
                            gl,
                            #[trigger] sel@[k],
                            i + 1,
                        ) by {
                            if sel@[k] != e {
                                let m = choose|m: int|
                                    0 <= m < s_pre.len() && s_pre[m] == sel@[k];
                                assert(entry_ok(*self, gl, s_pre[m], i as int));
                            }
                        }
                    }
                } else if score > sel[0].0 {
                    let ghost s_pre = sel@;
                    let evicted = sel.remove(0);
                    let ghost s_mid = sel@;
                    proof {
                        s_pre.remove_ensures(0);
                        assert(forall|k: int|
                            0 <= k < s_mid.len() ==> #[trigger] s_mid[k] == s_pre[k + 1]);
                        if sel_contains_book(s_mid, e.1) {
                            let k = choose|k: int|
                                0 <= k < s_mid.len() && (#[trigger] s_mid[k]).1 == e.1;
                            assert(entry_ok(*self, gl, s_mid[k], i as int));
                            assert(false);
                        }
                    }
                    insert_sorted(&mut sel, e);
                    proof {
                        assert forall|k: int| 0 <= k < sel@.len() implies entry_ok(
                            *self,
                            gl,
                            #[trigger] sel@[k],
                            i + 1,
                        ) by {
                            if sel@[k] != e {
                                let m = choose|m: int|
                                    0 <= m < s_mid.len() && s_mid[m] == sel@[k];
                                assert(entry_ok(*self, gl, s_mid[m], i as int));
                            }
                        }
                        // The evicted entry and everything already rejected
                        // score no more than the new front entry.
                        assert(evicted == s_pre[0]);
                        if s_mid.len() > 0 {
                            assert(s_mid[0] == s_pre[1]);
                            assert(s_pre[0].0 <= s_pre[1].0);
                        }
                        assert(s_pre[0].0 <= sel@[0].0);
                        assert forall|b: int|
                            0 <= b < i + 1 && #[trigger] self.eligible(gl, b)
                                && !sel_contains_book(sel@, b as u32) implies sel@.len() == gcap
                            && self.book_scores@[b] <= sel@[0].0 by {
                            if b < i {
                                if sel_contains_book(s_pre, b as u32) {
                                    let k = choose|k: int|
                                        0 <= k < s_pre.len() && (#[trigger] s_pre[k]).1
                                            == b as u32;
                                    if k == 0 {
                                        assert(entry_ok(*self, gl, s_pre[0], i as int));
                                        assert(self.book_scores@[b] == s_pre[0].0);
                                    } else {
                                        assert(s_mid[k - 1].1 == b as u32);
                                        assert(sel_contains_book(sel@, b as u32));
                                    }
                                }
                            }
                        }
                    }
                } else {
                    proof {
                        assert(sel@.len() == gcap);
                        assert(self.book_scores@[i as int] <= sel@[0].0);
                    }
                }
            } else {
                assert(!self.eligible(gl, i as int));
            }
            i += 1;
        }
        // Emit the selection as a take, summing its value.
        proof {
            lemma_eligible_count_bounds(*self, gl, nbooks as int);
        }
        let mut books: Vec<u32> = Vec::new();
        let mut value: u64 = 0;
        let mut k: usize = 0;
        while k < sel.len()
            invariant
                k <= sel@.len(),
                sel@.len() <= 0x1_0000_0000,
                entries_ok(*self, gl, sel@, nbooks as int),
                nbooks == self.book_scores@.len(),
                books@.len() == k,
                forall|m: int| 0 <= m < k ==> (#[trigger] books@[m]) == sel@[m].1,
                value == sum_scores_prefix(self.book_scores@, books@, k as int),
                value <= 0xFFFF * k,
            decreases sel@.len() - k,
        {
            let e = sel[k];
            let ghost books_pre = books@;
            books.push(e.1);
            proof {
                lemma_sum_scores_prefix_agree(self.book_scores@, books_pre, books@, k as int);
                assert(entry_ok(*self, gl, e, nbooks as int));
            }
            value = value + (e.0 as u64);
            k += 1;
        }
        let t = Take { library, books };
        proof {
            let bs = t.books@;
            assert forall|a: int, b: int| 0 <= a < b < bs.len() implies bs[a] != bs[b] by {
                assert(bs[a] == sel@[a].1 && bs[b] == sel@[b].1);
            }
            assert(bs.no_duplicates());
            assert forall|b: u32| bs.contains(b) == sel_contains_book(sel@, b) by {
                if bs.contains(b) {
                    let m = choose|m: int| 0 <= m < bs.len() && bs[m] == b;
                    assert(sel@[m].1 == b);
                }
                if sel_contains_book(sel@, b) {
                    let m = choose|m: int| 0 <= m < sel@.len() && (#[trigger] sel@[m]).1 == b;
                    assert(bs[m] == b);
                }
            }
            assert forall|k2: int, b: int|
                #![trigger t.books@[k2], self.eligible(gl, b)]
                0 <= k2 < t.books@.len() && 0 <= b < self.book_count() && self.eligible(gl, b)
                    && !t.books@.contains(b as u32) implies self.book_scores@[b]
                <= self.book_scores@[t.books@[k2] as int] by {
                assert(b < 0x1_0000_0000);
                assert(!sel_contains_book(sel@, b as u32));
                assert(self.book_scores@[b] <= sel@[0].0);
                assert(sel@[0].0 <= sel@[k2].0);
                assert(entry_ok(*self, gl, sel@[k2], nbooks as int));
            }
        }
        (t, value)
    }
}

} // verus!
