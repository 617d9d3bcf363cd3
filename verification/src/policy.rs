use vstd::prelude::*;

use crate::model::{density_key, density_le, Strategy, Take, TaskState};

verus! {

/// Candidate of library `l1` with value `v1` ranks no higher than candidate
/// of library `l2` with value `v2`: densities compared as exact rationals
/// `value / signup_time`.
pub open spec fn cand_density_le(s: TaskState, v1: u64, l1: int, v2: u64, l2: int) -> bool {
    density_le(
        v1 as int,
        s.libraries@[l1].signup_time as int,
        v2 as int,
        s.libraries@[l2].signup_time as int,
    )
}

/// The greedy rule accepts `(t, v)`: it is the candidate of an available
/// library, and no available library's candidate ranks higher.
pub open spec fn greedy_pick_ok(s: TaskState, t: Take, v: u64) -> bool {
    &&& s.lib_available(t.library as int)
    &&& s.is_candidate(t.library as int, t, v)
    &&& forall|l2: int|
        0 <= l2 < s.lib_count() && #[trigger] s.lib_available(l2) ==> exists|t2: Take, v2: u64|
            #[trigger] s.is_candidate(l2, t2, v2) && cand_density_le(s, v2, l2, v, t.library as int)
}

/// The lookahead rule accepts `(t, v)`: there is a top-ranked candidate
/// `best`; if no other library is available, `(t, v)` is `best`, otherwise
/// there is a runner-up ranked above every remaining library, and `(t, v)`
/// is the runner-up exactly when committing `best` first would leave the
/// runner-up less free time than `best` leaves behind.
pub open spec fn lookahead_pick_ok(s: TaskState, t: Take, v: u64) -> bool {
    &&& s.lib_available(t.library as int)
    &&& s.is_candidate(t.library as int, t, v)
    &&& exists|tb: Take, vb: u64|
        {
            &&& #[trigger] greedy_pick_ok(s, tb, vb)
            &&& if exists|l2: int|
                0 <= l2 < s.lib_count() && l2 != tb.library as int && #[trigger] s.lib_available(
                    l2,
                ) {
                exists|ts: Take, vs: u64|
                    {
                        &&& ts.library != tb.library
                        &&& s.lib_available(ts.library as int)
                        &&& #[trigger] s.is_candidate(ts.library as int, ts, vs)
                        &&& forall|l2: int|
                            0 <= l2 < s.lib_count() && l2 != tb.library as int
                                && #[trigger] s.lib_available(l2) ==> exists|t2: Take, v2: u64|
                                #[trigger] s.is_candidate(l2, t2, v2) && cand_density_le(
                                    s,
                                    v2,
                                    l2,
                                    vs,
                                    ts.library as int,
                                )
                        &&& (t, v) == if s.spec_take_free_time(ts) < s.spec_take_rem_time(tb) {
                            (ts, vs)
                        } else {
                            (tb, vb)
                        }
                    }
            } else {
                (t, v) == (tb, vb)
            }
        }
}

/// What the selection policy promises of a returned take under each
/// strategy.
pub open spec fn pick_ok(s: TaskState, t: Take, v: u64, strategy: Strategy) -> bool {
    match strategy {
        Strategy::Greedy => greedy_pick_ok(s, t, v),
        Strategy::Lookahead => lookahead_pick_ok(s, t, v),
    }
}

/// Density comparison is transitive over non-negative values and costs.
pub proof fn lemma_density_le_trans(v1: int, c1: int, v2: int, c2: int, v3: int, c3: int)
    requires
        v1 >= 0 && c1 >= 0 && v2 >= 0 && c2 >= 0 && v3 >= 0 && c3 >= 0,
        density_le(v1, c1, v2, c2),
        density_le(v2, c2, v3, c3),
    ensures
        density_le(v1, c1, v3, c3),
{
    let a1 = density_key(v1, c1).0;
    let b1 = density_key(v1, c1).1;
    let a2 = density_key(v2, c2).0;
    let b2 = density_key(v2, c2).1;
    let a3 = density_key(v3, c3).0;
    let b3 = density_key(v3, c3).1;
    if b2 == 0 {
        assert(a2 == 1);
        assert(a3 * b2 == 0) by (nonlinear_arith)
            requires
                b2 == 0,
        ;
        assert(b3 == 0);
        assert(a3 == 1);
        assert(a1 * b3 == 0) by (nonlinear_arith)
            requires
                b3 == 0,
        ;
    } else {
        assert(a1 * b2 * b3 <= a2 * b1 * b3) by (nonlinear_arith)
            requires
                a1 * b2 <= a2 * b1,
                b3 >= 0,
        ;
        assert(a2 * b1 * b3 <= a3 * b1 * b2) by (nonlinear_arith)
            requires
                a2 * b3 <= a3 * b2,
                b1 >= 0,
        ;
        assert(a1 * b3 <= a3 * b1) by (nonlinear_arith)
            requires
                a1 * b2 * b3 <= a3 * b1 * b2,
                b2 > 0,
        ;
    }
}

/// Exact comparison `v1 / c1 <= v2 / c2` of two candidate densities.
pub fn density_at_most(v1: u64, c1: u32, v2: u64, c2: u32) -> (r: bool)
    ensures
        r == density_le(v1 as int, c1 as int, v2 as int, c2 as int),
{
    let a1: u128 = if c1 > 0 {
        v1 as u128
    } else if v1 > 0 {
        1
    } else {
        0
    };
    let b1: u128 = if c1 > 0 {
        c1 as u128
    } else if v1 > 0 {
        0
    } else {
        1
    };
    let a2: u128 = if c2 > 0 {
        v2 as u128
    } else if v2 > 0 {
        1
    } else {
        0
    };
    let b2: u128 = if c2 > 0 {
        c2 as u128
    } else if v2 > 0 {
        0
    } else {
        1
    };
    assert((a1 as int) * (b2 as int) <= 0xFFFF_FFFF_FFFF_FFFF * 0x1_0000_0000) by (nonlinear_arith)
        requires
            0 <= a1 <= 0xFFFF_FFFF_FFFF_FFFF,
            0 <= b2 <= 0xFFFF_FFFF,
    ;
    assert((a2 as int) * (b1 as int) <= 0xFFFF_FFFF_FFFF_FFFF * 0x1_0000_0000) by (nonlinear_arith)
        requires
            0 <= a2 <= 0xFFFF_FFFF_FFFF_FFFF,
            0 <= b1 <= 0xFFFF_FFFF,
    ;
    a1 * b2 <= a2 * b1
}

impl TaskState {
    /// Time not yet spent.
    pub fn remaining_time(&self) -> (r: u32)
        requires
            self.cur_time <= self.duration,
        ensures
            r == self.duration - self.cur_time,
    {
        self.duration - self.cur_time
    }

    /// Time left after signing up the take's library, saturated at zero.
    pub open spec fn spec_take_free_time(self, t: Take) -> int {
        let signup = self.libraries@[t.library as int].signup_time as int;
        if self.duration - self.cur_time >= signup {
            self.duration - self.cur_time - signup
        } else {
            0
        }
    }

    /// Time left after the take's signup and its scanning period, saturated
    /// at zero. A library without throughput scans nothing, so its scanning
    /// period is empty.
    pub open spec fn spec_take_rem_time(self, t: Take) -> int {
        let lib = self.libraries@[t.library as int];
        let harvest = if lib.books_per_day == 0 {
            0int
        } else {
            t.books@.len() as int / lib.books_per_day as int
        };
        let free = self.spec_take_free_time(t);
        if free >= harvest {
            free - harvest
        } else {
            0
        }
    }

    /// Greedy selection: the candidate of maximal density among the
    /// available libraries; among equals the later library wins. `None`
    /// exactly when no library is available.
    fn select_greedy(&self) -> (r: Option<(Take, u64)>)
        requires
            self.wf(),
            self.cur_time <= self.duration,
        ensures
            (match r {
                None => forall|l2: int| 0 <= l2 < self.lib_count() ==> !self.lib_available(l2),
                Some(p) => greedy_pick_ok(*self, p.0, p.1),
            }),
    {
        let mut have = false;
        let mut best_t = Take { library: 0, books: Vec::new() };
        let mut best_v: u64 = 0;
        let mut best_c: u32 = 0;
        let nlibs = self.cur_libraries.len();
        let mut li: usize = 0;
        while li < nlibs
            invariant
                self.wf(),
                self.cur_time <= self.duration,
                li <= nlibs,
                nlibs == self.cur_libraries@.len(),
                !have ==> forall|l2: int| 0 <= l2 < li ==> !self.lib_available(l2),
                have ==> {
                    &&& (best_t.library as int) < li
                    &&& self.lib_available(best_t.library as int)
                    &&& self.is_candidate(best_t.library as int, best_t, best_v)
                    &&& best_c == self.libraries@[best_t.library as int].signup_time
                    &&& forall|l2: int|
                        0 <= l2 < li && #[trigger] self.lib_available(l2) ==> exists|
                            t2: Take,
                            v2: u64,
                        |
                            #[trigger] self.is_candidate(l2, t2, v2) && cand_density_le(
                                *self,
                                v2,
                                l2,
                                best_v,
                                best_t.library as int,
                            )
                },
            decreases nlibs - li,
        {
            if self.cur_libraries[li] {
                assert(li < 0x1_0000_0000);
                let (t, v) = self.step_compute_library_score(li as u32);
                let c = self.libraries[li].signup_time;
                let ghost old_have = have;
                let ghost old_best_t = best_t;
                let ghost old_best_v = best_v;
                let ghost old_best_c = best_c;
                let adopt = if have {
                    density_at_most(best_v, best_c, v, c)
                } else {
                    true
                };
                if adopt {
                    best_t = t;
                    best_v = v;
                    best_c = c;
                    have = true;
                } else {
                    assert(density_le(
                        v as int,
                        c as int,
                        best_v as int,
                        best_c as int,
                    ));
                }
                proof {
                    let gli = li as int;
                    if adopt {
                        assert forall|l2: int|
                            0 <= l2 < gli + 1 && #[trigger] self.lib_available(l2) implies exists|
                            t2: Take,
                            v2: u64,
                        |
                            #[trigger] self.is_candidate(l2, t2, v2) && cand_density_le(
                                *self,
                                v2,
                                l2,
                                best_v,
                                best_t.library as int,
                            ) by {
                            if l2 == gli {
                                assert(self.is_candidate(l2, t, v) && cand_density_le(
                                    *self,
                                    v,
                                    l2,
                                    best_v,
                                    best_t.library as int,
                                ));
                            } else {
                                assert(old_have);
                                let (t2, v2) = choose|t2: Take, v2: u64|
                                    #[trigger] self.is_candidate(l2, t2, v2) && cand_density_le(
                                        *self,
                                        v2,
                                        l2,
                                        old_best_v,
                                        old_best_t.library as int,
                                    );
                                lemma_density_le_trans(
                                    v2 as int,
                                    self.libraries@[l2].signup_time as int,
                                    old_best_v as int,
                                    old_best_c as int,
                                    v as int,
                                    c as int,
                                );
                                assert(self.is_candidate(l2, t2, v2) && cand_density_le(
                                    *self,
                                    v2,
                                    l2,
                                    best_v,
                                    best_t.library as int,
                                ));
                            }
                        }
                    } else {
                        assert forall|l2: int|
                            0 <= l2 < gli + 1 && #[trigger] self.lib_available(l2) implies exists|
                            t2: Take,
                            v2: u64,
                        |
                            #[trigger] self.is_candidate(l2, t2, v2) && cand_density_le(
                                *self,
                                v2,
                                l2,
                                best_v,
                                best_t.library as int,
                            ) by {
                            if l2 == gli {
                                assert(self.is_candidate(l2, t, v) && cand_density_le(
                                    *self,
                                    v,
                                    l2,
                                    best_v,
                                    best_t.library as int,
                                ));
                            }
                        }
                    }
                }
            }
            li += 1;
        }
        if have {
            Some((best_t, best_v))
        } else {
            None
        }
    }

    /// Lookahead selection: find the best candidate and the best among the
    /// remaining libraries; commit the runner-up instead of the best when
    /// the best's scanning period would leave the runner-up less free time
    /// than the best itself keeps. `None` exactly when no library is
    /// available.
    #[verifier::rlimit(80)]
    fn select_lookahead(&self) -> (r: Option<(Take, u64)>)
        requires
            self.wf(),
            self.cur_time <= self.duration,
        ensures
            (match r {
                None => forall|l2: int| 0 <= l2 < self.lib_count() ==> !self.lib_available(l2),
                Some(p) => lookahead_pick_ok(*self, p.0, p.1),
            }),
    {
        let mut have = false;
        let mut best_t = Take { library: 0, books: Vec::new() };
        let mut best_v: u64 = 0;
        let mut best_c: u32 = 0;
        let mut have2 = false;
        let mut sec_t = Take { library: 0, books: Vec::new() };
        let mut sec_v: u64 = 0;
        let mut sec_c: u32 = 0;
        let nlibs = self.cur_libraries.len();
        let mut li: usize = 0;
        while li < nlibs
            invariant
                self.wf(),
                self.cur_time <= self.duration,
                li <= nlibs,
                nlibs == self.cur_libraries@.len(),
                !have ==> !have2,
                !have ==> forall|l2: int| 0 <= l2 < li ==> !self.lib_available(l2),
                have ==> {
                    &&& (best_t.library as int) < li
                    &&& self.lib_available(best_t.library as int)
                    &&& self.is_candidate(best_t.library as int, best_t, best_v)
                    &&& best_c == self.libraries@[best_t.library as int].signup_time
                    &&& forall|l2: int|
                        0 <= l2 < li && #[trigger] self.lib_available(l2) ==> exists|
                            t2: Take,
                            v2: u64,
                        |
                            #[trigger] self.is_candidate(l2, t2, v2) && cand_density_le(
                                *self,
                                v2,
                                l2,
                                best_v,
                                best_t.library as int,
                            )
                },
                have && !have2 ==> forall|l2: int|
                    0 <= l2 < li && #[trigger] self.lib_available(l2) ==> l2
                        == best_t.library as int,
                have2 ==> {
                    &&& have
                    &&& (sec_t.library as int) < li
                    &&& sec_t.library != best_t.library
                    &&& self.lib_available(sec_t.library as int)
                    &&& self.is_candidate(sec_t.library as int, sec_t, sec_v)
                    &&& sec_c == self.libraries@[sec_t.library as int].signup_time
                    &&& forall|l2: int|
                        0 <= l2 < li && l2 != best_t.library as int && #[trigger] self.lib_available(
                            l2,
                        ) ==> exists|t2: Take, v2: u64|
                            #[trigger] self.is_candidate(l2, t2, v2) && cand_density_le(
                                *self,
                                v2,
                                l2,
                                sec_v,
                                sec_t.library as int,
                            )
                },
            decreases nlibs - li,
        {
            if self.cur_libraries[li] {
                assert(li < 0x1_0000_0000);
                let (t, v) = self.step_compute_library_score(li as u32);
                let c = self.libraries[li].signup_time;
                let ghost old_have = have;
                let ghost old_have2 = have2;
                let ghost old_best_t = best_t;
                let ghost old_best_v = best_v;
                let ghost old_best_c = best_c;
                let ghost old_sec_t = sec_t;
                let ghost old_sec_v = sec_v;
                let ghost old_sec_c = sec_c;
                let ghost gli = li as int;
                if !have {
                    best_t = t;
                    best_v = v;
                    best_c = c;
                    have = true;
                } else if density_at_most(best_v, best_c, v, c) {
                    // The new candidate takes the lead; the old leader
                    // becomes the runner-up.
                    sec_t = best_t;
                    sec_v = best_v;
                    sec_c = best_c;
                    have2 = true;
                    best_t = t;
                    best_v = v;
                    best_c = c;
                    proof {
                        assert forall|l2: int|
                            0 <= l2 < gli + 1 && #[trigger] self.lib_available(l2) implies exists|
                            t2: Take,
                            v2: u64,
                        |
                            #[trigger] self.is_candidate(l2, t2, v2) && cand_density_le(
                                *self,
                                v2,
                                l2,
                                best_v,
                                best_t.library as int,
                            ) by {
                            if l2 == gli {
                                assert(self.is_candidate(l2, t, v) && cand_density_le(
                                    *self,
                                    v,
                                    l2,
                                    best_v,
                                    best_t.library as int,
                                ));
                            } else {
                                let (t2, v2) = choose|t2: Take, v2: u64|
                                    #[trigger] self.is_candidate(l2, t2, v2) && cand_density_le(
                                        *self,
                                        v2,
                                        l2,
                                        old_best_v,
                                        old_best_t.library as int,
                                    );
                                lemma_density_le_trans(
                                    v2 as int,
                                    self.libraries@[l2].signup_time as int,
                                    old_best_v as int,
                                    old_best_c as int,
                                    v as int,
                                    c as int,
                                );
                                assert(self.is_candidate(l2, t2, v2) && cand_density_le(
                                    *self,
                                    v2,
                                    l2,
                                    best_v,
                                    best_t.library as int,
                                ));
                            }
                        }
                        assert forall|l2: int|
                            0 <= l2 < gli + 1 && l2 != best_t.library as int
                                && #[trigger] self.lib_available(l2) implies exists|
                            t2: Take,
                            v2: u64,
                        |
                            #[trigger] self.is_candidate(l2, t2, v2) && cand_density_le(
                                *self,
                                v2,
                                l2,
                                sec_v,
                                sec_t.library as int,
                            ) by {
                            assert(l2 < gli);
                            assert(self.is_candidate(sec_t.library as int, sec_t, sec_v));
                        }
                    }
                } else {
                    assert(density_le(v as int, c as int, best_v as int, best_c as int));
                    if !have2 {
                        sec_t = t;
                        sec_v = v;
                        sec_c = c;
                        have2 = true;
                        proof {
                            assert forall|l2: int|
                                0 <= l2 < gli + 1 && l2 != best_t.library as int
                                    && #[trigger] self.lib_available(l2) implies exists|
                                t2: Take,
                                v2: u64,
                            |
                                #[trigger] self.is_candidate(l2, t2, v2) && cand_density_le(
                                    *self,
                                    v2,
                                    l2,
                                    sec_v,
                                    sec_t.library as int,
                                ) by {
                                assert(l2 == gli);
                                assert(self.is_candidate(l2, t, v) && cand_density_le(
                                    *self,
                                    v,
                                    l2,
                                    sec_v,
                                    sec_t.library as int,
                                ));
                            }
                        }
                    } else if density_at_most(sec_v, sec_c, v, c) {
                        sec_t = t;
                        sec_v = v;
                        sec_c = c;
                        proof {
                            assert forall|l2: int|
                                0 <= l2 < gli + 1 && l2 != best_t.library as int
                                    && #[trigger] self.lib_available(l2) implies exists|
                                t2: Take,
                                v2: u64,
                            |
                                #[trigger] self.is_candidate(l2, t2, v2) && cand_density_le(
                                    *self,
                                    v2,
                                    l2,
                                    sec_v,
                                    sec_t.library as int,
                                ) by {
                                if l2 == gli {
                                    assert(self.is_candidate(l2, t, v) && cand_density_le(
                                        *self,
                                        v,
                                        l2,
                                        sec_v,
                                        sec_t.library as int,
                                    ));
                                } else {
                                    let (t2, v2) = choose|t2: Take, v2: u64|
                                        #[trigger] self.is_candidate(l2, t2, v2)
                                            && cand_density_le(
                                            *self,
                                            v2,
                                            l2,
                                            old_sec_v,
                                            old_sec_t.library as int,
                                        );
                                    lemma_density_le_trans(
                                        v2 as int,
                                        self.libraries@[l2].signup_time as int,
                                        old_sec_v as int,
                                        old_sec_c as int,
                                        v as int,
                                        c as int,
                                    );
                                    assert(self.is_candidate(l2, t2, v2) && cand_density_le(
                                        *self,
                                        v2,
                                        l2,
                                        sec_v,
                                        sec_t.library as int,
                                    ));
                                }
                            }
                        }
                    } else {
                        assert(density_le(v as int, c as int, sec_v as int, sec_c as int));
                        proof {
                            assert forall|l2: int|
                                0 <= l2 < gli + 1 && l2 != best_t.library as int
                                    && #[trigger] self.lib_available(l2) implies exists|
                                t2: Take,
                                v2: u64,
                            |
                                #[trigger] self.is_candidate(l2, t2, v2) && cand_density_le(
                                    *self,
                                    v2,
                                    l2,
                                    sec_v,
                                    sec_t.library as int,
                                ) by {
                                if l2 == gli {
                                    assert(self.is_candidate(l2, t, v) && cand_density_le(
                                        *self,
                                        v,
                                        l2,
                                        sec_v,
                                        sec_t.library as int,
                                    ));
                                }
                            }
                        }
                    }
                }
            }
            li += 1;
        }
        if !have {
            return None;
        }
        proof {
            assert(greedy_pick_ok(*self, best_t, best_v));
        }
        if !have2 {
            proof {
                let tb = best_t;
                let vb = best_v;
                assert(!(exists|l2: int|
                    0 <= l2 < self.lib_count() && l2 != tb.library as int
                        && #[trigger] self.lib_available(l2)));
                assert(lookahead_pick_ok(*self, best_t, best_v));
            }
            return Some((best_t, best_v));
        }
        let free = self.take_free_time(&sec_t);
        let rem = self.take_rem_time(&best_t);
        proof {
            assert((sec_t.library as int) < self.lib_count() && sec_t.library as int
                != best_t.library as int && self.lib_available(sec_t.library as int));
        }
        if free < rem {
            proof {
                assert(self.is_candidate(sec_t.library as int, sec_t, sec_v));
                assert(lookahead_pick_ok(*self, sec_t, sec_v));
            }
            Some((sec_t, sec_v))
        } else {
            proof {
                assert(self.is_candidate(sec_t.library as int, sec_t, sec_v));
                assert(lookahead_pick_ok(*self, best_t, best_v));
            }
            Some((best_t, best_v))
        }
    }

    /// Selection policy: evaluate every available library against the
    /// current snapshot and pick the next take under the chosen strategy,
    /// or `None` exactly when no library is available.
    pub fn select_next(&self, strategy: Strategy) -> (r: Option<(Take, u64)>)
        requires
            self.wf(),
            self.cur_time <= self.duration,
        ensures
            (match r {
                None => forall|l2: int| 0 <= l2 < self.lib_count() ==> !self.lib_available(l2),
                Some(p) => pick_ok(*self, p.0, p.1, strategy),
            }),
    {
        match strategy {
            Strategy::Greedy => self.select_greedy(),
            Strategy::Lookahead => self.select_lookahead(),
        }
    }

    /// Free time a take's library would have if it signed up now.
    pub fn take_free_time(&self, take: &Take) -> (r: u32)
        requires
            self.cur_time <= self.duration,
            (take.library as int) < self.lib_count(),
        ensures
            r == self.spec_take_free_time(*take),
    {
        let lib = &self.libraries[take.library as usize];
        let rem = self.remaining_time();
        if rem >= lib.signup_time {
            rem - lib.signup_time
        } else {
            0
        }
    }

    /// Time that would remain after the take's signup and scanning period.
    pub fn take_rem_time(&self, take: &Take) -> (r: u32)
        requires
            self.cur_time <= self.duration,
            (take.library as int) < self.lib_count(),
        ensures
            r == self.spec_take_rem_time(*take),
    {
        let free = self.take_free_time(take);
        let bpd = self.libraries[take.library as usize].books_per_day;
        if bpd == 0 {
            free
        } else {
            let harvest: u64 = (take.books.len() as u64) / (bpd as u64);
            if (free as u64) >= harvest {
                free - (harvest as u32)
            } else {
                0
            }
        }
    }
}

} // verus!
