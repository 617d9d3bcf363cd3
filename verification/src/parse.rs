use vstd::prelude::*;

use crate::model::{
    count_true, lemma_count_true_all, lemma_count_true_none, lemma_count_true_update_true,
    Library, TaskState,
};

verus! {

/// Why an input text was rejected.
#[derive(Clone, Copy, Debug, PartialEq, Eq, Structural)]
pub enum ParseError {
    /// A line or number is missing or malformed, or a declared count does
    /// not match what the text holds.
    MalformedInput,
}

/// ASCII decimal digit.
pub open spec fn is_digit(c: u8) -> bool {
    48 <= c <= 57
}

/// Numeric value of a digit string, most significant digit first.
pub open spec fn digits_val(s: Seq<u8>) -> int
    decreases s.len(),
{
    if s.len() == 0 {
        0
    } else {
        digits_val(s.drop_last()) * 10 + (s.last() - 48)
    }
}

/// End of the digit run that starts at `pos`.
pub open spec fn digit_run_end(s: Seq<u8>, pos: int) -> int
    decreases s.len() - pos,
{
    if pos < s.len() && is_digit(s[pos]) {
        digit_run_end(s, pos + 1)
    } else {
        pos
    }
}

/// The number at `pos`: the value of the digit run there and the position
/// just after it, or nothing when no digit stands at `pos` or the value
/// does not fit 32 bits.
pub open spec fn spec_read_number(s: Seq<u8>, pos: int) -> Option<(int, int)> {
    let e = digit_run_end(s, pos);
    let v = digits_val(s.subrange(pos, e));
    if e == pos || v > 0xFFFF_FFFF {
        None
    } else {
        Some((v, e))
    }
}

/// First position at or after `pos` that holds a newline, or the end.
pub open spec fn line_end(s: Seq<u8>, pos: int) -> int
    decreases s.len() - pos,
{
    if pos < s.len() && s[pos] != 10 {
        line_end(s, pos + 1)
    } else {
        pos
    }
}

/// Position of the line after the one at `pos`: past its newline, or the
/// end of the text.
pub open spec fn spec_skip_line(s: Seq<u8>, pos: int) -> int {
    if line_end(s, pos) < s.len() {
        line_end(s, pos) + 1
    } else {
        line_end(s, pos)
    }
}

/// Reads the maximal digit run at `pos` as a number of at most 32 bits.
/// Succeeds exactly when `spec_read_number` does, with its value.
fn read_number(data: &[u8], pos: usize) -> (r: Result<(u32, usize), ParseError>)
    requires
        pos <= data@.len(),
    ensures
        (match r {
            Ok(p) => {
                &&& pos < p.1 <= data@.len()
                &&& spec_read_number(data@, pos as int) == Some((p.0 as int, p.1 as int))
            },
            Err(_) => spec_read_number(data@, pos as int) is None,
        }),
{
    let len = data.len();
    let mut p = pos;
    let mut v: u64 = 0;
    let mut over = false;
    while p < len && data[p] >= 48 && data[p] <= 57
        invariant
            pos <= p <= len,
            len == data@.len(),
            forall|i: int| pos <= i < p ==> is_digit(#[trigger] data@[i]),
            digit_run_end(data@, p as int) == digit_run_end(data@, pos as int),
            !over ==> v == digits_val(data@.subrange(pos as int, p as int)) && v <= 0xFFFF_FFFF,
            over ==> digits_val(data@.subrange(pos as int, p as int)) > 0xFFFF_FFFF,
        decreases len - p,
    {
        let d = data[p] - 48;
        proof {
            let s0 = data@.subrange(pos as int, p as int);
            let s1 = data@.subrange(pos as int, p + 1);
            assert(s1.drop_last() =~= s0);
            assert(digits_val(s1) == digits_val(s0) * 10 + (data@[p as int] - 48));
        }
        if !over {
            let nv = v * 10 + (d as u64);
            if nv > 0xFFFF_FFFF {
                over = true;
            } else {
                v = nv;
            }
        }
        p += 1;
    }
    if p == pos || over {
        Err(ParseError::MalformedInput)
    } else {
        Ok(((v as u32), p))
    }
}

/// Position just after the current line: past the next newline, or the end
/// of the text.
fn skip_line(data: &[u8], pos: usize) -> (p: usize)
    requires
        pos <= data@.len(),
    ensures
        pos <= p <= data@.len(),
        p == spec_skip_line(data@, pos as int),
{
    let len = data.len();
    let mut p = pos;
    while p < len && data[p] != 10
        invariant
            pos <= p <= len,
            len == data@.len(),
            line_end(data@, p as int) == line_end(data@, pos as int),
        decreases len - p,
    {
        p += 1;
    }
    if p < len {
        p + 1
    } else {
        p
    }
}

/// The three numbers that open the line at `pos`, separated by single
/// spaces, and the position of the next line; nothing when the line does
/// not start that way. Whatever else stands on the line is ignored.
pub open spec fn spec_read_three(s: Seq<u8>, pos: int) -> Option<(int, int, int, int)> {
    match spec_read_number(s, pos) {
        None => None,
        Some((n1, p1)) => if !(p1 < s.len() && s[p1] == 32) {
            None
        } else {
            match spec_read_number(s, p1 + 1) {
                None => None,
                Some((n2, p2)) => if !(p2 < s.len() && s[p2] == 32) {
                    None
                } else {
                    match spec_read_number(s, p2 + 1) {
                        None => None,
                        Some((n3, p3)) => if p3 < s.len() && s[p3] != 32 && s[p3] != 10 {
                            None
                        } else {
                            Some((n1, n2, n3, spec_skip_line(s, p3)))
                        },
                    }
                },
            }
        },
    }
}

/// Reads a line that starts with three numbers separated by single spaces;
/// whatever else stands on the line is ignored. Returns the numbers and the
/// position of the next line. Succeeds exactly when `spec_read_three` does,
/// with its values.
fn read_three(data: &[u8], pos: usize) -> (r: Result<(u32, u32, u32, usize), ParseError>)
    requires
        pos <= data@.len(),
    ensures
        (match r {
            Ok(p) => {
                &&& pos < p.3 <= data@.len()
                &&& spec_read_three(data@, pos as int) == Some(
                    (p.0 as int, p.1 as int, p.2 as int, p.3 as int),
                )
            },
            Err(_) => spec_read_three(data@, pos as int) is None,
        }),
{
    let len = data.len();
    let (n1, p1) = match read_number(data, pos) {
        Ok(x) => x,
        Err(e) => {
            return Err(e);
        },
    };
    if p1 >= len || data[p1] != 32 {
        return Err(ParseError::MalformedInput);
    }
    let (n2, p2) = match read_number(data, p1 + 1) {
        Ok(x) => x,
        Err(e) => {
            return Err(e);
        },
    };
    if p2 >= len || data[p2] != 32 {
        return Err(ParseError::MalformedInput);
    }
    let (n3, p3) = match read_number(data, p2 + 1) {
        Ok(x) => x,
        Err(e) => {
            return Err(e);
        },
    };
    if p3 < len && data[p3] != 32 && data[p3] != 10 {
        return Err(ParseError::MalformedInput);
    }
    let p4 = skip_line(data, p3);
    Ok((n1, n2, n3, p4))
}

/// The whole line of numbers at `pos`, separated by single spaces, and the
/// position of the next line; nothing on an empty line, a doubled or
/// trailing space, or anything that is not a number.
pub open spec fn spec_number_line(s: Seq<u8>, pos: int) -> Option<(Seq<int>, int)>
    decreases s.len() - pos,
{
    match spec_read_number(s, pos) {
        None => None,
        Some((n, q)) => if q >= s.len() {
            Some((seq![n], q))
        } else if s[q] == 10 {
            Some((seq![n], q + 1))
        } else if s[q] == 32 && pos < q + 1 <= s.len() {
            match spec_number_line(s, q + 1) {
                None => None,
                Some((ns, p)) => Some((seq![n] + ns, p)),
            }
        } else {
            None
        },
    }
}

/// Reads a whole line of numbers separated by single spaces. Fails on an
/// empty line, a doubled or trailing space, or anything that is not a
/// number. Returns the numbers and the position of the next line. Succeeds
/// exactly when `spec_number_line` does, with its values.
fn read_number_line(data: &[u8], pos: usize) -> (r: Result<(Vec<u32>, usize), ParseError>)
    requires
        pos <= data@.len(),
    ensures
        (match r {
            Ok(p) => {
                &&& pos < p.1 <= data@.len()
                &&& spec_number_line(data@, pos as int) matches Some(m) && m.0
                    == p.0@.map_values(|x: u32| x as int) && m.1 == p.1 as int
            },
            Err(_) => spec_number_line(data@, pos as int) is None,
        }),
{
    let len = data.len();
    let mut nums: Vec<u32> = Vec::new();
    let mut p = pos;
    loop
        invariant_except_break
            // What the whole line parses to is what the prefix read so far
            // yields, followed by what remains from `p`.
            (match spec_number_line(data@, pos as int) {
                None => spec_number_line(data@, p as int) is None,
                Some(m) => spec_number_line(data@, p as int) matches Some(rest) && m.0
                    == nums@.map_values(|x: u32| x as int) + rest.0 && m.1 == rest.1,
            }),
        invariant
            pos <= p <= len,
            len == data@.len(),
        ensures
            pos < p <= len,
            spec_number_line(data@, pos as int) matches Some(m) && m.0 == nums@.map_values(
                |x: u32| x as int,
            ) && m.1 == p as int,
        decreases len - p,
    {
        let ghost nums_pre = nums@;
        let (n, q) = match read_number(data, p) {
            Ok(x) => x,
            Err(e) => {
                return Err(e);
            },
        };
        nums.push(n);
        proof {
            assert(nums@.map_values(|x: u32| x as int) =~= nums_pre.map_values(|x: u32| x as int)
                + seq![n as int]);
        }
        if q >= len {
            p = q;
            proof {
                assert(nums_pre.map_values(|x: u32| x as int) + (seq![n as int]) =~= nums@
                    .map_values(|x: u32| x as int));
            }
            break ;
        }
        if data[q] == 10 {
            p = q + 1;
            break ;
        }
        if data[q] != 32 {
            return Err(ParseError::MalformedInput);
        }
        proof {
            let whole = spec_number_line(data@, pos as int);
            let here = spec_number_line(data@, p as int);
            let next = spec_number_line(data@, q + 1);
            match here {
                None => {}
                Some(h) => {
                    match next {
                        None => {}
                        Some(nx) => {
                            assert(h.0 =~= seq![n as int] + nx.0);
                        },
                    }
                },
            }
        }
        p = q + 1;
        proof {
            match spec_number_line(data@, pos as int) {
                None => {}
                Some(m) => {
                    match spec_number_line(data@, p as int) {
                        None => {}
                        Some(rest) => {
                            assert(m.0 =~= nums@.map_values(|x: u32| x as int) + rest.0);
                        },
                    }
                },
            }
        }
    }
    Ok((nums, p))
}

/// A parsed library, at the specification level.
pub struct ParsedLibrary {
    pub signup_time: int,
    pub books_per_day: int,
    pub books: Seq<bool>,
}

/// The book set after marking the first `k` listed ids.
pub open spec fn mark_books(books: Seq<bool>, ids: Seq<int>, k: int) -> Seq<bool>
    decreases k,
{
    if k <= 0 {
        books
    } else {
        mark_books(books, ids, k - 1).update(ids[k - 1], true)
    }
}

/// The library whose two lines stand at `pos`: a header line of declared
/// book count, signup time and throughput, then a line of its book ids.
/// Nothing when a line is malformed, an id does not exist, or the declared
/// count differs from the number of distinct ids listed.
pub open spec fn spec_parse_lib(s: Seq<u8>, pos: int, nb: int) -> Option<(ParsedLibrary, int)> {
    match spec_read_three(s, pos) {
        None => None,
        Some((nbl, su, bpd, pa)) => match spec_number_line(s, pa) {
            None => None,
            Some((ids, pb)) => {
                let marked = mark_books(Seq::new(nb as nat, |i: int| false), ids, ids.len() as int);
                if !(forall|k: int| 0 <= k < ids.len() ==> 0 <= #[trigger] ids[k] < nb) {
                    None
                } else if count_true(marked) != nbl {
                    None
                } else {
                    Some((ParsedLibrary { signup_time: su, books_per_day: bpd, books: marked }, pb))
                }
            },
        },
    }
}

/// The `count` libraries whose lines start at `pos`.
pub open spec fn spec_parse_libs(s: Seq<u8>, pos: int, count: int, nb: int) -> Option<
    (Seq<ParsedLibrary>, int),
>
    decreases count,
{
    if count <= 0 {
        Some((Seq::empty(), pos))
    } else {
        match spec_parse_lib(s, pos, nb) {
            None => None,
            Some((lib, p)) => match spec_parse_libs(s, p, count - 1, nb) {
                None => None,
                Some((libs, e)) => Some((seq![lib] + libs, e)),
            },
        }
    }
}

/// What the whole input text means: the duration, the book scores, and the
/// libraries; nothing when the text does not follow the format. Anything
/// after the last library's lines is ignored.
pub open spec fn spec_parse(s: Seq<u8>) -> Option<(int, Seq<int>, Seq<ParsedLibrary>)> {
    match spec_read_three(s, 0) {
        None => None,
        Some((nb, nl, dur, p1)) => match spec_number_line(s, p1) {
            None => None,
            Some((scores, p2)) => if scores.len() != nb {
                None
            } else if !(forall|i: int| 0 <= i < scores.len() ==> #[trigger] scores[i] <= 0xFFFF) {
                None
            } else {
                match spec_parse_libs(s, p2, nl, nb) {
                    None => None,
                    Some((libs, _)) => Some((dur, scores, libs)),
                }
            },
        },
    }
}

impl TaskState {
    /// Parse the line-oriented input text into a fresh schedule: a header
    /// line `(book count, library count, duration)`, a line of book scores,
    /// then per library a header line `(book count, signup time, books per
    /// day)` and a line of its book ids. Every declared count must match
    /// what the text holds, every book id must exist, and every book score
    /// must fit 16 bits.
    #[verifier::loop_isolation(false)]
    pub fn parse_in(data: &[u8]) -> (r: Result<TaskState, ParseError>)
        ensures
            (match r {
                Ok(st) => {
                    &&& st.wf() && st.inv() && st.is_initial()
                    &&& spec_parse(data@) matches Some(m) && st.duration == m.0
                        && st.book_scores@.map_values(|x: u16| x as int) == m.1
                        && st.libraries@.len() == m.2.len() && (forall|l: int|
                        0 <= l < m.2.len() ==> {
                            &&& (#[trigger] st.libraries@[l]).signup_time == m.2[l].signup_time
                            &&& st.libraries@[l].books_per_day == m.2[l].books_per_day
                            &&& st.libraries@[l].books@ == m.2[l].books
                        })
                },
                Err(_) => spec_parse(data@) is None,
            }),
    {
        let (amount_books, amount_libs, duration, mut pos) = match read_three(data, 0) {
            Ok(x) => x,
            Err(e) => {
                return Err(e);
            },
        };
        let ghost ab = amount_books as int;
        let ghost al = amount_libs as int;
        let ghost dur = duration as int;
        let ghost p1g = pos as int;
        let (score_nums, pos2) = match read_number_line(data, pos) {
            Ok(x) => x,
            Err(e) => {
                return Err(e);
            },
        };
        pos = pos2;
        let ghost scores = score_nums@.map_values(|x: u32| x as int);
        let ghost pos0 = pos as int;
        if score_nums.len() != amount_books as usize {
            return Err(ParseError::MalformedInput);
        }
        let mut book_scores: Vec<u16> = Vec::new();
        let mut si: usize = 0;
        while si < score_nums.len()
            invariant
                si <= score_nums@.len(),
                book_scores@.len() == si,
                scores == score_nums@.map_values(|x: u32| x as int),
                forall|i: int|
                    0 <= i < si ==> (#[trigger] score_nums@[i]) <= 0xFFFF && book_scores@[i]
                        == score_nums@[i] as u16,
            decreases score_nums@.len() - si,
        {
            let s = score_nums[si];
            if s > 0xFFFF {
                proof {
                    assert(scores[si as int] > 0xFFFF);
                    assert(spec_parse(data@) is None);
                }
                return Err(ParseError::MalformedInput);
            }
            book_scores.push(s as u16);
            si += 1;
        }
        let mut libraries: Vec<Library> = Vec::new();
        let ghost mut acc: Seq<ParsedLibrary> = Seq::empty();
        let mut li: u32 = 0;
        proof {
            match spec_parse_libs(data@, pos0, al, ab) {
                None => {}
                Some(r0) => {
                    assert(acc + r0.0 =~= r0.0);
                },
            }
        }
        while li < amount_libs
            invariant
                li <= amount_libs,
                pos <= data@.len(),
                libraries@.len() == li,
                ab == amount_books as int,
                al == amount_libs as int,
                acc.len() == li,
                forall|j: int|
                    0 <= j < li ==> {
                        let lb = #[trigger] libraries@[j];
                        &&& lb.books@.len() == ab
                        &&& lb.signup_time == acc[j].signup_time
                        &&& lb.books_per_day == acc[j].books_per_day
                        &&& lb.books@ == acc[j].books
                    },
                spec_parse_libs(data@, pos0, al, ab) == (match spec_parse_libs(
                    data@,
                    pos as int,
                    al - li,
                    ab,
                ) {
                    None => None,
                    Some(r) => Some((acc + r.0, r.1)),
                }),
            decreases amount_libs - li,
        {
            let ghost pos_pre = pos as int;
            let (nb_lib, signup, bpd, posa) = match read_three(data, pos) {
                Ok(x) => x,
                Err(e) => {
                    proof {
                        assert(spec_parse_lib(data@, pos_pre, ab) is None);
                        assert(spec_parse_libs(data@, pos_pre, al - li, ab) is None);
                        assert(spec_parse(data@) is None);
                    }
                    return Err(e);
                },
            };
            let (idxs, posb) = match read_number_line(data, posa) {
                Ok(x) => x,
                Err(e) => {
                    proof {
                        assert(spec_parse_lib(data@, pos_pre, ab) is None);
                        assert(spec_parse_libs(data@, pos_pre, al - li, ab) is None);
                        assert(spec_parse(data@) is None);
                    }
                    return Err(e);
                },
            };
            pos = posb;
            let ghost ids = idxs@.map_values(|x: u32| x as int);
            let ghost empty_books = Seq::new(ab as nat, |i: int| false);
            let mut books: Vec<bool> = vec![false; amount_books as usize];
            proof {
                assert(books@ =~= empty_books);
                lemma_count_true_none(books@);
            }
            let mut cnt: u64 = 0;
            let mut bi: usize = 0;
            while bi < idxs.len()
                invariant
                    bi <= idxs@.len(),
                    ab == amount_books as int,
                    ids == idxs@.map_values(|x: u32| x as int),
                    empty_books == Seq::new(ab as nat, |i: int| false),
                    books@.len() == ab,
                    books@ == mark_books(empty_books, ids, bi as int),
                    cnt == count_true(books@),
                    cnt <= bi,
                    forall|k: int| 0 <= k < bi ==> 0 <= #[trigger] ids[k] < ab,
                decreases idxs@.len() - bi,
            {
                let b = idxs[bi];
                if b >= amount_books {
                    proof {
                        assert(ids[bi as int] >= ab);
                        assert(spec_parse_lib(data@, pos_pre, ab) is None);
                        assert(spec_parse_libs(data@, pos_pre, al - li, ab) is None);
                        assert(spec_parse(data@) is None);
                    }
                    return Err(ParseError::MalformedInput);
                }
                let ghost books_pre = books@;
                if !books[b as usize] {
                    proof {
                        lemma_count_true_update_true(books@, b as int);
                    }
                    books[b as usize] = true;
                    cnt = cnt + 1;
                } else {
                    proof {
                        assert(books_pre.update(b as int, true) =~= books_pre);
                    }
                }
                proof {
                    assert(books@ == mark_books(empty_books, ids, bi + 1));
                }
                bi += 1;
            }
            let ghost marked = mark_books(empty_books, ids, ids.len() as int);
            if cnt != nb_lib as u64 {
                proof {
                    assert(books@ == marked);
                    assert(count_true(marked) != nb_lib as int);
                    assert(spec_parse_lib(data@, pos_pre, ab) is None);
                    assert(spec_parse_libs(data@, pos_pre, al - li, ab) is None);
                    assert(spec_parse(data@) is None);
                }
                return Err(ParseError::MalformedInput);
            }
            let ghost pl = ParsedLibrary {
                signup_time: signup as int,
                books_per_day: bpd as int,
                books: books@,
            };
            proof {
                assert(spec_parse_lib(data@, pos_pre, ab) == Some((pl, pos as int)));
                let rem = al - li;
                match spec_parse_libs(data@, pos as int, rem - 1, ab) {
                    None => {}
                    Some(rr) => {
                        assert(acc + (seq![pl] + rr.0) =~= (acc + seq![pl]) + rr.0);
                    },
                }
                acc = acc + seq![pl];
            }
            libraries.push(Library { signup_time: signup, books_per_day: bpd, books });
            li += 1;
        }
        let cur_libraries: Vec<bool> = vec![true; amount_libs as usize];
        let cur_books: Vec<bool> = vec![true; amount_books as usize];
        let st = TaskState {
            libraries,
            book_scores,
            duration,
            cur_time: 0,
            cur_libraries,
            cur_books,
            takes: Vec::new(),
        };
        proof {
            lemma_count_true_all(st.cur_books@);
            assert(st.wf());
            assert(st.inv());
            assert(st.is_initial());
            match spec_parse_libs(data@, pos as int, 0, ab) {
                None => {}
                Some(rr) => {
                    assert(acc + rr.0 =~= acc);
                },
            }
            assert(spec_parse_libs(data@, pos0, al, ab) == Some((acc, pos as int)));
            assert(spec_parse(data@) == Some((dur, scores, acc)));
            assert(st.book_scores@.map_values(|x: u16| x as int) =~= scores);
        }
        Ok(st)
    }
}

} // verus!
