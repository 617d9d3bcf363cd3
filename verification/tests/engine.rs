use bookscan::model::{Library, Strategy, TaskState};

fn two_library_state(duration: u32) -> TaskState {
    // Books scored [3, 5, 2]; library 0 offers books {0, 1}, library 1
    // offers book {2}; both sign up in 1 day and scan 1 book per day.
    TaskState {
        libraries: vec![
            Library { signup_time: 1, books_per_day: 1, books: vec![true, true, false] },
            Library { signup_time: 1, books_per_day: 1, books: vec![false, false, true] },
        ],
        book_scores: vec![3, 5, 2],
        duration,
        cur_time: 0,
        cur_libraries: vec![true, true],
        cur_books: vec![true, true, true],
        takes: Vec::new(),
    }
}

#[test]
fn greedy_scenario() {
    let mut st = two_library_state(2);
    st.run_all(Strategy::Greedy);
    // Step 1 commits library 0 with its best book (id 1, score 5); step 2
    // finds library 1 with no capacity left and halts.
    assert_eq!(st.takes.len(), 1);
    assert_eq!(st.takes[0].library, 0);
    assert_eq!(st.takes[0].books, vec![1]);
    assert_eq!(st.cur_time, 1);
    assert_eq!(st.score(), 5);
}

#[test]
fn zero_budget_scenario() {
    let mut st = two_library_state(0);
    st.run_all(Strategy::Greedy);
    assert!(st.takes.is_empty());
    assert_eq!(st.score(), 0);
    assert_eq!(st.cur_time, 0);
    // Nothing was consumed: the machine halted before any pick.
    assert_eq!(st.cur_libraries, vec![true, true]);
}

#[test]
fn zero_budget_lookahead() {
    let mut st = two_library_state(0);
    st.run_all(Strategy::Lookahead);
    assert!(st.takes.is_empty());
    assert_eq!(st.score(), 0);
}

#[test]
fn scorer_is_idempotent() {
    let mut st = two_library_state(2);
    st.run_all(Strategy::Greedy);
    let first = st.score();
    let second = st.score();
    assert_eq!(first, second);
    assert_eq!(st.score(), first);
}

fn swap_state() -> TaskState {
    // Ten books worth 10 each. Library 0 scans fast and holds books 0..=7;
    // library 1 is slow and holds books 8 and 9. Committing library 0 first
    // leaves library 1 too little time, which the lookahead rule notices.
    TaskState {
        libraries: vec![
            Library {
                signup_time: 2,
                books_per_day: 10,
                books: vec![true, true, true, true, true, true, true, true, false, false],
            },
            Library {
                signup_time: 3,
                books_per_day: 1,
                books: vec![false, false, false, false, false, false, false, false, true, true],
            },
        ],
        book_scores: vec![10; 10],
        duration: 10,
        cur_time: 0,
        cur_libraries: vec![true, true],
        cur_books: vec![true; 10],
        takes: Vec::new(),
    }
}

#[test]
fn strategies_may_diverge_but_both_finish() {
    let mut greedy = swap_state();
    greedy.run_all(Strategy::Greedy);
    let mut ahead = swap_state();
    ahead.run_all(Strategy::Lookahead);

    // Greedy commits the dense library 0 first; lookahead prefers the
    // runner-up so it is not stranded.
    assert_eq!(greedy.takes[0].library, 0);
    assert_eq!(ahead.takes[0].library, 1);

    for st in [&greedy, &ahead] {
        // No library and no book is used twice, and the clock replays to
        // at most the budget.
        let mut seen_libs = Vec::new();
        let mut seen_books = Vec::new();
        let mut elapsed: u64 = 0;
        for t in &st.takes {
            assert!(!seen_libs.contains(&t.library));
            seen_libs.push(t.library);
            for b in &t.books {
                assert!(!seen_books.contains(b));
                seen_books.push(*b);
            }
            elapsed += st.libraries[t.library as usize].signup_time as u64;
        }
        assert_eq!(elapsed, st.cur_time as u64);
        assert!(st.cur_time <= st.duration);
    }
}

#[test]
fn capacity_bounds_every_take() {
    let mut st = swap_state();
    st.run_all(Strategy::Greedy);
    let mut clock: u64 = 0;
    for t in &st.takes {
        let lib = &st.libraries[t.library as usize];
        let free = st.duration as u64 - clock - lib.signup_time as u64;
        assert!(t.books.len() as u64 <= free * lib.books_per_day as u64);
        clock += lib.signup_time as u64;
    }
}

#[test]
fn single_step_commits_best_density() {
    let mut st = two_library_state(2);
    let done = st.do_step(Strategy::Greedy);
    assert!(!done);
    assert_eq!(st.takes.len(), 1);
    assert_eq!(st.takes[0].library, 0);
    let done = st.do_step(Strategy::Greedy);
    assert!(done);
    assert_eq!(st.takes.len(), 1);
}

#[test]
fn free_and_rem_time() {
    let st = swap_state();
    // Library 1's take before anything is committed: free = 10 - 3.
    let t1 = bookscan::model::Take { library: 1, books: vec![8, 9] };
    assert_eq!(st.take_free_time(&t1), 7);
    // Two books at one per day keep it busy two more days.
    assert_eq!(st.take_rem_time(&t1), 5);
    // Library 0 scans its eight books in under a day.
    let t0 = bookscan::model::Take { library: 0, books: vec![0, 1, 2, 3, 4, 5, 6, 7] };
    assert_eq!(st.take_free_time(&t0), 8);
    assert_eq!(st.take_rem_time(&t0), 8);
}

#[test]
fn capacity_limits_selection_to_best_books() {
    // One library holds all five books but only two fit: signup 1 and one
    // book per day against a budget of 3. The two highest scores win.
    let mut st = TaskState {
        libraries: vec![Library {
            signup_time: 1,
            books_per_day: 1,
            books: vec![true; 5],
        }],
        book_scores: vec![1, 9, 3, 7, 5],
        duration: 3,
        cur_time: 0,
        cur_libraries: vec![true],
        cur_books: vec![true; 5],
        takes: Vec::new(),
    };
    st.run_all(Strategy::Greedy);
    assert_eq!(st.takes.len(), 1);
    let books = &st.takes[0].books;
    assert_eq!(books.len(), 2);
    assert!(books.contains(&1) && books.contains(&3));
    assert_eq!(st.score(), 16);
}

#[test]
fn zero_signup_library_ranks_highest() {
    // A free signup gives infinite value density, so it is picked first.
    let mut st = TaskState {
        libraries: vec![
            Library { signup_time: 1, books_per_day: 1, books: vec![true, false] },
            Library { signup_time: 0, books_per_day: 1, books: vec![false, true] },
        ],
        book_scores: vec![100, 1],
        duration: 2,
        cur_time: 0,
        cur_libraries: vec![true, true],
        cur_books: vec![true, true],
        takes: Vec::new(),
    };
    let done = st.do_step(Strategy::Greedy);
    assert!(!done);
    assert_eq!(st.takes[0].library, 1);
    assert_eq!(st.cur_time, 0);
}

#[test]
fn zero_throughput_library_is_never_committed() {
    let mut st = TaskState {
        libraries: vec![Library { signup_time: 1, books_per_day: 0, books: vec![true] }],
        book_scores: vec![9],
        duration: 100,
        cur_time: 0,
        cur_libraries: vec![true],
        takes: Vec::new(),
        cur_books: vec![true],
    };
    st.run_all(Strategy::Greedy);
    assert!(st.takes.is_empty());
    assert_eq!(st.score(), 0);
    // The empty pick still consumed the library.
    assert_eq!(st.cur_libraries, vec![false]);
}

#[test]
fn take_score_truncates_to_capacity() {
    let st = TaskState {
        libraries: vec![Library { signup_time: 1, books_per_day: 1, books: vec![true; 4] }],
        book_scores: vec![2, 4, 8, 16],
        duration: 3,
        cur_time: 0,
        cur_libraries: vec![true],
        cur_books: vec![true; 4],
        takes: Vec::new(),
    };
    let t = bookscan::model::Take { library: 0, books: vec![0, 1, 2, 3] };
    // Signing up at time 0 leaves room for two books: the first two listed.
    assert_eq!(t.score(&st, 0), 6);
    // Signing up at time 2 leaves none; at time 3 and beyond, still none.
    assert_eq!(t.score(&st, 2), 0);
    assert_eq!(t.score(&st, 3), 0);
}

#[test]
fn pick_file_prefix_match() {
    let files = vec![b"alpha.in".to_vec(), b"beta.in".to_vec(), b"bet.in".to_vec()];
    assert_eq!(bookscan::pick_file(&files, &b"bet".to_vec()), Some(1));
    assert_eq!(bookscan::pick_file(&files, &b"al".to_vec()), Some(0));
    assert_eq!(bookscan::pick_file(&files, &b"zz".to_vec()), None);
    assert!(bookscan::starts_with_bytes(&b"beta.in".to_vec(), &b"bet".to_vec()));
    assert!(!bookscan::starts_with_bytes(&b"be".to_vec(), &b"bet".to_vec()));
}
