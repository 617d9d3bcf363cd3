use bookscan::model::{Library, Strategy, Take, TaskState};

fn good_state() -> TaskState {
    TaskState {
        libraries: vec![
            Library { signup_time: 1, books_per_day: 1, books: vec![true, true, false] },
            Library { signup_time: 1, books_per_day: 1, books: vec![false, false, true] },
        ],
        book_scores: vec![3, 5, 2],
        duration: 2,
        cur_time: 0,
        cur_libraries: vec![true, true],
        cur_books: vec![true, true, true],
        takes: Vec::new(),
    }
}

#[test]
fn fresh_state_is_consistent() {
    assert!(good_state().check_consistency());
}

#[test]
fn run_results_are_consistent() {
    let mut st = good_state();
    st.run_all(Strategy::Greedy);
    assert!(st.check_consistency());
    let mut st = good_state();
    st.run_all(Strategy::Lookahead);
    assert!(st.check_consistency());
}

#[test]
fn mismatched_lengths_are_rejected() {
    let mut st = good_state();
    st.cur_books = vec![true, true];
    assert!(!st.check_consistency());
    let mut st = good_state();
    st.libraries[0].books = vec![true];
    assert!(!st.check_consistency());
}

#[test]
fn clock_past_budget_is_rejected() {
    let mut st = good_state();
    st.cur_time = 3;
    assert!(!st.check_consistency());
}

#[test]
fn clock_out_of_step_with_takes_is_rejected() {
    let mut st = good_state();
    // A committed take must have advanced the clock and consumed its ids.
    st.takes = vec![Take { library: 0, books: vec![1] }];
    assert!(!st.check_consistency());
    st.cur_time = 1;
    assert!(!st.check_consistency());
    st.cur_libraries = vec![false, true];
    assert!(!st.check_consistency());
    st.cur_books = vec![true, false, true];
    assert!(st.check_consistency());
}

#[test]
fn double_use_is_rejected() {
    let mut st = TaskState {
        libraries: vec![
            Library { signup_time: 1, books_per_day: 2, books: vec![true, true] },
            Library { signup_time: 1, books_per_day: 2, books: vec![true, true] },
        ],
        book_scores: vec![4, 6],
        duration: 4,
        cur_time: 2,
        cur_libraries: vec![false, false],
        cur_books: vec![false, false],
        takes: vec![
            Take { library: 0, books: vec![0] },
            Take { library: 1, books: vec![1] },
        ],
    };
    assert!(st.check_consistency());
    // The same book in two takes must be refused.
    st.takes[1].books = vec![0];
    assert!(!st.check_consistency());
    // The same library twice must be refused.
    st.takes = vec![
        Take { library: 0, books: vec![0] },
        Take { library: 0, books: vec![1] },
    ];
    assert!(!st.check_consistency());
}

#[test]
fn oversized_take_is_rejected() {
    let mut st = TaskState {
        libraries: vec![Library { signup_time: 1, books_per_day: 1, books: vec![true, true] }],
        book_scores: vec![4, 6],
        duration: 2,
        cur_time: 1,
        cur_libraries: vec![false],
        cur_books: vec![false, false],
        takes: vec![Take { library: 0, books: vec![0, 1] }],
    };
    // Capacity at commit time was one book, but the take holds two.
    assert!(!st.check_consistency());
    // With one more day of budget the same take fits.
    st.duration = 3;
    assert!(st.check_consistency());
}

#[test]
fn empty_take_is_rejected() {
    let mut st = good_state();
    st.takes = vec![Take { library: 0, books: vec![] }];
    st.cur_libraries = vec![false, true];
    st.cur_time = 1;
    assert!(!st.check_consistency());
}
