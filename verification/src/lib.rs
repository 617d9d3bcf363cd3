//! A verified schedule-selection engine: pick an order in which to sign up
//! libraries and, for each, a bounded set of books to scan, so that the
//! realized value of the scanned books is as high as possible within a
//! global time budget.

pub mod evaluate;
pub mod machine;
pub mod model;
pub mod parse;
pub mod policy;
pub mod scorer;
pub mod validate;

use vstd::prelude::*;

verus! {

/// `name` begins with `prefix`.
pub fn starts_with_bytes(name: &Vec<u8>, prefix: &Vec<u8>) -> (r: bool)
    ensures
        r == prefix@.is_prefix_of(name@),
{
    if prefix.len() > name.len() {
        return false;
    }
    let mut k: usize = 0;
    while k < prefix.len()
        invariant
            k <= prefix@.len() <= name@.len(),
            forall|j: int| 0 <= j < k ==> name@[j] == prefix@[j],
        decreases prefix@.len() - k,
    {
        if name[k] != prefix[k] {
            return false;
        }
        k += 1;
    }
    true
}

/// The first of `files` whose name begins with `prefix`, if any.
pub fn pick_file(files: &Vec<Vec<u8>>, prefix: &Vec<u8>) -> (r: Option<usize>)
    ensures
        (match r {
            Some(i) => {
                &&& (i as int) < files@.len()
                &&& prefix@.is_prefix_of(files@[i as int]@)
                &&& forall|j: int| 0 <= j < i ==> !prefix@.is_prefix_of((#[trigger] files@[j])@)
            },
            None => forall|j: int|
                0 <= j < files@.len() ==> !prefix@.is_prefix_of((#[trigger] files@[j])@),
        }),
{
    let mut i: usize = 0;
    while i < files.len()
        invariant
            i <= files@.len(),
            forall|j: int| 0 <= j < i ==> !prefix@.is_prefix_of((#[trigger] files@[j])@),
        decreases files@.len() - i,
    {
        if starts_with_bytes(&files[i], prefix) {
            return Some(i);
        }
        i += 1;
    }
    None
}

} // verus!
