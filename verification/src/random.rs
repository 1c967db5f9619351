//! Random choice among the elements of a collection.
use rand::seq::IndexedRandom;
use vstd::prelude::*;

verus! {

/// `IndexedRandom::choose` on the items with the thread's generator: nothing when there are
/// no items, else a reference to one of them, picked at random.
#[verifier::external_body]
fn pick<T>(items: &Vec<T>) -> (r: Option<&T>)
    ensures
        r is None <==> items@.len() == 0,
        r matches Some(x) ==> exists|i: int| 0 <= i < items@.len() && items@[i] == *x,
{
    items.as_slice().choose(&mut rand::rng())
}

/// One of the items, picked at random; the message `Empty coll` when there are none.
pub fn rand_choice<T>(items: &Vec<T>) -> (r: Result<&T, &'static str>)
    ensures
        r is Err <==> items@.len() == 0,
        r matches Err(msg) ==> msg@ == "Empty coll"@,
        r matches Ok(x) ==> exists|i: int| 0 <= i < items@.len() && items@[i] == *x,
{
    match pick(items) {
        Some(x) => Ok(x),
        None => Err("Empty coll"),
    }
}

} // verus!
