//! Helpers of the configuration and of the generation of arrays.

use crate::text::parse_i32;
use crate::text::parsed_i32;
use rand::seq::SliceRandom;
use vstd::prelude::*;

verus! {

/// The value of a parsed number, or the default where there is none.
pub open spec fn value_or(parsed: Option<i32>, default: i32) -> i32 {
    match parsed {
        Some(value) => value,
        None => default,
    }
}

/// The number that `input` stands for, or `default` where it stands for none.
pub fn parse_string_to_i32_or_default(input: String, default: i32) -> (value: i32)
    ensures
        value == value_or(parsed_i32(input@), default),
{
    let parsed_result = parse_i32(input.as_str());

    match parsed_result {
        Some(parsed_value) => parsed_value,
        None => default,
    }
}

/// `SliceRandom::shuffle` of the crate `rand`, with the generator of the
/// thread: the elements in an order taken by chance. The result holds the
/// elements of `data`, each as often as `data` holds it.
#[verifier::external_body]
pub fn shuffle<T>(data: Vec<T>) -> (shuffled: Vec<T>)
    ensures
        shuffled@.to_multiset() == data@.to_multiset(),
        shuffled@.len() == data@.len(),
{
    let mut data = data;
    let mut rng = rand::thread_rng();
    data.shuffle(&mut rng);
    data
}

/// The numbers from one up to `count`, in ascending order.
pub open spec fn one_up_to(count: int) -> Seq<i32> {
    Seq::new(
        if count > 0 {
            count as nat
        } else {
            0
        },
        |k: int| (k + 1) as i32,
    )
}

/// A new array to sort: the numbers from one up to `items_count`, in an
/// order taken by chance. Empty where `items_count` is not positive.
pub fn get_new_generation(items_count: &i32) -> (generation: Vec<i32>)
    ensures
        generation@.to_multiset() == one_up_to(*items_count as int).to_multiset(),
        generation@.len() == one_up_to(*items_count as int).len(),
{
    let mut numbers: Vec<i32> = Vec::new();
    let mut made: i32 = 0;
    while made < *items_count
        invariant
            0 <= made,
            made <= *items_count || made == 0,
            numbers@ == one_up_to(made as int),
        decreases *items_count - made,
    {
        numbers.push(made + 1);
        made += 1;
        assert(numbers@ =~= one_up_to(made as int));
    }
    assert(numbers@ =~= one_up_to(*items_count as int));
    shuffle(numbers)
}

} // verus!
