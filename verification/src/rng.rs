//! The random draws of the library. Nothing here says which value comes out,
//! but what came out of which generator is told, and whatever is proved holds
//! for every sequence of draws.

use rand::rngs::StdRng;
use rand::seq::{IndexedRandom, SliceRandom};
use rand::{Rng, SeedableRng};
use vstd::prelude::*;

verus! {

/// The generator that every draw is taken from.
#[verifier::external_type_specification]
#[verifier::external_body]
pub struct ExStdRng(StdRng);

/// `SeedableRng::seed_from_u64`: a generator made from a seed. Nothing is
/// claimed of the values that it will give.
#[verifier::external_body]
pub(crate) fn seeded(seed: u64) -> StdRng {
    StdRng::seed_from_u64(seed)
}

/// `Rng::random` for `u64`: any value can come out.
#[verifier::external_body]
pub(crate) fn draw_u64(rng: &mut StdRng) -> u64 {
    rng.random()
}

/// `Rng::random_range` over an inclusive range of `u8`: the value lies in
/// the range. An empty range panics.
#[verifier::external_body]
pub(crate) fn draw_u8(rng: &mut StdRng, low: u8, high: u8) -> (value: u8)
    requires
        low <= high,
    ensures
        low <= value <= high,
{
    rng.random_range(low..=high)
}

/// `Rng::random_range` over an inclusive range of `i32`: the value lies in
/// the range. An empty range panics.
#[verifier::external_body]
pub(crate) fn draw_i32(rng: &mut StdRng, low: i32, high: i32) -> (value: i32)
    requires
        low <= high,
    ensures
        low <= value <= high,
{
    rng.random_range(low..=high)
}

/// `Rng::random_range` over a half-open range of `usize` from `low`: the
/// value lies in the range. An empty range panics.
#[verifier::external_body]
pub(crate) fn draw_usize(rng: &mut StdRng, low: usize, end: usize) -> (value: usize)
    requires
        low < end,
    ensures
        low <= value < end,
{
    rng.random_range(low..end)
}

/// `Rng::random_ratio` with one chance in two: either value can come out.
#[verifier::external_body]
pub(crate) fn draw_coin(rng: &mut StdRng) -> bool {
    rng.random_ratio(1, 2)
}

/// `SliceRandom::shuffle`: the items change places, and no item is added,
/// lost or changed.
#[verifier::external_body]
pub(crate) fn shuffle<T>(items: &mut Vec<T>, rng: &mut StdRng)
    ensures
        final(items)@.to_multiset() == old(items)@.to_multiset(),
{
    items.shuffle(rng);
}

/// `IndexedRandom::choose`: one of the items, and none if there are none.
#[verifier::external_body]
pub(crate) fn pick<T: Copy>(items: &[T], rng: &mut StdRng) -> (item: Option<T>)
    ensures
        match item {
            Some(value) => items@.contains(value),
            None => items@.len() == 0,
        },
{
    items.choose(rng).copied()
}

/// Whether `rng` is a generator that was made from `seed`.
pub closed spec fn seeded_from(seed: u64, rng: StdRng) -> bool {
    call_ensures(seeded, (seed,), rng)
}

/// A generator made from a seed.
pub(crate) fn generator(seed: u64) -> (rng: StdRng)
    ensures
        seeded_from(seed, rng),
{
    let make = seeded;
    make(seed)
}

/// Whether a word can be the next of generator `before`.
spec fn can_give_word(before: StdRng, word: u64) -> bool {
    exists|source: &mut StdRng| *source == before && #[trigger] call_ensures(draw_u64, (source,), word)
}

/// A draw of a word, with the generator as it is then.
fn noted_word(rng: &mut StdRng) -> (noted: (u64, Ghost<StdRng>))
    ensures
        noted.1@ == *final(rng),
        can_give_word(*old(rng), noted.0),
        exists|source: &mut StdRng|
            *source == *old(rng) && *final(source) == *final(rng) && #[trigger] call_ensures(draw_u64, (source,), noted.0),
{
    let draw = draw_u64;
    let word: u64 = draw(rng);
    let noted: (u64, Ghost<StdRng>) = (word, Ghost(*rng));
    assert(noted.0 == word);
    noted
}

/// Whether the next word of generator `before` is `word`, and the generator
/// is `after` then.
pub closed spec fn gave_word(before: StdRng, after: StdRng, word: u64) -> bool {
    &&& can_give_word(before, word)
    &&& exists|source: &mut StdRng|
        *source == before && #[trigger] call_ensures(noted_word, (source,), (word, Ghost(after)))
}

/// The next word of a generator.
pub(crate) fn next_word(rng: &mut StdRng) -> (word: u64)
    ensures
        gave_word(*old(rng), *final(rng), word),
{
    let draw = noted_word;
    let (word, _after) = draw(rng);
    word
}

spec fn can_give_u8(before: StdRng, low: u8, high: u8, value: u8) -> bool {
    exists|source: &mut StdRng| *source == before && #[trigger] call_ensures(draw_u8, (source, low, high), value)
}

/// A draw, with the generator as it is then.
fn noted_u8(rng: &mut StdRng, low: u8, high: u8) -> (noted: (u8, Ghost<StdRng>))
    requires
        low <= high,
    ensures
        low <= noted.0 <= high,
        noted.1@ == *final(rng),
        can_give_u8(*old(rng), low, high, noted.0),
        exists|source: &mut StdRng|
            *source == *old(rng) && *final(source) == *final(rng) && #[trigger] call_ensures(draw_u8, (source, low, high), noted.0),
{
    let draw = draw_u8;
    let value: u8 = draw(rng, low, high);
    let noted: (u8, Ghost<StdRng>) = (value, Ghost(*rng));
    assert(noted.0 == value);
    noted
}

/// The same for a number from `low` to `high`.
pub closed spec fn gave_u8(before: StdRng, after: StdRng, low: u8, high: u8, value: u8) -> bool {
    &&& can_give_u8(before, low, high, value)
    &&& exists|source: &mut StdRng|
        *source == before && #[trigger] call_ensures(noted_u8, (source, low, high), (value, Ghost(after)))
}

pub(crate) fn next_u8(rng: &mut StdRng, low: u8, high: u8) -> (value: u8)
    requires
        low <= high,
    ensures
        low <= value <= high,
        gave_u8(*old(rng), *final(rng), low, high, value),
{
    let draw = noted_u8;
    let (value, _after) = draw(rng, low, high);
    value
}

spec fn can_give_i32(before: StdRng, low: i32, high: i32, value: i32) -> bool {
    exists|source: &mut StdRng| *source == before && #[trigger] call_ensures(draw_i32, (source, low, high), value)
}

/// A draw, with the generator as it is then.
fn noted_i32(rng: &mut StdRng, low: i32, high: i32) -> (noted: (i32, Ghost<StdRng>))
    requires
        low <= high,
    ensures
        low <= noted.0 <= high,
        noted.1@ == *final(rng),
        can_give_i32(*old(rng), low, high, noted.0),
        exists|source: &mut StdRng|
            *source == *old(rng) && *final(source) == *final(rng) && #[trigger] call_ensures(draw_i32, (source, low, high), noted.0),
{
    let draw = draw_i32;
    let value: i32 = draw(rng, low, high);
    let noted: (i32, Ghost<StdRng>) = (value, Ghost(*rng));
    assert(noted.0 == value);
    noted
}

/// The same for a number from `low` to `high`.
pub closed spec fn gave_i32(before: StdRng, after: StdRng, low: i32, high: i32, value: i32) -> bool {
    &&& can_give_i32(before, low, high, value)
    &&& exists|source: &mut StdRng|
        *source == before && #[trigger] call_ensures(noted_i32, (source, low, high), (value, Ghost(after)))
}

pub(crate) fn next_i32(rng: &mut StdRng, low: i32, high: i32) -> (value: i32)
    requires
        low <= high,
    ensures
        low <= value <= high,
        gave_i32(*old(rng), *final(rng), low, high, value),
{
    let draw = noted_i32;
    let (value, _after) = draw(rng, low, high);
    value
}

spec fn can_give_index(before: StdRng, low: usize, end: usize, value: usize) -> bool {
    exists|source: &mut StdRng| *source == before && #[trigger] call_ensures(draw_usize, (source, low, end), value)
}

/// A draw, with the generator as it is then.
fn noted_index(rng: &mut StdRng, low: usize, end: usize) -> (noted: (usize, Ghost<StdRng>))
    requires
        low < end,
    ensures
        low <= noted.0 < end,
        noted.1@ == *final(rng),
        can_give_index(*old(rng), low, end, noted.0),
        exists|source: &mut StdRng|
            *source == *old(rng) && *final(source) == *final(rng) && #[trigger] call_ensures(draw_usize, (source, low, end), noted.0),
{
    let draw = draw_usize;
    let value: usize = draw(rng, low, end);
    let noted: (usize, Ghost<StdRng>) = (value, Ghost(*rng));
    assert(noted.0 == value);
    noted
}

/// The same for a number from `low` on that is less than `end`.
pub closed spec fn gave_index(before: StdRng, after: StdRng, low: usize, end: usize, value: usize) -> bool {
    &&& can_give_index(before, low, end, value)
    &&& exists|source: &mut StdRng|
        *source == before && #[trigger] call_ensures(noted_index, (source, low, end), (value, Ghost(after)))
}

pub(crate) fn next_index(rng: &mut StdRng, low: usize, end: usize) -> (value: usize)
    requires
        low < end,
    ensures
        low <= value < end,
        gave_index(*old(rng), *final(rng), low, end, value),
{
    let draw = noted_index;
    let (value, _after) = draw(rng, low, end);
    value
}

spec fn can_give_coin(before: StdRng, heads: bool) -> bool {
    exists|source: &mut StdRng| *source == before && #[trigger] call_ensures(draw_coin, (source,), heads)
}

/// A draw, with the generator as it is then.
fn noted_coin(rng: &mut StdRng) -> (noted: (bool, Ghost<StdRng>))
    ensures
        noted.1@ == *final(rng),
        can_give_coin(*old(rng), noted.0),
        exists|source: &mut StdRng|
            *source == *old(rng) && *final(source) == *final(rng) && #[trigger] call_ensures(draw_coin, (source,), noted.0),
{
    let draw = draw_coin;
    let heads: bool = draw(rng);
    let noted: (bool, Ghost<StdRng>) = (heads, Ghost(*rng));
    assert(noted.0 == heads);
    noted
}

/// The same for the toss of a coin.
pub closed spec fn gave_coin(before: StdRng, after: StdRng, heads: bool) -> bool {
    &&& can_give_coin(before, heads)
    &&& exists|source: &mut StdRng|
        *source == before && #[trigger] call_ensures(noted_coin, (source,), (heads, Ghost(after)))
}

pub(crate) fn next_coin(rng: &mut StdRng) -> (heads: bool)
    ensures
        gave_coin(*old(rng), *final(rng), heads),
{
    let draw = noted_coin;
    let (heads, _after) = draw(rng);
    heads
}

/// Shuffled items, with the generator as it is then.
fn noted_order<T>(items: Vec<T>, rng: &mut StdRng) -> (noted: (Vec<T>, Ghost<StdRng>))
    ensures
        noted.0@.to_multiset() == items@.to_multiset(),
        noted.1@ == *final(rng),
        exists|list: &mut Vec<T>, source: &mut StdRng|
            *list == items && *final(list) == noted.0 && *source == *old(rng) && *final(source) == *final(rng)
                && #[trigger] call_ensures(shuffle::<T>, (list, source), ()),
{
    let mut items = items;
    let order = shuffle::<T>;
    order(&mut items, rng);
    (items, Ghost(*rng))
}

/// Whether generator `before` brings `items` into the order of `ordered`, and
/// is `after` then.
pub closed spec fn gave_order<T>(before: StdRng, after: StdRng, items: Seq<T>, ordered: Seq<T>) -> bool {
    exists|list: Vec<T>, source: &mut StdRng, found: Vec<T>|
        *source == before && list@ == items && found@ == ordered && #[trigger] call_ensures(
            noted_order::<T>,
            (list, source),
            (found, Ghost(after)),
        )
}

/// The items in random order.
pub(crate) fn reordered<T>(items: Vec<T>, rng: &mut StdRng) -> (ordered: Vec<T>)
    ensures
        ordered@.to_multiset() == items@.to_multiset(),
        gave_order(*old(rng), *final(rng), items@, ordered@),
{
    let order = noted_order::<T>;
    let (ordered, _after) = order(items, rng);
    ordered
}

/// A picked item, with the generator as it is then.
fn noted_item<T: Copy>(items: &[T], rng: &mut StdRng) -> (noted: (Option<T>, Ghost<StdRng>))
    ensures
        match noted.0 {
            Some(value) => items@.contains(value),
            None => items@.len() == 0,
        },
        noted.1@ == *final(rng),
        exists|source: &mut StdRng|
            *source == *old(rng) && *final(source) == *final(rng) && #[trigger] call_ensures(
                pick::<T>,
                (items, source),
                noted.0,
            ),
{
    let choose_item = pick::<T>;
    let item: Option<T> = choose_item(items, rng);
    (item, Ghost(*rng))
}

/// Whether generator `before` picks `item` out of `items`, and is `after`
/// then.
pub closed spec fn gave_item<T: Copy>(before: StdRng, after: StdRng, items: Seq<T>, item: Option<T>) -> bool {
    exists|list: &[T], source: &mut StdRng|
        list@ == items && *source == before && #[trigger] call_ensures(
            noted_item::<T>,
            (list, source),
            (item, Ghost(after)),
        ) && (exists|other: &mut StdRng| *other == before && #[trigger] call_ensures(pick::<T>, (list, other), item))
}

/// One of the items, and none if there are none.
pub(crate) fn next_item<T: Copy>(items: &[T], rng: &mut StdRng) -> (item: Option<T>)
    ensures
        match item {
            Some(value) => items@.contains(value),
            None => items@.len() == 0,
        },
        gave_item(*old(rng), *final(rng), items@, item),
{
    let choose_item = noted_item::<T>;
    let (item, _after) = choose_item(items, rng);
    item
}

/// A shuffled list holds what it held before.
pub(crate) proof fn lemma_shuffled<T>(before: Seq<T>, after: Seq<T>)
    requires
        before.to_multiset() == after.to_multiset(),
    ensures
        before.len() == after.len(),
        forall|x: T| before.contains(x) <==> after.contains(x),
        before.no_duplicates() ==> after.no_duplicates(),
{
    broadcast use vstd::seq_lib::group_to_multiset_ensures;
    assert(before.to_multiset().len() == before.len());
    assert(after.to_multiset().len() == after.len());
    assert forall|x: T| before.contains(x) <==> after.contains(x) by {
        assert(before.contains(x) <==> before.to_multiset().count(x) > 0);
        assert(after.contains(x) <==> after.to_multiset().count(x) > 0);
    }
    if before.no_duplicates() {
        before.lemma_multiset_has_no_duplicates();
        after.lemma_multiset_has_no_duplicates_conv();
    }
}

} // verus!
