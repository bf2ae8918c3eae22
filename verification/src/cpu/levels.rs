//! Assignment of nodes to layers.
use super::build_graph::entry_of;
use crate::utils::float::Real;
use vstd::prelude::*;

verus! {

/// The highest layer that a node can be assigned to.
pub const LAYER_LIMIT: u8 = 15;

/// The layer that a random word stands for. The upper 53 bits of the word are a number between zero
/// and one; its negative logarithm, in units of the logarithm of `m`, is rounded down.
pub open spec fn level_of<T: Real>(word: u64, m: usize) -> u8 {
    let uniform = T::of_unit_spec(word >> 11);
    let ml = T::one_spec().over_spec(T::of_size_spec(m).ln_spec());
    match uniform.ln_spec().neg_spec().times_spec(ml).floor_u8_spec() {
        Some(level) => if level < LAYER_LIMIT {
            level
        } else {
            LAYER_LIMIT
        },
        None => LAYER_LIMIT,
    }
}

/// The layers that random words stand for.
pub open spec fn levels_of<T: Real>(words: Seq<u64>, m: usize) -> Seq<u8> {
    Seq::new(words.len(), |i: int| level_of::<T>(words[i], m))
}

/// No node is assigned to a layer above the limit.
pub proof fn law_levels_limited<T: Real>(words: Seq<u64>, m: usize)
    ensures
        forall|i: int|
            0 <= i < words.len() ==> (#[trigger] levels_of::<T>(words, m)[i]) <= LAYER_LIMIT,
{
}

/// The layer of a word is the negative logarithm of the number that the upper 53 bits stand for,
/// divided by the logarithm of `m` and rounded down, and the limit where that is above it or is no
/// layer. The lower 11 bits of the word do not count.
pub proof fn law_level<T: Real>(word: u64, other: u64, m: usize)
    requires
        word >> 11 == other >> 11,
    ensures
        level_of::<T>(word, m) == level_of::<T>(other, m),
        ({
            let scaled = T::of_unit_spec(word >> 11).ln_spec().neg_spec().times_spec(
                T::one_spec().over_spec(T::of_size_spec(m).ln_spec()),
            );
            match scaled.floor_u8_spec() {
                Some(level) => level_of::<T>(word, m) <= level && (level <= 15 ==> level_of::<T>(
                    word,
                    m,
                ) == level) && (level > 15 ==> level_of::<T>(word, m) == 15),
                None => level_of::<T>(word, m) == 15,
            }
        }),
{
}

/// Every node gets the layer of its own word: more words do not change the layers of the first.
pub proof fn law_levels_by_word<T: Real>(words: Seq<u64>, more: Seq<u64>, m: usize)
    ensures
        levels_of::<T>(words, m).len() == words.len(),
        levels_of::<T>(words + more, m) == levels_of::<T>(words, m) + levels_of::<T>(more, m),
        forall|i: int|
            0 <= i < words.len() ==> #[trigger] levels_of::<T>(words, m)[i] == level_of::<T>(
                words[i],
                m,
            ),
{
    assert(levels_of::<T>(words + more, m) =~= levels_of::<T>(words, m) + levels_of::<T>(more, m));
}

/// A node counts for a layer if and only if its own layer is not below.
pub proof fn law_standing(levels: Seq<u8>, level: u8, layer: u8)
    ensures
        standing(Seq::<u8>::empty(), layer) == 0,
        standing(levels.push(level), layer) == standing(levels, layer) + if level >= layer {
            1int
        } else {
            0int
        },
{
    assert(levels.push(level).drop_last() =~= levels);
}

/// Assign a layer to every node.
pub fn assign_levels<T: Real>(words: &[u64], m: usize) -> (r: Vec<u8>)
    ensures
        r@ == levels_of::<T>(words@, m),
{
    let ml: T = T::one().over(T::of_size(m).ln());
    let mut levels: Vec<u8> = Vec::new();
    let mut i: usize = 0;
    while i < words.len()
        invariant
            i <= words@.len(),
            ml == T::one_spec().over_spec(T::of_size_spec(m).ln_spec()),
            levels@ == levels_of::<T>(words@, m).take(i as int),
        decreases words.len() - i,
    {
        let uniform: T = T::of_unit(words[i] >> 11);
        let level: u8 = match uniform.ln().neg().times(ml).floor_u8() {
            Some(level) => if level < LAYER_LIMIT {
                level
            } else {
                LAYER_LIMIT
            },
            None => LAYER_LIMIT,
        };
        levels.push(level);
        proof {
            assert(levels@ =~= levels_of::<T>(words@, m).take(i + 1));
        }
        i += 1;
    }
    assert(levels@ =~= levels_of::<T>(words@, m));
    levels
}

/// The highest layer and the first node that stands in it; layer and node zero where there are no
/// nodes.
pub fn find_entry(levels: &[u8]) -> (r: (u8, usize))
    ensures
        levels@.len() > 0 ==> entry_of(levels@, r.0, r.1),
        levels@.len() > 0 ==> r.1 < levels@.len() && levels@[r.1 as int] == r.0,
        forall|v: int| 0 <= v < levels@.len() ==> (#[trigger] levels@[v]) <= r.0,
        forall|v: int| 0 <= v < r.1 ==> (#[trigger] levels@[v]) < r.0,
        levels@.len() == 0 ==> r.0 == 0 && r.1 == 0,
{
    let mut max_layer: u8 = 0;
    let mut entry: usize = 0;
    let mut i: usize = 0;
    while i < levels.len()
        invariant
            i <= levels@.len(),
            i == 0 ==> max_layer == 0 && entry == 0,
            i > 0 ==> entry < i && levels@[entry as int] == max_layer,
            forall|v: int| 0 <= v < i ==> (#[trigger] levels@[v]) <= max_layer,
            forall|v: int| 0 <= v < entry ==> (#[trigger] levels@[v]) < max_layer,
        decreases levels.len() - i,
    {
        if i == 0 || levels[i] > max_layer {
            max_layer = levels[i];
            entry = i;
        }
        i += 1;
    }
    (max_layer, entry)
}

/// How many nodes stand in a layer.
pub open spec fn standing(levels: Seq<u8>, layer: u8) -> nat
    decreases levels.len(),
{
    if levels.len() == 0 {
        0
    } else {
        standing(levels.drop_last(), layer) + if levels.last() >= layer {
            1nat
        } else {
            0nat
        }
    }
}

/// No layer holds more nodes than a layer below it, and all nodes stand in the base layer.
pub proof fn law_layers_shrink(levels: Seq<u8>, low: u8, high: u8)
    requires
        low <= high,
    ensures
        standing(levels, high) <= standing(levels, low),
        standing(levels, 0) == levels.len(),
    decreases levels.len(),
{
    if levels.len() > 0 {
        law_layers_shrink(levels.drop_last(), low, high);
    }
}

/// Count the nodes that stand in a layer.
pub fn nodes_in_layer(levels: &[u8], layer: u8) -> (r: usize)
    ensures
        r == standing(levels@, layer),
{
    let mut count: usize = 0;
    let mut i: usize = 0;
    assert(levels@.take(0) =~= Seq::<u8>::empty());
    while i < levels.len()
        invariant
            i <= levels@.len(),
            count <= i,
            count == standing(levels@.take(i as int), layer),
        decreases levels.len() - i,
    {
        assert(levels@.take(i + 1).drop_last() =~= levels@.take(i as int));
        if levels[i] >= layer {
            count += 1;
        }
        i += 1;
    }
    assert(levels@.take(i as int) =~= levels@);
    count
}

} // verus!
