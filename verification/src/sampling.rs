//! Drawing a character from a frequency distribution.

use vstd::prelude::*;
use ordered_hash_map::OrderedHashMap;
use rand::Rng;
use crate::error::MarkovError;
use crate::ordered_map::{distribution, entries, map_entries, weighted};

verus! {

/// A draw is a fraction of this denominator: a number `d` below it stands
/// for the real number `d / RESOLUTION`, which lies in the interval from 0
/// to 1, 1 left out.
pub const RESOLUTION: u64 = 9007199254740992;

/// Dividing 64 random bits by this leaves their highest 53 bits.
pub const DISCARDED: u64 = 2048;

/// The sum of the weights of the first `n` entries.
pub open spec fn cumulative(dist: Seq<(char, nat)>, n: int) -> nat
    decreases n,
{
    if n <= 0 {
        0
    } else {
        cumulative(dist, n - 1) + dist[n - 1].1
    }
}

/// The sum of all weights.
pub open spec fn total_weight(dist: Seq<(char, nat)>) -> nat {
    cumulative(dist, dist.len() as int)
}

/// Whether the entries up to and including the one at `i` together hold a
/// share of the total weight that is greater than the draw:
/// `cumulative / total > draw / RESOLUTION`, stated without division.
pub open spec fn exceeds(dist: Seq<(char, nat)>, i: int, draw: nat) -> bool {
    cumulative(dist, i + 1) * RESOLUTION > draw * total_weight(dist)
}

/// Whether a draw selects the entry at `i`: it is the first entry up to
/// which the cumulative share exceeds the draw, or the last entry where
/// there is no such entry.
pub open spec fn selects(dist: Seq<(char, nat)>, draw: nat, i: int) -> bool {
    &&& 0 <= i < dist.len()
    &&& exceeds(dist, i, draw) || i == dist.len() - 1
    &&& forall|j: int| 0 <= j < i ==> !#[trigger] exceeds(dist, j, draw)
}

/// Whether a draw gives the key `key`.
pub open spec fn draws(dist: Seq<(char, nat)>, draw: nat, key: char) -> bool {
    exists|i: int| selects(dist, draw, i) && (#[trigger] dist[i]).0 == key
}

/// Whether some draw gives the key `key`.
pub open spec fn can_draw(dist: Seq<(char, nat)>, key: char) -> bool {
    exists|draw: nat| draw < RESOLUTION && #[trigger] draws(dist, draw, key)
}

/// The draw that 64 random bits stand for: their highest 53 bits.
pub open spec fn draw_of(bits: u64) -> nat {
    (bits / DISCARDED) as nat
}

/// A draw selects at most one entry.
pub proof fn lemma_selects_unique(dist: Seq<(char, nat)>, draw: nat, i: int, j: int)
    requires
        selects(dist, draw, i),
        selects(dist, draw, j),
    ensures
        i == j,
{
}

/// The cumulative weight grows with the number of entries counted.
pub proof fn lemma_cumulative_monotonic(dist: Seq<(char, nat)>, m: int, n: int)
    requires
        0 <= m <= n,
    ensures
        cumulative(dist, m) <= cumulative(dist, n),
    decreases n - m,
{
    if m < n {
        lemma_cumulative_monotonic(dist, m, n - 1);
    }
}

/// Where some weight is positive, a draw never selects an entry of weight
/// zero, and it never falls through to the last entry for want of another.
pub proof fn lemma_selected_has_weight(dist: Seq<(char, nat)>, draw: nat, i: int)
    requires
        selects(dist, draw, i),
        draw < RESOLUTION,
        total_weight(dist) > 0,
    ensures
        dist[i].1 > 0,
        exceeds(dist, i, draw),
{
    let total = total_weight(dist);
    let n = dist.len() as int;
    assert(exceeds(dist, n - 1, draw)) by (nonlinear_arith)
        requires
            draw < RESOLUTION,
            total > 0,
            cumulative(dist, n) == total,
            exceeds(dist, n - 1, draw) == (cumulative(dist, n) * RESOLUTION > draw * total),
    ;
    if i > 0 {
        assert(!exceeds(dist, i - 1, draw));
        if dist[i].1 == 0 {
            assert(cumulative(dist, i + 1) == cumulative(dist, i));
        }
    } else {
        assert(cumulative(dist, 0) == 0);
        if dist[0].1 == 0 {
            assert(cumulative(dist, 1) == 0);
            assert(0 * RESOLUTION == 0);
            assert(draw * total >= 0) by (nonlinear_arith)
                requires
                    draw >= 0,
                    total >= 0,
            ;
        }
    }
}

/// A distribution of one entry gives that entry, whatever the draw.
pub proof fn lemma_single_entry(dist: Seq<(char, nat)>, draw: nat, key: char)
    requires
        dist.len() == 1,
    ensures
        draws(dist, draw, key) <==> key == dist[0].0,
{
    if key == dist[0].0 {
        assert(selects(dist, draw, 0));
    }
}

/// Calls `rand::rng()` for the thread's generator and `Rng::sample` with
/// `StandardUniform` on it, which for a `u64` gives 64 random bits. Nothing
/// is claimed of them.
#[verifier::external_body]
fn random_bits() -> u64 {
    rand::rng().sample(rand::distr::StandardUniform)
}

/// The sum of the weights of a list of entries.
fn sum_weights(list: &Vec<(char, u32)>) -> (total: u128)
    ensures
        total == total_weight(weighted(list@)),
        total <= usize::MAX * u32::MAX,
{
    let ghost dist = weighted(list@);
    let mut total: u128 = 0;
    let mut i: usize = 0;
    while i < list.len()
        invariant
            i <= list.len(),
            dist == weighted(list@),
            total == cumulative(dist, i as int),
            total <= i * u32::MAX,
        decreases list.len() - i,
    {
        assert(i * u32::MAX + u32::MAX <= usize::MAX * u32::MAX) by (nonlinear_arith)
            requires
                i < usize::MAX,
        ;
        total = total + list[i].1 as u128;
        i += 1;
        assert(total <= i * u32::MAX) by (nonlinear_arith)
            requires
                total <= (i - 1) * u32::MAX + u32::MAX,
        ;
    }
    assert(i * u32::MAX <= usize::MAX * u32::MAX) by (nonlinear_arith)
        requires
            i <= usize::MAX,
    ;
    total
}

/// The greatest cumulative weight that does not exceed the draw:
/// `draw * total / RESOLUTION`, rounded down.
fn threshold(draw: u64, total: u128) -> (limit: u128)
    requires
        draw < RESOLUTION,
        total <= usize::MAX * u32::MAX,
    ensures
        limit == (draw * total) / (RESOLUTION as int),
{
    let high: u128 = total / (RESOLUTION as u128);
    let low: u128 = total % (RESOLUTION as u128);
    assert(usize::MAX * u32::MAX < 0x1_0000_0000_0000_0000_0000_0000) by (nonlinear_arith)
        requires
            usize::MAX <= 0xffff_ffff_ffff_ffff,
            u32::MAX == 0xffff_ffff,
    ;
    assert(total < 0x1_0000_0000_0000_0000_0000_0000);
    assert(RESOLUTION == 0x20_0000_0000_0000);
    assert(high * RESOLUTION <= total);
    assert(high <= 0x800_0000_0000);
    assert(draw * high <= 0x20_0000_0000_0000 * 0x800_0000_0000) by (nonlinear_arith)
        requires
            draw <= 0x20_0000_0000_0000,
            high <= 0x800_0000_0000,
    ;
    assert(draw * low <= 0x20_0000_0000_0000 * 0x20_0000_0000_0000) by (nonlinear_arith)
        requires
            draw <= 0x20_0000_0000_0000,
            low <= 0x20_0000_0000_0000,
    ;
    let whole: u128 = draw as u128 * high;
    let part: u128 = draw as u128 * low;
    assert(draw * total == whole * RESOLUTION + part) by (nonlinear_arith)
        requires
            total == high * RESOLUTION + low,
            whole == draw * high,
            part == draw * low,
    ;
    whole + part / (RESOLUTION as u128)
}

/// Choose a key of a distribution by 64 given bits.
///
/// The highest 53 bits are read as a fraction `u` of one. The entries are
/// taken in their order, and the first one up to which the cumulative share
/// of the total weight is greater than `u` gives the key. Where there is no
/// such entry, which happens only if every weight is zero, the last entry
/// gives it.
pub fn sample_with(map: &OrderedHashMap<char, u32>, bits: u64) -> (res: Result<char, MarkovError>)
    ensures
        match res {
            Ok(key) => distribution(*map).len() > 0 && draws(
                distribution(*map),
                draw_of(bits),
                key,
            ),
            Err(e) => distribution(*map).len() == 0 && e == MarkovError::EmptyDistribution,
        },
{
    let list = map_entries(map);
    if list.len() == 0 {
        return Err(MarkovError::EmptyDistribution);
    }
    let ghost dist = distribution(*map);
    let draw: u64 = bits / DISCARDED;
    let total = sum_weights(&list);
    let limit = threshold(draw, total);
    let ghost product = draw * total;
    let mut running: u128 = 0;
    let mut i: usize = 0;
    while i < list.len()
        invariant
            i <= list.len(),
            list.len() > 0,
            list@ == entries(*map),
            dist == distribution(*map),
            running == cumulative(dist, i as int),
            total == total_weight(dist),
            product == draw * total,
            draw == draw_of(bits),
            limit == product / (RESOLUTION as int),
            forall|j: int| 0 <= j < i ==> !#[trigger] exceeds(dist, j, draw as nat),
        decreases list.len() - i,
    {
        proof {
            lemma_cumulative_monotonic(dist, i + 1, list.len() as int);
        }
        running = running + list[i].1 as u128;
        assert(exceeds(dist, i as int, draw as nat) == (running > limit));
        if running > limit {
            assert(selects(dist, draw as nat, i as int));
            assert(dist[i as int].0 == list[i as int].0);
            return Ok(list[i].0);
        }
        i += 1;
    }
    assert(selects(dist, draw as nat, list.len() - 1));
    assert(dist[list.len() - 1].0 == list[list.len() - 1].0);
    Ok(list[list.len() - 1].0)
}

/// Sample a key of a distribution, each with a chance in proportion to its
/// weight.
///
/// An empty distribution is an error. A single entry is returned without a
/// random draw. Otherwise 64 random bits decide, as `sample_with` says.
pub fn sample_map(map: OrderedHashMap<char, u32>) -> (res: Result<char, MarkovError>)
    ensures
        match res {
            Ok(key) => distribution(map).len() > 0 && can_draw(distribution(map), key),
            Err(e) => distribution(map).len() == 0 && e == MarkovError::EmptyDistribution,
        },
        distribution(map).len() == 1 ==> res == Ok::<char, MarkovError>(distribution(map)[0].0),
{
    let list = map_entries(&map);
    if list.len() == 0 {
        return Err(MarkovError::EmptyDistribution);
    }
    if list.len() == 1 {
        let key = list[0].0;
        proof {
            assert(distribution(map)[0].0 == key);
            lemma_single_entry(distribution(map), 0, key);
            assert(0 < RESOLUTION);
        }
        return Ok(key);
    }
    let bits = random_bits();
    let res = sample_with(&map, bits);
    assert(draw_of(bits) < RESOLUTION);
    assert(res matches Ok(key) && draws(distribution(map), draw_of(bits), key));
    res
}

} // verus!
