//! How close words stand to each other.
use crate::bytes::{lemma_lex_asymmetric, lemma_lex_irreflexive, lex_lt, to_bytes};
use crate::words_positions::{words_in_order, WordsPositions, MAX_POSITION};
use vstd::prelude::*;

verus! {

/// The proximity of positions that are too far apart to matter, or in different fields.
pub const MAX_DISTANCE: u32 = 8;

/// The distance from one position to another, at most `MAX_DISTANCE`. Going backwards costs one
/// more, and no position of another field is near.
pub open spec fn proximity(lhs: u32, rhs: u32) -> int {
    let distance = if lhs <= rhs {
        rhs - lhs
    } else {
        lhs - rhs + 1
    };
    if lhs as int / MAX_POSITION as int != rhs as int / MAX_POSITION as int || distance
        > MAX_DISTANCE {
        MAX_DISTANCE as int
    } else {
        distance
    }
}

/// The proximity of two positions.
pub fn positions_proximity(lhs: u32, rhs: u32) -> (prox: u32)
    ensures
        prox == proximity(lhs, rhs),
{
    if lhs / MAX_POSITION as u32 != rhs / MAX_POSITION as u32 {
        MAX_DISTANCE
    } else if lhs <= rhs {
        if rhs - lhs > MAX_DISTANCE {
            MAX_DISTANCE
        } else {
            rhs - lhs
        }
    } else if lhs - rhs >= MAX_DISTANCE {
        MAX_DISTANCE
    } else {
        lhs - rhs + 1
    }
}

/// Whether a proximity is that of words close to each other: not at the same position, and not
/// too far apart.
pub open spec fn is_close(prox: int) -> bool {
    1 <= prox <= 7
}

/// Whether `prox` is the shortest proximity between 1 and 7 from a position in `from` to one in
/// `to`.
pub open spec fn is_closest(prox: int, from: Seq<u32>, to: Seq<u32>) -> bool {
    &&& is_close(prox)
    &&& exists|i: int, j: int|
        0 <= i < from.len() && 0 <= j < to.len() && #[trigger] proximity(from[i], to[j]) == prox
    &&& forall|i: int, j: int|
        0 <= i < from.len() && 0 <= j < to.len() && is_close(#[trigger] proximity(from[i], to[j]))
            ==> prox <= proximity(from[i], to[j])
}

/// Whether some position in `to` is close to one in `from`.
pub open spec fn has_close(from: Seq<u32>, to: Seq<u32>) -> bool {
    exists|i: int, j: int|
        0 <= i < from.len() && 0 <= j < to.len() && is_close(#[trigger] proximity(from[i], to[j]))
}

/// Two words that occur close to each other, in this order, and their shortest proximity.
pub struct PairProximity {
    pub first: Vec<u8>,
    pub second: Vec<u8>,
    pub proximity: u8,
}

impl View for PairProximity {
    type V = (Seq<u8>, Seq<u8>, u8);

    open spec fn view(&self) -> (Seq<u8>, Seq<u8>, u8) {
        (self.first@, self.second@, self.proximity)
    }
}

/// Pairs as words and proximities.
pub open spec fn pair_views(pairs: Seq<PairProximity>) -> Seq<(Seq<u8>, Seq<u8>, u8)> {
    pairs.map_values(|pair: PairProximity| pair@)
}

/// Whether a pair of words is below another: its first word is below, or is the same and its
/// second word is below.
pub open spec fn pair_lt(a: (Seq<u8>, Seq<u8>, u8), b: (Seq<u8>, Seq<u8>, u8)) -> bool {
    lex_lt(a.0, b.0) || a.0 == b.0 && lex_lt(a.1, b.1)
}

/// Whether the pair of the words at two places has the proximity of their closest positions.
pub open spec fn pair_is_of(
    pair: (Seq<u8>, Seq<u8>, u8),
    words: Seq<(Seq<u8>, Seq<u32>)>,
    i: int,
    j: int,
) -> bool {
    &&& pair.0 == words[i].0
    &&& pair.1 == words[j].0
    &&& is_closest(pair.2 as int, words[i].1, words[j].1)
}

/// Whether a pair is one of two of the words, with the proximity of their closest positions.
pub open spec fn is_close_pair(
    pair: (Seq<u8>, Seq<u8>, u8),
    words: Seq<(Seq<u8>, Seq<u32>)>,
) -> bool {
    exists|i: int, j: int|
        0 <= i < words.len() && 0 <= j < words.len() && pair_is_of(pair, words, i, j)
}

/// Whether pairs are those of the words that occur close to each other: each pair once, in order,
/// with its shortest proximity.
pub open spec fn are_close_pairs(
    pairs: Seq<(Seq<u8>, Seq<u8>, u8)>,
    words: Seq<(Seq<u8>, Seq<u32>)>,
) -> bool {
    &&& forall|k: int| 0 <= k < pairs.len() ==> is_close_pair(#[trigger] pairs[k], words)
    &&& forall|i: int, j: int|
        0 <= i < words.len() && 0 <= j < words.len() && #[trigger] has_close(
            words[i].1,
            words[j].1,
        ) ==> exists|k: int| 0 <= k < pairs.len() && #[trigger] pair_is_of(pairs[k], words, i, j)
    &&& forall|k: int, l: int|
        0 <= k < l < pairs.len() ==> pair_lt(#[trigger] pairs[k], #[trigger] pairs[l])
}

/// The shortest proximity between 1 and 7 from a position in `from` to one in `to`.
pub fn closest_proximity(from: &Vec<u32>, to: &Vec<u32>) -> (min_prox: Option<u8>)
    ensures
        match min_prox {
            Some(prox) => is_closest(prox as int, from@, to@),
            None => !has_close(from@, to@),
        },
{
    let mut min_prox: Option<u8> = None;
    let mut i: usize = 0;
    while i < from.len()
        invariant
            i <= from@.len(),
            closest_among(min_prox, from@, to@, i as int, 0),
        decreases from@.len() - i,
    {
        let mut j: usize = 0;
        while j < to.len()
            invariant
                i < from@.len(),
                j <= to@.len(),
                closest_among(min_prox, from@, to@, i as int, j as int),
            decreases to@.len() - j,
        {
            let prox = positions_proximity(from[i], to[j]) as u8;
            // A word at the same position, or too far from the other, does not matter.
            if prox >= 1 && prox <= 7 {
                let closer = match min_prox {
                    None => true,
                    Some(min) => prox < min,
                };
                if closer {
                    assert(seen_before(i as int, j as int, i as int, j + 1));
                    min_prox = Some(prox);
                }
            }
            j += 1;
        }
        i += 1;
    }
    proof {
        if let Some(prox) = min_prox {
            assert forall|k: int, l: int|
                0 <= k < from@.len() && 0 <= l < to@.len() && is_close(
                    #[trigger] proximity(from@[k], to@[l]),
                ) implies prox <= proximity(from@[k], to@[l]) by {
                assert(seen_before(k, l, i as int, 0));
            }
        } else {
            assert forall|k: int, l: int| 0 <= k < from@.len() && 0 <= l < to@.len() implies !is_close(
                #[trigger] proximity(from@[k], to@[l]),
            ) by {
                assert(seen_before(k, l, i as int, 0));
            }
        }
    }
    min_prox
}

/// Whether the positions at `k` and `l` are compared before those at `i` and `j`.
spec fn seen_before(k: int, l: int, i: int, j: int) -> bool {
    k < i || k == i && l < j
}

/// Whether a proximity is the shortest one, of 1 to 7, among the positions compared before those
/// at `i` and `j`.
spec fn closest_among(min_prox: Option<u8>, from: Seq<u32>, to: Seq<u32>, i: int, j: int) -> bool {
    match min_prox {
        Some(prox) => {
            &&& is_close(prox as int)
            &&& exists|k: int, l: int|
                0 <= k < from.len() && 0 <= l < to.len() && #[trigger] proximity(from[k], to[l])
                    == prox
            &&& forall|k: int, l: int|
                0 <= k < from.len() && 0 <= l < to.len() && seen_before(k, l, i, j) && is_close(
                    #[trigger] proximity(from[k], to[l]),
                ) ==> prox <= proximity(from[k], to[l])
        },
        None => forall|k: int, l: int|
            0 <= k < from.len() && 0 <= l < to.len() && seen_before(k, l, i, j) ==> !is_close(
                #[trigger] proximity(from[k], to[l]),
            ),
    }
}

/// Lists all pairs of words of a document with the shortest proximity between 1 and 7, in which
/// the engine looks up the documents that contain words close to each other.
pub fn compute_words_pair_proximities(words: &WordsPositions) -> (pairs: Vec<PairProximity>)
    requires
        words.wf(),
    ensures
        are_close_pairs(pair_views(pairs@), words@),
{
    let mut pairs: Vec<PairProximity> = Vec::new();
    let count = words.len();
    let mut i: usize = 0;
    while i < count
        invariant
            i <= count,
            count == words@.len(),
            words.wf(),
            close_pairs_before(pair_views(pairs@), words@, i as int, 0),
        decreases count - i,
    {
        let mut j: usize = 0;
        while j < count
            invariant
                i < count,
                j <= count,
                count == words@.len(),
                words.wf(),
                close_pairs_before(pair_views(pairs@), words@, i as int, j as int),
            decreases count - j,
        {
            let from = words.get(i);
            let to = words.get(j);
            match closest_proximity(&from.positions, &to.positions) {
                Some(min_prox) => {
                    let ghost before = pair_views(pairs@);
                    let pair = PairProximity {
                        first: to_bytes(from.word.as_slice()),
                        second: to_bytes(to.word.as_slice()),
                        proximity: min_prox,
                    };
                    proof {
                        lemma_push_pair(before, words@, i as int, j as int, pair@);
                    }
                    pairs.push(pair);
                    assert(pair_views(pairs@) =~= before.push(pair@));
                },
                None => {
                    proof {
                        lemma_skip_pair(pair_views(pairs@), words@, i as int, j as int);
                    }
                },
            }
            j += 1;
        }
        i += 1;
    }
    proof {
        assert forall|k: int, l: int|
            0 <= k < words@.len() && 0 <= l < words@.len() && #[trigger] has_close(
                words@[k].1,
                words@[l].1,
            ) implies exists|n: int|
            0 <= n < pairs@.len() && #[trigger] pair_is_of(pair_views(pairs@)[n], words@, k, l) by {
            assert(seen_before(k, l, i as int, 0));
        }
    }
    pairs
}

/// Whether a pair is one of the words at two places before `i` and `j`.
spec fn is_close_pair_before(
    pair: (Seq<u8>, Seq<u8>, u8),
    words: Seq<(Seq<u8>, Seq<u32>)>,
    i: int,
    j: int,
) -> bool {
    exists|k: int, l: int|
        0 <= k < words.len() && 0 <= l < words.len() && seen_before(k, l, i, j)
            && #[trigger] pair_is_of(pair, words, k, l)
}

/// Whether pairs are those of the words close to each other among the pairs of places before `i`
/// and `j`.
spec fn close_pairs_before(
    pairs: Seq<(Seq<u8>, Seq<u8>, u8)>,
    words: Seq<(Seq<u8>, Seq<u32>)>,
    i: int,
    j: int,
) -> bool {
    &&& forall|n: int|
        0 <= n < pairs.len() ==> is_close_pair_before(#[trigger] pairs[n], words, i, j)
    &&& forall|k: int, l: int|
        0 <= k < words.len() && 0 <= l < words.len() && seen_before(k, l, i, j)
            && #[trigger] has_close(words[k].1, words[l].1) ==> exists|n: int|
            0 <= n < pairs.len() && #[trigger] pair_is_of(pairs[n], words, k, l)
    &&& forall|m: int, n: int|
        0 <= m < n < pairs.len() ==> pair_lt(#[trigger] pairs[m], #[trigger] pairs[n])
}

/// One more pair after those of the places before it.
proof fn lemma_push_pair(
    pairs: Seq<(Seq<u8>, Seq<u8>, u8)>,
    words: Seq<(Seq<u8>, Seq<u32>)>,
    i: int,
    j: int,
    pair: (Seq<u8>, Seq<u8>, u8),
)
    requires
        0 <= i < words.len(),
        0 <= j < words.len(),
        words_in_order(words),
        close_pairs_before(pairs, words, i, j),
        pair_is_of(pair, words, i, j),
    ensures
        close_pairs_before(pairs.push(pair), words, i, j + 1),
{
    let after = pairs.push(pair);
    assert forall|n: int| 0 <= n < after.len() implies is_close_pair_before(
        #[trigger] after[n],
        words,
        i,
        j + 1,
    ) by {
        if n < pairs.len() {
            assert(is_close_pair_before(pairs[n], words, i, j));
            let (k, l) = choose|k: int, l: int|
                0 <= k < words.len() && 0 <= l < words.len() && seen_before(k, l, i, j)
                    && #[trigger] pair_is_of(pairs[n], words, k, l);
            assert(pair_is_of(after[n], words, k, l));
        } else {
            assert(seen_before(i, j, i, j + 1));
            assert(pair_is_of(after[n], words, i, j));
        }
    }
    assert forall|k: int, l: int|
        0 <= k < words.len() && 0 <= l < words.len() && seen_before(k, l, i, j + 1)
            && #[trigger] has_close(words[k].1, words[l].1) implies exists|n: int|
        0 <= n < after.len() && #[trigger] pair_is_of(after[n], words, k, l) by {
        if k == i && l == j {
            assert(pair_is_of(after[pairs.len() as int], words, k, l));
        } else {
            let n = choose|n: int|
                0 <= n < pairs.len() && #[trigger] pair_is_of(pairs[n], words, k, l);
            assert(pair_is_of(after[n], words, k, l));
        }
    }
    assert forall|m: int, n: int| 0 <= m < n < after.len() implies pair_lt(
        #[trigger] after[m],
        #[trigger] after[n],
    ) by {
        if n == pairs.len() {
            assert(is_close_pair_before(pairs[m], words, i, j));
            let (k, l) = choose|k: int, l: int|
                0 <= k < words.len() && 0 <= l < words.len() && seen_before(k, l, i, j)
                    && #[trigger] pair_is_of(pairs[m], words, k, l);
            if k < i {
                assert(lex_lt(words[k].0, words[i].0));
            } else {
                assert(lex_lt(words[l].0, words[j].0));
            }
        } else {
            assert(pair_lt(pairs[m], pairs[n]));
        }
    }
}

/// The pairs of the words that occur close to each other.
pub open spec fn close_pairs(words: Seq<(Seq<u8>, Seq<u32>)>) -> Seq<(Seq<u8>, Seq<u8>, u8)> {
    choose|pairs: Seq<(Seq<u8>, Seq<u8>, u8)>| are_close_pairs(pairs, words)
}

/// Whether pairs are in order, each once.
spec fn pairs_in_order(pairs: Seq<(Seq<u8>, Seq<u8>, u8)>) -> bool {
    forall|k: int, l: int|
        0 <= k < l < pairs.len() ==> pair_lt(#[trigger] pairs[k], #[trigger] pairs[l])
}

/// The last of pairs in order is above the others.
proof fn lemma_last_pair(pairs: Seq<(Seq<u8>, Seq<u8>, u8)>, pair: (Seq<u8>, Seq<u8>, u8))
    requires
        pairs_in_order(pairs),
        pairs.len() > 0,
    ensures
        pairs.contains(pair) ==> pair == pairs.last() || pair_lt(pair, pairs.last()),
        pairs.drop_last().contains(pair) <==> pairs.contains(pair) && pair != pairs.last(),
{
    let rest = pairs.drop_last();
    let last = pairs.len() - 1;
    if pairs.contains(pair) {
        let i = choose|i: int| 0 <= i < pairs.len() && pairs[i] == pair;
        if i < last {
            assert(pair_lt(pairs[i], pairs[last]));
            assert(rest[i] == pair);
        }
    }
    if rest.contains(pair) {
        let i = choose|i: int| 0 <= i < rest.len() && rest[i] == pair;
        assert(pairs[i] == pair);
        assert(pair_lt(pairs[i], pairs[last]));
        lemma_lex_irreflexive(pair.0);
        lemma_lex_irreflexive(pair.1);
    }
}

/// The same pairs in order are the same list.
proof fn lemma_pairs_in_order_unique(
    a: Seq<(Seq<u8>, Seq<u8>, u8)>,
    b: Seq<(Seq<u8>, Seq<u8>, u8)>,
)
    requires
        pairs_in_order(a),
        pairs_in_order(b),
        forall|pair: (Seq<u8>, Seq<u8>, u8)| #[trigger] a.contains(pair) <==> b.contains(pair),
    ensures
        a == b,
    decreases a.len(),
{
    if a.len() == 0 {
        if b.len() > 0 {
            assert(b.contains(b[0]));
            assert(a.contains(b[0]));
        }
        assert(a =~= b);
    } else {
        let last = a.last();
        assert(a.contains(last));
        assert(b.contains(last));
        let top = b.last();
        assert(b.contains(top));
        assert(a.contains(top));
        lemma_last_pair(a, top);
        lemma_last_pair(b, last);
        if last != top {
            lemma_pair_asymmetric(last, top);
        }
        let c = a.drop_last();
        let d = b.drop_last();
        assert forall|pair: (Seq<u8>, Seq<u8>, u8)| #[trigger]
            c.contains(pair) <==> d.contains(pair) by {
            lemma_last_pair(a, pair);
            lemma_last_pair(b, pair);
            assert(a.contains(pair) <==> b.contains(pair));
        }
        lemma_pairs_in_order_unique(c, d);
        assert(a =~= c.push(last));
        assert(b =~= d.push(last));
    }
}

/// Two pairs are never each below the other.
proof fn lemma_pair_asymmetric(a: (Seq<u8>, Seq<u8>, u8), b: (Seq<u8>, Seq<u8>, u8))
    requires
        pair_lt(a, b),
    ensures
        !pair_lt(b, a),
{
    lemma_lex_irreflexive(a.0);
    if lex_lt(a.0, b.0) {
        lemma_lex_asymmetric(a.0, b.0);
    } else {
        lemma_lex_asymmetric(a.1, b.1);
    }
}

/// Positions have one shortest proximity.
pub proof fn lemma_closest_unique(a: u8, b: u8, from: Seq<u32>, to: Seq<u32>)
    requires
        is_closest(a as int, from, to),
        is_closest(b as int, from, to),
    ensures
        a == b,
{
    let (p, q) = choose|p: int, q: int|
        0 <= p < from.len() && 0 <= q < to.len() && #[trigger] proximity(from[p], to[q])
            == a as int;
    let (r, s) = choose|r: int, s: int|
        0 <= r < from.len() && 0 <= s < to.len() && #[trigger] proximity(from[r], to[s])
            == b as int;
    assert(is_close(proximity(from[p], to[q])));
    assert(is_close(proximity(from[r], to[s])));
}

/// A pair that one list has of the words, another has too.
proof fn lemma_pairs_shared(
    a: Seq<(Seq<u8>, Seq<u8>, u8)>,
    b: Seq<(Seq<u8>, Seq<u8>, u8)>,
    words: Seq<(Seq<u8>, Seq<u32>)>,
    pair: (Seq<u8>, Seq<u8>, u8),
)
    requires
        are_close_pairs(a, words),
        are_close_pairs(b, words),
        a.contains(pair),
    ensures
        b.contains(pair),
{
    let k = choose|k: int| 0 <= k < a.len() && a[k] == pair;
    assert(is_close_pair(a[k], words));
    let (i, j) = choose|i: int, j: int|
        0 <= i < words.len() && 0 <= j < words.len() && pair_is_of(pair, words, i, j);
    let from = words[i].1;
    let to = words[j].1;
    assert(has_close(from, to));
    let l = choose|l: int| 0 <= l < b.len() && #[trigger] pair_is_of(b[l], words, i, j);
    lemma_closest_unique(pair.2, b[l].2, from, to);
    assert(b[l] == pair);
}

/// Words have one list of pairs that are close to each other.
pub proof fn lemma_close_pairs_unique(
    a: Seq<(Seq<u8>, Seq<u8>, u8)>,
    b: Seq<(Seq<u8>, Seq<u8>, u8)>,
    words: Seq<(Seq<u8>, Seq<u32>)>,
)
    requires
        are_close_pairs(a, words),
        are_close_pairs(b, words),
    ensures
        a == b,
{
    assert forall|pair: (Seq<u8>, Seq<u8>, u8)| #[trigger] a.contains(pair) <==> b.contains(
        pair,
    ) by {
        if a.contains(pair) {
            lemma_pairs_shared(a, b, words, pair);
        }
        if b.contains(pair) {
            lemma_pairs_shared(b, a, words, pair);
        }
    }
    lemma_pairs_in_order_unique(a, b);
}

/// Where positions are close to each other, there is a shortest proximity.
proof fn lemma_closest_from(from: Seq<u32>, to: Seq<u32>, least: u8)
    requires
        1 <= least <= 7,
        exists|i: int, j: int|
            0 <= i < from.len() && 0 <= j < to.len() && is_close(
                #[trigger] proximity(from[i], to[j]),
            ),
        forall|i: int, j: int|
            0 <= i < from.len() && 0 <= j < to.len() && is_close(
                #[trigger] proximity(from[i], to[j]),
            ) ==> least <= proximity(from[i], to[j]),
    ensures
        exists|prox: u8| #[trigger] is_closest(prox as int, from, to),
    decreases 8 - least,
{
    if exists|i: int, j: int|
        0 <= i < from.len() && 0 <= j < to.len() && #[trigger] proximity(from[i], to[j])
            == least as int {
        assert(is_closest(least as int, from, to));
    } else {
        assert(least < 7) by {
            let (i, j) = choose|i: int, j: int|
                0 <= i < from.len() && 0 <= j < to.len() && is_close(
                    #[trigger] proximity(from[i], to[j]),
                );
            assert(proximity(from[i], to[j]) != least as int);
        }
        lemma_closest_from(from, to, (least + 1) as u8);
    }
}

/// Words have pairs close to each other up to any two places.
proof fn lemma_close_pairs_exist_before(words: Seq<(Seq<u8>, Seq<u32>)>, i: int, j: int)
    requires
        words_in_order(words),
        0 <= i <= words.len(),
        0 <= j <= words.len(),
        i < words.len() || j == 0,
    ensures
        exists|pairs: Seq<(Seq<u8>, Seq<u8>, u8)>| close_pairs_before(pairs, words, i, j),
    decreases i, j,
{
    if j > 0 {
        let last = j - 1;
        lemma_close_pairs_exist_before(words, i, last);
        let pairs = choose|pairs: Seq<(Seq<u8>, Seq<u8>, u8)>|
            close_pairs_before(pairs, words, i, last);
        let from = words[i].1;
        let to = words[last].1;
        if has_close(from, to) {
            lemma_closest_from(from, to, 1);
            let prox = choose|prox: u8| #[trigger] is_closest(prox as int, from, to);
            let pair = (words[i].0, words[last].0, prox);
            lemma_push_pair(pairs, words, i, last, pair);
            assert(close_pairs_before(pairs.push(pair), words, i, j));
        } else {
            lemma_skip_pair(pairs, words, i, last);
            assert(close_pairs_before(pairs, words, i, j));
        }
    } else if i > 0 {
        let len = words.len() as int;
        let row = i - 1;
        lemma_close_pairs_exist_before(words, row, len);
        let pairs = choose|pairs: Seq<(Seq<u8>, Seq<u8>, u8)>|
            close_pairs_before(pairs, words, row, len);
        lemma_next_row(pairs, words, row);
        assert(close_pairs_before(pairs, words, i, j));
    } else {
        let none: Seq<(Seq<u8>, Seq<u8>, u8)> = Seq::empty();
        assert(close_pairs_before(none, words, i, j));
    }
}

/// No pair is added for words that are not close to each other.
proof fn lemma_skip_pair(
    pairs: Seq<(Seq<u8>, Seq<u8>, u8)>,
    words: Seq<(Seq<u8>, Seq<u32>)>,
    i: int,
    j: int,
)
    requires
        close_pairs_before(pairs, words, i, j),
        !has_close(words[i].1, words[j].1),
    ensures
        close_pairs_before(pairs, words, i, j + 1),
{
    assert forall|n: int| 0 <= n < pairs.len() implies is_close_pair_before(
        #[trigger] pairs[n],
        words,
        i,
        j + 1,
    ) by {
        assert(is_close_pair_before(pairs[n], words, i, j));
        let (k, l) = choose|k: int, l: int|
            0 <= k < words.len() && 0 <= l < words.len() && seen_before(k, l, i, j)
                && #[trigger] pair_is_of(pairs[n], words, k, l);
        assert(seen_before(k, l, i, j + 1));
    }
}

/// After the last place of a row comes the first of the next.
proof fn lemma_next_row(
    pairs: Seq<(Seq<u8>, Seq<u8>, u8)>,
    words: Seq<(Seq<u8>, Seq<u32>)>,
    i: int,
)
    requires
        close_pairs_before(pairs, words, i, words.len() as int),
    ensures
        close_pairs_before(pairs, words, i + 1, 0),
{
    let len = words.len() as int;
    assert forall|n: int| 0 <= n < pairs.len() implies is_close_pair_before(
        #[trigger] pairs[n],
        words,
        i + 1,
        0,
    ) by {
        assert(is_close_pair_before(pairs[n], words, i, len));
        let (k, l) = choose|k: int, l: int|
            0 <= k < words.len() && 0 <= l < words.len() && seen_before(k, l, i, len)
                && #[trigger] pair_is_of(pairs[n], words, k, l);
        assert(seen_before(k, l, i + 1, 0));
    }
}

/// All words have a list of pairs that are close to each other.
pub proof fn lemma_close_pairs_exist(words: Seq<(Seq<u8>, Seq<u32>)>)
    requires
        words_in_order(words),
    ensures
        are_close_pairs(close_pairs(words), words),
{
    let len = words.len() as int;
    lemma_close_pairs_exist_before(words, len, 0);
    let pairs = choose|pairs: Seq<(Seq<u8>, Seq<u8>, u8)>| close_pairs_before(pairs, words, len, 0);
    assert(are_close_pairs(pairs, words)) by {
        assert forall|n: int| 0 <= n < pairs.len() implies is_close_pair(
            #[trigger] pairs[n],
            words,
        ) by {
            assert(is_close_pair_before(pairs[n], words, len, 0));
        }
        assert forall|k: int, l: int|
            0 <= k < words.len() && 0 <= l < words.len() && #[trigger] has_close(
                words[k].1,
                words[l].1,
            ) implies exists|n: int|
            0 <= n < pairs.len() && #[trigger] pair_is_of(pairs[n], words, k, l) by {
            assert(seen_before(k, l, len, 0));
        }
    }
}

/// Two positions of one field: a word that follows at a distance of up to 7 is at that proximity,
/// one that precedes at a distance of 1 to 6 is at one more. Any other two positions are not close.
pub proof fn lemma_proximity(p: u32, q: u32)
    ensures
        p / 1000 == q / 1000 && p <= q <= p + 7 ==> proximity(p, q) == q - p,
        p / 1000 == q / 1000 && q < p <= q + 6 ==> proximity(p, q) == p - q + 1,
        p / 1000 == q / 1000 && q > p + 7 ==> proximity(p, q) == 8,
        p / 1000 == q / 1000 && p > q + 6 ==> proximity(p, q) == 8,
        p / 1000 != q / 1000 ==> proximity(p, q) == 8,
{
}

/// Whether a position is close before another: they are in one field, and the second follows at
/// a distance of `prox`, which is 1 to 7, or precedes at one less.
pub open spec fn stands_at(p: u32, q: u32, prox: int) -> bool {
    &&& p / 1000 == q / 1000
    &&& 1 <= prox <= 7
    &&& q - p == prox || p - q == prox - 1 && q < p
}

/// The proximity between 1 and 7 of two positions is the one at which they stand.
proof fn lemma_stands_at(p: u32, q: u32, prox: int)
    ensures
        stands_at(p, q, prox) <==> is_close(prox) && proximity(p, q) == prox,
{
    lemma_proximity(p, q);
}

/// Whether the two words of a pair stand at its proximity somewhere.
pub open spec fn stands_somewhere(
    pair: (Seq<u8>, Seq<u8>, u8),
    words: Seq<(Seq<u8>, Seq<u32>)>,
) -> bool {
    exists|i: int, j: int, p: u32, q: u32|
        #![trigger words[i].1.contains(p), words[j].1.contains(q)]
        {
            &&& 0 <= i < words.len()
            &&& 0 <= j < words.len()
            &&& pair.0 == words[i].0
            &&& pair.1 == words[j].0
            &&& words[i].1.contains(p)
            &&& words[j].1.contains(q)
            &&& stands_at(p, q, pair.2 as int)
        }
}

/// What the pairs of words say: of each two words that stand at a proximity somewhere, the pair is
/// listed, once, with the shortest such proximity, and no other pair is listed.
pub proof fn lemma_close_pairs_say(words: Seq<(Seq<u8>, Seq<u32>)>)
    requires
        words_in_order(words),
    ensures
        forall|i: int, j: int, p: u32, q: u32, prox: int|
            #![trigger words[i].1.contains(p), words[j].1.contains(q), stands_at(p, q, prox)]
            0 <= i < words.len() && 0 <= j < words.len() && words[i].1.contains(p)
                && words[j].1.contains(q) && stands_at(p, q, prox) ==> exists|k: int|
                #![trigger close_pairs(words)[k]]
                {
                    &&& 0 <= k < close_pairs(words).len()
                    &&& close_pairs(words)[k].0 == words[i].0
                    &&& close_pairs(words)[k].1 == words[j].0
                    &&& 1 <= close_pairs(words)[k].2 <= prox
                },
        forall|k: int|
            0 <= k < close_pairs(words).len() ==> stands_somewhere(
                #[trigger] close_pairs(words)[k],
                words,
            ),
        forall|k: int, l: int|
            0 <= k < l < close_pairs(words).len() ==> (#[trigger] close_pairs(words)[k]).0 != (
            #[trigger] close_pairs(words)[l]).0 || close_pairs(words)[k].1 != close_pairs(
                words,
            )[l].1,
{
    let pairs = close_pairs(words);
    lemma_close_pairs_exist(words);
    assert forall|i: int, j: int, p: u32, q: u32, prox: int|
        #![trigger words[i].1.contains(p), words[j].1.contains(q), stands_at(p, q, prox)]
        0 <= i < words.len() && 0 <= j < words.len() && words[i].1.contains(p)
            && words[j].1.contains(q) && stands_at(p, q, prox) implies exists|k: int|
        #![trigger pairs[k]]
        {
            &&& 0 <= k < pairs.len()
            &&& pairs[k].0 == words[i].0
            &&& pairs[k].1 == words[j].0
            &&& 1 <= pairs[k].2 <= prox
        } by {
        let from = words[i].1;
        let to = words[j].1;
        let m = choose|m: int| 0 <= m < from.len() && from[m] == p;
        let n = choose|n: int| 0 <= n < to.len() && to[n] == q;
        lemma_stands_at(p, q, prox);
        assert(proximity(from[m], to[n]) == prox);
        assert(has_close(from, to));
        let k = choose|k: int| 0 <= k < pairs.len() && #[trigger] pair_is_of(pairs[k], words, i, j);
        assert(pairs[k].2 <= proximity(from[m], to[n]));
    }
    assert forall|k: int| 0 <= k < pairs.len() implies stands_somewhere(
        #[trigger] pairs[k],
        words,
    ) by {
        assert(is_close_pair(pairs[k], words));
        let (i, j) = choose|i: int, j: int|
            0 <= i < words.len() && 0 <= j < words.len() && pair_is_of(pairs[k], words, i, j);
        let from = words[i].1;
        let to = words[j].1;
        let (m, n) = choose|m: int, n: int|
            0 <= m < from.len() && 0 <= n < to.len() && #[trigger] proximity(from[m], to[n])
                == pairs[k].2;
        lemma_stands_at(from[m], to[n], pairs[k].2 as int);
        assert(words[i].1.contains(from[m]));
        assert(words[j].1.contains(to[n]));
    }
    assert forall|k: int, l: int| 0 <= k < l < pairs.len() implies (#[trigger] pairs[k]).0 != (
    #[trigger] pairs[l]).0 || pairs[k].1 != pairs[l].1 by {
        assert(pair_lt(pairs[k], pairs[l]));
        lemma_lex_irreflexive(pairs[k].0);
        lemma_lex_irreflexive(pairs[k].1);
    }
}

/// Where two words that stand at a proximity are listed.
pub proof fn lemma_pair_stands(
    words: Seq<(Seq<u8>, Seq<u32>)>,
    i: int,
    j: int,
    p: u32,
    q: u32,
    prox: int,
) -> (k: int)
    requires
        words_in_order(words),
        0 <= i < words.len(),
        0 <= j < words.len(),
        words[i].1.contains(p),
        words[j].1.contains(q),
        stands_at(p, q, prox),
    ensures
        0 <= k < close_pairs(words).len(),
        close_pairs(words)[k].0 == words[i].0,
        close_pairs(words)[k].1 == words[j].0,
        1 <= close_pairs(words)[k].2 <= prox,
{
    lemma_close_pairs_say(words);
    assert(words[i].1.contains(p) && words[j].1.contains(q) && stands_at(p, q, prox));
    choose|k: int|
        #![trigger close_pairs(words)[k]]
        {
            &&& 0 <= k < close_pairs(words).len()
            &&& close_pairs(words)[k].0 == words[i].0
            &&& close_pairs(words)[k].1 == words[j].0
            &&& 1 <= close_pairs(words)[k].2 <= prox
        }
}

/// A pair is listed once.
pub proof fn lemma_pair_once(words: Seq<(Seq<u8>, Seq<u32>)>, k: int, l: int)
    requires
        words_in_order(words),
        0 <= k < close_pairs(words).len(),
        0 <= l < close_pairs(words).len(),
        close_pairs(words)[k].0 == close_pairs(words)[l].0,
        close_pairs(words)[k].1 == close_pairs(words)[l].1,
    ensures
        k == l,
{
    lemma_close_pairs_say(words);
}

/// Where the two words of a listed pair stand.
pub proof fn lemma_pair_positions(words: Seq<(Seq<u8>, Seq<u32>)>, k: int) -> (at: (
    int,
    int,
    u32,
    u32,
))
    requires
        words_in_order(words),
        0 <= k < close_pairs(words).len(),
    ensures
        0 <= at.0 < words.len(),
        0 <= at.1 < words.len(),
        close_pairs(words)[k].0 == words[at.0].0,
        close_pairs(words)[k].1 == words[at.1].0,
        words[at.0].1.contains(at.2),
        words[at.1].1.contains(at.3),
        stands_at(at.2, at.3, close_pairs(words)[k].2 as int),
{
    let pair = close_pairs(words)[k];
    lemma_close_pairs_say(words);
    assert(stands_somewhere(pair, words));
    choose|i: int, j: int, p: u32, q: u32|
        #![trigger words[i].1.contains(p), words[j].1.contains(q)]
        {
            &&& 0 <= i < words.len()
            &&& 0 <= j < words.len()
            &&& pair.0 == words[i].0
            &&& pair.1 == words[j].0
            &&& words[i].1.contains(p)
            &&& words[j].1.contains(q)
            &&& stands_at(p, q, pair.2 as int)
        }
}

/// The view of pairs has the words and the proximity of each, at its place.
pub proof fn lemma_pair_views(pairs: Seq<PairProximity>, i: int)
    requires
        0 <= i < pairs.len(),
    ensures
        pair_views(pairs).len() == pairs.len(),
        pair_views(pairs)[i].0 == pairs[i].first@,
        pair_views(pairs)[i].1 == pairs[i].second@,
        pair_views(pairs)[i].2 == pairs[i].proximity,
{
}

} // verus!
