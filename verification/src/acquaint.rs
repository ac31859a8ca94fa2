//! Who knows whom: counting, for each person, the people they know, from the
//! decisions made for each pair.

use vstd::prelude::*;

verus! {

/// A person, identified by a number.
#[derive(Debug, PartialEq, Eq, Structural)]
pub struct Person {
    pub ind: u64,
}

/// Person `a` and person `b` know each other. `knows[a][b]` is decided for each
/// pair with `b < a`.
pub open spec fn linked(knows: Seq<Vec<bool>>, a: int, b: int) -> bool {
    if b < a {
        knows[a]@[b]
    } else if a < b {
        knows[b]@[a]
    } else {
        false
    }
}

/// The number of people among the first `m` that person `a` knows.
pub open spec fn known_among(knows: Seq<Vec<bool>>, a: int, m: int) -> nat
    decreases m,
{
    if m <= 0 {
        0
    } else {
        known_among(knows, a, m - 1) + if linked(knows, a, m - 1) {
            1nat
        } else {
            0nat
        }
    }
}

/// Every row holds a decision for each earlier person.
pub open spec fn triangle(knows: Seq<Vec<bool>>) -> bool {
    forall|a: int| 0 <= a < knows.len() ==> #[trigger] knows[a]@.len() >= a
}

/// The number of people each person knows, given the decisions `knows[a][b]`
/// for each pair `b < a`.
pub fn count_links(knows: &Vec<Vec<bool>>) -> (counts: Vec<usize>)
    requires
        triangle(knows@),
    ensures
        counts.len() == knows.len(),
        forall|a: int|
            0 <= a < knows.len() ==> #[trigger] counts@[a] == known_among(
                knows@,
                a,
                knows.len() as int,
            ),
{
    let n = knows.len();
    let mut counts: Vec<usize> = Vec::new();
    while counts.len() < n
        invariant
            counts.len() <= n,
            forall|a: int| 0 <= a < counts.len() ==> #[trigger] counts@[a] == 0,
        decreases n - counts.len(),
    {
        counts.push(0);
    }
    let mut a: usize = 0;
    while a < n
        invariant
            n == knows.len(),
            triangle(knows@),
            counts.len() == n,
            a <= n,
            forall|p: int|
                0 <= p < n ==> #[trigger] counts@[p] == if p < a {
                    known_among(knows@, p, a as int)
                } else {
                    0
                },
        decreases n - a,
    {
        let mut b: usize = 0;
        while b < a
            invariant
                n == knows.len(),
                triangle(knows@),
                counts.len() == n,
                a < n,
                b <= a,
                forall|p: int|
                    0 <= p < n ==> #[trigger] counts@[p] == if p < b {
                        known_among(knows@, p, a + 1)
                    } else if p < a {
                        known_among(knows@, p, a as int)
                    } else if p == a {
                        known_among(knows@, a as int, b as int)
                    } else {
                        0
                    },
            decreases a - b,
        {
            assert(knows@[a as int]@.len() >= a);
            proof {
                lemma_known_bound(knows@, a as int, b as int);
                lemma_known_bound(knows@, b as int, a as int);
            }
            if knows[a][b] {
                counts.set(a, counts[a] + 1);
                counts.set(b, counts[b] + 1);
            }
            assert(known_among(knows@, a as int, b + 1) == known_among(knows@, a as int, b as int)
                + if linked(knows@, a as int, b as int) { 1nat } else { 0nat });
            assert(known_among(knows@, b as int, a + 1) == known_among(knows@, b as int, a as int)
                + if linked(knows@, b as int, a as int) { 1nat } else { 0nat });
            b = b + 1;
        }
        proof {
            assert(known_among(knows@, a as int, a + 1) == known_among(knows@, a as int, a as int));
        }
        a = a + 1;
    }
    counts
}

proof fn lemma_known_bound(knows: Seq<Vec<bool>>, p: int, m: int)
    requires
        m >= 0,
    ensures
        known_among(knows, p, m) <= m,
    decreases m,
{
    if m > 0 {
        lemma_known_bound(knows, p, m - 1);
    }
}


/// The number of pairs among the first `m` people who know each other.
pub open spec fn links(knows: Seq<Vec<bool>>, m: int) -> nat
    decreases m,
{
    if m <= 0 {
        0
    } else {
        links(knows, m - 1) + known_among(knows, m - 1, m - 1)
    }
}

/// The sum, over the first `p` people, of how many of the first `m` people each knows.
pub open spec fn degree_sum(knows: Seq<Vec<bool>>, p: int, m: int) -> nat
    decreases p,
{
    if p <= 0 {
        0
    } else {
        degree_sum(knows, p - 1, m) + known_among(knows, p - 1, m)
    }
}

/// Counting the links of the first `p` people to person `m` counts the earlier
/// people that `m` knows.
proof fn lemma_column(knows: Seq<Vec<bool>>, p: int, m: int)
    requires
        0 <= p <= m,
    ensures
        degree_sum(knows, p, m + 1) == degree_sum(knows, p, m) + known_among(knows, m, p),
    decreases p,
{
    if p > 0 {
        lemma_column(knows, p - 1, m);
        assert(linked(knows, p - 1, m) == linked(knows, m, p - 1));
    }
}

/// Everybody's counts added up give each link twice: once for each of the two
/// people it links.
pub proof fn law_handshake(knows: Seq<Vec<bool>>, n: int)
    requires
        n >= 0,
    ensures
        degree_sum(knows, n, n) == 2 * links(knows, n),
    decreases n,
{
    if n > 0 {
        let m = n - 1;
        law_handshake(knows, m);
        lemma_column(knows, m, m);
        assert(known_among(knows, m, n) == known_among(knows, m, m));
    }
}

} // verus!
