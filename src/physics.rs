//! Broad-phase pairing of colliders and the routing of overlap events.
use vstd::prelude::*;

verus! {

/// An overlap event for the collider at index `target`, naming the collider at
/// index `collider` that it overlaps.
#[derive(Debug, Clone, Copy, PartialEq, Eq, Structural)]
pub struct OnCollisionStart {
    pub target: usize,
    pub collider: usize,
}

impl OnCollisionStart {
    pub open spec fn view(&self) -> (usize, usize) {
        (self.target, self.collider)
    }
}

/// Every unordered pair of distinct indices below `n`, each as `(i, j)` with
/// `i < j`, ordered by `j` and then by `i`.
pub open spec fn pairs_below(n: nat) -> Seq<(usize, usize)>
    decreases n,
{
    if n == 0 {
        Seq::empty()
    } else {
        let j = (n - 1) as nat;
        pairs_below(j) + Seq::new(j, |i: int| (i as usize, j as usize))
    }
}

/// The events of a frame: for each overlapping pair, one event for each side
/// that has events enabled, aimed at that side and naming the other one.
pub open spec fn collision_events_of(
    pairs: Seq<(usize, usize)>,
    overlapping: Seq<bool>,
    enabled: Seq<bool>,
) -> Seq<(usize, usize)>
    decreases pairs.len(),
{
    if pairs.len() == 0 {
        Seq::empty()
    } else {
        let k = pairs.len() - 1;
        let (a, b) = pairs[k];
        let rest = collision_events_of(pairs.drop_last(), overlapping, enabled);
        if k < overlapping.len() && overlapping[k] {
            rest + pair_events(a, b, enabled)
        } else {
            rest
        }
    }
}

/// The events of one overlapping pair.
pub open spec fn pair_events(a: usize, b: usize, enabled: Seq<bool>) -> Seq<(usize, usize)> {
    (if a < enabled.len() && enabled[a as int] { seq![(a, b)] } else { Seq::empty() }) + (if b
        < enabled.len() && enabled[b as int] {
        seq![(b, a)]
    } else {
        Seq::empty()
    })
}

/// Lists each unordered pair of the `n` colliders once.
pub fn collider_pairs(n: usize) -> (r: Vec<(usize, usize)>)
    ensures
        r@ == pairs_below(n as nat),
{
    let mut pairs: Vec<(usize, usize)> = Vec::new();
    let mut j: usize = 0;
    while j < n
        invariant
            j <= n,
            pairs@ == pairs_below(j as nat),
        decreases n - j,
    {
        let ghost start = pairs@;
        let mut i: usize = 0;
        while i < j
            invariant
                i <= j < n,
                start == pairs_below(j as nat),
                pairs@ == start + Seq::new(i as nat, |k: int| (k as usize, j)),
            decreases j - i,
        {
            pairs.push((i, j));
            assert(pairs@ =~= start + Seq::new((i + 1) as nat, |k: int| (k as usize, j)));
            i += 1;
        }
        assert(pairs_below((j + 1) as nat) == pairs_below(j as nat) + Seq::new(
            j as nat,
            |k: int| (k as usize, j),
        ));
        j += 1;
    }
    pairs
}

/// Routes the overlap results of `pairs` to the sides that have events
/// enabled: `overlapping[k]` tells whether `pairs[k]` overlaps, and
/// `enabled[i]` whether collider `i` receives events. A pair with no entry in
/// `overlapping` counts as apart, and an index past the end of `enabled` as a
/// collider without events.
pub fn collision_events(pairs: &Vec<(usize, usize)>, overlapping: &Vec<bool>, enabled: &Vec<bool>) -> (r: Vec<
    OnCollisionStart,
>)
    ensures
        r@.map_values(|e: OnCollisionStart| e@) == collision_events_of(pairs@, overlapping@, enabled@),
{
    let mut events: Vec<OnCollisionStart> = Vec::new();
    let n = pairs.len();
    let mut k: usize = 0;
    while k < n
        invariant
            n == pairs@.len(),
            k <= n,
            events@.map_values(|e: OnCollisionStart| e@) == collision_events_of(
                pairs@.take(k as int),
                overlapping@,
                enabled@,
            ),
        decreases n - k,
    {
        let ghost prev = events@.map_values(|e: OnCollisionStart| e@);
        let (a, b) = pairs[k];
        assert(pairs@.take(k + 1).drop_last() =~= pairs@.take(k as int));
        assert(pairs@.take(k + 1)[k as int] == pairs@[k as int]);
        if k < overlapping.len() && overlapping[k] {
            if a < enabled.len() && enabled[a] {
                events.push(OnCollisionStart { target: a, collider: b });
            }
            if b < enabled.len() && enabled[b] {
                events.push(OnCollisionStart { target: b, collider: a });
            }
            assert(events@.map_values(|e: OnCollisionStart| e@) =~= prev + pair_events(a, b, enabled@));
        }
        k += 1;
    }
    assert(pairs@.take(n as int) =~= pairs@);
    events
}

/// Each unordered pair of distinct colliders is visited exactly once: the list
/// has `n * (n - 1) / 2` entries, each entry `(i, j)` has `i < j < n`, every
/// such pair occurs, and no entry repeats.
pub proof fn lemma_pairs_once(n: nat)
    requires
        n <= usize::MAX,
    ensures
        pairs_below(n).len() == n * (n - 1) / 2,
        forall|p: int|
            0 <= p < pairs_below(n).len() ==> (#[trigger] pairs_below(n)[p]).0 < pairs_below(n)[p].1
                && pairs_below(n)[p].1 < n,
        forall|i: usize, j: usize| i < j < n ==> pairs_below(n).contains((i, j)),
        forall|p: int, q: int|
            0 <= p < pairs_below(n).len() && 0 <= q < pairs_below(n).len() && p != q
                ==> pairs_below(n)[p] != pairs_below(n)[q],
    decreases n,
{
    if n > 0 {
        let m = (n - 1) as nat;
        lemma_pairs_once(m);
        let front = pairs_below(m);
        let tail = Seq::new(m, |i: int| (i as usize, m as usize));
        let all = pairs_below(n);
        assert(all == front + tail);
        assert(m * (m - 1) / 2 + m == n * (n - 1) / 2) by (nonlinear_arith)
            requires
                m + 1 == n,
        ;
        assert forall|p: int| 0 <= p < all.len() implies (#[trigger] all[p]).0 < all[p].1 && all[p].1 < n by {
            if p < front.len() {
                assert(all[p] == front[p]);
            } else {
                assert(all[p] == tail[p - front.len()]);
            }
        }
        assert forall|i: usize, j: usize| i < j < n implies all.contains((i, j)) by {
            if j < m {
                assert(front.contains((i, j)));
                let p = choose|p: int| 0 <= p < front.len() && front[p] == (i, j);
                assert(all[p] == front[p]);
            } else {
                assert(all[front.len() + i as int] == tail[i as int]);
            }
        }
        assert forall|p: int, q: int| 0 <= p < all.len() && 0 <= q < all.len() && p != q implies all[p]
            != all[q] by {
            if p < front.len() && q < front.len() {
                assert(all[p] == front[p] && all[q] == front[q]);
            } else if p >= front.len() && q >= front.len() {
                assert(all[p] == tail[p - front.len()] && all[q] == tail[q - front.len()]);
            } else if p < front.len() {
                assert(all[p] == front[p] && all[q] == tail[q - front.len()]);
                assert(front[p].1 < m);
            } else {
                assert(all[q] == front[q] && all[p] == tail[p - front.len()]);
                assert(front[q].1 < m);
            }
        }
    }
}

/// The events of one overlapping pair: one aimed at each side that has events
/// enabled, naming the collider side; none when neither side has them.
pub proof fn lemma_pair_direction(a: usize, b: usize, enabled: Seq<bool>)
    requires
        a < enabled.len(),
        b < enabled.len(),
    ensures
        collision_events_of(seq![(a, b)], seq![true], enabled) == pair_events(a, b, enabled),
        enabled[a as int] && !enabled[b as int] ==> pair_events(a, b, enabled) == seq![(a, b)],
        !enabled[a as int] && enabled[b as int] ==> pair_events(a, b, enabled) == seq![(b, a)],
        !enabled[a as int] && !enabled[b as int] ==> pair_events(a, b, enabled).len() == 0,
        enabled[a as int] && enabled[b as int] ==> pair_events(a, b, enabled) == seq![(a, b), (b, a)],
{
    let one = seq![(a, b)];
    assert(one.drop_last() =~= Seq::<(usize, usize)>::empty());
    assert(collision_events_of(one.drop_last(), seq![true], enabled) == Seq::<(usize, usize)>::empty());
    assert(Seq::<(usize, usize)>::empty() + pair_events(a, b, enabled) =~= pair_events(a, b, enabled));
    assert(seq![(a, b)] + Seq::<(usize, usize)>::empty() =~= seq![(a, b)]);
    assert(Seq::<(usize, usize)>::empty() + seq![(b, a)] =~= seq![(b, a)]);
    assert(seq![(a, b)] + seq![(b, a)] =~= seq![(a, b), (b, a)]);
}

/// Every event is aimed at a collider with events enabled and names a
/// different collider that overlaps it, when each pair holds two distinct
/// colliders.
pub proof fn lemma_events_well_aimed(pairs: Seq<(usize, usize)>, overlapping: Seq<bool>, enabled: Seq<bool>)
    requires
        forall|p: int| 0 <= p < pairs.len() ==> (#[trigger] pairs[p]).0 != pairs[p].1,
    ensures
        forall|e: int|
            0 <= e < collision_events_of(pairs, overlapping, enabled).len() ==> {
                let ev = #[trigger] collision_events_of(pairs, overlapping, enabled)[e];
                &&& ev.0 < enabled.len()
                &&& enabled[ev.0 as int]
                &&& ev.0 != ev.1
            },
    decreases pairs.len(),
{
    if pairs.len() > 0 {
        let rest = pairs.drop_last();
        let k = pairs.len() - 1;
        assert forall|p: int| 0 <= p < rest.len() implies (#[trigger] rest[p]).0 != rest[p].1 by {
            assert(rest[p] == pairs[p]);
        }
        lemma_events_well_aimed(rest, overlapping, enabled);
        let r = collision_events_of(rest, overlapping, enabled);
        let all = collision_events_of(pairs, overlapping, enabled);
        let (a, b) = pairs[k];
        assert(pairs[k].0 != pairs[k].1);
        if k < overlapping.len() && overlapping[k] {
            let extra = pair_events(a, b, enabled);
            assert(all == r + extra);
            assert forall|e: int| 0 <= e < all.len() implies {
                let ev = #[trigger] all[e];
                &&& ev.0 < enabled.len()
                &&& enabled[ev.0 as int]
                &&& ev.0 != ev.1
            } by {
                if e < r.len() {
                    assert(all[e] == r[e]);
                } else {
                    assert(all[e] == extra[e - r.len()]);
                }
            }
        }
    }
}

} // verus!
