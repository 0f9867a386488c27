use vstd::prelude::*;

use crate::yajilin::field::{left_hi, may_block, ray_actions_from, right_hi, RayAction};
use crate::yajilin::Cell;

verus! {

/// `s` is a way to place blocks among the places `lo .. hi` of the ray `c`: each place
/// in it may hold a block, and no two of them are side by side.
pub open spec fn spaced_blocks(c: Seq<Cell>, s: Set<int>, lo: int, hi: int) -> bool {
    &&& s.finite()
    &&& forall|p: int| #[trigger] s.contains(p) ==> lo <= p < hi && may_block(c[p])
    &&& forall|p: int, q: int| #[trigger] s.contains(p) && #[trigger] s.contains(q) && p < q ==> q - p >= 2
}

/// The places chosen, from the end of the prefix backwards, to reach `left_hi`.
spec fn left_pick(c: Seq<Cell>, j: int) -> Set<int>
    decreases j,
{
    if j <= 0 {
        Set::empty()
    } else if may_block(c[j - 1]) {
        left_pick(
            c,
            if j >= 2 {
                j - 2
            } else {
                0
            },
        ).insert(j - 1)
    } else {
        left_pick(c, j - 1)
    }
}

/// The places chosen, from the start of the suffix onwards, to reach `right_hi`.
spec fn right_pick(c: Seq<Cell>, j: int) -> Set<int>
    decreases c.len() - j,
{
    if j < 0 || j >= c.len() {
        Set::empty()
    } else if may_block(c[j]) {
        right_pick(
            c,
            if j + 2 <= c.len() {
                j + 2
            } else {
                c.len() as int
            },
        ).insert(j)
    } else {
        right_pick(c, j + 1)
    }
}

proof fn lemma_left_hi_step(c: Seq<Cell>, j: int)
    requires
        1 <= j <= c.len(),
    ensures
        left_hi(c, j - 1) <= left_hi(c, j) <= left_hi(c, j - 1) + 1,
    decreases j,
{
    if j >= 2 {
        lemma_left_hi_step(c, j - 1);
    }
}

proof fn lemma_right_hi_step(c: Seq<Cell>, j: int)
    requires
        0 <= j < c.len(),
    ensures
        right_hi(c, j + 1) <= right_hi(c, j) <= right_hi(c, j + 1) + 1,
    decreases c.len() - j,
{
    if j + 2 <= c.len() {
        lemma_right_hi_step(c, j + 1);
    }
}

proof fn lemma_left_pick(c: Seq<Cell>, j: int)
    requires
        0 <= j <= c.len(),
    ensures
        spaced_blocks(c, left_pick(c, j), 0, j),
        left_pick(c, j).len() == left_hi(c, j),
    decreases j,
{
    if j > 0 {
        if may_block(c[j - 1]) {
            let k = if j >= 2 {
                j - 2
            } else {
                0
            };
            lemma_left_pick(c, k);
            let sub = left_pick(c, k);
            assert(!sub.contains(j - 1));
            let s = sub.insert(j - 1);
            assert forall|p: int, q: int| #[trigger] s.contains(p) && #[trigger] s.contains(q) && p
                < q implies q - p >= 2 by {
                if q == j - 1 {
                    assert(sub.contains(p));
                }
            }
        } else {
            lemma_left_pick(c, j - 1);
        }
    }
}

proof fn lemma_right_pick(c: Seq<Cell>, j: int)
    requires
        0 <= j <= c.len(),
    ensures
        spaced_blocks(c, right_pick(c, j), j, c.len() as int),
        right_pick(c, j).len() == right_hi(c, j),
    decreases c.len() - j,
{
    if j < c.len() {
        if may_block(c[j]) {
            let k = if j + 2 <= c.len() {
                j + 2
            } else {
                c.len() as int
            };
            lemma_right_pick(c, k);
            let sub = right_pick(c, k);
            assert(!sub.contains(j));
            let s = sub.insert(j);
            assert forall|p: int, q: int| #[trigger] s.contains(p) && #[trigger] s.contains(q) && p
                < q implies q - p >= 2 by {
                if p == j {
                    assert(sub.contains(q));
                }
            }
        } else {
            lemma_right_pick(c, j + 1);
        }
    } else {
        assert(right_pick(c, j) =~= Set::<int>::empty());
    }
}

proof fn lemma_left_hi_upper(c: Seq<Cell>, s: Set<int>, j: int)
    requires
        0 <= j <= c.len(),
        spaced_blocks(c, s, 0, j),
    ensures
        s.len() <= left_hi(c, j),
    decreases j,
{
    if j == 0 {
        assert(s =~= Set::<int>::empty());
    } else if !s.contains(j - 1) {
        lemma_left_hi_upper(c, s, j - 1);
        lemma_left_hi_step(c, j);
    } else {
        let k = if j >= 2 {
            j - 2
        } else {
            0
        };
        let t = s.remove(j - 1);
        assert forall|p: int| #[trigger] t.contains(p) implies 0 <= p < k && may_block(c[p]) by {
            assert(s.contains(p) && s.contains(j - 1));
        }
        lemma_left_hi_upper(c, t, k);
    }
}

proof fn lemma_right_hi_upper(c: Seq<Cell>, s: Set<int>, j: int)
    requires
        0 <= j <= c.len(),
        spaced_blocks(c, s, j, c.len() as int),
    ensures
        s.len() <= right_hi(c, j),
    decreases c.len() - j,
{
    if j == c.len() {
        assert(s =~= Set::<int>::empty());
    } else if !s.contains(j) {
        lemma_right_hi_upper(c, s, j + 1);
        lemma_right_hi_step(c, j);
    } else {
        let k = if j + 2 <= c.len() {
            j + 2
        } else {
            c.len() as int
        };
        let t = s.remove(j);
        assert forall|p: int| #[trigger] t.contains(p) implies k <= p < c.len() && may_block(c[p]) by {
            assert(s.contains(p) && s.contains(j));
        }
        lemma_right_hi_upper(c, t, k);
    }
}

/// `left_hi(c, j)` is the largest number of blocks that can be placed among the first
/// `j` cells of the ray, on cells that may hold one and never side by side.
pub proof fn lemma_left_hi_most_blocks(c: Seq<Cell>, j: int)
    requires
        0 <= j <= c.len(),
    ensures
        exists|s: Set<int>| #[trigger] spaced_blocks(c, s, 0, j) && s.len() == left_hi(c, j),
        forall|s: Set<int>| #[trigger] spaced_blocks(c, s, 0, j) ==> s.len() <= left_hi(c, j),
{
    lemma_left_pick(c, j);
    assert forall|s: Set<int>| #[trigger] spaced_blocks(c, s, 0, j) implies s.len() <= left_hi(
        c,
        j,
    ) by {
        lemma_left_hi_upper(c, s, j);
    }
}

/// `right_hi(c, j)` is the largest number of blocks that can be placed among the cells
/// of the ray from place `j` on, on cells that may hold one and never side by side.
pub proof fn lemma_right_hi_most_blocks(c: Seq<Cell>, j: int)
    requires
        0 <= j <= c.len(),
    ensures
        exists|s: Set<int>| #[trigger] spaced_blocks(c, s, j, c.len() as int) && s.len() == right_hi(c, j),
        forall|s: Set<int>| #[trigger] spaced_blocks(c, s, j, c.len() as int) ==> s.len() <= right_hi(c, j),
{
    lemma_right_pick(c, j);
    assert forall|s: Set<int>| #[trigger] spaced_blocks(c, s, j, c.len() as int) implies s.len()
        <= right_hi(c, j) by {
        lemma_right_hi_upper(c, s, j);
    }
}

/// Leaving out the cell at place `i`, `left_hi(c, i) + right_hi(c, i + 1)` is the largest
/// number of blocks that can be placed on the ray, and with it one more at most.
pub proof fn lemma_most_blocks_around(c: Seq<Cell>, i: int)
    requires
        0 <= i < c.len(),
    ensures
        exists|s: Set<int>| #[trigger] spaced_blocks(c, s, 0, c.len() as int) && !s.contains(i)
            && s.len() == left_hi(c, i) + right_hi(c, i + 1),
        forall|s: Set<int>| #[trigger] spaced_blocks(c, s, 0, c.len() as int) && !s.contains(i)
            ==> s.len() <= left_hi(c, i) + right_hi(c, i + 1),
        forall|s: Set<int>| #[trigger] spaced_blocks(c, s, 0, c.len() as int) ==> s.len()
            <= left_hi(c, i) + right_hi(c, i + 1) + 1,
{
    let len = c.len() as int;
    lemma_left_pick(c, i);
    lemma_right_pick(c, i + 1);
    let a = left_pick(c, i);
    let b = right_pick(c, i + 1);
    let u = a + b;
    assert(a.disjoint(b));
    vstd::set_lib::lemma_set_disjoint_lens(a, b);
    assert forall|p: int, q: int| #[trigger] u.contains(p) && #[trigger] u.contains(q) && p < q
        implies q - p >= 2 by {
        if a.contains(p) && a.contains(q) {
        } else if b.contains(p) && b.contains(q) {
        }
    }
    assert(spaced_blocks(c, u, 0, len) && !u.contains(i));
    assert forall|s: Set<int>| #[trigger] spaced_blocks(c, s, 0, len) && !s.contains(i) implies s.len()
        <= left_hi(c, i) + right_hi(c, i + 1) by {
        lemma_split_around(c, s, i);
    }
    assert forall|s: Set<int>| #[trigger] spaced_blocks(c, s, 0, len) implies s.len() <= left_hi(c, i)
        + right_hi(c, i + 1) + 1 by {
        let t = s.remove(i);
        assert(spaced_blocks(c, t, 0, len));
        lemma_split_around(c, t, i);
    }
}

proof fn lemma_split_around(c: Seq<Cell>, s: Set<int>, i: int)
    requires
        0 <= i < c.len(),
        spaced_blocks(c, s, 0, c.len() as int),
        !s.contains(i),
    ensures
        s.len() <= left_hi(c, i) + right_hi(c, i + 1),
{
    let a = s.filter(|p: int| p < i);
    let b = s.filter(|p: int| p > i);
    vstd::set_lib::lemma_len_subset(a, s);
    vstd::set_lib::lemma_len_subset(b, s);
    assert(s =~= a + b);
    assert(a.disjoint(b));
    vstd::set_lib::lemma_set_disjoint_lens(a, b);
    assert forall|p: int, q: int| #[trigger] b.contains(p) && #[trigger] b.contains(q) && p < q
        implies q - p >= 2 by {
        assert(s.contains(p) && s.contains(q));
    }
    assert forall|p: int, q: int| #[trigger] a.contains(p) && #[trigger] a.contains(q) && p < q
        implies q - p >= 2 by {
        assert(s.contains(p) && s.contains(q));
    }
    lemma_left_hi_upper(c, a, i);
    lemma_right_hi_upper(c, b, i + 1);
}

/// The decisions about a ray are sound: a place decided to be blocked belongs to every
/// way of placing `n` or more blocks on the ray, and where the clue is found
/// unsatisfiable, no way of placing `n` blocks exists.
pub proof fn lemma_ray_actions_sound(c: Seq<Cell>, n: int, s: int)
    requires
        0 <= s,
        c.len() <= i32::MAX,
    ensures
        forall|t: int|
            0 <= t < ray_actions_from(c, n, s).len() ==> match #[trigger] ray_actions_from(
                c,
                n,
                s,
            )[t] {
                RayAction::Block(i) => forall|b: Set<int>| #[trigger]
                    spaced_blocks(c, b, 0, c.len() as int) && b.len() >= n ==> b.contains(i as int),
                RayAction::Inconsistent => forall|b: Set<int>| #[trigger]
                    spaced_blocks(c, b, 0, c.len() as int) ==> b.len() < n,
            },
    decreases c.len() - s,
{
    if s < c.len() {
        lemma_ray_actions_sound(c, n, s + 1);
        lemma_most_blocks_around(c, s);
        let total = left_hi(c, s) + right_hi(c, s + 1);
        let here = ray_actions_from(c, n, s);
        let rest = ray_actions_from(c, n, s + 1);
        if total < n - 1 {
            assert(here == seq![RayAction::Inconsistent]);
        } else if total == n - 1 {
            assert(here == seq![RayAction::Block(s as i32)] + rest);
            assert forall|t: int| 0 <= t < here.len() implies match #[trigger] here[t] {
                RayAction::Block(i) => forall|b: Set<int>| #[trigger]
                    spaced_blocks(c, b, 0, c.len() as int) && b.len() >= n ==> b.contains(i as int),
                RayAction::Inconsistent => forall|b: Set<int>| #[trigger]
                    spaced_blocks(c, b, 0, c.len() as int) ==> b.len() < n,
            } by {
                if t > 0 {
                    assert(here[t] == rest[t - 1]);
                }
            }
        } else {
            assert(here == rest);
        }
    }
}

/// The decisions about a ray are complete: unless the clue is found unsatisfiable, every
/// place that belongs to every way of placing `n` or more blocks on the ray is decided
/// to be blocked.
pub proof fn lemma_ray_actions_complete(c: Seq<Cell>, n: int, s: int, i: int)
    requires
        0 <= s <= i < c.len(),
        c.len() <= i32::MAX,
        !ray_actions_from(c, n, s).contains(RayAction::Inconsistent),
        forall|b: Set<int>| #[trigger] spaced_blocks(c, b, 0, c.len() as int) && b.len() >= n
            ==> b.contains(i),
    ensures
        ray_actions_from(c, n, s).contains(RayAction::Block(i as i32)),
    decreases i - s,
{
    let total = left_hi(c, s) + right_hi(c, s + 1);
    let here = ray_actions_from(c, n, s);
    let rest = ray_actions_from(c, n, s + 1);
    if total < n - 1 {
        assert(here == seq![RayAction::Inconsistent]);
        assert(here[0] == RayAction::Inconsistent);
    }
    if s == i {
        lemma_most_blocks_around(c, i);
        let w = choose|w: Set<int>| #[trigger] spaced_blocks(c, w, 0, c.len() as int)
            && !w.contains(i) && w.len() == left_hi(c, i) + right_hi(c, i + 1);
        assert(here == seq![RayAction::Block(s as i32)] + rest);
        assert(here[0] == RayAction::Block(i as i32));
    } else {
        if total == n - 1 {
            assert(here == seq![RayAction::Block(s as i32)] + rest);
            assert forall|t: int| 0 <= t < rest.len() implies rest[t] == here[t + 1] by {}
        } else {
            assert(here == rest);
        }
        if rest.contains(RayAction::Inconsistent) {
            let t = choose|t: int| 0 <= t < rest.len() && rest[t] == RayAction::Inconsistent;
            if total == n - 1 {
                assert(here[t + 1] == RayAction::Inconsistent);
            }
        }
        lemma_ray_actions_complete(c, n, s + 1, i);
        let t = choose|t: int| 0 <= t < rest.len() && rest[t] == RayAction::Block(i as i32);
        if total == n - 1 {
            assert(here[t + 1] == RayAction::Block(i as i32));
        } else {
            assert(here[t] == RayAction::Block(i as i32));
        }
    }
}

} // verus!
