//! Positions along a probe sequence: a search starts at a home slot and moves
//! one slot at a time, wrapping around the end of the table.
use vstd::prelude::*;

verus! {

/// `x` reduced into `0..n`, for `x < 2 * n`.
pub open spec fn wrap_index(x: int, n: int) -> int {
    if x < n {
        x
    } else {
        x - n
    }
}

/// The slot `d` steps after `home` in a table of `n` slots.
pub open spec fn slot_at(home: int, d: int, n: int) -> int {
    wrap_index(home + d, n)
}

/// How many steps after `home` slot `j` comes, in a table of `n` slots.
pub open spec fn dist(home: int, j: int, n: int) -> int {
    if j >= home {
        j - home
    } else {
        j + n - home
    }
}

/// How far the search has got after the probes before probe `s`: each probe
/// looks at eight slots, so the probes before `s` looked at the first `s + 7`.
pub open spec fn covered(s: int) -> int {
    if s == 0 {
        0
    } else {
        s + 7
    }
}

/// The slot `d` steps after `h` lies in the table, `d` steps after `h`.
pub proof fn lemma_slot_dist(h: int, d: int, n: int)
    requires
        0 <= h < n,
        0 <= d < n,
    ensures
        0 <= slot_at(h, d, n) < n,
        dist(h, slot_at(h, d, n), n) == d,
{
}

/// Every slot of the table is `dist(h, j, n)` steps after `h`.
pub proof fn lemma_dist_slot(h: int, j: int, n: int)
    requires
        0 <= h < n,
        0 <= j < n,
    ensures
        0 <= dist(h, j, n) < n,
        slot_at(h, dist(h, j, n), n) == j,
{
}

/// Slot `i` of the group read at the `s`-th probe from `h` is the slot
/// `wrap_index(s + i, n)` steps after `h`.
pub proof fn lemma_window(h: int, s: int, i: int, n: int)
    requires
        0 <= h < n,
        0 <= s < n,
        0 <= i < 8,
        8 <= n,
    ensures
        0 <= wrap_index(s + i, n) < n,
        0 <= wrap_index(slot_at(h, s, n) + i, n) < n,
        wrap_index(slot_at(h, s, n) + i, n) == slot_at(h, wrap_index(s + i, n), n),
{
}

} // verus!
