//! Cycling through the open tabs (Ctrl+Tab / Ctrl+Shift+Tab).
use vstd::prelude::*;

verus! {

/// The tab after `current` among `count` open tabs, wrapping to the first;
/// with fewer than two tabs the active tab stays.
pub open spec fn spec_next_tab(current: nat, count: nat) -> nat {
    if count > 1 {
        (current + 1) % count
    } else {
        current
    }
}

/// The tab before `current`, wrapping to the last; with fewer than two tabs
/// the active tab stays.
pub open spec fn spec_prev_tab(current: nat, count: nat) -> nat {
    if count > 1 {
        if current == 0 {
            (count - 1) as nat
        } else {
            (current - 1) as nat
        }
    } else {
        current
    }
}

/// Index of the tab to activate on "next tab".
pub fn next_tab_index(current: usize, count: usize) -> (r: usize)
    requires
        count > 1 ==> current < usize::MAX,
    ensures
        r == spec_next_tab(current as nat, count as nat),
{
    if count > 1 {
        (current + 1) % count
    } else {
        current
    }
}

/// Index of the tab to activate on "previous tab".
pub fn prev_tab_index(current: usize, count: usize) -> (r: usize)
    ensures
        r == spec_prev_tab(current as nat, count as nat),
{
    if count > 1 {
        if current == 0 {
            count - 1
        } else {
            current - 1
        }
    } else {
        current
    }
}

/// From any open tab, "next" then "previous" (or the other way round) comes
/// back to it, and both moves stay among the open tabs.
pub proof fn law_tab_cycling_undoes(current: nat, count: nat)
    requires
        current < count,
    ensures
        spec_prev_tab(spec_next_tab(current, count), count) == current,
        spec_next_tab(spec_prev_tab(current, count), count) == current,
        spec_next_tab(current, count) < count,
        spec_prev_tab(current, count) < count,
{
    if count > 1 {
        if current + 1 < count {
            assert((current + 1) % count == current + 1) by (nonlinear_arith)
                requires
                    current + 1 < count,
            ;
        } else {
            assert((current + 1) % count == 0) by (nonlinear_arith)
                requires
                    current + 1 == count,
                    count > 1,
            ;
        }
        if current == 0 {
            assert(((count - 1) + 1) % (count as int) == 0) by (nonlinear_arith)
                requires
                    count > 1,
            ;
        } else {
            assert(((current - 1) + 1) % (count as int) == current) by (nonlinear_arith)
                requires
                    0 < current < count,
            ;
        }
    }
}

} // verus!
