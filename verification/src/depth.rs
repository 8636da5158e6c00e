use vstd::prelude::*;

verus! {

/// The depth bound that applies to a traversal when the caller names none.
pub const DEFAULT_MAX_DEPTH: usize = 1000;

/// What a traversal does with a node whose successors would be at a given
/// depth.
#[derive(Debug, Clone, Copy, PartialEq, Eq)]
pub enum DepthCheck {
    /// The successors are visited.
    Continue,
    /// The successors are left out: the depth reaches the bound that the
    /// caller named.
    Stop,
    /// The traversal fails: the caller named no bound, and the depth reaches
    /// the default one.
    Exceeded,
}

/// The depth check: with a bound named by the caller, a depth that reaches
/// it stops the expansion; without one, a depth that reaches the default
/// bound is an error.
pub open spec fn depth_check(v: int, max_depth: Option<usize>, default_max_depth: usize) -> DepthCheck {
    match max_depth {
        Some(m) => if v >= m {
            DepthCheck::Stop
        } else {
            DepthCheck::Continue
        },
        None => if v >= default_max_depth {
            DepthCheck::Exceeded
        } else {
            DepthCheck::Continue
        },
    }
}

/// Decides what to do with a node whose successors would be at depth `v`.
pub fn check_max_depth(v: usize, max_depth: Option<usize>, default_max_depth: usize) -> (r:
    DepthCheck)
    ensures
        r == depth_check(v as int, max_depth, default_max_depth),
{
    match max_depth {
        Some(m) => {
            if v >= m {
                DepthCheck::Stop
            } else {
                DepthCheck::Continue
            }
        },
        None => {
            if v >= default_max_depth {
                DepthCheck::Exceeded
            } else {
                DepthCheck::Continue
            }
        },
    }
}

/// The bound at which a traversal fails: the default one where the caller
/// named none; where the caller did, the traversal stops at that bound and
/// never fails.
pub open spec fn limit_for(max_depth: Option<usize>) -> usize {
    match max_depth {
        Some(_) => usize::MAX,
        None => DEFAULT_MAX_DEPTH,
    }
}

/// The bound at which a traversal with the given depth bound fails.
pub fn failing_depth(max_depth: Option<usize>) -> (r: usize)
    ensures
        r == limit_for(max_depth),
{
    match max_depth {
        Some(_) => usize::MAX,
        None => DEFAULT_MAX_DEPTH,
    }
}

/// Whether a node is expanded whose successors would be at depth
/// `depth + 1`: it is unless the check says to stop. A check that fails
/// lets the traversal run into its failing depth.
pub open spec fn expands(depth: usize, max_depth: Option<usize>) -> bool {
    depth_check(depth + 1, max_depth, DEFAULT_MAX_DEPTH) != DepthCheck::Stop
}

/// Decides whether the node of a visit at `depth` is expanded.
pub fn should_expand(depth: usize, max_depth: Option<usize>) -> (r: bool)
    ensures
        r == expands(depth, max_depth),
{
    match depth.checked_add(1) {
        Some(v) => match check_max_depth(v, max_depth, DEFAULT_MAX_DEPTH) {
            DepthCheck::Stop => false,
            _ => true,
        },
        None => max_depth.is_none(),
    }
}

} // verus!
