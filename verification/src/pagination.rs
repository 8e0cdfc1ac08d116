//! The pagination engine: a pure windowing utility shared by every listed
//! query. The requested page size is clamped to [`MAX_PAGE_SIZE`]; a window
//! never holds more than the clamped size, and `has_next_page` is true
//! exactly when entries beyond the returned window exist.

use vstd::prelude::*;

verus! {

/// The hard upper bound on a page size, whatever the caller requests.
pub const MAX_PAGE_SIZE: usize = 50;

/// The index window a paginated query returns: the half-open range
/// `[start, end)` over the underlying store, together with the clamped
/// page size and whether entries beyond the window exist.
#[derive(Debug, Clone, Copy, PartialEq, Eq, Structural)]
pub struct PageWindow {
    pub start: usize,
    pub end: usize,
    pub per_page: usize,
    pub has_next_page: bool,
}

/// The page size actually applied: the requested one, clamped to
/// [`MAX_PAGE_SIZE`].
pub open spec fn clamped_page_size(per_page: int) -> int {
    if per_page > MAX_PAGE_SIZE {
        MAX_PAGE_SIZE as int
    } else {
        per_page
    }
}

/// Start of the forward window: `from`, capped at `total`.
pub open spec fn forward_start(total: int, from: int) -> int {
    if from > total {
        total
    } else {
        from
    }
}

/// End of the forward window: `from + per_page` (clamped), capped at `total`.
pub open spec fn forward_end(total: int, from: int, per_page: int) -> int {
    if from + clamped_page_size(per_page) > total {
        total
    } else {
        from + clamped_page_size(per_page)
    }
}

/// Whether entries beyond the forward window exist.
pub open spec fn forward_has_next(total: int, from: int, per_page: int) -> bool {
    forward_end(total, from, per_page) < total
}

/// Upper bound (exclusive) of the reverse window over an ascending-id store
/// of `total` entries: `from` is an offset back from the newest entry.
pub open spec fn reverse_upper(total: int, from: int) -> int {
    if from > total {
        0
    } else {
        total - from
    }
}

/// Lower bound (inclusive) of the reverse window.
pub open spec fn reverse_lower(total: int, from: int, per_page: int) -> int {
    if clamped_page_size(per_page) > reverse_upper(total, from) {
        0
    } else {
        reverse_upper(total, from) - clamped_page_size(per_page)
    }
}

/// Whether older entries below the reverse window remain.
pub open spec fn reverse_has_next(total: int, from: int, per_page: int) -> bool {
    reverse_lower(total, from, per_page) > 0
}

/// Computes the window of a forward-ordered list: `[from, from + per_page)`
/// over `[0, total)`, with the page size clamped.
pub fn forward_window(total: usize, from: usize, per_page: usize) -> (w: PageWindow)
    ensures
        w.per_page == clamped_page_size(per_page as int),
        w.per_page <= MAX_PAGE_SIZE,
        w.start == forward_start(total as int, from as int),
        w.end == forward_end(total as int, from as int, per_page as int),
        w.has_next_page == forward_has_next(total as int, from as int, per_page as int),
        w.start <= w.end <= total,
        w.end - w.start <= w.per_page,
{
    let pp = if per_page > MAX_PAGE_SIZE {
        MAX_PAGE_SIZE
    } else {
        per_page
    };
    let start = if from > total {
        total
    } else {
        from
    };
    let remaining = total - start;
    let take = if pp > remaining {
        remaining
    } else {
        pp
    };
    PageWindow { start, end: start + take, per_page: pp, has_next_page: start + take < total }
}

/// Computes the window of a reverse-chronological list over an ascending-id
/// store of `total` entries: `from` counts back from the newest entry, and
/// the window `[start, end)` is traversed in descending order by the caller.
pub fn reverse_window(total: usize, from: usize, per_page: usize) -> (w: PageWindow)
    ensures
        w.per_page == clamped_page_size(per_page as int),
        w.per_page <= MAX_PAGE_SIZE,
        w.start == reverse_lower(total as int, from as int, per_page as int),
        w.end == reverse_upper(total as int, from as int),
        w.has_next_page == reverse_has_next(total as int, from as int, per_page as int),
        w.start <= w.end <= total,
        w.end - w.start <= w.per_page,
{
    let pp = if per_page > MAX_PAGE_SIZE {
        MAX_PAGE_SIZE
    } else {
        per_page
    };
    let upper = if from > total {
        0
    } else {
        total - from
    };
    let lower = if pp > upper {
        0
    } else {
        upper - pp
    };
    PageWindow { start: lower, end: upper, per_page: pp, has_next_page: lower > 0 }
}

} // verus!
