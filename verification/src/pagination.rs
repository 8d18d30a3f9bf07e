//! The pagination engine: page windows over the bump-ordered top-level
//! listing, with previous/next navigation flags.

use vstd::prelude::*;

verus! {

/// How many top-level posts one page of the board shows.
pub const POSTS_PER_PAGE: usize = 30;

/// The first index of the page window, before clamping.
pub open spec fn window_start(page: int, page_size: int) -> int {
    page * page_size
}

/// One past the last index of the page window, before clamping.
pub open spec fn window_end(page: int, page_size: int) -> int {
    page * page_size + page_size
}

/// Clamp an index to the listing's length.
pub open spec fn clamp_to(x: int, total: int) -> int {
    if x > total {
        total
    } else {
        x
    }
}

pub open spec fn spec_has_prev(page: int) -> bool {
    page > 0
}

pub open spec fn spec_has_next(page: int, page_size: int, total: int) -> bool {
    window_end(page, page_size) < total
}

/// Compute the clamped page window over a listing of `total` items:
/// `(start, end, has_prev, has_next)` with `start <= end <= total`. A
/// window that begins at or past the end of the listing is empty.
pub fn window(total: usize, page: usize, page_size: usize) -> (r: (usize, usize, bool, bool))
    ensures
        r.0 == clamp_to(window_start(page as int, page_size as int), total as int),
        r.1 == clamp_to(window_end(page as int, page_size as int), total as int),
        r.0 <= r.1 <= total,
        r.2 == spec_has_prev(page as int),
        r.3 == spec_has_next(page as int, page_size as int, total as int),
{
    let start = match page.checked_mul(page_size) {
        Some(s) => if s > total {
            total
        } else {
            s
        },
        None => total,
    };
    let end = match page.checked_mul(page_size) {
        Some(s) => match s.checked_add(page_size) {
            Some(e) => if e > total {
                total
            } else {
                e
            },
            None => total,
        },
        None => total,
    };
    let has_prev = page > 0;
    let has_next = end < total;
    proof {
        let ws = window_start(page as int, page_size as int);
        let we = window_end(page as int, page_size as int);
        assert(ws >= 0 && we >= ws) by (nonlinear_arith)
            requires
                page >= 0,
                page_size >= 0,
                ws == page * page_size,
                we == page * page_size + page_size,
        ;
        assert(end < total ==> we < total);
        assert(we < total ==> end == we);
    }
    (start, end, has_prev, has_next)
}

/// The boundary behaviour of the page window.
///
/// An empty listing yields an empty first page with neither flag set; a
/// listing of exactly one page is returned whole on page zero with no
/// next page; one item beyond a full page leaves exactly one item for
/// page one, which has a previous page and no next. The one-item clause
/// asks for a page of at least one item: with a page size of zero every
/// window is empty.
pub proof fn lemma_pagination_boundary(page_size: int, total: int)
    requires
        page_size >= 0,
    ensures
        total == 0 ==> {
            &&& clamp_to(window_start(0, page_size), total) == 0
            &&& clamp_to(window_end(0, page_size), total) == 0
            &&& !spec_has_prev(0)
            &&& !spec_has_next(0, page_size, total)
        },
        total == page_size ==> {
            &&& clamp_to(window_start(0, page_size), total) == 0
            &&& clamp_to(window_end(0, page_size), total) == total
            &&& !spec_has_next(0, page_size, total)
        },
        total == page_size + 1 ==> {
            &&& clamp_to(window_start(0, page_size), total) == 0
            &&& clamp_to(window_end(0, page_size), total) == page_size
            &&& spec_has_next(0, page_size, total)
        },
        total == page_size + 1 && page_size >= 1 ==> {
            &&& clamp_to(window_start(1, page_size), total) == page_size
            &&& clamp_to(window_end(1, page_size), total) == total
            &&& clamp_to(window_end(1, page_size), total) - clamp_to(
                window_start(1, page_size),
                total,
            ) == 1
            &&& spec_has_prev(1)
            &&& !spec_has_next(1, page_size, total)
        },
{
}

} // verus!
