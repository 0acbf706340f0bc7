//! Which document lines the minimap shows, and which line a click on it
//! scrolls to.  Lines are numbered from 1; the pixel geometry that yields
//! `lines_that_fit` and the clicked offset stays with the caller.

use vstd::prelude::*;

verus! {

/// The first line the minimap shows: line 1 when the whole document fits,
/// else the window centred on the visible lines `vis_min..=vis_max`, kept
/// inside the document.
pub open spec fn window_start_spec(total: int, fit: int, vis_min: int, vis_max: int) -> int {
    if total <= fit {
        1
    } else {
        let center = (vis_min + vis_max) / 2;
        let s = if center - fit / 2 > 1 {
            center - fit / 2
        } else {
            1
        };
        if s < total - fit + 1 {
            s
        } else {
            total - fit + 1
        }
    }
}

/// The window of lines the minimap shows, `start..end`, for a document of
/// `total_lines` lines of which `lines_that_fit` fit, with the lines
/// `vis_min..=vis_max` visible in the editor.
pub fn minimap_window(total_lines: usize, lines_that_fit: usize, vis_min: usize, vis_max: usize) -> (r: (
    usize,
    usize,
))
    requires
        vis_min + vis_max <= usize::MAX,
        total_lines < usize::MAX,
    ensures
        r.0 == window_start_spec(total_lines as int, lines_that_fit as int, vis_min as int, vis_max as int),
        r.1 == (if r.0 + lines_that_fit < total_lines + 1 {
            r.0 + lines_that_fit
        } else {
            total_lines + 1
        }),
        1 <= r.0,
        r.0 <= r.1 <= total_lines + 1,
        r.1 - r.0 <= lines_that_fit,
{
    let start = if total_lines <= lines_that_fit {
        1
    } else {
        let center = (vis_min + vis_max) / 2;
        let half = lines_that_fit / 2;
        let s = if center > half && center - half > 1 {
            center - half
        } else {
            1
        };
        let cap = total_lines - lines_that_fit + 1;
        if s < cap {
            s
        } else {
            cap
        }
    };
    let end = if lines_that_fit < total_lines + 1 - start {
        start + lines_that_fit
    } else {
        total_lines + 1
    };
    (start, end)
}

/// The line a click `offset` lines below the top of a minimap window that
/// starts at line `start` scrolls to, kept within the document's lines.
pub fn minimap_click_line(total_lines: usize, start: usize, offset: usize) -> (r: usize)
    requires
        total_lines >= 1,
        start + offset <= usize::MAX,
    ensures
        r == (if start + offset < 1 {
            1
        } else if start + offset > total_lines {
            total_lines as int
        } else {
            start + offset
        }),
        1 <= r <= total_lines,
{
    let t = start + offset;
    if t < 1 {
        1
    } else if t > total_lines {
        total_lines
    } else {
        t
    }
}

} // verus!
