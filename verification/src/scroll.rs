//! Viewport scrolling with lookahead margin. The scroll offset is a pure
//! function of the selection index, the entry count, the visible height and
//! the previous offset; referencing the previous offset gives hysteresis
//! rather than always-centered scrolling.

use vstd::prelude::*;

verus! {

/// Lookahead margin: scrolling triggers this many rows before the viewport
/// edge.
pub open spec fn spec_margin(height: int) -> int {
    if 3 <= height {
        3
    } else {
        height
    }
}

/// The new scroll offset. With no visible rows the offset is unchanged.
/// Near the bottom edge the offset grows (if it has room) so the selection
/// sits `margin` rows above the bottom; near the top edge it shrinks so the
/// selection sits `margin` rows below the top; otherwise it is unchanged.
pub open spec fn spec_scroll(selected: int, count: int, height: int, prior: int) -> int {
    if height == 0 {
        prior
    } else {
        let margin = spec_margin(height);
        let visible_pos = if selected >= prior {
            selected - prior
        } else {
            0
        };
        let max_scroll = if count >= height {
            count - height
        } else {
            0
        };
        if visible_pos >= height - margin {
            if prior < max_scroll {
                let grown = if selected + margin >= height - 1 {
                    selected + margin - (height - 1)
                } else {
                    0
                };
                if grown < max_scroll {
                    grown
                } else {
                    max_scroll
                }
            } else {
                prior
            }
        } else if visible_pos < margin {
            if selected >= margin {
                selected - margin
            } else {
                0
            }
        } else {
            prior
        }
    }
}

/// Compute the scroll offset for one render.
pub fn compute_scroll(selected: usize, count: usize, height: usize, prior: usize) -> (r: usize)
    ensures
        r == spec_scroll(selected as int, count as int, height as int, prior as int),
{
    if height == 0 {
        return prior;
    }
    let margin: usize = if 3 <= height {
        3
    } else {
        height
    };
    let visible_pos: usize = if selected >= prior {
        selected - prior
    } else {
        0
    };
    let max_scroll: usize = if count >= height {
        count - height
    } else {
        0
    };
    if visible_pos >= height - margin {
        if prior < max_scroll {
            // selected + margin - (height - 1), clamped to [0, max_scroll],
            // computed without overflow
            let grown: usize = if margin <= height - 1 {
                if selected >= height - 1 - margin {
                    selected - (height - 1 - margin)
                } else {
                    0
                }
            } else {
                // margin == height, so the growth target is selected + 1
                if selected < max_scroll {
                    selected + 1
                } else {
                    max_scroll
                }
            };
            if grown < max_scroll {
                grown
            } else {
                max_scroll
            }
        } else {
            prior
        }
    } else if visible_pos < margin {
        if selected >= margin {
            selected - margin
        } else {
            0
        }
    } else {
        prior
    }
}

/// The computed offset never exceeds the last useful offset
/// `max(0, count - height)`, provided the prior offset did not.
pub proof fn lemma_scroll_offset_bounded(selected: int, count: int, height: int, prior: int)
    requires
        height > 0,
        0 <= selected,
        0 <= prior,
        prior <= (if count >= height {
            count - height
        } else {
            0
        }),
    ensures
        spec_scroll(selected, count, height, prior) <= (if count >= height {
            count - height
        } else {
            0
        }),
        spec_scroll(selected, count, height, prior) >= 0,
{
}

/// With at least four visible rows (so the margin is strictly inside the
/// window), a valid selection and an in-range prior offset, the selection
/// ends up inside the viewport: `r <= selected < r + height`.
pub proof fn lemma_scroll_keeps_selection_visible(
    selected: int,
    count: int,
    height: int,
    prior: int,
)
    requires
        4 <= height,
        0 <= selected < count,
        0 <= prior,
        prior <= (if count >= height {
            count - height
        } else {
            0
        }),
    ensures
        spec_scroll(selected, count, height, prior) <= selected,
        selected < spec_scroll(selected, count, height, prior) + height,
{
}

} // verus!
