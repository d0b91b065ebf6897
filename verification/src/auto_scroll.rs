//! Auto-scroll while dragging: when the pointer leaves the vertical dead
//! zone of the viewport during a drag, the view scrolls away from the
//! violated edge, at a speed that grows linearly with the distance past the
//! edge. Coordinates are integer scroll units.

use vstd::prelude::*;

use crate::{row_wf, sel_any, sel_empty, SelectableTable};

verus! {

/// Largest magnitude the controller accepts for viewport coordinates,
/// dead-zone distances and speeds.
pub const MAX_COORD: i64 = 1_000_000_000;

/// The running scroll offset saturates here — far beyond any real content
/// height, so the cap is never hit in practice.
pub const MAX_SCROLL_OFFSET: i64 = 0x4000_0000_0000_0000;

/// Scrolls the table automatically when the user drags near the top or
/// bottom edge of the view.
///
/// `distance_from_min` is the dead-zone depth measured from the top edge
/// (larger by default, since the header is in the way), `distance_from_max`
/// the one measured from the bottom edge, and `max_speed` the cap on the
/// per-frame offset change.
pub struct AutoScroll {
    /// The current vertical scroll offset; never negative.
    pub scroll_offset: i64,
    /// Whether auto-scrolling is enabled.
    pub enabled: bool,
    /// Dead-zone depth from the top edge. Default: 200.
    pub distance_from_min: i64,
    /// Dead-zone depth from the bottom edge. Default: 120.
    pub distance_from_max: i64,
    /// The maximum per-frame scroll speed. Default: 30.
    pub max_speed: i64,
}

/// Per-frame scroll speed for a pointer `distance` units past an edge: the
/// configured maximum scaled by `distance / 100`, clamped to the
/// [1/10, 1] fraction of the maximum.
pub open spec fn spec_speed(max_speed: int, distance: int) -> int {
    max_speed * (if distance < 10 {
        10int
    } else if distance > 100 {
        100int
    } else {
        distance
    }) / 100
}

impl AutoScroll {
    /// The configuration every operation keeps: a non-negative offset below
    /// the saturation cap, and bounded distances and speed.
    pub open spec fn wf(self) -> bool {
        &&& 0 <= self.scroll_offset <= MAX_SCROLL_OFFSET
        &&& 0 <= self.distance_from_min <= MAX_COORD
        &&& 0 <= self.distance_from_max <= MAX_COORD
        &&& 0 <= self.max_speed <= MAX_COORD
    }

    /// The configuration `Default::default` and `new` start from.
    pub open spec fn spec_default() -> Self {
        AutoScroll {
            scroll_offset: 0,
            enabled: false,
            distance_from_min: 200,
            distance_from_max: 120,
            max_speed: 30,
        }
    }

    /// A disabled controller with the default distances and speed.
    pub fn new(enabled: bool) -> (r: Self)
        ensures
            r == (AutoScroll { enabled, ..Self::spec_default() }),
            r.wf(),
    {
        AutoScroll {
            scroll_offset: 0,
            enabled,
            distance_from_min: 200,
            distance_from_max: 120,
            max_speed: 30,
        }
    }

    /// Set the dead-zone depth from the top edge; give it some extra room
    /// for the header.
    pub fn distance_from_min(self, distance: i64) -> (r: Self)
        requires
            0 <= distance <= MAX_COORD,
        ensures
            r == (AutoScroll { distance_from_min: distance, ..self }),
    {
        AutoScroll { distance_from_min: distance, ..self }
    }

    /// Set the dead-zone depth from the bottom edge.
    pub fn distance_from_max(self, distance: i64) -> (r: Self)
        requires
            0 <= distance <= MAX_COORD,
        ensures
            r == (AutoScroll { distance_from_max: distance, ..self }),
    {
        AutoScroll { distance_from_max: distance, ..self }
    }

    /// Set the maximum per-frame scroll speed.
    pub fn max_speed(self, speed: i64) -> (r: Self)
        requires
            0 <= speed <= MAX_COORD,
        ensures
            r == (AutoScroll { max_speed: speed, ..self }),
    {
        AutoScroll { max_speed: speed, ..self }
    }

    /// One frame of auto-scrolling against the viewport spanning
    /// `rect_min_y ..= rect_max_y` vertically. Inert — `None`, nothing
    /// changed — when disabled, when there is no pointer, or when the
    /// pointer sits inside the dead zone. Otherwise the offset moves away
    /// from the violated edge by the distance-scaled speed, clamped so it
    /// never goes negative, and the new offset is returned.
    pub fn start_scroll(&mut self, rect_min_y: i64, rect_max_y: i64, pointer: Option<i64>) -> (offset:
        Option<i64>)
        requires
            old(self).wf(),
            -MAX_COORD <= rect_min_y <= MAX_COORD,
            -MAX_COORD <= rect_max_y <= MAX_COORD,
            match pointer {
                Some(y) => -MAX_COORD <= y <= MAX_COORD,
                None => true,
            },
        ensures
            final(self).wf(),
            final(self).scroll_offset >= 0,
            *final(self) == (AutoScroll { scroll_offset: final(self).scroll_offset, ..*old(self) }),
            !old(self).enabled ==> offset is None && *final(self) == *old(self),
            old(self).enabled && pointer is None ==> offset is None && *final(self) == *old(self),
            old(self).enabled ==> (pointer matches Some(y) ==> {
                let min_y = rect_min_y + old(self).distance_from_min;
                let max_y = rect_max_y - old(self).distance_from_max;
                if y < min_y {
                    let moved = old(self).scroll_offset - spec_speed(
                        old(self).max_speed as int,
                        min_y - y,
                    );
                    let clamped: int = if moved < 0 {
                        0
                    } else {
                        moved
                    };
                    final(self).scroll_offset == clamped && offset == Some(
                        final(self).scroll_offset,
                    )
                } else if y > max_y {
                    let moved = old(self).scroll_offset + spec_speed(
                        old(self).max_speed as int,
                        y - max_y,
                    );
                    let clamped: int = if moved > MAX_SCROLL_OFFSET {
                        MAX_SCROLL_OFFSET as int
                    } else {
                        moved
                    };
                    final(self).scroll_offset == clamped && offset == Some(
                        final(self).scroll_offset,
                    )
                } else {
                    offset is None && *final(self) == *old(self)
                }
            }),
    {
        if !self.enabled {
            return None;
        }
        if let Some(pointer_y) = pointer {
            // The top dead zone gets a bit more space: the header is in the way.
            let min_y = rect_min_y + self.distance_from_min;
            let max_y = rect_max_y - self.distance_from_max;
            if pointer_y < min_y {
                // Above the dead zone: scroll up, scaled by the distance.
                let distance = min_y - pointer_y;
                let clamped_distance = if distance < 10 {
                    10
                } else if distance > 100 {
                    100
                } else {
                    distance
                };
                proof {
                    assert(0 <= self.max_speed * clamped_distance <= 100 * MAX_COORD)
                        by (nonlinear_arith)
                        requires
                            0 <= self.max_speed <= MAX_COORD,
                            10 <= clamped_distance <= 100,
                    ;
                }
                let speed = self.max_speed * clamped_distance / 100;
                let moved = self.scroll_offset - speed;
                self.scroll_offset = if moved < 0 {
                    0
                } else {
                    moved
                };
                Some(self.scroll_offset)
            } else if pointer_y > max_y {
                // Below the dead zone: scroll down, scaled by the distance.
                let distance = pointer_y - max_y;
                let clamped_distance = if distance < 10 {
                    10
                } else if distance > 100 {
                    100
                } else {
                    distance
                };
                proof {
                    assert(0 <= self.max_speed * clamped_distance <= 100 * MAX_COORD)
                        by (nonlinear_arith)
                        requires
                            0 <= self.max_speed <= MAX_COORD,
                            10 <= clamped_distance <= 100,
                    ;
                }
                let speed = self.max_speed * clamped_distance / 100;
                let moved = self.scroll_offset + speed;
                self.scroll_offset = if moved > MAX_SCROLL_OFFSET {
                    MAX_SCROLL_OFFSET
                } else {
                    moved
                };
                Some(self.scroll_offset)
            } else {
                None
            }
        } else {
            None
        }
    }
}

impl Default for AutoScroll {
    /// A disabled controller with the default distances and speed.
    fn default() -> (r: Self)
        ensures
            r == Self::spec_default(),
            r.wf(),
    {
        AutoScroll::new(false)
    }
}

/// A table that changed nothing but its auto-scroll state, to another
/// well-formed auto-scroll state, is still well formed.
proof fn lemma_wf_scroll_frame(pre: SelectableTable, post: SelectableTable)
    requires
        pre.wf(),
        post.auto_scroll.wf(),
        post == (SelectableTable { auto_scroll: post.auto_scroll, ..pre }),
    ensures
        post.wf(),
{
    assert(post.store() == pre.store());
    assert(post.shown() == pre.shown());
    assert(post.index_map() == pre.index_map());
    assert(post.actives() == pre.actives());
    assert forall|i: int|
        0 <= i < post.store().len() implies row_wf(#[trigger] post.store()[i], post.ncols())
            && sel_empty(post.store()[i]) && 0 <= post.store()[i].id < post.next_id() by {
        assert(row_wf(pre.store()[i], pre.ncols()));
        assert(sel_empty(pre.store()[i]));
    }
    assert forall|i: int, j: int|
        0 <= i < j < post.store().len() implies #[trigger] post.store()[i].id
            < #[trigger] post.store()[j].id by {
        assert(pre.store()[i].id < pre.store()[j].id);
    }
    assert forall|i: int|
        0 <= i < post.shown().len() implies row_wf(#[trigger] post.shown()[i], post.ncols()) by {
        assert(row_wf(pre.shown()[i], pre.ncols()));
    }
    assert forall|i: int|
        0 <= i < post.shown().len() implies {
            let id = #[trigger] post.shown()[i].id as i64;
            &&& post.index_map().contains_key(id)
            &&& post.index_map()[id] as int == i
        } by {
        assert(pre.index_map().contains_key(pre.shown()[i].id as i64));
        assert(pre.index_map()[pre.shown()[i].id as i64] as int == i);
    }
    assert forall|id: i64| post.index_map().contains_key(id) implies {
        let p = #[trigger] post.index_map()[id] as int;
        &&& 0 <= p < post.shown().len()
        &&& post.shown()[p].id == id as int
    } by {
        assert(pre.index_map().contains_key(id));
    }
    assert forall|k: int|
        0 <= k < post.actives().len() implies post.index_map().contains_key(
        #[trigger] post.actives()[k]) by {
        assert(pre.index_map().contains_key(pre.actives()[k]));
    }
    assert forall|k: int, l: int|
        0 <= k < l < post.actives().len() implies #[trigger] post.actives()[k]
            != #[trigger] post.actives()[l] by {
        assert(pre.actives()[k] != pre.actives()[l]);
    }
    assert forall|i: int|
        0 <= i < post.shown().len() && sel_any(#[trigger] post.shown()[i]) implies post.actives()
            .contains(post.shown()[i].id as i64) by {
        assert(sel_any(pre.shown()[i]));
        assert(pre.actives().contains(pre.shown()[i].id as i64));
    }
    assert(post.wf());
}

impl SelectableTable {
    /// Adopt the scroll offset the host's scroll area settled on this frame.
    pub fn update_scroll_offset(&mut self, offset: i64)
        requires
            old(self).wf(),
            0 <= offset <= MAX_SCROLL_OFFSET,
        ensures
            final(self).wf(),
            *final(self) == (SelectableTable {
                auto_scroll: (AutoScroll { scroll_offset: offset, ..old(self).auto_scroll }),
                ..*old(self)
            }),
    {
        self.auto_scroll.scroll_offset = offset;
        proof {
            lemma_wf_scroll_frame(*old(self), *self);
        }
    }

    /// Enable auto-scrolling when dragging near the edges of the view.
    pub fn auto_scroll(self) -> (table: Self)
        requires
            self.wf(),
        ensures
            table.wf(),
            table == (SelectableTable {
                auto_scroll: (AutoScroll { enabled: true, ..self.auto_scroll }),
                ..self
            }),
    {
        let mut table = self;
        table.auto_scroll.enabled = true;
        proof {
            lemma_wf_scroll_frame(self, table);
        }
        table
    }

    /// Set the maximum per-frame speed of auto-scrolling.
    pub fn scroll_speed(self, speed: i64) -> (table: Self)
        requires
            self.wf(),
            0 <= speed <= MAX_COORD,
        ensures
            table.wf(),
            table == (SelectableTable {
                auto_scroll: (AutoScroll { max_speed: speed, ..self.auto_scroll }),
                ..self
            }),
    {
        let mut table = self;
        table.auto_scroll.max_speed = speed;
        proof {
            lemma_wf_scroll_frame(self, table);
        }
        table
    }

    /// Replace the auto-scroll configuration while building the table.
    pub fn set_auto_scroll(self, scroll: AutoScroll) -> (table: Self)
        requires
            self.wf(),
            scroll.wf(),
        ensures
            table.wf(),
            table == (SelectableTable { auto_scroll: scroll, ..self }),
    {
        let mut table = self;
        table.auto_scroll = scroll;
        proof {
            lemma_wf_scroll_frame(self, table);
        }
        table
    }

    /// Replace the auto-scroll configuration at runtime.
    pub fn update_auto_scroll(&mut self, scroll: AutoScroll)
        requires
            old(self).wf(),
            scroll.wf(),
        ensures
            final(self).wf(),
            *final(self) == (SelectableTable { auto_scroll: scroll, ..*old(self) }),
    {
        self.auto_scroll = scroll;
        proof {
            lemma_wf_scroll_frame(*old(self), *self);
        }
    }

    /// One frame of auto-scrolling, inert unless a drag is in progress:
    /// hands the viewport's vertical extent and the pointer to the
    /// controller and returns the scroll offset to apply, if any.
    pub fn drag_scroll(&mut self, rect_min_y: i64, rect_max_y: i64, pointer: Option<i64>) -> (offset:
        Option<i64>)
        requires
            old(self).wf(),
            -MAX_COORD <= rect_min_y <= MAX_COORD,
            -MAX_COORD <= rect_max_y <= MAX_COORD,
            match pointer {
                Some(y) => -MAX_COORD <= y <= MAX_COORD,
                None => true,
            },
        ensures
            final(self).wf(),
            *final(self) == (SelectableTable { auto_scroll: final(self).auto_scroll, ..*old(self) }),
            old(self).drag_started_on is None ==> offset is None && *final(self) == *old(self),
            old(self).drag_started_on is Some && !old(self).auto_scroll.enabled ==> offset is None
                && *final(self) == *old(self),
            old(self).drag_started_on is Some && old(self).auto_scroll.enabled && pointer is None
                ==> offset is None && *final(self) == *old(self),
            old(self).drag_started_on is Some && old(self).auto_scroll.enabled ==> (
            pointer matches Some(y) ==> {
                let scroll = old(self).auto_scroll;
                let min_y = rect_min_y + scroll.distance_from_min;
                let max_y = rect_max_y - scroll.distance_from_max;
                if y < min_y {
                    let moved = scroll.scroll_offset - spec_speed(scroll.max_speed as int, min_y - y);
                    let clamped: int = if moved < 0 {
                        0
                    } else {
                        moved
                    };
                    final(self).auto_scroll.scroll_offset == clamped && offset == Some(
                        final(self).auto_scroll.scroll_offset,
                    )
                } else if y > max_y {
                    let moved = scroll.scroll_offset + spec_speed(scroll.max_speed as int, y - max_y);
                    let clamped: int = if moved > MAX_SCROLL_OFFSET {
                        MAX_SCROLL_OFFSET as int
                    } else {
                        moved
                    };
                    final(self).auto_scroll.scroll_offset == clamped && offset == Some(
                        final(self).auto_scroll.scroll_offset,
                    )
                } else {
                    offset is None && *final(self) == *old(self)
                }
            }),
    {
        if self.drag_started_on.is_some() {
            let offset = self.auto_scroll.start_scroll(rect_min_y, rect_max_y, pointer);
            proof {
                lemma_wf_scroll_frame(*old(self), *self);
            }
            offset
        } else {
            None
        }
    }
}

} // verus!
