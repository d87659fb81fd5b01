//! The geometry of a window on the screen: where a position lies relative
//! to the window and to what has been scrolled, whether it can be seen,
//! and how far to scroll so that it can.

use vstd::prelude::*;

verus! {

/// A place on the screen, or an offset between two places.
#[derive(Clone, Copy, Debug, PartialEq, Eq, Structural)]
pub struct Position {
    pub x: i32,
    pub y: i32,
}

/// A rectangle of the screen.
#[derive(Clone, Copy, Debug, PartialEq, Eq, Structural)]
pub struct CursesBox {
    pub x: i32,
    pub y: i32,
    pub width: i32,
    pub height: i32,
}

/// The size of the screen.
#[derive(Clone, Copy, Debug, PartialEq, Eq, Structural)]
pub struct Dimensions {
    pub width: i32,
    pub height: i32,
}

/// Whether a position lies in a window; if not, each difference is what
/// has to be added to the coordinate to bring it to the nearest edge.
#[derive(Clone, Copy, Debug, PartialEq, Eq, Structural)]
pub enum BoundsResult {
    YXOutOfBounds { x_diff: i32, y_diff: i32 },
    XOutOfBounds { x_diff: i32 },
    YOutOfBounds { y_diff: i32 },
    InBound,
}

/// Where a drawer is attached to its window.
#[derive(Clone, Copy, Debug, PartialEq, Eq, Structural)]
pub enum DrawerPosition {
    Bottom,
}

/// The number fits the coordinates of the screen.
pub open spec fn fits(v: int) -> bool {
    i32::MIN <= v <= i32::MAX
}

/// Whether the number fits the coordinates of the screen.
pub fn in_range(v: i64) -> (fitting: bool)
    ensures
        fitting == fits(v as int),
{
    -2147483648 <= v && v <= 2147483647
}

/// What has to be added to the coordinate `at` of a window of the given
/// extent to bring it to the nearest edge; 0 if it lies within.
pub open spec fn correction(at: int, extent: int) -> int {
    if at < 0 {
        -at
    } else if at >= extent {
        extent - 1 - at
    } else {
        0
    }
}

/// Where `relative` lies in a window of the given size.
pub open spec fn bounds_of(relative_x: int, relative_y: int, width: int, height: int)
    -> BoundsResult {
    let x_in = 0 <= relative_x < width;
    let y_in = 0 <= relative_y < height;
    if x_in && y_in {
        BoundsResult::InBound
    } else if !x_in && !y_in {
        BoundsResult::YXOutOfBounds {
            x_diff: correction(relative_x, width) as i32,
            y_diff: correction(relative_y, height) as i32,
        }
    } else if !x_in {
        BoundsResult::XOutOfBounds { x_diff: correction(relative_x, width) as i32 }
    } else {
        BoundsResult::YOutOfBounds { y_diff: correction(relative_y, height) as i32 }
    }
}

impl Position {
    /// The position moved by `other`.
    pub fn add(self, other: Position) -> (sum: Position)
        requires
            fits(self.x + other.x),
            fits(self.y + other.y),
        ensures
            sum.x == self.x + other.x,
            sum.y == self.y + other.y,
    {
        Position { x: self.x + other.x, y: self.y + other.y }
    }

    /// The offset from `other` to the position.
    pub fn sub(self, other: Position) -> (difference: Position)
        requires
            fits(self.x - other.x),
            fits(self.y - other.y),
        ensures
            difference.x == self.x - other.x,
            difference.y == self.y - other.y,
    {
        Position { x: self.x - other.x, y: self.y - other.y }
    }
}

/// A window: the rectangle of the screen that it covers, and how far its
/// content has been scrolled.
#[derive(Clone, Copy, Debug, PartialEq, Eq, Structural)]
pub struct Pane {
    pub bounding_box: CursesBox,
    pub scroll: Position,
}

impl Pane {
    /// Where a position of the content lies relative to the window's
    /// corner, by one coordinate.
    pub open spec fn shown_x(self, content_x: int) -> int {
        content_x - self.scroll.x
    }

    /// Where a position of the content lies relative to the window's
    /// corner, by the other coordinate.
    pub open spec fn shown_y(self, content_y: int) -> int {
        content_y - self.scroll.y
    }

    /// The window can show this position of the content or say how far
    /// off it is, without a number leaving the range of the coordinates.
    pub open spec fn can_place(self, content: Position) -> bool {
        let b = self.bounding_box;
        &&& fits(b.x - self.scroll.x)
        &&& fits(b.y - self.scroll.y)
        &&& fits(b.x - self.scroll.x + content.x)
        &&& fits(b.y - self.scroll.y + content.y)
        &&& fits(self.shown_x(content.x as int))
        &&& fits(self.shown_y(content.y as int))
        &&& fits(b.width - self.shown_x(content.x as int))
        &&& fits(b.height - self.shown_y(content.y as int))
        &&& fits(b.width - 1 - self.shown_x(content.x as int))
        &&& fits(b.height - 1 - self.shown_y(content.y as int))
        &&& fits(-self.shown_x(content.x as int))
        &&& fits(-self.shown_y(content.y as int))
        &&& fits(b.width - 1)
        &&& fits(b.height - 1)
        &&& fits(-correction(self.shown_x(content.x as int), b.width as int))
        &&& fits(-correction(self.shown_y(content.y as int), b.height as int))
        &&& fits(self.scroll.x - correction(self.shown_x(content.x as int), b.width as int))
        &&& fits(self.scroll.y - correction(self.shown_y(content.y as int), b.height as int))
    }

    /// The window can say where this place of the screen lies in it,
    /// without a number leaving the range of the coordinates.
    pub open spec fn can_see(self, absolute: Position) -> bool {
        let b = self.bounding_box;
        let x = absolute.x - b.x;
        let y = absolute.y - b.y;
        &&& fits(x)
        &&& fits(y)
        &&& fits(b.width - x)
        &&& fits(b.height - y)
        &&& fits(b.width - 1 - x)
        &&& fits(b.height - 1 - y)
        &&& fits(-x)
        &&& fits(-y)
        &&& fits(b.width - 1)
        &&& fits(b.height - 1)
    }

    /// Whether `scroll_into_view` can be asked for this position of the
    /// content.
    pub fn placeable(&self, content: &Position) -> (can: bool)
        ensures
            can == self.can_place(*content),
    {
        let b = self.bounding_box;
        let shown_x: i64 = content.x as i64 - self.scroll.x as i64;
        let shown_y: i64 = content.y as i64 - self.scroll.y as i64;
        let fix_x: i64 = if shown_x < 0 {
            -shown_x
        } else if shown_x >= b.width as i64 {
            b.width as i64 - 1 - shown_x
        } else {
            0
        };
        let fix_y: i64 = if shown_y < 0 {
            -shown_y
        } else if shown_y >= b.height as i64 {
            b.height as i64 - 1 - shown_y
        } else {
            0
        };
        in_range(b.x as i64 - self.scroll.x as i64) && in_range(b.y as i64 - self.scroll.y as i64)
            && in_range(b.x as i64 - self.scroll.x as i64 + content.x as i64) && in_range(
            b.y as i64 - self.scroll.y as i64 + content.y as i64,
        ) && in_range(shown_x) && in_range(shown_y) && in_range(b.width as i64 - shown_x)
            && in_range(b.height as i64 - shown_y) && in_range(b.width as i64 - 1 - shown_x)
            && in_range(b.height as i64 - 1 - shown_y) && in_range(-shown_x) && in_range(-shown_y)
            && in_range(b.width as i64 - 1) && in_range(b.height as i64 - 1) && in_range(-fix_x)
            && in_range(-fix_y) && in_range(self.scroll.x as i64 - fix_x) && in_range(
            self.scroll.y as i64 - fix_y,
        )
    }

    /// Whether `is_visible` can be asked for this place of the screen.
    pub fn seeable(&self, absolute: &Position) -> (can: bool)
        ensures
            can == self.can_see(*absolute),
    {
        let b = self.bounding_box;
        let x: i64 = absolute.x as i64 - b.x as i64;
        let y: i64 = absolute.y as i64 - b.y as i64;
        in_range(x) && in_range(y) && in_range(b.width as i64 - x) && in_range(
            b.height as i64 - y,
        ) && in_range(b.width as i64 - 1 - x) && in_range(b.height as i64 - 1 - y) && in_range(-x)
            && in_range(-y) && in_range(b.width as i64 - 1) && in_range(b.height as i64 - 1)
    }

    /// The window that covers a screen of the given size, not scrolled.
    pub fn new(dimensions: Dimensions) -> (pane: Pane)
        ensures
            pane.bounding_box == (CursesBox {
                x: 0,
                y: 0,
                width: dimensions.width,
                height: dimensions.height,
            }),
            pane.scroll == (Position { x: 0, y: 0 }),
    {
        Pane {
            bounding_box: CursesBox {
                x: 0,
                y: 0,
                width: dimensions.width,
                height: dimensions.height,
            },
            scroll: Position { x: 0, y: 0 },
        }
    }

    /// A drawer of the given height along the bottom of the window, as
    /// wide as the window and not scrolled.
    pub fn create_drawer(&self, drawer_position: DrawerPosition, size: i32) -> (drawer: Pane)
        requires
            fits(self.bounding_box.height - size),
        ensures
            drawer.bounding_box == (CursesBox {
                x: 0,
                y: (self.bounding_box.height - size) as i32,
                width: self.bounding_box.width,
                height: size,
            }),
            drawer.scroll == (Position { x: 0, y: 0 }),
    {
        match drawer_position {
            DrawerPosition::Bottom => Pane {
                bounding_box: CursesBox {
                    x: 0,
                    y: self.bounding_box.height - size,
                    width: self.bounding_box.width,
                    height: size,
                },
                scroll: Position { x: 0, y: 0 },
            },
        }
    }

    /// How far the content has been scrolled.
    pub fn get_scroll(&self) -> (scroll: &Position)
        ensures
            *scroll == self.scroll,
    {
        &self.scroll
    }

    /// The rectangle that the window covers.
    pub fn get_bounding_box(&self) -> (bounding_box: &CursesBox)
        ensures
            *bounding_box == self.bounding_box,
    {
        &self.bounding_box
    }

    /// The corner of the window on the screen.
    pub fn get_absolute_position(&self) -> (corner: Position)
        ensures
            corner == (Position { x: self.bounding_box.x, y: self.bounding_box.y }),
    {
        Position { x: self.bounding_box.x, y: self.bounding_box.y }
    }

    /// The place of the screen at which the corner of the content lies.
    pub fn get_scroll_origin(&self) -> (origin: Position)
        requires
            fits(self.bounding_box.x - self.scroll.x),
            fits(self.bounding_box.y - self.scroll.y),
        ensures
            origin.x == self.bounding_box.x - self.scroll.x,
            origin.y == self.bounding_box.y - self.scroll.y,
    {
        Position {
            x: self.bounding_box.x - self.scroll.x,
            y: self.bounding_box.y - self.scroll.y,
        }
    }

    /// The place of the screen at which a position of the content lies.
    pub fn scroll_relative_to_absolute(&self, scroll_relative_pos: &Position) -> (absolute:
        Position)
        requires
            fits(self.bounding_box.x - self.scroll.x),
            fits(self.bounding_box.y - self.scroll.y),
            fits(self.bounding_box.x - self.scroll.x + scroll_relative_pos.x),
            fits(self.bounding_box.y - self.scroll.y + scroll_relative_pos.y),
        ensures
            absolute.x == self.bounding_box.x - self.scroll.x + scroll_relative_pos.x,
            absolute.y == self.bounding_box.y - self.scroll.y + scroll_relative_pos.y,
    {
        let scroll_origin = self.get_scroll_origin();
        scroll_origin.add(*scroll_relative_pos)
    }

    /// The position of the content that lies at a place of the screen.
    pub fn absolute_to_scroll_relative(&self, absolute_pos: &Position) -> (relative: Position)
        requires
            fits(self.bounding_box.x - self.scroll.x),
            fits(self.bounding_box.y - self.scroll.y),
            fits(absolute_pos.x - (self.bounding_box.x - self.scroll.x)),
            fits(absolute_pos.y - (self.bounding_box.y - self.scroll.y)),
        ensures
            relative.x == absolute_pos.x - (self.bounding_box.x - self.scroll.x),
            relative.y == absolute_pos.y - (self.bounding_box.y - self.scroll.y),
    {
        let scroll_origin = self.get_scroll_origin();
        absolute_pos.sub(scroll_origin)
    }

    /// Where a place of the screen lies relative to the window's corner.
    pub fn absolute_to_window_relative(&self, absolute_pos: &Position) -> (relative: Position)
        requires
            fits(absolute_pos.x - self.bounding_box.x),
            fits(absolute_pos.y - self.bounding_box.y),
        ensures
            relative.x == absolute_pos.x - self.bounding_box.x,
            relative.y == absolute_pos.y - self.bounding_box.y,
    {
        absolute_pos.sub(self.get_absolute_position())
    }

    /// Whether a place of the screen lies in the window, and if not, how
    /// far off it is.
    pub fn is_visible(&self, absolute_pos: &Position) -> (bounds: BoundsResult)
        requires
            self.can_see(*absolute_pos),
        ensures
            bounds == bounds_of(
                absolute_pos.x - self.bounding_box.x,
                absolute_pos.y - self.bounding_box.y,
                self.bounding_box.width as int,
                self.bounding_box.height as int,
            ),
    {
        let window_position = self.absolute_to_window_relative(absolute_pos);
        let window_height = self.bounding_box.height;
        let window_width = self.bounding_box.width;
        let x_gt_bound = 0 <= window_position.x;
        let x_lt_bound = 0 < window_width - window_position.x;
        let y_gt_bound = 0 <= window_position.y;
        let y_lt_bound = 0 < window_height - window_position.y;
        let x_in_bounds = x_gt_bound && x_lt_bound;
        let y_in_bounds = y_gt_bound && y_lt_bound;
        if x_in_bounds && y_in_bounds {
            BoundsResult::InBound
        } else if !x_in_bounds && !y_in_bounds {
            BoundsResult::YXOutOfBounds {
                x_diff: if !x_gt_bound {
                    -window_position.x
                } else {
                    window_width - 1 - window_position.x
                },
                y_diff: if !y_gt_bound {
                    -window_position.y
                } else {
                    window_height - 1 - window_position.y
                },
            }
        } else if !x_in_bounds {
            BoundsResult::XOutOfBounds {
                x_diff: if !x_gt_bound {
                    -window_position.x
                } else {
                    window_width - 1 - window_position.x
                },
            }
        } else {
            BoundsResult::YOutOfBounds {
                y_diff: if !y_gt_bound {
                    -window_position.y
                } else {
                    window_height - 1 - window_position.y
                },
            }
        }
    }

    /// Scrolls the content sideways by `scroll_x`.
    pub fn scroll_x(&mut self, scroll_x: i32)
        requires
            fits(old(self).scroll.x + scroll_x),
        ensures
            final(self).scroll.x == old(self).scroll.x + scroll_x,
            final(self).scroll.y == old(self).scroll.y,
            final(self).bounding_box == old(self).bounding_box,
    {
        self.scroll.x = self.scroll.x + scroll_x;
    }

    /// Scrolls the content up or down by `scroll_y`.
    pub fn scroll_y(&mut self, scroll_y: i32)
        requires
            fits(old(self).scroll.y + scroll_y),
        ensures
            final(self).scroll.y == old(self).scroll.y + scroll_y,
            final(self).scroll.x == old(self).scroll.x,
            final(self).bounding_box == old(self).bounding_box,
    {
        self.scroll.y = self.scroll.y + scroll_y;
    }

    /// Scrolls by the least amount that brings a position of the content
    /// into the window, and says where the position lay before. In a
    /// window that is not empty the position can be seen afterwards.
    pub fn scroll_into_view(&mut self, scroll_relative_position: &Position) -> (bounds:
        BoundsResult)
        requires
            old(self).can_place(*scroll_relative_position),
        ensures
            bounds == bounds_of(
                old(self).shown_x(scroll_relative_position.x as int),
                old(self).shown_y(scroll_relative_position.y as int),
                old(self).bounding_box.width as int,
                old(self).bounding_box.height as int,
            ),
            final(self).bounding_box == old(self).bounding_box,
            final(self).scroll.x == old(self).scroll.x - correction(
                old(self).shown_x(scroll_relative_position.x as int),
                old(self).bounding_box.width as int,
            ),
            final(self).scroll.y == old(self).scroll.y - correction(
                old(self).shown_y(scroll_relative_position.y as int),
                old(self).bounding_box.height as int,
            ),
            old(self).bounding_box.width >= 1 && old(self).bounding_box.height >= 1 ==> bounds_of(
                final(self).shown_x(scroll_relative_position.x as int),
                final(self).shown_y(scroll_relative_position.y as int),
                final(self).bounding_box.width as int,
                final(self).bounding_box.height as int,
            ) == BoundsResult::InBound,
    {
        let absolute = self.scroll_relative_to_absolute(scroll_relative_position);
        let bounds_result = self.is_visible(&absolute);
        match bounds_result {
            BoundsResult::InBound => {},
            BoundsResult::XOutOfBounds { x_diff } => {
                self.scroll_x(-x_diff);
            },
            BoundsResult::YOutOfBounds { y_diff } => {
                self.scroll_y(-y_diff);
            },
            BoundsResult::YXOutOfBounds { y_diff, x_diff } => {
                self.scroll_y(-y_diff);
                self.scroll_x(-x_diff);
            },
        }
        bounds_result
    }
}

} // verus!
