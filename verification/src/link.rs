//! Link coordinator: optional sharing of cursor and axis state across all
//! open plot windows.
//!
//! Every open view consumes the same [`LinkToken`] on every redraw, so the
//! group of linked windows never changes mid-session.  Whether cursor
//! position and axis range actually propagate is controlled by two
//! independent toggles held in a [`LinkSession`] value that the shell passes
//! into each frame.

use vstd::prelude::*;

verus! {

/// Fixed discriminator from which the shared link token is derived.  The
/// token only has to be stable for the whole session, which a documented
/// constant satisfies; the value itself is arbitrary.
pub const LINK_GROUP_SEED: u64 = 0x706c_6f74_6c69_6e6b;

/// Identity of the one link group shared by all open views.
#[derive(Clone, Copy, PartialEq, Eq, Structural, Debug)]
pub struct LinkToken {
    pub id: u64,
}

/// The shared link token.  Re-deriving it never changes the link group:
/// every call returns the token built from [`LINK_GROUP_SEED`].
pub fn link_token() -> (t: LinkToken)
    ensures
        t.id == LINK_GROUP_SEED,
{
    LinkToken { id: LINK_GROUP_SEED }
}

/// A cursor position on a plot surface.  The two coordinates are opaque
/// scalar encodings chosen by the rendering shell; this crate only carries
/// them between views.
#[derive(Clone, Copy, PartialEq, Eq, Structural, Debug)]
pub struct CursorPos {
    pub x: u64,
    pub y: u64,
}

/// An axis range of a plot surface, in the same opaque scalar encoding as
/// [`CursorPos`].
#[derive(Clone, Copy, PartialEq, Eq, Structural, Debug)]
pub struct AxisRange {
    pub low: u64,
    pub high: u64,
}

/// Session-wide interaction state: the two link toggles and the shared
/// cursor/axis values most recently reported by any view.
pub struct LinkSession {
    pub link_cursor: bool,
    pub link_axis: bool,
    pub shared_cursor: Option<CursorPos>,
    pub shared_axis: Option<AxisRange>,
}

impl LinkSession {
    /// A fresh session: both toggles off, nothing shared yet.
    pub fn new() -> (s: LinkSession)
        ensures
            !s.link_cursor,
            !s.link_axis,
            s.shared_cursor is None,
            s.shared_axis is None,
    {
        LinkSession { link_cursor: false, link_axis: false, shared_cursor: None, shared_axis: None }
    }

    /// Turns cursor linking on or off.  Instantaneous and idempotent: the
    /// outcome depends only on `on`, never on the previous toggle value.
    pub fn set_link_cursor(&mut self, on: bool)
        ensures
            *final(self) == (LinkSession { link_cursor: on, ..*old(self) }),
    {
        self.link_cursor = on;
    }

    /// Turns axis linking on or off.  Instantaneous and idempotent.
    pub fn set_link_axis(&mut self, on: bool)
        ensures
            *final(self) == (LinkSession { link_axis: on, ..*old(self) }),
    {
        self.link_axis = on;
    }

    /// One view reports the pointer position over its plot surface.  With
    /// cursor linking on the position becomes the shared crosshair; with it
    /// off the report changes nothing, so other views never see it.
    pub fn report_cursor(&mut self, pos: CursorPos)
        ensures
            old(self).link_cursor ==> *final(self) == (LinkSession {
                shared_cursor: Some(pos),
                ..*old(self)
            }),
            !old(self).link_cursor ==> *final(self) == *old(self),
    {
        if self.link_cursor {
            self.shared_cursor = Some(pos);
        }
    }

    /// One view reports a pan or zoom of its axes.  With axis linking on the
    /// range becomes the shared range; with it off nothing changes.
    pub fn report_axis(&mut self, range: AxisRange)
        ensures
            old(self).link_axis ==> *final(self) == (LinkSession {
                shared_axis: Some(range),
                ..*old(self)
            }),
            !old(self).link_axis ==> *final(self) == *old(self),
    {
        if self.link_axis {
            self.shared_axis = Some(range);
        }
    }

    /// The crosshair position every open view must draw this frame, or
    /// `None` when cursor linking is off or nothing was reported yet.
    pub fn cursor_for_views(&self) -> (r: Option<CursorPos>)
        ensures
            r == (if self.link_cursor {
                self.shared_cursor
            } else {
                None::<CursorPos>
            }),
    {
        if self.link_cursor {
            self.shared_cursor
        } else {
            None
        }
    }

    /// The axis range every open view must adopt this frame, or `None` when
    /// axis linking is off or nothing was reported yet.
    pub fn axis_for_views(&self) -> (r: Option<AxisRange>)
        ensures
            r == (if self.link_axis {
                self.shared_axis
            } else {
                None::<AxisRange>
            }),
    {
        if self.link_axis {
            self.shared_axis
        } else {
            None
        }
    }
}

} // verus!
