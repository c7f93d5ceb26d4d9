//! Options for renderers that draw a tree.
//!
//! The library itself performs no drawing or I/O; a renderer outside the
//! library reads these options and walks the tree through its public
//! accessors.

use vstd::prelude::*;

verus! {

/// Options for drawing a tree: the canvas size in pixels, and an
/// optional depth threshold restricting which levels are drawn.
#[derive(Clone, Copy, Debug)]
pub struct TreeRenderOptions {
    width: u32,
    height: u32,
    threshold: Option<usize>,
}

impl TreeRenderOptions {
    /// The configured canvas width.
    pub closed spec fn spec_width(&self) -> u32 {
        self.width
    }

    /// The configured canvas height.
    pub closed spec fn spec_height(&self) -> u32 {
        self.height
    }

    /// The configured depth threshold, if any.
    pub closed spec fn spec_threshold(&self) -> Option<usize> {
        self.threshold
    }

    /// Creates render options for a canvas of the given size, with no
    /// depth threshold.
    pub fn new(width: u32, height: u32) -> (o: TreeRenderOptions)
        ensures
            o.spec_width() == width,
            o.spec_height() == height,
            o.spec_threshold() is None,
    {
        TreeRenderOptions { width, height, threshold: None }
    }

    /// Restricts drawing to the levels up to the given depth.
    pub fn with_threshold(&mut self, threshold: usize)
        ensures
            final(self).spec_width() == old(self).spec_width(),
            final(self).spec_height() == old(self).spec_height(),
            final(self).spec_threshold() == Some(threshold),
    {
        self.threshold = Some(threshold);
    }

    /// Removes the depth threshold, so that every level is drawn.
    pub fn without_threshold(&mut self)
        ensures
            final(self).spec_width() == old(self).spec_width(),
            final(self).spec_height() == old(self).spec_height(),
            final(self).spec_threshold() is None,
    {
        self.threshold = None;
    }

    /// The canvas width.
    pub fn width(&self) -> (w: u32)
        ensures
            w == self.spec_width(),
    {
        self.width
    }

    /// The canvas height.
    pub fn height(&self) -> (h: u32)
        ensures
            h == self.spec_height(),
    {
        self.height
    }

    /// The depth threshold, if one is set.
    pub fn threshold(&self) -> (t: Option<usize>)
        ensures
            t == self.spec_threshold(),
    {
        self.threshold
    }
}

} // verus!
