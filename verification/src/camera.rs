//! The image a viewport captures from the automaton's grid.
//!
//! The camera itself, with its position and zoom, lives outside the
//! library; it hands this image its position and the automaton to read.

use vstd::prelude::*;
use crate::automaton::{Automaton, idx_of};

verus! {

/// A rectangular capture of the grid: one state identifier per pixel,
/// indexed as `grid[x][y]`, and the color palette to draw them with.
pub struct Image {
    pub grid: Vec<Vec<usize>>,
    pub colors: Vec<(u8, u8, u8)>,
}

impl Image {
    /// The image is `w` columns of `h` pixels.
    pub open spec fn dims(&self, w: int, h: int) -> bool {
        &&& self.grid@.len() == w
        &&& forall|x: int| 0 <= x < w ==> (#[trigger] self.grid@[x])@.len() == h
    }

    /// A zeroed image of the given size, with the automaton's palette.
    pub fn new(size: (usize, usize), automaton: &Automaton) -> (r: Image)
        ensures
            r.dims(size.0 as int, size.1 as int),
            r.colors@.len() == automaton.spec_rules().states@.len(),
            forall|i: int|
                0 <= i < r.colors@.len() ==> r.colors@[i] == (
                #[trigger] automaton.spec_rules().states@[i]).color,
    {
        let mut grid: Vec<Vec<usize>> = Vec::new();
        let mut x: usize = 0;
        while x < size.0
            invariant
                x <= size.0,
                grid@.len() == x,
                forall|k: int| 0 <= k < x ==> (#[trigger] grid@[k])@.len() == size.1,
            decreases size.0 - x,
        {
            let mut column: Vec<usize> = Vec::new();
            let mut y: usize = 0;
            while y < size.1
                invariant
                    y <= size.1,
                    column@.len() == y,
                decreases size.1 - y,
            {
                column.push(0);
                y = y + 1;
            }
            grid.push(column);
            x = x + 1;
        }
        Image { grid, colors: automaton.get_colors() }
    }

    /// Replaces the pixel grid with a zeroed grid of the new size.
    pub fn resize(&mut self, new_size: (usize, usize))
        ensures
            final(self).dims(new_size.0 as int, new_size.1 as int),
            final(self).colors == old(self).colors,
    {
        let mut grid: Vec<Vec<usize>> = Vec::new();
        let mut x: usize = 0;
        while x < new_size.0
            invariant
                x <= new_size.0,
                grid@.len() == x,
                forall|k: int| 0 <= k < x ==> (#[trigger] grid@[k])@.len() == new_size.1,
            decreases new_size.0 - x,
        {
            let mut column: Vec<usize> = Vec::new();
            let mut y: usize = 0;
            while y < new_size.1
                invariant
                    y <= new_size.1,
                    column@.len() == y,
                decreases new_size.1 - y,
            {
                column.push(0);
                y = y + 1;
            }
            grid.push(column);
            x = x + 1;
        }
        self.grid = grid;
    }

    /// Reads every pixel from the automaton, toroidally, with the image's
    /// top-left corner at the camera position.
    pub fn capture(&mut self, camera_pos: (isize, isize), automaton: &Automaton)
        requires
            automaton.wf(),
            old(self).grid@.len() <= isize::MAX,
            forall|x: int|
                0 <= x < old(self).grid@.len() ==> (#[trigger] old(self).grid@[x])@.len()
                    <= isize::MAX,
            camera_pos.0 + old(self).grid@.len() <= isize::MAX,
            forall|x: int|
                0 <= x < old(self).grid@.len() ==> camera_pos.1 + (
                #[trigger] old(self).grid@[x])@.len() <= isize::MAX,
        ensures
            final(self).colors == old(self).colors,
            final(self).grid@.len() == old(self).grid@.len(),
            forall|x: int|
                0 <= x < final(self).grid@.len() ==> (#[trigger] final(self).grid@[x])@.len()
                    == old(self).grid@[x]@.len(),
            forall|x: int, y: int|
                0 <= x < final(self).grid@.len() && 0 <= y < final(self).grid@[x]@.len()
                    ==> #[trigger] final(self).grid@[x]@[y]
                    == automaton.spec_grid()[idx_of(
                    x + camera_pos.0,
                    y + camera_pos.1,
                    automaton.spec_rules().world_size.0 as int,
                    automaton.spec_rules().world_size.1 as int,
                )].spec_state(),
    {
        let w = self.grid.len();
        let mut x: usize = 0;
        while x < w
            invariant
                x <= w,
                w == self.grid@.len(),
                automaton.wf(),
                self.colors == old(self).colors,
                self.grid@.len() == old(self).grid@.len(),
                self.grid@.len() <= isize::MAX,
                camera_pos.0 + self.grid@.len() <= isize::MAX,
                forall|k: int|
                    0 <= k < self.grid@.len() ==> camera_pos.1 + (
                    #[trigger] old(self).grid@[k])@.len() <= isize::MAX,
                forall|k: int|
                    0 <= k < self.grid@.len() ==> (#[trigger] self.grid@[k])@.len() == old(
                        self,
                    ).grid@[k]@.len() && old(self).grid@[k]@.len() <= isize::MAX,
                forall|k: int, y: int|
                    0 <= k < x && 0 <= y < self.grid@[k]@.len() ==> #[trigger] self.grid@[k]@[y]
                        == automaton.spec_grid()[idx_of(
                        k + camera_pos.0,
                        y + camera_pos.1,
                        automaton.spec_rules().world_size.0 as int,
                        automaton.spec_rules().world_size.1 as int,
                    )].spec_state(),
            decreases w - x,
        {
            let h = self.grid[x].len();
            let mut column: Vec<usize> = Vec::new();
            let mut y: usize = 0;
            while y < h
                invariant
                    y <= h,
                    x < w,
                    w == self.grid@.len(),
                    h == self.grid@[x as int]@.len(),
                    h <= isize::MAX,
                    x < self.grid@.len(),
                    self.grid@.len() <= isize::MAX,
                    automaton.wf(),
                    camera_pos.0 + self.grid@.len() <= isize::MAX,
                    camera_pos.1 + h <= isize::MAX,
                    column@.len() == y,
                    forall|yy: int|
                        0 <= yy < y ==> column@[yy] == automaton.spec_grid()[idx_of(
                            x + camera_pos.0,
                            yy + camera_pos.1,
                            automaton.spec_rules().world_size.0 as int,
                            automaton.spec_rules().world_size.1 as int,
                        )].spec_state(),
                decreases h - y,
            {
                proof {
                    assert(x < w && w <= isize::MAX);
                    assert(camera_pos.0 + w <= isize::MAX);
                    assert(y < h && h <= isize::MAX);
                    assert(camera_pos.1 + h <= isize::MAX);
                }
                let gx = x as isize + camera_pos.0;
                let gy = y as isize + camera_pos.1;
                column.push(automaton.get_state(gx, gy));
                y = y + 1;
            }
            self.grid.set(x, column);
            x = x + 1;
        }
    }
}

} // verus!