use vstd::prelude::*;

verus! {

/// Tuning knobs of the extraction pipeline, passed explicitly into its entry
/// points instead of living as process-wide constants.
#[derive(Clone, Copy, Debug, PartialEq, Eq, Structural)]
pub struct Config {
    /// Side length, in pixels, of one heat-map cell. Must be even and must
    /// evenly divide both image dimensions.
    pub cell_size: usize,
    /// Luminance samples darker than this are pulled up to it before edge
    /// detection.
    pub dark: u8,
    /// Luminance samples brighter than this are pulled down to it before
    /// edge detection.
    pub bright: u8,
    /// Weight of the outer rows of the two 3x3 edge-detection kernels.
    pub edge_coef: u32,
    /// Upper bound on automaton passes before the run is reported as
    /// non-convergent.
    pub max_passes: u32,
}

impl Config {
    /// The cell size suits an image of `w` by `h` pixels: it is even, at
    /// least 2, evenly divides both dimensions, and is small enough that a
    /// cell's pixel count and the pixel coordinates fit in 32 bits.
    pub open spec fn valid_for(self, w: int, h: int) -> bool {
        &&& 2 <= self.cell_size
        &&& self.cell_size % 2 == 0
        &&& 0 < w
        &&& 0 < h
        &&& w % (self.cell_size as int) == 0
        &&& h % (self.cell_size as int) == 0
        &&& w <= u32::MAX
        &&& h <= u32::MAX
        &&& w < usize::MAX
        &&& h < usize::MAX
        &&& self.cell_size * self.cell_size <= u32::MAX
    }

    /// Runtime check for [`Config::valid_for`].
    pub fn is_valid_for(&self, width: usize, height: usize) -> (r: bool)
        ensures
            r == self.valid_for(width as int, height as int),
    {
        if self.cell_size < 2 || self.cell_size % 2 != 0 {
            return false;
        }
        if self.cell_size > 65535 {
            proof {
                assert(self.cell_size * self.cell_size > u32::MAX) by (nonlinear_arith)
                    requires
                        self.cell_size > 65535,
                ;
            }
            return false;
        }
        proof {
            assert(self.cell_size * self.cell_size <= u32::MAX) by (nonlinear_arith)
                requires
                    self.cell_size <= 65535,
            ;
        }
        if width == 0 || height == 0 {
            return false;
        }
        if width % self.cell_size != 0 || height % self.cell_size != 0 {
            return false;
        }
        if width > u32::MAX as usize || height > u32::MAX as usize {
            return false;
        }
        if width == usize::MAX || height == usize::MAX {
            return false;
        }
        true
    }
}

impl Default for Config {
    /// The configuration the pipeline was tuned with: 20-pixel cells,
    /// luminance clamped into [5, 250], kernel coefficient 10, and a
    /// thousand automaton passes before giving up.
    fn default() -> (c: Config)
        ensures
            c.cell_size == 20,
            c.dark == 5,
            c.bright == 250,
            c.edge_coef == 10,
            c.max_passes == 1000,
    {
        Config { cell_size: 20, dark: 5, bright: 250, edge_coef: 10, max_passes: 1000 }
    }
}

} // verus!
