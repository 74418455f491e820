//! The synthesizer's configuration, as plain values. The thin command
//! line front end fills this in and hands it over.

use vstd::prelude::*;
use crate::image_impls::BorderStyle;

verus! {

/// Everything a run needs: where to read, where to write, the tile
/// size, the output dimensions, and the solver knobs.
#[derive(Debug)]
pub struct Args {
    pub input: String,
    pub output: Option<String>,
    pub tile_size: u32,
    pub output_height: Option<usize>,
    pub output_width: usize,
    pub display: bool,
    pub max_depth: usize,
    pub border_style: BorderStyle,
    pub repeating: bool,
}

impl Args {
    /// The output height: the explicit one, or the width when absent.
    pub fn effective_height(&self) -> (h: usize)
        ensures
            h == match self.output_height {
                Some(h0) => h0,
                None => self.output_width,
            },
    {
        match self.output_height {
            Some(h0) => h0,
            None => self.output_width,
        }
    }
}

} // verus!
