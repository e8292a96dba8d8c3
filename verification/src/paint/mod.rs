pub mod blendmode;
pub mod brushmask;
pub mod rasterop;
pub mod rect;
pub mod editlayer;
pub mod layer;
pub mod layerstack;
pub mod tile;

use vstd::prelude::*;

verus! {

pub type UserID = u8;

pub type LayerID = i32;

} // verus!
