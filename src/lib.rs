//! Detection of the integer factor by which a piece of pixel art was
//! magnified with nearest-neighbour scaling.
pub mod candidates;
pub mod detect;
pub mod frame;
pub mod laws;
pub mod runs;
pub mod scanner;

pub use candidates::{CandidateSet, get_smallest_stride_phase2};
pub use detect::{
    get_smallest_stride, get_smallest_stride_from_animation, get_smallest_stride_of_first_frame,
};
pub use frame::{Color, Frame};
pub use scanner::get_smallest_stride_phase1;
