//! Image inpainting with the big-lama generator.
//!
//! * What is to be done: the command line (`args`), the hole and the windows around it
//!   (`image`, `window`, `depth`, `sections`), the choice of a route and an engine (`run`,
//!   `mem`), and the passes over the image (`compose`, `passes`).
//! * The network: its plan (`model`), the checkpoint (`weights`), the operations (`acts`,
//!   `conv`, `convt`, `norm`, `ops`, the Fourier transforms in `fft` and `spectrum`), its
//!   blocks (`spectral`, `ffc`) and the whole of it (`net`), over a number type that the
//!   user of the library supplies (`scalar`, `formula`).
//! * The same network as commands for a device: parameters (`gpu_load`, `gpu_steps`),
//!   kernels and memory (`device`, `kernels`, `gpu`, `pool`, `staging`), and whole passes
//!   (`gpu_pass`).
//! * What the transforms mean in exact arithmetic (`exact`, `dft`, `chirp`, `unitary`),
//!   that a checkpoint made for the plan runs (`fit`), and what every part of the plan reads
//!   from it (`layout`).
//! * What the planned commands compute: convolutions (`meaning`), upsamplings (`raising`),
//!   transforms (`waves`) and the operations that work value by value (`elements`), from
//!   what their kernels do, and that a planned spectral branch and a planned block agree
//!   with the host's (`agree`, `blocks`).

pub mod accept;
pub mod acts;
pub mod agree;
pub mod args;
pub mod bitrev;
pub mod blocks;
pub mod chirp;
pub mod compose;
pub mod conv;
pub mod convert;
pub mod convt;
pub mod depth;
pub mod device;
pub mod dft;
pub mod elements;
pub mod exact;
pub mod ffc;
pub mod fft;
pub mod fit;
pub mod fold;
pub mod formula;
pub mod gpu;
pub mod gpu_load;
pub mod gpu_pass;
pub mod gpu_steps;
pub mod grid;
pub mod image;
pub mod kernels;
pub mod layout;
pub mod listing;
pub mod meaning;
pub mod mem;
pub mod model;
pub mod names;
pub mod needs;
pub mod net;
pub mod norm;
pub mod note;
pub mod ops;
mod par;
pub mod passes;
pub mod pool;
pub mod raising;
pub mod reorder;
pub mod run;
pub mod scalar;
pub mod sections;
pub mod spectral;
pub mod spectrum;
pub mod staging;
pub mod text;
pub mod unitary;
pub mod waves;
pub mod weights;
pub mod window;
