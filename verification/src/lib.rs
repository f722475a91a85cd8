//! Downloads the files of a Hugging Face repository.
//!
//! The crate holds the decisions of the downloader: how a file is cut into
//! slices, which requests are made and repeated, how the listing of a
//! repository is walked, how hashes are taken and held to what is expected, and
//! how sizes on the command line are read. Sockets, files and the clock belong
//! to the program around it.
pub mod async_taskwait;
pub mod config;
pub mod hashing;
pub mod hf;
pub mod paths;
pub mod sizes;
pub mod smart_dl;
pub mod taskwait;
pub mod text;
