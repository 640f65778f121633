//! The emulator's portable core: paths, archives, scheduling, sound, guest
//! framebuffers and the storage rules shared by the desktop and web frontends.

pub mod archive;
pub mod audio;
pub mod content;
pub mod copy;
pub mod database;
pub mod error;
pub mod executor;
pub mod file_map;
pub mod file_system;
pub mod filesystem;
pub mod framebuffer;
pub mod gdb;
pub mod guest_image;
pub mod guest_memory;
pub mod id_map;
pub mod memory_filesystem;
pub mod number;
pub mod options;
pub mod path;
pub mod pixel_format;
pub mod pixels;
pub mod raster;
pub mod smaf;
pub mod store;
pub mod svc;
pub mod system;
pub mod text;
pub mod thread;
pub mod time;
pub mod transport;
pub mod window;
pub mod zip_index;
