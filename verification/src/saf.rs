pub mod constants;
pub mod index;
pub mod read;
pub mod site;
pub mod write;

pub use index::Index;
pub use site::Site;
