pub mod body;
pub mod foot;
pub mod indx;
pub mod meta;
pub mod xmet;

pub use body::Body;
pub use foot::Foot;
pub use indx::Indx;
pub use meta::Meta;
pub use xmet::Xmet;
