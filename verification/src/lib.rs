pub mod expansion;
pub mod fp;

pub use expansion::robust_subtract;
