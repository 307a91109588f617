pub mod chain;
pub mod text;
pub mod vocab;

pub use chain::Chain;
pub use text::{Text, TextOptions};
pub use vocab::Vocab;
