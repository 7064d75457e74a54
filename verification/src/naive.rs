//! A looser notion of G60 string: the characters must come from the
//! alphabet, but the length may be structurally impossible.

pub use naive_g60_string::NaiveG60String;
pub use random::exactly_custom_random;
pub use random::exactly_random;
pub use random::exactly_unsecure_random;
pub use random::kept_symbol_count;
pub use random::lemma_kept_symbols_prefix;
pub use random::spec_kept_symbols;

mod naive_g60_string;
mod random;
pub mod verification;
