pub mod bignum;
pub mod closed_vec_set;
pub mod constraints;
pub mod decider;
pub mod diff_rule;
pub mod fast_source;
pub mod gen_rec;
pub mod int_range;
pub mod parse;
pub mod pnml;
pub mod primes;
pub mod program;
pub mod pvas;
pub mod rule;
pub mod shift_sim;
pub mod state_diff;
pub mod tandem_repeat;
pub mod text;
pub mod transcript;
pub mod vec_set;
