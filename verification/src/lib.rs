//! A columnar codec for event logs: variable-length integers, delta and
//! histogram transforms, permutation repair, rANS and adaptive arithmetic
//! coding, binary interpolative coding and Elias-Fano coding.
pub mod adaptive_mix;
pub mod algo;
pub mod ans;
pub mod bijection;
pub mod bic;
pub mod bitops;
pub mod bits;
pub mod bytes;
pub mod codec;
pub mod columnar;
pub mod compress;
pub mod elias_fano;
pub mod event_codec;
pub mod events;
pub mod histogram;
pub mod lines;
pub mod monotonic;
pub mod order;
pub mod parse;
pub mod sorting;
pub mod timestamp;
pub mod vint;
