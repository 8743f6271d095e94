pub mod binary;
pub mod bits;
pub mod dictionary;
pub mod elias_delta;
pub mod elias_gamma;
pub mod elias_omega;
pub mod fibonacci;
pub mod lzw;
pub mod universal_coding;
