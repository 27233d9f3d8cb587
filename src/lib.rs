pub mod field;
pub mod curve;
pub mod parallel;
pub mod poly;
pub mod fft;
pub mod msm;
pub mod error;
