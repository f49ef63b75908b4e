//! Arithmetic core of a polynomial-commitment backend: radix-2 FFT, multi-scalar
//! multiplication and polynomial utilities over a prime field, with every
//! routine verified against a model of integers modulo the field's order.

pub mod field;
pub mod bn256;
pub mod parallel;
pub mod poly;
pub mod fft;
pub mod msm;
pub mod transform;
pub mod roots;
