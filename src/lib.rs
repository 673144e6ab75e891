//! Exact point algebra and Bezier evaluation over integer coordinates.
//!
//! Points are fixed-dimension integer tuples. Real-valued parametric
//! coordinates are carried in homogeneous form `(t, w)`, standing for the
//! ratio `t / w`, so that curve evaluation stays exact: a curve value is
//! returned as the homogeneous point `(X, Y, Z, w^n)`.
pub mod point;
pub mod polynomial;
pub mod bezier;
