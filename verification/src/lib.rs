//! Constant-time big-integer field arithmetic and elliptic-curve group
//! operations, with every function proved against a mathematical contract.
//!
//! The layers, from the bottom up:
//!
//! - `limbs`, `bignum`: integers as vectors of 64-bit limbs, and the row
//!   operations, products and squares on them;
//! - `montgomery`, `field`: Montgomery reduction for any odd modulus, and
//!   prime fields on top of it;
//! - `p256`, `p384`, `x25519`: the three fields with their constants, and
//!   what each curve offers on byte strings;
//! - `jacobian`, `chord_tangent`: the point formulas over the integers and
//!   what they mean on affine points;
//! - `weierstrass`, `p384_group`: points in Montgomery-Jacobian coordinates,
//!   their addition, doubling and multiplication by a scalar, and their
//!   encodings;
//! - `ecdsa`: signatures on the two Weierstrass curves;
//! - `encoding`, `error`, `random`, `sha512`: byte strings, the errors of
//!   decoding, the system's random source, and the SHA-512 compression
//!   function.
//!
//! Secret values never steer a branch or an index: choices that depend on
//! them are made by computing every candidate and selecting with masks.

pub mod bignum;
pub mod chord_tangent;
pub mod ecdsa;
pub mod encoding;
pub mod error;
pub mod field;
pub mod jacobian;
pub mod limbs;
pub mod montgomery;
pub mod p256;
pub mod p384;
pub mod p384_group;
pub mod random;
pub mod sha512;
pub mod weierstrass;
pub mod x25519;
