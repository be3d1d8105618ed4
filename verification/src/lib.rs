#![allow(non_snake_case)]
//! Secure aggregation of client vectors with packed secret sharing over a
//! prime field: modular exponentiation, number-theoretic transforms, packed
//! sharing and reconstruction, and the client- and server-side logic of the
//! protocol. The transforms are proved to evaluate polynomials and to invert
//! each other, and reconstruction to recover the shared secrets, or the sums
//! of the secrets of many clients, from any large enough set of shares.
pub mod modpow;
pub mod util;
pub mod sums;
pub mod ntt;
pub mod packed;
pub mod param;
pub mod packed_ss;
pub mod pss;
pub mod random;
pub mod messages;
pub mod client;
pub mod correction;
pub mod rounds;
pub mod readiness;
pub mod server;
pub mod linear;
pub mod field_ntt;
pub mod fixed_ntt;
pub mod dft;
pub mod dft3;
pub mod interp;
pub mod recovery;
pub mod fermat;
