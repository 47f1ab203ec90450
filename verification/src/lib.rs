//! Paillier additively-homomorphic encryption with the Catalano–Fiore
//! one-level multiplicative lifting, a KEA-hardened decryption wrapper,
//! a thread-safe key registry, and an ExactMatch private-set-intersection
//! cardinality protocol built on top of them.
//!
//! Arbitrary-precision arithmetic is delegated to `num_bigint::BigUint`;
//! every call into it goes through a small trusted wrapper in [`bignum`]
//! whose contract states the mathematical value of the result. All the
//! cryptographic logic above those wrappers is verified.

pub mod bignum;

pub mod errors;

pub mod math;

pub mod paillier;

pub mod cf;

pub mod kea;

pub mod storage;

pub mod exactmatch;

pub mod registry;


pub use errors::CryptoError;
pub use errors::RegistryError;
pub use math::gcd;
pub use math::generate_safe_prime;
pub use math::l_function;
pub use math::lcm;
pub use math::mod_inverse;
pub use paillier::KeyPair;
pub use paillier::PublicKey;
pub use paillier::SecretKey;
pub use registry::KeyRegistry;
