//! A thread-safe registry for key material: many readers may observe
//! the slots concurrently while a writer is exclusive, and secret
//! keys are only ever lent to a caller's computation, never handed
//! out. Every key that leaves the registry satisfies the coherence
//! invariant `n² = n·n` that the lock enforces on its content.

use vstd::prelude::*;

verus! {

use std::sync::Arc;
use vstd::rwlock::{RwLock, RwLockPredicate};
use crate::errors::RegistryError;
use crate::kea::KeyPairKEA;
use crate::paillier::{pk_coherent, KeyPair, PublicKey, SecretKey};

/// The guarded content: one optional Paillier key pair and one
/// optional KEA key pair.
pub struct RegistryState {
    pub keypair: Option<KeyPair>,
    pub kea: Option<KeyPairKEA>,
}

/// The invariant the lock enforces: whatever occupies a slot carries
/// a coherent public key.
pub struct RegistryInv {}

impl RwLockPredicate<RegistryState> for RegistryInv {
    open spec fn inv(self, v: RegistryState) -> bool {
        &&& (v.keypair matches Some(kp) ==> pk_coherent(kp.public_key))
        &&& (v.kea matches Some(k) ==> pk_coherent(k.pk))
    }
}

/// The process-wide key holder. Cloning shares the same underlying
/// slots, so every handle observes the same keys.
#[derive(Clone)]
pub struct KeyRegistry {
    inner: Arc<RwLock<RegistryState, RegistryInv>>,
}

impl KeyRegistry {
    /// An empty registry, ready to receive keys.
    pub fn new() -> KeyRegistry {
        let state = RegistryState { keypair: None, kea: None };
        KeyRegistry { inner: Arc::new(RwLock::new(state, Ghost(RegistryInv {}))) }
    }

    /// Loads or rotates the Paillier key pair; the writer is
    /// exclusive while the slot is replaced.
    pub fn set_keypair(&self, kp: KeyPair) -> (res: Result<(), RegistryError>)
        requires
            pk_coherent(kp.public_key),
        ensures
            res is Ok,
    {
        let (mut state, write_handle) = self.inner.acquire_write();
        state.keypair = Some(kp);
        write_handle.release_write(state);
        Ok(())
    }

    /// Removes the Paillier key pair, zeroing the secret components
    /// before the slot is dropped.
    pub fn clear_keypair(&self) -> (res: Result<(), RegistryError>)
        ensures
            res is Ok,
    {
        let (state, write_handle) = self.inner.acquire_write();
        let RegistryState { keypair, kea } = state;
        match keypair {
            Some(mut kp) => {
                kp.secret_key.zeroize();
            },
            None => {},
        }
        write_handle.release_write(RegistryState { keypair: None, kea });
        Ok(())
    }

    /// Loads or rotates the KEA key pair.
    pub fn set_kea(&self, kea: KeyPairKEA) -> (res: Result<(), RegistryError>)
        requires
            pk_coherent(kea.pk),
        ensures
            res is Ok,
    {
        let (mut state, write_handle) = self.inner.acquire_write();
        state.kea = Some(kea);
        write_handle.release_write(state);
        Ok(())
    }

    /// Removes the KEA key pair, zeroing the secret scalar before the
    /// slot is dropped.
    pub fn clear_kea(&self) -> (res: Result<(), RegistryError>)
        ensures
            res is Ok,
    {
        let (state, write_handle) = self.inner.acquire_write();
        let RegistryState { keypair, kea } = state;
        match kea {
            Some(mut k) => {
                k.zeroize();
            },
            None => {},
        }
        write_handle.release_write(RegistryState { keypair, kea: None });
        Ok(())
    }

    /// A clone of the current public key, under a shared read guard;
    /// `NoPaillierKey` when the slot is empty. Whatever comes out
    /// satisfies the coherence invariant.
    pub fn public_key(&self) -> (res: Result<PublicKey, RegistryError>)
        ensures
            res matches Ok(pk) ==> pk_coherent(pk),
            res matches Err(e) ==> e == RegistryError::NoPaillierKey,
    {
        let read_handle = self.inner.acquire_read();
        let state = read_handle.borrow();
        let res = match &state.keypair {
            Some(kp) => Ok(kp.public_key.clone()),
            None => Err(RegistryError::NoPaillierKey),
        };
        read_handle.release_read();
        res
    }

    /// Lends the current secret key to the caller's computation: the
    /// reference never escapes the call, and the key never leaves the
    /// registry. `NoPaillierKey` when the slot is empty.
    pub fn with_secret_key<T, F: FnOnce(&SecretKey) -> T>(&self, f: F) -> (res: Result<
        T,
        RegistryError,
    >)
        requires
            forall|sk: &SecretKey| #[trigger] f.requires((sk,)),
        ensures
            res is Ok ==> exists|sk: &SecretKey| call_ensures(f, (sk,), res->Ok_0),
            res matches Err(e) ==> e == RegistryError::NoPaillierKey,
    {
        let read_handle = self.inner.acquire_read();
        let state = read_handle.borrow();
        match &state.keypair {
            Some(kp) => {
                let t = f(&kp.secret_key);
                let res: Result<T, RegistryError> = Ok(t);
                proof {
                    assert(call_ensures(f, (&kp.secret_key,), res->Ok_0));
                    assert(exists|sk: &SecretKey| call_ensures(f, (sk,), res->Ok_0));
                }
                read_handle.release_read();
                res
            },
            None => {
                read_handle.release_read();
                Err(RegistryError::NoPaillierKey)
            },
        }
    }

    /// Lends the current KEA key pair to the caller's computation, in
    /// the same borrowed fashion; `NoKeaKey` when the slot is empty.
    pub fn with_kea<T, F: FnOnce(&KeyPairKEA) -> T>(&self, f: F) -> (res: Result<
        T,
        RegistryError,
    >)
        requires
            forall|k: &KeyPairKEA| pk_coherent(k.pk) ==> #[trigger] f.requires((k,)),
        ensures
            res is Ok ==> exists|k: &KeyPairKEA| call_ensures(f, (k,), res->Ok_0),
            res matches Err(e) ==> e == RegistryError::NoKeaKey,
    {
        let read_handle = self.inner.acquire_read();
        let state = read_handle.borrow();
        match &state.kea {
            Some(k) => {
                let t = f(k);
                let res: Result<T, RegistryError> = Ok(t);
                proof {
                    assert(call_ensures(f, (k,), res->Ok_0));
                    assert(exists|kk: &KeyPairKEA| call_ensures(f, (kk,), res->Ok_0));
                }
                read_handle.release_read();
                res
            },
            None => {
                read_handle.release_read();
                Err(RegistryError::NoKeaKey)
            },
        }
    }

    /// Whether a Paillier key pair is currently loaded.
    pub fn has_keypair(&self) -> bool {
        let read_handle = self.inner.acquire_read();
        let state = read_handle.borrow();
        let res = state.keypair.is_some();
        read_handle.release_read();
        res
    }

    /// Whether a KEA key pair is currently loaded.
    pub fn has_kea(&self) -> bool {
        let read_handle = self.inner.acquire_read();
        let state = read_handle.borrow();
        let res = state.kea.is_some();
        read_handle.release_read();
        res
    }
}


impl Default for KeyRegistry {
    fn default() -> Self {
        Self::new()
    }
}

} // verus!
