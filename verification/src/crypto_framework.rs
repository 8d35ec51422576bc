//! What ciphers and hashes offer, and keyed hashing on top of a hash.

use vstd::prelude::*;

verus! {

/// What a block cipher offers.
pub trait BlockCipher {
    /// Block size in bytes.
    fn block_size() -> usize where Self: Sized;

    /// Key size in bytes.
    fn key_size() -> usize where Self: Sized;

    /// Takes the key of the cipher.
    fn set_key(&mut self, key: &[u8]);

    /// Encrypts the block in place.
    fn block_encrypt(&self, block: &mut [u8]);

    /// Decrypts the block in place.
    fn block_decrypt(&self, block: &mut [u8]);
}

/// What a hash offers. Its digest is a function of the messages that it
/// took in, in the order in which it took them.
pub trait Hash {
    /// The messages taken in so far.
    open spec fn taken(&self) -> Seq<Seq<u8>> {
        arbitrary()
    }

    /// The digest of the messages `taken`.
    open spec fn digest_of(taken: Seq<Seq<u8>>) -> Seq<u8> {
        arbitrary()
    }

    /// Length of a digest in bytes.
    open spec fn digest_len() -> nat {
        arbitrary()
    }

    /// Length of a digest in bytes.
    fn digest_length() -> (n: usize) where Self: Sized
        ensures
            n == Self::digest_len(),
    ;

    /// Takes a message in.
    fn update(&mut self, message: &[u8])
        ensures
            final(self).taken() == old(self).taken().push(message@),
    ;

    /// Writes the digest of what was taken in to `sum`.
    fn digest(&mut self, sum: &mut [u8])
        requires
            old(sum)@.len() == Self::digest_len(),
        ensures
            final(sum)@.len() == old(sum)@.len(),
            final(sum)@ == Self::digest_of(old(self).taken()),
    ;
}

/// The bytes of `key`, each combined with `pad` and each a message of its own.
pub open spec fn keyed(key: Seq<u8>, pad: u8) -> Seq<Seq<u8>> {
    Seq::new(key.len(), |i: int| seq![key[i] ^ pad])
}

/// Keyed hashing for message authentication: an inner hash takes the key
/// and the message in, an outer one the key and the inner digest.
pub struct Hmac<H> where H: Hash {
    ihasher: H,
    ohasher: H,
}

impl<H> Default for Hmac<H> where H: Hash + Default {
    fn default() -> (hmac: Self)
        ensures
            hmac.is_new(),
    {
        Self::new()
    }
}

impl<H> Hmac<H> where H: Hash + Default {
    /// The inner hash.
    pub closed spec fn inner_hash(&self) -> H {
        self.ihasher
    }

    /// The outer hash.
    pub closed spec fn outer_hash(&self) -> H {
        self.ohasher
    }

    /// What the inner hash took in.
    pub open spec fn inner(&self) -> Seq<Seq<u8>> {
        self.inner_hash().taken()
    }

    /// What the outer hash took in.
    pub open spec fn outer(&self) -> Seq<Seq<u8>> {
        self.outer_hash().taken()
    }

    /// Both hashes are as `H::default` makes a hash: whatever `H` promises
    /// of its default value holds of each of them.
    pub open spec fn is_new(&self) -> bool {
        &&& call_ensures(H::default, (), self.inner_hash())
        &&& call_ensures(H::default, (), self.outer_hash())
    }

    /// A keyed hash on two new hashes.
    pub fn new() -> (hmac: Self)
        ensures
            hmac.is_new(),
    {
        Self { ihasher: H::default(), ohasher: H::default() }
    }

    /// Takes the key in: the inner hash every byte of it combined with
    /// 0x36, the outer one every byte combined with 0x5c.
    pub fn set_key(&mut self, key: &[u8])
        ensures
            final(self).inner() == old(self).inner() + keyed(key@, 0x36),
            final(self).outer() == old(self).outer() + keyed(key@, 0x5c),
    {
        let mut i: usize = 0;
        while i < key.len()
            invariant
                i <= key@.len(),
                self.inner() == old(self).inner() + keyed(key@, 0x36).take(i as int),
                self.outer() == old(self).outer() + keyed(key@, 0x5c).take(i as int),
            decreases key@.len() - i,
        {
            let byte = key[i];
            let ipad = [0x36 ^ byte];
            let opad = [0x5c ^ byte];
            let ghost inner = self.inner();
            let ghost outer = self.outer();
            self.ihasher.update(ipad.as_slice());
            self.ohasher.update(opad.as_slice());
            proof {
                assert(0x36u8 ^ byte == byte ^ 0x36u8) by (bit_vector);
                assert(0x5cu8 ^ byte == byte ^ 0x5cu8) by (bit_vector);
                assert(ipad@ =~= seq![byte ^ 0x36]);
                assert(opad@ =~= seq![byte ^ 0x5c]);
                assert(keyed(key@, 0x36).take(i + 1) =~= keyed(key@, 0x36).take(i as int).push(
                    seq![byte ^ 0x36],
                ));
                assert(keyed(key@, 0x5c).take(i + 1) =~= keyed(key@, 0x5c).take(i as int).push(
                    seq![byte ^ 0x5c],
                ));
                assert(inner.push(ipad@) =~= old(self).inner() + keyed(key@, 0x36).take(i + 1));
                assert(outer.push(opad@) =~= old(self).outer() + keyed(key@, 0x5c).take(i + 1));
            }
            i += 1;
        }
        proof {
            assert(keyed(key@, 0x36).take(key@.len() as int) =~= keyed(key@, 0x36));
            assert(keyed(key@, 0x5c).take(key@.len() as int) =~= keyed(key@, 0x5c));
        }
    }

    /// Takes a message in.
    pub fn update(&mut self, message: &[u8])
        ensures
            final(self).inner() == old(self).inner().push(message@),
            final(self).outer() == old(self).outer(),
    {
        self.ihasher.update(message);
    }

    /// Writes the authentication code to `sum`: the outer digest of what
    /// the outer hash took in and the inner digest.
    pub fn digest(&mut self, sum: &mut [u8])
        requires
            old(sum)@.len() == H::digest_len(),
        ensures
            final(sum)@ == H::digest_of(old(self).outer().push(H::digest_of(old(self).inner()))),
    {
        self.ihasher.digest(sum);
        self.ohasher.update(sum);
        self.ohasher.digest(sum);
    }
}

} // verus!
