use kernel_core::crypto_framework::{BlockCipher, Hmac};

/// A hash for the tests: it keeps what it took in, each message closed by
/// its length, and its digest is four sums over that.
#[derive(Default, Clone)]
struct Sums {
    taken: Vec<u8>,
}

fn sums(data: &[u8]) -> [u8; 4] {
    let mut out = [0x11u8, 0x22, 0x33, 0x44];
    for (i, b) in data.iter().enumerate() {
        out[i % 4] = out[i % 4].wrapping_mul(31).wrapping_add(*b).rotate_left(3);
    }
    out
}

impl kernel_core::crypto_framework::Hash for Sums {
    fn digest_length() -> usize {
        4
    }
    fn update(&mut self, message: &[u8]) {
        self.taken.extend_from_slice(message);
        self.taken.push(message.len() as u8);
    }
    fn digest(&mut self, sum: &mut [u8]) {
        sum.copy_from_slice(&sums(&self.taken));
    }
}

/// The bytes that `Sums` keeps after it took the bytes of `key` in one by one, each combined with `pad`.
fn keyed(key: &[u8], pad: u8) -> Vec<u8> {
    key.iter().flat_map(|b| [b ^ pad, 1]).collect()
}

#[test]
fn hmac_is_the_outer_digest_of_key_and_inner_digest() {
    let key = [1u8, 2, 3, 0xff];
    let mut h: Hmac<Sums> = Hmac::new();
    h.set_key(&key);
    h.update(b"hello ");
    h.update(b"world");
    let mut sum = [0u8; 4];
    h.digest(&mut sum);

    let mut inner = keyed(&key, 0x36);
    inner.extend_from_slice(b"hello ");
    inner.push(6);
    inner.extend_from_slice(b"world");
    inner.push(5);
    let inner_digest = sums(&inner);
    let mut outer = keyed(&key, 0x5c);
    outer.extend_from_slice(&inner_digest);
    outer.push(4);
    assert_eq!(sum, sums(&outer));
}

#[test]
fn hmac_without_key_and_message() {
    let mut h: Hmac<Sums> = Hmac::default();
    let mut sum = [0u8; 4];
    h.digest(&mut sum);
    let inner_digest = sums(&[]);
    let mut outer = inner_digest.to_vec();
    outer.push(4);
    assert_eq!(sum, sums(&outer));
}

#[test]
fn hmac_depends_on_the_key() {
    let mut a: Hmac<Sums> = Hmac::new();
    let mut b: Hmac<Sums> = Hmac::new();
    a.set_key(&[1, 2, 3]);
    b.set_key(&[1, 2, 4]);
    a.update(b"m");
    b.update(b"m");
    let (mut x, mut y) = ([0u8; 4], [0u8; 4]);
    a.digest(&mut x);
    b.digest(&mut y);
    assert_ne!(x, y);
}

/// A cipher for the tests: it adds its key to the block.
struct Shift {
    key: u8,
}

impl BlockCipher for Shift {
    fn block_size() -> usize {
        4
    }
    fn key_size() -> usize {
        1
    }
    fn set_key(&mut self, key: &[u8]) {
        self.key = key[0];
    }
    fn block_encrypt(&self, block: &mut [u8]) {
        for b in block.iter_mut() {
            *b = b.wrapping_add(self.key);
        }
    }
    fn block_decrypt(&self, block: &mut [u8]) {
        for b in block.iter_mut() {
            *b = b.wrapping_sub(self.key);
        }
    }
}

#[test]
fn block_cipher_can_be_implemented() {
    let mut c = Shift { key: 0 };
    c.set_key(&[7]);
    let mut block = [1u8, 2, 250, 255];
    c.block_encrypt(&mut block);
    assert_eq!(block, [8, 9, 1, 6]);
    c.block_decrypt(&mut block);
    assert_eq!(block, [1, 2, 250, 255]);
    assert_eq!((Shift::block_size(), Shift::key_size()), (4, 1));
}
