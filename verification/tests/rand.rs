use kernel_core::rand::{RandomGenerator, MT19937};

#[test]
fn scenario_seed_zero_first_output() {
    let mut g = MT19937::new(0);
    assert_eq!(g.random_uint32(), 2357136044);
}

#[test]
fn reference_stream_of_the_default_seed() {
    let mut g = MT19937::new(5489);
    assert_eq!(g.random_uint32(), 3499211612);
    assert_eq!(g.random_uint32(), 581869302);
    assert_eq!(g.random_uint32(), 3890346734);
    let mut last = 0;
    for _ in 3..10000 {
        last = g.random_uint32();
    }
    assert_eq!(last, 4123659995);
}

#[test]
fn same_seed_same_stream() {
    let mut a = MT19937::new(12345);
    let mut b = MT19937::new(12345);
    for _ in 0..2000 {
        assert_eq!(a.random_uint32(), b.random_uint32());
    }
}

#[test]
fn seed_starts_the_stream_anew() {
    let mut a = MT19937::new(1);
    let first: Vec<u32> = (0..700).map(|_| a.random_uint32()).collect();
    a.seed(1);
    let again: Vec<u32> = (0..700).map(|_| a.random_uint32()).collect();
    assert_eq!(first, again);
    a.seed(2);
    assert_ne!(a.random_uint32(), first[0]);
}

#[test]
fn gen_bytes_is_big_endian_words() {
    let mut a = MT19937::new(0);
    let mut buf = vec![0xaau8; 8];
    a.gen_bytes(&mut buf);
    let mut b = MT19937::new(0);
    let w0 = b.random_uint32();
    let w1 = b.random_uint32();
    assert_eq!(w0, 2357136044);
    assert_eq!(&buf[..4], &w0.to_be_bytes());
    assert_eq!(&buf[4..], &w1.to_be_bytes());
    assert_eq!(&buf[..4], &[0x8c, 0x7f, 0x0a, 0xac]);
    assert_eq!(a.random_uint32(), b.random_uint32());
}

#[test]
fn gen_bytes_partial_chunk_takes_the_prefix() {
    for len in 0..10usize {
        let mut a = MT19937::new(7);
        let mut buf = vec![0x55u8; len];
        a.gen_bytes(&mut buf);
        let mut b = MT19937::new(7);
        let mut expect = Vec::new();
        for _ in 0..(len + 3) / 4 {
            expect.extend_from_slice(&b.random_uint32().to_be_bytes());
        }
        expect.truncate(len);
        assert_eq!(buf, expect);
        // as many words were used as chunks were filled
        assert_eq!(a.random_uint32(), b.random_uint32());
    }
}

#[test]
fn range_uint32_is_start_plus_remainder() {
    let mut a = MT19937::new(0);
    let r = a.range_uint32(10..17);
    assert_eq!(r, 10 + 2357136044 % 7);
    let mut b = MT19937::new(0);
    assert_eq!(b.range_uint32(5..6), 5);
    let mut c = MT19937::new(99);
    for _ in 0..1000 {
        let v = c.range_uint32(100..200);
        assert!((100..200).contains(&v));
    }
}
