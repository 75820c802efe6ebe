use fastwebsockets::unmask;

#[test]
fn test_unmask() {
    let mut payload = [0u8; 33];
    let mask = [1, 2, 3, 4];
    unmask(&mut payload, mask);
    assert_eq!(
        &payload,
        &[
            1, 2, 3, 4, 1, 2, 3, 4, 1, 2, 3, 4, 1, 2, 3, 4, 1, 2, 3, 4, 1, 2, 3, 4, 1, 2, 3, 4, 1,
            2, 3, 4, 1
        ]
    );
}

#[test]
fn length_variation_unmask() {
    for len in &[0, 2, 3, 8, 16, 18, 31, 32, 40] {
        let mut payload = vec![0u8; *len];
        let mask = [1, 2, 3, 4];
        unmask(&mut payload, mask);

        let expected = (0..*len).map(|i| (i & 3) as u8 + 1).collect::<Vec<_>>();
        assert_eq!(payload, expected);
    }
}

#[test]
fn length_variation_unmask_2() {
    for len in &[0, 2, 3, 8, 16, 18, 31, 32, 40] {
        let mut payload = vec![0u8; *len];
        let mask = rand::random::<[u8; 4]>();
        unmask(&mut payload, mask);

        let expected = (0..*len).map(|i| mask[i & 3]).collect::<Vec<_>>();
        assert_eq!(payload, expected);
    }
}

#[test]
fn simd_path_correctness() {
    for len in 0..=300usize {
        let mut payload: Vec<u8> = (0..len).map(|i| (i & 0xff) as u8).collect();
        let mut expected = payload.clone();
        let mask = [0x37, 0xfe, 0x21, 0x05];
        unmask(&mut payload, mask);
        for (i, b) in expected.iter_mut().enumerate() {
            *b ^= mask[i & 3];
        }
        assert_eq!(payload, expected, "len={}", len);
    }
}

#[test]
fn large_payload() {
    let mut payload: Vec<u8> = (0..16384).map(|i| (i & 0xff) as u8).collect();
    let mut expected = payload.clone();
    let mask = [0x12, 0x34, 0x56, 0x78];
    unmask(&mut payload, mask);
    for (i, b) in expected.iter_mut().enumerate() {
        *b ^= mask[i & 3];
    }
    assert_eq!(payload, expected);
}

#[test]
fn unmask_twice_restores_payload() {
    let plain: Vec<u8> = (0..97u32).map(|i| (i * 7 % 251) as u8).collect();
    let mut payload = plain.clone();
    let mask = [0xde, 0xad, 0xbe, 0xef];
    unmask(&mut payload, mask);
    assert_ne!(payload, plain);
    unmask(&mut payload, mask);
    assert_eq!(payload, plain);
}
