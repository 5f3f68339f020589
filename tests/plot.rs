use libshabal::{
    create_plot, create_plots, create_scoop, noncegen_rust, noncegen_single_rust, poc2_shuffle, SimdExtension,
    NONCE_SIZE, SCOOP_SIZE,
};

fn plot(account_id: u64, nonce: u64, poc_version: u8) -> Vec<u8> {
    let mut buffer = vec![0u8; NONCE_SIZE];
    create_plot(account_id, nonce, poc_version, &mut buffer, 0);
    buffer
}

#[test]
fn plot_is_deterministic() {
    let first = plot(12345, 67, 1);
    let mut second = vec![0xAAu8; NONCE_SIZE + 100];
    create_plot(12345, 67, 1, &mut second, 100);
    assert_eq!(&second[..100], &[0xAAu8; 100][..]);
    assert_eq!(first, second[100..].to_vec());
}

#[test]
fn plot_depends_on_seed() {
    let a = plot(1, 0, 1);
    let b = plot(1, 1, 1);
    assert_ne!(a, b);
    assert_ne!(a, vec![0u8; NONCE_SIZE]);
}

#[test]
fn backends_give_identical_buffers() {
    let mut scalar = vec![0u8; NONCE_SIZE];
    let mut wide = vec![0u8; NONCE_SIZE];
    create_plots(SimdExtension::NONE, 0, 0, 1, 1, &mut scalar, 0);
    create_plots(SimdExtension::AVX2, 0, 0, 1, 1, &mut wide, 0);
    assert_eq!(&scalar[..32], &wide[..32]);
    assert_eq!(&scalar[NONCE_SIZE - 32..], &wide[NONCE_SIZE - 32..]);
    assert_eq!(scalar, wide);
}

#[test]
fn create_plots_writes_consecutive_nonces() {
    let mut many = vec![0u8; 2 * NONCE_SIZE + 8];
    create_plots(SimdExtension::SSE2, 99, 7, 2, 2, &mut many, 8);
    assert_eq!(&many[..8], &[0u8; 8][..]);
    assert_eq!(many[8..8 + NONCE_SIZE].to_vec(), plot(99, 7, 2));
    assert_eq!(many[8 + NONCE_SIZE..].to_vec(), plot(99, 8, 2));
}

#[test]
fn noncegen_matches_create_plot() {
    let mut cache = vec![0u8; NONCE_SIZE + 3];
    noncegen_rust(&mut cache, 5, 11, 1, 1);
    assert_eq!(cache[..NONCE_SIZE].to_vec(), plot(5, 11, 1));
    assert_eq!(&cache[NONCE_SIZE..], &[0u8; 3][..]);
    let mut single = vec![0u8; NONCE_SIZE];
    noncegen_single_rust(&mut single, 5, 11, 1);
    assert_eq!(single, cache[..NONCE_SIZE].to_vec());
}

#[test]
fn zero_count_writes_nothing() {
    let mut buffer = vec![7u8; 10];
    create_plots(SimdExtension::NONE, 1, 2, 0, 1, &mut buffer, 10);
    assert_eq!(buffer, vec![7u8; 10]);
    let mut empty: Vec<u8> = Vec::new();
    create_plots(SimdExtension::AVX512f, 1, 2, 0, 2, &mut empty, 0);
    assert!(empty.is_empty());
}

fn check_scoops(account_id: u64, nonce: u64, poc_version: u8, scoops: &[u32]) {
    let whole = plot(account_id, nonce, poc_version);
    for &i in scoops {
        let mut out = vec![0u8; SCOOP_SIZE + 4];
        create_scoop(account_id, nonce, i, poc_version, &mut out, 4);
        let at = i as usize * SCOOP_SIZE;
        assert_eq!(&out[4..], &whole[at..at + SCOOP_SIZE]);
        assert_eq!(&out[..4], &[0u8; 4][..]);
    }
}

#[test]
fn scoop_matches_plot_first_pair() {
    check_scoops(0, 0, 1, &[0, 4095]);
}

#[test]
fn scoop_matches_plot_second_pair() {
    check_scoops(10282355196851764065, 3, 2, &[1, 2048]);
}

#[test]
fn scoop_matches_plot_third_pair() {
    check_scoops(42, 1000000, 2, &[4094, 17]);
}

#[test]
fn poc2_is_interleaved_poc1() {
    let poc1 = plot(77, 5, 1);
    let poc2 = plot(77, 5, 2);
    let mut shuffled = poc1.clone();
    poc2_shuffle(&mut shuffled);
    assert_eq!(shuffled, poc2);
    poc2_shuffle(&mut shuffled);
    assert_eq!(shuffled, poc1);
}

#[test]
fn poc2_swaps_second_halves_of_mirrored_scoops() {
    let mut data: Vec<u8> = (0..NONCE_SIZE).map(|i| (i / 32 % 251) as u8).collect();
    let original = data.clone();
    poc2_shuffle(&mut data);
    assert_eq!(&data[..32], &original[..32]);
    assert_eq!(&data[32..64], &original[NONCE_SIZE - 32..]);
    assert_eq!(&data[NONCE_SIZE - 32..], &original[32..64]);
    assert_eq!(&data[NONCE_SIZE - 64..NONCE_SIZE - 32], &original[NONCE_SIZE - 64..NONCE_SIZE - 32]);
    let s = 2047 * SCOOP_SIZE;
    let m = 2048 * SCOOP_SIZE;
    assert_eq!(&data[s + 32..s + 64], &original[m + 32..m + 64]);
}
