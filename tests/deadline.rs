use libshabal::{
    best_deadline, deadline_from_hash, find_best_deadline_sph, shabal256_digest, shabal256_new, shabal256_update,
    shabal_findBestDeadline, shabal_findBestDeadlineDirect, SimdExtension,
};

fn scoop_set(count: usize) -> Vec<u8> {
    (0..count * 64).map(|i| (i * 7 % 256) as u8).collect()
}

fn deadline_by_hasher(gensig: &[u8; 32], scoop: &[u8]) -> u64 {
    let mut h = shabal256_new();
    shabal256_update(&mut h, gensig, 0, 32);
    shabal256_update(&mut h, scoop, 0, 64);
    let mut out = [0u8; 32];
    shabal256_digest(&mut h, &mut out, 0);
    deadline_from_hash(&out)
}

#[test]
fn deadline_reads_little_endian() {
    let mut hash = [0u8; 32];
    for (i, b) in hash.iter_mut().enumerate() {
        *b = i as u8 + 1;
    }
    assert_eq!(deadline_from_hash(&hash), 0x0807060504030201);
}

#[test]
fn best_picks_least_deadline() {
    assert_eq!(best_deadline(&[5, 3, 9]), (3, 1));
    assert_eq!(best_deadline(&[u64::MAX, u64::MAX - 1, 0]), (0, 2));
}

#[test]
fn single_smallest_entry_wins() {
    let mut ds = vec![1000u64; 50];
    ds[37] = 1;
    assert_eq!(best_deadline(&ds), (1, 37));
}

#[test]
fn ties_go_to_lowest_offset() {
    assert_eq!(best_deadline(&[7, 2, 9, 2]), (2, 1));
    assert_eq!(best_deadline(&[4, 4, 4]), (4, 0));
    assert_eq!(best_deadline(&[u64::MAX, u64::MAX]), (u64::MAX, 0));
}

#[test]
fn empty_search_gives_max() {
    assert_eq!(best_deadline(&[]), (u64::MAX, 0));
    assert_eq!(find_best_deadline_sph(&[], 0, &[3u8; 32]), (u64::MAX, 0));
}

#[test]
fn search_agrees_with_digest_of_each_scoop() {
    let gensig = [0x5Au8; 32];
    let scoops = scoop_set(9);
    let ds: Vec<u64> = (0..9).map(|i| deadline_by_hasher(&gensig, &scoops[i * 64..i * 64 + 64])).collect();
    let expected = best_deadline(&ds);
    assert_eq!(find_best_deadline_sph(&scoops, 9, &gensig), expected);
    let mut d = 0u64;
    let mut o = 0u64;
    shabal_findBestDeadlineDirect(SimdExtension::AVX, &scoops, 9, &gensig, &mut d, &mut o);
    assert_eq!((d, o), expected);
    assert_eq!(shabal_findBestDeadline(SimdExtension::NEON, &scoops, 9, &gensig), expected.1);
}

#[test]
fn identical_scoops_tie_to_first() {
    let gensig = [1u8; 32];
    let mut scoops = scoop_set(4);
    let copy = scoops[64..128].to_vec();
    scoops[192..256].copy_from_slice(&copy);
    let (d, o) = find_best_deadline_sph(&scoops, 4, &gensig);
    let d1 = deadline_by_hasher(&gensig, &scoops[64..128]);
    if d == d1 {
        assert_eq!(o, 1);
    }
    assert_ne!(o, 3);
}

#[test]
fn search_ignores_scoops_past_count() {
    let gensig = [9u8; 32];
    let scoops = scoop_set(6);
    let (d, o) = find_best_deadline_sph(&scoops, 2, &gensig);
    assert!(o < 2);
    let d0 = deadline_by_hasher(&gensig, &scoops[..64]);
    let d1 = deadline_by_hasher(&gensig, &scoops[64..128]);
    assert_eq!(d, d0.min(d1));
}

#[test]
fn backends_agree_on_search() {
    let gensig = [0xC3u8; 32];
    let scoops = scoop_set(5);
    let all = [
        SimdExtension::AVX512f,
        SimdExtension::AVX2,
        SimdExtension::AVX,
        SimdExtension::SSE2,
        SimdExtension::NEON,
        SimdExtension::NONE,
    ];
    let first = shabal_findBestDeadline(SimdExtension::NONE, &scoops, 5, &gensig);
    for b in all {
        assert_eq!(shabal_findBestDeadline(b, &scoops, 5, &gensig), first);
    }
}
