use git_craft::render::material::{downsample, hash, lattice_hash, mip_chain, ATLAS_LAYERS, ATLAS_SIZE};

#[test]
fn a_flat_layer_stays_uniform_through_mips() {
    // A constant-color buffer must box-filter to the same constant.
    let layers = 1;
    let mut buf = vec![0u8; (4 * 4 * 4) as usize];
    for px in buf.chunks_exact_mut(4) {
        px.copy_from_slice(&[40, 80, 120, 200]);
    }
    let half = downsample(&buf, layers, 4, 4);
    assert!(half.chunks_exact(4).all(|px| px == [40, 80, 120, 200]));
    assert_eq!(half.len(), (4 * 2 * 2) as usize);
}

#[test]
fn downsample_floors_the_mean_of_each_quad() {
    // One 2×2 layer, one channel varying: (1 + 2 + 3 + 5) / 4 = 2 (floor).
    let buf: Vec<u8> = vec![1, 0, 0, 0, 2, 0, 0, 0, 3, 0, 0, 0, 5, 0, 0, 255];
    let half = downsample(&buf, 1, 2, 2);
    assert_eq!(half, vec![2, 0, 0, 63]);
}

#[test]
fn downsample_clamps_a_one_texel_edge() {
    // A 1×2 layer halves to 1×1: the missing column repeats the edge texel.
    let buf: Vec<u8> = vec![10, 20, 30, 40, 30, 40, 50, 60];
    let half = downsample(&buf, 1, 1, 2);
    assert_eq!(half, vec![20, 30, 40, 50]);
}

#[test]
fn hash_values_are_fixed() {
    assert_eq!(hash(0), 0);
    assert_eq!(hash(1), 1753845952);
    assert_eq!(hash(12345), 2435775735);
    assert_eq!(lattice_hash(1, 2, 3, 4), 1201418692);
}

#[test]
fn mip_chain_has_one_level_per_halving() {
    let n = (ATLAS_LAYERS * ATLAS_SIZE * ATLAS_SIZE * 4) as usize;
    let albedo0: Vec<u8> = (0..n).map(|i| (i % 251) as u8).collect();
    let normal0: Vec<u8> = vec![128; n];
    let atlas = mip_chain(ATLAS_SIZE, albedo0.clone(), normal0);
    assert_eq!(atlas.size, ATLAS_SIZE);
    assert_eq!(atlas.layers, ATLAS_LAYERS);
    assert_eq!(atlas.mip_levels, 5); // 16, 8, 4, 2, 1
    assert_eq!(atlas.albedo.len(), 5);
    assert_eq!(atlas.albedo[0], albedo0);
    let mut w = ATLAS_SIZE;
    for mip in 0..atlas.mip_levels as usize {
        let expected = (ATLAS_LAYERS * w * w * 4) as usize;
        assert_eq!(atlas.albedo[mip].len(), expected, "albedo mip {mip}");
        assert_eq!(atlas.normal[mip].len(), expected, "normal mip {mip}");
        assert!(atlas.normal[mip].iter().all(|&b| b == 128));
        w = (w / 2).max(1);
    }
    assert_eq!(atlas.albedo[1], downsample(&atlas.albedo[0], ATLAS_LAYERS, 16, 16));
}
