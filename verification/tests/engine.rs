use rav1e::ec::Coder;
use rav1e::encoder::encode_frame;
use rav1e::encoder::encode_tile;
use rav1e::encoder::EncodeError;
use rav1e::frame::Plane;
use rav1e::frame::Region;
use rav1e::partition::search;
use rav1e::partition::PartitionNode;
use rav1e::rdo::decide;
use rav1e::rdo::prefer;
use rav1e::rdo::rd_value;
use rav1e::rdo::CostEstimate;
use rav1e::transform::quant_level;
use rav1e::transform::reconstruct;

fn flat_plane(w: usize, h: usize, v: u16) -> Plane {
    Plane::new(w, h, vec![v; w * h]).unwrap()
}

fn diagonal_plane(n: usize, above: u16, below: u16) -> Plane {
    let mut data = vec![0u16; n * n];
    for y in 0..n {
        for x in 0..n {
            data[y * n + x] = if x > y { above } else { below };
        }
    }
    Plane::new(n, n, data).unwrap()
}

#[test]
fn lambda_scaling_picks_each_candidate_on_its_side() {
    // candidates (distortion 100, rate 10 bits) and (distortion 80, rate 40
    // bits); rates are in 1/256-bit units. The first must win once lambda
    // exceeds 2/3 (in 1/256 units: above 170.67), the second below it.
    let a = CostEstimate { distortion: 100, rate: 10 * 256 };
    let b = CostEstimate { distortion: 80, rate: 40 * 256 };
    let high = 171u64;
    let low = 170u64;
    assert_eq!(rd_value(a, high), 100 * 65536 + 171 * 2560);
    assert!(rd_value(a, high) < rd_value(b, high));
    assert!(rd_value(b, low) < rd_value(a, low));
    // tie-break: equal RD prefers fewer symbols, then the incumbent
    assert!(prefer(5, 1, 5, 2));
    assert!(!prefer(5, 2, 5, 2));
    assert!(!prefer(6, 1, 5, 2));
}

#[test]
fn quantizer_round_trip_values() {
    assert_eq!(quant_level(100, 30, 64), 1);
    assert_eq!(reconstruct(30, 1, 64), 94);
    assert_eq!(quant_level(30, 130, 64), -1);
    assert_eq!(reconstruct(130, -1, 64), 66);
    assert_eq!(quant_level(100, 100, 8), 0);
    assert_eq!(reconstruct(100, 0, 8), 100);
}

#[test]
fn flat_block_skips_and_never_splits() {
    let p = flat_plane(64, 64, 100);
    let r = Region { x: 0, y: 0, w: 64, h: 64 };
    let coder = Coder::new();
    let (dec, cost) = decide(&p, r, 256, 8, &coder);
    assert!(dec.skip);
    assert_eq!(dec.dc, 100);
    assert_eq!(cost.distortion, 0);
    let (node, _total) = search(&p, r, 256, 8, &coder);
    match node {
        PartitionNode::Leaf(d) => {
            assert!(d.skip);
            assert_eq!(d.dc, 100);
        },
        PartitionNode::Split(..) => panic!("a flat block must not split"),
    }
}

#[test]
fn high_contrast_edge_reaches_a_split() {
    // two flat halves split down the diagonal: with a small lambda the
    // distortion term dominates and some split must beat no-split.
    let p = diagonal_plane(64, 30, 230);
    let r = Region { x: 0, y: 0, w: 64, h: 64 };
    let coder = Coder::new();
    let (node, _total) = search(&p, r, 1, 64, &coder);
    assert!(matches!(node, PartitionNode::Split(..)));
}

#[test]
fn tile_encoding_is_deterministic() {
    let p = diagonal_plane(64, 30, 230);
    let r = Region { x: 0, y: 0, w: 64, h: 64 };
    let one = encode_tile(&p, r, 256, 8).unwrap();
    let two = encode_tile(&p, r, 256, 8).unwrap();
    assert_eq!(one, two);
    assert!(!one.is_empty());
}

#[test]
fn invalid_tile_regions_are_rejected_before_encoding() {
    let p = flat_plane(64, 64, 7);
    let bad_size = Region { x: 0, y: 0, w: 12, h: 12 };
    assert!(matches!(encode_tile(&p, bad_size, 256, 8), Err(EncodeError::InvalidRegion)));
    let misaligned = Region { x: 4, y: 0, w: 8, h: 8 };
    assert!(matches!(encode_tile(&p, misaligned, 256, 8), Err(EncodeError::InvalidRegion)));
    let out_of_plane = Region { x: 32, y: 32, w: 64, h: 64 };
    assert!(matches!(encode_tile(&p, out_of_plane, 256, 8), Err(EncodeError::InvalidRegion)));
    let rectangular = Region { x: 0, y: 0, w: 16, h: 8 };
    assert!(matches!(encode_tile(&p, rectangular, 256, 8), Err(EncodeError::InvalidRegion)));
}

#[test]
fn frame_payload_holds_sized_tiles_in_index_order() {
    let p = flat_plane(64, 32, 50);
    let tiles = vec![
        Region { x: 0, y: 0, w: 32, h: 32 },
        Region { x: 32, y: 0, w: 32, h: 32 },
    ];
    let payload = encode_frame(&p, &tiles, 256, 8).unwrap();
    let t0 = encode_tile(&p, tiles[0], 256, 8).unwrap();
    let t1 = encode_tile(&p, tiles[1], 256, 8).unwrap();
    let mut expect: Vec<u8> = Vec::new();
    expect.extend_from_slice(&(t0.len() as u64).to_le_bytes());
    expect.extend_from_slice(&t0);
    expect.extend_from_slice(&(t1.len() as u64).to_le_bytes());
    expect.extend_from_slice(&t1);
    assert_eq!(payload, expect);
    // a frame with any unsupported tile fails whole
    let bad = vec![Region { x: 0, y: 0, w: 32, h: 32 }, Region { x: 0, y: 0, w: 12, h: 12 }];
    assert!(encode_frame(&p, &bad, 256, 8).is_err());
}

#[test]
fn plane_construction_checks_dimensions() {
    assert!(Plane::new(8, 8, vec![0u16; 64]).is_some());
    assert!(Plane::new(8, 8, vec![0u16; 63]).is_none());
    assert!(Plane::new(0, 8, vec![]).is_none());
}

#[test]
fn empty_tile_list_gives_empty_payload() {
    let p = flat_plane(16, 16, 1);
    let tiles: Vec<Region> = Vec::new();
    assert_eq!(encode_frame(&p, &tiles, 256, 8).unwrap(), Vec::<u8>::new());
}
