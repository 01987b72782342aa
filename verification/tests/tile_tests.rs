use raytracing::integrator::{Interaction, Path, Radiance};
use raytracing::raytracer::{claim_tile, clipped, tile_seed, Tile, TILE_SIZE};

fn schedule(width: usize, height: usize, claims: usize) -> Vec<(usize, usize)> {
    let mut cursor = (0usize, 0usize);
    let mut tiles = Vec::new();
    for _ in 0..claims {
        let claim = claim_tile(cursor, width, height);
        cursor = claim.next;
        if let Some(origin) = claim.origin {
            tiles.push(origin);
        }
    }
    tiles
}

fn coverage(width: usize, height: usize, tiles: &[(usize, usize)]) -> Vec<Vec<usize>> {
    let mut count = vec![vec![0usize; width]; height];
    for &(x, y) in tiles {
        for j in y..y + clipped(y, height) {
            for i in x..x + clipped(x, width) {
                count[j][i] += 1;
            }
        }
    }
    count
}

#[test]
fn tiles_cover_37_by_20_once() {
    let tiles = schedule(37, 20, 40);
    assert_eq!(tiles, vec![(0, 0), (16, 0), (32, 0), (0, 16), (16, 16), (32, 16)]);
    let count = coverage(37, 20, &tiles);
    for row in &count {
        for &c in row {
            assert_eq!(c, 1);
        }
    }
}

#[test]
fn tiles_cover_various_sizes_once() {
    for &(w, h) in &[(1usize, 1usize), (16, 16), (17, 15), (5, 40), (16, 33), (64, 48), (100, 3)] {
        let tiles = schedule(w, h, 200);
        let count = coverage(w, h, &tiles);
        for row in &count {
            for &c in row {
                assert_eq!(c, 1, "image {} by {}", w, h);
            }
        }
    }
}

#[test]
fn claims_walk_row_major_and_stop() {
    let first = claim_tile((0, 0), 37, 20);
    assert_eq!(first.origin, Some((0, 0)));
    assert_eq!(first.next, (16, 0));
    assert!(!first.done);
    let wrap = claim_tile((32, 0), 37, 20);
    assert_eq!(wrap.origin, Some((32, 0)));
    assert_eq!(wrap.next, (0, 16));
    assert!(!wrap.done);
    let last = claim_tile((32, 16), 37, 20);
    assert_eq!(last.origin, Some((32, 16)));
    assert_eq!(last.next, (0, 32));
    assert!(last.done);
    let after = claim_tile((0, 32), 37, 20);
    assert_eq!(after.origin, None);
    assert_eq!(after.next, (0, 32));
    assert!(after.done);
}

#[test]
fn narrow_image_hands_out_empty_tiles_after_the_end() {
    let last = claim_tile((0, 16), 10, 20);
    assert_eq!(last.origin, Some((0, 16)));
    assert_eq!(last.next, (0, 32));
    assert!(last.done);
    let after = claim_tile((0, 32), 10, 20);
    assert_eq!(after.origin, Some((0, 32)));
    assert_eq!(after.next, (0, 48));
    assert!(after.done);
    assert_eq!(clipped(32, 20), 0);
}

#[test]
fn empty_image_has_no_tiles() {
    let claim = claim_tile((0, 0), 100, 0);
    assert_eq!(claim.origin, None);
    assert!(claim.done);
}

#[test]
fn clipped_cuts_edge_tiles() {
    assert_eq!(clipped(0, 37), 16);
    assert_eq!(clipped(16, 37), 16);
    assert_eq!(clipped(32, 37), 5);
    assert_eq!(clipped(16, 20), 4);
    assert_eq!(clipped(48, 37), 0);
    assert_eq!(clipped(37, 37), 0);
}

#[test]
fn tile_seed_is_xor_of_seed_and_origin() {
    assert_eq!(tile_seed(0, 0, 0), 0);
    assert_eq!(tile_seed(0xdead_beef, 16, 32), 0xdead_beef ^ 16 ^ 32);
    assert_eq!(tile_seed(7, 16, 16), 7);
    assert_eq!(tile_seed(u64::MAX, 1, 2), u64::MAX ^ 3);
}

#[test]
fn tile_starts_filled_and_takes_pixels() {
    let mut tile: Tile<u32> = Tile::new(16, 32, 9);
    assert_eq!(tile.x, 16);
    assert_eq!(tile.y, 32);
    assert_eq!(tile.pixels.len(), TILE_SIZE);
    for row in tile.pixels.iter() {
        assert_eq!(row.len(), TILE_SIZE);
        for &p in row.iter() {
            assert_eq!(p, 9);
        }
    }
    tile.set(3, 5, 77);
    assert_eq!(tile.pixels[3][5], 77);
    assert_eq!(tile.pixels[5][3], 9);
    assert_eq!(tile.pixels[3][4], 9);
}

#[test]
fn depth_zero_is_black() {
    for depth in [0, -1, i32::MIN] {
        let path = Path::new(depth);
        assert!(path.exhausted());
        for met in [Interaction::Miss, Interaction::Absorbed, Interaction::Scattered] {
            assert_eq!(path.ray_color(met), Radiance::Black);
        }
    }
}

#[test]
fn bounce_rule_picks_the_formula() {
    let path = Path::new(3);
    assert!(!path.exhausted());
    assert_eq!(path.ray_color(Interaction::Miss), Radiance::Background);
    assert_eq!(path.ray_color(Interaction::Absorbed), Radiance::Emitted);
    assert_eq!(path.ray_color(Interaction::Scattered), Radiance::Bounced(Path::new(2)));
}

#[test]
fn path_ends_after_depth_bounces() {
    let mut path = Path::new(5);
    let mut traced = 0;
    while !path.exhausted() {
        traced += 1;
        match path.ray_color(Interaction::Scattered) {
            Radiance::Bounced(next) => path = next,
            other => panic!("unexpected {:?}", other),
        }
    }
    assert_eq!(traced, 5);
    assert_eq!(path.ray_color(Interaction::Scattered), Radiance::Black);
}
