use rand::SeedableRng;
use rand_xoshiro::Xoshiro256PlusPlus;
use raytracing::perlin::{generate_perm, gradient_index, permute, place, POINT_COUNT};
use raytracing::raytracer::{place_tile, Tile};

#[test]
fn table_is_a_shuffle_of_the_numbers() {
    let mut rng = Xoshiro256PlusPlus::seed_from_u64(11);
    let table = generate_perm(&mut rng);
    assert_eq!(table.len(), POINT_COUNT);
    let mut sorted = table.clone();
    sorted.sort();
    assert_eq!(sorted, (0..POINT_COUNT).collect::<Vec<usize>>());
    assert_ne!(table, sorted);
    let again = generate_perm(&mut Xoshiro256PlusPlus::seed_from_u64(11));
    assert_eq!(table, again);
    let other = generate_perm(&mut Xoshiro256PlusPlus::seed_from_u64(12));
    assert_ne!(table, other);
}

#[test]
fn permute_moves_every_entry_on_short_lists() {
    let mut rng = Xoshiro256PlusPlus::seed_from_u64(4);
    let mut one = vec![7];
    permute(&mut rng, &mut one);
    assert_eq!(one, vec![7]);
    let mut none: Vec<usize> = Vec::new();
    permute(&mut rng, &mut none);
    assert!(none.is_empty());
    // the last entry is always exchanged with an earlier one
    for seed in 0..20 {
        let mut rng = Xoshiro256PlusPlus::seed_from_u64(seed);
        let mut two = vec![1, 2];
        permute(&mut rng, &mut two);
        assert_eq!(two, vec![2, 1]);
        let mut five = vec![10, 20, 30, 40, 50];
        permute(&mut rng, &mut five);
        assert_ne!(five[4], 50);
        five.sort();
        assert_eq!(five, vec![10, 20, 30, 40, 50]);
    }
}

#[test]
fn lattice_places_wrap() {
    assert_eq!(place(0, 0), 0);
    assert_eq!(place(0, 1), 1);
    assert_eq!(place(255, 0), 255);
    assert_eq!(place(255, 1), 0);
    assert_eq!(place(256, 0), 0);
    assert_eq!(place(1000, 1), 1001 % 256);
    assert_eq!(place(-1, 0), 255);
    assert_eq!(place(-1, 1), 0);
    assert_eq!(place(-256, 0), 0);
    assert_eq!(place(-257, 0), 255);
    assert_eq!(place(isize::MIN, 0), 0);
    assert_eq!(place(isize::MAX - 1, 1), 255);
}

#[test]
fn gradient_is_picked_by_exclusive_or() {
    let identity: Vec<usize> = (0..POINT_COUNT).collect();
    let reversed: Vec<usize> = (0..POINT_COUNT).rev().collect();
    assert_eq!(gradient_index(&identity, &identity, &identity, 1, 2, 4), 7);
    assert_eq!(gradient_index(&identity, &identity, &identity, 255, 255, 0), 0);
    assert_eq!(gradient_index(&reversed, &identity, &identity, 0, 0, 0), 255);
    assert_eq!(gradient_index(&reversed, &identity, &reversed, 5, 3, 250), 250 ^ 3 ^ 5);
}

#[test]
fn tile_is_placed_upside_down_and_clipped() {
    // a 20 by 18 image and the tile in its top right corner of tiles
    let (width, height) = (20usize, 18usize);
    let mut image = vec![vec![0u32; width]; height];
    let mut tile: Tile<u32> = Tile::new(16, 16, 1);
    for row in 0..16 {
        for column in 0..16 {
            tile.set(row, column, (100 * row + column) as u32 + 1000);
        }
    }
    let placed = place_tile(&mut image, &tile, width, height);
    assert_eq!(placed, 4 * 2);
    for py in 0..height {
        for px in 0..width {
            let expected = if px >= 16 && py >= 16 {
                (100 * (py - 16) + (px - 16)) as u32 + 1000
            } else {
                0
            };
            assert_eq!(image[height - 1 - py][px], expected, "pixel {} {}", px, py);
        }
    }
    // a whole tile
    let first: Tile<u32> = Tile::new(0, 0, 5);
    assert_eq!(place_tile(&mut image, &first, width, height), 256);
    assert_eq!(image[height - 1][0], 5);
    assert_eq!(image[height - 16][15], 5);
    assert_eq!(image[height - 17][15], 0);
    assert_eq!(image[height - 1][16], 0);
    assert_eq!(image[0][16], 1100);
    // a tile below the image leaves it as it is
    let below: Tile<u32> = Tile::new(0, 32, 9);
    let before = image.clone();
    assert_eq!(place_tile(&mut image, &below, width, height), 0);
    assert_eq!(image, before);
}

#[test]
fn shuffle_leaves_no_entry_in_its_place() {
    for seed in 0..50 {
        let mut rng = Xoshiro256PlusPlus::seed_from_u64(seed);
        for n in 2..12usize {
            let before: Vec<usize> = (0..n).map(|i| 100 + i).collect();
            let mut after = before.clone();
            permute(&mut rng, &mut after);
            for k in 0..n {
                assert_ne!(after[k], before[k], "seed {} length {} place {}", seed, n, k);
            }
            let mut sorted = after.clone();
            sorted.sort();
            assert_eq!(sorted, before);
        }
        let table = generate_perm(&mut rng);
        for k in 0..POINT_COUNT {
            assert_ne!(table[k], k);
        }
    }
}
