use bevy::prelude::Entity;
use rubiks::cube::{cell_index, RubiksCube};

fn generate_rb(sides: u32) -> RubiksCube<Entity> {
    let mut sub_cubes = Vec::new();
    for x in 0..sides {
        for y in 0..sides {
            for z in 0..sides {
                let index = sides * sides * x + sides * y + z + 1;
                let entity = Entity::from_raw(index);
                sub_cubes.push(entity);
            }
        }
    }
    RubiksCube::new(sides, sub_cubes).unwrap()
}

fn entities(raw: &[u32]) -> Vec<Entity> {
    raw.iter().cloned().map(Entity::from_raw).collect::<Vec<_>>()
}

#[test]
fn vertical_layer() {
    let rb = generate_rb(3);
    for i in 1..10 {
        assert_eq!(rb.vertical_layer(i), 0);
    }
    for i in 10..19 {
        assert_eq!(rb.vertical_layer(i), 1);
    }
    for i in 19..28 {
        assert_eq!(rb.vertical_layer(i), 2);
    }
}

#[test]
fn horizontal_layer() {
    let rb = generate_rb(3);
    let layers = [
        ([1, 2, 3], 0),
        ([4, 5, 6], 1),
        ([7, 8, 9], 2),
        ([10, 11, 12], 0),
        ([13, 14, 15], 1),
        ([16, 17, 18], 2),
        ([19, 20, 21], 0),
        ([22, 23, 24], 1),
        ([25, 26, 27], 2),
    ];
    for (cubes, layer) in layers {
        for c in cubes {
            assert_eq!(rb.horizontal_layer(c), layer);
        }
    }
}

#[test]
fn select_vertical_layer() {
    let rb = generate_rb(3);
    for i in 1..10 {
        assert_eq!(rb.select_vertical(i), entities(&[1, 2, 3, 4, 5, 6, 7, 8, 9]));
    }
    for i in 10..19 {
        assert_eq!(
            rb.select_vertical(i),
            entities(&[10, 11, 12, 13, 14, 15, 16, 17, 18])
        );
    }
    for i in 19..28 {
        assert_eq!(
            rb.select_vertical(i),
            entities(&[19, 20, 21, 22, 23, 24, 25, 26, 27])
        );
    }
}

#[test]
fn select_horizontal_layer() {
    let rb = generate_rb(3);
    let layers = [
        [1, 2, 3, 10, 11, 12, 19, 20, 21],
        [4, 5, 6, 13, 14, 15, 22, 23, 24],
        [7, 8, 9, 16, 17, 18, 25, 26, 27],
    ];
    for layer in layers {
        let entity_layer = entities(&layer);
        for l in layer {
            assert_eq!(rb.select_horizontal(l as usize), entity_layer);
        }
    }
}

#[test]
fn layers_of_cell_five() {
    let rb = generate_rb(3);
    assert_eq!(rb.select_vertical(5), entities(&[1, 2, 3, 4, 5, 6, 7, 8, 9]));
    assert_eq!(
        rb.select_horizontal(5),
        entities(&[4, 5, 6, 13, 14, 15, 22, 23, 24])
    );
}

#[test]
fn new_checks_cell_count() {
    assert!(RubiksCube::new(3, vec![0u32; 26]).is_none());
    assert!(RubiksCube::new(3, vec![0u32; 28]).is_none());
    assert!(RubiksCube::new(2, vec![0u32; 9]).is_none());
    let c = RubiksCube::new(2, vec![0u32; 8]).unwrap();
    assert_eq!(c.side_size(), 2);
    let empty = RubiksCube::new(0, Vec::<u32>::new()).unwrap();
    assert_eq!(empty.side_size(), 0);
    assert!(RubiksCube::new(u32::MAX, vec![0u32; 1]).is_none());
}

#[test]
fn cell_index_follows_scan_order() {
    assert_eq!(cell_index(3, 0, 0, 0), 1);
    assert_eq!(cell_index(3, 0, 1, 1), 5);
    assert_eq!(cell_index(3, 2, 2, 2), 27);
    assert_eq!(cell_index(4, 1, 2, 3), 16 + 8 + 3 + 1);
    let rb = generate_rb(4);
    for x in 0..4u32 {
        for y in 0..4u32 {
            for z in 0..4u32 {
                let i = cell_index(4, x, y, z);
                assert_eq!(rb.vertical_layer(i), x);
                assert_eq!(rb.horizontal_layer(i), y);
            }
        }
    }
}

#[test]
fn vertical_layer_is_monotone_and_bounded() {
    for n in 1..6u32 {
        let rb = RubiksCube::new(n, (1..=n * n * n).collect::<Vec<u32>>()).unwrap();
        let mut last = 0;
        for i in 1..=(n * n * n) as usize {
            let v = rb.vertical_layer(i);
            assert!(v < n);
            assert!(v >= last);
            last = v;
        }
    }
}

#[test]
fn every_cell_is_in_its_own_layers() {
    for n in 1..6u32 {
        let rb = RubiksCube::new(n, (1..=n * n * n).collect::<Vec<u32>>()).unwrap();
        for i in 1..=(n * n * n) as usize {
            assert!(rb.select_vertical(i).contains(&(i as u32)));
            assert!(rb.select_horizontal(i).contains(&(i as u32)));
        }
    }
}

#[test]
fn layers_partition_the_cube() {
    let n = 4u32;
    let total = (n * n * n) as usize;
    let rb = RubiksCube::new(n, (1..=n * n * n).collect::<Vec<u32>>()).unwrap();
    let mut seen_vertical = vec![0u32; total + 1];
    let mut seen_horizontal = vec![0u32; total + 1];
    for layer in 0..n {
        // the first cell of vertical layer `layer`, and the first cell of row `layer`
        let vertical = rb.select_vertical(cell_index(n, layer, 0, 0));
        let horizontal = rb.select_horizontal(cell_index(n, 0, layer, 0));
        assert_eq!(vertical.len(), (n * n) as usize);
        assert_eq!(horizontal.len(), (n * n) as usize);
        for c in vertical {
            seen_vertical[c as usize] += 1;
        }
        for c in horizontal {
            seen_horizontal[c as usize] += 1;
        }
    }
    for i in 1..=total {
        assert_eq!(seen_vertical[i], 1);
        assert_eq!(seen_horizontal[i], 1);
    }
}

#[test]
fn single_cell_cube() {
    let rb = RubiksCube::new(1, vec![7u32]).unwrap();
    assert_eq!(rb.vertical_layer(1), 0);
    assert_eq!(rb.horizontal_layer(1), 0);
    assert_eq!(rb.select_vertical(1), vec![7]);
    assert_eq!(rb.select_horizontal(1), vec![7]);
}
