use mcpe_world::{Dimension, NeighborIterator, WorldPos};

#[test]
fn six_neighbours_in_order() {
    let p = WorldPos { x: 5, y: 10, z: -3, dimension: Dimension::End };
    let mut it = NeighborIterator::new(p);
    let mut got = Vec::new();
    while let Some(n) = it.next() {
        got.push((n.x, n.y, n.z));
    }
    assert_eq!(got, vec![(6, 10, -3), (4, 10, -3), (5, 11, -3), (5, 9, -3), (5, 10, -2), (5, 10, -4)]);
    assert_eq!(it.next(), None);
}
