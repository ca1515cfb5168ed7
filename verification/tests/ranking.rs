use rust_hnsw::ranking::{distance_key, key_bits, offer};
use rust_hnsw::Neighbor;

fn hit(id: &str, distance: u32) -> Neighbor {
    Neighbor { id: id.to_string(), distance }
}

fn names(found: &Vec<Neighbor>) -> Vec<String> {
    found.iter().map(|n| n.id.clone()).collect()
}

fn keys(found: &Vec<Neighbor>) -> Vec<u32> {
    found.iter().map(|n| n.distance).collect()
}

#[test]
fn offer_into_empty_list() {
    let mut found = Vec::new();
    offer(&mut found, hit("a", 7), 3);
    assert_eq!(names(&found), vec!["a"]);
    assert_eq!(keys(&found), vec![7]);
}

#[test]
fn offer_keeps_list_ascending() {
    let mut found = Vec::new();
    offer(&mut found, hit("a", 50), 10);
    offer(&mut found, hit("b", 10), 10);
    offer(&mut found, hit("c", 30), 10);
    offer(&mut found, hit("d", 70), 10);
    assert_eq!(names(&found), vec!["b", "c", "a", "d"]);
    assert_eq!(keys(&found), vec![10, 30, 50, 70]);
}

#[test]
fn offer_puts_equal_key_behind_earlier_ones() {
    let mut found = Vec::new();
    offer(&mut found, hit("a", 5), 10);
    offer(&mut found, hit("b", 5), 10);
    offer(&mut found, hit("c", 1), 10);
    offer(&mut found, hit("d", 5), 10);
    assert_eq!(names(&found), vec!["c", "a", "b", "d"]);
}

#[test]
fn offer_cuts_back_to_the_limit() {
    let mut found = Vec::new();
    offer(&mut found, hit("a", 10), 2);
    offer(&mut found, hit("b", 20), 2);
    offer(&mut found, hit("c", 5), 2);
    assert_eq!(names(&found), vec!["c", "a"]);
    offer(&mut found, hit("d", 99), 2);
    assert_eq!(names(&found), vec!["c", "a"]);
}

#[test]
fn offer_with_limit_zero_keeps_nothing() {
    let mut found = Vec::new();
    offer(&mut found, hit("a", 10), 0);
    assert!(found.is_empty());
}

#[test]
fn distance_key_examples() {
    assert_eq!(distance_key(0x0000_0000), 0x8000_0000);
    assert_eq!(distance_key(0x3f80_0000), 0xbf80_0000);
    assert_eq!(distance_key(0x8000_0000), 0x7fff_ffff);
    assert_eq!(distance_key(0xbf80_0000), 0x407f_ffff);
    assert_eq!(distance_key(0xffff_ffff), 0x0000_0000);
}

#[test]
fn key_bits_undoes_distance_key() {
    for value in [0.0f32, -0.0, 1.0, -1.0, 0.5, 2.0, 1.0e-20, -3.5e10, f32::MAX, f32::MIN] {
        assert_eq!(key_bits(distance_key(value.to_bits())), value.to_bits());
    }
    for key in [0u32, 1, 0x7fff_ffff, 0x8000_0000, 0xffff_ffff, 12345] {
        assert_eq!(distance_key(key_bits(key)), key);
    }
}

#[test]
fn distance_key_orders_like_the_numbers() {
    let values = [-10.0f32, -1.0, -0.25, 0.0, 1.0e-30, 0.25, 0.5, 1.0, 1.5, 2.0, 1.0e30];
    for i in 0..values.len() {
        for j in 0..values.len() {
            assert_eq!(
                distance_key(values[i].to_bits()) < distance_key(values[j].to_bits()),
                values[i] < values[j]
            );
        }
    }
}
