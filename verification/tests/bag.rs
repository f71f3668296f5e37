use std::collections::HashSet;

use tetris::bag::{shuffled_kinds, Bag};
use tetris::tetromino::{Kind, Tetromino};

#[test]
fn test_shuffle_creates_different_bags() {
    let bag1 = Bag::new();
    let bag2 = Bag::new();
    assert_ne!(format!("{:?}", bag1.items), format!("{:?}", bag2.items));
}

#[test]
fn test_refill() {
    let mut bag = Bag::new();
    bag.get_item();
    bag.get_item();
    assert_eq!(bag.items.len(), 5);

    bag.refill();
    assert_eq!(bag.items.len(), 7);
}

#[test]
fn test_default_bag() {
    let bag = Bag::new();
    assert_eq!(bag.items.len(), 7);
}

#[test]
fn test_all_shapes_present() {
    let bag = Bag::new();

    let mut colors = HashSet::new();

    for shape in &bag.items {
        for row in &shape.matrix {
            for cell in row {
                if let Some(brick) = cell {
                    colors.insert(format!("{:?}", brick.color));
                    break;
                }
            }
        }
    }

    assert_eq!(colors.len(), 7);
}

#[test]
fn test_get_item() {
    let mut bag = Bag::new();
    let original_length = bag.items.len();
    assert_eq!(original_length, 7, "A new bag should have 7 items");

    let (_, next_shape) = bag.get_item();
    assert_eq!(bag.items.len(), 6, "Bag should have 6 items after getting one");
    assert_eq!(
        next_shape,
        bag.items.last().unwrap().clone(),
        "Next shape should match the last in the bag"
    );

    for i in 0..5 {
        let (_, _) = bag.get_item();
        assert_eq!(bag.items.len(), 5 - i, "Bag should decrease by one each time");
    }

    let (_, next_shape_after_refill) = bag.get_item();

    assert_eq!(bag.items.len(), 7, "Bag should refill to 7 items");
    assert_eq!(
        next_shape_after_refill,
        bag.items.last().unwrap().clone(),
        "Next shape after refill should match the last in the new bag"
    );
}

fn kind_of(piece: &Tetromino) -> Kind {
    let all = [Kind::O, Kind::I, Kind::S, Kind::Z, Kind::T, Kind::L, Kind::J];
    for kind in all {
        if *piece == Tetromino::create(kind) {
            return kind;
        }
    }
    panic!("not a fresh piece");
}

#[test]
fn test_seven_draws_bring_each_kind_once() {
    let mut bag = Bag::new();
    for _ in 0..3 {
        let mut seen = HashSet::new();
        for _ in 0..7 {
            let (piece, _) = bag.get_item();
            assert!(seen.insert(kind_of(&piece)));
        }
        assert_eq!(seen.len(), 7);
        assert_eq!(bag.items.len(), 7);
    }
}

#[test]
fn test_shuffled_kinds_is_a_permutation() {
    for _ in 0..20 {
        let order = shuffled_kinds();
        assert_eq!(order.len(), 7);
        let seen: HashSet<Kind> = order.iter().copied().collect();
        assert_eq!(seen.len(), 7);
    }
}

#[test]
fn test_shuffled_kinds_changes_the_order() {
    let laid_out = vec![Kind::O, Kind::I, Kind::S, Kind::Z, Kind::T, Kind::L, Kind::J];
    let mut changed = false;
    for _ in 0..20 {
        if shuffled_kinds() != laid_out {
            changed = true;
        }
    }
    assert!(changed);
}

#[test]
fn test_from_kinds_keeps_the_order() {
    let order = vec![Kind::J, Kind::L, Kind::T, Kind::Z, Kind::S, Kind::I, Kind::O];
    let bag = Bag::from_kinds(&order);
    assert_eq!(bag.items.len(), 7);
    for (piece, kind) in bag.items.iter().zip(order.iter()) {
        assert_eq!(kind_of(piece), *kind);
    }
    assert_eq!(bag.peek_next(), Tetromino::create_o());
}

#[test]
fn test_draw_takes_the_last_piece_and_shows_the_next() {
    let order = vec![Kind::J, Kind::L, Kind::T, Kind::Z, Kind::S, Kind::I, Kind::O];
    let fresh = vec![Kind::O, Kind::I, Kind::S, Kind::Z, Kind::T, Kind::L, Kind::J];
    let mut bag = Bag::from_kinds(&order);

    let (piece, next) = bag.draw(&fresh);
    assert_eq!(piece, Tetromino::create_o());
    assert_eq!(next, Tetromino::create_i());
    assert_eq!(bag.items.len(), 6);

    let (piece, next) = bag.draw(&fresh);
    assert_eq!(piece, Tetromino::create_i());
    assert_eq!(next, Tetromino::create_s());
    assert_eq!(bag.items.len(), 5);
}

#[test]
fn test_draw_fills_an_emptied_bag_in_the_given_order() {
    let fresh = vec![Kind::O, Kind::I, Kind::S, Kind::Z, Kind::T, Kind::L, Kind::J];
    let mut bag = Bag::from_kinds(&vec![Kind::T]);

    let (piece, next) = bag.draw(&fresh);
    assert_eq!(piece, Tetromino::create_t());
    assert_eq!(bag.items.len(), 7);
    assert_eq!(next, Tetromino::create_j());
    for (piece, kind) in bag.items.iter().zip(fresh.iter()) {
        assert_eq!(kind_of(piece), *kind);
    }
}

#[test]
fn test_a_kind_may_repeat_across_a_refill() {
    let order = vec![Kind::O, Kind::I, Kind::S, Kind::Z, Kind::T, Kind::L, Kind::J];
    let fresh = vec![Kind::J, Kind::L, Kind::T, Kind::Z, Kind::S, Kind::I, Kind::O];
    let mut bag = Bag::from_kinds(&order);
    let mut drawn = Vec::new();
    for _ in 0..8 {
        let (piece, _) = bag.draw(&fresh);
        drawn.push(kind_of(&piece));
    }
    assert_eq!(drawn[6], Kind::O);
    assert_eq!(drawn[7], Kind::O);
    let first_seven: HashSet<Kind> = drawn[..7].iter().copied().collect();
    assert_eq!(first_seven.len(), 7);
}

#[test]
fn test_refill_with_sets_the_order() {
    let mut bag = Bag::new();
    let order = vec![Kind::S, Kind::Z, Kind::O, Kind::I, Kind::J, Kind::L, Kind::T];
    bag.refill_with(&order);
    assert_eq!(bag.items.len(), 7);
    assert_eq!(bag.peek_next(), Tetromino::create_t());
    assert_eq!(bag.items[0], Tetromino::create_s());
}
