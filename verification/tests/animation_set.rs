use terminal_sprite_pet::animation_set::{name_order, AnimationSet, NameOrder};
use terminal_sprite_pet::catalog::{idle_animation, single_frame_animation};

#[test]
fn orders_names_by_their_bytes() {
    assert_eq!(name_order("a", "b"), NameOrder::Before);
    assert_eq!(name_order("ab", "a"), NameOrder::After);
    assert_eq!(name_order("", ""), NameOrder::Same);
    assert_eq!(name_order("Z", "a"), NameOrder::Before);
    assert_eq!(name_order("é", "z"), NameOrder::After);
}

#[test]
fn a_read_gives_back_the_last_write() {
    let mut set = AnimationSet::new();
    assert!(set.get("x").is_none());
    set.insert("x".to_string(), single_frame_animation(1));
    set.insert("b".to_string(), single_frame_animation(2));
    set.insert("x".to_string(), single_frame_animation(3));
    assert_eq!(set.len(), 2);
    assert_eq!(set.get("x").unwrap().frames()[0].sprite_index, 3);
    assert_eq!(set.get("b").unwrap().frames()[0].sprite_index, 2);
    assert_eq!(set.keys(), vec!["b", "x"]);
}

#[test]
fn prefers_the_idle_state() {
    let mut set = AnimationSet::new();
    assert_eq!(set.preferred_state(), "");
    set.insert("wave".to_string(), single_frame_animation(1));
    set.insert("bow".to_string(), single_frame_animation(2));
    assert_eq!(set.preferred_state(), "bow");
    set.insert("idle".to_string(), idle_animation());
    assert_eq!(set.preferred_state(), "idle");
}
