use seam_core::limits::MAX_DEPTH;
use seam_core::Limits;

#[test]
fn max_depth_is_capped_however_it_arrives() {
    let reckless = Limits { max_depth: 1_000_000, ..Limits::default() };
    assert_eq!(reckless.clamped().max_depth, MAX_DEPTH);
    assert_eq!(reckless.clamped().max_items, Limits::default().max_items);

    let tight = Limits { max_depth: 4, ..Limits::default() };
    assert_eq!(tight.clamped().max_depth, 4);
}

#[test]
fn the_default_is_the_conservative_one() {
    assert_eq!(
        Limits::default(),
        Limits { max_depth: 64, max_items: 10_000, max_string_bytes: 1_048_576, max_object_keys: 1_000 }
    );
    assert_eq!(
        Limits::default().max_items.min(Limits::permissive().max_items),
        Limits::default().max_items
    );
}

#[test]
fn permissive_still_bounds_depth() {
    let p = Limits::permissive();
    assert_eq!(p.max_depth, MAX_DEPTH);
    assert_eq!(p.max_items, usize::MAX);
    assert_eq!(p.max_string_bytes, usize::MAX);
    assert_eq!(p.max_object_keys, usize::MAX);
    assert_eq!(p.clamped(), p);
    assert_eq!(MAX_DEPTH, 256);
    let at_cap = Limits { max_depth: 256, ..Limits::default() };
    assert_eq!(at_cap.clamped().max_depth, 256);
    let past = Limits { max_depth: 257, ..Limits::default() };
    assert_eq!(past.clamped().max_depth, 256);
}
