use ascii_video_renderer::registry::HandleRegistry;

#[test]
fn handles_start_at_one_and_count_up() {
    let mut registry = HandleRegistry::new();
    let a = registry.insert("a");
    let b = registry.insert("b");
    assert_eq!((a, b), (1, 2));
    assert_eq!(registry.get(a), Some(&"a"));
    assert!(registry.contains(b));
    assert_eq!(registry.remove(a), Some("a"));
    assert_eq!(registry.get(a), None);
    assert_eq!(registry.remove(a), None);
    let c = registry.insert("c");
    assert_eq!(c, 3);
    let taken = registry.remove(b).unwrap();
    registry.restore(b, taken);
    assert_eq!(registry.get(b), Some(&"b"));
    assert_eq!(registry.insert("d"), 4);
}
