use tree_engine::GeneralParams;

#[test]
fn general_defaults() {
    let g = GeneralParams::default();
    assert_eq!(g.seed, 123);
    assert_eq!(g.max_depth, 20);
}
