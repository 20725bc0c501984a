use gaussfuse::dist::EngineError;
use gaussfuse::graph::Graph;
use gaussfuse::rat::Rat;

const EPSILON: f64 = 1e-10;
const APPROX_EPSILON: f64 = 1e-6;

fn rat(n: i64, d: i64) -> Rat {
    Rat::new(n, d).unwrap()
}

fn f(r: &Rat) -> f64 {
    r.num as f64 / r.den as f64
}

fn close(a: f64, b: f64, eps: f64) -> bool {
    (a - b).abs() < eps
}

#[test]
fn test_pdf_viewer_app_creation() {
    let app = Graph::new();
    assert!(app.nodes.is_empty());
    assert_eq!(app.next_id, 0);
    assert!(app.show_shading);
    assert!(close(f(&app.shading_opacity), 0.3, 1e-6));
    assert!(app.show_std_markers);
}

#[test]
fn test_session_save_load_roundtrip() {
    let mut app = Graph::new();

    app.add_leaf("Test1".to_string(), rat(1, 1), rat(1, 2)).unwrap();
    app.add_leaf("Test2".to_string(), rat(-1, 1), rat(2, 1)).unwrap();
    app.show_shading = false;
    app.shading_opacity = rat(7, 10);
    app.show_std_markers = false;

    let json = app.save_session();
    assert!(json.contains("Test1"));
    assert!(json.contains("Test2"));

    let mut new_app = Graph::new();
    new_app.load_session(&json).expect("Load should succeed");

    assert_eq!(new_app.nodes.len(), 2);
    assert_eq!(new_app.next_id, 2);
    assert!(!new_app.show_shading);
    assert!(close(f(&new_app.shading_opacity), 0.7, 1e-6));
    assert!(!new_app.show_std_markers);

    let loaded_dist1 = &new_app.nodes[0];
    assert_eq!(loaded_dist1.name, "Test1");
    assert!(close(f(&loaded_dist1.mean), 1.0, EPSILON));
    assert!(close(f(&loaded_dist1.std_dev), 0.5, EPSILON));
}

#[test]
fn test_session_save_with_products() {
    let mut app = Graph::new();

    app.add_leaf("Parent1".to_string(), rat(0, 1), rat(1, 1)).unwrap();
    app.add_leaf("Parent2".to_string(), rat(2, 1), rat(1, 1)).unwrap();
    let pid = app.fuse_selected("Product".to_string(), &vec![0, 1]).unwrap();
    assert_eq!(pid, 2);

    let json = app.save_session();
    let mut new_app = Graph::new();
    new_app.load_session(&json).expect("Load should succeed");

    let loaded_product = &new_app.nodes[2];
    assert!(loaded_product.is_product);
    assert_eq!(loaded_product.parent_ids, vec![0, 1]);
    assert_eq!(loaded_product.name, "Product");
    // derived values round-trip bit for bit, not merely approximately
    assert_eq!(loaded_product.mean, app.nodes[2].mean);
    assert_eq!(loaded_product.std_dev, app.nodes[2].std_dev);
}

#[test]
fn test_update_product_distributions() {
    let mut app = Graph::new();

    app.add_leaf("Parent1".to_string(), rat(0, 1), rat(1, 1)).unwrap();
    app.add_leaf("Parent2".to_string(), rat(2, 1), rat(1, 1)).unwrap();
    app.fuse_selected("Product".to_string(), &vec![0, 1]).unwrap();

    app.edit_leaf(0, rat(1, 1), rat(1, 2)).unwrap();

    app.recompute_products();

    let updated_product = &app.nodes[2];
    assert!(close(f(&updated_product.mean), 1.2, APPROX_EPSILON));
    assert!(close(f(&updated_product.std_dev), (0.2_f64).sqrt(), APPROX_EPSILON));
}

#[test]
fn test_invalid_json_load() {
    let mut app = Graph::new();
    let result = app.load_session("invalid json");
    assert!(result.is_err());
    match result.unwrap_err() {
        EngineError::DecodeError { message } => assert!(message.contains("Failed to parse")),
        other => panic!("unexpected error {:?}", other),
    }
}

#[test]
fn test_plot_range_calculation() {
    let app = Graph::new();

    let (x_min, x_max) = app.get_plot_range();
    assert!(close(f(&x_min), -6.0, EPSILON));
    assert!(close(f(&x_max), 6.0, EPSILON));
}

#[test]
fn test_auto_fit_view() {
    let mut app = Graph::new();

    app.add_leaf("D1".to_string(), rat(-2, 1), rat(1, 2)).unwrap();
    app.add_leaf("D2".to_string(), rat(5, 1), rat(2, 1)).unwrap();

    app.auto_fit_view().unwrap();

    assert!(app.plot_bounds.is_some());
    let bounds = app.plot_bounds.unwrap();

    assert!(close(f(&bounds.x_min), -10.0, APPROX_EPSILON));
    assert!(close(f(&bounds.x_max), 13.0, APPROX_EPSILON));

    assert!(close(f(&bounds.y_min), 0.0, EPSILON));
    assert!(f(&bounds.y_max) > 0.0);
}

#[test]
fn test_auto_fit_empty_distributions() {
    let mut app = Graph::new();

    app.auto_fit_view().unwrap();
    assert!(app.plot_bounds.is_none());
}

#[test]
fn test_recompute_is_idempotent() {
    // a chain of products: fusing a product again exercises ancestor order
    let mut app = Graph::new();
    app.add_leaf("A".to_string(), rat(0, 1), rat(1, 1)).unwrap();
    app.add_leaf("B".to_string(), rat(2, 1), rat(1, 2)).unwrap();
    app.fuse_selected("AB".to_string(), &vec![0, 1]).unwrap();
    app.fuse_selected("AB-B".to_string(), &vec![2, 1]).unwrap();

    app.edit_leaf(0, rat(1, 1), rat(1, 3)).unwrap();
    app.recompute_products();
    let first: Vec<(Rat, Rat)> = app.nodes.iter().map(|n| (n.mean, n.std_dev)).collect();
    app.recompute_products();
    let second: Vec<(Rat, Rat)> = app.nodes.iter().map(|n| (n.mean, n.std_dev)).collect();
    assert_eq!(first, second);
}

#[test]
fn test_dangling_parent_keeps_product_values() {
    let mut app = Graph::new();
    app.add_leaf("A".to_string(), rat(0, 1), rat(1, 1)).unwrap();
    app.add_leaf("B".to_string(), rat(2, 1), rat(1, 1)).unwrap();
    app.fuse_selected("AB".to_string(), &vec![0, 1]).unwrap();
    app.recompute_products();

    let before_mean = app.nodes[2].mean;
    let before_std = app.nodes[2].std_dev;

    app.delete(0);
    app.recompute_products();

    let product = app.nodes.iter().find(|n| n.is_product).unwrap();
    assert_eq!(product.mean, before_mean);
    assert_eq!(product.std_dev, before_std);
    assert_eq!(product.parent_ids, vec![0, 1]);
}

#[test]
fn test_delete_is_noop_for_unknown_id() {
    let mut app = Graph::new();
    app.add_leaf("A".to_string(), rat(0, 1), rat(1, 1)).unwrap();
    app.delete(77);
    assert_eq!(app.nodes.len(), 1);
    app.delete(0);
    assert_eq!(app.nodes.len(), 0);
    assert_eq!(app.next_id, 1);
}

#[test]
fn test_fuse_selected_requires_two_resolvable_parents() {
    let mut app = Graph::new();
    app.add_leaf("A".to_string(), rat(0, 1), rat(1, 1)).unwrap();
    let r = app.fuse_selected("P".to_string(), &vec![0, 99]);
    assert!(matches!(r, Err(EngineError::InsufficientParents)));
    assert_eq!(app.nodes.len(), 1);
    assert_eq!(app.next_id, 1);
}

#[test]
fn test_edit_leaf_ignores_products_and_unknown_ids() {
    let mut app = Graph::new();
    app.add_leaf("A".to_string(), rat(0, 1), rat(1, 1)).unwrap();
    app.add_leaf("B".to_string(), rat(1, 1), rat(1, 1)).unwrap();
    app.fuse_selected("AB".to_string(), &vec![0, 1]).unwrap();

    assert_eq!(app.edit_leaf(42, rat(3, 1), rat(1, 1)).unwrap(), false);
    assert_eq!(app.edit_leaf(2, rat(3, 1), rat(1, 1)).unwrap(), false);
    assert_eq!(app.edit_leaf(1, rat(3, 1), rat(1, 1)).unwrap(), true);
    assert!(close(f(&app.nodes[1].mean), 3.0, EPSILON));
    assert!(matches!(
        app.edit_leaf(0, rat(0, 1), rat(0, 1)),
        Err(EngineError::InvalidParameter)
    ));
}

#[test]
fn test_empty_graph_roundtrip() {
    let mut app = Graph::new();
    app.shading_opacity = rat(1, 1);
    let json = app.save_session();
    let mut other = Graph::new();
    other.load_session(&json).unwrap();
    assert_eq!(other.nodes.len(), 0);
    assert_eq!(other.next_id, 0);
    assert!(other.show_shading);
    assert_eq!(other.shading_opacity, rat(1, 1));
}

#[test]
fn test_roundtrip_preserves_parent_order_and_duplicates() {
    let mut app = Graph::new();
    app.add_leaf("A".to_string(), rat(0, 1), rat(1, 1)).unwrap();
    app.add_leaf("B".to_string(), rat(1, 1), rat(2, 1)).unwrap();
    // duplicate parents are kept verbatim and double-counted by the algebra
    app.fuse_selected("P".to_string(), &vec![1, 0, 1]).unwrap();
    let json = app.save_session();
    let mut other = Graph::new();
    other.load_session(&json).unwrap();
    assert_eq!(other.nodes[2].parent_ids, vec![1, 0, 1]);
    assert_eq!(other.next_id, 3);
}

#[test]
fn test_roundtrip_with_adversarial_names() {
    // labels that look like snapshot syntax must survive a round trip
    let mut app = Graph::new();
    app.add_leaf("#7 12 -3".to_string(), rat(1, 2), rat(3, 4)).unwrap();
    app.add_leaf("  spaced  out  ".to_string(), rat(-1, 3), rat(5, 7)).unwrap();
    let json = app.save_session();
    let mut other = Graph::new();
    other.load_session(&json).unwrap();
    assert_eq!(other.nodes[0].name, "#7 12 -3");
    assert_eq!(other.nodes[1].name, "  spaced  out  ");
    assert_eq!(other.nodes[0].mean, rat(1, 2));
    assert_eq!(other.nodes[1].std_dev, rat(5, 7));
}

#[test]
fn test_ids_never_reused_after_delete() {
    let mut app = Graph::new();
    app.add_leaf("A".to_string(), rat(0, 1), rat(1, 1)).unwrap();
    app.add_leaf("B".to_string(), rat(1, 1), rat(1, 1)).unwrap();
    app.delete(1);
    let id = app.add_leaf("C".to_string(), rat(2, 1), rat(1, 1)).unwrap();
    assert_eq!(id, 2);
    assert_eq!(app.next_id, 3);
}
