use tree_catalog::catalog::{prepare_tree, TreeTree};
use tree_catalog::index::TreeBinTree;
use tree_catalog::record::{parse_age, Tree, TreeAge};

fn rec(id: u32, age: TreeAge, trunk_width: u32, height: u32) -> Tree {
    Tree {
        id,
        age,
        trunk_width,
        ward: format!("ward-{}", id),
        species: format!("species-{}", id),
        height,
    }
}

fn batch_all_categories() -> Vec<Tree> {
    let ages = [
        TreeAge::Young,
        TreeAge::Mature,
        TreeAge::EarlyMature,
        TreeAge::SemiMature,
    ];
    let mut out = Vec::new();
    let mut id = 1;
    for &age in &ages {
        for height in [10u32, 20, 30, 40, 50] {
            out.push(rec(id, age, 7, height));
            id += 1;
        }
    }
    out
}

#[test]
fn minimum_is_smallest_height() {
    let catalog = prepare_tree(batch_all_categories());
    for age in [
        TreeAge::Young,
        TreeAge::Mature,
        TreeAge::EarlyMature,
        TreeAge::SemiMature,
    ] {
        assert_eq!(catalog.get_min(age).height, 10);
    }
}

#[test]
fn maximum_is_largest_height() {
    let catalog = prepare_tree(batch_all_categories());
    for age in [
        TreeAge::Young,
        TreeAge::Mature,
        TreeAge::EarlyMature,
        TreeAge::SemiMature,
    ] {
        assert_eq!(catalog.get_max(age).height, 50);
    }
}

#[test]
fn minimum_returns_a_record_from_the_input() {
    let catalog = prepare_tree(batch_all_categories());
    let min = catalog.get_min(TreeAge::Young);
    assert_eq!(min.id, 1);
    assert_eq!(min.ward, "ward-1");
    assert_eq!(min.species, "species-1");
    assert_eq!(min.trunk_width, 7);
    assert!(matches!(min.age, TreeAge::Young));
}

#[test]
fn size_counts_valid_records_per_category() {
    let catalog = prepare_tree(batch_all_categories());
    for age in [
        TreeAge::Young,
        TreeAge::Mature,
        TreeAge::EarlyMature,
        TreeAge::SemiMature,
    ] {
        assert_eq!(catalog.get_size(age), 5);
    }
}

#[test]
fn construction_is_deterministic() {
    let a = prepare_tree(batch_all_categories());
    let b = prepare_tree(batch_all_categories());
    for age in [
        TreeAge::Young,
        TreeAge::Mature,
        TreeAge::EarlyMature,
        TreeAge::SemiMature,
    ] {
        assert_eq!(a.get_min(age).id, b.get_min(age).id);
        assert_eq!(a.get_max(age).id, b.get_max(age).id);
        assert_eq!(a.get_size(age), b.get_size(age));
    }
}

// Two records of equal height: the later one becomes the root (the median
// of a two-element sorted sequence sits at index one), the earlier one is
// inserted and, not being strictly taller, lands in the root's left
// subtree. The minimum is the deepest left node, the maximum the root.
#[test]
fn equal_heights_tie_break_goes_left() {
    let mut trees = vec![
        rec(1, TreeAge::Young, 3, 5),
        rec(2, TreeAge::Young, 3, 5),
    ];
    trees.push(rec(10, TreeAge::Mature, 3, 8));
    trees.push(rec(11, TreeAge::EarlyMature, 3, 8));
    trees.push(rec(12, TreeAge::SemiMature, 3, 8));
    let catalog = prepare_tree(trees);
    let min = catalog.get_min(TreeAge::Young);
    let max = catalog.get_max(TreeAge::Young);
    assert_eq!(min.height, 5);
    assert_eq!(max.height, 5);
    assert_eq!(min.id, 1);
    assert_eq!(max.id, 2);
}

#[test]
fn invalid_measurements_never_reach_queries() {
    let mut trees = batch_all_categories();
    // a would-be new maximum, but its trunk width is zero
    trees.push(rec(90, TreeAge::Young, 0, 99));
    // a would-be new minimum, but its height is zero
    trees.push(rec(91, TreeAge::Young, 4, 0));
    let catalog = prepare_tree(trees);
    assert_eq!(catalog.get_max(TreeAge::Young).height, 50);
    assert_eq!(catalog.get_min(TreeAge::Young).height, 10);
    assert_ne!(catalog.get_max(TreeAge::Young).id, 90);
    assert_ne!(catalog.get_min(TreeAge::Young).id, 91);
    assert_eq!(catalog.get_size(TreeAge::Young), 5);
}

#[test]
fn category_strings_parse_exactly() {
    assert!(matches!(parse_age("young"), Some(TreeAge::Young)));
    assert!(matches!(parse_age("mature"), Some(TreeAge::Mature)));
    assert!(matches!(parse_age("earlymature"), Some(TreeAge::EarlyMature)));
    assert!(matches!(parse_age("semimature"), Some(TreeAge::SemiMature)));
}

#[test]
fn unknown_category_string_is_not_found() {
    assert!(parse_age("unknown").is_none());
    assert!(parse_age("").is_none());
    assert!(parse_age("Young").is_none());
    assert!(parse_age("maturex").is_none());
    assert!(parse_age("matur").is_none());
}

#[test]
fn single_record_category_serves_itself() {
    let trees = vec![
        rec(1, TreeAge::Young, 2, 17),
        rec(2, TreeAge::Mature, 2, 23),
        rec(3, TreeAge::EarlyMature, 2, 31),
        rec(4, TreeAge::SemiMature, 2, 47),
    ];
    let catalog = prepare_tree(trees);
    assert_eq!(catalog.get_min(TreeAge::Mature).id, 2);
    assert_eq!(catalog.get_max(TreeAge::Mature).id, 2);
    assert_eq!(catalog.get_size(TreeAge::Mature), 1);
}

#[test]
fn bin_tree_insert_and_query() {
    let mut tree = TreeBinTree::new(rec(1, TreeAge::Young, 2, 30));
    tree.insert(rec(2, TreeAge::Young, 2, 10));
    tree.insert(rec(3, TreeAge::Young, 2, 50));
    tree.insert(rec(4, TreeAge::Young, 2, 20));
    assert_eq!(tree.get_min().height, 10);
    assert_eq!(tree.get_max().height, 50);
    assert_eq!(tree.get_size(), 4);
}

#[test]
fn query_service_shares_catalog_across_readers() {
    let shared: std::sync::Arc<TreeTree> = std::sync::Arc::new(prepare_tree(batch_all_categories()));
    let a = shared.clone();
    let b = shared.clone();
    assert_eq!(a.get_min(TreeAge::Young).height, 10);
    assert_eq!(b.get_max(TreeAge::Young).height, 50);
}
