use keysort::characteristic::Characteristic;
use keysort::error::KeyError;
use keysort::key::{Key, Node, OptionNode, PlantNode};
use keysort::plant::Plant;
use keysort::test_data::get_test_data;

fn arrangement() -> Characteristic {
    Characteristic::new(
        String::from("arrangement"),
        String::from("opposite"),
        String::from("alternate"),
    )
}

fn leaf_type() -> Characteristic {
    Characteristic::new(
        String::from("leaf_type"),
        String::from("compound"),
        String::from("simple"),
    )
}

fn plant(genus: &str, species: &str, traits: &[(&str, &str)]) -> Plant {
    Plant::new(
        String::from(genus),
        String::from(species),
        traits
            .iter()
            .map(|(n, v)| (String::from(*n), String::from(*v)))
            .collect(),
    )
}

#[test]
fn four_plants_two_traits_full_key() {
    let plants = get_test_data();
    let characteristics = vec![arrangement(), leaf_type()];
    let mut key = Key::new();
    key.build(&plants, &characteristics).unwrap();

    // Root, two two-plant option nodes, four leaves.
    assert_eq!(key.node_count(), 7);
    assert!(key.is_resolved());
    let expected = "arrangement is opposite\n leaf_type is compound\n  Fraxinus americana\n leaf_type is simple\n  Acer rubrum\narrangement is alternate\n leaf_type is compound\n  Carya ovata\n leaf_type is simple\n  Prunus serotina\n";
    assert_eq!(key.render(), expected);
}

#[test]
fn four_leaves_each_on_a_distinct_path() {
    let plants = get_test_data();
    let characteristics = vec![arrangement(), leaf_type()];
    let mut key = Key::new();
    key.build(&plants, &characteristics).unwrap();

    let rendered = key.render();
    // One leaf line (two-space indent) per plant: a bijection between
    // plants and leaves, each leaf reached by two questions.
    let leaves: Vec<&str> = rendered
        .lines()
        .filter(|line| line.starts_with("  "))
        .collect();
    assert_eq!(
        leaves,
        vec![
            "  Fraxinus americana",
            "  Acer rubrum",
            "  Carya ovata",
            "  Prunus serotina"
        ]
    );
    // No line is indented deeper than the trait count.
    assert!(rendered.lines().all(|line| !line.starts_with("   ")));
}

#[test]
fn building_twice_gives_identical_keys() {
    let plants = get_test_data();
    let characteristics = vec![arrangement(), leaf_type()];
    let mut first = Key::new();
    first.build(&plants, &characteristics).unwrap();
    let mut second = Key::new();
    second.build(&plants, &characteristics).unwrap();
    assert_eq!(first.node_count(), second.node_count());
    assert_eq!(first.render(), second.render());
}

#[test]
fn all_absent_defers_to_next_trait() {
    // Nobody carries "habitat", so the root keeps its full possibility
    // set and moves on to arrangement instead of splitting.
    let habitat = Characteristic::new(
        String::from("habitat"),
        String::from("wet"),
        String::from("dry"),
    );
    let plants = vec![
        plant("Acer", "rubrum", &[("arrangement", "opposite")]),
        plant("Prunus", "serotina", &[("arrangement", "alternate")]),
    ];
    let characteristics = vec![habitat, arrangement()];
    let mut key = Key::new();
    key.build(&plants, &characteristics).unwrap();
    assert_eq!(key.node_count(), 3);
    assert!(key.is_resolved());
    let expected = "arrangement is opposite\n Acer rubrum\narrangement is alternate\n Prunus serotina\n";
    assert_eq!(key.render(), expected);
}

#[test]
fn partial_coverage_is_an_error() {
    let plants = vec![
        plant("Acer", "rubrum", &[("arrangement", "opposite")]),
        plant("Aloe", "vera", &[("height", "1m")]),
    ];
    let characteristics = vec![arrangement()];
    let mut key = Key::new();
    assert_eq!(
        key.build(&plants, &characteristics),
        Err(KeyError::PartialCoverage)
    );
}

#[test]
fn unrecognized_value_is_an_error() {
    let plants = vec![
        plant("Acer", "rubrum", &[("arrangement", "whorled")]),
        plant("Prunus", "serotina", &[("arrangement", "alternate")]),
    ];
    let characteristics = vec![arrangement()];
    let mut key = Key::new();
    assert_eq!(
        key.build(&plants, &characteristics),
        Err(KeyError::UnrecognizedValue)
    );
}

#[test]
fn exhausted_traits_leave_an_unresolved_node() {
    // Two indistinguishable plants: after the only trait is consumed a
    // childless option node with both plants remains, without a trait.
    let plants = vec![
        plant("Acer", "rubrum", &[("arrangement", "opposite")]),
        plant("Acer", "saccharum", &[("arrangement", "opposite")]),
    ];
    let characteristics = vec![arrangement()];
    let mut key = Key::new();
    key.build(&plants, &characteristics).unwrap();
    assert_eq!(key.node_count(), 2);
    assert!(!key.is_resolved());
}

#[test]
fn single_plant_resolves_in_one_question() {
    let plants = vec![plant("Acer", "rubrum", &[("arrangement", "opposite")])];
    let characteristics = vec![arrangement()];
    let mut key = Key::new();
    key.build(&plants, &characteristics).unwrap();
    assert_eq!(key.node_count(), 2);
    assert!(key.is_resolved());
    let expected = "arrangement is opposite\n Acer rubrum\narrangement is alternate\n";
    assert_eq!(key.render(), expected);
}

#[test]
fn empty_collection_builds_a_bare_root() {
    let plants: Vec<Plant> = vec![];
    let characteristics = vec![arrangement()];
    let mut key = Key::new();
    key.build(&plants, &characteristics).unwrap();
    assert_eq!(key.node_count(), 1);
    assert!(key.is_resolved());
    let expected = "arrangement is opposite\narrangement is alternate\n";
    assert_eq!(key.render(), expected);
}

#[test]
fn empty_trait_order_leaves_root_unresolved() {
    let plants = get_test_data();
    let characteristics: Vec<Characteristic> = vec![];
    let mut key = Key::new();
    key.build(&plants, &characteristics).unwrap();
    assert_eq!(key.node_count(), 1);
    assert!(!key.is_resolved());
}

#[test]
fn insert_child_index_fills_left_then_right() {
    let mut node = OptionNode {
        index: 0,
        left_node: None,
        right_node: None,
        possibilities: vec![],
        characteristic: None,
    };
    node.insert_child_index(4);
    assert_eq!(node.left_node, Some(4));
    assert_eq!(node.right_node, None);
    node.insert_child_index(7);
    assert_eq!(node.left_node, Some(4));
    assert_eq!(node.right_node, Some(7));
}

#[test]
fn get_index_of_either_node_kind() {
    let option_node = Node::Option(OptionNode {
        index: 3,
        left_node: None,
        right_node: None,
        possibilities: vec![],
        characteristic: None,
    });
    assert_eq!(option_node.get_index(), 3);
    let leaf = Node::Plant(PlantNode {
        index: 9,
        plant: plant("Aloe", "vera", &[]),
    });
    assert_eq!(leaf.get_index(), 9);
}

#[test]
fn deferred_trait_then_full_discrimination() {
    // The first trait is absent everywhere: the root defers through it
    // and the remaining two traits still discriminate all four plants,
    // so the tree looks as if the order had started at arrangement.
    let habitat = Characteristic::new(
        String::from("habitat"),
        String::from("wet"),
        String::from("dry"),
    );
    let plants = get_test_data();
    let characteristics = vec![habitat, arrangement(), leaf_type()];
    let mut key = Key::new();
    key.build(&plants, &characteristics).unwrap();
    assert_eq!(key.node_count(), 7);
    assert!(key.is_resolved());
    let expected = "arrangement is opposite\n leaf_type is compound\n  Fraxinus americana\n leaf_type is simple\n  Acer rubrum\narrangement is alternate\n leaf_type is compound\n  Carya ovata\n leaf_type is simple\n  Prunus serotina\n";
    assert_eq!(key.render(), expected);
}

#[test]
fn one_sided_split_keeps_sides_apart() {
    // Everything answers "opposite": the whole set moves into the true
    // branch, and the false branch stays absent rather than borrowing
    // the slot.
    let plants = vec![
        plant(
            "Acer",
            "rubrum",
            &[("arrangement", "opposite"), ("leaf_type", "simple")],
        ),
        plant(
            "Fraxinus",
            "americana",
            &[("arrangement", "opposite"), ("leaf_type", "compound")],
        ),
    ];
    let characteristics = vec![arrangement(), leaf_type()];
    let mut key = Key::new();
    key.build(&plants, &characteristics).unwrap();
    assert_eq!(key.node_count(), 4);
    assert!(key.is_resolved());
    let expected = "arrangement is opposite\n leaf_type is compound\n  Fraxinus americana\n leaf_type is simple\n  Acer rubrum\narrangement is alternate\n";
    assert_eq!(key.render(), expected);
}
