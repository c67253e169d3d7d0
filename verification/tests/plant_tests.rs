use keysort::decision::{Arrangement, Characteristic, Decision, LeafType};
use keysort::plant::Plant;
use keysort::test_data::get_test_data;

#[test]
fn trait_value_present_and_absent() {
    let plant = Plant::new(
        String::from("Acer"),
        String::from("rubrum"),
        vec![
            (String::from("arrangement"), String::from("opposite")),
            (String::from("leaf_type"), String::from("simple")),
        ],
    );
    assert_eq!(plant.trait_value("arrangement"), Some(&String::from("opposite")));
    assert_eq!(plant.trait_value("leaf_type"), Some(&String::from("simple")));
    assert_eq!(plant.trait_value("habitat"), None);
}

#[test]
fn display_joins_genus_and_species() {
    let plant = Plant::new(String::from("Aloe"), String::from("vera"), vec![]);
    assert_eq!(plant.display(), "Aloe vera");
}

#[test]
fn decide_maps_variants() {
    assert!(Arrangement::Opposite.decide());
    assert!(!Arrangement::Alternate.decide());
    assert!(LeafType::Compound.decide());
    assert!(!LeafType::Simple.decide());
}

#[test]
fn show_option_words() {
    assert_eq!(Arrangement::show_option(true), "opposite");
    assert_eq!(Arrangement::show_option(false), "alternate");
    assert_eq!(LeafType::show_option(true), "compound");
    assert_eq!(LeafType::show_option(false), "simple");
    assert_eq!(Characteristic::show_option("arrangement", true), "opposite");
    assert_eq!(Characteristic::show_option("leaf_type", false), "simple");
    assert_eq!(Characteristic::show_option("habitat", true), "unknown");
}

#[test]
fn test_data_holds_four_distinct_plants() {
    let plants = get_test_data();
    assert_eq!(plants.len(), 4);
    assert_eq!(plants[0].display(), "Prunus serotina");
    assert_eq!(plants[1].display(), "Carya ovata");
    assert_eq!(plants[2].display(), "Fraxinus americana");
    assert_eq!(plants[3].display(), "Acer rubrum");
    assert_eq!(
        plants[0].trait_value("arrangement"),
        Some(&String::from("alternate"))
    );
    assert_eq!(plants[0].trait_value("leaf_type"), Some(&String::from("simple")));
    assert_eq!(
        plants[1].trait_value("leaf_type"),
        Some(&String::from("compound"))
    );
    assert_eq!(
        plants[2].trait_value("arrangement"),
        Some(&String::from("opposite"))
    );
    assert_eq!(plants[3].trait_value("leaf_type"), Some(&String::from("simple")));
}
