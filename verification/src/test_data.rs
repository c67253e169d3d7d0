use crate::decision::{Arrangement, Decision, LeafType};
use crate::key::plant_views;
use crate::plant::{pair_views, Plant, PlantView};
use vstd::prelude::*;

verus! {

/// The view of one sample plant: a two-part name with observations for
/// the arrangement and leaf-type traits.
pub open spec fn sample_view(
    genus: Seq<char>,
    species: Seq<char>,
    arrangement: Seq<char>,
    leaf_type: Seq<char>,
) -> PlantView {
    PlantView {
        genus,
        species,
        characteristics: seq![("arrangement"@, arrangement), ("leaf_type"@, leaf_type)],
    }
}

/// The sample collection: black cherry, shagbark hickory, white ash
/// and red maple, each with a distinct combination of leaf arrangement
/// and leaf type.
pub open spec fn spec_test_data() -> Seq<PlantView> {
    seq![
        sample_view("Prunus"@, "serotina"@, "alternate"@, "simple"@),
        sample_view("Carya"@, "ovata"@, "alternate"@, "compound"@),
        sample_view("Fraxinus"@, "americana"@, "opposite"@, "compound"@),
        sample_view("Acer"@, "rubrum"@, "opposite"@, "simple"@),
    ]
}

/// Builds one sample plant from its name and its two directly
/// evaluable observations.
fn make_plant(genus: &str, species: &str, arrangement: Arrangement, leaf_type: LeafType) -> (r:
    Plant)
    ensures
        r@ == sample_view(
            genus@,
            species@,
            if arrangement.decide_spec() {
                "opposite"@
            } else {
                "alternate"@
            },
            if leaf_type.decide_spec() {
                "compound"@
            } else {
                "simple"@
            },
        ),
{
    let mut cs: Vec<(String, String)> = Vec::new();
    let pr1 = (String::from_str("arrangement"), Arrangement::show_option(arrangement.decide()));
    let ghost g1 = pr1;
    cs.push(pr1);
    let ghost c1 = cs@;
    let pr2 = (String::from_str("leaf_type"), LeafType::show_option(leaf_type.decide()));
    let ghost g2 = pr2;
    cs.push(pr2);
    let ghost csv = cs@;
    proof {
        assert(c1 == Seq::<(String, String)>::empty().push(g1));
        assert(Seq::<(String, String)>::empty().push(g1)[0] == g1);
        assert(csv == c1.push(g2));
        assert(c1.push(g2)[0] == c1[0]);
        assert(c1.push(g2)[1] == g2);
        assert(csv[0] == g1);
        assert(csv[1] == g2);
    }
    let r = Plant::new(String::from_str(genus), String::from_str(species), cs);
    proof {
        assert(pair_views(csv).len() == 2);
        assert(pair_views(csv)[0] == (g1.0@, g1.1@));
        assert(pair_views(csv)[1] == (g2.0@, g2.1@));
        assert(pair_views(csv) =~= sample_view(
            genus@,
            species@,
            if arrangement.decide_spec() {
                "opposite"@
            } else {
                "alternate"@
            },
            if leaf_type.decide_spec() {
                "compound"@
            } else {
                "simple"@
            },
        ).characteristics);
    }
    r
}

/// A small sample collection of plants, each identified by genus and
/// species and carrying its arrangement and leaf-type observations.
pub fn get_test_data() -> (r: Vec<Plant>)
    ensures
        plant_views(r@) == spec_test_data(),
{
    let mut out: Vec<Plant> = Vec::new();
    out.push(make_plant("Prunus", "serotina", Arrangement::Alternate, LeafType::Simple));
    out.push(make_plant("Carya", "ovata", Arrangement::Alternate, LeafType::Compound));
    out.push(make_plant("Fraxinus", "americana", Arrangement::Opposite, LeafType::Compound));
    out.push(make_plant("Acer", "rubrum", Arrangement::Opposite, LeafType::Simple));
    proof {
        assert(plant_views(out@).len() == 4);
        assert(plant_views(out@)[0] == out@[0]@);
        assert(plant_views(out@)[1] == out@[1]@);
        assert(plant_views(out@)[2] == out@[2]@);
        assert(plant_views(out@)[3] == out@[3]@);
        assert(plant_views(out@) =~= spec_test_data());
    }
    out
}

} // verus!
