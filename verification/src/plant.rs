use vstd::prelude::*;

verus! {

/// An identified item to be discriminated by the key.
///
/// The two-part name is used only for display, never for partitioning.
/// The trait mapping associates trait names with raw observed values;
/// it need not cover every trait definition, and the absence of an
/// observation is meaningful (see the key builder's deferral rule).
pub struct Plant {
    genus: String,
    species: String,
    /// Observed trait values, as (trait name, raw value) pairs.
    pub characteristics: Vec<(String, String)>,
}

/// The mathematical value of a [`Plant`]: its names and its trait
/// mapping as character sequences.
pub ghost struct PlantView {
    pub genus: Seq<char>,
    pub species: Seq<char>,
    pub characteristics: Seq<(Seq<char>, Seq<char>)>,
}

/// The views of a sequence of (name, value) string pairs.
pub open spec fn pair_views(s: Seq<(String, String)>) -> Seq<(Seq<char>, Seq<char>)> {
    s.map_values(|p: (String, String)| (p.0@, p.1@))
}

impl View for Plant {
    type V = PlantView;

    closed spec fn view(&self) -> PlantView {
        PlantView {
            genus: self.genus@,
            species: self.species@,
            characteristics: pair_views(self.characteristics@),
        }
    }
}

/// The first value recorded under `name` in `pairs`, if any.
pub open spec fn spec_lookup(pairs: Seq<(Seq<char>, Seq<char>)>, name: Seq<char>) -> Option<
    Seq<char>,
>
    decreases pairs.len(),
{
    if pairs.len() == 0 {
        None
    } else if pairs[0].0 == name {
        Some(pairs[0].1)
    } else {
        spec_lookup(pairs.drop_first(), name)
    }
}

/// The raw value plant `p` records for the trait named `name`, or
/// `None` when the plant carries no observation for that trait.
pub open spec fn spec_trait_value(p: PlantView, name: Seq<char>) -> Option<Seq<char>> {
    spec_lookup(p.characteristics, name)
}

impl Clone for Plant {
    fn clone(&self) -> (r: Self)
        ensures
            r@ == self@,
    {
        let mut pairs: Vec<(String, String)> = Vec::new();
        let n = self.characteristics.len();
        let mut i: usize = 0;
        while i < n
            invariant
                i <= n,
                n == self.characteristics@.len(),
                pairs@ == self.characteristics@.take(i as int),
            decreases n - i,
        {
            let pair = &self.characteristics[i];
            pairs.push((pair.0.clone(), pair.1.clone()));
            proof {
                assert(self.characteristics@.take(i + 1) =~= self.characteristics@.take(
                    i as int,
                ).push(self.characteristics@[i as int]));
            }
            i = i + 1;
        }
        proof {
            assert(self.characteristics@.take(n as int) =~= self.characteristics@);
        }
        Plant { genus: self.genus.clone(), species: self.species.clone(), characteristics: pairs }
    }
}

impl Plant {
    /// Builds a plant from its two-part name and its trait mapping.
    pub fn new(genus: String, species: String, characteristics: Vec<(String, String)>) -> (r:
        Plant)
        ensures
            r@ == (PlantView {
                genus: genus@,
                species: species@,
                characteristics: pair_views(characteristics@),
            }),
    {
        Plant { genus, species, characteristics }
    }

    /// The display identity of the plant: genus and species separated
    /// by one space.
    pub fn display(&self) -> (r: String)
        ensures
            r@ == self@.genus + " "@ + self@.species,
    {
        let mut out = self.genus.clone();
        out.append(" ");
        out.append(self.species.as_str());
        out
    }

    /// Looks the trait named `name` up in the plant's trait mapping,
    /// reporting absence explicitly.
    pub fn trait_value(&self, name: &str) -> (r: Option<&String>)
        ensures
            match r {
                Some(v) => spec_trait_value(self@, name@) == Some(v@),
                None => spec_trait_value(self@, name@) is None,
            },
    {
        let owned = name.to_owned();
        let n = self.characteristics.len();
        let mut i: usize = 0;
        proof {
            assert(pair_views(self.characteristics@).skip(0) =~= pair_views(
                self.characteristics@,
            ));
        }
        while i < n
            invariant
                i <= n,
                n == self.characteristics@.len(),
                spec_lookup(pair_views(self.characteristics@), name@) == spec_lookup(
                    pair_views(self.characteristics@).skip(i as int),
                    name@,
                ),
                owned@ == name@,
            decreases n - i,
        {
            if self.characteristics[i].0 == owned {
                proof {
                    assert(pair_views(self.characteristics@).skip(i as int)[0]
                        == (self.characteristics@[i as int].0@, self.characteristics@[i as int].1@));
                }
                return Some(&self.characteristics[i].1);
            }
            proof {
                let pv = pair_views(self.characteristics@);
                assert(pv.skip(i as int)[0] == (
                    self.characteristics@[i as int].0@,
                    self.characteristics@[i as int].1@,
                ));
                assert(pv.skip(i as int).drop_first() =~= pv.skip(i + 1));
            }
            i = i + 1;
        }
        proof {
            assert(pair_views(self.characteristics@).skip(n as int) =~= Seq::<(
                Seq<char>,
                Seq<char>,
            )>::empty());
        }
        None
    }
}

} // verus!
