use vstd::prelude::*;

verus! {

/// A directly evaluable trait observation: a closed set of known
/// outcome kinds, each of which maps itself to a boolean outcome.
pub trait Decision {
    /// The boolean outcome this observation stands for.
    spec fn decide_spec(&self) -> bool;

    /// Returns the boolean outcome of this observation.
    fn decide(&self) -> (r: bool)
        ensures
            r == self.decide_spec(),
    ;
}

/// How leaves stand on the stem: in pairs facing each other, or
/// staggered one by one.
#[derive(Clone, Copy, Debug, PartialEq, Eq, Structural)]
pub enum Arrangement {
    Opposite,
    Alternate,
}

impl Arrangement {
    /// The display word for one outcome of the arrangement question.
    pub fn show_option(decision: bool) -> (r: String)
        ensures
            r@ == if decision {
                "opposite"@
            } else {
                "alternate"@
            },
    {
        match decision {
            true => String::from_str("opposite"),
            false => String::from_str("alternate"),
        }
    }
}

impl Decision for Arrangement {
    open spec fn decide_spec(&self) -> bool {
        *self is Opposite
    }

    fn decide(&self) -> (r: bool) {
        match self {
            Arrangement::Opposite => true,
            Arrangement::Alternate => false,
        }
    }
}

/// The shape of a single leaf: made of several leaflets, or one blade.
#[derive(Clone, Copy, Debug, PartialEq, Eq, Structural)]
pub enum LeafType {
    Compound,
    Simple,
}

impl Decision for LeafType {
    open spec fn decide_spec(&self) -> bool {
        *self is Compound
    }

    fn decide(&self) -> (r: bool) {
        match self {
            LeafType::Compound => true,
            LeafType::Simple => false,
        }
    }
}

impl LeafType {
    /// The display word for one outcome of the leaf-type question.
    pub fn show_option(decision: bool) -> (r: String)
        ensures
            r@ == if decision {
                "compound"@
            } else {
                "simple"@
            },
    {
        match decision {
            true => String::from_str("compound"),
            false => String::from_str("simple"),
        }
    }
}

/// The closed set of trait kinds whose observations are directly
/// evaluable.
pub enum Characteristic {
    Arrangement(Arrangement),
    LeafType(LeafType),
}

/// The display word for outcome `decision` of the trait named `name`;
/// `"unknown"` for a name outside the closed set.
pub open spec fn spec_show_option(name: Seq<char>, decision: bool) -> Seq<char> {
    if name == "arrangement"@ {
        if decision {
            "opposite"@
        } else {
            "alternate"@
        }
    } else if name == "leaf_type"@ {
        if decision {
            "compound"@
        } else {
            "simple"@
        }
    } else {
        "unknown"@
    }
}

impl Characteristic {
    /// The display word for outcome `decision` of the trait named
    /// `char_string`; `"unknown"` for a name outside the closed set.
    pub fn show_option(char_string: &str, decision: bool) -> (r: String)
        ensures
            r@ == spec_show_option(char_string@, decision),
    {
        if char_string.to_owned() == String::from_str("arrangement") {
            Arrangement::show_option(decision)
        } else if char_string.to_owned() == String::from_str("leaf_type") {
            LeafType::show_option(decision)
        } else {
            String::from_str("unknown")
        }
    }
}

} // verus!
