use crate::error::KeyError;
use vstd::prelude::*;

verus! {

/// One yes/no question of the key: a named trait together with the
/// display labels for its two outcomes.
///
/// A `Characteristic` is immutable once created and is shared read-only
/// by every node that references it during one build.
pub struct Characteristic {
    /// Unique identifier for the question.
    pub name: String,
    /// Display label for the `true` outcome.
    pub true_option: String,
    /// Display label for the `false` outcome.
    pub false_option: String,
}

/// The mathematical value of a [`Characteristic`]: its three strings as
/// character sequences.
pub ghost struct CharacteristicView {
    pub name: Seq<char>,
    pub true_option: Seq<char>,
    pub false_option: Seq<char>,
}

impl View for Characteristic {
    type V = CharacteristicView;

    open spec fn view(&self) -> CharacteristicView {
        CharacteristicView {
            name: self.name@,
            true_option: self.true_option@,
            false_option: self.false_option@,
        }
    }
}

impl Clone for Characteristic {
    fn clone(&self) -> (r: Self)
        ensures
            r == *self,
    {
        Characteristic {
            name: self.name.clone(),
            true_option: self.true_option.clone(),
            false_option: self.false_option.clone(),
        }
    }
}

/// What evaluating a raw `value` against characteristic `c` yields:
/// `Some(true)` on the true label, `Some(false)` on the false label,
/// and `None` when the value matches neither label.
pub open spec fn spec_eval(c: CharacteristicView, value: Seq<char>) -> Option<bool> {
    if value == c.true_option {
        Some(true)
    } else if value == c.false_option {
        Some(false)
    } else {
        None
    }
}

impl Characteristic {
    /// Builds a characteristic from its three strings.
    pub fn new(name: String, true_option: String, false_option: String) -> (r: Characteristic)
        ensures
            r@ == (CharacteristicView { name: name@, true_option: true_option@, false_option: false_option@ }),
    {
        Characteristic { name, true_option, false_option }
    }

    /// The display label for one outcome: the true label when `option`
    /// holds, the false label otherwise.
    pub fn display_for_key(&self, option: bool) -> (r: String)
        ensures
            r@ == if option {
                self@.true_option
            } else {
                self@.false_option
            },
    {
        if option {
            self.true_option.clone()
        } else {
            self.false_option.clone()
        }
    }
}

/// The evaluation capability of a trait definition: mapping a raw
/// observed value to a boolean outcome, or failing on a value the
/// definition does not recognize.
pub trait KeyDecision {
    /// The outcome this decider assigns to each raw value, `None` for a
    /// value it does not recognize.
    spec fn decision_spec(&self, value: Seq<char>) -> Option<bool>;

    /// Maps `value` to its boolean outcome; fails with an
    /// unrecognized-value error on a value this decider rejects.
    fn get_decision(&self, value: &str) -> (r: Result<bool, KeyError>)
        ensures
            match r {
                Ok(b) => self.decision_spec(value@) == Some(b),
                Err(e) => self.decision_spec(value@) is None && e == KeyError::UnrecognizedValue,
            },
    ;
}

impl KeyDecision for Characteristic {
    open spec fn decision_spec(&self, value: Seq<char>) -> Option<bool> {
        spec_eval(self@, value)
    }

    fn get_decision(&self, value: &str) -> (r: Result<bool, KeyError>) {
        if value.to_owned() == self.true_option {
            Ok(true)
        } else if value.to_owned() == self.false_option {
            Ok(false)
        } else {
            Err(KeyError::UnrecognizedValue)
        }
    }
}

} // verus!
