use keysort::characteristic::{Characteristic, KeyDecision};
use keysort::error::KeyError;

fn arrangement() -> Characteristic {
    Characteristic::new(
        String::from("arrangement"),
        String::from("opposite"),
        String::from("alternate"),
    )
}

#[test]
fn get_decision_true_label() {
    let c = arrangement();
    assert_eq!(c.get_decision("opposite"), Ok(true));
}

#[test]
fn get_decision_false_label() {
    let c = arrangement();
    assert_eq!(c.get_decision("alternate"), Ok(false));
}

#[test]
fn get_decision_unrecognized() {
    let c = arrangement();
    assert_eq!(c.get_decision("whorled"), Err(KeyError::UnrecognizedValue));
    assert_eq!(c.get_decision(""), Err(KeyError::UnrecognizedValue));
}

#[test]
fn display_for_key_picks_label() {
    let c = arrangement();
    assert_eq!(c.display_for_key(true), "opposite");
    assert_eq!(c.display_for_key(false), "alternate");
}

#[test]
fn error_messages_differ() {
    assert_ne!(
        KeyError::UnrecognizedValue.message(),
        KeyError::PartialCoverage.message()
    );
}
