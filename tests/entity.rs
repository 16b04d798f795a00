use vndf::entity::{Create, Remove, SelfInfo};
use vndf::part::{Field, PartError};

#[test]
fn self_info_lines() {
    assert_eq!(SelfInfo { id: 5 }.to_str(), "SELF_ID 5");
    assert_eq!(SelfInfo::from_words(&["SELF_ID", "5"]), Ok(SelfInfo { id: 5 }));
    assert_eq!(SelfInfo::from_words(&["SELF_ID"]), Err(PartError::MissingField(Field::Id)));
    assert_eq!(SelfInfo::from_words(&["SELF_ID", "five"]), Err(PartError::InvalidNumber(Field::Id)));
}

#[test]
fn create_lines() {
    let create = Create { id: 12, kind: "ship".to_string() };
    assert_eq!(create.to_str(), "CREATE 12 ship");
    let words: Vec<&str> = "CREATE 12 ship".split(' ').collect();
    assert_eq!(Create::from_words(&words), Ok(create));
    assert_eq!(Create::from_words(&["CREATE", "12"]), Err(PartError::MissingField(Field::Kind)));
    assert_eq!(Create::from_words(&["CREATE"]), Err(PartError::MissingField(Field::Id)));
    assert_eq!(Create::from_words(&["CREATE", "1x", "ship"]), Err(PartError::InvalidNumber(Field::Id)));
}

#[test]
fn remove_lines() {
    assert_eq!(Remove { id: 0 }.to_str(), "REMOVE 0");
    assert_eq!(Remove::from_words(&["REMOVE", "18446744073709551615"]), Ok(Remove { id: u64::MAX }));
    assert_eq!(
        Remove::from_words(&["REMOVE", "18446744073709551616"]),
        Err(PartError::InvalidNumber(Field::Id))
    );
}
