use advanced_constrained_secret_santa::disclosure::{encode_names, join_names};

fn names(list: &[&str]) -> Vec<String> {
    list.iter().map(|s| s.to_string()).collect()
}

#[test]
fn no_name_gives_the_empty_line() {
    assert_eq!(join_names(&names(&[])), "");
}

#[test]
fn one_name_stands_alone() {
    assert_eq!(join_names(&names(&["Ann"])), "Ann");
}

#[test]
fn names_are_separated_by_comma_and_space() {
    assert_eq!(join_names(&names(&["Ann", "Bob"])), "Ann, Bob");
    assert_eq!(join_names(&names(&["Ann", "Bob", "Cid"])), "Ann, Bob, Cid");
    assert_eq!(join_names(&names(&["", ""])), ", ");
}

#[test]
fn encoded_names_are_base64_of_the_line() {
    assert_eq!(encode_names(&names(&[])), Some("".to_string()));
    assert_eq!(encode_names(&names(&["a"])), Some("YQ==".to_string()));
    assert_eq!(encode_names(&names(&["ab"])), Some("YWI=".to_string()));
    assert_eq!(encode_names(&names(&["Ann"])), Some("QW5u".to_string()));
    assert_eq!(encode_names(&names(&["Bob", "Cid"])), Some("Qm9iLCBDaWQ=".to_string()));
    assert_eq!(
        encode_names(&names(&["Ann", "Bob", "Cid"])),
        Some("QW5uLCBCb2IsIENpZA==".to_string())
    );
}

#[test]
fn encoded_names_go_by_the_bytes_of_the_text() {
    assert_eq!(
        encode_names(&names(&["Zoë", "Łukasz"])),
        Some("Wm/DqywgxYF1a2Fzeg==".to_string())
    );
}

#[test]
fn encoded_names_differ_from_the_line() {
    let list = names(&["Ann", "Bob"]);
    assert_ne!(encode_names(&list), Some(join_names(&list)));
}
