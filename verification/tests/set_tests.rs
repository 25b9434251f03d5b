use miniredis::set::{parse_set_arguments, KeyExistence};
use miniredis::storage_result::StorageError;

#[test]
fn test_parse_nx() {
    let commands: Vec<String> = vec![String::from("NX")];
    let args = parse_set_arguments(&commands).unwrap();
    assert_eq!(args.existence, Some(KeyExistence::NX));
}

#[test]
fn test_parse_nx_lowercase() {
    let commands: Vec<String> = vec![String::from("nx")];
    let args = parse_set_arguments(&commands).unwrap();
    assert_eq!(args.existence, Some(KeyExistence::NX));
}

#[test]
fn test_parse_empty_tail() {
    let commands: Vec<String> = vec![];
    let args = parse_set_arguments(&commands).unwrap();
    assert_eq!(args.existence, None);
    assert_eq!(args.expiry, None);
    assert!(!args.get);
}

#[test]
fn test_parse_unknown_option() {
    let commands: Vec<String> = vec![String::from("nx"), String::from("frequency")];
    match parse_set_arguments(&commands) {
        Err(StorageError::CommandSyntaxError(s)) => {
            assert_eq!(s, String::from("nx frequency"));
        }
        _ => panic!(),
    }
}
