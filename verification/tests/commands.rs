use minikv::{Command, CommandError, Frame};

fn bulk(s: &str) -> Frame {
    Frame::Bulk(s.as_bytes().to_vec())
}

#[test]
fn set_command_parses() {
    let f = Frame::Array(vec![bulk("SET"), bulk("k"), bulk("v")]);
    match Command::from_frame(f) {
        Ok(Command::Put { key, value }) => {
            assert_eq!(key, "k");
            assert_eq!(value, b"v".to_vec());
        }
        other => panic!("expected a SET command, got {:?}", other),
    }
}

#[test]
fn get_command_parses() {
    let f = Frame::Array(vec![bulk("GET"), bulk("k")]);
    match Command::from_frame(f) {
        Ok(Command::Get { key }) => assert_eq!(key, "k"),
        other => panic!("expected a GET command, got {:?}", other),
    }
}

#[test]
fn operation_name_is_case_insensitive() {
    let f = Frame::Array(vec![bulk("set"), bulk("k"), bulk("v")]);
    assert!(matches!(
        Command::from_frame(f),
        Ok(Command::Put { .. })
    ));
    let g = Frame::Array(vec![bulk("gEt"), bulk("k")]);
    assert!(matches!(Command::from_frame(g), Ok(Command::Get { .. })));
}

#[test]
fn simple_text_names_an_operation_too() {
    let f = Frame::Array(vec![
        Frame::Simple("SET".to_string()),
        bulk("k"),
        bulk("v"),
    ]);
    assert!(matches!(
        Command::from_frame(f),
        Ok(Command::Put { .. })
    ));
}

#[test]
fn set_missing_value_is_arity_error() {
    let f = Frame::Array(vec![bulk("SET"), bulk("k")]);
    assert_eq!(Command::from_frame(f), Err(CommandError::Arity));
}

#[test]
fn get_with_extra_argument_is_arity_error() {
    let f = Frame::Array(vec![bulk("GET"), bulk("k"), bulk("x")]);
    assert_eq!(Command::from_frame(f), Err(CommandError::Arity));
}

#[test]
fn empty_array_is_arity_error() {
    let f = Frame::Array(vec![]);
    assert_eq!(Command::from_frame(f), Err(CommandError::Arity));
}

#[test]
fn non_array_is_not_a_command() {
    assert_eq!(
        Command::from_frame(Frame::Simple("SET".to_string())),
        Err(CommandError::NotArray)
    );
    assert_eq!(
        Command::from_frame(Frame::Integer(7)),
        Err(CommandError::NotArray)
    );
}

#[test]
fn unknown_operation_is_a_variant_not_a_failure() {
    let f = Frame::Array(vec![bulk("PING")]);
    match Command::from_frame(f) {
        Ok(Command::Unknown { name }) => assert_eq!(name, "PING"),
        other => panic!("expected Unknown, got {:?}", other),
    }
}

#[test]
fn non_text_operation_name_is_bad_element() {
    let f = Frame::Array(vec![Frame::Integer(1), bulk("k")]);
    assert_eq!(Command::from_frame(f), Err(CommandError::BadElement));
}

#[test]
fn non_bulk_set_value_is_bad_element() {
    let f = Frame::Array(vec![bulk("SET"), bulk("k"), Frame::Integer(3)]);
    assert_eq!(Command::from_frame(f), Err(CommandError::BadElement));
}
