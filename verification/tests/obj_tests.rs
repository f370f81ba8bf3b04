use aurora::obj::{
    parse_face_component, parse_face_component_index, parse_face_data, Error, Face,
};

#[test]
fn face_component_index_parses() {
    assert_eq!(parse_face_component_index("1"), Ok(1));
    assert_eq!(parse_face_component_index("42"), Ok(42));
    assert!(parse_face_component_index("").is_err());
    assert!(parse_face_component_index("4a").is_err());
    assert!(parse_face_component_index("-1").is_err());
}

#[test]
fn face_component_forms() {
    assert_eq!(parse_face_component("5"), Ok((4, None, None)));
    assert_eq!(parse_face_component("5/3"), Ok((4, None, Some(2))));
    assert_eq!(parse_face_component("5//7"), Ok((4, Some(6), None)));
    assert_eq!(parse_face_component("5/3/7"), Ok((4, Some(6), Some(2))));
}

#[test]
fn face_component_rejects_malformed() {
    assert!(parse_face_component("").is_err());
    assert!(parse_face_component("a").is_err());
    assert!(parse_face_component("5/a").is_err());
    assert!(parse_face_component("5//x").is_err());
    assert!(parse_face_component("5/3/7/9").is_err());
    assert!(parse_face_component("/3/7").is_err());
}

#[test]
fn face_data_parses_plain_vertices() {
    let parts = vec!["f", "1", "2", "3"];
    let face = parse_face_data(&parts).unwrap();
    assert_eq!(face.v, (0, 1, 2));
    assert_eq!(face.vn, None);
    assert_eq!(face.vt, None);
}

#[test]
fn face_data_parses_full_components() {
    let parts = vec!["f", "1/4/7", "2/5/8", "3/6/9"];
    let face = parse_face_data(&parts).unwrap();
    assert_eq!(
        face,
        Face {
            v: (0, 1, 2),
            vn: Some((6, 7, 8)),
            vt: Some((3, 4, 5)),
        }
    );
}

#[test]
fn face_data_rejects_wrong_vertex_counts() {
    assert!(parse_face_data(&vec!["f", "1", "2"]).is_err());
    assert!(parse_face_data(&vec!["f", "1", "2", "3", "4"]).is_err());
}

#[test]
fn face_data_rejects_mixed_attribute_sets() {
    assert!(parse_face_data(&vec!["f", "1//4", "2//5", "3"]).is_err());
    assert!(parse_face_data(&vec!["f", "1/4", "2/5", "3"]).is_err());
}

#[test]
fn error_constructors_keep_their_fields() {
    let e = Error::parse_error(String::from("model.obj"), 7, String::from("bad line"));
    match e {
        Error::ParseError { file_name, line_number, message } => {
            assert_eq!(file_name, "model.obj");
            assert_eq!(line_number, 7);
            assert_eq!(message, "bad line");
        },
        _ => panic!("wrong variant"),
    }

    let e = Error::io_error(String::from("model.obj"), String::from("gone"));
    match e {
        Error::IOError { file_name, message } => {
            assert_eq!(file_name, "model.obj");
            assert_eq!(message, "gone");
        },
        _ => panic!("wrong variant"),
    }
}

#[test]
fn error_messages_render() {
    let e = Error::parse_error(String::from("model.obj"), 7, String::from("bad line"));
    assert_eq!(e.message(), "model.obj:7 error: bad line");

    let e = Error::parse_error(String::from("m.obj"), 120, String::from("oops"));
    assert_eq!(e.message(), "m.obj:120 error: oops");

    let e = Error::io_error(String::from("model.obj"), String::from("gone"));
    assert_eq!(e.message(), "Failed to read model.obj: gone");
}
