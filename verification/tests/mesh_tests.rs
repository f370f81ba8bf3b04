use aurora::mesh::Error;

#[test]
fn mesh_error_constructors_keep_their_messages() {
    let e = Error::read_error(String::from("unexpected end of file"));
    assert_eq!(e, Error::FileReadError(String::from("unexpected end of file")));

    let e = Error::type_error(String::from("unknown mesh file type"));
    assert_eq!(e, Error::FileTypeError(String::from("unknown mesh file type")));
}

#[test]
fn mesh_error_messages_render() {
    let e = Error::read_error(String::from("unexpected end of file"));
    assert_eq!(e.message(), "unexpected end of file");

    let e = Error::type_error(String::from("unknown mesh file type"));
    assert_eq!(e.message(), "unknown mesh file type");
}
