use sdfconv::paths::output_file_name;

#[test]
fn extension_is_replaced() {
    assert_eq!(output_file_name(b"foo.sdf"), Some(b"foo.bsdf".to_vec()));
    assert_eq!(output_file_name(b"N43W071.sdf"), Some(b"N43W071.bsdf".to_vec()));
}

#[test]
fn only_the_last_extension_is_replaced() {
    assert_eq!(
        output_file_name(b"archive.tar.gz"),
        Some(b"archive.tar.bsdf".to_vec())
    );
}

#[test]
fn name_without_extension_gets_one() {
    assert_eq!(output_file_name(b"noext"), Some(b"noext.bsdf".to_vec()));
}

#[test]
fn hidden_file_keeps_its_name_as_stem() {
    assert_eq!(output_file_name(b".hidden"), Some(b".hidden.bsdf".to_vec()));
    assert_eq!(output_file_name(b".hidden.sdf"), Some(b".hidden.bsdf".to_vec()));
}

#[test]
fn trailing_dot_is_dropped() {
    assert_eq!(output_file_name(b"a."), Some(b"a.bsdf".to_vec()));
}

#[test]
fn empty_name_has_no_stem() {
    assert_eq!(output_file_name(b""), None);
}
