use makeppkg::args::{arg_parse, try_arg_parse, ArgError};

fn v(args: &[&str]) -> Vec<String> {
    args.iter().map(|a| a.to_string()).collect()
}

fn some(a: &str, b: &str) -> Option<(String, String)> {
    Some((a.to_string(), b.to_string()))
}

#[test]
fn plain_arguments_wrapped() {
    assert_eq!(
        arg_parse(v(&["-s", "-i"]), "/home/u/.config/makeppkg".to_string()),
        Ok((v(&["-s", "-i"]), some("/home/u/.config/makeppkg", "PKGBUILD")))
    );
    assert_eq!(arg_parse(v(&[]), "d".to_string()), Ok((v(&[]), some("d", "PKGBUILD"))));
}

#[test]
fn location_flag_taken_out() {
    assert_eq!(
        arg_parse(v(&["-l", "/patches", "-s"]), "d".to_string()),
        Ok((v(&["-s"]), some("/patches", "PKGBUILD")))
    );
    assert_eq!(
        arg_parse(v(&["-s", "-l", "/patches"]), "d".to_string()),
        Ok((v(&["-s"]), some("/patches", "PKGBUILD")))
    );
}

#[test]
fn pkgbuild_flag_kept() {
    assert_eq!(
        arg_parse(v(&["-p", "other/PKGBUILD", "-s"]), "d".to_string()),
        Ok((v(&["-p", "other/PKGBUILD", "-s"]), some("d", "other/PKGBUILD")))
    );
    assert_eq!(arg_parse(v(&["-p"]), "d".to_string()), Ok((v(&["-p"]), some("d", "PKGBUILD"))));
}

#[test]
fn blacklisted_operation_bypasses() {
    assert_eq!(
        arg_parse(v(&["-s", "--printsrcinfo"]), "d".to_string()),
        Ok((v(&["-s", "--printsrcinfo"]), None))
    );
    assert_eq!(arg_parse(v(&["--geninteg"]), "d".to_string()), Ok((v(&["--geninteg"]), None)));
    assert_eq!(arg_parse(v(&["source"]), "d".to_string()), Ok((v(&["source"]), None)));
}

#[test]
fn blacklisted_after_location_keeps_removal() {
    assert_eq!(
        arg_parse(v(&["-l", "x", "--source"]), "d".to_string()),
        Ok((v(&["--source"]), None))
    );
}

#[test]
fn missing_location() {
    assert_eq!(arg_parse(v(&["-s", "-l"]), "d".to_string()), Err(ArgError::MissingLocation));
}

#[test]
fn second_location_reaches_past_end() {
    assert_eq!(try_arg_parse(v(&["-l", "a", "-l", "b"]), "d".to_string()), None);
}

#[test]
fn second_location_removes_shifted_arguments() {
    // the second removal uses the index before the first: it takes out "y" and "z"
    assert_eq!(
        try_arg_parse(v(&["-l", "a", "-l", "b", "y", "z"]), "d".to_string()),
        Some(Ok((v(&["-l", "b"]), some("b", "PKGBUILD"))))
    );
}

#[test]
fn single_location_never_fails() {
    for args in [vec!["-s", "-l", "x", "-i"], vec!["-l", "x"], vec!["-p", "P", "-l", "-p"]] {
        assert!(matches!(try_arg_parse(v(&args), "d".to_string()), Some(Ok(_))));
    }
}

#[test]
fn last_p_value_names_pkgbuild() {
    assert_eq!(
        arg_parse(v(&["-p", "a", "-s", "-p", "b", "-p"]), "d".to_string()),
        Ok((v(&["-p", "a", "-s", "-p", "b", "-p"]), some("d", "b")))
    );
}
