use rupro::driver::input_files;

#[test]
fn exactly_one_file_is_taken() {
    let files = input_files(vec!["stc".to_string(), "a.php".to_string()]);
    assert_eq!(files, Some(vec!["a.php".to_string()]));
}

#[test]
fn no_file_or_several_files_are_refused() {
    assert_eq!(input_files(vec!["stc".to_string()]), None);
    assert_eq!(input_files(vec!["stc".to_string(), "a.php".to_string(), "b.php".to_string()]), None);
    assert_eq!(input_files(vec![]), None);
}
