use zinc::directory::Directory;

fn components(parts: &[&str]) -> Vec<String> {
    parts.iter().map(|p| p.to_string()).collect()
}

#[test]
fn data_directory_inside_a_project_directory() {
    assert_eq!(
        components(&["home", "circuit", "data"]),
        Directory::data_path(components(&["home", "circuit"]), true)
    );
}

#[test]
fn data_directory_named_already() {
    assert_eq!(
        components(&["home", "circuit", "data"]),
        Directory::data_path(components(&["home", "circuit", "data"]), true)
    );
}

#[test]
fn path_that_is_no_directory_stays() {
    assert_eq!(components(&["home", "circuit"]), Directory::data_path(components(&["home", "circuit"]), false));
}
