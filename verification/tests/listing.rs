use line_merge::listing::{get_files_in_directory, Entry};

fn entry_at(path: &str, is_file: bool) -> Result<Entry, String> {
    Ok(Entry { path: path.to_string(), is_file })
}

#[test]
fn regular_files_are_kept_in_listing_order() {
    let listing = vec![
        entry_at("in/b.txt", true),
        entry_at("in/sub", false),
        entry_at("in/a.txt", true),
        entry_at("in/link", false),
        entry_at("in/c.txt", true),
    ];
    assert_eq!(
        get_files_in_directory(listing),
        Ok(vec!["in/b.txt".to_string(), "in/a.txt".to_string(), "in/c.txt".to_string()])
    );
}

#[test]
fn directory_without_regular_files_gives_an_empty_list() {
    let empty: Vec<Result<Entry, String>> = Vec::new();
    assert_eq!(get_files_in_directory(empty), Ok(Vec::new()));
    let listing = vec![entry_at("in/sub", false), entry_at("in/other", false)];
    assert_eq!(get_files_in_directory(listing), Ok(Vec::new()));
}

#[test]
fn first_unreadable_entry_is_the_error() {
    let listing = vec![
        entry_at("in/a.txt", true),
        Err("second".to_string()),
        entry_at("in/b.txt", true),
        Err("fourth".to_string()),
    ];
    assert_eq!(get_files_in_directory(listing), Err("second".to_string()));
}

#[test]
fn unreadable_entry_wins_even_after_regular_files() {
    let listing =
        vec![entry_at("in/a.txt", true), entry_at("in/b.txt", true), Err("last".to_string())];
    assert_eq!(get_files_in_directory(listing), Err("last".to_string()));
    let only: Vec<Result<Entry, u32>> = vec![Err(7), Err(9)];
    assert_eq!(get_files_in_directory(only), Err(7));
}
