use raptor::text::truncate_path_prefix;

#[test]
fn ui_short_paths_are_unchanged() {
    assert_eq!(truncate_path_prefix("/home/user", 60), "/home/user");
}

#[test]
fn ui_long_paths_keep_the_suffix() {
    let path = "a/very/long/path/that/exceeds/the/display/limit/for/sure/here.txt";
    let truncated = truncate_path_prefix(path, 40);
    assert!(truncated.starts_with("..."));
    assert!(truncated.ends_with("here.txt"));
    assert!(truncated.len() <= 40);
}

#[test]
fn ui_multibyte_paths_do_not_panic_or_split_characters() {
    let path = "/tmp/文档/文件夹/这是一个非常长的中文路径名称用于测试/文件.txt";
    let truncated = truncate_path_prefix(path, 40);
    assert!(truncated.starts_with("..."));
    assert!(truncated.ends_with("文件.txt"));
    assert!(!truncated.contains('\u{FFFD}'));
    assert!(truncated.len() <= 40);
}

#[test]
fn header_short_paths_are_unchanged() {
    assert_eq!(truncate_path_prefix("/home/user", 60), "/home/user");
}

#[test]
fn header_long_paths_keep_the_suffix() {
    let path = "a/very/long/path/that/exceeds/the/display/limit/for/sure/here.txt";
    let truncated = truncate_path_prefix(path, 40);
    assert!(truncated.starts_with("..."));
    assert!(truncated.ends_with("here.txt"));
    assert!(truncated.len() <= 40);
}

#[test]
fn header_multibyte_paths_do_not_panic_or_split_characters() {
    let path = "/tmp/文档/文件夹/这是一个非常长的中文路径名称用于测试/文件.txt";
    let truncated = truncate_path_prefix(path, 40);
    assert!(truncated.starts_with("..."));
    assert!(truncated.ends_with("文件.txt"));
    assert!(!truncated.contains('\u{FFFD}'));
    assert!(truncated.len() <= 40);
}

#[test]
fn the_cut_keeps_exactly_the_last_bytes_that_fit() {
    let path = "0123456789abcdefghij";
    assert_eq!(truncate_path_prefix(path, 10), "...defghij");
    assert_eq!(truncate_path_prefix(path, 20), path);
    assert_eq!(truncate_path_prefix(path, 2), "...");
}

#[test]
fn a_cut_inside_a_character_moves_forward_to_the_next_one() {
    // Each of these characters takes three bytes.
    let path = "文档文件";
    assert_eq!(truncate_path_prefix(path, 8), "...件");
    assert_eq!(truncate_path_prefix(path, 9), "...文件");
    assert_eq!(truncate_path_prefix(path, 11), "...文件");
    assert_eq!(truncate_path_prefix(path, 12), "文档文件");
}
