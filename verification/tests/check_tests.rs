use adzuki::check::get_line_and_col;

#[test]
fn line_and_col_at_start() {
    assert_eq!(get_line_and_col("abc", 0), (1, 1));
}

#[test]
fn line_and_col_counts_lines_and_columns() {
    let source = "ab\ncd\nef";
    assert_eq!(get_line_and_col(source, 1), (1, 2));
    assert_eq!(get_line_and_col(source, 3), (2, 1));
    assert_eq!(get_line_and_col(source, 7), (3, 2));
}

#[test]
fn line_and_col_counts_characters_not_bytes() {
    let source = "é€x";
    assert_eq!(get_line_and_col(source, 5), (1, 3));
}

#[test]
fn offset_past_the_end_gives_position_after_last_char() {
    assert_eq!(get_line_and_col("a\nb", 100), (2, 2));
    assert_eq!(get_line_and_col("", 0), (1, 1));
}

#[test]
fn offset_inside_a_character_runs_to_the_end() {
    assert_eq!(get_line_and_col("é\nz", 1), (2, 2));
}
