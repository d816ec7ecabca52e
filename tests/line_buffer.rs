use reedline::LineBuffer;
use std::ops::Range;

fn buffer_with(content: &str) -> LineBuffer {
    let mut line_buffer = LineBuffer::new();
    line_buffer.insert_str(content);
    line_buffer
}

fn buffer_at(content: &str, position: usize) -> LineBuffer {
    let mut line_buffer = buffer_with(content);
    line_buffer.set_insertion_point(position);
    line_buffer
}

#[test]
fn test_new_buffer_is_empty() {
    let line_buffer = LineBuffer::new();
    assert!(line_buffer.is_empty());
    assert!(line_buffer.is_valid());
}

#[test]
fn test_clearing_line_buffer_resets_buffer_and_insertion_point() {
    let mut line_buffer = buffer_with("this is a command");
    line_buffer.clear();
    let empty_buffer = LineBuffer::new();

    assert_eq!(line_buffer, empty_buffer);
    assert!(line_buffer.is_valid());
}

#[test]
fn insert_str_updates_insertion_point_point_correctly() {
    let mut line_buffer = LineBuffer::new();
    line_buffer.insert_str("this is a command");

    let expected_updated_insertion_point = 17;

    assert_eq!(
        expected_updated_insertion_point,
        line_buffer.insertion_point()
    );
    assert!(line_buffer.is_valid());
}

#[test]
fn insert_char_updates_insertion_point_point_correctly() {
    let mut line_buffer = LineBuffer::new();
    line_buffer.insert_char('c');

    let expected_updated_insertion_point = 1;

    assert_eq!(
        expected_updated_insertion_point,
        line_buffer.insertion_point()
    );
    assert!(line_buffer.is_valid());
}

#[test]
fn delete_word_left_works() {
    let mut line_buffer = buffer_with("This is a test");
    line_buffer.delete_word_left();

    let expected_line_buffer = buffer_with("This is a ");

    assert_eq!(expected_line_buffer, line_buffer);
    assert!(line_buffer.is_valid());
}

#[test]
fn delete_word_right_works() {
    let mut line_buffer = buffer_with("This is a test");
    line_buffer.move_word_left();
    line_buffer.delete_word_right();

    let expected_line_buffer = buffer_with("This is a ");

    assert_eq!(expected_line_buffer, line_buffer);
    assert!(line_buffer.is_valid());
}

fn check_set_buffer(string_to_set: &str, expected_insertion_point: usize) {
    let mut line_buffer = buffer_with("test string");
    assert_eq!(11, line_buffer.insertion_point());
    line_buffer.set_buffer(string_to_set.to_string());
    assert_eq!(expected_insertion_point, line_buffer.insertion_point());
    assert_eq!(line_buffer.get_buffer(), string_to_set);
    assert!(line_buffer.is_valid());
}

#[test]
fn set_buffer_puts_cursor_at_end_of_single_line() {
    check_set_buffer("new string", 10);
}

#[test]
fn set_buffer_puts_cursor_at_end_of_two_lines() {
    check_set_buffer("new line1\nnew line 2", 20);
}

fn check_delete_left_grapheme(input: &str, expected: &str) {
    let mut line_buffer = buffer_with(input);
    line_buffer.delete_left_grapheme();
    assert_eq!(buffer_with(expected), line_buffer);
    assert!(line_buffer.is_valid());
}

#[test]
fn delete_left_grapheme_removes_last_letter() {
    check_delete_left_grapheme("This is a test", "This is a tes");
}

#[test]
fn delete_left_grapheme_removes_whole_emoji() {
    check_delete_left_grapheme("This is a test 😊", "This is a test ");
}

#[test]
fn delete_left_grapheme_on_empty_buffer() {
    check_delete_left_grapheme("", "");
}

fn check_delete_right_grapheme(input: &str, expected: &str) {
    let mut line_buffer = buffer_with(input);
    line_buffer.move_left();
    line_buffer.delete_right_grapheme();
    assert_eq!(buffer_with(expected), line_buffer);
    assert!(line_buffer.is_valid());
}

#[test]
fn delete_right_grapheme_removes_last_letter() {
    check_delete_right_grapheme("This is a test", "This is a tes");
}

#[test]
fn delete_right_grapheme_removes_whole_emoji() {
    check_delete_right_grapheme("This is a test 😊", "This is a test ");
}

#[test]
fn delete_right_grapheme_on_empty_buffer() {
    check_delete_right_grapheme("", "");
}

fn check_word_count(input: &str, expected_count: usize) {
    let line_buffer = buffer_with(input);
    assert_eq!(expected_count, line_buffer.word_count());
    assert!(line_buffer.is_valid());
}

#[test]
fn word_count_with_partial_last_word() {
    check_word_count("This is a te", 4);
}

#[test]
fn word_count_of_plain_sentence() {
    check_word_count("This is a test", 4);
}

#[test]
fn word_count_ignores_runs_of_spaces() {
    check_word_count("This      is a test", 4);
}

#[test]
fn word_count_of_blank_text() {
    check_word_count("", 0);
    check_word_count("  \t\n ", 0);
    check_word_count("  one\ttwo\nthree  ", 3);
}

fn check_transform(
    input: &str,
    in_location: usize,
    output: &str,
    out_location: usize,
    op: fn(&mut LineBuffer),
) {
    let mut line_buffer = buffer_at(input, in_location);
    op(&mut line_buffer);
    let expected = buffer_at(output, out_location);
    assert_eq!(expected, line_buffer);
    assert!(line_buffer.is_valid());
}

#[test]
fn capitalize_char_on_last_letter() {
    check_transform("This is a test", 13, "This is a tesT", 14, LineBuffer::capitalize_char);
}

#[test]
fn capitalize_char_on_word_start() {
    check_transform("This is a test", 10, "This is a Test", 11, LineBuffer::capitalize_char);
}

#[test]
fn capitalize_char_on_whitespace_goes_to_next_word() {
    check_transform("This is a test", 9, "This is a Test", 11, LineBuffer::capitalize_char);
}

#[test]
fn capitalize_char_at_end_does_nothing() {
    check_transform("This is a test", 14, "This is a test", 14, LineBuffer::capitalize_char);
}

#[test]
fn uppercase_word_from_last_letter() {
    check_transform("This is a test", 13, "This is a TEST", 14, LineBuffer::uppercase_word);
}

#[test]
fn uppercase_word_from_word_start() {
    check_transform("This is a test", 10, "This is a TEST", 14, LineBuffer::uppercase_word);
}

#[test]
fn uppercase_word_on_empty_buffer() {
    check_transform("", 0, "", 0, LineBuffer::uppercase_word);
}

#[test]
fn uppercase_word_single_word_from_start() {
    check_transform("This", 0, "THIS", 4, LineBuffer::uppercase_word);
}

#[test]
fn uppercase_word_single_word_from_end() {
    check_transform("This", 4, "THIS", 4, LineBuffer::uppercase_word);
}

#[test]
fn uppercase_word_with_expanding_letter() {
    check_transform("straße x", 0, "STRASSE x", 7, LineBuffer::uppercase_word);
}

#[test]
fn lowercase_word_from_last_letter() {
    check_transform("This is a TEST", 13, "This is a test", 14, LineBuffer::lowercase_word);
}

#[test]
fn lowercase_word_from_word_start() {
    check_transform("This is a TEST", 10, "This is a test", 14, LineBuffer::lowercase_word);
}

#[test]
fn lowercase_word_on_empty_buffer() {
    check_transform("", 0, "", 0, LineBuffer::lowercase_word);
}

#[test]
fn lowercase_word_single_word_from_start() {
    check_transform("THIS", 0, "this", 4, LineBuffer::lowercase_word);
}

#[test]
fn lowercase_word_single_word_from_end() {
    check_transform("THIS", 4, "this", 4, LineBuffer::lowercase_word);
}

#[test]
fn swap_graphemes_before_last_letter() {
    check_transform("This is a test", 13, "This is a tets", 14, LineBuffer::swap_graphemes);
}

#[test]
fn swap_graphemes_at_end_swaps_last_two() {
    check_transform("This is a test", 14, "This is a tets", 14, LineBuffer::swap_graphemes);
}

#[test]
fn swap_graphemes_swaps_space() {
    check_transform("This is a test", 4, "Thi sis a test", 5, LineBuffer::swap_graphemes);
}

#[test]
fn swap_graphemes_at_start_swaps_first_two() {
    check_transform("This is a test", 0, "hTis is a test", 2, LineBuffer::swap_graphemes);
}

#[test]
fn swap_graphemes_keeps_emoji_whole() {
    check_transform("a😊b", 1, "😊ab", 5, LineBuffer::swap_graphemes);
}

#[test]
fn swap_graphemes_with_one_grapheme_does_nothing() {
    check_transform("a", 1, "a", 0, LineBuffer::swap_graphemes);
    check_transform("", 0, "", 0, LineBuffer::swap_graphemes);
}

#[test]
fn swap_words_inside_sentence() {
    check_transform("This is a test", 8, "This is test a", 8, LineBuffer::swap_words);
}

#[test]
fn swap_words_at_start() {
    check_transform("This is a test", 0, "is This a test", 0, LineBuffer::swap_words);
}

#[test]
fn swap_words_at_last_word_does_nothing() {
    check_transform("This is a test", 14, "This is a test", 14, LineBuffer::swap_words);
}

fn check_vertical(input: &str, in_location: usize, out_location: usize, op: fn(&mut LineBuffer)) {
    check_transform(input, in_location, input, out_location, op);
}

#[test]
fn moving_up_from_second_line_start() {
    check_vertical("line 1\nline 2", 7, 0, LineBuffer::move_line_up);
}

#[test]
fn moving_up_keeps_column() {
    check_vertical("line 1\nline 2", 8, 1, LineBuffer::move_line_up);
}

#[test]
fn moving_up_on_first_line_does_nothing() {
    check_vertical("line 1\nline 2", 0, 0, LineBuffer::move_line_up);
}

#[test]
fn moving_up_to_shorter_line_clamps() {
    check_vertical("line\nlong line", 14, 4, LineBuffer::move_line_up);
}

#[test]
fn moving_up_inside_long_line() {
    check_vertical("line\nlong line", 8, 3, LineBuffer::move_line_up);
}

#[test]
fn moving_up_counts_emoji_as_one_column() {
    check_vertical("line 1\n😇line 2", 11, 1, LineBuffer::move_line_up);
}

#[test]
fn moving_up_over_empty_line() {
    check_vertical("line\n\nline", 8, 5, LineBuffer::move_line_up);
}

#[test]
fn moving_down_on_single_line_does_nothing() {
    check_vertical("line 1", 0, 0, LineBuffer::move_line_down);
}

#[test]
fn moving_down_from_start() {
    check_vertical("line 1\nline 2", 0, 7, LineBuffer::move_line_down);
}

#[test]
fn moving_down_onto_emoji() {
    check_vertical("line 1\n😇line 2", 1, 11, LineBuffer::move_line_down);
}

#[test]
fn moving_down_from_after_emoji() {
    check_vertical("line 😇 1\nline 2 long", 9, 18, LineBuffer::move_line_down);
}

#[test]
fn moving_down_on_last_line_does_nothing() {
    check_vertical("line 1\nline 2", 7, 7, LineBuffer::move_line_down);
}

#[test]
fn moving_down_to_shorter_last_line_clamps() {
    check_vertical("long line\nline", 8, 14, LineBuffer::move_line_down);
    check_vertical("long line\nline", 4, 14, LineBuffer::move_line_down);
}

#[test]
fn moving_down_keeps_column() {
    check_vertical("long line\nline", 3, 13, LineBuffer::move_line_down);
}

#[test]
fn moving_down_to_shorter_middle_line_stops_before_newline() {
    check_vertical("long line\nline\nline", 8, 14, LineBuffer::move_line_down);
}

#[test]
fn moving_down_onto_empty_line() {
    check_vertical("line\n\nline", 3, 5, LineBuffer::move_line_down);
}

#[test]
fn vertical_movement_preserves_or_clamps_column() {
    check_vertical("line 1\nlong line 2", 6, 13, LineBuffer::move_line_down);
    check_vertical("line 1\nlong line 2", 18, 6, LineBuffer::move_line_up);
    check_vertical("line 1\nlong line 2", 9, 2, LineBuffer::move_line_up);
}

fn check_first_line(input: &str, in_location: usize, expected: bool) {
    let line_buffer = buffer_at(input, in_location);
    assert!(line_buffer.is_valid());
    assert_eq!(line_buffer.is_cursor_at_first_line(), expected);
}

#[test]
fn test_first_line_detection() {
    check_first_line("line", 4, true);
    check_first_line("line 1\nline 2\nline 3", 0, true);
    check_first_line("line 1\nline 2\nline 3", 6, true);
    check_first_line("line 1\nline 2\nline 3", 8, false);
}

fn check_last_line(input: &str, in_location: usize, expected: bool) {
    let line_buffer = buffer_at(input, in_location);
    assert!(line_buffer.is_valid());
    assert_eq!(line_buffer.is_cursor_at_last_line(), expected);
}

#[test]
fn test_last_line_detection() {
    check_last_line("line", 4, true);
    check_last_line("line\nline", 9, true);
    check_last_line("line 1\nline 2\nline 3", 8, false);
    check_last_line("line 1\nline 2\nline 3", 13, false);
    check_last_line("line 1\nline 2\nline 3", 14, true);
    check_last_line("line 1\nline 2\nline 3", 20, true);
    check_last_line("line 1\nline 2\nline 3\n", 20, false);
    check_last_line("line 1\nline 2\nline 3\n", 21, true);
}

fn check_move_right_until(input: &str, position: usize, c: char, current_line: bool, expected: usize) {
    let mut line_buffer = buffer_at(input, position);
    let returned = line_buffer.move_right_until(c, current_line);
    assert_eq!(line_buffer.insertion_point(), expected);
    assert_eq!(returned, expected);
    assert!(line_buffer.is_valid());
}

#[test]
fn test_move_right_until() {
    check_move_right_until("abc def ghi", 0, 'c', true, 2);
    check_move_right_until("abc def ghi", 0, 'a', true, 0);
    check_move_right_until("abc def ghi", 0, 'z', true, 0);
    check_move_right_until("a😇c", 0, 'c', true, 5);
    check_move_right_until("😇bc", 0, 'c', true, 5);
    check_move_right_until("abc\ndef", 0, 'f', true, 0);
    check_move_right_until("abc\ndef", 3, 'f', true, 3);
    check_move_right_until("abc\ndef", 0, 'f', false, 6);
    check_move_right_until("abc\ndef", 3, 'f', false, 6);
}

#[test]
fn find_char_right_without_match_leaves_cursor() {
    let mut line_buffer = buffer_at("abc def ghi", 0);
    assert_eq!(line_buffer.find_char_right('z', true), None);
    assert_eq!(line_buffer.move_right_until('z', true), 0);
    assert_eq!(line_buffer.insertion_point(), 0);
}

#[test]
fn find_char_right_and_left_report_offsets() {
    let line_buffer = buffer_at("abc def ghi", 5);
    assert_eq!(line_buffer.find_char_right('g', true), Some(8));
    assert_eq!(line_buffer.find_char_right('e', true), None);
    assert_eq!(line_buffer.find_char_left('b', true), Some(1));
    assert_eq!(line_buffer.find_char_left('f', true), None);
    let multi_line = buffer_at("ab\nab\nab", 4);
    assert_eq!(multi_line.find_char_left('b', true), None);
    assert_eq!(multi_line.find_char_left('b', false), Some(1));
    assert_eq!(multi_line.find_char_right('a', true), None);
    assert_eq!(multi_line.find_char_right('a', false), Some(6));
}

fn check_move_right_before(input: &str, position: usize, c: char, current_line: bool, expected: usize) {
    let mut line_buffer = buffer_at(input, position);
    line_buffer.move_right_before(c, current_line);
    assert_eq!(line_buffer.insertion_point(), expected);
    assert!(line_buffer.is_valid());
}

#[test]
fn test_move_right_before() {
    check_move_right_before("abc def ghi", 0, 'd', true, 3);
    check_move_right_before("abc def ghi", 3, 'd', true, 3);
    check_move_right_before("a😇c", 0, 'c', true, 1);
    check_move_right_before("😇bc", 0, 'c', true, 4);
}

fn check_delete_right(input: &str, position: usize, c: char, current_line: bool, expected: &str, until: bool) {
    let mut line_buffer = buffer_at(input, position);
    if until {
        line_buffer.delete_right_until_char(c, current_line);
    } else {
        line_buffer.delete_right_before_char(c, current_line);
    }
    assert_eq!(line_buffer.get_buffer(), expected);
    assert!(line_buffer.is_valid());
}

#[test]
fn test_delete_until() {
    check_delete_right("abc def ghi", 0, 'd', true, "ef ghi", true);
    check_delete_right("abc def ghi", 0, 'i', true, "", true);
    check_delete_right("abc def ghi", 0, 'z', true, "abc def ghi", true);
    check_delete_right("abc def ghi", 0, 'a', true, "abc def ghi", true);
}

#[test]
fn test_delete_before() {
    check_delete_right("abc def ghi", 0, 'b', true, "bc def ghi", false);
    check_delete_right("abc def ghi", 0, 'i', true, "i", false);
    check_delete_right("abc def ghi", 0, 'z', true, "abc def ghi", false);
}

#[test]
fn delete_until_multi_byte_char() {
    check_delete_right("ab😇cd", 0, '😇', true, "cd", true);
}

fn check_move_left(input: &str, position: usize, c: char, current_line: bool, expected: usize, until: bool) {
    let mut line_buffer = buffer_at(input, position);
    if until {
        line_buffer.move_left_until(c, current_line);
    } else {
        line_buffer.move_left_before(c, current_line);
    }
    assert_eq!(line_buffer.insertion_point(), expected);
    assert!(line_buffer.is_valid());
}

#[test]
fn test_move_left_until() {
    check_move_left("abc def ghi", 4, 'c', true, 2, true);
    check_move_left("abc def ghi", 0, 'a', true, 0, true);
    check_move_left("abc def ghi", 6, 'a', true, 0, true);
}

#[test]
fn test_move_left_before() {
    check_move_left("abc def ghi", 4, 'c', true, 3, false);
    check_move_left("abc def ghi", 0, 'a', true, 0, false);
    check_move_left("abc def ghi", 6, 'a', true, 1, false);
    check_move_left("x😇y", 5, '😇', true, 5, false);
}

fn check_delete_left(input: &str, position: usize, c: char, current_line: bool, expected: &str, until: bool) {
    let mut line_buffer = buffer_at(input, position);
    if until {
        line_buffer.delete_left_until_char(c, current_line);
    } else {
        line_buffer.delete_left_before_char(c, current_line);
    }
    assert_eq!(line_buffer.get_buffer(), expected);
    assert!(line_buffer.is_valid());
}

#[test]
fn test_delete_until_left() {
    check_delete_left("abc def ghi", 5, 'b', true, "aef ghi", true);
    check_delete_left("abc def ghi", 5, 'e', true, "abc def ghi", true);
    check_delete_left("abc def ghi", 10, 'a', true, "i", true);
    check_delete_left("z\nabc def ghi", 10, 'z', true, "z\nabc def ghi", true);
    check_delete_left("z\nabc def ghi", 12, 'z', false, "i", true);
}

#[test]
fn test_delete_before_left() {
    check_delete_left("abc def ghi", 5, 'b', true, "abef ghi", false);
    check_delete_left("abc def ghi", 5, 'e', true, "abc def ghi", false);
    check_delete_left("abc def ghi", 10, 'a', true, "ai", false);
}

#[test]
fn delete_left_moves_cursor_to_deletion() {
    let mut line_buffer = buffer_at("abc def ghi", 5);
    line_buffer.delete_left_until_char('b', true);
    assert_eq!(line_buffer.insertion_point(), 1);
    let mut line_buffer = buffer_at("abc def ghi", 5);
    line_buffer.delete_left_before_char('b', true);
    assert_eq!(line_buffer.insertion_point(), 2);
}

fn check_line_end(input: &str, in_location: usize, expected: usize) {
    let line_buffer = buffer_at(input, in_location);
    assert!(line_buffer.is_valid());
    assert_eq!(line_buffer.find_current_line_end(), expected);
}

#[test]
fn test_find_current_line_end() {
    check_line_end("line", 0, 4);
    check_line_end("line\nline", 1, 4);
    check_line_end("line\nline", 7, 9);
    check_line_end("line\n", 4, 4);
    check_line_end("line\n", 5, 5);
    check_line_end("\n", 0, 0);
    check_line_end("\r\n", 0, 0);
    check_line_end("line\r\nword", 1, 4);
    check_line_end("line\r\nword", 7, 10);
}

#[test]
fn find_current_line_end_excludes_carriage_return() {
    check_line_end("line\r\n", 0, 4);
    check_line_end("line\n", 0, 4);
}

fn check_line_num(input: &str, in_location: usize, expected: usize) {
    let line_buffer = buffer_at(input, in_location);
    assert!(line_buffer.is_valid());
    assert_eq!(line_buffer.line(), expected);
}

#[test]
fn test_current_line_num() {
    check_line_num("", 0, 0);
    check_line_num("\n", 0, 0);
    check_line_num("\n", 1, 1);
    check_line_num("a\nb", 0, 0);
    check_line_num("a\nb", 1, 0);
    check_line_num("a\nb", 2, 1);
    check_line_num("a\nbc", 3, 1);
    check_line_num("a\r\nb", 3, 1);
    check_line_num("a\r\nbc", 4, 1);
}

#[test]
fn test_num_lines() {
    assert_eq!(buffer_at("", 0).num_lines(), 1);
    assert_eq!(buffer_at("line", 0).num_lines(), 1);
    assert_eq!(buffer_at("\n", 0).num_lines(), 2);
    assert_eq!(buffer_at("line\n", 0).num_lines(), 2);
    assert_eq!(buffer_at("a\nb", 0).num_lines(), 2);
}

fn check_move_to_line_end(input: &str, in_location: usize, expected: usize) {
    let mut line_buffer = buffer_at(input, in_location);
    line_buffer.move_to_line_end();
    assert_eq!(line_buffer.insertion_point(), expected);
    assert!(line_buffer.is_valid());
}

#[test]
fn test_move_to_line_end() {
    check_move_to_line_end("", 0, 0);
    check_move_to_line_end("line", 0, 4);
    check_move_to_line_end("\n", 0, 0);
    check_move_to_line_end("line\n", 0, 4);
    check_move_to_line_end("a\nb", 2, 3);
    check_move_to_line_end("a\nb", 0, 1);
    check_move_to_line_end("a\r\nb", 0, 1);
}

fn check_move_to_line_start(input: &str, in_location: usize, expected: usize) {
    let mut line_buffer = buffer_at(input, in_location);
    line_buffer.move_to_line_start();
    assert_eq!(line_buffer.insertion_point(), expected);
    assert!(line_buffer.is_valid());
}

#[test]
fn test_move_to_line_start() {
    check_move_to_line_start("", 0, 0);
    check_move_to_line_start("line", 3, 0);
    check_move_to_line_start("\n", 1, 1);
    check_move_to_line_start("\n", 0, 0);
    check_move_to_line_start("\nline", 3, 1);
    check_move_to_line_start("a\nb", 2, 2);
    check_move_to_line_start("a\nb", 3, 2);
    check_move_to_line_start("a\r\nb", 3, 3);
}

fn check_line_range(input: &str, in_location: usize, expected: Range<usize>) {
    let line_buffer = buffer_at(input, in_location);
    assert!(line_buffer.is_valid());
    assert_eq!(line_buffer.current_line_range(), expected);
}

#[test]
fn test_current_line_range() {
    check_line_range("", 0, 0..0);
    check_line_range("line", 0, 0..4);
    check_line_range("line\n", 0, 0..5);
    check_line_range("line\n", 4, 0..5);
    check_line_range("line\r\n", 0, 0..6);
    check_line_range("line\r\n", 4, 0..6);
    check_line_range("line\nsecond", 5, 5..11);
    check_line_range("line\r\nsecond", 7, 6..12);
}

#[test]
fn test_clear_to_line_end() {
    check_transform("This is a test", 7, "This is", 7, LineBuffer::clear_to_line_end);
    check_transform(
        "This is a test\nunrelated",
        7,
        "This is\nunrelated",
        7,
        LineBuffer::clear_to_line_end,
    );
    check_transform(
        "This is a test\r\nunrelated",
        7,
        "This is\r\nunrelated",
        7,
        LineBuffer::clear_to_line_end,
    );
}

#[test]
fn clear_to_end_and_to_insertion_point() {
    check_transform("This is a test", 7, "This is", 7, LineBuffer::clear_to_end);
    check_transform("This is a test", 7, " a test", 0, LineBuffer::clear_to_insertion_point);
}

#[test]
fn current_word_range_finds_word_under_cursor() {
    assert_eq!(buffer_at("This is a test", 11).current_word_range(), 10..14);
    assert_eq!(buffer_at("This is a test", 4).current_word_range(), 5..7);
    assert_eq!(buffer_at("This is a test", 0).current_word_range(), 0..4);
    assert_eq!(buffer_at("", 0).current_word_range(), 0..0);
}

#[test]
fn word_indices_skip_punctuation() {
    let line_buffer = buffer_at("foo, bar!", 3);
    assert_eq!(line_buffer.word_right_index(), 8);
    assert_eq!(line_buffer.word_left_index(), 0);
    let at_end = buffer_at("foo, bar!", 9);
    assert_eq!(at_end.word_left_index(), 5);
    assert_eq!(at_end.word_right_index(), 9);
}

#[test]
fn grapheme_indices_step_over_combined_clusters() {
    let text = "e\u{301}x";
    let line_buffer = buffer_at(text, 0);
    assert_eq!(line_buffer.grapheme_right_index(), 3);
    let line_buffer = buffer_at(text, 3);
    assert_eq!(line_buffer.grapheme_left_index(), 0);
    assert_eq!(line_buffer.grapheme_right_index(), 4);
}

#[test]
fn on_whitespace_looks_right_of_cursor() {
    assert!(buffer_at("a b", 1).on_whitespace());
    assert!(!buffer_at("a b", 0).on_whitespace());
    assert!(!buffer_at("a b", 3).on_whitespace());
    assert!(buffer_at("a\tb", 1).on_whitespace());
}

#[test]
fn ends_with_checks_last_char() {
    let line_buffer = buffer_with("line\n");
    assert!(line_buffer.ends_with('\n'));
    assert!(!line_buffer.ends_with('e'));
    assert!(!LineBuffer::new().ends_with('a'));
    assert!(buffer_with("ab😇").ends_with('😇'));
}

#[test]
fn length_and_emptiness_count_bytes() {
    let line_buffer = buffer_with("a😇");
    assert_eq!(line_buffer.len(), 5);
    assert!(!line_buffer.is_empty());
    assert_eq!(line_buffer.get_buffer(), "a😇");
}

#[test]
fn moves_to_start_end_and_by_grapheme() {
    let mut line_buffer = buffer_with("a😇b");
    line_buffer.move_to_start();
    assert_eq!(line_buffer.insertion_point(), 0);
    line_buffer.move_right();
    line_buffer.move_right();
    assert_eq!(line_buffer.insertion_point(), 5);
    line_buffer.move_left();
    assert_eq!(line_buffer.insertion_point(), 1);
    line_buffer.move_to_end();
    assert_eq!(line_buffer.insertion_point(), 6);
    line_buffer.move_word_left();
    assert_eq!(line_buffer.insertion_point(), 5);
}

#[test]
fn replace_swaps_bytes_and_keeps_cursor() {
    let mut line_buffer = buffer_at("hello world", 2);
    line_buffer.replace(6..11, "there");
    assert_eq!(line_buffer.get_buffer(), "hello there");
    assert_eq!(line_buffer.insertion_point(), 2);
}

#[test]
fn insert_char_advances_over_multi_byte_char() {
    let mut line_buffer = buffer_at("ab", 1);
    line_buffer.insert_char('😊');
    assert_eq!(line_buffer.get_buffer(), "a😊b");
    assert_eq!(line_buffer.insertion_point(), 5);
}

#[test]
fn inserting_then_deleting_emoji_restores_buffer() {
    let before = buffer_at("abc def", 3);
    let mut line_buffer = before.clone();
    line_buffer.insert_char('😊');
    line_buffer.delete_left_grapheme();
    assert_eq!(line_buffer, before);
}

#[test]
fn deleting_graphemes_at_edges_does_nothing() {
    let mut at_start = buffer_at("abc", 0);
    at_start.delete_left_grapheme();
    assert_eq!(at_start, buffer_at("abc", 0));
    let mut at_end = buffer_with("abc");
    at_end.delete_right_grapheme();
    assert_eq!(at_end, buffer_with("abc"));
}

#[test]
fn is_valid_rejects_cursor_inside_cluster() {
    let line_buffer = buffer_at("e\u{301}x", 1);
    assert!(!line_buffer.is_valid());
    assert!(buffer_at("e\u{301}x", 3).is_valid());
    assert!(buffer_at("e\u{301}x", 4).is_valid());
}

#[test]
fn buffer_stays_valid_through_edits() {
    let mut line_buffer = LineBuffer::new();
    line_buffer.insert_str("hello wörld\nsecond 😊 line");
    assert!(line_buffer.is_valid());
    line_buffer.move_line_up();
    assert!(line_buffer.is_valid());
    line_buffer.move_word_left();
    assert!(line_buffer.is_valid());
    line_buffer.swap_words();
    assert!(line_buffer.is_valid());
    line_buffer.uppercase_word();
    assert!(line_buffer.is_valid());
    line_buffer.move_line_down();
    assert!(line_buffer.is_valid());
    line_buffer.insert_char('é');
    assert!(line_buffer.is_valid());
    line_buffer.swap_graphemes();
    assert!(line_buffer.is_valid());
    line_buffer.delete_word_left();
    assert!(line_buffer.is_valid());
    line_buffer.capitalize_char();
    assert!(line_buffer.is_valid());
    line_buffer.delete_right_until_char('e', false);
    assert!(line_buffer.is_valid());
    line_buffer.clear_to_line_end();
    assert!(line_buffer.is_valid());
    line_buffer.move_to_line_start();
    assert!(line_buffer.is_valid());
    line_buffer.lowercase_word();
    assert!(line_buffer.is_valid());
    line_buffer.clear_to_insertion_point();
    assert!(line_buffer.is_valid());
}

#[test]
fn swap_words_inside_last_word_does_nothing() {
    check_transform("This is a test", 11, "This is a test", 11, LineBuffer::swap_words);
}

#[test]
fn from_text_puts_cursor_at_end() {
    let line_buffer = LineBuffer::from_text("a😇\nb");
    assert_eq!(line_buffer.get_buffer(), "a😇\nb");
    assert_eq!(line_buffer.insertion_point(), 7);
    assert_eq!(line_buffer, buffer_with("a😇\nb"));
}
