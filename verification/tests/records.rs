use fast_logger::layout::{chars_of, split_message};
use fast_logger::render::TIMESTAMP_FORMAT;
use fast_logger::{count_digits_base_10, do_write, do_write_color, do_write_nocolor};

const NOW: &str = "Jan 5 2024 13:04:05.000000001+0100";

#[test]
fn count_digits() {
    for i in 0..10 {
        assert_eq![1, count_digits_base_10(i)];
    }
    for i in 10..100 {
        assert_eq![2, count_digits_base_10(i)];
    }
    for i in &[100usize, 123, 321, 980] {
        assert_eq![3, count_digits_base_10(*i)];
    }
    assert_eq![4, count_digits_base_10(1248)];
    assert_eq![10, count_digits_base_10(01329583467)];
}

#[test]
fn count_digits_extremes() {
    assert_eq![20, count_digits_base_10(u64::MAX as usize)];
    assert_eq![2, count_digits_base_10(10)];
    assert_eq![1, count_digits_base_10(9)];
}

#[test]
fn lib_ensure_proper_message_format() {
    let first = do_write_nocolor(NOW, 0, "tst", "Message");
    let second = do_write_nocolor(NOW, 0, "tst", "Second message");
    assert_eq![format!["{}: 000 tst: Message\n", NOW], first];
    assert_eq![format!["{}: 000 tst: Second message\n", NOW], second];
}

#[test]
fn ensure_proper_message_format_line_ending_with_newline() {
    let text = do_write_nocolor(NOW, 0, "tst", "Message\n");
    assert_eq![
        format!["{0}: 000 tst [1/2]: Message\n{0}: 000 tst [2/2]: \n", NOW],
        text
    ];
}

#[test]
fn multiple_lines_count_correctly() {
    let text = do_write_nocolor(NOW, 0, "tst", "Message\nPart\n2");
    assert_eq![
        format![
            "{0}: 000 tst [1/3]: Message\n{0}: 000 tst [2/3]: Part\n{0}: 000 tst [3/3]: 2\n",
            NOW
        ],
        text
    ];
}

#[test]
fn multiple_lines_count_correctly_trailing() {
    let text = do_write_nocolor(NOW, 0, "tst", "Message\nPart\n2\n");
    assert_eq![
        format![
            "{0}: 000 tst [1/4]: Message\n{0}: 000 tst [2/4]: Part\n{0}: 000 tst [3/4]: 2\n{0}: 000 tst [4/4]: \n",
            NOW
        ],
        text
    ];
}

#[test]
fn counter_is_padded_to_width_of_total() {
    let msg = "a\nb\nc\nd\ne\nf\ng\nh\ni\nj";
    let text = do_write_nocolor("T", 128, "ctx", msg);
    let lines: Vec<&str> = text.lines().collect();
    assert_eq![10, lines.len()];
    assert_eq!["T: 128 ctx [01/10]: a", lines[0]];
    assert_eq!["T: 128 ctx [09/10]: i", lines[8]];
    assert_eq!["T: 128 ctx [10/10]: j", lines[9]];
}

#[test]
fn carriage_returns_before_newlines_are_dropped() {
    let text = do_write_nocolor("T", 7, "c", "one\r\ntwo\r");
    assert_eq!["T: 007 c [1/2]: one\nT: 007 c [2/2]: two\r\n", text];
}

#[test]
fn empty_message_is_one_line() {
    assert_eq!["T: 255 c: \n", do_write_nocolor("T", 255, "c", "")];
    assert_eq!["T: 000 c [1/2]: \nT: 000 c [2/2]: \n", do_write_nocolor("T", 0, "c", "\n")];
}

#[test]
fn split_message_lines() {
    let lines = split_message(&chars_of("a\r\n\nb"));
    let lines: Vec<String> = lines.iter().map(|l| l.iter().collect()).collect();
    assert_eq![vec!["a", "", "b"], lines];
    let lines = split_message(&chars_of("x\n"));
    assert_eq![2, lines.len()];
    assert![lines[1].is_empty()];
}

fn strip_escapes(s: &str) -> String {
    let mut out = String::new();
    let mut chars = s.chars();
    while let Some(c) = chars.next() {
        if c == '\x1b' {
            for d in chars.by_ref() {
                if d == 'm' {
                    break;
                }
            }
        } else {
            out.push(c);
        }
    }
    out
}

#[test]
fn colorize() {
    let mut counter = 0usize;
    let first = do_write_color(NOW, 255, "tst", "On\nmultiple\nlines\n", &mut counter);
    assert_eq![1, counter];
    let second = do_write_color(NOW, 0, "tst", "An error message", &mut counter);
    assert_eq![0, counter];
    assert_eq![do_write_nocolor(NOW, 255, "tst", "On\nmultiple\nlines\n"), strip_escapes(&first)];
    assert_eq![do_write_nocolor(NOW, 0, "tst", "An error message"), strip_escapes(&second)];
}

#[test]
fn colorized_pieces_use_colored_codes() {
    colored::control::set_override(true);
    let mut counter = 1usize;
    let text = do_write_color("T", 0, "c", "m", &mut counter);
    assert_eq![0, counter];
    assert_eq![
        "\x1b[34mT\x1b[0m: \x1b[31m000\x1b[0m \x1b[92mc\x1b[0m: \x1b[94mm\x1b[0m\n",
        text
    ];
    colored::control::unset_override();
}

#[test]
fn timestamped_record_has_layout() {
    let mut counter = 0usize;
    let text = do_write(64, "tst", "Message", false, &mut counter);
    assert_eq![0, counter];
    assert![text.ends_with(": 064 tst: Message\n")];
    let stamp = text.trim_end_matches(": 064 tst: Message\n");
    let months = ["Jan", "Feb", "Mar", "Apr", "May", "Jun", "Jul", "Aug", "Sep", "Oct", "Nov", "Dec"];
    assert![months.iter().any(|m| stamp.starts_with(m))];
    assert_eq!["%b %-d %-Y %H:%M:%S%.9f%z", TIMESTAMP_FORMAT];
}

#[test]
fn colorized_record_strips_to_plain() {
    colored::control::set_override(true);
    let mut counter = 0usize;
    let msg = "first\nsecond\r\nthird\n";
    let text = do_write_color(NOW, 200, "ctx", msg, &mut counter);
    assert![text.contains('\x1b')];
    assert_eq![do_write_nocolor(NOW, 200, "ctx", msg), strip_escapes(&text)];
    colored::control::unset_override();
}
