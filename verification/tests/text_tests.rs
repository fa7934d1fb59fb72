use focustrack::text::{clean_label, fit_width, format_elapsed, render_row};
use focustrack::TITLE_WIDTH;
use unicode_width::UnicodeWidthStr;

#[test]
fn clean_label_strips_backslash_paths() {
    assert_eq!(clean_label("C:\\Users\\me\\notes.txt"), "notes.txt");
}

#[test]
fn clean_label_strips_slash_paths() {
    assert_eq!(clean_label("/home/me/project/main.rs"), "main.rs");
}

#[test]
fn clean_label_keeps_plain_titles() {
    assert_eq!(clean_label("Untitled - Notepad"), "Untitled - Notepad");
}

#[test]
fn clean_label_skips_trailing_separators() {
    assert_eq!(clean_label("dir/sub/"), "sub");
    assert_eq!(clean_label("dir\\sub\\\\"), "sub");
}

#[test]
fn clean_label_skips_dot_components() {
    assert_eq!(clean_label("a/."), "a");
    assert_eq!(clean_label("a/./."), "a");
    assert_eq!(clean_label("./a"), "a");
}

#[test]
fn clean_label_keeps_titles_without_a_component() {
    assert_eq!(clean_label("a/.."), "a/..");
    assert_eq!(clean_label("/"), "/");
    assert_eq!(clean_label("//"), "//");
    assert_eq!(clean_label("/./"), "/./");
}

#[test]
fn clean_label_never_empties_a_nonempty_title() {
    for t in ["/", "a/", "a/..", "x/y/", ".", "..", "C:\\", "\\.", "a/./"] {
        assert!(!clean_label(t).is_empty(), "title {:?} cleaned to empty", t);
    }
}

#[test]
fn clean_label_is_idempotent_on_samples() {
    for t in [
        "C:\\a\\b.txt",
        "x/y/z",
        "plain",
        "",
        "trailing/",
        "a/.",
        "a/..",
        "mixed\\a/b",
    ] {
        let once = clean_label(t);
        let twice = clean_label(&once);
        assert_eq!(once, twice);
    }
}

#[test]
fn format_elapsed_zero() {
    assert_eq!(format_elapsed(0), "00:00:00");
}

#[test]
fn format_elapsed_mixed() {
    assert_eq!(format_elapsed(3661), "01:01:01");
}

#[test]
fn format_elapsed_just_under_hundred_hours() {
    assert_eq!(format_elapsed(359999), "99:59:59");
}

#[test]
fn format_elapsed_hours_do_not_wrap() {
    assert_eq!(format_elapsed(360000), "100:00:00");
}

#[test]
fn format_elapsed_round_trips_seconds() {
    for secs in [0u64, 1, 59, 60, 61, 3599, 3600, 86399, 359999] {
        let text = format_elapsed(secs);
        let parts: Vec<&str> = text.split(':').collect();
        assert_eq!(parts.len(), 3);
        let h: u64 = parts[0].parse().unwrap();
        let m: u64 = parts[1].parse().unwrap();
        let s: u64 = parts[2].parse().unwrap();
        assert_eq!(h * 3600 + m * 60 + s, secs);
    }
}

#[test]
fn fit_width_pads_short_titles_to_forty_columns() {
    let fitted = fit_width("abc", 40);
    assert_eq!(fitted, format!("{:<40}", "abc"));
    assert_eq!(UnicodeWidthStr::width(fitted.as_str()), 40);
}

#[test]
fn fit_width_empty_title_is_all_spaces() {
    let fitted = fit_width("", 40);
    assert_eq!(fitted, " ".repeat(40));
}

#[test]
fn fit_width_truncates_long_titles_with_ellipsis() {
    let long = "a".repeat(45);
    let fitted = fit_width(&long, 40);
    assert_eq!(fitted, format!("{}...", "a".repeat(40)));
    assert_eq!(UnicodeWidthStr::width(fitted.as_str()), 43);
}

#[test]
fn fit_width_counts_wide_characters_as_two_columns() {
    // Twenty-five Hangul syllables are fifty columns; twenty fit in forty.
    let title = "\u{D55C}".repeat(25);
    let fitted = fit_width(&title, 40);
    assert_eq!(fitted, format!("{}...", "\u{D55C}".repeat(20)));
    assert_eq!(UnicodeWidthStr::width(fitted.as_str()), 43);
}

#[test]
fn fit_width_pads_wide_characters_exactly() {
    // Three wide characters are six columns; thirty-four spaces follow.
    let title = "\u{D55C}".repeat(3);
    let fitted = fit_width(&title, 40);
    assert_eq!(fitted, format!("{}{}", title, " ".repeat(34)));
    assert_eq!(UnicodeWidthStr::width(fitted.as_str()), 40);
}

#[test]
fn fit_width_cleans_paths_first() {
    let fitted = fit_width("C:\\tools\\editor.exe", 40);
    assert_eq!(fitted, format!("{:<40}", "editor.exe"));
}

#[test]
fn render_row_matches_fixed_width_format() {
    let row = render_row("notepad.exe", 5000);
    assert_eq!(row, format!("{:<40} {:>10}", "notepad.exe", "00:00:05"));
}

#[test]
fn render_row_uses_title_width_constant() {
    let row = render_row("x", 3_600_000);
    assert_eq!(row.len(), TITLE_WIDTH + 1 + 10);
    assert!(row.ends_with("  01:00:00"));
}
