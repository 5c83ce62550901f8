use nisabo::diff::{
    create_diff, frame_record, get_diff_json, restore_from_diff, serialize, terminate, Diff,
};

fn entries(diff: &[Diff]) -> Vec<(&str, &str, usize)> {
    diff.iter().map(|d| (d.op.as_str(), d.value.as_str(), d.index)).collect()
}

#[test]
fn appended_line_is_one_insert_at_line_one() {
    let diff = create_diff("# Welcome", "# Welcome\nExtra line");
    assert_eq!(entries(&diff), vec![("+", "Extra line\n", 1)]);
}

#[test]
fn changed_line_becomes_delete_and_insert() {
    let diff = create_diff("a\nb\nc\n", "a\nB\nc\n");
    assert_eq!(entries(&diff), vec![("-", "b\n", 1), ("+", "B\n", 1)]);
}

#[test]
fn line_numbers_count_the_unchanged_lines_in_front() {
    let diff = create_diff("a\nb\n", "x\na\n");
    assert_eq!(entries(&diff), vec![("+", "x\n", 0), ("-", "b\n", 1)]);
    let diff = create_diff("a\nb\nc\nd\n", "a\nd\ne\n");
    assert_eq!(entries(&diff), vec![("-", "b\n", 1), ("-", "c\n", 1), ("+", "e\n", 2)]);
    let diff = create_diff("a\n", "x\ny\na\n");
    assert_eq!(entries(&diff), vec![("+", "x\n", 0), ("+", "y\n", 0)]);
}

#[test]
fn a_last_line_is_the_same_with_or_without_its_line_ending() {
    assert!(create_diff("a", "a\n").is_empty());
    assert!(create_diff("a\nb\n", "a\nb").is_empty());
    assert!(create_diff("", "").is_empty());
    assert_eq!(entries(&create_diff("", "a")), vec![("+", "a\n", 0)]);
    assert_eq!(entries(&create_diff("a", "")), vec![("-", "a\n", 0)]);
    assert_eq!(terminate("a"), "a\n");
    assert_eq!(terminate("a\n"), "a\n");
    assert_eq!(terminate(""), "");
    assert_eq!(terminate("a\r"), "a\r\n");
}

#[test]
fn json_of_a_change_set() {
    let json = get_diff_json("a\nb\nc\n", "a\nB\nc\n");
    assert_eq!(
        json,
        "[{\"op\":\"-\",\"value\":\"b\\n\",\"index\":1},\
         {\"op\":\"+\",\"value\":\"B\\n\",\"index\":1}]"
    );
    assert_eq!(get_diff_json("a\n", "a\nb\n"), "[{\"op\":\"+\",\"value\":\"b\\n\",\"index\":1}]");
}

#[test]
fn json_of_no_change() {
    assert_eq!(get_diff_json("same\n", "same\n"), "[]");
    assert_eq!(serialize(Vec::new()).unwrap(), "[]");
}

#[test]
fn json_escapes_quotes() {
    let v = vec![Diff { op: "+".to_string(), value: "say \"hi\"\n".to_string(), index: 12 }];
    assert_eq!(
        serialize(v).unwrap(),
        "[{\"op\":\"+\",\"value\":\"say \\\"hi\\\"\\n\",\"index\":12}]"
    );
}

#[test]
fn restore_gives_the_earlier_text() {
    let before = "one\ntwo\nthree";
    let after = "zero\none\nthree\nfour";
    let diff = create_diff(before, after);
    assert_eq!(restore_from_diff(after, &diff), before);
}

#[test]
fn restore_undoes_the_entries_from_the_last_to_the_first() {
    assert_eq!(restore_from_diff("x\na\n", &create_diff("a\nb\n", "x\na\n")), "a\nb");
    let v = vec![
        Diff { op: "-".to_string(), value: "b\n".to_string(), index: 1 },
        Diff { op: "+".to_string(), value: "B\n".to_string(), index: 1 },
    ];
    assert_eq!(restore_from_diff("a\nB\nc", &v), "a\nb\nc");
    let v = vec![
        Diff { op: "+".to_string(), value: "x\n".to_string(), index: 0 },
        Diff { op: "-".to_string(), value: "b\n".to_string(), index: 1 },
    ];
    assert_eq!(restore_from_diff("x\na", &v), "a\nb");
    let v = vec![
        Diff { op: "-".to_string(), value: "b\n".to_string(), index: 1 },
        Diff { op: "-".to_string(), value: "c\n".to_string(), index: 1 },
        Diff { op: "+".to_string(), value: "X\n".to_string(), index: 1 },
        Diff { op: "+".to_string(), value: "Y\n".to_string(), index: 1 },
        Diff { op: "+".to_string(), value: "Z\n".to_string(), index: 2 },
    ];
    assert_eq!(restore_from_diff("a\nX\nY\nd\nZ", &v), "a\nb\nc\nd");
    for (before, after) in [
        ("", "a\nb"),
        ("a\nb", ""),
        ("a\nb\nc\nd", "d\nc\nb\na"),
        ("one\ntwo\nthree\nfour", "zero\ntwo\n2.5\nfour\nfive"),
        ("same\nsame\nsame", "same\nother\nsame\nsame"),
    ] {
        assert_eq!(restore_from_diff(after, &create_diff(before, after)), before);
    }
}

#[test]
fn restore_skips_entries_that_do_not_fit() {
    let v = vec![
        Diff { op: "+".to_string(), value: "x\n".to_string(), index: 7 },
        Diff { op: "?".to_string(), value: "y\n".to_string(), index: 0 },
        Diff { op: "-".to_string(), value: "z\n".to_string(), index: 9 },
    ];
    assert_eq!(restore_from_diff("a\nb", &v), "a\nb");
}

#[test]
fn frame_record_puts_the_literals_in_as_they_are() {
    let mut out = vec!['['];
    frame_record(&mut out, "\"+\"", "\"a\\n\"", 3);
    let text: String = out.iter().collect();
    assert_eq!(text, "[{\"op\":\"+\",\"value\":\"a\\n\",\"index\":3}");
    frame_record(&mut out, "x", "", 0);
    let text: String = out.iter().collect();
    assert_eq!(
        text,
        "[{\"op\":\"+\",\"value\":\"a\\n\",\"index\":3}{\"op\":x,\"value\":,\"index\":0}"
    );
}

#[test]
fn json_escapes_as_the_table_says() {
    let text = "q\"b\\s/\u{8}\t\n\u{c}\r\u{0}\u{1}\u{b}\u{1f} \u{7f}\u{e9}\u{2028}";
    let v = vec![Diff { op: text.to_string(), value: String::new(), index: 0 }];
    let expected = "[{\"op\":\"q\\\"b\\\\s/\\b\\t\\n\\f\\r\\u0000\\u0001\\u000b\\u001f \u{7f}\u{e9}\u{2028}\",\
                    \"value\":\"\",\"index\":0}]";
    assert_eq!(serialize(v).unwrap(), expected);
}
