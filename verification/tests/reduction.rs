use axiograph::lines::{dedup, holds, split_lines};
use axiograph::reduce::{merge, partition, report_from, size};
use axiograph::{ReduceError, Reducer, Round, THRESHOLD};

fn red_strings(items: &[&str]) -> Vec<String> {
    items.iter().map(|s| s.to_string()).collect()
}

#[test]
fn lines_end_at_line_feeds() {
    assert_eq!(split_lines("a\nb\nc"), vec!["a", "b", "c"]);
    assert_eq!(split_lines("a\nb\n"), vec!["a", "b"]);
    assert_eq!(split_lines("a\n\nb"), vec!["a", "", "b"]);
}

#[test]
fn a_text_without_characters_has_no_line() {
    assert!(split_lines("").is_empty());
}

#[test]
fn a_lone_line_feed_is_one_empty_line() {
    assert_eq!(split_lines("\n"), vec![""]);
    assert_eq!(split_lines("\n\n"), vec!["", ""]);
}

#[test]
fn a_carriage_return_before_a_line_feed_is_left_out() {
    assert_eq!(split_lines("a\r\nb\r\n"), vec!["a", "b"]);
    assert_eq!(split_lines("a\r\r\nb"), vec!["a\r", "b"]);
    assert_eq!(split_lines("a\rb\nc\r"), vec!["a\rb", "c\r"]);
    assert_eq!(split_lines("\r\n"), vec![""]);
}

#[test]
fn lines_agree_with_the_standard_library() {
    let samples = [
        "", "x", "\n", "\r", "\r\n", "a\nb", "a\r\nb\r", "日本\nGröße\r\n\n", "\n\r\n\r", "a\n\rb\n",
        "one line only", "tail\n\n\n",
    ];
    for sample in samples {
        let expected: Vec<String> = sample.lines().map(|l| l.to_string()).collect();
        assert_eq!(split_lines(sample), expected, "{:?}", sample);
    }
}

#[test]
fn lines_of_text_with_wide_characters_are_cut_at_character_borders() {
    assert_eq!(split_lines("äö\n日本語\n𝄞x"), vec!["äö", "日本語", "𝄞x"]);
}

#[test]
fn dedup_keeps_the_first_of_equal_lines_in_place() {
    let lines = red_strings(&["b", "a", "b", "c", "a", "b"]);
    assert_eq!(dedup(&lines), vec!["b", "a", "c"]);
    assert!(dedup(&Vec::new()).is_empty());
}

#[test]
fn dedup_of_deduplicated_lines_changes_nothing() {
    let lines = red_strings(&["b", "a", "b", "c", "a", "b", ""]);
    let once = dedup(&lines);
    assert_eq!(dedup(&once), once);
}

#[test]
fn holds_finds_equal_content() {
    let lines = red_strings(&["b", "a"]);
    assert!(holds(&lines, &"a".to_string()));
    assert!(!holds(&lines, &"c".to_string()));
    assert!(!holds(&Vec::new(), &"a".to_string()));
}

#[test]
fn size_counts_bytes() {
    assert_eq!(size(""), 0);
    assert_eq!(size("abc"), 3);
    assert_eq!(size("ä日𝄞"), 2 + 3 + 4);
}

#[test]
fn few_lines_make_one_chunk() {
    let lines = red_strings(&["a", "bc", ""]);
    assert_eq!(partition(&lines), vec!["a\nbc\n\n"]);
}

#[test]
fn no_lines_make_no_chunk() {
    assert!(partition(&Vec::new()).is_empty());
}

#[test]
fn a_chunk_is_closed_before_it_would_overflow() {
    let line = "x".repeat(2999);
    let lines = vec![line.clone(), line.clone(), line.clone(), line.clone()];
    let chunks = partition(&lines);
    assert_eq!(chunks.len(), 2);
    assert_eq!(chunks[0].len(), 6000);
    assert_eq!(chunks[1].len(), 6000);
    assert_eq!(chunks[0], format!("{}\n{}\n", line, line));
}

#[test]
fn a_chunk_may_be_filled_to_the_threshold_exactly() {
    let lines = vec!["x".repeat(3999), "y".repeat(3999), "z".to_string()];
    let chunks = partition(&lines);
    assert_eq!(chunks.len(), 2);
    assert_eq!(chunks[0].len(), THRESHOLD);
    assert_eq!(chunks[1], "z\n");
    let lines = vec!["x".repeat(3999), "y".repeat(4000)];
    let chunks = partition(&lines);
    assert_eq!(chunks.len(), 2);
    assert_eq!(chunks[0].len(), 4000);
    assert_eq!(chunks[1].len(), 4001);
}

#[test]
fn a_line_that_overfills_a_chunk_stands_alone() {
    let lines = vec!["a".to_string(), "x".repeat(9000), "b".to_string(), "c".to_string()];
    let chunks = partition(&lines);
    assert_eq!(chunks.len(), 3);
    assert_eq!(chunks[0], "a\n");
    assert_eq!(chunks[1].len(), 9001);
    assert_eq!(chunks[2], "b\nc\n");
    let lines = vec!["x".repeat(8000)];
    let chunks = partition(&lines);
    assert_eq!(chunks.len(), 1);
    assert_eq!(chunks[0].len(), 8001);
}

#[test]
fn every_chunk_is_within_the_threshold_or_holds_one_line() {
    let mut lines = Vec::new();
    for i in 0..400usize {
        lines.push("s".repeat((i * 37) % 900 + (i % 7) * 1500));
    }
    let chunks = partition(&lines);
    let mut rebuilt = Vec::new();
    for chunk in &chunks {
        let held: Vec<&str> = chunk.lines().collect();
        assert!(!chunk.is_empty());
        assert!(chunk.len() <= THRESHOLD || held.len() == 1);
        rebuilt.extend(held.into_iter().map(|l| l.to_string()));
    }
    assert_eq!(rebuilt, lines);
}

#[test]
fn chunk_sizes_are_counted_in_bytes() {
    let lines = vec!["ä".repeat(2000), "ö".repeat(2000)];
    let chunks = partition(&lines);
    assert_eq!(chunks.len(), 2);
    assert_eq!(chunks[0].len(), 4001);
}

#[test]
fn merge_puts_a_line_feed_between_the_summaries_that_came() {
    let summaries = vec![Some("a".to_string()), None, Some("b\nc".to_string()), None];
    assert_eq!(merge(&summaries), "a\nb\nc");
    assert_eq!(merge(&vec![None, None]), "");
    assert_eq!(merge(&Vec::new()), "");
    assert_eq!(merge(&vec![Some("only".to_string())]), "only");
    assert_eq!(merge(&vec![Some(String::new()), Some("a".to_string())]), "\na");
}

#[test]
fn a_text_without_lines_is_returned_as_it_is_without_any_request() {
    let mut reducer = Reducer::new("");
    assert!(reducer.chunks().is_empty());
    match reducer.absorb(&Vec::new()) {
        Ok(Round::Done(text)) => assert_eq!(text, ""),
        _ => panic!("the reduction did not end"),
    }
}

#[test]
fn a_short_text_takes_one_round() {
    let mut reducer = Reducer::new("b\na\nb\n");
    assert_eq!(reducer.chunks(), vec!["b\na\n"]);
    match reducer.absorb(&vec![Some("summary".to_string())]) {
        Ok(Round::Done(text)) => assert_eq!(text, "summary"),
        _ => panic!("the reduction did not end"),
    }
}

#[test]
fn a_failed_chunk_means_fewer_points() {
    let mut text = String::new();
    for i in 0..3000 {
        text.push_str(&format!("statement number {}\n", i));
    }
    let mut reducer = Reducer::new(&text);
    let chunks = reducer.chunks();
    assert!(chunks.len() > 2);
    let mut summaries: Vec<Option<String>> = chunks.iter().map(|_| None).collect();
    summaries[1] = Some("kept".to_string());
    match reducer.absorb(&summaries) {
        Ok(Round::Done(text)) => assert_eq!(text, "kept"),
        _ => panic!("the reduction did not end"),
    }
}

#[test]
fn long_summaries_go_into_another_round() {
    let mut text = String::new();
    for i in 0..5000 {
        text.push_str(&format!("statement number {}\n", i));
    }
    let mut reducer = Reducer::new(&text);
    let first = reducer.chunks();
    assert!(first.len() > 1);
    let mut long = String::new();
    for i in 0..900 {
        long.push_str(&format!("point {}\n", i % 600));
    }
    assert!(long.len() > THRESHOLD);
    let summaries = vec![Some(long.clone())];
    assert!(matches!(reducer.absorb(&summaries), Ok(Round::Again)));
    let second = reducer.chunks();
    let mut expected = String::new();
    for i in 0..600 {
        expected.push_str(&format!("point {}\n", i));
    }
    assert_eq!(second.concat(), expected);
    match reducer.absorb(&vec![Some("done".to_string())]) {
        Ok(Round::Done(text)) => assert_eq!(text, "done"),
        _ => panic!("the reduction did not end"),
    }
}

#[test]
fn summaries_that_do_not_shrink_give_the_reduction_up() {
    let text = "x".repeat(9000);
    let mut reducer = Reducer::new(&text);
    let chunks = reducer.chunks();
    assert_eq!(chunks.len(), 1);
    let echo = vec![Some(text.clone())];
    assert!(matches!(reducer.absorb(&echo), Err(ReduceError::ConvergenceRisk)));
    assert_eq!(reducer.chunks(), chunks);
    let longer = vec![Some("y".repeat(9500))];
    assert!(matches!(reducer.absorb(&longer), Err(ReduceError::ConvergenceRisk)));
    let shorter = vec![Some("z".repeat(8999))];
    assert!(matches!(reducer.absorb(&shorter), Ok(Round::Again)));
    assert_eq!(reducer.chunks(), vec![format!("{}\n", "z".repeat(8999))]);
    assert!(matches!(reducer.absorb(&shorter), Err(ReduceError::ConvergenceRisk)));
}

#[test]
fn the_report_is_empty_where_the_last_request_failed() {
    assert_eq!(report_from(None), "");
    assert_eq!(report_from(Some("narrative".to_string())), "narrative");
}
