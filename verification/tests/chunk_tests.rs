use command_registry::chunk::format_chunked;
use command_registry::chunk::CHUNK_LIMIT;

fn lines(v: &[&str]) -> Vec<String> {
    v.iter().map(|s| s.to_string()).collect()
}

#[test]
fn empty_input_produces_no_chunks() {
    assert!(format_chunked(&lines(&[]), None, false).is_empty());
    assert!(format_chunked(&lines(&[]), Some("Header"), true).is_empty());
}

#[test]
fn header_then_each_line_behind_its_newline_no_trailing() {
    let r = format_chunked(&lines(&["a", "b"]), Some("Header:"), false);
    assert_eq!(r, vec!["Header:\na\nb".to_string()]);
}

#[test]
fn short_input_without_header_renders_one_bare_chunk() {
    let r = format_chunked(&lines(&["a", "b"]), None, false);
    assert_eq!(r, vec!["\na\nb".to_string()]);
}

#[test]
fn wrapping_fences_the_chunk_behind_the_header() {
    let r = format_chunked(&lines(&["a", "b"]), Some("Available Commands:"), true);
    assert_eq!(r, vec!["Available Commands:\n```\na\nb```".to_string()]);
}

#[test]
fn no_chunk_exceeds_the_limit_and_nothing_is_lost() {
    let line = "x".repeat(100);
    let input = lines(&vec![line.as_str(); 50]);
    let r = format_chunked(&input, None, false);
    assert!(r.len() > 1);
    for chunk in &r {
        assert!(chunk.chars().count() <= CHUNK_LIMIT);
    }
    let rebuilt: String = r.concat();
    let expected: String = input.iter().map(|l| format!("\n{}", l)).collect();
    assert_eq!(rebuilt, expected);
}

#[test]
fn fenced_chunks_keep_the_bound_and_the_line_sequence() {
    let line = "y".repeat(1500);
    let input = lines(&vec![line.as_str(); 5]);
    let r = format_chunked(&input, Some("Top"), true);
    assert!(r.len() > 1);
    for chunk in &r {
        assert!(chunk.chars().count() <= CHUNK_LIMIT);
    }
    let mut rebuilt = String::new();
    for (i, chunk) in r.iter().enumerate() {
        let mut body = chunk.as_str();
        if i == 0 {
            body = &body["Top\n```".len()..];
        } else {
            body = &body["```\n".len()..];
        }
        body = &body[..body.len() - "```".len()];
        rebuilt.push_str(body);
    }
    let expected: String = input.iter().map(|l| format!("\n{}", l)).collect();
    assert_eq!(rebuilt, expected);
}

#[test]
fn header_appears_only_on_the_first_chunk() {
    let line = "z".repeat(3000);
    let input = lines(&[line.as_str(), line.as_str()]);
    let r = format_chunked(&input, Some("H"), false);
    assert_eq!(r.len(), 2);
    assert_eq!(r[0], format!("H\n{}\n", line));
    assert_eq!(r[1], line);
}

#[test]
fn an_oversized_line_stands_alone_in_its_chunk() {
    let huge = "w".repeat(5000);
    let input = lines(&["a", huge.as_str(), "b"]);
    let r = format_chunked(&input, None, false);
    assert_eq!(r.len(), 3);
    assert_eq!(r[0], "\na\n");
    assert_eq!(r[1], format!("{}\n", huge));
    assert_eq!(r[2], "b");
}

#[test]
fn greedy_packing_splits_exactly_where_the_budget_runs_out() {
    // Each line costs 1001 characters in the buffer; the margin lets
    // only three of the four fit before the first chunk closes.
    let line = "q".repeat(1000);
    let input = lines(&vec![line.as_str(); 4]);
    let r = format_chunked(&input, None, false);
    assert_eq!(r.len(), 2);
    assert_eq!(r[0].chars().count(), 3004);
    assert_eq!(r[1].chars().count(), 1000);
}
