use logview::group::lines;
use logview::parse::{Line, ParseError};
use logview::session::{
    handle_event, handle_key, handle_search, update, AppMode, Key, Message, Model, RunningState,
};
use logview::text::{contains_str, str_le};

const ID_A: &str = "aaaaaaaaaaaaaaaaaaaaaaaaaaaaaaaa";
const ID_B: &str = "bbbbbbbbbbbbbbbbbbbbbbbbbbbbbbbb";
const ID_D: &str = "dddddddddddddddddddddddddddddddd";

fn raw(time: &str, id: &str, msg: &str) -> String {
    format!("[{} x] [{}] {}", time, id, msg)
}

fn model_of(raws: Vec<String>) -> Model {
    Model::new(lines(&raws))
}

fn type_filter(m: &mut Model, text: &str) {
    update(m, Message::GoSearch);
    for c in text.chars() {
        update(m, Message::SearchKey(c));
    }
}

#[test]
fn parse_extracts_id_time_and_text() {
    let input = raw("09:00:00", ID_A, "request start");
    let line = Line::from_str(&input).ok().expect("line should parse");
    assert_eq!(line.uuid.as_str(), ID_A);
    assert_eq!(line.time.as_str(), "09:00:00");
    assert_eq!(line.text, input);
}

#[test]
fn parse_time_stops_at_bracket() {
    let input = format!("[INFO] [2024-01-01T09:00:00] [{}] request start", ID_A);
    let line = Line::from_str(&input).ok().expect("line should parse");
    assert_eq!(line.uuid.as_str(), ID_A);
    assert_eq!(line.time.as_str(), "INFO]");
    assert_eq!(line.text, input);
}

#[test]
fn parse_rejects_line_without_token() {
    assert!(matches!(
        Line::from_str("no brackets at all"),
        Err(ParseError::ParseLineError)
    ));
    assert!(matches!(
        Line::from_str("[09:00:00] [tooshort] message"),
        Err(ParseError::ParseLineError)
    ));
}

#[test]
fn parse_rejects_uppercase_and_short_hex() {
    let upper = format!("[09:00:00] [{}] message", "A".repeat(32));
    assert!(Line::from_str(&upper).is_err());
    let short = format!("[09:00:00] [{}] message", "a".repeat(31));
    assert!(Line::from_str(&short).is_err());
}

#[test]
fn grouping_puts_every_parsed_line_in_its_set() {
    let raws = vec![
        raw("09:00:00", ID_A, "a one"),
        raw("09:00:01", ID_B, "b one"),
        raw("09:00:02", ID_A, "a two"),
        String::from("malformed noise line"),
        raw("09:00:03", ID_B, "b two"),
        raw("09:00:04", ID_A, "a three"),
    ];
    let sets = lines(&raws);
    assert_eq!(sets.len(), 2);
    let total: usize = sets.iter().map(|s| s.lines.len()).sum();
    assert_eq!(total, 5);
    for set in &sets {
        let id = set.lines[0].uuid.clone();
        for l in &set.lines {
            assert_eq!(l.uuid, id);
        }
    }
}

#[test]
fn group_keeps_arrival_order() {
    let raws = vec![
        raw("09:00:00", ID_A, "first"),
        raw("09:00:01", ID_B, "noise"),
        raw("09:00:02", ID_A, "second"),
        raw("09:00:03", ID_A, "third"),
    ];
    let sets = lines(&raws);
    let a = sets
        .iter()
        .find(|s| s.lines[0].uuid.as_str() == ID_A)
        .expect("set for id a");
    let texts: Vec<&str> = a.lines.iter().map(|l| {
        l.text.rsplit(' ').next().unwrap()
    }).collect();
    assert_eq!(texts, vec!["first", "second", "third"]);
}

#[test]
fn sets_are_ordered_by_first_line_timestamp() {
    let raws = vec![
        raw("10:00:00", ID_A, "late"),
        raw("09:00:00", ID_B, "early"),
        raw("09:30:00", ID_D, "middle"),
    ];
    let sets = lines(&raws);
    assert_eq!(sets.len(), 3);
    assert_eq!(sets[0].lines[0].time.as_str(), "09:00:00");
    assert_eq!(sets[1].lines[0].time.as_str(), "09:30:00");
    assert_eq!(sets[2].lines[0].time.as_str(), "10:00:00");
}

#[test]
fn filter_keeps_matching_sets_in_order() {
    let mut m = model_of(vec![
        raw("09:00:00", ID_A, "error one"),
        raw("09:10:00", ID_B, "warn two"),
        raw("09:20:00", ID_D, "error three"),
    ]);
    type_filter(&mut m, "error");
    let visible = m.filtered_log_sets();
    assert_eq!(visible.len(), 2);
    assert!(visible[0].lines[0].text.contains("error one"));
    assert!(visible[1].lines[0].text.contains("error three"));
}

#[test]
fn filter_clamps_selection_into_range() {
    let mut m = model_of(vec![
        raw("09:00:00", ID_A, "alpha"),
        raw("09:10:00", ID_B, "beta"),
        raw("09:20:00", ID_D, "zulu"),
    ]);
    update(&mut m, Message::NextSet);
    update(&mut m, Message::NextSet);
    assert_eq!(m.current_item, Some(2));
    type_filter(&mut m, "z");
    assert_eq!(m.filtered_log_sets().len(), 1);
    assert_eq!(m.current_item, Some(0));
}

#[test]
fn filter_to_nothing_clears_selection_and_backspace_restores() {
    let mut m = model_of(vec![
        raw("09:00:00", ID_A, "alpha"),
        raw("09:10:00", ID_B, "zulu"),
    ]);
    type_filter(&mut m, "zx");
    assert_eq!(m.filter.as_str(), "zx");
    assert_eq!(m.filtered_log_sets().len(), 0);
    assert_eq!(m.current_item, None);
    update(&mut m, Message::SearchBackspace);
    assert_eq!(m.filter.as_str(), "z");
    assert_eq!(m.filtered_log_sets().len(), 1);
    assert_eq!(m.current_item, Some(0));
}

#[test]
fn navigation_clamps_at_both_ends() {
    let mut m = model_of(vec![
        raw("09:00:00", ID_A, "alpha"),
        raw("09:10:00", ID_B, "beta"),
    ]);
    assert_eq!(m.current_item, Some(0));
    update(&mut m, Message::PrevSet);
    assert_eq!(m.current_item, Some(0));
    update(&mut m, Message::NextSet);
    assert_eq!(m.current_item, Some(1));
    update(&mut m, Message::NextSet);
    assert_eq!(m.current_item, Some(1));
}

#[test]
fn navigation_on_empty_model_stays_empty() {
    let mut m = model_of(Vec::new());
    assert_eq!(m.current_item, None);
    update(&mut m, Message::NextSet);
    assert_eq!(m.current_item, None);
    update(&mut m, Message::PrevSet);
    assert_eq!(m.current_item, None);
}

#[test]
fn quit_stops_the_run_loop() {
    let mut m = model_of(vec![raw("09:00:00", ID_A, "alpha")]);
    assert_eq!(m.running_state, RunningState::Run);
    update(&mut m, Message::Quit);
    assert_eq!(m.running_state, RunningState::Done);
}

#[test]
fn search_mode_transitions_keep_filter() {
    let mut m = model_of(vec![
        raw("09:00:00", ID_A, "error one"),
        raw("09:10:00", ID_B, "warn two"),
    ]);
    assert_eq!(m.mode, AppMode::Normal);
    type_filter(&mut m, "error");
    assert_eq!(m.mode, AppMode::Search);
    update(&mut m, Message::SubmitSearch);
    assert_eq!(m.mode, AppMode::Normal);
    assert_eq!(m.filter.as_str(), "error");
    assert_eq!(m.filtered_log_sets().len(), 1);
}

#[test]
fn key_dispatch_is_mode_aware() {
    assert_eq!(handle_key(Key::Char('j')), Some(Message::NextSet));
    assert_eq!(handle_key(Key::Char('k')), Some(Message::PrevSet));
    assert_eq!(handle_key(Key::Char('q')), Some(Message::Quit));
    assert_eq!(handle_key(Key::Char('/')), Some(Message::GoSearch));
    assert_eq!(handle_key(Key::Char('x')), None);
    assert_eq!(handle_key(Key::Enter), None);
    assert_eq!(handle_search(Key::Enter), Some(Message::SubmitSearch));
    assert_eq!(handle_search(Key::Backspace), Some(Message::SearchBackspace));
    assert_eq!(handle_search(Key::Char('j')), Some(Message::SearchKey('j')));
    assert_eq!(
        handle_event(&AppMode::Normal, Key::Char('j')),
        Some(Message::NextSet)
    );
    assert_eq!(
        handle_event(&AppMode::Search, Key::Char('j')),
        Some(Message::SearchKey('j'))
    );
    assert_eq!(handle_event(&AppMode::Search, Key::Other), None);
}

#[test]
fn list_items_show_first_line_of_each_visible_set() {
    let m = model_of(vec![
        raw("09:00:00", ID_A, "a one"),
        raw("09:10:00", ID_B, "b one"),
        raw("09:20:00", ID_A, "a two"),
    ]);
    let items = m.list_items();
    assert_eq!(items.len(), 2);
    assert_eq!(items[0], raw("09:00:00", ID_A, "a one"));
    assert_eq!(items[1], raw("09:10:00", ID_B, "b one"));
}

#[test]
fn detail_lines_wrap_with_continuation_indent() {
    let m = model_of(vec![raw(
        "09:00:00",
        ID_A,
        "a rather long message that will not fit on one narrow line",
    )]);
    let lines = m.detail_lines(24);
    assert!(lines.len() > 1, "a long line must wrap to several lines");
    assert!(
        lines[1].starts_with("        "),
        "continuation lines carry an eight-space indent"
    );
    assert!(lines[0].starts_with("[09:00:00"));
}

#[test]
fn detail_lines_empty_without_selection() {
    let m = model_of(Vec::new());
    assert_eq!(m.detail_lines(40).len(), 0);
}

#[test]
fn current_lines_follow_the_selection() {
    let mut m = model_of(vec![
        raw("09:00:00", ID_A, "a one"),
        raw("09:10:00", ID_B, "b one"),
        raw("09:20:00", ID_B, "b two"),
    ]);
    update(&mut m, Message::NextSet);
    let current = m.current_lines().expect("a set is selected");
    assert_eq!(current.len(), 2);
    assert!(current[0].text.contains("b one"));
    assert!(current[1].text.contains("b two"));
}

#[test]
fn end_to_end_two_sets_ordered_with_counts() {
    let first = format!("[INFO] [2024-01-01T09:00:00] [{}] request start", ID_A);
    let second = format!("[INFO] [2024-01-01T09:00:01] [{}] request end", ID_A);
    let other = format!("[2024-01-01T08:59:59] [{}] boot", ID_B);
    let sets = lines(&vec![first.clone(), second.clone(), other.clone()]);
    assert_eq!(sets.len(), 2);
    assert_eq!(sets[0].lines.len(), 1);
    assert_eq!(sets[0].lines[0].text, other);
    assert_eq!(sets[1].lines.len(), 2);
    assert_eq!(sets[1].lines[0].text, first);
    assert_eq!(sets[1].lines[1].text, second);
}

#[test]
fn string_order_and_substring_helpers() {
    assert!(str_le("09:00:00", "09:30:00"));
    assert!(!str_le("10:00:00", "09:30:00"));
    assert!(str_le("abc", "abc"));
    assert!(str_le("ab", "abc"));
    assert!(contains_str("hello world", "lo wo"));
    assert!(!contains_str("hello world", "low"));
    assert!(contains_str("anything", ""));
    assert!(!contains_str("", "x"));
}
