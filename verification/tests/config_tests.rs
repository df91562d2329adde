use std::collections::HashMap;

use rss_alert::config::{ArgError, Value};
use rss_alert::feeds::{feeds_text_ok, parse_feeds_var};
use rss_alert::{Config, Feed};

fn urls(feeds: &[Feed]) -> Vec<&str> {
    feeds.iter().map(|f| f.url.as_str()).collect()
}

fn options_map(feed: &Feed) -> HashMap<String, Value> {
    feed.options.iter().cloned().collect()
}

fn args(list: &[&str]) -> Vec<String> {
    list.iter().map(|s| s.to_string()).collect()
}

#[test]
fn expand_vars() {
    let a = parse_feeds_var("{A|B|C}_{D|E}\nasdf\n# {DD|CC}");
    assert_eq!(urls(&a), vec!["A_D", "A_E", "B_D", "B_E", "C_D", "C_E", "asdf"]);
}

#[test]
fn expand_vars_and_options() {
    let a = parse_feeds_var(
        "[foreground=123 backgroun=321 no_toast=true] {A|B|C}_{D|E}\nasdf\n# {DD|CC}",
    );
    assert_eq!(urls(&a), vec!["A_D", "A_E", "B_D", "B_E", "C_D", "C_E", "asdf"]);
    let mut o = HashMap::new();
    o.insert("foreground".to_string(), Value::from_text("123"));
    o.insert("no_toast".to_string(), Value::from_text("true"));
    assert_eq!(options_map(&a[0]), o);
}

#[test]
fn documented_expansion_order() {
    let a = parse_feeds_var("var1={1|2|3}&var2={4|5}");
    assert_eq!(
        urls(&a),
        vec![
            "var1=1&var2=4",
            "var1=1&var2=5",
            "var1=2&var2=4",
            "var1=2&var2=5",
            "var1=3&var2=4",
            "var1=3&var2=5"
        ]
    );
}

#[test]
fn feed_count_is_product_of_group_sizes() {
    let a = parse_feeds_var("{a|b}{c|d|e}x{f|g}");
    assert_eq!(a.len(), 12);
    assert_eq!(a[0].url, "acxf");
    assert_eq!(a[11].url, "bexg");
}

#[test]
fn comment_lines_give_nothing() {
    assert!(feeds_text_ok("  # only a comment"));
    assert_eq!(parse_feeds_var("  # only a comment").len(), 0);
}

#[test]
fn plain_line_is_one_feed_without_options() {
    let a = parse_feeds_var("https://example.org/feed.xml");
    assert_eq!(urls(&a), vec!["https://example.org/feed.xml"]);
    assert!(a[0].options.is_empty());
}

#[test]
fn blank_line_cannot_be_read() {
    assert!(!feeds_text_ok("a\n\nb"));
    assert!(!feeds_text_ok(""));
}

#[test]
fn unclosed_group_alone_cannot_be_read() {
    assert!(!feeds_text_ok("a{b"));
}

#[test]
fn unclosed_brace_after_group_is_dropped() {
    let a = parse_feeds_var("a{x|y}b{c");
    assert_eq!(urls(&a), vec!["axbc", "aybc"]);
}

#[test]
fn empty_alternative_is_kept() {
    let a = parse_feeds_var("p{|q}");
    assert_eq!(urls(&a), vec!["p", "pq"]);
}

#[test]
fn header_alone_cannot_be_read() {
    assert!(!feeds_text_ok("[no_toast=true]"));
    assert!(!feeds_text_ok("][x"));
}

#[test]
fn header_with_wide_character_after_bracket_cannot_be_read() {
    assert!(!feeds_text_ok("[no_toast=true]éx"));
}

#[test]
fn header_sets_options_for_all_feeds_of_its_line() {
    let a = parse_feeds_var("[no_toast=true foreground=12] u{1|2}\nv");
    assert_eq!(urls(&a), vec!["u1", "u2", "v"]);
    assert!(a[0].no_toast());
    assert!(a[1].no_toast());
    assert!(!a[2].no_toast());
    assert_eq!(options_map(&a[1]).get("foreground"), Some(&Value::Int(12)));
}

#[test]
fn later_option_replaces_earlier() {
    let a = parse_feeds_var("[foreground=1 foreground=2 background=] x");
    let o = options_map(&a[0]);
    assert_eq!(o.len(), 1);
    assert_eq!(o.get("foreground"), Some(&Value::Int(2)));
}

#[test]
fn bracket_after_first_character_is_not_an_options_word() {
    let a = parse_feeds_var(" [foreground=1] x");
    assert_eq!(urls(&a), vec!["x"]);
    let b = parse_feeds_var(" [foreground=1]x");
    assert_eq!(urls(&b), vec![""]);
    assert!(a[0].options.is_empty());
}

#[test]
fn config_reads_arguments() {
    let c = Config::new(&args(&["prog", "--path=/tmp/feeds", "--toast=7"]), 600, 5);
    assert_eq!(c.file_path, "/tmp/feeds");
    assert_eq!(c.toast_duration, 7);
    assert_eq!(c.cycle_interval, 600);
}

#[test]
fn config_last_argument_wins() {
    let a = args(&["prog", "--path=a", "--interval=3", "--path=b"]);
    assert_eq!(Config::check_args(&a), Ok(()));
    let c = Config::new(&a, 600, 5);
    assert_eq!(c.file_path, "b");
    assert_eq!(c.cycle_interval, 3);
    assert_eq!(c.toast_duration, 5);
}

#[test]
fn path_argument() {
    assert_eq!(Config::path_arg(&args(&["prog", "--path=a", "--path=b=c"])), Some("b=c".to_string()));
    assert_eq!(Config::path_arg(&args(&["--path=a"])), None);
}

#[test]
fn config_argument_errors() {
    assert_eq!(Config::check_args(&args(&["prog"])), Err(ArgError::MissingPath));
    assert_eq!(Config::check_args(&args(&["--path=x"])), Err(ArgError::MissingPath));
    assert_eq!(Config::check_args(&args(&["prog", "--path=x", "--toast=x"])), Err(ArgError::BadToast));
    assert_eq!(
        Config::check_args(&args(&["prog", "--path=x", "--interval=-1"])),
        Err(ArgError::BadInterval)
    );
}

#[test]
fn config_parses_trimmed_feed_file() {
    let c = Config::new(&args(&["prog", "--path=x"]), 600, 5);
    let text = "\n  a{1|2}\nb\n\n";
    assert!(c.can_parse_feeds(text));
    assert_eq!(urls(&c.parse_feeds(text)), vec!["a1", "a2", "b"]);
}

#[test]
fn values_read_from_text() {
    assert_eq!(Value::from_text("true"), Value::Bool(true));
    assert_eq!(Value::from_text("false"), Value::Bool(false));
    assert_eq!(Value::from_text("True"), Value::String("True".to_string()));
    assert_eq!(Value::from_text("123"), Value::Int(123));
    assert_eq!(Value::from_text("+5"), Value::Int(5));
    assert_eq!(Value::from_text("-2147483648"), Value::Int(i32::MIN));
    assert_eq!(Value::from_text("2147483648"), Value::String("2147483648".to_string()));
    assert_eq!(Value::from_text("1a"), Value::String("1a".to_string()));
    assert_eq!(Value::parse(""), Err("empty value".to_string()));
    assert_eq!(Value::parse("7"), Ok(Value::Int(7)));
}

#[test]
fn values_written_out_read_back() {
    for v in [Value::Int(-5), Value::Int(0), Value::Int(i32::MAX), Value::Bool(true), Value::String("red".to_string())] {
        assert_eq!(Value::from_text(&v.to_text()), v);
    }
    assert_eq!(Value::Int(-5).to_text(), "-5");
}

#[test]
fn wrap_color_without_options_is_identity() {
    let f = Feed { url: "u".to_string(), options: Vec::new() };
    assert_eq!(f.wrap_color("hello").unwrap(), "hello");
}

#[test]
fn wrap_color_with_colours() {
    let f = parse_feeds_var("[foreground=123] u").remove(0);
    assert_eq!(f.wrap_color("hi").unwrap(), "\x1b[38;5;123mhi\x1b[m");
    let g = parse_feeds_var("[background=red foreground=true] u").remove(0);
    assert_eq!(g.wrap_color("hi").unwrap(), "\x1b[38;5;truem\x1b[48;5;redmhi\x1b[m");
}

#[test]
fn no_toast_needs_boolean_true() {
    assert!(!parse_feeds_var("[no_toast=false] u")[0].no_toast());
    assert!(!parse_feeds_var("[no_toast=1] u")[0].no_toast());
    assert!(parse_feeds_var("[no_toast=true] u")[0].no_toast());
}

#[test]
fn trimmed_text_and_error_message() {
    assert_eq!(rss_alert::config::trimmed("\u{3000} a b \t\n"), "a b");
    let e = rss_alert::Error::Generic("boom".to_string());
    assert_eq!(e.message(), "boom");
}

#[test]
fn lists_joined_by_a_line_break_read_line_by_line() {
    let a = "[no_toast=true] x{1|2}";
    let b = "y\n# c\nz{3|4}";
    let joined = parse_feeds_var(&format!("{a}\n{b}"));
    let first = parse_feeds_var(a);
    let second = parse_feeds_var(b);
    assert_eq!(urls(&joined), [urls(&first), urls(&second)].concat());
    assert!(joined[0].no_toast() && joined[1].no_toast());
    assert!(!joined[2].no_toast());
    assert!(!feeds_text_ok(&format!("{a}\n")));
}
