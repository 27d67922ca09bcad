use rust_fetch::markup::{colorize, switch_color, ColorCodeIter};

fn chars(s: &str) -> Vec<char> {
    s.chars().collect()
}

fn shown(s: &str) -> Vec<(char, String)> {
    let (items, stalled) = colorize(chars(s));
    assert!(!stalled);
    items
}

fn pairs(v: &[(char, &str)]) -> Vec<(char, String)> {
    v.iter().map(|(c, n)| (*c, n.to_string())).collect()
}

#[test]
fn plain_text_is_blue() {
    assert_eq!(shown("ab"), pairs(&[('a', "blue"), ('b', "blue")]));
}

#[test]
fn known_color_code_switches_color() {
    assert_eq!(
        shown("x${red}ab"),
        pairs(&[('x', "blue"), ('a', "red"), ('b', "red")])
    );
}

#[test]
fn color_names_are_matched_without_case() {
    assert_eq!(shown("${RED}a"), pairs(&[('a', "RED")]));
    assert_eq!(shown("${bright green}a"), pairs(&[('a', "bright green")]));
}

#[test]
fn unknown_color_code_keeps_color() {
    assert_eq!(
        shown("${red}a${nope}b"),
        pairs(&[('a', "red"), ('b', "red")])
    );
}

#[test]
fn character_after_code_is_shown_as_is() {
    assert_eq!(shown("${red}$x"), pairs(&[('$', "red"), ('x', "red")]));
}

#[test]
fn escape_shows_next_character() {
    assert_eq!(shown("\\${red}"), pairs(&[('$', "blue"), ('{', "blue"), ('r', "blue"), ('e', "blue"), ('d', "blue"), ('}', "blue")]));
    assert_eq!(shown("\\\\a"), pairs(&[('\\', "blue"), ('a', "blue")]));
}

#[test]
fn dollar_without_brace_is_shown() {
    assert_eq!(shown("$x"), pairs(&[('$', "blue"), ('x', "blue")]));
    assert_eq!(shown("$$x"), pairs(&[('$', "blue"), ('$', "blue"), ('x', "blue")]));
}

#[test]
fn markup_ending_early_shows_nothing_more() {
    assert_eq!(shown("a$"), pairs(&[('a', "blue")]));
    assert_eq!(shown("a\\"), pairs(&[('a', "blue")]));
    assert_eq!(shown("a${red}"), pairs(&[('a', "blue")]));
    assert_eq!(shown(""), pairs(&[]));
}

#[test]
fn unclosed_color_code_stops_the_markup() {
    assert_eq!(colorize(chars("ab${red")), (pairs(&[('a', "blue"), ('b', "blue")]), true));
    assert_eq!(colorize(chars("${red}a${")), (pairs(&[('a', "red")]), true));
    assert_eq!(colorize(chars("\\${red")), (pairs(&[('$', "blue"), ('{', "blue"), ('r', "blue"), ('e', "blue"), ('d', "blue")]), false));
}

#[test]
fn kelvin_sign_counts_as_k() {
    assert_eq!(shown("${blac\u{212A}}a"), pairs(&[('a', "blac\u{212A}")]));
    assert_eq!(shown("${Purple}a${bright purple}b"), pairs(&[('a', "Purple"), ('b', "Purple")]));
}

#[test]
fn nothing_shown_at_the_end() {
    let mut it = ColorCodeIter::new(chars("${nope}"));
    assert_eq!(it.next(), None);
    let mut it = ColorCodeIter::new(chars("$"));
    assert_eq!(it.next(), None);
}

#[test]
fn line_breaks_keep_their_color() {
    assert_eq!(
        shown("${cyan}a\nb"),
        pairs(&[('a', "cyan"), ('\n', "cyan"), ('b', "cyan")])
    );
}

#[test]
fn reader_hands_out_one_character_at_a_time() {
    let mut it = ColorCodeIter::new(chars("$x${green}y"));
    assert!(!it.is_stuck());
    assert_eq!(it.next(), Some(('$', "blue".to_string())));
    assert_eq!(it.next(), Some(('x', "blue".to_string())));
    assert_eq!(it.next(), Some(('y', "green".to_string())));
    assert_eq!(it.next(), None);
    assert_eq!(it.next(), None);
}

#[test]
fn reader_reports_an_unclosed_code_ahead() {
    let mut it = ColorCodeIter::new(chars("a${red"));
    assert!(!it.is_stuck());
    assert_eq!(it.next(), Some(('a', "blue".to_string())));
    assert!(it.is_stuck());
}

#[test]
fn switch_color_takes_accepted_names_only() {
    assert_eq!(switch_color("blue".to_string(), "red".to_string(), true), "red");
    assert_eq!(switch_color("blue".to_string(), "nope".to_string(), false), "blue");
}
