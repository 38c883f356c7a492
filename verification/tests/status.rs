//! The status bar.
use arb::live::base::status::{Output, StatusLine};

fn bar(o: Output) -> String {
    match o {
        Output::Bar(s) => s,
        other => panic!("not the bar: {other:?}"),
    }
}

#[test]
fn the_bar_shows_blocks_arbs_and_the_activity() {
    let mut s = StatusLine::new(true);
    assert_eq!(bar(s.set_blocks(12)), "\r\x1b[2K\x1b[2mblocks 12\x1b[0m");
    assert_eq!(bar(s.set_confirmed(3)), "\r\x1b[2K\x1b[2mblocks 12 | arbs 3\x1b[0m");
    assert_eq!(
        bar(s.busy("scanning block")),
        "\r\x1b[2K\x1b[2mblocks 12 | arbs 3\x1b[0m  ⠋ scanning block…\x1b[2m\x1b[0m"
    );
    assert_eq!(
        bar(s.tick()),
        "\r\x1b[2K\x1b[2mblocks 12 | arbs 3\x1b[0m  ⠙ scanning block…\x1b[2m\x1b[0m"
    );
    assert_eq!(bar(s.idle()), "\r\x1b[2K\x1b[2mblocks 12 | arbs 3\x1b[0m");
}

#[test]
fn the_spinner_comes_round() {
    let mut s = StatusLine::new(true);
    let first = bar(s.busy("x"));
    for _ in 0..9 {
        assert_ne!(bar(s.tick()), first);
    }
    assert_eq!(bar(s.tick()), first);
}

#[test]
fn messages_scroll_above_the_bar() {
    let mut s = StatusLine::new(true);
    assert_eq!(bar(s.log("found")), "\r\x1b[2Kfound\n\r\x1b[2K\x1b[2mblocks 0\x1b[0m");
    assert_eq!(bar(s.note("hm")), "\r\x1b[2Khm\n\r\x1b[2K\x1b[2mblocks 0\x1b[0m");
    assert!(s.drawn);
    assert_eq!(bar(s.finish()), "\r\x1b[2K");
    assert!(!s.drawn);
    assert!(matches!(s.finish(), Output::Quiet));
}

#[test]
fn without_a_terminal_only_messages_go_out() {
    let mut s = StatusLine::new(false);
    assert!(matches!(s.set_blocks(1), Output::Quiet));
    assert!(matches!(s.set_confirmed(1), Output::Quiet));
    assert!(matches!(s.busy("x"), Output::Quiet));
    assert!(matches!(s.tick(), Output::Quiet));
    assert_eq!(s.frame, 0);
    assert!(matches!(s.idle(), Output::Quiet));
    assert!(matches!(s.finish(), Output::Quiet));
    assert!(matches!(s.log("found"), Output::Finding(m) if m == "found"));
    assert!(matches!(s.note("hm"), Output::Diagnostic(m) if m == "hm"));
}

#[test]
fn an_idle_spinner_stands_still() {
    let mut s = StatusLine::new(true);
    assert!(matches!(s.tick(), Output::Quiet));
    assert_eq!(s.frame, 0);
}
