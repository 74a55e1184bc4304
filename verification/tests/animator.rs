use tau::animator::{clock_text, PlainAnimator, StyledAnimator};
use tau::style::StyledText;

fn plain(t: &StyledText) -> String {
    t.spans().iter().map(|s| s.text.as_str()).collect()
}

#[test]
fn clocks_show_two_digits_each() {
    assert_eq!(clock_text(0), "00:00:00");
    assert_eq!(clock_text(3661), "01:01:01");
    assert_eq!(clock_text(86399), "23:59:59");
    assert_eq!(clock_text(86400), "00:00:00");
}

#[test]
fn the_plain_ball_runs_through_its_box() {
    let mut a = PlainAnimator::new();
    let first = a.next_frame(0);
    assert_eq!(first.above, "o\n   o\n      o");
    assert_eq!(first.left, "[1] > ");
    assert_eq!(first.right, "00:00:00");
    assert_eq!(first.log, None);
    let second = a.next_frame(1);
    assert_eq!(second.above, " o\n    o\n       o");
    for _ in 0..2 {
        assert_eq!(a.next_frame(2).log, None);
    }
    assert_eq!(a.next_frame(2).log.as_deref(), Some("[tick 1]"));
    for _ in 0..200 {
        let f = a.next_frame(3);
        for line in f.above.split('\n') {
            assert!(line.len() <= 31);
        }
    }
}

#[test]
fn the_styled_ball_stays_in_its_box() {
    let mut a = StyledAnimator::new();
    let first = a.next_frame(Some(6), 0);
    assert_eq!(plain(&first.above), " o    \n      \n      ");
    assert_eq!(first.left, "[1] > ");
    assert_eq!(plain(&first.below), "[=   ]");
    let second = a.next_frame(Some(6), 0);
    assert_eq!(plain(&second.above), "      \n  o   \n      ");
    assert_eq!(plain(&second.below), "[==  ]");
    let third = a.next_frame(Some(6), 0);
    assert_eq!(plain(&third.above), "      \n      \n   o  ");
    let unknown = a.next_frame(None, 0);
    assert_eq!(plain(&unknown.below).len(), 80);
    a.next_frame(Some(5), 0);
    for _ in 0..100 {
        let f = a.next_frame(Some(5), 0);
        assert_eq!(plain(&f.above).matches('o').count(), 1);
        assert_eq!(plain(&f.below).len(), 5);
    }
}
