use turtle::{Command, Coord, Event, Key, Path, Player};

fn c(v: f32) -> Coord {
    Coord { bits: v.to_bits() }
}

fn three_strokes() -> Path {
    let mut p = Path::new();
    p.line_to(c(1.0), c(0.0));
    p.set_color(1, 2, 3);
    p.line_to(c(2.0), c(0.0));
    p.line_to(c(3.0), c(0.0));
    p
}

#[test]
fn ticks_draw_one_segment_each_then_pause() {
    let p = three_strokes();
    let mut pl = Player::new(&p, true, 16);
    assert!(!pl.is_paused());
    assert_eq!(pl.tick().map(|l| l.end), Some((1, 0)));
    assert_eq!(pl.tick().map(|l| (l.end, l.color)), Some(((2, 0), (1, 2, 3))));
    assert_eq!(pl.tick().map(|l| l.end), Some((3, 0)));
    assert!(!pl.is_paused());
    assert_eq!(pl.tick(), None);
    assert!(pl.is_paused());
    assert_eq!(pl.tick(), None);
}

#[test]
fn space_pauses_and_step_advances_once() {
    let p = three_strokes();
    let mut pl = Player::new(&p, true, 16);
    assert_eq!(pl.handle(Event::KeyDown(Key::Space)), Command::Continue);
    assert!(pl.is_paused());
    assert_eq!(pl.tick(), None);
    assert_eq!(pl.handle(Event::KeyDown(Key::S)), Command::Continue);
    assert_eq!(pl.tick().map(|l| l.end), Some((1, 0)));
    assert_eq!(pl.tick(), None);
    assert_eq!(pl.handle(Event::KeyDown(Key::Space)), Command::Continue);
    assert_eq!(pl.tick().map(|l| l.end), Some((2, 0)));
}

#[test]
fn reset_restarts_and_clears() {
    let p = three_strokes();
    let mut pl = Player::new(&p, true, 16);
    while pl.tick().is_some() {}
    assert!(pl.is_paused());
    assert_eq!(pl.handle(Event::KeyDown(Key::R)), Command::Clear);
    assert!(!pl.is_paused());
    assert_eq!(pl.tick().map(|l| l.start), Some((0, 0)));
}

#[test]
fn brackets_change_the_delay() {
    let p = three_strokes();
    let mut pl = Player::new(&p, true, 1);
    pl.handle(Event::KeyDown(Key::LeftBracket));
    assert_eq!(pl.delay_ms(), 2);
    pl.handle(Event::KeyDown(Key::RightBracket));
    pl.handle(Event::KeyDown(Key::RightBracket));
    pl.handle(Event::KeyDown(Key::RightBracket));
    assert_eq!(pl.delay_ms(), 0);
    let mut top = Player::new(&p, true, u64::MAX);
    top.handle(Event::KeyDown(Key::LeftBracket));
    assert_eq!(top.delay_ms(), u64::MAX);
}

#[test]
fn escape_and_close_exit() {
    let p = three_strokes();
    let mut pl = Player::new(&p, false, 5);
    assert_eq!(pl.handle(Event::KeyDown(Key::Escape)), Command::Exit);
    assert_eq!(pl.handle(Event::Quit), Command::Exit);
    let mut pl = Player::new(&p, true, 5);
    assert_eq!(pl.handle(Event::KeyDown(Key::Escape)), Command::Exit);
    assert_eq!(pl.handle(Event::KeyDown(Key::Other)), Command::Continue);
}

#[test]
fn keys_are_ignored_when_not_interactive() {
    let p = three_strokes();
    let mut pl = Player::new(&p, false, 5);
    assert_eq!(pl.handle(Event::KeyDown(Key::Space)), Command::Continue);
    assert!(!pl.is_paused());
    assert_eq!(pl.handle(Event::KeyDown(Key::R)), Command::Continue);
    pl.handle(Event::KeyDown(Key::LeftBracket));
    assert_eq!(pl.delay_ms(), 5);
    assert_eq!(pl.tick().map(|l| l.end), Some((1, 0)));
}
