use life::control::{command_for, Command, Control, Event, Flow, Key};
use life::world::{Cell, World};
use std::collections::HashSet;

fn draws_for(width: usize, height: usize, cells: &[Cell]) -> Vec<bool> {
    let mut draws = vec![false; width * height];
    for &(x, y) in cells {
        draws[x * height + y] = true;
    }
    draws
}

fn live(w: &World) -> HashSet<Cell> {
    w.live_cells().into_iter().collect()
}

fn set(cells: &[Cell]) -> HashSet<Cell> {
    cells.iter().cloned().collect()
}

fn key(c: char) -> Event {
    Event::Input(Key::Char(c))
}

fn blinker_control() -> Control {
    let mut w = World::new((5, 5));
    w.seed_from(&draws_for(5, 5, &[(1, 2), (2, 2), (3, 2)]));
    Control::new(w)
}

#[test]
fn keys_map_to_commands() {
    assert_eq!(command_for(false, &key('q')), Command::Quit);
    assert_eq!(command_for(false, &key('g')), Command::Seed);
    assert_eq!(command_for(false, &key('n')), Command::Step);
    assert_eq!(command_for(true, &key('n')), Command::Step);
    assert_eq!(command_for(false, &key('a')), Command::SetAuto(true));
    assert_eq!(command_for(true, &key('s')), Command::SetAuto(false));
    assert_eq!(command_for(false, &key('x')), Command::Nothing);
    assert_eq!(command_for(true, &key('Q')), Command::Nothing);
    assert_eq!(command_for(true, &Event::Input(Key::Other)), Command::Nothing);
    assert_eq!(command_for(true, &Event::Tick), Command::Step);
    assert_eq!(command_for(false, &Event::Tick), Command::Nothing);
}

#[test]
fn tick_steps_only_in_auto_mode() {
    let mut c = blinker_control();
    let none: Vec<bool> = Vec::new();
    assert_eq!(c.handle_with(&Event::Tick, &none), Flow::Idle);
    assert_eq!(live(c.world()), set(&[(1, 2), (2, 2), (3, 2)]));
    assert_eq!(c.handle_with(&key('a'), &none), Flow::Idle);
    assert!(c.auto());
    assert_eq!(c.handle_with(&Event::Tick, &none), Flow::Redraw);
    assert_eq!(live(c.world()), set(&[(2, 1), (2, 2), (2, 3)]));
    assert_eq!(c.handle_with(&key('s'), &none), Flow::Idle);
    assert!(!c.auto());
    assert_eq!(c.handle_with(&Event::Tick, &none), Flow::Idle);
    assert_eq!(live(c.world()), set(&[(2, 1), (2, 2), (2, 3)]));
}

#[test]
fn manual_step_ignores_auto_flag() {
    let mut c = blinker_control();
    let none: Vec<bool> = Vec::new();
    assert_eq!(c.handle_with(&key('n'), &none), Flow::Redraw);
    assert_eq!(live(c.world()), set(&[(2, 1), (2, 2), (2, 3)]));
    assert!(!c.auto());
}

#[test]
fn seed_key_reseeds() {
    let mut c = blinker_control();
    let draws = draws_for(5, 5, &[(0, 0), (4, 4)]);
    assert_eq!(c.handle_with(&key('g'), &draws), Flow::Redraw);
    assert_eq!(live(c.world()), set(&[(0, 0), (4, 4)]));
}

#[test]
fn quit_ends_the_loop() {
    let mut c = blinker_control();
    let none: Vec<bool> = Vec::new();
    assert!(!c.is_done());
    assert_eq!(c.handle_with(&key('q'), &none), Flow::Quit);
    assert!(c.is_done());
    assert_eq!(c.handle_with(&key('n'), &none), Flow::Quit);
    assert_eq!(live(c.world()), set(&[(1, 2), (2, 2), (3, 2)]));
}

#[test]
fn other_keys_are_ignored() {
    let mut c = blinker_control();
    assert_eq!(c.handle(&key('z')), Flow::Idle);
    assert_eq!(c.handle(&Event::Input(Key::Other)), Flow::Idle);
    assert_eq!(live(c.world()), set(&[(1, 2), (2, 2), (3, 2)]));
    assert!(!c.is_done());
}

#[test]
fn random_seed_key_keeps_bounds() {
    let mut c = blinker_control();
    assert_eq!(c.handle(&key('g')), Flow::Redraw);
    for (x, y) in c.world().live_cells() {
        assert!(x < 5 && y < 5);
    }
    assert_eq!(c.handle(&key('q')), Flow::Quit);
}

#[test]
fn script_matches_serial_application() {
    let draws = draws_for(5, 5, &[(1, 2), (2, 2), (3, 2)]);
    let events = vec![
        key('n'),
        Event::Tick,
        key('a'),
        Event::Tick,
        key('x'),
        Event::Tick,
        key('g'),
        key('s'),
        Event::Tick,
        key('n'),
    ];
    let mut scripted = Control::new(World::new((5, 5)));
    let quit = scripted.run_with(&events, &draws);
    assert!(!quit);

    let mut serial = Control::new(World::new((5, 5)));
    for e in &events {
        serial.handle_with(e, &draws);
    }
    assert_eq!(live(scripted.world()), live(serial.world()));
    assert_eq!(scripted.auto(), serial.auto());
    // steps on an empty grid, a reseed to the blinker, then one manual step
    assert_eq!(live(scripted.world()), set(&[(2, 1), (2, 2), (2, 3)]));
    assert!(!scripted.auto());
}

#[test]
fn script_stops_at_quit() {
    let draws = draws_for(5, 5, &[]);
    let mut c = blinker_control();
    let events = vec![key('n'), key('q'), key('n'), key('a')];
    assert!(c.run_with(&events, &draws));
    assert_eq!(live(c.world()), set(&[(2, 1), (2, 2), (2, 3)]));
    assert!(!c.auto());
}

#[test]
fn script_without_seed_needs_no_draws() {
    let mut c = blinker_control();
    let events = vec![key('a'), Event::Tick, Event::Tick, key('s'), Event::Tick];
    assert!(!c.run_with(&events, &Vec::new()));
    assert_eq!(live(c.world()), set(&[(1, 2), (2, 2), (3, 2)]));
    assert!(!c.auto());
}
