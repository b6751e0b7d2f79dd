//! The decisions of the control loop: each event from the keyboard or the
//! clock becomes a command on the world, applied in arrival order.
use crate::world::{next_gen, seeded_cells, World, WorldView};
use vstd::prelude::*;

verus! {

/// A key as the control loop sees it.
#[derive(Clone, Copy, PartialEq, Eq, Debug, Structural)]
pub enum Key {
    Char(char),
    Other,
}

/// One item of the merged event stream.
#[derive(Clone, Copy, PartialEq, Eq, Debug, Structural)]
pub enum Event {
    Input(Key),
    Tick,
}

/// What an event asks of the world or of the loop.
#[derive(Clone, Copy, PartialEq, Eq, Debug, Structural)]
pub enum Command {
    Quit,
    Seed,
    Step,
    SetAuto(bool),
    Nothing,
}

/// What the loop does after an event: stop, redraw, or wait for the next one.
#[derive(Clone, Copy, PartialEq, Eq, Debug, Structural)]
pub enum Flow {
    Quit,
    Redraw,
    Idle,
}

/// `q` quits, `g` reseeds, `n` steps once, `a` and `s` switch auto-run on
/// and off; a tick steps only while auto-run is on; anything else is ignored.
pub open spec fn command_of(auto: bool, evt: Event) -> Command {
    match evt {
        Event::Input(Key::Char(c)) => {
            if c == 'q' {
                Command::Quit
            } else if c == 'g' {
                Command::Seed
            } else if c == 'n' {
                Command::Step
            } else if c == 'a' {
                Command::SetAuto(true)
            } else if c == 's' {
                Command::SetAuto(false)
            } else {
                Command::Nothing
            }
        },
        Event::Input(Key::Other) => Command::Nothing,
        Event::Tick => if auto {
            Command::Step
        } else {
            Command::Nothing
        },
    }
}

/// The command that `evt` stands for, given the auto-run flag.
pub fn command_for(auto: bool, evt: &Event) -> (r: Command)
    ensures
        r == command_of(auto, *evt),
{
    match evt {
        Event::Input(Key::Char(c)) => {
            if *c == 'q' {
                Command::Quit
            } else if *c == 'g' {
                Command::Seed
            } else if *c == 'n' {
                Command::Step
            } else if *c == 'a' {
                Command::SetAuto(true)
            } else if *c == 's' {
                Command::SetAuto(false)
            } else {
                Command::Nothing
            }
        },
        Event::Input(Key::Other) => Command::Nothing,
        Event::Tick => if auto {
            Command::Step
        } else {
            Command::Nothing
        },
    }
}

/// The loop's state: the world, the auto-run flag, and whether it has quit.
pub struct ControlView {
    pub world: WorldView,
    pub auto: bool,
    pub quit: bool,
}

/// The effect of one command. A seed uses `draws` as `World::seed_from` does.
pub open spec fn apply(s: ControlView, cmd: Command, draws: Seq<bool>) -> ControlView {
    match cmd {
        Command::Quit => ControlView { quit: true, ..s },
        Command::Seed => ControlView {
            world: WorldView { live: seeded_cells(s.world.width, s.world.height, draws), ..s.world },
            ..s
        },
        Command::Step => ControlView {
            world: WorldView { live: next_gen(s.world.width, s.world.height, s.world.live), ..s.world },
            ..s
        },
        Command::SetAuto(b) => ControlView { auto: b, ..s },
        Command::Nothing => s,
    }
}

/// One event: ignored once the loop has quit, else its command is applied.
pub open spec fn next(s: ControlView, evt: Event, draws: Seq<bool>) -> ControlView {
    if s.quit {
        s
    } else {
        apply(s, command_of(s.auto, evt), draws)
    }
}

/// The events applied one after another, in arrival order.
pub open spec fn run(s: ControlView, events: Seq<Event>, draws: Seq<bool>) -> ControlView
    decreases events.len(),
{
    if events.len() == 0 {
        s
    } else {
        next(run(s, events.drop_last(), draws), events.last(), draws)
    }
}

/// Handling events in arrival order composes: the state after `a` followed
/// by `b` is the state after `a`, then `b` handled from there.
pub proof fn lemma_run_append(s: ControlView, a: Seq<Event>, b: Seq<Event>, draws: Seq<bool>)
    ensures
        run(s, a + b, draws) == run(run(s, a, draws), b, draws),
    decreases b.len(),
{
    if b.len() == 0 {
        assert(a + b =~= a);
    } else {
        assert((a + b).drop_last() =~= a + b.drop_last());
        lemma_run_append(s, a, b.drop_last(), draws);
    }
}

/// Handling a sequence of events is handling each one, in arrival order:
/// the first event is applied to the starting state and the rest follow.
pub proof fn lemma_run_serial(s: ControlView, events: Seq<Event>, draws: Seq<bool>)
    requires
        events.len() > 0,
    ensures
        run(s, events, draws) == run(next(s, events[0], draws), events.drop_first(), draws),
{
    let first = seq![events[0]];
    assert(events =~= first + events.drop_first());
    lemma_run_append(s, first, events.drop_first(), draws);
    assert(first.drop_last() =~= Seq::<Event>::empty());
    assert(run(s, first.drop_last(), draws) == s);
    assert(run(s, first, draws) == next(s, events[0], draws));
}

/// What the loop does after `cmd`.
pub open spec fn flow_of(cmd: Command) -> Flow {
    match cmd {
        Command::Quit => Flow::Quit,
        Command::Seed | Command::Step => Flow::Redraw,
        _ => Flow::Idle,
    }
}

/// The control loop's own state, owned by the consuming thread alone.
pub struct Control {
    world: World,
    auto: bool,
    quit: bool,
}

impl View for Control {
    type V = ControlView;

    closed spec fn view(&self) -> ControlView {
        ControlView { world: self.world@, auto: self.auto, quit: self.quit }
    }
}

impl Control {
    /// The world is well formed.
    pub closed spec fn inv(&self) -> bool {
        self.world.inv()
    }

    /// Takes charge of `world`, with auto-run off.
    pub fn new(world: World) -> (r: Control)
        requires
            world.inv(),
        ensures
            r.inv(),
            r@ == (ControlView { world: world@, auto: false, quit: false }),
    {
        Control { world, auto: false, quit: false }
    }

    /// The world.
    pub fn world(&self) -> (r: &World)
        requires
            self.inv(),
        ensures
            r.inv(),
            r@ == self@.world,
    {
        &self.world
    }

    /// Whether auto-run is on.
    pub fn auto(&self) -> (r: bool)
        ensures
            r == self@.auto,
    {
        self.auto
    }

    /// Whether the loop has quit.
    pub fn is_done(&self) -> (r: bool)
        ensures
            r == self@.quit,
    {
        self.quit
    }

    /// Handles one event; a seed takes its draws from `draws`.
    pub fn handle_with(&mut self, evt: &Event, draws: &Vec<bool>) -> (r: Flow)
        requires
            old(self).inv(),
            !old(self)@.quit && command_of(old(self)@.auto, *evt) == Command::Seed ==> draws@.len()
                == old(self)@.world.width * old(self)@.world.height,
        ensures
            final(self).inv(),
            final(self)@ == next(old(self)@, *evt, draws@),
            r == (if old(self)@.quit {
                Flow::Quit
            } else {
                flow_of(command_of(old(self)@.auto, *evt))
            }),
    {
        if self.quit {
            return Flow::Quit;
        }
        let cmd = command_for(self.auto, evt);
        match cmd {
            Command::Quit => {
                self.quit = true;
                Flow::Quit
            },
            Command::Seed => {
                self.world.seed_from(draws);
                Flow::Redraw
            },
            Command::Step => {
                self.world.step();
                Flow::Redraw
            },
            Command::SetAuto(b) => {
                self.auto = b;
                Flow::Idle
            },
            Command::Nothing => Flow::Idle,
        }
    }

    /// Handles one event; a seed draws at random.
    pub fn handle(&mut self, evt: &Event) -> (r: Flow)
        requires
            old(self).inv(),
        ensures
            final(self).inv(),
            !old(self)@.quit && command_of(old(self)@.auto, *evt) == Command::Seed ==> exists|draws: Seq<bool>|
                draws.len() == old(self)@.world.width * old(self)@.world.height && final(self)@ == next(
                    old(self)@,
                    *evt,
                    draws,
                ),
            old(self)@.quit || command_of(old(self)@.auto, *evt) != Command::Seed ==> final(self)@ == next(
                old(self)@,
                *evt,
                Seq::empty(),
            ),
            r == (if old(self)@.quit {
                Flow::Quit
            } else {
                flow_of(command_of(old(self)@.auto, *evt))
            }),
    {
        if !self.quit && command_for(self.auto, evt) == Command::Seed {
            let draws = self.world.random_draws();
            self.handle_with(evt, &draws)
        } else {
            self.handle_with(evt, &Vec::new())
        }
    }

    /// Handles `events` in arrival order; each seed takes its draws from
    /// `draws`, which needs one draw per cell only when a `g` key is among
    /// them. Returns whether the loop has quit.
    pub fn run_with(&mut self, events: &Vec<Event>, draws: &Vec<bool>) -> (r: bool)
        requires
            old(self).inv(),
            events@.contains(Event::Input(Key::Char('g'))) ==> draws@.len() == old(self)@.world.width
                * old(self)@.world.height,
        ensures
            final(self).inv(),
            final(self)@ == run(old(self)@, events@, draws@),
            r == final(self)@.quit,
    {
        let ghost start = self@;
        let mut i: usize = 0;
        proof {
            assert(events@.take(0) =~= Seq::<Event>::empty());
        }
        while i < events.len()
            invariant
                self.inv(),
                i <= events@.len(),
                self@.world.width == start.world.width,
                self@.world.height == start.world.height,
                events@.contains(Event::Input(Key::Char('g'))) ==> draws@.len() == start.world.width
                    * start.world.height,
                self@ == run(start, events@.take(i as int), draws@),
            decreases events.len() - i,
        {
            proof {
                if command_of(self@.auto, events@[i as int]) == Command::Seed {
                    assert(events@.contains(Event::Input(Key::Char('g'))));
                }
            }
            self.handle_with(&events[i], draws);
            proof {
                assert(events@.take(i + 1).drop_last() =~= events@.take(i as int));
            }
            i = i + 1;
        }
        proof {
            assert(events@.take(events@.len() as int) =~= events@);
        }
        self.quit
    }
}

} // verus!
