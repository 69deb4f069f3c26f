use bosing::element::{OscInstruction, OscKind, Play};
use bosing::executor::OscState;
use bosing::grid::GridLength;
use bosing::runner::{RunConfig, RunError, Runner};
use bosing::scalar::Ticks;
use bosing::schedule::{Alignment, Direction, ElementCommon, ElementCommonBuilder};
use bosing::tree::{AbsoluteEntry, Element, GridEntry, Variant};

fn common() -> ElementCommon<Ticks> {
    ElementCommonBuilder::new().build().unwrap()
}

fn el(variant: Variant<Ticks>) -> Element<Ticks> {
    Element { common: common(), variant }
}

fn play(ch: usize, width: i64) -> Element<Ticks> {
    el(Variant::Play(Play::new(ch, None, Ticks(1), Ticks(width)).unwrap()))
}

fn runner(n_channels: usize) -> Runner<Ticks> {
    let oscs = (0..n_channels).map(|i| OscState::new(Ticks(i as i64 + 1))).collect();
    Runner::new(RunConfig { n_shapes: 1, time_tolerance: Ticks(0), allow_oversize: false }, oscs)
}

#[test]
fn stack_places_children_on_their_channels() {
    let root = el(Variant::Stack(
        vec![play(0, 10), play(1, 20), el(Variant::Barrier(vec![])), play(0, 5)],
        Direction::Forward,
    ));
    assert_eq!(root.measure(), Ticks(25));
    assert_eq!(root.channels(), vec![0, 1]);
    let mut r = runner(2);
    assert_eq!(r.execute(&root), Ok(()));
    let events = r.into_events();
    let times: Vec<(usize, Ticks)> = events.iter().map(|e| (e.channel, e.time)).collect();
    assert_eq!(times, vec![(0, Ticks(0)), (1, Ticks(0)), (0, Ticks(20))]);
    // A pulse without shape is all plateau.
    assert_eq!(events[0].envelope.plateau(), Ticks(10));
    assert_eq!(events[0].envelope.width(), Ticks(0));
}

#[test]
fn backward_stack_places_children_late() {
    let root = el(Variant::Stack(vec![play(0, 10), play(1, 20)], Direction::Backward));
    let mut r = runner(2);
    assert_eq!(r.execute(&root), Ok(()));
    let times: Vec<Ticks> = r.into_events().iter().map(|e| e.time).collect();
    assert_eq!(times, vec![Ticks(10), Ticks(0)]);
}

#[test]
fn frequency_change_reaches_later_pulses() {
    let set = el(Variant::Osc(OscInstruction::new(OscKind::SetFreq, 0, Ticks(5)).unwrap()));
    let root = el(Variant::Stack(vec![play(0, 10), set, play(0, 10)], Direction::Forward));
    let mut r = runner(1);
    assert_eq!(r.execute(&root), Ok(()));
    let state = r.states()[0];
    assert_eq!(state.delta_freq, Ticks(5));
    // The phase at the time of the change does not jump.
    assert_eq!(state.phase, Ticks(-50));
    let events = r.into_events();
    assert_eq!(events[0].global_freq, Ticks(1));
    assert_eq!(events[1].global_freq, Ticks(6));
    assert_eq!(events[1].time, Ticks(10));
}

#[test]
fn phantom_element_adds_nothing() {
    let mut b = ElementCommonBuilder::new();
    b.phantom(true);
    let ghost = Element { common: b.build().unwrap(), variant: Variant::Play(Play::new(0, None, Ticks(1), Ticks(7)).unwrap()) };
    let root = el(Variant::Stack(vec![ghost, play(0, 10)], Direction::Forward));
    // The phantom still takes its place in the layout.
    assert_eq!(root.measure(), Ticks(17));
    let mut r = runner(1);
    assert_eq!(r.execute(&root), Ok(()));
    let events = r.into_events();
    assert_eq!(events.len(), 1);
    assert_eq!(events[0].time, Ticks(7));
}

#[test]
fn swap_phase_and_repeat() {
    let swap = el(Variant::SwapPhase(0, 1));
    let rep = el(Variant::Repeat(Box::new(play(0, 10)), 3, Ticks(2)));
    assert_eq!(rep.measure(), Ticks(34));
    let root = el(Variant::Stack(vec![rep, swap], Direction::Forward));
    let mut r = runner(2);
    assert_eq!(r.execute(&root), Ok(()));
    let states = r.states().clone();
    // At time 34, channel 0 turns at 1 and channel 1 at 2.
    assert_eq!(states[0].phase.0 + 34, 2 * 34);
    assert_eq!(states[1].phase.0 + 2 * 34, 34);
    let times: Vec<Ticks> = r.into_events().iter().map(|e| e.time).collect();
    assert_eq!(times, vec![Ticks(0), Ticks(12), Ticks(24)]);
}

#[test]
fn absolute_and_grid_children() {
    let abs = el(Variant::Absolute(vec![
        AbsoluteEntry { time: Ticks(5), element: play(0, 10) },
        AbsoluteEntry { time: Ticks(0), element: play(1, 3) },
    ]));
    assert_eq!(abs.measure(), Ticks(15));
    let mut centered = play(1, 4);
    let mut b = ElementCommonBuilder::new();
    b.alignment(Alignment::Center);
    centered.common = b.build().unwrap();
    let grid = el(Variant::Grid(
        vec![
            GridEntry { element: play(0, 10), column: 0, span: 1 },
            GridEntry { element: centered, column: 1, span: 1 },
        ],
        vec![GridLength::Auto, GridLength::Fixed(Ticks(20))],
    ));
    assert_eq!(grid.measure(), Ticks(30));
    let root = el(Variant::Stack(vec![abs, grid], Direction::Forward));
    let mut r = runner(2);
    assert_eq!(r.execute(&root), Ok(()));
    let times: Vec<(usize, Ticks)> = r.into_events().iter().map(|e| (e.channel, e.time)).collect();
    assert_eq!(times, vec![(0, Ticks(5)), (1, Ticks(0)), (0, Ticks(15)), (1, Ticks(33))]);
}

#[test]
fn run_errors() {
    let mut r = runner(1);
    assert_eq!(r.execute(&play(3, 10)), Err(RunError::ChannelNotFound(3)));

    let shaped = el(Variant::Play(Play::new(0, Some(4), Ticks(1), Ticks(10)).unwrap()));
    assert_eq!(runner(1).execute(&shaped), Err(RunError::ShapeNotFound(4)));

    let swap = el(Variant::SwapPhase(0, 2));
    assert_eq!(runner(1).execute(&swap), Err(RunError::ChannelPairNotFound(0, 2)));
    assert_eq!(runner(1).execute(&el(Variant::SwapPhase(2, 2))), Ok(()));

    // A pulse longer than its element may be refuses to run.
    let mut b = ElementCommonBuilder::new();
    b.max_duration(Ticks(5));
    let short = Element { common: b.build().unwrap(), variant: play(0, 10).variant };
    assert_eq!(
        runner(1).execute(&short),
        Err(RunError::NotEnoughDuration { required: Ticks(10), available: Ticks(5) })
    );

    // A flexible pulse whose edges do not fit has a negative plateau.
    let mut b = ElementCommonBuilder::new();
    b.duration(Some(Ticks(4)));
    let flexible = Play::new(0, None, Ticks(1), Ticks(10)).unwrap().with_flexible(true);
    let tight = Element { common: b.build().unwrap(), variant: Variant::Play(flexible) };
    let mut r = Runner::new(
        RunConfig { n_shapes: 0, time_tolerance: Ticks(0), allow_oversize: true },
        vec![OscState::new(Ticks(1))],
    );
    assert_eq!(r.execute(&tight), Err(RunError::NegativePlateau(Ticks(-6))));
}
