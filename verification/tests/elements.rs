use bosing::absolute::{AbsoluteChild, OffsetError};
use bosing::element::{
    check_spacing, measure_repeat, merge_channel_ids, ElementError, OscInstruction, OscKind, Play,
};
use bosing::executor::{check_duration, play_plateau, Envelope, ExecError, OscState};
use bosing::fir::align_ceil;
use bosing::grid::helper::{GridHelper, NormalizedSpan};
use bosing::grid::{length_syntax, measure_grid, GridChild, GridLength, LengthSyntax, SpanError};
use bosing::iir::{iir_filter_inplace, Error};
use bosing::scalar::{Additive, Divisible, Ordered, Scalar, Ticks};
use bosing::schedule::{Alignment, CommonError, ElementCommonBuilder, TimeRange};
use bosing::util::pre_order_iter;
use bosing::wavegen::{
    check_channel_config, check_crosstalk_size, check_pulse_bounds, post_process_steps,
    ChannelConfigError, CrosstalkError, PostStep, PulseBoundsError,
};
use bosing::stack::{arrange_stack, measure_stack, StackChild};
use bosing::schedule::Direction;

const INF: Ticks = Ticks(i64::MAX);
const NEG_INF: Ticks = Ticks(i64::MIN);

#[test]
fn ticks_saturate_at_the_ends() {
    assert_eq!(Ticks(i64::MAX - 1).plus(Ticks(5)), INF);
    assert_eq!(Ticks(i64::MIN + 1).minus(Ticks(5)), NEG_INF);
    assert_eq!(Ticks(3).plus(Ticks(4)), Ticks(7));
    assert_eq!(Ticks(1 << 40).times(Ticks(1 << 40)), INF);
    assert_eq!(Ticks(-3).times(Ticks(4)), Ticks(-12));
    assert_eq!(NEG_INF.negate(), INF);
    assert!(!INF.is_finite());
    assert!(Ticks(0).is_finite());
    assert!(Ticks(-5).leq(Ticks(2)));
}

#[test]
fn ticks_divide_toward_zero() {
    assert_eq!(Ticks(7).div(Ticks(2)), Ticks(3));
    assert_eq!(Ticks(-7).div(Ticks(2)), Ticks(-3));
    assert_eq!(Ticks(7).div(Ticks(-2)), Ticks(-3));
    assert_eq!(Ticks(5).div(Ticks(0)), INF);
    assert_eq!(Ticks(-5).div(Ticks(0)), NEG_INF);
    assert_eq!(Ticks(0).div(Ticks(0)), Ticks(0));
    assert_eq!(NEG_INF.div(Ticks(-1)), INF);
    assert_eq!(Ticks::from_count(3), Ticks(3));
}

#[test]
fn align_ceil_rounds_up_to_multiples() {
    assert_eq!(align_ceil(10, 4), 12);
    assert_eq!(align_ceil(12, 4), 12);
    assert_eq!(align_ceil(0, 8), 0);
    assert_eq!(align_ceil(1, 1), 1);
}

#[test]
fn iir_filter_refuses_rows_without_six_values() {
    let mut signal = vec![vec![1i64, 2, 3]];
    let sos = vec![vec![1i64, 0, 0, 1, 0]];
    assert_eq!(iir_filter_inplace(&mut signal, &sos), Err(Error::InvalidSosFormat));
    assert_eq!(signal, vec![vec![1i64, 2, 3]]);
}

#[test]
fn iir_filter_with_unit_section_keeps_signal() {
    // b0 = 1, a0 = 1 and every other coefficient zero passes the signal on.
    let mut signal = vec![vec![1i64, 2, 3], vec![4, 5, 6]];
    let sos = vec![vec![1i64, 0, 0, 1, 0, 0]];
    assert_eq!(iir_filter_inplace(&mut signal, &sos), Ok(()));
    assert_eq!(signal, vec![vec![1i64, 2, 3], vec![4, 5, 6]]);
}

#[test]
fn iir_filter_delays_by_one_sample() {
    // y[n] = x[n - 1]: b1 = 1.
    let mut signal = vec![vec![1i64, 2, 3, 4]];
    let sos = vec![vec![0i64, 1, 0, 1, 0, 0]];
    assert_eq!(iir_filter_inplace(&mut signal, &sos), Ok(()));
    assert_eq!(signal, vec![vec![0i64, 1, 2, 3]]);
}

#[test]
fn osc_state_follows_frequency_and_phase() {
    let osc = OscState::new(Ticks(2));
    assert_eq!(osc.total_freq(), Ticks(2));
    assert_eq!(osc.phase_at(Ticks(3)), Ticks(6));
    let shifted = osc.with_time_shift(Ticks(3));
    assert_eq!(shifted.phase, Ticks(6));
    assert_eq!(shifted.base_freq, Ticks(2));
}

#[test]
fn osc_frequency_changes_keep_phase_at_change() {
    let mut osc = OscState::new(Ticks(1));
    let before = osc.phase_at(Ticks(3));
    osc.shift_freq(Ticks(2), Ticks(3));
    assert_eq!(osc.delta_freq, Ticks(2));
    assert_eq!(osc.phase, Ticks(-6));
    assert_eq!(osc.phase_at(Ticks(3)), before);

    let before = osc.phase_at(Ticks(5));
    osc.set_freq(Ticks(10), Ticks(5));
    assert_eq!(osc.delta_freq, Ticks(10));
    assert_eq!(osc.phase_at(Ticks(5)), before);
}

#[test]
fn osc_phase_instructions() {
    let mut osc = OscState { base_freq: Ticks(1), delta_freq: Ticks(2), phase: Ticks(0) };
    osc.shift_phase(Ticks(5));
    assert_eq!(osc.phase, Ticks(5));
    osc.set_phase(Ticks(7), Ticks(4));
    assert_eq!(osc.phase, Ticks(-1));
    // In the frame of the base frequency the phase at the time is the one set.
    assert_eq!(osc.phase_at(Ticks(4)).minus(osc.base_freq.times(Ticks(4))), Ticks(7));
}

#[test]
fn osc_swap_phase_exchanges_phases_at_time() {
    let mut a = OscState { base_freq: Ticks(3), delta_freq: Ticks(1), phase: Ticks(10) };
    let mut b = OscState { base_freq: Ticks(1), delta_freq: Ticks(0), phase: Ticks(-2) };
    let t = Ticks(5);
    let (pa, pb) = (a.phase_at(t), b.phase_at(t));
    a.swap_phase(&mut b, t);
    assert_eq!(a.phase_at(t), pb);
    assert_eq!(b.phase_at(t), pa);
    assert_eq!((a.base_freq, a.delta_freq), (Ticks(3), Ticks(1)));
}

#[test]
fn check_duration_uses_tolerance() {
    assert_eq!(check_duration(Ticks(10), Ticks(9), Ticks(1)), Ok(()));
    assert_eq!(
        check_duration(Ticks(10), Ticks(8), Ticks(1)),
        Err(ExecError::NotEnoughDuration { required: Ticks(10), available: Ticks(8) })
    );
}

#[test]
fn play_plateau_of_flexible_and_fixed_pulses() {
    assert_eq!(play_plateau(true, Ticks(100), Ticks(30), Ticks(5)), Ok(Ticks(70)));
    assert_eq!(play_plateau(false, Ticks(100), Ticks(30), Ticks(5)), Ok(Ticks(5)));
    assert_eq!(
        play_plateau(true, Ticks(20), Ticks(30), Ticks(5)),
        Err(ExecError::NegativePlateau(Ticks(-10)))
    );
}

#[test]
fn envelope_normal_form() {
    let e = Envelope::<u8, Ticks>::new(None, Ticks(10), Ticks(5));
    assert_eq!((*e.shape(), e.width(), e.plateau()), (None, Ticks(0), Ticks(15)));
    let e = Envelope::new(Some(1u8), Ticks(0), Ticks(5));
    assert_eq!((*e.shape(), e.width(), e.plateau()), (None, Ticks(0), Ticks(5)));
    let e = Envelope::new(Some(1u8), Ticks(10), Ticks(5));
    assert_eq!((*e.shape(), e.width(), e.plateau()), (Some(1u8), Ticks(10), Ticks(5)));
}

#[test]
fn play_checks_and_measure() {
    assert_eq!(
        Play::<u8, u8, Ticks>::new(0, None, INF, Ticks(1)).err(),
        Some(ElementError::InvalidAmplitude(INF))
    );
    assert_eq!(
        Play::<u8, u8, Ticks>::new(0, None, Ticks(1), Ticks(-1)).err(),
        Some(ElementError::InvalidWidth(Ticks(-1)))
    );
    let p = Play::<u8, u8, Ticks>::new(3, Some(7), Ticks(1), Ticks(10)).unwrap();
    assert_eq!(p.measure(), Ticks(10));
    let p = p.with_plateau(Ticks(20)).unwrap();
    assert_eq!(p.measure(), Ticks(30));
    let p = p.with_flexible(true);
    assert_eq!(p.measure(), Ticks(10));
    assert!(p.clone().with_plateau(Ticks(-1)).is_err());
    assert_eq!(p.clone().with_drag_coef(INF).err(), Some(ElementError::InvalidDragCoef(INF)));
    assert_eq!(p.clone().with_frequency(INF).err(), Some(ElementError::InvalidFrequency(INF)));
    assert_eq!(p.clone().with_phase(NEG_INF).err(), Some(ElementError::InvalidPhase(NEG_INF)));
    let p = p.with_phase(Ticks(4)).unwrap().with_frequency(Ticks(5)).unwrap();
    assert_eq!((p.phase(), p.frequency(), *p.channel_id(), *p.shape_id()), (Ticks(4), Ticks(5), 3, Some(7)));
}

#[test]
fn osc_instruction_checks_value() {
    let i = OscInstruction::new(OscKind::SetFreq, 2u8, Ticks(5)).unwrap();
    assert_eq!((i.kind, i.channel_id, i.value), (OscKind::SetFreq, 2, Ticks(5)));
    assert_eq!(
        OscInstruction::new(OscKind::ShiftPhase, 2u8, INF).err(),
        Some(ElementError::InvalidPhase(INF))
    );
    assert_eq!(
        OscInstruction::new(OscKind::ShiftFreq, 2u8, INF).err(),
        Some(ElementError::InvalidFrequency(INF))
    );
}

#[test]
fn repeat_measure_and_spacing() {
    assert_eq!(measure_repeat(0, Ticks(10), Ticks(3)), Ticks(0));
    assert_eq!(measure_repeat(1, Ticks(10), Ticks(3)), Ticks(10));
    assert_eq!(measure_repeat(4, Ticks(10), Ticks(3)), Ticks(49));
    assert_eq!(check_spacing(Ticks(2)), Ok(Ticks(2)));
    assert_eq!(check_spacing(INF), Err(ElementError::InvalidSpacing(INF)));
}

#[test]
fn merge_channel_ids_keeps_first_of_each() {
    let ids = vec![vec![2, 0], vec![0, 1, 2], vec![], vec![3, 3]];
    assert_eq!(merge_channel_ids(&ids), vec![2, 0, 1, 3]);
    assert_eq!(merge_channel_ids(&vec![]), Vec::<usize>::new());
}

#[test]
fn absolute_and_grid_entries() {
    let c = AbsoluteChild::new(Ticks(5));
    assert_eq!(c.offset, Ticks(0));
    assert_eq!(c.with_time(INF).err(), Some(OffsetError::InvalidTime(INF)));
    assert_eq!(c.with_time(Ticks(3)).unwrap().offset, Ticks(3));
    let g = GridChild::new(Ticks(5)).with_column(2);
    assert_eq!((g.column, g.span), (2, 1));
    assert_eq!(g.with_span(0).err(), Some(SpanError::ZeroSpan));
    assert_eq!(g.with_span(3).unwrap().span, 3);
}

#[test]
fn element_common_validation_errors() {
    let mut b = ElementCommonBuilder::<Ticks>::new();
    assert!(b.validate().is_ok());
    b.margin((INF, Ticks(0)));
    assert_eq!(b.validate(), Err(CommonError::InvalidMargin(INF, Ticks(0))));
    b.margin((Ticks(1), Ticks(2)));
    b.duration(Some(Ticks(-1)));
    assert_eq!(b.validate(), Err(CommonError::InvalidDuration(Ticks(-1))));
    b.duration(Some(Ticks(10)));
    b.min_duration(Ticks(-3));
    assert_eq!(b.validate(), Err(CommonError::InvalidMinDuration(Ticks(-3))));
    b.min_duration(Ticks(0));
    b.max_duration(Ticks(-4));
    assert_eq!(b.validate(), Err(CommonError::InvalidMaxDuration(Ticks(-4))));
    b.max_duration(INF);
    assert!(b.build().is_ok());
}

#[test]
fn element_common_measure_and_inner_range() {
    let mut b = ElementCommonBuilder::<Ticks>::new();
    b.margin((Ticks(1), Ticks(2))).alignment(Alignment::Center);
    b.min_duration(Ticks(5)).max_duration(Ticks(20));
    let c = b.build().unwrap();
    assert_eq!(c.alignment(), Alignment::Center);
    assert_eq!(c.total_margin(), Ticks(3));
    // The inner duration is clamped into the limits, then the margins added.
    assert_eq!(c.measure(Ticks(2)), Ticks(8));
    assert_eq!(c.measure(Ticks(30)), Ticks(23));
    let inner = c.inner_time_range(TimeRange { start: Ticks(100), span: Ticks(50) });
    assert_eq!((inner.start, inner.span), (Ticks(101), Ticks(20)));
    // A duration within the limits fixes the inner span.
    b.duration(Some(Ticks(7)));
    let c = b.build().unwrap();
    let inner = c.inner_time_range(TimeRange { start: Ticks(0), span: Ticks(50) });
    assert_eq!(inner.span, Ticks(7));
    // A negative margin never makes the measure negative.
    let mut b = ElementCommonBuilder::<Ticks>::new();
    b.margin((Ticks(-10), Ticks(0)));
    assert_eq!(b.build().unwrap().measure(Ticks(2)), Ticks(0));
}

#[test]
fn pre_order() {
    let node_children = vec![
        vec![1, 2, 3],
        vec![4, 5],
        vec![6, 7],
        vec![],
        vec![8, 9],
        vec![],
        vec![10, 11],
        vec![],
        vec![],
        vec![],
        vec![],
    ];
    let expected = vec![0, 1, 4, 8, 9, 5, 2, 6, 10, 11, 7, 3];

    let result = pre_order_iter(0, &node_children);

    assert_eq!(result, expected);
}

#[test]
fn pre_order_of_a_leaf_is_the_leaf() {
    assert_eq!(pre_order_iter(7, &vec![vec![1]]), vec![7]);
    assert_eq!(pre_order_iter(0, &vec![vec![]]), vec![0]);
}

#[test]
fn post_process_order_depends_on_filter_offset() {
    let (iq, offset, iir, fir) = (PostStep::Iq, PostStep::Offset, PostStep::Iir, PostStep::Fir);
    assert_eq!(post_process_steps(false, true, true, true, true, true), vec![iq, offset, iir, fir]);
    assert_eq!(post_process_steps(false, true, true, true, true, false), vec![iq, iir, fir, offset]);
    assert_eq!(post_process_steps(false, false, true, false, true, false), vec![fir, offset]);
    assert_eq!(post_process_steps(false, false, false, false, false, true), vec![]);
}

#[test]
fn real_channel_ignores_iq_matrix() {
    let (offset, iir, fir) = (PostStep::Offset, PostStep::Iir, PostStep::Fir);
    assert_eq!(post_process_steps(true, true, true, true, true, true), vec![offset, iir, fir]);
    assert_eq!(post_process_steps(true, true, false, false, false, false), vec![]);
    assert_eq!(check_channel_config(true, None), Ok(()));
}

#[test]
fn channel_config_checks() {
    assert_eq!(
        check_channel_config(true, Some(2)),
        Err(ChannelConfigError::OffsetLength { is_real: true, len: 2 })
    );
    assert_eq!(
        check_channel_config(false, Some(1)),
        Err(ChannelConfigError::OffsetLength { is_real: false, len: 1 })
    );
    assert_eq!(
        check_channel_config(true, Some(0)),
        Err(ChannelConfigError::OffsetLength { is_real: true, len: 0 })
    );
    assert_eq!(check_channel_config(false, Some(2)), Ok(()));
    assert_eq!(check_channel_config(true, Some(1)), Ok(()));
    assert_eq!(check_channel_config(false, None), Ok(()));
}

#[test]
fn arrange_repeat_places_copies() {
    let ranges = bosing::element::arrange_repeat(Ticks(100), 3, Ticks(10), Ticks(2));
    let starts: Vec<Ticks> = ranges.iter().map(|r| r.start).collect();
    assert_eq!(starts, vec![Ticks(100), Ticks(112), Ticks(124)]);
    assert!(ranges.iter().all(|r| r.span == Ticks(10)));
}

#[test]
fn pulse_bounds_checks() {
    assert_eq!(check_pulse_bounds(3, 5, 10), Ok(()));
    assert_eq!(check_pulse_bounds(3, 7, 10), Ok(()));
    assert_eq!(
        check_pulse_bounds(3, 8, 10),
        Err(PulseBoundsError::EndOutOfBounds { start: 3, pulse_len: 8, length: 10 })
    );
    assert_eq!(
        check_pulse_bounds(10, 0, 10),
        Err(PulseBoundsError::StartOutOfBounds { start: 10, length: 10 })
    );
}

#[test]
fn margins_do_not_collapse() {
    // Two elements with margins of 10 and 20 placed one after the other in
    // a stack leave 30 between their contents.
    let mut a = ElementCommonBuilder::<Ticks>::new();
    a.margin((Ticks(0), Ticks(10)));
    let a = a.build().unwrap();
    let mut b = ElementCommonBuilder::<Ticks>::new();
    b.margin((Ticks(20), Ticks(0)));
    let b = b.build().unwrap();
    let children = vec![
        StackChild { span: a.measure(Ticks(5)), channels: vec![] },
        StackChild { span: b.measure(Ticks(5)), channels: vec![] },
    ];
    let (total, timings) = measure_stack(&children, 0, Direction::Forward);
    assert_eq!(total, Ticks(40));
    let ranges = arrange_stack(TimeRange { start: Ticks(0), span: total }, &timings, Direction::Forward);
    let inner_a = a.inner_time_range(ranges[0]);
    let inner_b = b.inner_time_range(ranges[1]);
    assert_eq!(inner_b.start.0 - (inner_a.start.0 + inner_a.span.0), 30);
}

#[test]
fn grid_length_text_forms() {
    assert_eq!(length_syntax(b"auto"), LengthSyntax::Auto);
    assert_eq!(length_syntax(b"*"), LengthSyntax::UnitStar);
    assert_eq!(length_syntax(b"2.5*"), LengthSyntax::Star);
    assert_eq!(length_syntax(b"10"), LengthSyntax::Fixed);
    assert_eq!(length_syntax(b""), LengthSyntax::Fixed);
    assert_eq!(length_syntax(b"autos"), LengthSyntax::Fixed);
}

#[test]
fn crosstalk_matrix_must_match_names() {
    assert_eq!(check_crosstalk_size(2, 2, 2), Ok(()));
    assert_eq!(check_crosstalk_size(0, 0, 0), Ok(()));
    assert_eq!(
        check_crosstalk_size(2, 3, 2),
        Err(CrosstalkError::SizeMismatch { rows: 2, cols: 3, names: 2 })
    );
    assert_eq!(
        check_crosstalk_size(3, 3, 2),
        Err(CrosstalkError::SizeMismatch { rows: 3, cols: 3, names: 2 })
    );
}

#[test]
fn star_columns_rise_to_one_level() {
    // Sizes per star 10, 0, 0: the two empty columns rise to level 4
    // (4 * 2 and 4 * 1); the first stays above the level.
    let columns = [GridLength::Star(Ticks(1)), GridLength::Star(Ticks(2)), GridLength::Star(Ticks(1))];
    let mut helper = GridHelper::new_with_column_sizes(&columns, vec![Ticks(10), Ticks(0), Ticks(0)]);
    assert!(helper.expand_span_by_star_ratio(NormalizedSpan::new(0, 3), Ticks(12)));
    assert_eq!(helper.into_column_sizes(), vec![Ticks(10), Ticks(8), Ticks(4)]);
}

#[test]
fn single_column_children_fit_their_columns() {
    let columns = [GridLength::Auto, GridLength::Fixed(Ticks(5)), GridLength::Star(Ticks(1))];
    let children = [
        GridChild::new(Ticks(7)),
        GridChild::new(Ticks(9)).with_column(1),
        GridChild::new(Ticks(3)).with_column(2),
        GridChild::new(Ticks(4)).with_column(0),
    ];
    let m = measure_grid(&children, &columns);
    assert_eq!(m.column_sizes, vec![Ticks(7), Ticks(5), Ticks(3)]);
    assert_eq!(m.total_duration, Ticks(15));
}

#[test]
fn star_rounding_can_shrink_a_column() {
    // Sizes per star are rounded toward zero: the first column's 5 ticks
    // over 2 stars count as 2 per star, so sharing the missing 2 ticks
    // brings both columns to 2 per star and the first column to 4.
    let columns = [GridLength::Star(Ticks(2)), GridLength::Star(Ticks(1))];
    let children = [GridChild::new(Ticks(5)), GridChild { duration: Ticks(7), column: 0, span: 2 }];
    let m = measure_grid(&children, &columns);
    assert_eq!(m.column_sizes, vec![Ticks(4), Ticks(2)]);
}

#[test]
fn auto_spans_keep_single_children_fitting() {
    let columns = [GridLength::Auto, GridLength::Auto, GridLength::Star(Ticks(1))];
    let children = [
        GridChild::new(Ticks(5)),
        GridChild { duration: Ticks(12), column: 0, span: 2 },
        GridChild::new(Ticks(3)).with_column(2),
    ];
    let m = measure_grid(&children, &columns);
    assert_eq!(m.column_sizes, vec![Ticks(8), Ticks(3), Ticks(3)]);
}

#[test]
fn star_growth_loses_less_than_one_tick_per_star() {
    // Ten ticks over three single stars: each column reaches 3, so the run
    // grows by 9, short of 10 by less than its 3 stars.
    let columns = [GridLength::Star(Ticks(1)), GridLength::Star(Ticks(1)), GridLength::Star(Ticks(1))];
    let mut helper = GridHelper::new_with_column_sizes(&columns, vec![Ticks(0), Ticks(0), Ticks(0)]);
    assert!(helper.expand_span_by_star_ratio(NormalizedSpan::new(0, 3), Ticks(10)));
    assert_eq!(helper.into_column_sizes(), vec![Ticks(3), Ticks(3), Ticks(3)]);
}
