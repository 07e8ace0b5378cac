use taktora::fieldbus::{
    encode_state, step_state, Controlwords, CycleQuality, DriveState, MockCyclicFieldbus, MockDrive, MockRouting,
    BYTES_PER_AXIS,
};
use taktora::motion::{AxisState, CommandKind, MotionError, Phase, TokenState};
use taktora::nc::{fault_reaction, Intake, TokenLedger};
use taktora::scale::Unwrapper;
use taktora::topology::CouplingTopology;

fn graph() -> CouplingTopology<8> {
    let mut t = CouplingTopology::new();
    t.add_edge(0, 1);
    t.add_edge(0, 2);
    t.add_edge(1, 3);
    t.precompute();
    t
}

#[test]
fn downstream_is_transitive() {
    let t = graph();
    let mut ds = t.downstream(0);
    ds.sort_unstable();
    assert_eq!(ds, vec![1, 2, 3]);
    assert_eq!(t.downstream(4), Vec::<u16>::new());
}

#[test]
fn fault_set_intersects_engaged_edges() {
    let mut t = graph();
    t.set_engaged(0, 1, true);
    let mut s = t.engaged_downstream(0);
    s.sort_unstable();
    assert_eq!(s, vec![1]);
}

#[test]
fn disengaging_an_edge_removes_it_from_the_fault_set() {
    let mut t = graph();
    t.set_engaged(0, 1, true);
    t.set_engaged(1, 3, true);
    assert_eq!(t.engaged_downstream(0), vec![1, 3]);
    t.set_engaged(1, 3, false);
    assert_eq!(t.engaged_downstream(0), vec![1]);
    assert!(t.declared_edge(1, 3));
    assert!(!t.declared_edge(3, 1));
}

#[test]
fn unwrap_is_continuous_across_rollover() {
    let mut u = Unwrapper::default();
    assert_eq!(u.update(i32::MAX - 1), (i32::MAX - 1) as i64);
    let acc = u.update(i32::MIN + 2);
    assert_eq!(acc, (i32::MAX - 1) as i64 + 4);
}

#[test]
fn unwrap_follows_backward_rollover() {
    let mut u = Unwrapper::default();
    assert_eq!(u.update(i32::MIN + 1), (i32::MIN + 1) as i64);
    assert_eq!(u.update(i32::MAX), (i32::MIN + 1) as i64 - 2);
}

fn pos(order: &[usize], a: usize) -> usize {
    order.iter().position(|&x| x == a).expect("axis in order")
}

#[test]
fn out_of_index_order_edge_ticks_master_before_slave() {
    let mut t = CouplingTopology::<2>::new();
    t.add_edge(1, 0);
    t.precompute();
    let order = t.tick_order();
    assert!(pos(&order, 1) < pos(&order, 0), "master 1 must tick before slave 0, got {order:?}");
}

#[test]
fn chain_orders_master_before_slave_transitively() {
    let mut t = CouplingTopology::<3>::new();
    t.add_edge(2, 0);
    t.add_edge(0, 1);
    t.precompute();
    let order = t.tick_order();
    assert!(pos(&order, 2) < pos(&order, 0), "2 before 0, got {order:?}");
    assert!(pos(&order, 0) < pos(&order, 1), "0 before 1, got {order:?}");
}

#[test]
fn tick_order_takes_the_lowest_ready_axis_first() {
    let mut t = CouplingTopology::<4>::new();
    t.add_edge(3, 0);
    assert_eq!(t.tick_order(), vec![1, 2, 3, 0]);
    let plain = CouplingTopology::<3>::new();
    assert_eq!(plain.tick_order(), vec![0, 1, 2]);
}

#[test]
fn a_cyclic_topology_falls_back_to_identity_order() {
    let mut t = CouplingTopology::<3>::new();
    t.add_edge(2, 1);
    t.add_edge(1, 2);
    assert_eq!(t.tick_order(), vec![0, 1, 2]);
    let mut s = CouplingTopology::<2>::new();
    s.add_edge(1, 1);
    s.add_edge(1, 0);
    assert_eq!(s.tick_order(), vec![1, 0]);
}

#[test]
fn direct_master_is_the_lowest_declared_one() {
    let mut t = CouplingTopology::<4>::new();
    t.add_edge(2, 3);
    t.add_edge(1, 3);
    t.add_edge(0, 0);
    assert_eq!(t.direct_masters(), vec![None, None, None, Some(1)]);
}

#[test]
fn mock_bus_starts_switch_on_disabled() {
    let bus = MockCyclicFieldbus::new(2);
    let drive = MockDrive::for_axis(1);
    let sw = bus.with_image(|img| drive.statusword(img));
    assert_eq!(sw, 0x0250);
    let cw = bus.with_image(|img| drive.controlword(img));
    assert_eq!(cw, 0);
    assert_eq!(bus.with_image(|img| img.len()), 2 * BYTES_PER_AXIS);
}

#[test]
fn mock_drive_reads_back_what_it_writes() {
    let mut img = vec![0u8; 2 * BYTES_PER_AXIS];
    let drive = MockDrive::for_axis(1);
    drive.set_controlword(&mut img, 0x000F);
    drive.set_mode(&mut img, 8);
    drive.set_target_position(&mut img, -5);
    drive.set_statusword(&mut img, 0x0237);
    assert_eq!(drive.controlword(&img), 0x000F);
    assert_eq!(img[BYTES_PER_AXIS + 2], 8);
    assert_eq!(drive.target_position(&img), -5);
    assert_eq!(&img[BYTES_PER_AXIS + 3..BYTES_PER_AXIS + 7], &(-5i32).to_le_bytes());
    assert_eq!(drive.statusword(&img), 0x0237);
    img[BYTES_PER_AXIS + 9..BYTES_PER_AXIS + 13].copy_from_slice(&i32::MIN.to_le_bytes());
    assert_eq!(drive.actual_position(&img), i32::MIN);
    assert!(img[..BYTES_PER_AXIS].iter().all(|b| *b == 0));
    let routing = MockRouting { axis: 1 };
    assert_eq!(routing.axis, 1);
}

#[test]
fn fault_and_stale_injection_toggle_per_axis() {
    let mut bus = MockCyclicFieldbus::new(3);
    bus.inject_fault(1);
    bus.inject_stale(2, true);
    bus.clear_fault(1);
    bus.inject_stale(2, false);
    let sw = bus.with_image(|img| MockDrive::for_axis(2).statusword(img));
    assert_eq!(sw, 0x0250);
}

#[test]
fn motion_vocabulary_is_plain_data() {
    assert_ne!(CommandKind::GearIn, CommandKind::CamIn);
    assert_ne!(TokenState::Done, TokenState::Aborted);
    assert_eq!(Phase::Waiting, Phase::Waiting);
    assert_eq!(MotionError::InvalidMaster.message(), "coupling master index is invalid or not upstream");
    assert_eq!(MotionError::NonPositiveLimit.message(), "kinematic limit must be strictly positive");
}

const CW: Controlwords = Controlwords { shutdown: 0x0006, switch_on: 0x0007, enable_operation: 0x000F, fault_reset: 0x0080 };

const ALL_STATES: [DriveState; 8] = [
    DriveState::NotReadyToSwitchOn,
    DriveState::SwitchOnDisabled,
    DriveState::ReadyToSwitchOn,
    DriveState::SwitchedOn,
    DriveState::OperationEnabled,
    DriveState::QuickStopActive,
    DriveState::FaultReactionActive,
    DriveState::Fault,
];

fn decode(sw: u16) -> DriveState {
    ALL_STATES.iter().copied().find(|s| encode_state(*s) == sw).expect("a statusword the mock reports")
}

/// The controlword that walks a drive toward `OperationEnabled`.
fn power_walk(sw: u16) -> u16 {
    match decode(sw) {
        DriveState::Fault => CW.fault_reset,
        DriveState::SwitchOnDisabled => CW.shutdown,
        DriveState::ReadyToSwitchOn => CW.switch_on,
        _ => CW.enable_operation,
    }
}

fn exchange(bus: &mut MockCyclicFieldbus, n: usize) -> CycleQuality {
    let decoded: Vec<DriveState> =
        (0..n).map(|a| decode(bus.with_image(|img| MockDrive::for_axis(a as u16).statusword(img)))).collect();
    bus.exchange(&decoded, CW)
}

#[test]
fn virtual_drive_powers_on_and_follows_target() {
    let mut bus = MockCyclicFieldbus::new(1);
    let drive = MockDrive::for_axis(0);
    let mut sw = 0x0250;
    for _ in 0..10 {
        let cw_out = power_walk(sw);
        bus.with_image_mut(|img| drive.set_controlword(img, cw_out));
        exchange(&mut bus, 1);
        sw = bus.with_image(|img| drive.statusword(img));
        if decode(sw) == DriveState::OperationEnabled {
            break;
        }
    }
    assert_eq!(decode(sw), DriveState::OperationEnabled);

    bus.with_image_mut(|img| drive.set_target_position(img, 5000));
    exchange(&mut bus, 1);
    let actual = bus.with_image(|img| drive.actual_position(img));
    assert_eq!(actual, 5000);
}

#[test]
fn fault_injection_sets_fault_bit_and_stale() {
    let mut bus = MockCyclicFieldbus::new(1);
    bus.inject_fault(0);
    exchange(&mut bus, 1);
    let drive = MockDrive::for_axis(0);
    assert_eq!(decode(bus.with_image(|i| drive.statusword(i))), DriveState::Fault);
    bus.inject_stale(0, true);
    let q = exchange(&mut bus, 1);
    assert!(!q.all_devices_fresh);
}

#[test]
fn clear_fault_lets_a_faulted_drive_recover() {
    let mut bus = MockCyclicFieldbus::new(1);
    let drive = MockDrive::for_axis(0);

    bus.inject_fault(0);
    for _ in 0..4 {
        exchange(&mut bus, 1);
    }
    assert_eq!(decode(bus.with_image(|i| drive.statusword(i))), DriveState::Fault, "injected fault is latched");

    bus.clear_fault(0);
    let mut sw = bus.with_image(|i| drive.statusword(i));
    for _ in 0..12 {
        let cw_out = power_walk(sw);
        bus.with_image_mut(|img| drive.set_controlword(img, cw_out));
        exchange(&mut bus, 1);
        sw = bus.with_image(|i| drive.statusword(i));
        if decode(sw) == DriveState::OperationEnabled {
            break;
        }
    }
    assert_eq!(decode(sw), DriveState::OperationEnabled, "after clear_fault the drive recovers to OperationEnabled");
}

#[test]
fn exchange_counts_cycles_and_reports_freshness() {
    let mut bus = MockCyclicFieldbus::new(2);
    let q0 = exchange(&mut bus, 2);
    assert_eq!(q0, CycleQuality { cycle_index: 0, all_devices_fresh: true });
    bus.inject_stale(1, true);
    let q1 = exchange(&mut bus, 2);
    assert_eq!(q1, CycleQuality { cycle_index: 1, all_devices_fresh: false });
}

#[test]
fn a_stale_drive_keeps_its_state_through_an_exchange() {
    let mut bus = MockCyclicFieldbus::new(2);
    bus.inject_stale(1, true);
    bus.with_image_mut(|img| {
        MockDrive::for_axis(0).set_controlword(img, CW.shutdown);
        MockDrive::for_axis(1).set_controlword(img, CW.shutdown);
    });
    exchange(&mut bus, 2);
    assert_eq!(bus.with_image(|i| MockDrive::for_axis(0).statusword(i)), 0x0231);
    assert_eq!(bus.with_image(|i| MockDrive::for_axis(1).statusword(i)), 0x0250);
}

#[test]
fn a_drive_not_enabled_does_not_follow_its_target() {
    let mut bus = MockCyclicFieldbus::new(1);
    let drive = MockDrive::for_axis(0);
    bus.with_image_mut(|img| drive.set_target_position(img, 77));
    exchange(&mut bus, 1);
    assert_eq!(bus.with_image(|i| drive.actual_position(i)), 0);
    assert_eq!(bus.with_image(|i| drive.statusword(i)), 0x0250);
}

#[test]
fn power_handshake_steps_one_state_per_matching_word() {
    assert_eq!(step_state(DriveState::SwitchOnDisabled, CW.shutdown, CW), DriveState::ReadyToSwitchOn);
    assert_eq!(step_state(DriveState::ReadyToSwitchOn, CW.switch_on, CW), DriveState::SwitchedOn);
    assert_eq!(step_state(DriveState::SwitchedOn, CW.enable_operation, CW), DriveState::OperationEnabled);
    assert_eq!(step_state(DriveState::Fault, CW.fault_reset, CW), DriveState::SwitchOnDisabled);
    assert_eq!(step_state(DriveState::SwitchOnDisabled, CW.enable_operation, CW), DriveState::SwitchOnDisabled);
    assert_eq!(step_state(DriveState::QuickStopActive, CW.shutdown, CW), DriveState::QuickStopActive);
    assert_eq!(encode_state(DriveState::QuickStopActive), 0x0207);
    assert_eq!(encode_state(DriveState::FaultReactionActive), 0x020F);
    assert_eq!(encode_state(DriveState::NotReadyToSwitchOn), 0x0000);
}

#[test]
fn inputs_and_outputs_move_through_the_routing() {
    let mut bus = MockCyclicFieldbus::new(2);
    let r = MockRouting { axis: 1 };
    bus.write_output(&r, &[0x0F, 0x00, 8, 0x10, 0x27, 0, 0, 0xAA]);
    let drive = MockDrive::for_axis(1);
    assert_eq!(bus.with_image(|i| drive.controlword(i)), 0x000F);
    assert_eq!(bus.with_image(|i| drive.target_position(i)), 10000);
    assert_eq!(bus.with_image(|i| i[BYTES_PER_AXIS + 7]), 0x50);
    assert!(bus.with_image(|i| i[..7].iter().all(|b| *b == 0)));
    let mut dst = [9u8; 8];
    assert!(bus.read_input(&r, &mut dst));
    assert_eq!(dst, [0x50, 0x02, 0, 0, 0, 0, 9, 9]);
    bus.inject_stale(1, true);
    assert!(!bus.read_input(&r, &mut dst));
}

fn command(l: &mut TokenLedger, token: u32, kind: CommandKind, feasible: bool) -> Intake {
    let r = l.intake(token, kind);
    if r == Intake::Proceed {
        l.settle(kind, feasible);
    }
    r
}

#[test]
fn ledger_latches_tokens_aborts_the_active_one_and_rejects_infeasible() {
    let mut l = TokenLedger::new();
    assert_eq!(command(&mut l, 1, CommandKind::MoveVelocity, true), Intake::Proceed);
    assert_eq!((l.last_token(), l.token_state()), (1, TokenState::Active));
    assert_eq!(command(&mut l, 2, CommandKind::Stop, true), Intake::Proceed);
    assert_eq!((l.last_token(), l.token_state()), (2, TokenState::Active));
    assert_eq!(l.last_aborted_token(), Some(1));
    assert_eq!(command(&mut l, 3, CommandKind::FlyingSaw, true), Intake::Proceed);
    assert_eq!((l.last_token(), l.token_state()), (3, TokenState::Error));
    assert!(!l.error_stop());
    assert_eq!(l.published_state(true, AxisState::ContinuousMotion), AxisState::ContinuousMotion);
}

#[test]
fn ledger_ignores_a_repeated_token() {
    let mut l = TokenLedger::new();
    assert_eq!(command(&mut l, 0, CommandKind::Power, true), Intake::Proceed);
    assert_eq!(l.token_state(), TokenState::Active);
    assert_eq!(command(&mut l, 0, CommandKind::CamIn, true), Intake::Ignore);
    assert_eq!(l.token_state(), TokenState::Active);
    assert_eq!(l.last_aborted_token(), None);
}

#[test]
fn ledger_completes_a_finite_move_at_standstill_only() {
    let mut l = TokenLedger::new();
    command(&mut l, 5, CommandKind::MoveAbsolute, true);
    l.complete(false);
    assert_eq!(l.token_state(), TokenState::Active);
    l.complete(true);
    assert_eq!(l.token_state(), TokenState::Done);
    command(&mut l, 6, CommandKind::MoveVelocity, true);
    l.complete(true);
    assert_eq!(l.token_state(), TokenState::Active);
    assert_eq!(l.last_aborted_token(), None);
    command(&mut l, 7, CommandKind::MoveRelative, false);
    assert_eq!(l.token_state(), TokenState::Error);
    assert_eq!(l.last_aborted_token(), Some(6));
}

#[test]
fn ledger_latched_axis_accepts_only_power_and_reset() {
    let mut l = TokenLedger::new();
    command(&mut l, 1, CommandKind::MoveVelocity, true);
    l.force_error_stop();
    assert_eq!(l.published_state(true, AxisState::ContinuousMotion), AxisState::ErrorStop);
    assert_eq!(command(&mut l, 2, CommandKind::MoveVelocity, true), Intake::Rejected);
    assert_eq!(l.token_state(), TokenState::Error);
    assert!(l.error_stop());
    assert_eq!(command(&mut l, 3, CommandKind::Reset, true), Intake::Proceed);
    assert!(!l.error_stop());
    assert_eq!(l.token_state(), TokenState::Active);
    assert_eq!(l.published_state(false, AxisState::Standstill), AxisState::Disabled);
}

#[test]
fn gear_in_without_a_master_is_an_error() {
    let mut l = TokenLedger::new();
    command(&mut l, 1, CommandKind::GearIn, false);
    assert_eq!(l.token_state(), TokenState::Error);
    command(&mut l, 2, CommandKind::GearIn, true);
    assert_eq!(l.token_state(), TokenState::Active);
    l.rearm();
    assert!(!l.error_stop());
}

#[test]
fn engaged_fault_reaches_only_the_engaged_subtree() {
    let mut t = CouplingTopology::<3>::new();
    t.add_edge(0, 1);
    t.add_edge(0, 2);
    t.set_engaged(0, 1, true);
    t.precompute();
    let (stop, quick) = fault_reaction(&t, &[true, false, false]);
    assert_eq!(stop, vec![true, true, false]);
    assert_eq!(quick, vec![false, true, false]);
    let (stop, quick) = fault_reaction(&t, &[false, false, true]);
    assert_eq!(stop, vec![false, false, true]);
    assert_eq!(quick, vec![false, false, false]);
}

#[test]
fn engaged_subtree_lies_within_the_declared_downstream() {
    let mut t = graph();
    t.set_engaged(0, 1, true);
    t.set_engaged(1, 3, true);
    let down = t.downstream(0);
    for s in t.engaged_downstream(0) {
        assert!(down.contains(&s), "{s} engaged but not downstream");
    }
    assert_eq!(t.engaged_downstream(1), vec![3]);
}
