use puremagic::node::NodeType;
use puremagic::scheduler::{LcycleReport, ScheduleStats};

#[test]
fn schedule_stats_new_starts_at_zero() {
    let s = ScheduleStats::new(4, 10, 3);
    assert_eq!((s.data_qubits, s.bus_qubits, s.magic_qubits), (4, 10, 3));
    assert_eq!(s.sum_data_scheduled + s.sum_bus_scheduled + s.sum_magic_scheduled, 0);
    assert_eq!(s.get_plot_info_str(), "");
}

#[test]
fn update_adds_lcycle_counts_to_sums_and_resets_them() {
    let mut s = ScheduleStats::new(4, 10, 3);
    s.inc(NodeType::Data);
    s.inc(NodeType::Data);
    s.inc(NodeType::Bus);
    s.inc_with_cultivation(NodeType::Magic, 0);
    s.inc_with_cultivation(NodeType::Magic, 2);
    s.inc_t();
    let r = s.update(7, 3, 5, 2, 1);
    assert_eq!(
        r,
        LcycleReport {
            lcycle: 7,
            products_scheduled: 3,
            products_available: 5,
            qubits_used: 5,
            qubits_total: 17,
            magic_used: 1,
            magic_available: 2,
        }
    );
    assert_eq!(s.sum_data_scheduled, 2);
    assert_eq!(s.sum_bus_scheduled, 1);
    assert_eq!(s.sum_magic_scheduled, 2);
    assert_eq!(s.sum_magic_unused, 1);
    assert_eq!((s.data_scheduled, s.bus_scheduled, s.magic_scheduled, s.t_scheduled, s.magic_ready_used), (0, 0, 0, 0, 0));
    let r2 = s.update(8, 0, 0, 0, 0);
    assert_eq!(r2.qubits_used, 0);
    assert_eq!(s.sum_data_scheduled, 2);
}

#[test]
fn magic_available_leaves_out_routing_only_magic() {
    let mut s = ScheduleStats::new(1, 1, 6);
    // Three ready magic nodes used, one of them by a T product.
    s.inc_with_cultivation(NodeType::Magic, 0);
    s.inc_with_cultivation(NodeType::Magic, 0);
    s.inc_with_cultivation(NodeType::Magic, 0);
    s.inc_t();
    let r = s.update(0, 1, 1, 5, 0);
    assert_eq!(r.magic_used, 1);
    assert_eq!(r.magic_available, 3);
    // More routing-only uses than ready nodes saturates at 0.
    s.inc_with_cultivation(NodeType::Magic, 0);
    s.inc_with_cultivation(NodeType::Magic, 0);
    let r = s.update(1, 0, 0, 1, 0);
    assert_eq!(r.magic_available, 0);
}

#[test]
fn plot_info_str_round_trips() {
    let mut s = ScheduleStats::new(1, 1, 1);
    s.set_plot_info_str("lcycle 0".to_string());
    assert_eq!(s.get_plot_info_str(), "lcycle 0");
}
