use pong::{
    chart_points_for_width, chart_x_max, elapsed_str, first_usable, host_color, hosts_label,
    should_use_ip, Color, HostStatus, IpFamily, PingSchedule, PingStep,
};

#[test]
fn status_symbols_and_colors() {
    assert_eq!(HostStatus::Up.symbol(), "▲ Up");
    assert_eq!(HostStatus::Elevated.symbol(), "▲ Elevated");
    assert_eq!(HostStatus::Down.symbol(), "▼ Down");
    assert_eq!(HostStatus::Unknown.symbol(), "? Unknown");
    assert_eq!(HostStatus::Up.color(), Color::Green);
    assert_eq!(HostStatus::Elevated.color(), Color::Yellow);
    assert_eq!(HostStatus::Down.color(), Color::Red);
    assert_eq!(HostStatus::Unknown.color(), Color::DarkGray);
}

#[test]
fn host_colors_repeat_every_eight() {
    assert_eq!(host_color(0), Color::Cyan);
    assert_eq!(host_color(1), Color::Magenta);
    assert_eq!(host_color(5), Color::Red);
    assert_eq!(host_color(7), Color::LightMagenta);
    assert_eq!(host_color(8), Color::Cyan);
    assert_eq!(host_color(9), Color::Magenta);
}

#[test]
fn address_family_preferences() {
    assert!(should_use_ip(IpFamily::V4, true, false));
    assert!(!should_use_ip(IpFamily::V6, true, false));
    assert!(should_use_ip(IpFamily::V6, false, true));
    assert!(!should_use_ip(IpFamily::V4, false, true));
    assert!(should_use_ip(IpFamily::V4, false, false));
    assert!(should_use_ip(IpFamily::V6, false, false));
}

#[test]
fn first_usable_address() {
    let c = vec![IpFamily::V6, IpFamily::V4, IpFamily::V4];
    assert_eq!(first_usable(&c, false, false), Some(0));
    assert_eq!(first_usable(&c, true, false), Some(1));
    assert_eq!(first_usable(&c, false, true), Some(0));
    assert_eq!(first_usable(&vec![IpFamily::V4], false, true), None);
    assert_eq!(first_usable(&vec![], false, false), None);
}

#[test]
fn elapsed_clock() {
    assert_eq!(elapsed_str(0), "00:00:00");
    assert_eq!(elapsed_str(59), "00:00:59");
    assert_eq!(elapsed_str(3661), "01:01:01");
    assert_eq!(elapsed_str(359_999), "99:59:59");
    assert_eq!(elapsed_str(360_000), "100:00:00");
}

#[test]
fn host_count_labels() {
    assert_eq!(hosts_label(0), "0 hosts");
    assert_eq!(hosts_label(1), "1 host");
    assert_eq!(hosts_label(3), "3 hosts");
    assert_eq!(hosts_label(12), "12 hosts");
}

#[test]
fn schedule_sends_exactly_count() {
    let mut s = PingSchedule::new(Some(3));
    let mut seqs = Vec::new();
    loop {
        match s.next_step() {
            PingStep::Send(seq) => {
                seqs.push(seq);
                s.record_sent();
            }
            PingStep::Finish => break,
        }
    }
    assert_eq!(seqs, vec![0, 1, 2]);
    assert_eq!(s.sent_count(), 3);
    assert_eq!(PingSchedule::new(Some(0)).next_step(), PingStep::Finish);
}

#[test]
fn schedule_sequence_wraps() {
    let mut s = PingSchedule::new(None);
    for _ in 0..65_535u32 {
        s.record_sent();
    }
    assert_eq!(s.next_step(), PingStep::Send(65_535));
    s.record_sent();
    assert_eq!(s.next_step(), PingStep::Send(0));
    s.record_sent();
    assert_eq!(s.next_step(), PingStep::Send(1));
}

#[test]
fn chart_width_to_points() {
    assert_eq!(chart_points_for_width(0), 20);
    assert_eq!(chart_points_for_width(30), 20);
    assert_eq!(chart_points_for_width(31), 21);
    assert_eq!(chart_points_for_width(100), 90);
}

#[test]
fn chart_x_axis() {
    assert_eq!(chart_x_max(&vec![]), 10);
    assert_eq!(chart_x_max(&vec![vec![(3, 1)], vec![]]), 10);
    assert_eq!(chart_x_max(&vec![vec![(3, 1), (15, 2)], vec![(12, 4)]]), 15);
}
