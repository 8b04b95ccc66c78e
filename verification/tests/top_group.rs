use top_group::report::format_kb;
use top_group::GroupedProcess;
use top_group::MemoryUsage;
use top_group::ProcessGroups;
use top_group::ProcessRecord;

fn rec(pid: i32, name: &str, resident: u64, shared: u64) -> Option<ProcessRecord> {
    Some(ProcessRecord { pid, name: name.as_bytes().to_vec(), resident, shared })
}

fn group<'a>(g: &'a GroupedProcess, name: &str) -> Option<&'a ProcessGroups> {
    g.name_to_group()
        .iter()
        .find(|(n, _)| n.as_slice() == name.as_bytes())
        .map(|(_, pg)| pg)
}

fn usage(memory: u64, resident: u64, shared: u64) -> MemoryUsage {
    MemoryUsage { memory, resident, shared }
}

#[test]
fn aggregating_nothing_yields_no_groups() {
    let grouped = GroupedProcess::from_records(&Vec::new());
    assert_eq!(grouped.name_to_group().len(), 0);
    assert_eq!(grouped.sorted_totals().len(), 0);
}

#[test]
fn sum_of_nothing_is_zero() {
    let total = MemoryUsage::sum(&Vec::new());
    assert_eq!(total.memory, 0);
    assert_eq!(total.resident, 0);
    assert_eq!(total.shared, 0);
}

#[test]
fn sum_is_order_independent() {
    let a = usage(4000, 5000, 1000);
    let b = usage(2500, 3000, 500);
    let c = usage(2000, 2000, 0);
    let one = MemoryUsage::sum(&vec![a, b, c]);
    let other = MemoryUsage::sum(&vec![c, a, b]);
    assert_eq!(one.memory, 8500);
    assert_eq!(one.resident, 10000);
    assert_eq!(one.shared, 1500);
    assert_eq!(other.memory, one.memory);
    assert_eq!(other.resident, one.resident);
    assert_eq!(other.shared, one.shared);
}

#[test]
fn add_is_commutative_on_values() {
    let a = usage(1, 2, 1);
    let b = usage(30, 40, 10);
    let ab = a.add(b);
    let ba = b.add(a);
    assert_eq!(ab.memory, 31);
    assert_eq!(ab.resident, 42);
    assert_eq!(ab.shared, 11);
    assert_eq!(ba.memory, ab.memory);
    assert_eq!(ba.resident, ab.resident);
    assert_eq!(ba.shared, ab.shared);
}

#[test]
fn totals_track_the_sum_of_the_map() {
    let mut g = ProcessGroups::new();
    g.add_usage(100, usage(4000, 5000, 1000));
    let t1 = g.usage_totals();
    assert_eq!((t1.memory, t1.resident, t1.shared), (4000, 5000, 1000));
    g.add_usage(101, usage(2500, 3000, 500));
    let t2 = g.usage_totals();
    assert_eq!((t2.memory, t2.resident, t2.shared), (6500, 8000, 1500));
    assert_eq!(g.pid_to_usage().len(), 2);
}

#[test]
fn derived_field_is_resident_minus_shared() {
    let u = MemoryUsage::new(5000, 1000).unwrap();
    assert_eq!(u.memory, 4000);
    assert_eq!(u.resident, 5000);
    assert_eq!(u.shared, 1000);
    let v = MemoryUsage::new(3000, 3000).unwrap();
    assert_eq!(v.memory, 0);
}

#[test]
fn inconsistent_figures_are_rejected() {
    assert!(MemoryUsage::new(100, 200).is_none());
}

#[test]
fn same_name_shares_one_group() {
    let grouped = GroupedProcess::from_records(&vec![
        rec(100, "nginx", 5000, 1000),
        rec(101, "nginx", 3000, 500),
    ]);
    assert_eq!(grouped.name_to_group().len(), 1);
    let nginx = group(&grouped, "nginx").unwrap();
    assert!(nginx.pid_to_usage().contains_key(&100));
    assert!(nginx.pid_to_usage().contains_key(&101));
}

#[test]
fn different_names_get_their_own_groups() {
    let grouped = GroupedProcess::from_records(&vec![
        rec(100, "nginx", 5000, 1000),
        rec(200, "sshd", 2000, 0),
    ]);
    assert_eq!(grouped.name_to_group().len(), 2);
    let nginx = group(&grouped, "nginx").unwrap();
    let sshd = group(&grouped, "sshd").unwrap();
    assert!(nginx.pid_to_usage().contains_key(&100));
    assert!(!nginx.pid_to_usage().contains_key(&200));
    assert!(sshd.pid_to_usage().contains_key(&200));
}

#[test]
fn incomplete_records_contribute_nothing() {
    let grouped = GroupedProcess::from_records(&vec![None, None]);
    assert_eq!(grouped.name_to_group().len(), 0);
}

#[test]
fn inconsistent_records_contribute_nothing() {
    let grouped = GroupedProcess::from_records(&vec![
        rec(100, "nginx", 5000, 1000),
        rec(300, "nginx", 100, 200),
        None,
    ]);
    let nginx = group(&grouped, "nginx").unwrap();
    assert!(!nginx.pid_to_usage().contains_key(&300));
    let t = nginx.usage_totals();
    assert_eq!((t.memory, t.resident, t.shared), (4000, 5000, 1000));
}

#[test]
fn example_scenario() {
    let grouped = GroupedProcess::from_records(&vec![
        rec(100, "nginx", 5000, 1000),
        rec(101, "nginx", 3000, 500),
        rec(200, "sshd", 2000, 0),
    ]);
    assert_eq!(grouped.name_to_group().len(), 2);

    let nginx = group(&grouped, "nginx").unwrap();
    let u100 = nginx.pid_to_usage().get(&100).unwrap();
    assert_eq!((u100.memory, u100.resident, u100.shared), (4000, 5000, 1000));
    let u101 = nginx.pid_to_usage().get(&101).unwrap();
    assert_eq!((u101.memory, u101.resident, u101.shared), (2500, 3000, 500));
    let nt = nginx.usage_totals();
    assert_eq!((nt.memory, nt.resident, nt.shared), (6500, 8000, 1500));

    let sshd = group(&grouped, "sshd").unwrap();
    let st = sshd.usage_totals();
    assert_eq!((st.memory, st.resident, st.shared), (2000, 2000, 0));
}

#[test]
fn duplicate_pid_last_write_wins() {
    let grouped = GroupedProcess::from_records(&vec![
        rec(100, "nginx", 5000, 1000),
        rec(100, "nginx", 3000, 500),
    ]);
    let nginx = group(&grouped, "nginx").unwrap();
    assert_eq!(nginx.pid_to_usage().len(), 1);
    let u = nginx.pid_to_usage().get(&100).unwrap();
    assert_eq!((u.memory, u.resident, u.shared), (2500, 3000, 500));
    let t = nginx.usage_totals();
    assert_eq!((t.memory, t.resident, t.shared), (2500, 3000, 500));
}

#[test]
fn larger_totals_come_first() {
    let grouped = GroupedProcess::from_records(&vec![
        rec(200, "sshd", 2000, 0),
        rec(100, "nginx", 5000, 1000),
    ]);
    let sorted = grouped.sorted_totals();
    assert_eq!(sorted.len(), 2);
    assert_eq!(sorted[0].0.as_slice(), b"nginx");
    assert_eq!(sorted[0].1, 4000);
    assert_eq!(sorted[1].0.as_slice(), b"sshd");
    assert_eq!(sorted[1].1, 2000);
}

#[test]
fn equal_totals_order_by_name() {
    let grouped = GroupedProcess::from_records(&vec![
        rec(1, "zsh", 3000, 1000),
        rec(2, "bash", 2500, 500),
    ]);
    let sorted = grouped.sorted_totals();
    assert_eq!(sorted.len(), 2);
    assert_eq!(sorted[0].0.as_slice(), b"bash");
    assert_eq!(sorted[0].1, 2000);
    assert_eq!(sorted[1].0.as_slice(), b"zsh");
    assert_eq!(sorted[1].1, 2000);
}

#[test]
fn non_text_names_are_grouped_by_bytes() {
    let raw = vec![0xffu8, 0xfe, 0x00];
    let grouped = GroupedProcess::from_records(&vec![
        Some(ProcessRecord { pid: 7, name: raw.clone(), resident: 10, shared: 0 }),
        Some(ProcessRecord { pid: 8, name: raw.clone(), resident: 20, shared: 5 }),
    ]);
    assert_eq!(grouped.name_to_group().len(), 1);
    let entry = &grouped.name_to_group()[0];
    assert_eq!(entry.0, raw);
    let t = entry.1.usage_totals();
    assert_eq!((t.memory, t.resident, t.shared), (25, 30, 5));
}

#[test]
fn format_kb_scales_si_byte_counts() {
    assert_eq!(format_kb(6500).unwrap(), "6.5MB");
    assert_eq!(format_kb(2000).unwrap(), "2.0MB");
    assert_eq!(format_kb(0).unwrap(), "0B");
    assert_eq!(format_kb(1).unwrap(), "1.0kB");
    assert_eq!(format_kb(u64::MAX), None);
}
