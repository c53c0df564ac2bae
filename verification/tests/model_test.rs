use std::collections::HashSet;

use ttop::display::{column_title, row_prefix, sort_indicator, table_title};
use ttop::platform::{get_parent_app_name, get_process_group, get_responsible_pid};
use ttop::{
    format_bytes, format_memory, handle_normal_input, handle_search_input, App, Key, ProcessGroup, ProcessSnapshot,
    SortMode, SystemSnapshot,
};

fn proc(pid: u32, parent: Option<u32>, name: &str, cpu: u64, memory: u64) -> ProcessSnapshot {
    ProcessSnapshot {
        pid,
        parent,
        name: name.to_string(),
        cpu_usage: cpu,
        memory,
        disk_read: 10,
        disk_write: 5,
        responsible: None,
        process_group: None,
    }
}

fn snapshot(processes: Vec<ProcessSnapshot>, by_name: bool) -> SystemSnapshot {
    SystemSnapshot {
        processes,
        group_by_app_name: by_name,
        cpu_usage: 1234,
        used_memory: 4,
        total_memory: 16,
    }
}

fn group<'a>(app: &'a App, pid: u32) -> &'a ProcessGroup {
    app.groups.iter().find(|g| g.pid == pid).unwrap()
}

fn child_pids(g: &ProcessGroup) -> Vec<u32> {
    g.children.iter().map(|c| c.pid).collect()
}

fn sample_tree() -> Vec<ProcessSnapshot> {
    vec![
        proc(1, None, "launchd", 100, 10),
        proc(100, Some(1), "Safari", 2000, 500),
        proc(101, Some(100), "WebKit", 500, 100),
        proc(102, Some(101), "GPU", 300, 50),
        proc(200, Some(1), "Chrome", 4000, 800),
    ]
}

#[test]
fn test_groups_follow_parents_and_add_up() {
    let app = App::new(snapshot(sample_tree(), false));
    assert_eq!(app.groups.len(), 3);
    let safari = group(&app, 100);
    assert_eq!(child_pids(safari), vec![101, 102]);
    assert_eq!(safari.cpu_usage, 2000 + 500 + 300);
    assert_eq!(safari.memory, 500 + 100 + 50);
    assert_eq!(safari.disk_read, 30);
    assert_eq!(safari.disk_write, 15);
    assert!(group(&app, 200).children.is_empty());
    assert!(group(&app, 1).children.is_empty());
}

#[test]
fn test_new_sorts_by_cpu_descending() {
    let app = App::new(snapshot(sample_tree(), false));
    let order: Vec<u32> = app.groups.iter().map(|g| g.pid).collect();
    assert_eq!(order, vec![200, 100, 1]);
    assert_eq!(app.table_state.selected(), Some(0));
    assert_eq!(app.sort_mode, SortMode::Cpu);
    assert!(!app.sort_ascending);
}

#[test]
fn test_children_sorted_inside_group() {
    let mut app = App::new(snapshot(sample_tree(), false));
    app.toggle_sort_mode(SortMode::Cpu);
    assert!(app.sort_ascending);
    let safari = group(&app, 100);
    assert_eq!(child_pids(safari), vec![102, 101]);
    let order: Vec<u32> = app.groups.iter().map(|g| g.pid).collect();
    assert_eq!(order, vec![1, 100, 200]);
}

#[test]
fn test_responsible_process_owns() {
    let mut procs = sample_tree();
    let mut helper = proc(300, Some(1), "Helper", 10, 1);
    helper.responsible = Some(100);
    procs.push(helper);
    let app = App::new(snapshot(procs, false));
    assert_eq!(child_pids(group(&app, 100)), vec![101, 102, 300]);
    assert!(app.groups.iter().all(|g| g.pid != 300));
}

#[test]
fn test_responsible_unknown_or_self_is_ignored() {
    let mut procs = sample_tree();
    let mut a = proc(300, Some(1), "A", 10, 1);
    a.responsible = Some(300);
    let mut b = proc(301, Some(1), "B", 10, 1);
    b.responsible = Some(999);
    procs.push(a);
    procs.push(b);
    let app = App::new(snapshot(procs, false));
    assert_eq!(app.groups.len(), 5);
}

#[test]
fn test_helper_grouped_by_app_name() {
    let mut procs = sample_tree();
    procs.push(proc(400, Some(1), "Google Chrome", 100, 1));
    procs.push(proc(401, Some(1), "Google Chrome Helper (Renderer)", 50, 1));
    let by_name = App::new(snapshot(procs.clone(), true));
    assert_eq!(child_pids(group(&by_name, 400)), vec![401]);
    let plain = App::new(snapshot(procs, false));
    assert!(plain.groups.iter().any(|g| g.pid == 401));
}

#[test]
fn test_process_group_leader_owns() {
    let mut procs = sample_tree();
    let mut leader = proc(500, Some(1), "shell", 10, 1);
    leader.process_group = Some(500);
    let mut member = proc(501, Some(1), "job", 10, 1);
    member.process_group = Some(500);
    procs.push(leader);
    procs.push(member);
    let by_name = App::new(snapshot(procs.clone(), true));
    assert_eq!(child_pids(group(&by_name, 500)), vec![501]);
    let plain = App::new(snapshot(procs, false));
    assert!(plain.groups.iter().any(|g| g.pid == 501));
}

#[test]
fn test_owner_loop_is_not_shown() {
    let mut procs = sample_tree();
    let mut a = proc(600, Some(1), "a", 10, 1);
    a.responsible = Some(601);
    let mut b = proc(601, Some(1), "b", 10, 1);
    b.responsible = Some(600);
    procs.push(a);
    procs.push(b);
    let app = App::new(snapshot(procs, false));
    assert_eq!(app.groups.len(), 3);
    for g in &app.groups {
        assert!(g.pid != 600 && g.pid != 601);
        assert!(g.children.iter().all(|c| c.pid != 600 && c.pid != 601));
    }
}

#[test]
fn test_refresh_keeps_expansion() {
    let mut app = App::new(snapshot(sample_tree(), false));
    app.expanded_pids.insert(100);
    app.refresh(snapshot(sample_tree(), false));
    assert!(group(&app, 100).expanded);
    assert!(!group(&app, 200).expanded);
    assert_eq!(app.visible_row_count(), 5);
}

#[test]
fn test_toggle_current_twice_restores() {
    let mut app = App::new(snapshot(sample_tree(), false));
    let safari_row = app.groups.iter().position(|g| g.pid == 100).unwrap();
    app.table_state.select(Some(safari_row));
    let before = app.visible_row_count();
    app.toggle_current();
    assert!(app.expanded_pids.contains(&100));
    assert_eq!(app.visible_row_count(), before + 2);
    app.toggle_current();
    assert!(!app.expanded_pids.contains(&100));
    assert_eq!(app.visible_row_count(), before);
}

#[test]
fn test_same_sort_key_twice_reverses() {
    let mut app = App::new(snapshot(sample_tree(), false));
    app.toggle_sort_mode(SortMode::Name);
    assert!(!app.sort_ascending);
    app.toggle_sort_mode(SortMode::Name);
    assert!(app.sort_ascending);
    let names: Vec<&str> = app.groups.iter().map(|g| g.name.as_str()).collect();
    assert_eq!(names, vec!["Chrome", "launchd", "Safari"]);
}

#[test]
fn test_sort_keeps_equal_keys_in_order() {
    let procs = vec![
        proc(10, None, "b", 5, 7),
        proc(11, None, "a", 5, 7),
        proc(12, None, "c", 9, 7),
    ];
    let mut app = App::new(snapshot(procs, false));
    let order: Vec<u32> = app.groups.iter().map(|g| g.pid).collect();
    assert_eq!(order, vec![12, 10, 11]);
    app.toggle_sort_mode(SortMode::Memory);
    let order: Vec<u32> = app.groups.iter().map(|g| g.pid).collect();
    assert_eq!(order, vec![10, 11, 12]);
}

#[test]
fn test_navigation_moves_within_table() {
    let mut app = App::new(snapshot(sample_tree(), false));
    app.next();
    app.next();
    app.next();
    assert_eq!(app.table_state.selected(), Some(2));
    app.previous();
    assert_eq!(app.table_state.selected(), Some(1));
    app.table_state.select(None);
    app.previous();
    assert_eq!(app.table_state.selected(), Some(0));
}

#[test]
fn test_filter_case_and_children() {
    let mut app = App::new(snapshot(sample_tree(), false));
    app.filter_text = "GPU".to_string();
    let rows = app.get_visible_rows();
    assert_eq!(rows.len(), 1);
    assert_eq!(rows[0].pid, 100);
    app.expanded_pids.insert(100);
    app.build_groups();
    let rows = app.get_visible_rows();
    let pids: Vec<u32> = rows.iter().map(|r| r.pid).collect();
    assert_eq!(pids, vec![100, 102]);
    app.filter_text = "gpu".to_string();
    let lower: Vec<u32> = app.get_visible_rows().iter().map(|r| r.pid).collect();
    assert_eq!(lower, pids);
    assert_eq!(rows[0].disk_io, 45);
}

#[test]
fn test_cpu_and_memory_usage() {
    let app = App::new(snapshot(sample_tree(), false));
    assert_eq!(app.get_cpu_usage(), 1234);
    assert_eq!(app.get_memory_usage(), (4, 16));
}

#[test]
fn test_search_keys() {
    let mut app = App::new(snapshot(sample_tree(), false));
    app.search_active = true;
    app.table_state.select(Some(2));
    handle_search_input(&mut app, Key::Char('S'));
    handle_search_input(&mut app, Key::Char('a'));
    assert_eq!(app.filter_text, "Sa");
    assert_eq!(app.table_state.selected(), Some(0));
    handle_search_input(&mut app, Key::Backspace);
    assert_eq!(app.filter_text, "S");
    handle_search_input(&mut app, Key::Enter);
    assert!(!app.search_active);
    assert_eq!(app.filter_text, "S");
    app.search_active = true;
    handle_search_input(&mut app, Key::Esc);
    assert!(!app.search_active);
    assert!(app.filter_text.is_empty());
    handle_search_input(&mut app, Key::Backspace);
    assert!(app.filter_text.is_empty());
}

#[test]
fn test_normal_keys() {
    let mut app = App::new(snapshot(sample_tree(), false));
    assert!(!handle_normal_input(&mut app, Key::Char('j')));
    assert_eq!(app.table_state.selected(), Some(1));
    assert!(!handle_normal_input(&mut app, Key::Up));
    assert_eq!(app.table_state.selected(), Some(0));
    assert!(!handle_normal_input(&mut app, Key::Char('m')));
    assert_eq!(app.sort_mode, SortMode::Memory);
    assert!(!handle_normal_input(&mut app, Key::Char('m')));
    assert!(app.sort_ascending);
    assert!(!handle_normal_input(&mut app, Key::Char('s')));
    assert!(app.search_active);
    app.search_active = false;
    app.filter_text = "x".to_string();
    assert!(!handle_normal_input(&mut app, Key::Esc));
    assert!(app.filter_text.is_empty());
    assert!(handle_normal_input(&mut app, Key::Esc));
    assert!(handle_normal_input(&mut app, Key::Char('q')));
    assert!(!handle_normal_input(&mut app, Key::Other));
}

#[test]
fn test_format_rounding() {
    assert_eq!(format_memory(1023), "1023 B");
    assert_eq!(format_memory(1280), "1.2 KB");
    assert_eq!(format_memory(1331), "1.3 KB");
    assert_eq!(format_memory(1024 * 1024 - 1), "1024.0 KB");
    assert_eq!(format_bytes(3 * 1024 * 1024 * 1024 / 2), "1.5 GB");
    assert_eq!(format_bytes(u64::MAX), "17179869184.0 GB");
}

#[test]
fn test_parent_app_names() {
    assert_eq!(get_parent_app_name("com.apple.WebKit.Networking", true), Some("Safari"));
    assert_eq!(get_parent_app_name("WebKit", true), None);
    assert_eq!(get_parent_app_name("Google Chrome Helper (GPU)", true), Some("Google Chrome"));
    assert_eq!(get_parent_app_name("Firefox Helper", true), Some("Firefox"));
    assert_eq!(get_parent_app_name("Slack Helper (Plugin)", true), Some("Slack"));
    assert_eq!(get_parent_app_name("Code Helper (Renderer)", true), Some("Code"));
    assert_eq!(get_parent_app_name("Electron Helper", true), None);
    assert_eq!(get_parent_app_name("Terminal", true), None);
    assert_eq!(get_parent_app_name("com.apple.WebKit.Networking", false), None);
    assert_eq!(get_parent_app_name("Slack Helper", false), None);
}

#[test]
fn test_platform_reports() {
    assert_eq!(get_responsible_pid(10, 20), Some(20));
    assert_eq!(get_responsible_pid(10, 10), None);
    assert_eq!(get_responsible_pid(10, 0), None);
    assert_eq!(get_responsible_pid(10, -3), None);
    assert_eq!(get_process_group(1, 7), Some(7));
    assert_eq!(get_process_group(0, 7), None);
}

#[test]
fn test_expanded_set_is_a_set() {
    let mut set: HashSet<u32> = HashSet::new();
    set.insert(100);
    let mut app = App::new(snapshot(sample_tree(), false));
    app.expanded_pids = set;
    app.build_groups();
    assert!(group(&app, 100).expanded);
}

#[test]
fn test_every_process_in_exactly_one_group() {
    let mut procs = sample_tree();
    let mut helper = proc(300, Some(102), "Helper", 10, 1);
    helper.responsible = Some(200);
    procs.push(helper);
    procs.push(proc(301, Some(300), "Worker", 10, 1));
    procs.push(proc(302, Some(999), "Orphan", 10, 1));
    let app = App::new(snapshot(procs.clone(), false));
    for p in &procs {
        let mut seen = 0;
        for g in &app.groups {
            if g.pid == p.pid {
                seen += 1;
            }
            seen += g.children.iter().filter(|c| c.pid == p.pid).count();
        }
        assert_eq!(seen, 1, "pid {}", p.pid);
    }
    // 300 is owned by 200; its child 301 is not shown under an owned parent
    assert_eq!(child_pids(group(&app, 200)), vec![300]);
    assert!(app.groups.iter().any(|g| g.pid == 301));
    assert!(app.groups.iter().any(|g| g.pid == 302));
}

#[test]
fn test_groups_in_key_order() {
    let mut app = App::new(snapshot(sample_tree(), false));
    for mode in [SortMode::Cpu, SortMode::Memory, SortMode::DiskIo, SortMode::Name] {
        app.toggle_sort_mode(mode);
        let mems: Vec<u64> = app.groups.iter().map(|g| g.memory).collect();
        if mode == SortMode::Memory {
            assert!(mems.windows(2).all(|w| w[0] >= w[1]));
        }
    }
    app.toggle_sort_mode(SortMode::Memory);
    app.toggle_sort_mode(SortMode::Memory);
    assert!(app.sort_ascending);
    let mems: Vec<u64> = app.groups.iter().map(|g| g.memory).collect();
    assert!(mems.windows(2).all(|w| w[0] <= w[1]));
}

fn units(percent: f32) -> u64 {
    (percent as f64 * ttop::domain::CPU_UNITS_PER_PERCENT as f64).round() as u64
}

#[test]
fn test_cpu_readings_keep_their_order_and_text() {
    let procs = vec![proc(10, None, "a", units(12.341), 1), proc(11, None, "b", units(12.344), 1)];
    let app = App::new(snapshot(procs, false));
    let order: Vec<u32> = app.groups.iter().map(|g| g.pid).collect();
    assert_eq!(order, vec![11, 10]);
    assert_eq!(ttop::format::format_percent(units(0.149)), "0.1%");
    assert_eq!(ttop::format::format_percent(units(12.25)), "12.2%");
    assert_eq!(ttop::format::format_percent(units(100.0)), "100.0%");
}

#[test]
fn test_table_text() {
    let mut app = App::new(snapshot(sample_tree(), false));
    assert_eq!(sort_indicator(true), "▲");
    assert_eq!(column_title(SortMode::Cpu, SortMode::Cpu, false), "CPU%▼");
    assert_eq!(column_title(SortMode::Name, SortMode::Cpu, false), "NAME");
    let rows = app.get_visible_rows();
    assert_eq!(table_title(&app, &rows), " Apps (3) [Sort: CPU ▼] ");
    assert_eq!(row_prefix(&rows[0]), "  ");
    app.filter_text = "a".to_string();
    let rows = app.get_visible_rows();
    assert_eq!(table_title(&app, &rows), " Apps (2 shown) [Sort: CPU ▼] ");
    app.filter_text = "saf".to_string();
    app.expanded_pids.insert(100);
    app.build_groups();
    app.filter_text = "Web".to_string();
    let rows = app.get_visible_rows();
    assert_eq!(row_prefix(&rows[0]), "▼ ");
    assert_eq!(row_prefix(&rows[1]), "    └─ ");
}

#[test]
fn test_longer_filter_shows_fewer_rows() {
    let mut app = App::new(snapshot(sample_tree(), false));
    app.expanded_pids.insert(100);
    app.build_groups();
    app.filter_text = "a".to_string();
    let wide: Vec<u32> = app.get_visible_rows().iter().map(|r| r.pid).collect();
    app.filter_text = "aR".to_string();
    let narrow: Vec<u32> = app.get_visible_rows().iter().map(|r| r.pid).collect();
    assert_eq!(wide, vec![100, 1]);
    assert_eq!(narrow, vec![100]);
    let mut it = wide.iter();
    assert!(narrow.iter().all(|p| it.any(|w| w == p)));
}
