use memtrace::app::App;
use memtrace::parser::parse_permissions;
use memtrace::summary::{count_suspicious, label_text, perms_text, total_private_dirty, total_rss};
use memtrace::types::{MemoryRegion, Permissions, RegionType};

fn region(rss: u64, private_dirty: u64, rwx: bool) -> MemoryRegion {
    MemoryRegion {
        start: 0x1000,
        end: 0x3000,
        size: 0x2000,
        perms: Permissions { read: true, write: rwx, execute: rwx, shared: false },
        region_type: RegionType::Other,
        label: String::from("/bin/x"),
        rss,
        pss: rss,
        private_dirty,
    }
}

fn app_with(n: usize, rows: usize) -> App {
    let mut app = App::new(7);
    app.regions = (0..n).map(|i| region(i as u64, 0, false)).collect();
    app.visible_rows = rows;
    app
}

#[test]
fn new_app() {
    let app = App::new(4821);
    assert_eq!(app.pid, 4821);
    assert!(app.regions.is_empty());
    assert_eq!((app.scroll, app.selected, app.visible_rows), (0, 0, 20));
    assert!(!app.should_quit);
    assert!(app.error.is_none());
}

#[test]
fn refresh_with_text_replaces_regions() {
    let mut app = App::new(1);
    app.error = Some(String::from("old"));
    app.refresh(Ok(String::from("1000-2000 r--p 0 0 0 [heap]\nRss: 8 kB\n")));
    assert_eq!(app.regions.len(), 1);
    assert_eq!(app.regions[0].rss, 8);
    assert!(app.error.is_none());
}

#[test]
fn refresh_failure_keeps_regions_and_says_why() {
    let mut app = App::new(42);
    app.regions = vec![region(1, 1, false)];
    app.refresh(Err(String::from("Failed to read /proc/42/smaps")));
    assert_eq!(app.regions.len(), 1);
    assert_eq!(
        app.error.as_deref(),
        Some("Failed to read process 42: Failed to read /proc/42/smaps")
    );
}

#[test]
fn scrolling_down_follows_the_selection() {
    let mut app = app_with(5, 2);
    app.scroll_down();
    assert_eq!((app.selected, app.scroll), (1, 0));
    app.scroll_down();
    assert_eq!((app.selected, app.scroll), (2, 1));
    app.scroll_down();
    app.scroll_down();
    assert_eq!((app.selected, app.scroll), (4, 3));
    app.scroll_down();
    assert_eq!((app.selected, app.scroll), (4, 3));
}

#[test]
fn scrolling_up_follows_the_selection() {
    let mut app = app_with(5, 2);
    app.selected = 4;
    app.scroll = 3;
    app.scroll_up();
    assert_eq!((app.selected, app.scroll), (3, 3));
    app.scroll_up();
    assert_eq!((app.selected, app.scroll), (2, 2));
    app.selected = 0;
    app.scroll = 0;
    app.scroll_up();
    assert_eq!((app.selected, app.scroll), (0, 0));
}

#[test]
fn scrolling_an_empty_list_does_nothing() {
    let mut app = app_with(0, 20);
    app.scroll_down();
    app.scroll_up();
    assert_eq!((app.selected, app.scroll), (0, 0));
}

#[test]
fn law_moves_undo_each_other() {
    let mut app = app_with(10, 3);
    for _ in 0..4 {
        app.scroll_down();
    }
    let before = app.selected;
    app.scroll_down();
    app.scroll_up();
    assert_eq!(app.selected, before);
    app.scroll_up();
    app.scroll_down();
    assert_eq!(app.selected, before);
}

#[test]
fn law_selection_stays_in_the_window() {
    let mut app = app_with(12, 4);
    let moves = [true, true, true, true, true, false, false, true, true, true, true, true, true, true, true, false, false, false, false, false, false, false, false];
    for down in moves {
        if down {
            app.scroll_down();
        } else {
            app.scroll_up();
        }
        assert!(app.scroll <= app.selected);
        assert!(app.selected < app.scroll + app.visible_rows);
        assert!(app.selected < app.regions.len());
    }
}

#[test]
fn totals() {
    let mut app = App::new(1);
    app.regions = vec![region(192, 0, false), region(1608, 1608, false), region(108, 108, true)];
    assert_eq!(app.total_rss(), 1908);
    assert_eq!(app.total_private(), 1716);
    assert_eq!(app.suspicious_count(), 1);
    assert_eq!(total_rss(&app.regions), 1908);
    assert_eq!(total_private_dirty(&app.regions), 1716);
    assert_eq!(count_suspicious(&app.regions), 1);
    assert_eq!(total_rss(&[]), 0);
}

#[test]
fn totals_wrap_past_u64() {
    let rs = vec![region(u64::MAX, u64::MAX, false), region(2, 3, false)];
    assert_eq!(total_rss(&rs), 1);
    assert_eq!(total_private_dirty(&rs), 2);
}

#[test]
fn table_height_and_visible_range() {
    let mut app = app_with(50, 0);
    app.fit_table_height(13);
    assert_eq!(app.visible_rows, 10);
    assert_eq!(app.visible_range(), (0, 30));
    app.scroll = 25;
    assert_eq!(app.visible_range(), (25, 50));
    app.fit_table_height(2);
    assert_eq!(app.visible_rows, 0);
    let empty = app_with(0, 10);
    assert_eq!(empty.visible_range(), (0, 0));
}

#[test]
fn columns() {
    let p = Permissions { read: true, write: false, execute: true, shared: false };
    assert_eq!(perms_text(&p), "r-xp");
    let q = Permissions { read: false, write: true, execute: false, shared: true };
    assert_eq!(perms_text(&q), "-w-s");
    assert_eq!(label_text(&region(1, 1, true)), "/bin/x \u{26A0} RWX");
    assert_eq!(label_text(&region(1, 1, false)), "/bin/x");
    assert_eq!(region(1, 1, false).size_kb(), 8);
}

#[test]
fn law_perms_round_trip() {
    for col in ["rwxp", "r--p", "---s", "-w-s", "r-xp"] {
        let chars: Vec<char> = col.chars().collect();
        assert_eq!(perms_text(&parse_permissions(&chars)), col);
    }
    let p = Permissions { read: true, write: true, execute: false, shared: true };
    let chars: Vec<char> = perms_text(&p).chars().collect();
    assert_eq!(parse_permissions(&chars), p);
}

#[test]
fn suspicious_means_rwx() {
    let p = |r, w, x| Permissions { read: r, write: w, execute: x, shared: false };
    assert!(p(true, true, true).is_suspicious());
    assert!(!p(true, true, false).is_suspicious());
    assert!(!p(false, true, true).is_suspicious());
    assert!(!p(true, false, true).is_suspicious());
}
