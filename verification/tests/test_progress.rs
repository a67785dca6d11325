use rusty_dumb_tools::progress::{DumbProgressSetting, DumbProgressStyle, ProgressShower};

fn setting(total: Option<usize>, name: &str, desc: &str) -> DumbProgressSetting {
    DumbProgressSetting {
        total,
        name: Some(name.to_string()),
        desc: Some(desc.to_string()),
    }
}

#[test]
fn test_progress_simple_line() {
    let mut shower = ProgressShower::new();
    DumbProgressSetting::set_style(&mut shower, DumbProgressStyle::Simple);
    let (id, text) = shower.register_progress(setting(Some(4), "VEC", "vector"), 0);
    assert_eq!(id, 0);
    assert_eq!(text, "\r| VEC: 0/4 □□□□□□□□□□ – vector | … \x1B[K");
    // shown again only once enough time went by
    let text = shower.advance_progress(id, 50);
    assert_eq!(text, "\r| VEC: 1/4 ■■□□□□□□□□ – vector | … \x1B[K");
    let text = shower.advance_progress(id, 100);
    assert_eq!(text, "\x1B[K");
    let text = shower.advance_progress(id, 150);
    assert_eq!(text, "\r| VEC: 3/4 ■■■■■■■□□□ – vector | … \x1B[K");
    let text = shower.end_progress(id, 160);
    assert_eq!(text, "\r\x1B[K");
    shower.unregister_progress(id);
    assert_eq!(shower.end_progress(id, 170), "");
}

#[test]
fn test_progress_nested_percentage() {
    let mut shower = ProgressShower::new();
    DumbProgressSetting::set_style(&mut shower, DumbProgressStyle::Simple);
    DumbProgressSetting::set_max_nested_progress_bar_count(&mut shower, 1);
    let (outer, _) = shower.register_progress(setting(Some(3), "A", "outer"), 0);
    let (inner, text) = shower.register_progress(setting(None, "B", "inner"), 0);
    assert_eq!(inner, 1);
    assert_eq!(text, "\r| A: 0/3 (0%) | B: 0 – inner | … \x1B[K");
    shower.unregister_progress(outer);
    assert_eq!(shower.advance_progress(inner, 500), "");
}

#[test]
fn test_progress_emojis() {
    let mut shower = ProgressShower::new();
    let (id, text) = shower.register_progress(setting(Some(2), "S", "d"), 0);
    assert_eq!(text, "\r💠 S: 0/2 🌕🌕🌕🌕🌕🌕🌕🌕🌕🌕 – d 💠 … \x1B[K");
    let text = shower.advance_progress(id, 1000);
    assert_eq!(text, "\r💠 S: 1/2 🌑🌑🌑🌑🌑🌕🌕🌕🌕🌕 – d 💠 … \x1B[K");
}

#[test]
fn test_progress_half_mark() {
    let mut shower = ProgressShower::new();
    DumbProgressSetting::set_style(&mut shower, DumbProgressStyle::Simple);
    let (id, _) = shower.register_progress(setting(Some(3), "T", "t"), 0);
    // 1/3 is 33.3%: three filled marks, and 3.3 of the next ten is not more than half
    assert_eq!(shower.advance_progress(id, 1000), "\r| T: 1/3 ■■■□□□□□□□ – t | … \x1B[K");
    // 2/3 is 66.7%: six filled marks and a half one
    assert_eq!(shower.advance_progress(id, 2000), "\r| T: 2/3 ■■■■■■■□□□ – t | … \x1B[K");
}
