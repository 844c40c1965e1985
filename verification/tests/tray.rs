use codextool::models::{AppLocale, MacosTrayTextIconStyle, TrayUsageDisplayMode, WindowsTaskbarWidgetPlacement};
use codextool::tray::{
    effective_windows_usage_display_mode, macos_quota_status_autosave_name,
    macos_text_status_autosave_name, macos_text_tray_visibility, only_show_single_window,
    should_show_usage_surface, text_tray_description, text_tray_id, windows_widget_state_label,
    windows_widget_status, windows_widget_visible, WindowsWidgetStatus,
};

#[test]
fn windows_legacy_hidden_usage_mode_falls_back_to_one_week_remaining() {
    assert_eq!(
        effective_windows_usage_display_mode(TrayUsageDisplayMode::Hidden),
        TrayUsageDisplayMode::OneWeekRemaining
    );
    assert_eq!(
        effective_windows_usage_display_mode(TrayUsageDisplayMode::FiveHourRemaining),
        TrayUsageDisplayMode::FiveHourRemaining
    );
}

#[test]
fn macos_text_and_quota_status_items_have_distinct_persistent_names() {
    assert!(!macos_text_status_autosave_name().is_empty());
    assert!(!macos_quota_status_autosave_name().is_empty());
    assert_ne!(macos_text_status_autosave_name(), macos_quota_status_autosave_name());
    assert!(macos_text_status_autosave_name().ends_with(".v2"));
    assert!(macos_quota_status_autosave_name().ends_with(".v2"));
}

#[test]
fn hidden_mode_hides_the_usage_surface() {
    assert!(!should_show_usage_surface(TrayUsageDisplayMode::Hidden));
    assert!(should_show_usage_surface(TrayUsageDisplayMode::OneWeekRemaining));
}

#[test]
fn macos_text_icon_choices_use_separate_mutually_exclusive_status_items() {
    assert_eq!(
        macos_text_tray_visibility(TrayUsageDisplayMode::OneWeekRemaining, MacosTrayTextIconStyle::CodexTool),
        (true, false)
    );
    assert_eq!(
        macos_text_tray_visibility(TrayUsageDisplayMode::OneWeekRemaining, MacosTrayTextIconStyle::ProgressRing),
        (false, true)
    );
    assert_eq!(
        macos_text_tray_visibility(TrayUsageDisplayMode::Hidden, MacosTrayTextIconStyle::CodexTool),
        (false, false)
    );
}

#[test]
fn single_window_modes_are_the_remaining_ones() {
    assert!(only_show_single_window(TrayUsageDisplayMode::FiveHourRemaining));
    assert!(only_show_single_window(TrayUsageDisplayMode::OneWeekRemaining));
    assert!(!only_show_single_window(TrayUsageDisplayMode::Remaining));
    assert!(!only_show_single_window(TrayUsageDisplayMode::Used));
}

#[test]
fn text_status_items_have_their_own_ids_and_descriptions() {
    assert_eq!(text_tray_id(MacosTrayTextIconStyle::CodexTool), "codextool_legacy_status_bar");
    assert_eq!(text_tray_id(MacosTrayTextIconStyle::ProgressRing), "codextool_progress_text_status_bar");
    assert_eq!(text_tray_description(MacosTrayTextIconStyle::ProgressRing), "进度环文字");
}

#[test]
fn widget_labels_fall_back_to_english() {
    assert_eq!(windows_widget_state_label(AppLocale::EnUs, WindowsWidgetStatus::Fresh), "Quota data is up to date");
    assert_eq!(windows_widget_state_label(AppLocale::ZhCn, WindowsWidgetStatus::Error), "额度刷新失败");
    assert_eq!(windows_widget_state_label(AppLocale::RuRu, WindowsWidgetStatus::Stale), "Данные квоты устарели");
}

#[test]
fn widget_status_prefers_errors_then_missing_data_then_age() {
    let now = 1_000_000;
    assert_eq!(windows_widget_status(true, true, Some(now), now), WindowsWidgetStatus::Error);
    assert_eq!(windows_widget_status(false, false, Some(now), now), WindowsWidgetStatus::Unavailable);
    assert_eq!(windows_widget_status(false, true, None, now), WindowsWidgetStatus::Unavailable);
    assert_eq!(windows_widget_status(false, true, Some(0), now), WindowsWidgetStatus::Stale);
    assert_eq!(windows_widget_status(false, true, Some(now - 601), now), WindowsWidgetStatus::Stale);
    assert_eq!(windows_widget_status(false, true, Some(now - 600), now), WindowsWidgetStatus::Fresh);
    assert_eq!(windows_widget_status(false, true, Some(i64::MAX), i64::MIN), WindowsWidgetStatus::Fresh);
    assert!(windows_widget_visible(TrayUsageDisplayMode::Used, WindowsTaskbarWidgetPlacement::Embedded));
    assert!(!windows_widget_visible(TrayUsageDisplayMode::Used, WindowsTaskbarWidgetPlacement::Hidden));
}
