//! Decisions of the tray and taskbar usage surfaces: which items show, the
//! names they persist under and the health state of the taskbar widget.
use vstd::prelude::*;

use crate::models::{AppLocale, MacosTrayTextIconStyle, TrayUsageDisplayMode, WindowsTaskbarWidgetPlacement};

verus! {

/// Seconds after which taskbar usage data counts as stale.
pub const WINDOWS_WIDGET_STALE_AFTER_SECONDS: i64 = 600;

/// The health of the usage data the taskbar widget shows.
#[derive(Debug, Clone, Copy, PartialEq, Eq, Structural)]
pub enum WindowsWidgetStatus {
    Fresh,
    Stale,
    Error,
    Unavailable,
}

/// Name under which macOS persists the position of the text status item.
pub fn macos_text_status_autosave_name() -> (r: &'static str)
    ensures
        r@ == "com.yourname.codextool.status-item.text.v2"@,
{
    "com.yourname.codextool.status-item.text.v2"
}

/// Name under which macOS persists the position of the quota status item.
pub fn macos_quota_status_autosave_name() -> (r: &'static str)
    ensures
        r@ == "com.yourname.codextool.status-item.quota.v2"@,
{
    "com.yourname.codextool.status-item.quota.v2"
}

pub open spec fn single_window_mode(mode: TrayUsageDisplayMode) -> bool {
    mode == TrayUsageDisplayMode::FiveHourRemaining || mode == TrayUsageDisplayMode::OneWeekRemaining
}

/// The title shows one usage window only (five-hour or one-week remaining).
pub fn only_show_single_window(mode: TrayUsageDisplayMode) -> (r: bool)
    ensures
        r == single_window_mode(mode),
{
    match mode {
        TrayUsageDisplayMode::FiveHourRemaining | TrayUsageDisplayMode::OneWeekRemaining => true,
        _ => false,
    }
}

/// Every mode but `Hidden` shows a usage surface.
pub fn should_show_usage_surface(mode: TrayUsageDisplayMode) -> (r: bool)
    ensures
        r == (mode != TrayUsageDisplayMode::Hidden),
{
    mode != TrayUsageDisplayMode::Hidden
}

/// Which of the two macOS text status items show: (CodexTool text, progress
/// ring text). At most one does, and none when the usage surface is hidden.
pub fn macos_text_tray_visibility(mode: TrayUsageDisplayMode, style: MacosTrayTextIconStyle) -> (r: (
    bool,
    bool,
))
    ensures
        r.0 == (mode != TrayUsageDisplayMode::Hidden && style == MacosTrayTextIconStyle::CodexTool),
        r.1 == (mode != TrayUsageDisplayMode::Hidden && style == MacosTrayTextIconStyle::ProgressRing),
{
    if !should_show_usage_surface(mode) {
        return (false, false);
    }
    match style {
        MacosTrayTextIconStyle::CodexTool => (true, false),
        MacosTrayTextIconStyle::ProgressRing => (false, true),
    }
}

/// The mode the Windows taskbar uses: the macOS-only `Hidden` mode falls back
/// to one-week remaining, since Windows has its own placement switch.
pub fn effective_windows_usage_display_mode(mode: TrayUsageDisplayMode) -> (r: TrayUsageDisplayMode)
    ensures
        mode == TrayUsageDisplayMode::Hidden ==> r == TrayUsageDisplayMode::OneWeekRemaining,
        mode != TrayUsageDisplayMode::Hidden ==> r == mode,
{
    if mode == TrayUsageDisplayMode::Hidden {
        TrayUsageDisplayMode::OneWeekRemaining
    } else {
        mode
    }
}

/// Tray id of a macOS text status item.
pub fn text_tray_id(style: MacosTrayTextIconStyle) -> (r: &'static str)
    ensures
        style == MacosTrayTextIconStyle::CodexTool ==> r@ == "codextool_legacy_status_bar"@,
        style == MacosTrayTextIconStyle::ProgressRing ==> r@ == "codextool_progress_text_status_bar"@,
{
    match style {
        MacosTrayTextIconStyle::CodexTool => "codextool_legacy_status_bar",
        MacosTrayTextIconStyle::ProgressRing => "codextool_progress_text_status_bar",
    }
}

/// Description of a macOS text status item.
pub fn text_tray_description(style: MacosTrayTextIconStyle) -> (r: &'static str)
    ensures
        style == MacosTrayTextIconStyle::CodexTool ==> r@ == "CodexTool 文字"@,
        style == MacosTrayTextIconStyle::ProgressRing ==> r@ == "进度环文字"@,
{
    match style {
        MacosTrayTextIconStyle::CodexTool => "CodexTool 文字",
        MacosTrayTextIconStyle::ProgressRing => "进度环文字",
    }
}

/// The line naming the widget's health state, per locale (English for
/// locales without their own text).
pub open spec fn widget_state_label(locale: AppLocale, status: WindowsWidgetStatus) -> Seq<char> {
    match (locale, status) {
        (AppLocale::ZhCn, WindowsWidgetStatus::Fresh) => "额度数据已更新"@,
        (AppLocale::ZhCn, WindowsWidgetStatus::Stale) => "额度数据已过期"@,
        (AppLocale::ZhCn, WindowsWidgetStatus::Error) => "额度刷新失败"@,
        (AppLocale::ZhCn, WindowsWidgetStatus::Unavailable) => "额度数据不可用"@,
        (AppLocale::JaJp, WindowsWidgetStatus::Fresh) => "使用量データは最新です"@,
        (AppLocale::JaJp, WindowsWidgetStatus::Stale) => "使用量データが古くなっています"@,
        (AppLocale::JaJp, WindowsWidgetStatus::Error) => "使用量の更新に失敗しました"@,
        (AppLocale::JaJp, WindowsWidgetStatus::Unavailable) => "使用量データを利用できません"@,
        (AppLocale::KoKr, WindowsWidgetStatus::Fresh) => "사용량 데이터가 최신입니다"@,
        (AppLocale::KoKr, WindowsWidgetStatus::Stale) => "사용량 데이터가 오래되었습니다"@,
        (AppLocale::KoKr, WindowsWidgetStatus::Error) => "사용량 새로 고침 실패"@,
        (AppLocale::KoKr, WindowsWidgetStatus::Unavailable) => "사용량 데이터를 사용할 수 없음"@,
        (AppLocale::RuRu, WindowsWidgetStatus::Fresh) => "Данные квоты обновлены"@,
        (AppLocale::RuRu, WindowsWidgetStatus::Stale) => "Данные квоты устарели"@,
        (AppLocale::RuRu, WindowsWidgetStatus::Error) => "Не удалось обновить квоту"@,
        (AppLocale::RuRu, WindowsWidgetStatus::Unavailable) => "Данные квоты недоступны"@,
        (_, WindowsWidgetStatus::Fresh) => "Quota data is up to date"@,
        (_, WindowsWidgetStatus::Stale) => "Quota data is stale"@,
        (_, WindowsWidgetStatus::Error) => "Quota refresh failed"@,
        (_, WindowsWidgetStatus::Unavailable) => "Quota data is unavailable"@,
    }
}

/// The localized name of the widget's health state.
pub fn windows_widget_state_label(locale: AppLocale, status: WindowsWidgetStatus) -> (r: &'static str)
    ensures
        r@ == widget_state_label(locale, status),
{
    match (locale, status) {
        (AppLocale::ZhCn, WindowsWidgetStatus::Fresh) => "额度数据已更新",
        (AppLocale::ZhCn, WindowsWidgetStatus::Stale) => "额度数据已过期",
        (AppLocale::ZhCn, WindowsWidgetStatus::Error) => "额度刷新失败",
        (AppLocale::ZhCn, WindowsWidgetStatus::Unavailable) => "额度数据不可用",
        (AppLocale::JaJp, WindowsWidgetStatus::Fresh) => "使用量データは最新です",
        (AppLocale::JaJp, WindowsWidgetStatus::Stale) => "使用量データが古くなっています",
        (AppLocale::JaJp, WindowsWidgetStatus::Error) => "使用量の更新に失敗しました",
        (AppLocale::JaJp, WindowsWidgetStatus::Unavailable) => "使用量データを利用できません",
        (AppLocale::KoKr, WindowsWidgetStatus::Fresh) => "사용량 데이터가 최신입니다",
        (AppLocale::KoKr, WindowsWidgetStatus::Stale) => "사용량 데이터가 오래되었습니다",
        (AppLocale::KoKr, WindowsWidgetStatus::Error) => "사용량 새로 고침 실패",
        (AppLocale::KoKr, WindowsWidgetStatus::Unavailable) => "사용량 데이터를 사용할 수 없음",
        (AppLocale::RuRu, WindowsWidgetStatus::Fresh) => "Данные квоты обновлены",
        (AppLocale::RuRu, WindowsWidgetStatus::Stale) => "Данные квоты устарели",
        (AppLocale::RuRu, WindowsWidgetStatus::Error) => "Не удалось обновить квоту",
        (AppLocale::RuRu, WindowsWidgetStatus::Unavailable) => "Данные квоты недоступны",
        (_, WindowsWidgetStatus::Fresh) => "Quota data is up to date",
        (_, WindowsWidgetStatus::Stale) => "Quota data is stale",
        (_, WindowsWidgetStatus::Error) => "Quota refresh failed",
        (_, WindowsWidgetStatus::Unavailable) => "Quota data is unavailable",
    }
}

/// `a.saturating_sub(b)` on `i64`.
pub open spec fn saturating_diff(a: i64, b: i64) -> int {
    if a - b > i64::MAX {
        i64::MAX as int
    } else if a - b < i64::MIN {
        i64::MIN as int
    } else {
        a - b
    }
}

/// Usage fetched at `fetched_at` is stale at `now` when its timestamp is not
/// positive or more than ten minutes have passed.
pub open spec fn usage_is_stale(fetched_at: Option<i64>, now: i64) -> bool {
    match fetched_at {
        Some(t) => t <= 0 || saturating_diff(now, t) > WINDOWS_WIDGET_STALE_AFTER_SECONDS,
        None => false,
    }
}

/// The widget's state: an error wins; then no current account or no usage
/// makes it unavailable; then stale data; else fresh.
pub open spec fn widget_status(
    has_error: bool,
    has_current: bool,
    fetched_at: Option<i64>,
    now: i64,
) -> WindowsWidgetStatus {
    if has_error {
        WindowsWidgetStatus::Error
    } else if !has_current || fetched_at is None {
        WindowsWidgetStatus::Unavailable
    } else if usage_is_stale(fetched_at, now) {
        WindowsWidgetStatus::Stale
    } else {
        WindowsWidgetStatus::Fresh
    }
}

/// Health of the taskbar widget's data. `has_error` tells whether the
/// surface or the current account reports an error, `fetched_at` when the
/// current account's usage was fetched (`None` without usage), `now` the
/// current Unix time.
pub fn windows_widget_status(has_error: bool, has_current: bool, fetched_at: Option<i64>, now: i64) -> (r:
    WindowsWidgetStatus)
    ensures
        r == widget_status(has_error, has_current, fetched_at, now),
{
    if has_error {
        return WindowsWidgetStatus::Error;
    }
    let t = match fetched_at {
        Some(t) if has_current => t,
        _ => {
            return WindowsWidgetStatus::Unavailable;
        },
    };
    if t <= 0 {
        return WindowsWidgetStatus::Stale;
    }
    // `now.saturating_sub(t)` for a positive `t`
    let elapsed = if now < i64::MIN + t {
        i64::MIN
    } else {
        now - t
    };
    if elapsed > WINDOWS_WIDGET_STALE_AFTER_SECONDS {
        WindowsWidgetStatus::Stale
    } else {
        WindowsWidgetStatus::Fresh
    }
}

/// The taskbar widget shows unless the usage surface or the widget itself is
/// hidden.
pub fn windows_widget_visible(mode: TrayUsageDisplayMode, placement: WindowsTaskbarWidgetPlacement) -> (r:
    bool)
    ensures
        r == (mode != TrayUsageDisplayMode::Hidden && placement != WindowsTaskbarWidgetPlacement::Hidden),
{
    should_show_usage_surface(mode) && placement != WindowsTaskbarWidgetPlacement::Hidden
}

} // verus!
