use codextool::skin_market::{
    decode_powershell_output, looks_like_utf16, powershell_compatible_path, powershell_result,
    validated_gallery_version_id,
};
use std::path::Path;

#[test]
fn strips_verbatim_drive_prefix_for_windows_powershell() {
    assert_eq!(
        Path::new(&powershell_compatible_path(r"\\?\D:\CodexTool\install.ps1")),
        Path::new(r"D:\CodexTool\install.ps1")
    );
}

#[test]
fn converts_verbatim_unc_prefix_for_windows_powershell() {
    assert_eq!(
        Path::new(&powershell_compatible_path(r"\\?\UNC\server\share\install.ps1")),
        Path::new(r"\\server\share\install.ps1")
    );
}

#[test]
fn validates_official_gallery_version_id() {
    assert!(validated_gallery_version_id("ver_5c7f8023de2ee4b92776".into()).is_ok());
    assert!(validated_gallery_version_id("https://example.com".into()).is_err());
    assert!(validated_gallery_version_id("ver_UPPERCASE123".into()).is_err());
}

#[test]
fn gallery_version_id_is_trimmed_and_length_checked() {
    assert_eq!(
        validated_gallery_version_id("  ver_12345678 ".into()).unwrap(),
        "ver_12345678"
    );
    assert!(validated_gallery_version_id("ver_1234567".into()).is_err());
    assert_eq!(
        validated_gallery_version_id("ver_".to_string() + &"a".repeat(65)).unwrap_err(),
        "DreamSkin 主题版本编号无效。"
    );
}

#[test]
fn leaves_ordinary_paths_alone() {
    assert_eq!(powershell_compatible_path(r"C:\Tools\x.ps1"), r"C:\Tools\x.ps1");
}

#[test]
fn decodes_utf16_utf8_and_gbk_output() {
    assert_eq!(decode_powershell_output(&[]), "");
    assert_eq!(decode_powershell_output(&[0xff, 0xfe, b'o', 0, b'k', 0, b'\n', 0]), "ok");
    assert_eq!(decode_powershell_output(" 完成 \r\n".as_bytes()), "完成");
    // "中文" in GBK
    assert_eq!(decode_powershell_output(&[0xd6, 0xd0, 0xce, 0xc4]), "中文");
    let wide: Vec<u8> = "abcdefghij".bytes().flat_map(|b| [b, 0]).collect();
    assert!(looks_like_utf16(&wide));
    assert_eq!(decode_powershell_output(&wide), "abcdefghij");
    assert!(!looks_like_utf16(b"abcdefghijklmnopqrstuvwxyz"));
}

#[test]
fn picks_the_powershell_failure_detail() {
    assert_eq!(powershell_result(true, "out".into(), "err".into(), "exit code: 1"), Ok("out".to_string()));
    assert_eq!(powershell_result(false, "out".into(), "err".into(), "exit code: 1"), Err("err".to_string()));
    assert_eq!(powershell_result(false, "out".into(), "".into(), "exit code: 1"), Err("out".to_string()));
    assert_eq!(
        powershell_result(false, "".into(), "".into(), "exit code: 1"),
        Err("Dream Skin 本地运行器退出，状态码: exit code: 1".to_string())
    );
}

#[test]
fn utf16_output_pairs_surrogates_and_replaces_lone_ones() {
    assert_eq!(
        decode_powershell_output(&[0xff, 0xfe, 0x00, 0xd8, b'A', 0, 0x3d, 0xd8, 0x00, 0xde]),
        "\u{FFFD}A\u{1F600}"
    );
    assert_eq!(decode_powershell_output(&[0xff, 0xfe, 0x00, 0xdc, b'B', 0]), "\u{FFFD}B");
}
