use rusty_vault::paths::{backup_file_name, BackupPathError};
use rusty_vault::prompt::{confirms_replace, trim_reply, SttyArgs};

#[test]
fn stty_arguments() {
    assert_eq!(SttyArgs::EchoOn.value(), vec!["echo".to_string()]);
    assert_eq!(SttyArgs::EchoOff.value(), vec!["-echo".to_string()]);
}

#[test]
fn replace_is_confirmed_by_y_only() {
    assert!(confirms_replace("Y"));
    assert!(confirms_replace("y"));
    assert!(!confirms_replace("n"));
    assert!(!confirms_replace(""));
    assert!(!confirms_replace("yes"));
}

#[test]
fn backup_name_appends_bak() {
    assert_eq!(backup_file_name(Some(Some("vault"))), Ok("vault.bak".to_string()));
}

#[test]
fn backup_name_errors() {
    assert_eq!(backup_file_name(None), Err(BackupPathError::NotAFile));
    assert_eq!(backup_file_name(Some(None)), Err(BackupPathError::NotUnicode));
    assert_eq!(BackupPathError::NotAFile.message(), "vault file must be a regular file");
    assert_eq!(BackupPathError::NotUnicode.message(), "vault file name must be regular unicode");
}

#[test]
fn reply_is_trimmed() {
    assert_eq!(trim_reply("  hello world \n"), "hello world");
    assert_eq!(trim_reply("\u{3000}x\u{a0}"), "x");
    assert_eq!(trim_reply(" \t\r\n"), "");
    assert_eq!(trim_reply(""), "");
}

#[test]
fn reply_trimming_agrees_with_unicode_white_space() {
    for code in 0u32..0x3100 {
        if let Some(c) = char::from_u32(code) {
            let s = format!("{}a{}", c, c);
            assert_eq!(trim_reply(&s), s.trim(), "code point {:x}", code);
        }
    }
}
