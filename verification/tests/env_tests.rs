use chrome_extension_cleaner::env::{chrome_status, chrome_version, lists_chrome_exe, os_label, user_data_dir, ChromeStatus};

#[test]
fn running_as_soon_as_one_probe_finds_chrome() {
    assert_eq!(chrome_status(&vec![Some(false), Some(true), None]), ChromeStatus::Running);
    assert_eq!(chrome_status(&vec![None, Some(true)]), ChromeStatus::Running);
}

#[test]
fn failed_probe_never_reads_as_stopped() {
    assert_eq!(chrome_status(&vec![Some(false), None, Some(false)]), ChromeStatus::Unknown);
    assert_eq!(chrome_status(&vec![Some(false), Some(false), Some(false)]), ChromeStatus::Stopped);
    assert_eq!(chrome_status(&vec![]), ChromeStatus::Stopped);
}

#[test]
fn user_data_dir_names_where_it_looked() {
    assert_eq!(user_data_dir("/home/u/.config/google-chrome", true).unwrap(), "/home/u/.config/google-chrome");
    assert_eq!(
        user_data_dir("/home/u/.config/google-chrome", false).unwrap_err(),
        "Chrome user-data directory not found: /home/u/.config/google-chrome"
    );
}

#[test]
fn chrome_version_takes_first_non_blank_sidecar() {
    assert_eq!(chrome_version(&vec![Some("  152.0.7977.81\n".into()), Some("1".into())]).as_deref(), Some("152.0.7977.81"));
    assert_eq!(chrome_version(&vec![None, Some("\t151.0\n".into())]).as_deref(), Some("151.0"));
    assert_eq!(chrome_version(&vec![Some("   \n".into()), Some("150".into())]).as_deref(), Some("150"));
    assert_eq!(chrome_version(&vec![None, Some("".into())]), None);
}

#[test]
fn os_labels_per_platform() {
    assert_eq!(os_label("macos", Some("15.7.2\n".into())), "macOS 15.7.2");
    assert_eq!(os_label("macos", Some("  ".into())), "macOS");
    assert_eq!(os_label("macos", None), "macOS");
    assert_eq!(os_label("windows", None), "Windows windows");
    assert_eq!(os_label("linux", Some("6.8.0-45-generic\n".into())), "linux 6.8.0-45-generic");
    assert_eq!(os_label("linux", None), "linux");
}

#[test]
fn tasklist_output_is_searched_case_insensitively() {
    assert!(lists_chrome_exe(&b"Image Name  PID\nCHROME.EXE   1234".to_vec()));
    assert!(lists_chrome_exe(&b"chrome.exe".to_vec()));
    assert!(!lists_chrome_exe(&b"INFO: No tasks are running".to_vec()));
    assert!(!lists_chrome_exe(&b"chrome.ex".to_vec()));
    assert!(!lists_chrome_exe(&vec![]));
}
