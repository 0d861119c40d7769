use openmediatransport::logging::{
    default_log_path, default_storage_dir, format_datetime, join_path, join_path_on, log_line,
    logs_dir, tm_datetime,
    storage_dir_from,
};

#[test]
fn storage_override_wins() {
    let dir = storage_dir_from(false, Some("/tmp/omt-store"), Some(r"C:\ProgramData"), Some("/home/user"));
    assert_eq!(dir, "/tmp/omt-store");
}

#[test]
fn logging_default_storage_dir_is_platform_specific() {
    let dir = default_storage_dir(false, Some(r"C:\ProgramData"), Some("/home/user"));
    assert_eq!(dir, "/home/user/.OMT");
    let dir = default_storage_dir(true, Some(r"C:\ProgramData"), Some("/home/user"));
    assert_eq!(dir, r"C:\ProgramData\OMT");
}

#[test]
fn default_storage_dir_without_home_is_relative() {
    assert_eq!(default_storage_dir(false, None, None), "./.OMT");
    assert_eq!(default_storage_dir(true, None, None), r"C:\ProgramData\OMT");
}

#[test]
fn logs_dir_and_log_path() {
    let logs = logs_dir(false, "/home/user/.OMT");
    assert_eq!(logs, "/home/user/.OMT/logs");
    assert_eq!(default_log_path(false, &logs, Some("app"), 42), "/home/user/.OMT/logs/app42.log");
    assert_eq!(default_log_path(false, &logs, None, 7), "/home/user/.OMT/logs/7.log");
}

#[test]
fn join_path_follows_unix_rules() {
    assert_eq!(join_path("a/", "b"), "a/b");
    assert_eq!(join_path("", "b"), "b");
    assert_eq!(join_path("a", "/b"), "/b");
}

#[test]
fn log_line_shape() {
    assert_eq!(
        log_line("2024-01-02 03:04:05", "hello", "openmediatransport"),
        "2024-01-02 03:04:05,[openmediatransport],hello"
    );
}

#[test]
fn datetime_is_zero_padded() {
    assert_eq!(format_datetime(2024, 1, 2, 3, 4, 5), "2024-01-02 03:04:05");
    assert_eq!(format_datetime(12345, 12, 31, 23, 59, 59), "12345-12-31 23:59:59");
}

#[test]
fn log_filename_is_module_name_plus_pid() {
    let pid: u32 = 4242;
    let path = default_log_path(false, "/tmp/logs", Some("omtapp"), pid);
    let name = path.rsplit('/').next().unwrap().to_string();
    assert!(
        name.ends_with(&format!("{}.log", pid)),
        "expected libomtnet ModuleName+pid.log, got {name}"
    );
}

#[test]
fn tm_fields_format_as_local_datetime() {
    assert_eq!(tm_datetime(124, 0, 2, 3, 4, 5), "2024-01-02 03:04:05");
    assert_eq!(tm_datetime(99, 11, 31, 23, 59, 60), "1999-12-31 23:59:60");
    assert_eq!(format_datetime(-5, 1, 2, 3, 4, 5), "-005-01-02 03:04:05");
    assert_eq!(format_datetime(2024, -1, 2, 3, 4, 5), "2024--1-02 03:04:05");
}

#[test]
fn empty_storage_override_means_default() {
    assert_eq!(storage_dir_from(false, Some(""), None, Some("/home/u")), "/home/u/.OMT");
    assert_eq!(storage_dir_from(true, Some(""), Some(r"D:\Data"), None), r"D:\Data\OMT");
}

#[test]
fn windows_paths_join_with_backslash() {
    assert_eq!(join_path_on(true, r"C:\ProgramData\OMT", "logs"), r"C:\ProgramData\OMT\logs");
    assert_eq!(join_path_on(true, r"C:\x\", "a"), r"C:\x\a");
    assert_eq!(join_path_on(true, "C:", "a"), "C:a");
    assert_eq!(join_path_on(true, r"C:\x", r"\y"), r"C:\y");
    assert_eq!(join_path_on(true, r"C:\x", r"D:\y"), r"D:\y");
    let logs = logs_dir(true, r"C:\ProgramData\OMT");
    assert_eq!(default_log_path(true, &logs, Some("app.exe"), 9), r"C:\ProgramData\OMT\logs\app.exe9.log");
}
