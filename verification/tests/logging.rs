use lyssa::cli::{backend_of, Backend};
use lyssa::logger::{
    level_filter_of, style_of, LogColor, LogLevel, LoggerError, LoggerState, LyssaLogger,
};
use lyssa::version::clean_fio_version;

#[test]
fn test_test() {
    let mut state = LoggerState::new();
    let _ = LyssaLogger::new().init(LogLevel::Trace, &mut state);

    assert!(true);
}

#[test]
fn logger_initializes_exactly_once() {
    let mut state = LoggerState::new();
    assert_eq!(LyssaLogger::new().init(LogLevel::Debug, &mut state), Ok(()));
    assert_eq!(state.level, Some(LogLevel::Debug));
    assert_eq!(
        LyssaLogger::new().init(LogLevel::Error, &mut state),
        Err(LoggerError::AlreadyInitialized)
    );
    // a failed late init changes nothing
    assert_eq!(state.level, Some(LogLevel::Debug));
}

#[test]
fn every_severity_is_enabled() {
    let logger = LyssaLogger::new();
    for level in [
        LogLevel::Error,
        LogLevel::Warn,
        LogLevel::Info,
        LogLevel::Debug,
        LogLevel::Trace,
    ] {
        assert!(logger.enabled(level));
    }
}

#[test]
fn each_severity_has_its_format_and_color() {
    assert_eq!(style_of(LogLevel::Error), (true, LogColor::Red));
    assert_eq!(style_of(LogLevel::Warn), (false, LogColor::Yellow));
    assert_eq!(style_of(LogLevel::Info), (false, LogColor::Plain));
    assert_eq!(style_of(LogLevel::Debug), (true, LogColor::Blue));
    assert_eq!(style_of(LogLevel::Trace), (true, LogColor::Purple));
}

#[test]
fn severity_names_parse_with_info_as_default() {
    assert_eq!(level_filter_of(&b"trace".to_vec()), LogLevel::Trace);
    assert_eq!(level_filter_of(&b"debug".to_vec()), LogLevel::Debug);
    assert_eq!(level_filter_of(&b"info".to_vec()), LogLevel::Info);
    assert_eq!(level_filter_of(&b"warn".to_vec()), LogLevel::Warn);
    assert_eq!(level_filter_of(&b"error".to_vec()), LogLevel::Error);
    assert_eq!(level_filter_of(&b"verbose".to_vec()), LogLevel::Info);
    assert_eq!(level_filter_of(&b"".to_vec()), LogLevel::Info);
}

#[test]
fn backend_names_parse_with_fio_as_default() {
    assert_eq!(backend_of(&b"fio".to_vec()), Backend::Fio);
    assert_eq!(backend_of(&b"disktest".to_vec()), Backend::Disktest);
    assert_eq!(backend_of(&b"something".to_vec()), Backend::Fio);
}

#[test]
fn version_probe_output_is_cleaned() {
    assert_eq!(clean_fio_version(&b"fio-3.36\n".to_vec()), b"3.36".to_vec());
    assert_eq!(clean_fio_version(&b"  fio-3.36  ".to_vec()), b"3.36".to_vec());
    assert_eq!(clean_fio_version(&b"fio-fio-1.0".to_vec()), b"1.0".to_vec());
    assert_eq!(clean_fio_version(&b"3.36".to_vec()), b"3.36".to_vec());
    assert_eq!(clean_fio_version(&b" \t\n".to_vec()), b"".to_vec());
}
