use qmkonnect::errors::{
    CommandError, ConfigError, DeviceError, ErrorContext, QMKError, ValidationError,
};

#[test]
fn error_codes_per_category() {
    assert_eq!(
        QMKError::Config(ConfigError::MissingField {
            field: "x".to_string()
        })
        .get_error_code(),
        1000
    );
    assert_eq!(
        QMKError::Device(DeviceError::Disconnected).get_error_code(),
        2000
    );
    assert_eq!(
        QMKError::CircuitBreakerOpen { failures: 3 }.get_error_code(),
        9000
    );
    assert_eq!(
        QMKError::Degradation {
            component: "a".to_string(),
            reason: "b".to_string()
        }
        .get_error_code(),
        9500
    );
    assert_eq!(
        QMKError::Io(std::io::Error::new(std::io::ErrorKind::Other, "x")).get_error_code(),
        9900
    );
    let json_err = serde_json::from_str::<u32>("x").unwrap_err();
    assert_eq!(QMKError::JsonSerialization(json_err).get_error_code(), 10002);
}

#[test]
fn security_related_errors() {
    assert!(QMKError::CommandExecution {
        command: "c".to_string(),
        reason: "r".to_string()
    }
    .is_security_related());
    assert!(QMKError::Validation(ValidationError::InvalidPathSequence {
        path: "p".to_string(),
        sequence: "..".to_string()
    })
    .is_security_related());
    assert!(QMKError::Validation(ValidationError::InvalidStringBytes {
        value: "v".to_string(),
        pos: 1
    })
    .is_security_related());
    assert!(QMKError::InsufficientPermissions {
        operation: "o".to_string(),
        required: "r".to_string()
    }
    .is_security_related());
    assert!(!QMKError::Validation(ValidationError::StringTooLong { max: 3 }).is_security_related());
    assert!(!QMKError::MutexLockFailed {
        component: "m".to_string()
    }
    .is_security_related());
    assert!(!ValidationError::EmptyValue {
        field: "f".to_string()
    }
    .is_security_related());
    let _ = CommandError::OutputTooLarge { size: 10 };
}

#[test]
fn context_add_get_and_overwrite() {
    let ctx = ErrorContext::new().add("a", "1").add("b", "2").add("a", "3");
    assert_eq!(ctx.get("a"), Some("3"));
    assert_eq!(ctx.get("b"), Some("2"));
    assert_eq!(ctx.get("c"), None);
    assert!(ctx.contains_key("b"));
    assert!(!ctx.contains_key("c"));
    let pairs = ctx.iter();
    assert_eq!(pairs.len(), 2);
    assert!(pairs.contains(&("a", "3")));
    assert!(pairs.contains(&("b", "2")));
}

#[test]
fn context_timestamp_seconds() {
    let ctx = ErrorContext::new().with_timestamp_secs(Some(1700000000));
    assert_eq!(ctx.get("timestamp"), Some("1700000000"));
    let ctx = ErrorContext::new().with_timestamp_secs(None);
    assert!(!ctx.contains_key("timestamp"));
    let t = std::time::UNIX_EPOCH + std::time::Duration::from_secs(42);
    assert_eq!(ErrorContext::new().timestamp(t).get("timestamp"), Some("42"));
}

#[test]
fn context_info_fields() {
    let e = QMKError::Timeout {
        timeout: "5s".to_string(),
    };
    let ctx = e.context_info();
    assert_eq!(ctx.get("error_code"), Some("8000"));
    assert_eq!(ctx.get("security_related"), Some("false"));
    assert_eq!(ctx.get("error_type"), Some("qmkonnect::core::errors::QMKError"));
    assert!(ctx.contains_key("timestamp"));
    let e = QMKError::CommandExecution {
        command: "c".to_string(),
        reason: "r".to_string(),
    };
    assert_eq!(e.context_info().get("security_related"), Some("true"));
    assert_eq!(e.context_info().get("error_code"), Some("5000"));
}

#[test]
fn context_clone_keeps_entries() {
    let ctx = ErrorContext::default().add("k", "v");
    let c2 = ctx.clone();
    assert_eq!(c2.get("k"), Some("v"));
}
