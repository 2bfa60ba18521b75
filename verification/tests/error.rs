use lib::error::Error;

#[test]
fn error_messages_name_the_lengths() {
    assert_eq!(Error::LengthMismatch { left: 3, right: 2 }.message(), "input lengths differ: 3 != 2");
    assert_eq!(
        Error::OutputTooShort { input: 120, output: 7 }.message(),
        "output length 7 is shorter than input length 120"
    );
    assert_eq!(
        Error::LengthTooLarge { len: 4294967296 }.message(),
        "length does not fit in u32: 4294967296"
    );
    assert_eq!(Error::LengthTooLarge { len: 0 }.message(), "length does not fit in u32: 0");
}

#[test]
fn error_messages_of_the_other_variants() {
    assert_eq!(Error::InvalidSegmentation.message(), "segmentation is not a valid ordered partition");
    assert_eq!(Error::UnboundColumn.message(), "column is not bound to device storage");
    assert_eq!(Error::ForeignExecutor.message(), "executor does not own this device data");
    assert_eq!(
        Error::Launch { message: String::from("out of memory") }.message(),
        "CubeCL launch failed: out of memory"
    );
}
