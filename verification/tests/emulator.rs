use rcard_host::emulator::{
    halted, load_binary_command, load_model_command, model_load_error, models, parse_renode_log, platform_command,
    platform_error, to_renode_path, vector_table_command, wiring_commands, DeviceBuilder,
};
use rcard_host::logfmt::LogLevel;
use rcard_host::monitor::EmulatorError;

#[test]
fn renode_log_lines() {
    assert_eq!(
        parse_renode_log("  12:00:01.0000 [WARNING] sysbus: unmapped read  "),
        Some((LogLevel::Warn, "sysbus: unmapped read".to_string()))
    );
    assert_eq!(parse_renode_log("[FATAL] boom"), Some((LogLevel::Error, "boom".to_string())));
    assert_eq!(parse_renode_log("t [NOISY]x"), Some((LogLevel::Debug, "x".to_string())));
    assert_eq!(parse_renode_log("t [INFO]   "), None);
    assert_eq!(parse_renode_log("t [VERBOSE] msg"), None);
    assert_eq!(parse_renode_log("no level here"), None);
    assert_eq!(parse_renode_log("t [INFO msg"), None);
    assert_eq!(parse_renode_log("a] [TRACE] b"), Some((LogLevel::Trace, "b".to_string())));
}

#[test]
fn setup_commands() {
    assert_eq!(models().len(), 6);
    assert_eq!(models()[0], "SSD1312.cs");
    assert_eq!(to_renode_path("C:\\tmp\\x"), "C:/tmp/x");
    assert_eq!(load_model_command("/tmp/a", "SSD1312.cs"), "i @/tmp/a/SSD1312.cs");
    assert_eq!(platform_command("/tmp/a"), "machine LoadPlatformDescription @/tmp/a/sf32lb52.repl");
    let w = wiring_commands(4001, 4002, 4003);
    assert_eq!(w.len(), 11);
    assert_eq!(w[0], "emulation CreateServerSocketTerminal 4001 \"usart1_term\" false");
    assert_eq!(w[1], "connector Connect usart1 usart1_term");
    assert_eq!(w[4], "emulation CreateServerSocketTerminal 4003 \"usart3_term\" false");
    assert_eq!(w[10], "usart2 WriteDoubleWord 0x0 0x9");
}

#[test]
fn answers_that_mean_failure() {
    assert!(model_load_error("M.cs", "").is_none());
    assert!(model_load_error("M.cs", "loaded fine").is_none());
    match model_load_error("M.cs", "There was an error compiling") {
        Some(EmulatorError::MonitorCommand(m)) => assert_eq!(m, "loading M.cs: There was an error compiling"),
        other => panic!("unexpected {other:?}"),
    }
    assert!(platform_error(String::new()).is_none());
    match platform_error("Could not find file".to_string()) {
        Some(EmulatorError::MonitorCommand(m)) => assert_eq!(m, "Could not find file"),
        other => panic!("unexpected {other:?}"),
    }
}

#[test]
fn loading_and_running() {
    assert_eq!(load_binary_command("/t/seg_0.bin", 0x1200_00ab), "sysbus LoadBinary @/t/seg_0.bin 0x120000AB");
    assert_eq!(vector_table_command(0x2000_0000), "cpu VectorTableOffset 0x20000000");
    assert_eq!(vector_table_command(0), "cpu VectorTableOffset 0x0");
    assert_eq!(halted("True"), Some(true));
    assert_eq!(halted("False"), Some(false));
    assert_eq!(halted(""), Some(false));
    assert_eq!(halted("true"), None);
}

#[test]
fn builder_inputs() {
    match DeviceBuilder::new().with_places(vec![1]).inputs() {
        Err(EmulatorError::InvalidPlaces(m)) => assert_eq!(m, "no platform description provided (call with_platform)"),
        _ => panic!("error expected"),
    }
    match DeviceBuilder::new().with_platform("repl".into()).inputs() {
        Err(EmulatorError::InvalidPlaces(m)) => assert_eq!(m, "no places binary provided (call with_places)"),
        _ => panic!("error expected"),
    }
    match DeviceBuilder::new().with_platform("repl".into()).with_places(vec![1, 2]).inputs() {
        Ok((p, d)) => {
            assert_eq!(p, "repl");
            assert_eq!(d, vec![1, 2]);
        }
        Err(e) => panic!("unexpected {e:?}"),
    }
}
