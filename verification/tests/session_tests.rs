use base_converter::App;
use base_converter::Base;
use base_converter::CmdError;
use base_converter::START_CMD;

#[test]
fn test_is_command() {
    let app = App::new();

    // true cases
    assert!(app.is_command(&format!("{}from hex to dec", START_CMD)));

    // false cases
    assert!(!app.is_command("from hex to dec"));
    assert!(!app.is_command("0x42"));
    assert!(!app.is_command(""));
    assert!(!app.is_command("72"));
}

#[test]
fn test_change_base() {
    let mut app = App::new();

    // Ok cases
    assert!(
        app.execute(&format!("{}from hex to dec", START_CMD)).is_ok()
            && app.in_base == Base::Hex
            && app.out_base == Base::Dec
    );
    assert!(
        app.execute(&format!("{}from hex to hex", START_CMD)).is_ok()
            && app.in_base == Base::Hex
            && app.out_base == Base::Hex
    );
    assert!(
        app.execute(&format!("{}from hex to bin", START_CMD)).is_ok()
            && app.in_base == Base::Hex
            && app.out_base == Base::Bin
    );
    assert!(
        app.execute(&format!("{}from bin to bin", START_CMD)).is_ok()
            && app.in_base == Base::Bin
            && app.out_base == Base::Bin
    );
    assert!(
        app.execute(&format!("{}from bin to dec", START_CMD)).is_ok()
            && app.in_base == Base::Bin
            && app.out_base == Base::Dec
    );
    assert!(
        app.execute(&format!("{}from bin to hex", START_CMD)).is_ok()
            && app.in_base == Base::Bin
            && app.out_base == Base::Hex
    );
    assert!(app.execute(&format!("{}  from bin   to     hex  ", START_CMD)).is_ok());
    assert!(app.execute(&format!("{}from hex", START_CMD)).is_ok() && app.in_base == Base::Hex);
    assert!(app.execute(&format!("{}from dec", START_CMD)).is_ok() && app.in_base == Base::Dec);
    assert!(app.execute(&format!("{}from bin", START_CMD)).is_ok() && app.in_base == Base::Bin);
    assert!(app.execute(&format!("{}to hex", START_CMD)).is_ok() && app.out_base == Base::Hex);
    assert!(app.execute(&format!("{}to dec", START_CMD)).is_ok() && app.out_base == Base::Dec);
    assert!(app.execute(&format!("{}to bin", START_CMD)).is_ok() && app.out_base == Base::Bin);

    // Err cases
    assert!(app.execute("from hex to dec").is_err());
    assert!(app.execute(&format!("{}:from hex to dec", START_CMD)).is_err());
    assert!(app.execute(&format!("{}from hex to dex", START_CMD)).is_err());
    assert!(app.execute(&format!("{}from hex to dec.", START_CMD)).is_err());
    assert!(app.execute(&format!("{}from hec", START_CMD)).is_err());
    assert!(app.execute(&format!("{}fro hex", START_CMD)).is_err());
    assert!(app.execute(&format!("{}t hex", START_CMD)).is_err());
    assert!(app.execute(&format!("{}to hx", START_CMD)).is_err());
}

#[test]
fn test_help_preserves_state() {
    let mut app = App::new();
    assert!(app.execute(":from dec to hex").is_ok());
    assert!(app.execute(":h").is_ok());
    assert!(app.in_base == Base::Dec && app.out_base == Base::Hex);
    assert!(app.execute(":help").is_ok());
    assert!(app.in_base == Base::Dec && app.out_base == Base::Hex);
    assert!(app.execute(":  help  ").is_ok());
    assert!(app.in_base == Base::Dec && app.out_base == Base::Hex);
    assert!(App::is_help(":h"));
    assert!(App::is_help(":help"));
    assert!(!App::is_help(":from hex"));
    assert!(!App::is_help("help"));
}

#[test]
fn test_partial_application() {
    let mut app = App::new();
    assert!(app.execute(":from bin to dec").is_ok());
    // the first change is applied, then the second fails and is not rolled back
    assert!(app.execute(":from hex to dex").is_err());
    assert!(app.in_base == Base::Hex);
    assert!(app.out_base == Base::Dec);
}

#[test]
fn test_token_count() {
    let mut app = App::new();
    assert!(app.execute(":from hex to dec").is_ok());
    assert!(app.in_base == Base::Hex && app.out_base == Base::Dec);
    assert!(app.execute(":from hex to dec.").is_err());
    assert!(app.execute("from hex to dec").is_err());
    assert!(app.execute(":from").is_err());
    assert!(app.execute(":from hex to").is_err());
    assert!(app.execute(":from hex to dec now").is_err());
}

#[test]
fn test_error_messages() {
    let mut app = App::new();
    match app.execute(":from hex to dex") {
        Err(e) => assert_eq!(e.message(), String::from("No type dex")),
        Ok(()) => panic!("expected an error"),
    }
    match app.execute(":fro hex") {
        Err(e) => assert_eq!(e.message(), String::from("Error: wrong command format")),
        Ok(()) => panic!("expected an error"),
    }
    match app.change_base("to", "hx") {
        Err(CmdError::UnknownBase(n)) => assert_eq!(n, String::from("hx")),
        _ => panic!("expected an unknown-base error"),
    }
}

#[test]
fn test_convert() {
    let app = App::new();
    // default bases: hex in, bin out
    assert_eq!(app.convert("0x42").ok(), Some(String::from("0100_0010")));
    assert_eq!(app.convert("10").ok(), Some(String::from("0001_0000")));
    assert_eq!(app.convert("f").ok(), Some(String::from("1111")));
    assert!(app.convert("0xgk").is_err());

    let mut app = App::new();
    assert!(app.execute(":from dec to hex").is_ok());
    assert_eq!(app.convert("255").ok(), Some(String::from("0xff")));
}

#[test]
fn test_labels() {
    let mut app = App::new();
    assert_eq!(app.get_prompt_label(), "hex");
    assert_eq!(app.output_label(), "bin");
    assert!(app.execute(":from dec to hex").is_ok());
    assert_eq!(app.get_prompt_label(), "dec");
    assert_eq!(app.output_label(), "hex");
}

#[test]
fn test_change_base_direct() {
    let mut app = App::new();
    assert!(app.change_base("from", "bin").is_ok());
    assert!(app.in_base == Base::Bin);
    assert!(app.change_base("to", "dec").is_ok());
    assert!(app.out_base == Base::Dec);
    assert!(app.change_base("over", "dec").is_err());
    assert!(app.in_base == Base::Bin && app.out_base == Base::Dec);
}
