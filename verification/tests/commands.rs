use realgeopolitics::commands::{
    command_for, find_country_index, parse_command_line, parse_core_flag, parse_industry_subcommand, resolve_country_index,
    speed_preset, Args, CliError, Command, CommandRegistry, ExitCommand, HelpAliasCommand, HelpCommand,
    IndustryCommand, IndustrySubcommand, InspectCommand, OverviewAliasCommand, OverviewCommand,
    QuitCommand, SetCommand, ShowCommand, SpeedCommand, SpeedPreset, TickCommand,
};

fn registry() -> CommandRegistry<u8> {
    let mut registry = CommandRegistry::new();
    let names = [
        HelpCommand::name(),
        HelpAliasCommand::name(),
        OverviewCommand::name(),
        OverviewAliasCommand::name(),
        InspectCommand::name(),
        ShowCommand::name(),
        SetCommand::name(),
        TickCommand::name(),
        SpeedCommand::name(),
        IndustryCommand::name(),
        QuitCommand::name(),
        ExitCommand::name(),
    ];
    for (i, name) in names.iter().enumerate() {
        assert!(!registry.contains(name));
        registry.register(*name, i as u8);
    }
    registry
}

#[test]
fn args_are_taken_in_order() {
    let mut args = Args::new(vec!["Asteria", "10"]);
    assert_eq!(args.next(), Some("Asteria"));
    assert_eq!(args.next_required("missing").unwrap(), "10");
    assert_eq!(args.next(), None);
    match args.next_required("国を指定してください。") {
        Err(CliError::MissingArgument(m)) => assert_eq!(m, "国を指定してください。"),
        other => panic!("unexpected: {:?}", other),
    }
}

#[test]
fn input_lines_dispatch_by_lowercased_head() {
    let registry = registry();
    let (handler, mut args) = match registry.execute_input("  INSPECT   Asteria  extra ") {
        Ok(found) => found,
        Err(e) => panic!("unexpected: {}", e.message()),
    };
    assert_eq!(*handler, 4);
    assert_eq!(args.next(), Some("Asteria"));
    assert_eq!(args.next(), Some("extra"));
    assert_eq!(args.next(), None);
    let (handler, _) = match registry.execute_input("?") {
        Ok(found) => found,
        Err(_) => panic!("help alias"),
    };
    assert_eq!(*handler, 1);
    assert!(matches!(registry.execute_input("   "), Err(CliError::NoCommand)));
    match registry.execute_input("Launch now") {
        Err(e) => {
            assert_eq!(e, CliError::UnknownCommand("launch".to_string()));
            assert!(e.message().contains("未知のコマンドです: launch"));
        }
        Ok(_) => panic!("unknown command"),
    }
    assert!(registry.dispatch("exit").is_ok());
}

#[test]
fn core_flags_and_subcommands() {
    assert_eq!(parse_core_flag(None), Ok(true));
    assert_eq!(parse_core_flag(Some("CORE")), Ok(true));
    assert_eq!(parse_core_flag(Some("NoCore")), Ok(false));
    assert_eq!(
        parse_core_flag(Some("maybe")),
        Err(CliError::UnknownFlag("maybe".to_string()))
    );
    assert_eq!(
        parse_industry_subcommand("Subsidize"),
        Ok(IndustrySubcommand::Subsidize)
    );
    assert_eq!(
        parse_industry_subcommand("Tax"),
        Err(CliError::UnknownIndustrySubcommand("tax".to_string()))
    );
}

#[test]
fn speed_presets_by_name() {
    assert_eq!(speed_preset("SLOW"), Some(SpeedPreset::Slow));
    assert_eq!(speed_preset("std"), Some(SpeedPreset::Normal));
    assert_eq!(speed_preset("high"), Some(SpeedPreset::Fast));
    assert_eq!(speed_preset("max"), Some(SpeedPreset::Max));
    assert_eq!(speed_preset("1.5"), None);
}

#[test]
fn countries_resolve_by_number_or_name() {
    let names = vec!["Asteria".to_string(), "Borealis".to_string()];
    assert_eq!(find_country_index(&names, "1"), Some(0));
    assert_eq!(find_country_index(&names, "2"), Some(1));
    assert_eq!(find_country_index(&names, "borealis"), Some(1));
    assert_eq!(find_country_index(&names, "3"), None);
    assert_eq!(find_country_index(&names, "0"), None);
    assert_eq!(resolve_country_index(&names, "ASTERIA"), Ok(0));
    assert_eq!(
        resolve_country_index(&names, "Cydonia"),
        Err(CliError::CountryNotFound("Cydonia".to_string()))
    );
}

#[test]
fn command_words_name_the_commands() {
    let cases = [
        ("help", Command::Help),
        ("?", Command::Help),
        ("Overview", Command::Overview),
        ("ov", Command::Overview),
        ("inspect", Command::Inspect),
        ("SHOW", Command::Inspect),
        ("set", Command::SetAllocations),
        ("tick", Command::Tick),
        ("speed", Command::Speed),
        ("industry", Command::Industry),
        ("quit", Command::Quit),
        ("Exit", Command::Quit),
    ];
    for (word, command) in cases {
        assert_eq!(command_for(word), Some(command), "{word}");
    }
    assert_eq!(command_for("plan"), None);
    assert_eq!(command_for("end"), None);
}

#[test]
fn unknown_commands_get_the_running_programs_answer() {
    match parse_command_line("FLY high") {
        Err(e) => {
            assert_eq!(e, CliError::UnknownCommand("fly".to_string()));
            assert_eq!(e.message(), "未知のコマンドです: fly. help で一覧を確認してください。");
        }
        Ok(_) => panic!("fly is no command"),
    }
    match parse_command_line("   ") {
        Err(e) => assert_eq!(e.message(), "コマンドが指定されていません。"),
        Ok(_) => panic!("a blank line names no command"),
    }
    match parse_command_line("tick 30") {
        Ok((command, mut args)) => {
            assert_eq!(command, Command::Tick);
            assert_eq!(args.next(), Some("30"));
            assert_eq!(args.next(), None);
        }
        Err(e) => panic!("unexpected: {}", e.message()),
    }
}
