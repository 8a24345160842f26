use linkstash::CLI;
use linkstash::Commands;
use linkstash::IndexArg;
use linkstash::LinkArg;
use linkstash::OpenArgs;

#[test]
fn command_values_carry_their_arguments() {
    let add = Commands::Add(LinkArg { url: "https://a.test".to_string() });
    match add {
        Commands::Add(LinkArg { url }) => assert_eq!(url, "https://a.test"),
        _ => panic!("expected an add command"),
    }
    let del = Commands::Delete(IndexArg { index: 2 });
    match del {
        Commands::Delete(IndexArg { index }) => assert_eq!(index, 2),
        _ => panic!("expected a delete command"),
    }
    let open = Commands::Open(OpenArgs { index: 1, program: Some("firefox".to_string()) });
    match open {
        Commands::Open(OpenArgs { index, program }) => {
            assert_eq!(index, 1);
            assert_eq!(program.as_deref(), Some("firefox"));
        },
        _ => panic!("expected an open command"),
    }
}

#[test]
fn invocation_may_carry_no_command() {
    let cli = CLI { command: None };
    assert!(cli.command.is_none());
    let cli = CLI { command: Some(Commands::List) };
    assert!(matches!(cli.command, Some(Commands::List)));
}
