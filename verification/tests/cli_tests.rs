use mdpage::cli::{Cli, SubCommands};

#[test]
fn subcommands_carry_their_fields() {
    let cli = Cli {
        subcommands: SubCommands::Render {
            template_file: Some("page.hbs".to_owned()),
            no_inline: true,
            markdown_file: "-".to_owned(),
        },
    };
    match cli.subcommands {
        SubCommands::Render { template_file, no_inline, markdown_file } => {
            assert_eq!(template_file.as_deref(), Some("page.hbs"));
            assert!(no_inline);
            assert_eq!(markdown_file, "-");
        }
        _ => panic!("expected the render subcommand"),
    }

    let raw = SubCommands::Raw { markdown_file: "doc.md".to_owned() };
    match raw {
        SubCommands::Raw { markdown_file } => assert_eq!(markdown_file, "doc.md"),
        _ => panic!("expected the raw subcommand"),
    }

    assert!(matches!(SubCommands::Template, SubCommands::Template));
}
