use clap::{Arg, ArgAction, Command};
use dominant_colours::config::{DEFAULT_COLOURS, DEFAULT_MAX_ITERATIONS, DEFAULT_OUTPUT};
use dominant_colours::{Args, OutputFormat};

fn command() -> Command {
    Command::new("dominant-colours")
        .about("Extract dominant colours from images using k-means clustering")
        .arg(Arg::new("filename").required(true))
        .arg(
            Arg::new("colours")
                .short('c')
                .long("colours")
                .value_parser(|s: &str| s.parse::<usize>()),
        )
        .arg(
            Arg::new("format")
                .short('f')
                .long("format")
                .value_parser(|s: &str| OutputFormat::from_name(s).ok_or("not a format")),
        )
        .arg(Arg::new("swatch").short('s').long("swatch").action(ArgAction::SetTrue))
        .arg(Arg::new("output").short('o').long("output"))
}

fn parse_from<const N: usize>(argv: [&str; N]) -> Args {
    let matches = command().try_get_matches_from(argv).unwrap();
    Args::from_options(
        matches.get_one::<String>("filename").unwrap().clone(),
        matches.get_one::<usize>("colours").copied(),
        matches.get_one::<OutputFormat>("format").copied(),
        matches.get_flag("swatch"),
        matches.get_one::<String>("output").cloned(),
    )
}

#[test]
fn test_arg_parsing() {
    let args = parse_from(["program", "test.jpg"]);
    assert_eq!(args.filename, "test.jpg");
    assert_eq!(args.colours, 6); // default value
    assert!(!args.swatch); // default false

    let args = parse_from(["program", "-c", "8", "test.jpg"]);
    assert_eq!(args.colours, 8);

    let args = parse_from(["program", "--swatch", "-o", "custom.svg", "test.jpg"]);
    assert!(args.swatch);
    assert_eq!(args.output, "custom.svg");
}

#[test]
fn test_format_arg_parsing() {
    let args = parse_from(["program", "test.jpg"]);
    assert_eq!(args.format, OutputFormat::Text); // default value

    let args = parse_from(["program", "-f", "json", "test.jpg"]);
    assert_eq!(args.format, OutputFormat::Json);

    let args = parse_from(["program", "--format", "json", "test.jpg"]);
    assert_eq!(args.format, OutputFormat::Json);
}

#[test]
fn options_take_their_defaults() {
    let args = Args::from_options("a.png".to_string(), None, None, false, None);
    assert_eq!(args.filename, "a.png");
    assert_eq!(args.colours, 6);
    assert_eq!(args.colours, DEFAULT_COLOURS);
    assert_eq!(args.format, OutputFormat::Text);
    assert!(!args.swatch);
    assert_eq!(args.output, "swatch.svg");
    assert_eq!(args.output, DEFAULT_OUTPUT);
    assert_eq!(DEFAULT_MAX_ITERATIONS, 100);
}

#[test]
fn options_given_are_kept() {
    let args = Args::from_options(
        "b.jpg".to_string(),
        Some(0),
        Some(OutputFormat::Json),
        true,
        Some("out.svg".to_string()),
    );
    assert_eq!(
        args,
        Args {
            filename: "b.jpg".to_string(),
            colours: 0,
            format: OutputFormat::Json,
            swatch: true,
            output: "out.svg".to_string(),
        }
    );
}

#[test]
fn format_names() {
    assert_eq!(OutputFormat::Text.name(), "text");
    assert_eq!(OutputFormat::Json.name(), "json");
    assert_eq!(OutputFormat::from_name("text"), Some(OutputFormat::Text));
    assert_eq!(OutputFormat::from_name("json"), Some(OutputFormat::Json));
    assert_eq!(OutputFormat::from_name("Json"), None);
    assert_eq!(OutputFormat::from_name("xml"), None);
    assert_eq!(OutputFormat::from_name(""), None);
    for format in [OutputFormat::Text, OutputFormat::Json] {
        assert_eq!(OutputFormat::from_name(&format.name()), Some(format));
    }
}

#[test]
fn unknown_format_is_refused_on_the_command_line() {
    assert!(command().try_get_matches_from(["program", "-f", "xml", "test.jpg"]).is_err());
    assert!(command().try_get_matches_from(["program", "-c", "many", "test.jpg"]).is_err());
    assert!(command().try_get_matches_from(["program"]).is_err());
}
