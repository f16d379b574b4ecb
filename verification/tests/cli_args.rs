//! Tests of the command line parsing.

use wxqr::{complete_files_from, parse_args, parse_dec, CliError, DecArgs, FormatKind, Subcmd};

fn strs(v: &[&str]) -> Vec<String> {
    v.iter().map(|s| s.to_string()).collect()
}

fn dec(v: &[&str]) -> Result<DecArgs, CliError> {
    parse_dec(&strs(v))
}

#[test]
fn format_names_parse() {
    assert_eq!(FormatKind::parse("txt"), Some(FormatKind::Txt));
    assert_eq!(FormatKind::parse("text"), Some(FormatKind::Txt));
    assert_eq!(FormatKind::parse("yml"), Some(FormatKind::Txt));
    assert_eq!(FormatKind::parse("yaml"), Some(FormatKind::Txt));
    assert_eq!(FormatKind::parse("json"), Some(FormatKind::Json));
    assert_eq!(FormatKind::parse("tsv"), Some(FormatKind::Tsv));
}

#[test]
fn format_names_ignore_ascii_case() {
    assert_eq!(FormatKind::parse("JSON"), Some(FormatKind::Json));
    assert_eq!(FormatKind::parse("Tsv"), Some(FormatKind::Tsv));
    assert_eq!(FormatKind::parse("YaMl"), Some(FormatKind::Txt));
}

#[test]
fn unknown_format_names_are_refused() {
    assert_eq!(FormatKind::parse("csv"), None);
    assert_eq!(FormatKind::parse(""), None);
    assert_eq!(FormatKind::parse("json "), None);
    assert_eq!(FormatKind::parse("jsón"), None);
}

#[test]
fn no_arguments_ask_for_help() {
    assert!(matches!(parse_args(&strs(&["wxqr"])), Ok(Subcmd::Help)));
    assert!(matches!(parse_args(&strs(&[])), Ok(Subcmd::Help)));
}

#[test]
fn help_version_info() {
    assert!(matches!(parse_args(&strs(&["wxqr", "-h"])), Ok(Subcmd::Help)));
    assert!(matches!(parse_args(&strs(&["wxqr", "--help"])), Ok(Subcmd::Help)));
    assert!(matches!(parse_args(&strs(&["wxqr", "-V"])), Ok(Subcmd::Version)));
    assert!(matches!(parse_args(&strs(&["wxqr", "--version"])), Ok(Subcmd::Version)));
    assert!(matches!(parse_args(&strs(&["wxqr", "--info"])), Ok(Subcmd::Info)));
}

#[test]
fn enc_is_refused() {
    assert!(matches!(parse_args(&strs(&["wxqr", "enc", "x"])), Err(CliError::NoEncSubcommand)));
    assert!(matches!(parse_args(&strs(&["wxqr", "encode"])), Err(CliError::NoEncSubcommand)));
}

#[test]
fn direct_and_dec_forms() {
    match parse_args(&strs(&["wxqr", "qr.png"])) {
        Ok(Subcmd::Direct(a)) => assert_eq!(a.images, strs(&["qr.png"])),
        other => panic!("unexpected {other:?}"),
    }
    match parse_args(&strs(&["wxqr", "dec", "a.png", "b.png"])) {
        Ok(Subcmd::Dec(a)) => assert_eq!(a.images, strs(&["a.png", "b.png"])),
        other => panic!("unexpected {other:?}"),
    }
    match parse_args(&strs(&["wxqr", "decode", "--format", "json", "a.png"])) {
        Ok(Subcmd::Dec(a)) => {
            assert_eq!(a.format, FormatKind::Json);
            assert_eq!(a.images, strs(&["a.png"]));
        }
        other => panic!("unexpected {other:?}"),
    }
}

#[test]
fn dec_without_images_is_refused() {
    assert!(matches!(parse_args(&strs(&["wxqr", "dec"])), Err(CliError::NoInputImages)));
}

#[test]
fn defaults() {
    let a = dec(&["x.png"]).unwrap();
    assert_eq!(a.format, FormatKind::Txt);
    assert!(a.scale_up);
    assert!(!a.points);
    assert!(!a.null_sep);
    assert!(a.files_from.is_none());
    assert!(!a.quiet);
    assert_eq!(a.images, strs(&["x.png"]));
}

#[test]
fn all_flags() {
    let a = dec(&[
        "-f", "TSV", "--no-scale-up", "--points", "-0", "-q", "a.png", "--files-from", "list",
        "b.png",
    ])
    .unwrap();
    assert_eq!(a.format, FormatKind::Tsv);
    assert!(!a.scale_up);
    assert!(a.points);
    assert!(a.null_sep);
    assert!(a.quiet);
    assert_eq!(a.files_from.as_deref(), Some("list"));
    assert_eq!(a.images, strs(&["a.png", "b.png"]));
}

#[test]
fn long_flag_forms() {
    let a = dec(&["--format", "json", "--no_scale_up", "--null", "--quiet", "a"]).unwrap();
    assert_eq!(a.format, FormatKind::Json);
    assert!(!a.scale_up);
    assert!(a.null_sep);
    assert!(a.quiet);
}

#[test]
fn last_format_wins() {
    let a = dec(&["-f", "json", "-f", "tsv", "a"]).unwrap();
    assert_eq!(a.format, FormatKind::Tsv);
}

#[test]
fn double_dash_ends_flags() {
    let a = dec(&["--", "-q", "--format"]).unwrap();
    assert_eq!(a.images, strs(&["-q", "--format"]));
    assert!(!a.quiet);
}

#[test]
fn errors_of_decode_arguments() {
    assert!(matches!(dec(&["-h"]), Err(CliError::HelpRequested)));
    assert!(matches!(dec(&["a", "--version"]), Err(CliError::VersionRequested)));
    assert!(matches!(dec(&["a", "-f"]), Err(CliError::FormatValueMissing)));
    match dec(&["-f", "csv", "a"]) {
        Err(CliError::UnknownFormat(v)) => assert_eq!(v, "csv"),
        other => panic!("unexpected {other:?}"),
    }
    assert!(matches!(dec(&["a", "--files-from"]), Err(CliError::FilesFromValueMissing)));
    match dec(&["a", "-x"]) {
        Err(CliError::UnknownFlag(v)) => assert_eq!(v, "-x"),
        other => panic!("unexpected {other:?}"),
    }
    assert!(matches!(dec(&[]), Err(CliError::NoInputImages)));
    assert!(matches!(dec(&["-q"]), Err(CliError::NoInputImages)));
}

#[test]
fn files_from_is_left_to_complete() {
    let a = dec(&["--files-from", "-"]).unwrap();
    assert_eq!(a.files_from.as_deref(), Some("-"));
    assert!(a.images.is_empty());
}

#[test]
fn files_from_lines_are_added() {
    let a = dec(&["first.png", "--files-from", "-"]).unwrap();
    let a = complete_files_from(a, "b.png\n\nc d.png\n").unwrap();
    assert!(a.files_from.is_none());
    assert_eq!(a.images, strs(&["first.png", "b.png", "c d.png"]));
}

#[test]
fn files_from_with_null_separator() {
    let a = dec(&["--null", "--files-from", "-"]).unwrap();
    let a = complete_files_from(a, "x\ny.png\0\0z.png").unwrap();
    assert_eq!(a.images, strs(&["x\ny.png", "z.png"]));
}

#[test]
fn empty_files_from_list_is_refused() {
    let a = dec(&["--files-from", "-"]).unwrap();
    assert!(matches!(complete_files_from(a, "\n\n"), Err(CliError::NoInputImages)));
}

#[test]
fn error_messages() {
    assert_eq!(
        CliError::NoEncSubcommand.message(),
        "wxqr has no 'enc' subcommand — WeChatQRCode is decode-only by design. Use ljh-sh/zxing for encode, or any qrcode / qrencode tool."
    );
    assert_eq!(
        CliError::UnknownFormat("csv".to_string()).message(),
        "unknown --format 'csv'; expected one of txt|json|tsv|yml"
    );
    assert_eq!(CliError::UnknownFlag("-x".to_string()).message(), "unknown flag '-x'");
    assert_eq!(CliError::FormatValueMissing.message(), "--format requires a value");
    assert_eq!(CliError::FilesFromValueMissing.message(), "--files-from requires a value");
    assert_eq!(
        CliError::NoInputImages.message(),
        "no input images; provide at least one <IMAGE> or use --files-from"
    );
    assert_eq!(
        CliError::HelpRequested.message(),
        "internal: --help should be handled by parse_args"
    );
    assert_eq!(
        CliError::VersionRequested.message(),
        "internal: --version should be handled by parse_args"
    );
}

#[test]
fn dec_is_an_alias_of_the_direct_form() {
    let a = match parse_args(&strs(&["wxqr", "dec", "-f", "json", "x.png"])) {
        Ok(Subcmd::Dec(a)) => a,
        other => panic!("unexpected {other:?}"),
    };
    let b = match parse_args(&strs(&["wxqr", "-f", "json", "x.png"])) {
        Ok(Subcmd::Direct(b)) => b,
        other => panic!("unexpected {other:?}"),
    };
    assert_eq!(a.format, b.format);
    assert_eq!(a.images, b.images);
}

#[test]
fn plain_arguments_are_images_in_order() {
    let a = dec(&["c.png", "a.png", "b.png"]).unwrap();
    assert_eq!(a.images, strs(&["c.png", "a.png", "b.png"]));
    assert_eq!(a.format, FormatKind::Txt);
}

#[test]
fn help_and_version_among_decode_arguments() {
    assert!(matches!(parse_args(&strs(&["wxqr", "dec", "--help"])), Ok(Subcmd::Help)));
    assert!(matches!(parse_args(&strs(&["wxqr", "dec", "-h", "x.png"])), Ok(Subcmd::Help)));
    assert!(matches!(parse_args(&strs(&["wxqr", "a.png", "-V"])), Ok(Subcmd::Version)));
    assert!(matches!(parse_args(&strs(&["wxqr", "decode", "--version"])), Ok(Subcmd::Version)));
    assert!(matches!(parse_args(&strs(&["wxqr", "-f", "json", "--help"])), Ok(Subcmd::Help)));
}
