//! Command line parsing and the decisions of a run.

use vstd::prelude::*;
use vstd::slice::slice_subrange;

use crate::chars::{
    ascii_lower, chars_eq_str, chars_of, free_of, lemma_split_fields_concat, lemma_split_fields_single,
    lower_chars_of, non_empty_fields, push_char, split_fields, str_is,
};

verus! {

/// Output format selected with `--format`.
#[derive(Debug, Clone, Copy, PartialEq, Eq, Structural)]
pub enum FormatKind {
    Txt,
    Json,
    Tsv,
}

/// The format that a (lower-cased) format name denotes.
pub open spec fn format_of_name(l: Seq<char>) -> Option<FormatKind> {
    if l == "txt"@ || l == "text"@ || l == "yml"@ || l == "yaml"@ {
        Some(FormatKind::Txt)
    } else if l == "json"@ {
        Some(FormatKind::Json)
    } else if l == "tsv"@ {
        Some(FormatKind::Tsv)
    } else {
        None
    }
}

/// What `FormatKind::parse` gives for `s`: names are matched without
/// regard to ASCII case.
pub open spec fn spec_parse_format(s: Seq<char>) -> Option<FormatKind> {
    format_of_name(ascii_lower(s))
}

impl FormatKind {
    /// Parses a `--format` value: `txt`, `text`, `yml` and `yaml` give
    /// `Txt`, `json` gives `Json`, `tsv` gives `Tsv`, in any ASCII case;
    /// anything else gives `None`.
    pub fn parse(s: &str) -> (r: Option<Self>)
        ensures
            r == spec_parse_format(s@),
    {
        let l = lower_chars_of(s);
        if chars_eq_str(&l, "txt") || chars_eq_str(&l, "text") || chars_eq_str(&l, "yml")
            || chars_eq_str(&l, "yaml") {
            Some(FormatKind::Txt)
        } else if chars_eq_str(&l, "json") {
            Some(FormatKind::Json)
        } else if chars_eq_str(&l, "tsv") {
            Some(FormatKind::Tsv)
        } else {
            None
        }
    }
}


/// Options of a decode run, as given on the command line.
#[derive(Debug)]
pub struct DecArgs {
    pub format: FormatKind,
    pub scale_up: bool,
    pub points: bool,
    pub null_sep: bool,
    /// A `--files-from` source whose contents are still to be added.
    pub files_from: Option<String>,
    pub quiet: bool,
    pub images: Vec<String>,
}

/// The mathematical value of a `DecArgs`.
pub struct DecArgsView {
    pub format: FormatKind,
    pub scale_up: bool,
    pub points: bool,
    pub null_sep: bool,
    pub files_from: Option<Seq<char>>,
    pub quiet: bool,
    pub images: Seq<Seq<char>>,
}

/// The character sequences of a sequence of strings.
pub open spec fn strs_view(s: Seq<String>) -> Seq<Seq<char>> {
    s.map_values(|x: String| x@)
}

/// The character sequence of an optional string.
pub open spec fn opt_str_view(o: Option<String>) -> Option<Seq<char>> {
    match o {
        Some(s) => Some(s@),
        None => None,
    }
}

impl View for DecArgs {
    type V = DecArgsView;

    open spec fn view(&self) -> DecArgsView {
        DecArgsView {
            format: self.format,
            scale_up: self.scale_up,
            points: self.points,
            null_sep: self.null_sep,
            files_from: opt_str_view(self.files_from),
            quiet: self.quiet,
            images: strs_view(self.images@),
        }
    }
}

/// Why a command line is refused.
#[derive(Debug)]
pub enum CliError {
    /// `enc` / `encode`: there is no encoder.
    NoEncSubcommand,
    /// `-h` / `--help` among the decode options; `parse_args` answers it
    /// with help.
    HelpRequested,
    /// `-V` / `--version` among the decode options; `parse_args` answers
    /// it with the version.
    VersionRequested,
    /// `--format` was the last argument.
    FormatValueMissing,
    /// `--format` named no known format.
    UnknownFormat(String),
    /// `--files-from` was the last argument.
    FilesFromValueMissing,
    /// An argument starting with `-` that is no known flag.
    UnknownFlag(String),
    /// No image was named, neither directly nor through `--files-from`.
    NoInputImages,
}

/// The mathematical value of a `CliError`.
pub enum CliErrorView {
    NoEncSubcommand,
    HelpRequested,
    VersionRequested,
    FormatValueMissing,
    UnknownFormat(Seq<char>),
    FilesFromValueMissing,
    UnknownFlag(Seq<char>),
    NoInputImages,
}

impl View for CliError {
    type V = CliErrorView;

    open spec fn view(&self) -> CliErrorView {
        match self {
            CliError::NoEncSubcommand => CliErrorView::NoEncSubcommand,
            CliError::HelpRequested => CliErrorView::HelpRequested,
            CliError::VersionRequested => CliErrorView::VersionRequested,
            CliError::FormatValueMissing => CliErrorView::FormatValueMissing,
            CliError::UnknownFormat(v) => CliErrorView::UnknownFormat(v@),
            CliError::FilesFromValueMissing => CliErrorView::FilesFromValueMissing,
            CliError::UnknownFlag(s) => CliErrorView::UnknownFlag(s@),
            CliError::NoInputImages => CliErrorView::NoInputImages,
        }
    }
}

/// The view of a parse result.
pub open spec fn dec_result_view(r: Result<DecArgs, CliError>) -> Result<DecArgsView, CliErrorView> {
    match r {
        Ok(a) => Ok(a@),
        Err(e) => Err(e@),
    }
}

/// The options before any argument is read.
pub open spec fn default_dec_args() -> DecArgsView {
    DecArgsView {
        format: FormatKind::Txt,
        scale_up: true,
        points: false,
        null_sep: false,
        files_from: None,
        quiet: false,
        images: Seq::empty(),
    }
}

/// Whether an argument has the shape of a flag.
pub open spec fn is_flag_like(arg: Seq<char>) -> bool {
    arg.len() > 0 && arg[0] == '-'
}

/// One step of reading the decode arguments: the argument at `i` (and
/// its value, if it takes one) is read into `a`; gives the position of
/// the next argument and the new options, or why the line is refused.
pub open spec fn dec_flag_step(argv: Seq<Seq<char>>, i: int, a: DecArgsView) -> Result<
    (int, DecArgsView),
    CliErrorView,
> {
    let arg = argv[i];
    if arg == "-h"@ || arg == "--help"@ {
        Err(CliErrorView::HelpRequested)
    } else if arg == "-V"@ || arg == "--version"@ {
        Err(CliErrorView::VersionRequested)
    } else if arg == "-f"@ || arg == "--format"@ {
        if i + 1 >= argv.len() {
            Err(CliErrorView::FormatValueMissing)
        } else {
            match spec_parse_format(argv[i + 1]) {
                Some(k) => Ok((i + 2, DecArgsView { format: k, ..a })),
                None => Err(CliErrorView::UnknownFormat(argv[i + 1])),
            }
        }
    } else if arg == "--no-scale-up"@ || arg == "--no_scale_up"@ {
        Ok((i + 1, DecArgsView { scale_up: false, ..a }))
    } else if arg == "--points"@ {
        Ok((i + 1, DecArgsView { points: true, ..a }))
    } else if arg == "-0"@ || arg == "--null"@ {
        Ok((i + 1, DecArgsView { null_sep: true, ..a }))
    } else if arg == "--files-from"@ {
        if i + 1 >= argv.len() {
            Err(CliErrorView::FilesFromValueMissing)
        } else {
            Ok((i + 2, DecArgsView { files_from: Some(argv[i + 1]), ..a }))
        }
    } else if arg == "-q"@ || arg == "--quiet"@ {
        Ok((i + 1, DecArgsView { quiet: true, ..a }))
    } else if arg == "--"@ {
        Ok(
            (
                argv.len() as int,
                DecArgsView { images: a.images + argv.subrange(i + 1, argv.len() as int), ..a },
            ),
        )
    } else if is_flag_like(arg) {
        Err(CliErrorView::UnknownFlag(arg))
    } else {
        Ok((i + 1, DecArgsView { images: a.images.push(arg), ..a }))
    }
}

/// Reads the decode arguments from position `i` on into `a`.
pub open spec fn dec_flags_from(argv: Seq<Seq<char>>, i: int, a: DecArgsView) -> Result<
    DecArgsView,
    CliErrorView,
>
    decreases argv.len() - i,
{
    if i < 0 || i >= argv.len() {
        Ok(a)
    } else {
        match dec_flag_step(argv, i, a) {
            Err(e) => Err(e),
            Ok((j, b)) => if i < j <= argv.len() {
                dec_flags_from(argv, j, b)
            } else {
                Ok(b)
            },
        }
    }
}

/// What `parse_dec` gives for `argv`: the options, with at least one
/// image unless a `--files-from` source is still to be read.
pub open spec fn spec_parse_dec(argv: Seq<Seq<char>>) -> Result<DecArgsView, CliErrorView> {
    match dec_flags_from(argv, 0, default_dec_args()) {
        Err(e) => Err(e),
        Ok(a) => if a.files_from is None && a.images.len() == 0 {
            Err(CliErrorView::NoInputImages)
        } else {
            Ok(a)
        },
    }
}

/// Reads the arguments of a decode run.
///
/// A `--files-from` source is not read here: the result then names it
/// in `files_from`, and `complete_files_from` adds what it lists.
pub fn parse_dec(argv: &[String]) -> (r: Result<DecArgs, CliError>)
    ensures
        dec_result_view(r) == spec_parse_dec(strs_view(argv@)),
{
    let ghost av = strs_view(argv@);
    let mut args = DecArgs {
        format: FormatKind::Txt,
        scale_up: true,
        points: false,
        null_sep: false,
        files_from: None,
        quiet: false,
        images: Vec::new(),
    };
    assert(args@.images =~= Seq::<Seq<char>>::empty());
    let n = argv.len();
    let mut i: usize = 0;
    while i < n
        invariant
            n == argv@.len(),
            av == strs_view(argv@),
            i <= n,
            dec_flags_from(av, 0, default_dec_args()) == dec_flags_from(av, i as int, args@),
        decreases n - i,
    {
        let a = argv[i].as_str();
        let ghost a0 = args@;
        assert(av[i as int] == a@);
        if str_is(a, "-h") || str_is(a, "--help") {
            return Err(CliError::HelpRequested);
        } else if str_is(a, "-V") || str_is(a, "--version") {
            return Err(CliError::VersionRequested);
        } else if str_is(a, "-f") || str_is(a, "--format") {
            if i + 1 >= n {
                return Err(CliError::FormatValueMissing);
            }
            let v = &argv[i + 1];
            assert(av[i + 1] == v@);
            match FormatKind::parse(v.as_str()) {
                Some(k) => {
                    args.format = k;
                },
                None => {
                    return Err(CliError::UnknownFormat(v.clone()));
                },
            }
            i = i + 2;
        } else if str_is(a, "--no-scale-up") || str_is(a, "--no_scale_up") {
            args.scale_up = false;
            i = i + 1;
        } else if str_is(a, "--points") {
            args.points = true;
            i = i + 1;
        } else if str_is(a, "-0") || str_is(a, "--null") {
            args.null_sep = true;
            i = i + 1;
        } else if str_is(a, "--files-from") {
            if i + 1 >= n {
                return Err(CliError::FilesFromValueMissing);
            }
            let v = &argv[i + 1];
            assert(av[i + 1] == v@);
            args.files_from = Some(v.clone());
            i = i + 2;
        } else if str_is(a, "-q") || str_is(a, "--quiet") {
            args.quiet = true;
            i = i + 1;
        } else if str_is(a, "--") {
            let mut j: usize = i + 1;
            while j < n
                invariant
                    n == argv@.len(),
                    av == strs_view(argv@),
                    i < j <= n,
                    args@ == (DecArgsView { images: a0.images + av.subrange(i + 1, j as int), ..a0 }),
                decreases n - j,
            {
                let ghost before = args.images@;
                let s = argv[j].clone();
                assert(s@ == av[j as int]);
                args.images.push(s);
                assert(strs_view(args.images@) =~= strs_view(before).push(av[j as int]));
                assert(av.subrange(i + 1, j + 1) =~= av.subrange(i + 1, j as int).push(av[j as int]));
                assert(strs_view(args.images@) =~= a0.images + av.subrange(i + 1, j + 1));
                j = j + 1;
            }
            i = n;
        } else {
            let cs = chars_of(a);
            if cs.len() > 0 && cs[0] == '-' {
                return Err(CliError::UnknownFlag(argv[i].clone()));
            }
            args.images.push(argv[i].clone());
            assert(strs_view(args.images@) =~= a0.images.push(a@));
            i = i + 1;
        }
    }
    if args.files_from.is_none() && args.images.len() == 0 {
        return Err(CliError::NoInputImages);
    }
    Ok(args)
}

/// The separator of a `--files-from` list.
pub open spec fn list_separator(null_sep: bool) -> char {
    if null_sep {
        '\0'
    } else {
        '\n'
    }
}

/// What `complete_files_from` gives: the images that `content` lists,
/// one per non-empty field, are added after those already named.
pub open spec fn spec_complete_files_from(a: DecArgsView, content: Seq<char>) -> Result<
    DecArgsView,
    CliErrorView,
> {
    let images = a.images + non_empty_fields(split_fields(content, list_separator(a.null_sep)));
    if images.len() == 0 {
        Err(CliErrorView::NoInputImages)
    } else {
        Ok(DecArgsView { files_from: None, images: images, ..a })
    }
}

/// Adds the images listed in `content`, the text of the `--files-from`
/// source, one per line (or per NUL-separated field with `--null`);
/// empty fields are skipped. Refuses the arguments when no image is
/// named at all.
pub fn complete_files_from(args: DecArgs, content: &str) -> (r: Result<DecArgs, CliError>)
    ensures
        dec_result_view(r) == spec_complete_files_from(args@, content@),
{
    let ghost a0 = args@;
    let mut args = args;
    args.files_from = None;
    let sep = if args.null_sep {
        '\0'
    } else {
        '\n'
    };
    let ghost s = content@;
    let ghost mut done: Seq<Seq<char>> = Seq::empty();
    let mut cur = String::new();
    proof {
        assert(s.take(0) =~= Seq::<char>::empty());
        assert(strs_view(args.images@) =~= a0.images + non_empty_fields(done));
    }
    for c in it: content.chars()
        invariant
            it.seq() == s,
            sep == list_separator(a0.null_sep),
            args@ == (DecArgsView { files_from: None, images: args@.images, ..a0 }),
            split_fields(s.take(it.index() as int), sep) == done.push(cur@),
            args@.images == a0.images + non_empty_fields(done),
    {
        let ghost i = it.index();
        let ghost before = args.images@;
        proof {
            assert(s.take(i + 1).drop_last() =~= s.take(i as int));
            assert(s.take(i + 1).last() == c);
        }
        if c == sep {
            if cur.as_str().unicode_len() > 0 {
                let piece = cur;
                args.images.push(piece);
                proof {
                    assert(strs_view(args.images@) =~= strs_view(before).push(piece@));
                }
            }
            proof {
                assert(split_fields(s.take(i + 1), sep) =~= done.push(cur@).push(Seq::<char>::empty()));
                let d2 = done.push(cur@);
                assert(d2.drop_last() =~= done);
                done = d2;
            }
            cur = String::new();
        } else {
            let ghost old_cur = cur@;
            push_char(&mut cur, c);
            proof {
                assert(split_fields(s.take(i + 1), sep) =~= done.push(old_cur).update(
                    done.len() as int,
                    old_cur.push(c),
                ));
                assert(done.push(old_cur).update(done.len() as int, old_cur.push(c)) =~= done.push(cur@));
            }
        }
    }
    proof {
        assert(s.take(s.len() as int) =~= s);
        let fs = done.push(cur@);
        assert(fs.drop_last() =~= done);
    }
    let ghost before = args.images@;
    if cur.as_str().unicode_len() > 0 {
        args.images.push(cur);
        proof {
            assert(strs_view(args.images@) =~= strs_view(before).push(cur@));
        }
    }
    if args.images.len() == 0 {
        return Err(CliError::NoInputImages);
    }
    Ok(args)
}

/// What the command line asks for.
#[derive(Debug)]
pub enum Subcmd {
    /// `wxqr <image>...`, the canonical form.
    Direct(DecArgs),
    /// `wxqr dec <image>...`, kept for compatibility.
    Dec(DecArgs),
    Help,
    Version,
    Info,
}

/// The mathematical value of a `Subcmd`.
pub enum SubcmdView {
    Direct(DecArgsView),
    Dec(DecArgsView),
    Help,
    Version,
    Info,
}

impl View for Subcmd {
    type V = SubcmdView;

    open spec fn view(&self) -> SubcmdView {
        match self {
            Subcmd::Direct(a) => SubcmdView::Direct(a@),
            Subcmd::Dec(a) => SubcmdView::Dec(a@),
            Subcmd::Help => SubcmdView::Help,
            Subcmd::Version => SubcmdView::Version,
            Subcmd::Info => SubcmdView::Info,
        }
    }
}

/// The view of a command line parse result.
pub open spec fn subcmd_result_view(r: Result<Subcmd, CliError>) -> Result<SubcmdView, CliErrorView> {
    match r {
        Ok(c) => Ok(c@),
        Err(e) => Err(e@),
    }
}

/// What `parse_args` gives for the whole command line `args` (the
/// program name first).
pub open spec fn spec_parse_args(args: Seq<Seq<char>>) -> Result<SubcmdView, CliErrorView> {
    if args.len() < 2 {
        Ok(SubcmdView::Help)
    } else {
        let a = args[1];
        if a == "-h"@ || a == "--help"@ {
            Ok(SubcmdView::Help)
        } else if a == "-V"@ || a == "--version"@ {
            Ok(SubcmdView::Version)
        } else if a == "--info"@ {
            Ok(SubcmdView::Info)
        } else if a == "enc"@ || a == "encode"@ {
            Err(CliErrorView::NoEncSubcommand)
        } else if a == "dec"@ || a == "decode"@ {
            match spec_parse_dec(args.subrange(2, args.len() as int)) {
                Ok(d) => Ok(SubcmdView::Dec(d)),
                Err(CliErrorView::HelpRequested) => Ok(SubcmdView::Help),
                Err(CliErrorView::VersionRequested) => Ok(SubcmdView::Version),
                Err(e) => Err(e),
            }
        } else {
            match spec_parse_dec(args.subrange(1, args.len() as int)) {
                Ok(d) => Ok(SubcmdView::Direct(d)),
                Err(CliErrorView::HelpRequested) => Ok(SubcmdView::Help),
                Err(CliErrorView::VersionRequested) => Ok(SubcmdView::Version),
                Err(e) => Err(e),
            }
        }
    }
}

/// Reads the whole command line (the program name first). Without
/// arguments it asks for help; `dec` / `decode` is accepted before the
/// images; `enc` / `encode` is refused. A `-h` / `--help` or `-V` /
/// `--version` reached among the decode options asks for help or the
/// version.
pub fn parse_args(args: &[String]) -> (r: Result<Subcmd, CliError>)
    ensures
        subcmd_result_view(r) == spec_parse_args(strs_view(args@)),
{
    let ghost av = strs_view(args@);
    if args.len() < 2 {
        return Ok(Subcmd::Help);
    }
    let a = args[1].as_str();
    assert(av[1] == a@);
    if str_is(a, "-h") || str_is(a, "--help") {
        Ok(Subcmd::Help)
    } else if str_is(a, "-V") || str_is(a, "--version") {
        Ok(Subcmd::Version)
    } else if str_is(a, "--info") {
        Ok(Subcmd::Info)
    } else if str_is(a, "enc") || str_is(a, "encode") {
        Err(CliError::NoEncSubcommand)
    } else if str_is(a, "dec") || str_is(a, "decode") {
        let rest = slice_subrange(args, 2, args.len());
        assert(strs_view(rest@) =~= av.subrange(2, av.len() as int));
        match parse_dec(rest) {
            Ok(d) => Ok(Subcmd::Dec(d)),
            Err(CliError::HelpRequested) => Ok(Subcmd::Help),
            Err(CliError::VersionRequested) => Ok(Subcmd::Version),
            Err(e) => Err(e),
        }
    } else {
        let rest = slice_subrange(args, 1, args.len());
        assert(strs_view(rest@) =~= av.subrange(1, av.len() as int));
        match parse_dec(rest) {
            Ok(d) => Ok(Subcmd::Direct(d)),
            Err(CliError::HelpRequested) => Ok(Subcmd::Help),
            Err(CliError::VersionRequested) => Ok(Subcmd::Version),
            Err(e) => Err(e),
        }
    }
}

/// The text that reports a refused command line.
pub open spec fn error_message(e: CliErrorView) -> Seq<char> {
    match e {
        CliErrorView::NoEncSubcommand => "wxqr has no 'enc' subcommand \u{2014} WeChatQRCode is decode-only by design. Use ljh-sh/zxing for encode, or any qrcode / qrencode tool."@,
        CliErrorView::HelpRequested => "internal: --help should be handled by parse_args"@,
        CliErrorView::VersionRequested => "internal: --version should be handled by parse_args"@,
        CliErrorView::FormatValueMissing => "--format requires a value"@,
        CliErrorView::UnknownFormat(v) => "unknown --format '"@ + v
            + "'; expected one of txt|json|tsv|yml"@,
        CliErrorView::FilesFromValueMissing => "--files-from requires a value"@,
        CliErrorView::UnknownFlag(s) => "unknown flag '"@ + s + "'"@,
        CliErrorView::NoInputImages => "no input images; provide at least one <IMAGE> or use --files-from"@,
    }
}

impl CliError {
    /// The text that reports this error to the user.
    pub fn message(&self) -> (r: String)
        ensures
            r@ == error_message(self@),
    {
        let mut r = String::new();
        match self {
            CliError::NoEncSubcommand => {
                r.append("wxqr has no 'enc' subcommand \u{2014} WeChatQRCode is decode-only by design. Use ljh-sh/zxing for encode, or any qrcode / qrencode tool.");
            },
            CliError::HelpRequested => {
                r.append("internal: --help should be handled by parse_args");
            },
            CliError::VersionRequested => {
                r.append("internal: --version should be handled by parse_args");
            },
            CliError::FormatValueMissing => {
                r.append("--format requires a value");
            },
            CliError::UnknownFormat(v) => {
                r.append("unknown --format '");
                r.append(v.as_str());
                r.append("'; expected one of txt|json|tsv|yml");
            },
            CliError::FilesFromValueMissing => {
                r.append("--files-from requires a value");
            },
            CliError::UnknownFlag(s) => {
                r.append("unknown flag '");
                r.append(s.as_str());
                r.append("'");
            },
            CliError::NoInputImages => {
                r.append("no input images; provide at least one <IMAGE> or use --files-from");
            },
        }
        r
    }
}

/// Lower-casing twice is lower-casing once.
proof fn lemma_ascii_lower_idempotent(s: Seq<char>)
    ensures
        ascii_lower(ascii_lower(s)) == ascii_lower(s),
{
    assert(ascii_lower(ascii_lower(s)) =~= ascii_lower(s));
}

/// Format names are read without regard to ASCII case: names that differ
/// only in case give the same format, and a name gives the same format
/// as its lower-case form.
pub proof fn lemma_parse_format_case_insensitive(a: Seq<char>, b: Seq<char>)
    requires
        ascii_lower(a) == ascii_lower(b),
    ensures
        spec_parse_format(a) == spec_parse_format(b),
        spec_parse_format(ascii_lower(a)) == spec_parse_format(a),
{
    lemma_ascii_lower_idempotent(a);
}

/// The lines `ls` written one after the other with `sep` between them.
pub open spec fn join_lines(ls: Seq<Seq<char>>, sep: char) -> Seq<char>
    decreases ls.len(),
{
    if ls.len() == 0 {
        Seq::empty()
    } else if ls.len() == 1 {
        ls[0]
    } else {
        join_lines(ls.drop_last(), sep).push(sep) + ls.last()
    }
}

proof fn lemma_split_join(ls: Seq<Seq<char>>, sep: char)
    requires
        ls.len() > 0,
        forall|i: int| 0 <= i < ls.len() ==> free_of(#[trigger] ls[i], sep),
    ensures
        split_fields(join_lines(ls, sep), sep) == ls,
    decreases ls.len(),
{
    if ls.len() == 1 {
        lemma_split_fields_single(ls[0], sep);
        assert(seq![ls[0]] =~= ls);
    } else {
        let l0 = ls.drop_last();
        assert forall|i: int| 0 <= i < l0.len() implies free_of(#[trigger] l0[i], sep) by {
            assert(l0[i] == ls[i]);
        }
        lemma_split_join(l0, sep);
        assert(free_of(ls[ls.len() - 1], sep));
        lemma_split_fields_concat(join_lines(l0, sep), ls.last(), sep);
        lemma_split_fields_single(ls.last(), sep);
        assert(l0 + seq![ls.last()] =~= ls);
    }
}

proof fn lemma_non_empty_all(ls: Seq<Seq<char>>)
    requires
        forall|i: int| 0 <= i < ls.len() ==> (#[trigger] ls[i]).len() > 0,
    ensures
        non_empty_fields(ls) == ls,
    decreases ls.len(),
{
    if ls.len() > 0 {
        let l0 = ls.drop_last();
        assert forall|i: int| 0 <= i < l0.len() implies (#[trigger] l0[i]).len() > 0 by {
            assert(l0[i] == ls[i]);
        }
        lemma_non_empty_all(l0);
        assert(ls[ls.len() - 1].len() > 0);
        assert(l0.push(ls.last()) =~= ls);
    }
}

/// A `--files-from` list of non-empty names, one per line (or per
/// NUL-separated field with `--null`), with or without a separator after
/// the last name, adds exactly those names, in order, after the images
/// already named.
pub proof fn lemma_files_from_list(a: DecArgsView, ls: Seq<Seq<char>>, trailing: bool)
    requires
        ls.len() > 0,
        forall|i: int|
            0 <= i < ls.len() ==> (#[trigger] ls[i]).len() > 0 && free_of(
                ls[i],
                if a.null_sep {
                    '\0'
                } else {
                    '\n'
                },
            ),
    ensures
        ({
            let sep = if a.null_sep {
                '\0'
            } else {
                '\n'
            };
            let content = if trailing {
                join_lines(ls, sep).push(sep)
            } else {
                join_lines(ls, sep)
            };
            spec_complete_files_from(a, content) == Ok::<DecArgsView, CliErrorView>(
                DecArgsView { files_from: None, images: a.images + ls, ..a },
            )
        }),
{
    let sep = if a.null_sep {
        '\0'
    } else {
        '\n'
    };
    assert(list_separator(a.null_sep) == sep);
    assert forall|i: int| 0 <= i < ls.len() implies free_of(#[trigger] ls[i], sep) by {}
    lemma_split_join(ls, sep);
    lemma_non_empty_all(ls);
    let j = join_lines(ls, sep);
    if trailing {
        assert(j.push(sep).drop_last() =~= j);
        assert(split_fields(j.push(sep), sep) == ls.push(Seq::<char>::empty()));
        assert(ls.push(Seq::<char>::empty()).drop_last() =~= ls);
        assert(non_empty_fields(ls.push(Seq::<char>::empty())) == non_empty_fields(ls));
    }
}

/// Whether `s` is `n` with some of its lower-case ASCII letters written
/// in upper case.
pub open spec fn case_variant(s: Seq<char>, n: Seq<char>) -> bool {
    &&& s.len() == n.len()
    &&& forall|i: int|
        0 <= i < s.len() ==> #[trigger] s[i] == n[i] || ('a' <= n[i] && n[i] <= 'z' && (s[i] as int)
            + 32 == (n[i] as int))
}

/// Whether `n` holds no upper-case ASCII letter.
pub open spec fn no_upper(n: Seq<char>) -> bool {
    forall|i: int| 0 <= i < n.len() ==> !('A' <= #[trigger] n[i] && n[i] <= 'Z')
}

proof fn lemma_lower_of_case_variant(s: Seq<char>, n: Seq<char>)
    requires
        case_variant(s, n),
        no_upper(n),
    ensures
        ascii_lower(s) == n,
{
    assert forall|i: int| 0 <= i < s.len() implies ascii_lower(s)[i] == n[i] by {
        let c = s[i];
        assert(s[i] == n[i] || ('a' <= n[i] && n[i] <= 'z' && (s[i] as int) + 32 == (n[i] as int)));
        if c != n[i] {
            assert(97 <= (n[i] as int) <= 122);
            assert(65 <= (c as int) <= 90);
            assert('A' <= c && c <= 'Z');
            let u: u32 = ((c as u32) + 32) as u32;
            assert(u == n[i] as u32);
            vstd::utf8::char_u32_cast(n[i], u);
        } else {
            assert(!('A' <= c && c <= 'Z'));
        }
    }
    assert(ascii_lower(s) =~= n);
}

/// A format name reads the same whatever ASCII letters are in upper
/// case: every case variant of a lower-case name gives what the name
/// gives.
pub proof fn lemma_parse_format_any_case(s: Seq<char>, n: Seq<char>)
    requires
        case_variant(s, n),
        no_upper(n),
    ensures
        spec_parse_format(s) == spec_parse_format(n),
{
    lemma_lower_of_case_variant(s, n);
    lemma_lower_of_case_variant(n, n);
}

/// The names of the formats, in any ASCII case.
pub proof fn lemma_format_names_any_case(s: Seq<char>)
    ensures
        case_variant(s, "txt"@) || case_variant(s, "text"@) || case_variant(s, "yml"@)
            || case_variant(s, "yaml"@) ==> spec_parse_format(s) == Some(FormatKind::Txt),
        case_variant(s, "json"@) ==> spec_parse_format(s) == Some(FormatKind::Json),
        case_variant(s, "tsv"@) ==> spec_parse_format(s) == Some(FormatKind::Tsv),
{
    reveal_strlit("txt");
    reveal_strlit("text");
    reveal_strlit("yml");
    reveal_strlit("yaml");
    reveal_strlit("json");
    reveal_strlit("tsv");
    assert("txt"@ =~= seq!['t', 'x', 't']);
    assert("text"@ =~= seq!['t', 'e', 'x', 't']);
    assert("yml"@ =~= seq!['y', 'm', 'l']);
    assert("yaml"@ =~= seq!['y', 'a', 'm', 'l']);
    assert("json"@ =~= seq!['j', 's', 'o', 'n']);
    assert("tsv"@ =~= seq!['t', 's', 'v']);
    assert(no_upper("txt"@) && no_upper("text"@) && no_upper("yml"@) && no_upper("yaml"@)
        && no_upper("json"@) && no_upper("tsv"@));
    assert(ascii_lower("txt"@) =~= "txt"@);
    assert(ascii_lower("text"@) =~= "text"@);
    assert(ascii_lower("yml"@) =~= "yml"@);
    assert(ascii_lower("yaml"@) =~= "yaml"@);
    assert(ascii_lower("json"@) =~= "json"@);
    assert(ascii_lower("tsv"@) =~= "tsv"@);
    assert("json"@ != "txt"@ && "json"@ != "yml"@ && "json"@[0] != "text"@[0] && "json"@[0]
        != "yaml"@[0]);
    assert("tsv"@[1] != "txt"@[1] && "tsv"@.len() != "text"@.len() && "tsv"@[0] != "yml"@[0]
        && "tsv"@.len() != "yaml"@.len() && "tsv"@.len() != "json"@.len());
    if case_variant(s, "txt"@) {
        lemma_parse_format_any_case(s, "txt"@);
    }
    if case_variant(s, "text"@) {
        lemma_parse_format_any_case(s, "text"@);
    }
    if case_variant(s, "yml"@) {
        lemma_parse_format_any_case(s, "yml"@);
    }
    if case_variant(s, "yaml"@) {
        lemma_parse_format_any_case(s, "yaml"@);
    }
    if case_variant(s, "json"@) {
        lemma_parse_format_any_case(s, "json"@);
    }
    if case_variant(s, "tsv"@) {
        lemma_parse_format_any_case(s, "tsv"@);
    }
}

/// Whether `a` is the first argument of one of the words that
/// `parse_args` reads itself.
pub open spec fn is_command_word(a: Seq<char>) -> bool {
    a == "-h"@ || a == "--help"@ || a == "-V"@ || a == "--version"@ || a == "--info"@ || a
        == "enc"@ || a == "encode"@ || a == "dec"@ || a == "decode"@
}

/// `dec` / `decode` is an alias: `wxqr dec ARGS` reads ARGS as `wxqr ARGS`
/// does, when ARGS does not start with a word of its own.
pub proof fn lemma_dec_alias(prog: Seq<char>, word: Seq<char>, rest: Seq<Seq<char>>)
    requires
        word == "dec"@ || word == "decode"@,
        rest.len() > 0,
        !is_command_word(rest[0]),
    ensures
        spec_parse_args(seq![prog, word] + rest) == (match spec_parse_args(seq![prog] + rest) {
            Ok(SubcmdView::Direct(d)) => Ok(SubcmdView::Dec(d)),
            other => other,
        }),
{
    reveal_strlit("-h");
    reveal_strlit("--help");
    reveal_strlit("-V");
    reveal_strlit("--version");
    reveal_strlit("--info");
    reveal_strlit("enc");
    reveal_strlit("encode");
    reveal_strlit("dec");
    reveal_strlit("decode");
    let l1 = seq![prog, word] + rest;
    let l2 = seq![prog] + rest;
    assert(word.len() == 3 || word.len() == 6);
    assert(word[0] == 'd');
    assert(word != "-h"@ && word != "--help"@ && word != "-V"@ && word != "--version"@);
    assert(word != "--info"@ && word != "enc"@ && word != "encode"@);
    assert(l1[1] == word);
    assert(l2[1] == rest[0]);
    assert(l1.subrange(2, l1.len() as int) =~= rest);
    assert(l2.subrange(1, l2.len() as int) =~= rest);
}

/// `-h` / `--help` and `-V` / `--version` after `dec` / `decode` ask for
/// help and the version, as they do in the first place.
pub proof fn lemma_dec_help_and_version(prog: Seq<char>, word: Seq<char>, rest: Seq<Seq<char>>)
    requires
        word == "dec"@ || word == "decode"@,
        rest.len() > 0,
    ensures
        (rest[0] == "-h"@ || rest[0] == "--help"@) ==> spec_parse_args(seq![prog, word] + rest)
            == Ok::<SubcmdView, CliErrorView>(SubcmdView::Help),
        (rest[0] == "-V"@ || rest[0] == "--version"@) ==> spec_parse_args(seq![prog, word] + rest)
            == Ok::<SubcmdView, CliErrorView>(SubcmdView::Version),
{
    reveal_strlit("-h");
    reveal_strlit("--help");
    reveal_strlit("-V");
    reveal_strlit("--version");
    reveal_strlit("--info");
    reveal_strlit("enc");
    reveal_strlit("encode");
    reveal_strlit("dec");
    reveal_strlit("decode");
    let l1 = seq![prog, word] + rest;
    assert(word.len() == 3 || word.len() == 6);
    assert(word[0] == 'd');
    assert(word != "-h"@ && word != "--help"@ && word != "-V"@ && word != "--version"@);
    assert(word != "--info"@ && word != "enc"@ && word != "encode"@);
    assert(l1[1] == word);
    let argv = l1.subrange(2, l1.len() as int);
    assert(argv =~= rest);
    assert(argv[0] == rest[0]);
    assert("-h"@[1] == 'h' && "-V"@[1] == 'V' && "-V"@.len() == 2 && "-h"@.len() == 2);
    assert("--help"@.len() == 6 && "--version"@.len() == 9);
}

/// The flags that the decode arguments know all start with `-`.
proof fn lemma_flag_words_start_with_dash()
    ensures
        is_flag_like("-h"@),
        is_flag_like("--help"@),
        is_flag_like("-V"@),
        is_flag_like("--version"@),
        is_flag_like("-f"@),
        is_flag_like("--format"@),
        is_flag_like("--no-scale-up"@),
        is_flag_like("--no_scale_up"@),
        is_flag_like("--points"@),
        is_flag_like("-0"@),
        is_flag_like("--null"@),
        is_flag_like("--files-from"@),
        is_flag_like("-q"@),
        is_flag_like("--quiet"@),
        is_flag_like("--"@),
{
    reveal_strlit("-h");
    reveal_strlit("--help");
    reveal_strlit("-V");
    reveal_strlit("--version");
    reveal_strlit("-f");
    reveal_strlit("--format");
    reveal_strlit("--no-scale-up");
    reveal_strlit("--no_scale_up");
    reveal_strlit("--points");
    reveal_strlit("-0");
    reveal_strlit("--null");
    reveal_strlit("--files-from");
    reveal_strlit("-q");
    reveal_strlit("--quiet");
    reveal_strlit("--");
}

/// Reading arguments that are not flag-like from position `i` on adds
/// them as images, in order.
proof fn lemma_plain_args_from(argv: Seq<Seq<char>>, i: int, a: DecArgsView)
    requires
        0 <= i <= argv.len(),
        forall|k: int| i <= k < argv.len() ==> (#[trigger] argv[k]).len() == 0 || argv[k][0] != '-',
    ensures
        dec_flags_from(argv, i, a) == Ok::<DecArgsView, CliErrorView>(
            DecArgsView { images: a.images + argv.subrange(i, argv.len() as int), ..a },
        ),
    decreases argv.len() - i,
{
    if i == argv.len() {
        assert(a.images + argv.subrange(i, argv.len() as int) =~= a.images);
    } else {
        lemma_flag_words_start_with_dash();
        let arg = argv[i];
        assert(arg.len() == 0 || arg[0] != '-');
        assert(!is_flag_like(arg));
        let b = DecArgsView { images: a.images.push(arg), ..a };
        assert(dec_flag_step(argv, i, a) == Ok::<(int, DecArgsView), CliErrorView>((i + 1, b)));
        lemma_plain_args_from(argv, i + 1, b);
        assert(b.images + argv.subrange(i + 1, argv.len() as int) =~= a.images + argv.subrange(
            i,
            argv.len() as int,
        ));
    }
}

/// Arguments that do not start with `-` (absolute and relative paths,
/// even empty ones) are the images, in the order given, read with the
/// default options.
pub proof fn lemma_plain_args_are_images(argv: Seq<Seq<char>>)
    requires
        argv.len() > 0,
        forall|k: int| 0 <= k < argv.len() ==> (#[trigger] argv[k]).len() == 0 || argv[k][0] != '-',
    ensures
        spec_parse_dec(argv) == Ok::<DecArgsView, CliErrorView>(
            DecArgsView { images: argv, ..default_dec_args() },
        ),
{
    lemma_plain_args_from(argv, 0, default_dec_args());
    assert(Seq::<Seq<char>>::empty() + argv.subrange(0, argv.len() as int) =~= argv);
}

/// A whole command line whose arguments after the program name do not
/// start with `-`, the first of them not being a command word, decodes
/// those arguments as images, in order, with the default options.
pub proof fn lemma_plain_command_line(prog: Seq<char>, argv: Seq<Seq<char>>)
    requires
        argv.len() > 0,
        forall|k: int| 0 <= k < argv.len() ==> (#[trigger] argv[k]).len() == 0 || argv[k][0] != '-',
        !is_command_word(argv[0]),
    ensures
        spec_parse_args(seq![prog] + argv) == Ok::<SubcmdView, CliErrorView>(
            SubcmdView::Direct(DecArgsView { images: argv, ..default_dec_args() }),
        ),
{
    lemma_plain_args_are_images(argv);
    let args = seq![prog] + argv;
    assert(args[1] == argv[0]);
    assert(args.subrange(1, args.len() as int) =~= argv);
}

/// The lengths and telling characters of the flags.
proof fn lemma_flag_words_differ()
    ensures
        "-h"@.len() == 2 && "-h"@[1] == 'h',
        "-V"@.len() == 2 && "-V"@[1] == 'V',
        "-f"@.len() == 2 && "-f"@[1] == 'f',
        "-0"@.len() == 2 && "-0"@[1] == '0',
        "-q"@.len() == 2 && "-q"@[1] == 'q',
        "--"@.len() == 2 && "--"@[1] == '-',
        "--help"@.len() == 6 && "--help"@[2] == 'h',
        "--null"@.len() == 6 && "--null"@[2] == 'n',
        "--quiet"@.len() == 7,
        "--format"@.len() == 8 && "--format"@[2] == 'f',
        "--points"@.len() == 8 && "--points"@[2] == 'p',
        "--version"@.len() == 9,
        "--files-from"@.len() == 12,
        "--no-scale-up"@.len() == 13 && "--no-scale-up"@[4] == '-',
        "--no_scale_up"@.len() == 13 && "--no_scale_up"@[4] == '_',
{
    reveal_strlit("-h");
    reveal_strlit("--help");
    reveal_strlit("-V");
    reveal_strlit("--version");
    reveal_strlit("-f");
    reveal_strlit("--format");
    reveal_strlit("--no-scale-up");
    reveal_strlit("--no_scale_up");
    reveal_strlit("--points");
    reveal_strlit("-0");
    reveal_strlit("--null");
    reveal_strlit("--files-from");
    reveal_strlit("-q");
    reveal_strlit("--quiet");
    reveal_strlit("--");
    assert("-h"@.len() == 2 && "-h"@[1] == 'h');
    assert("-V"@.len() == 2 && "-V"@[1] == 'V');
    assert("-f"@.len() == 2 && "-f"@[1] == 'f');
    assert("-0"@.len() == 2 && "-0"@[1] == '0');
    assert("-q"@.len() == 2 && "-q"@[1] == 'q');
    assert("--"@.len() == 2 && "--"@[1] == '-');
    assert("--help"@.len() == 6 && "--help"@[2] == 'h');
    assert("--null"@.len() == 6 && "--null"@[2] == 'n');
    assert("--quiet"@.len() == 7);
    assert("--format"@.len() == 8 && "--format"@[2] == 'f');
    assert("--points"@.len() == 8 && "--points"@[2] == 'p');
    assert("--version"@.len() == 9);
    assert("--files-from"@.len() == 12);
    assert("--no-scale-up"@.len() == 13 && "--no-scale-up"@[4] == '-');
    assert("--no_scale_up"@.len() == 13 && "--no_scale_up"@[4] == '_');
}

/// A flag without a value, then images: the flag sets its option and
/// the images are read in order; the other options keep their defaults.
pub proof fn lemma_switch_flag_then_images(flag: Seq<char>, imgs: Seq<Seq<char>>)
    requires
        imgs.len() > 0,
        forall|k: int| 0 <= k < imgs.len() ==> (#[trigger] imgs[k]).len() == 0 || imgs[k][0] != '-',
    ensures
        (flag == "--no-scale-up"@ || flag == "--no_scale_up"@) ==> spec_parse_dec(seq![flag] + imgs)
            == Ok::<DecArgsView, CliErrorView>(
            DecArgsView { scale_up: false, images: imgs, ..default_dec_args() },
        ),
        flag == "--points"@ ==> spec_parse_dec(seq![flag] + imgs) == Ok::<DecArgsView, CliErrorView>(
            DecArgsView { points: true, images: imgs, ..default_dec_args() },
        ),
        (flag == "-0"@ || flag == "--null"@) ==> spec_parse_dec(seq![flag] + imgs) == Ok::<
            DecArgsView,
            CliErrorView,
        >(DecArgsView { null_sep: true, images: imgs, ..default_dec_args() }),
        (flag == "-q"@ || flag == "--quiet"@) ==> spec_parse_dec(seq![flag] + imgs) == Ok::<
            DecArgsView,
            CliErrorView,
        >(DecArgsView { quiet: true, images: imgs, ..default_dec_args() }),
{
    lemma_flag_words_differ();
    let argv = seq![flag] + imgs;
    let d = default_dec_args();
    assert(argv[0] == flag);
    assert forall|k: int| 1 <= k < argv.len() implies (#[trigger] argv[k]).len() == 0 || argv[k][0]
        != '-' by {
        assert(argv[k] == imgs[k - 1]);
    }
    assert(argv.subrange(1, argv.len() as int) =~= imgs);
    assert(Seq::<Seq<char>>::empty() + imgs =~= imgs);
    let b1 = DecArgsView { scale_up: false, ..d };
    let b2 = DecArgsView { points: true, ..d };
    let b3 = DecArgsView { null_sep: true, ..d };
    let b4 = DecArgsView { quiet: true, ..d };
    lemma_plain_args_from(argv, 1, b1);
    lemma_plain_args_from(argv, 1, b2);
    lemma_plain_args_from(argv, 1, b3);
    lemma_plain_args_from(argv, 1, b4);
}

/// `-f` / `--format` with a value, then images: a known format name (in
/// any case) selects the format, an unknown one is refused with that
/// name.
pub proof fn lemma_format_flag_then_images(flag: Seq<char>, v: Seq<char>, imgs: Seq<Seq<char>>)
    requires
        flag == "-f"@ || flag == "--format"@,
        imgs.len() > 0,
        forall|k: int| 0 <= k < imgs.len() ==> (#[trigger] imgs[k]).len() == 0 || imgs[k][0] != '-',
    ensures
        spec_parse_dec(seq![flag, v] + imgs) == (match spec_parse_format(v) {
            Some(k) => Ok::<DecArgsView, CliErrorView>(
                DecArgsView { format: k, images: imgs, ..default_dec_args() },
            ),
            None => Err(CliErrorView::UnknownFormat(v)),
        }),
{
    lemma_flag_words_differ();
    let argv = seq![flag, v] + imgs;
    let d = default_dec_args();
    assert(argv[0] == flag);
    assert(argv[1] == v);
    assert forall|k: int| 2 <= k < argv.len() implies (#[trigger] argv[k]).len() == 0 || argv[k][0]
        != '-' by {
        assert(argv[k] == imgs[k - 2]);
    }
    assert(argv.subrange(2, argv.len() as int) =~= imgs);
    assert(Seq::<Seq<char>>::empty() + imgs =~= imgs);
    match spec_parse_format(v) {
        Some(k) => {
            lemma_plain_args_from(argv, 2, DecArgsView { format: k, ..d });
        },
        None => {},
    }
}

/// `--files-from` with a source, then images (possibly none): the
/// source is kept to be read, and the images are read in order.
pub proof fn lemma_files_from_flag_then_images(v: Seq<char>, imgs: Seq<Seq<char>>)
    requires
        forall|k: int| 0 <= k < imgs.len() ==> (#[trigger] imgs[k]).len() == 0 || imgs[k][0] != '-',
    ensures
        spec_parse_dec(seq!["--files-from"@, v] + imgs) == Ok::<DecArgsView, CliErrorView>(
            DecArgsView { files_from: Some(v), images: imgs, ..default_dec_args() },
        ),
{
    lemma_flag_words_differ();
    reveal_strlit("--files-from");
    let argv = seq!["--files-from"@, v] + imgs;
    let d = default_dec_args();
    assert(argv[0] == "--files-from"@);
    assert forall|k: int| 2 <= k < argv.len() implies (#[trigger] argv[k]).len() == 0 || argv[k][0]
        != '-' by {
        assert(argv[k] == imgs[k - 2]);
    }
    assert(argv.subrange(2, argv.len() as int) =~= imgs);
    assert(Seq::<Seq<char>>::empty() + imgs =~= imgs);
    lemma_plain_args_from(argv, 2, DecArgsView { files_from: Some(v), ..d });
}

/// `enc` / `encode` is refused whatever follows, and a command line with
/// no argument asks for help.
pub proof fn lemma_enc_refused_and_bare_help(prog: Seq<char>, word: Seq<char>, rest: Seq<Seq<char>>)
    ensures
        (word == "enc"@ || word == "encode"@) ==> spec_parse_args(seq![prog, word] + rest) == Err::<
            SubcmdView,
            CliErrorView,
        >(CliErrorView::NoEncSubcommand),
        spec_parse_args(seq![prog]) == Ok::<SubcmdView, CliErrorView>(SubcmdView::Help),
{
    reveal_strlit("-h");
    reveal_strlit("--help");
    reveal_strlit("-V");
    reveal_strlit("--version");
    reveal_strlit("--info");
    reveal_strlit("enc");
    reveal_strlit("encode");
    let l = seq![prog, word] + rest;
    assert(l[1] == word);
    assert("enc"@.len() == 3 && "enc"@[0] == 'e' && "encode"@.len() == 6 && "encode"@[0] == 'e');
    assert("-h"@[0] == '-' && "--help"@[0] == '-' && "-V"@[0] == '-' && "--version"@[0] == '-'
        && "--info"@[0] == '-');
}

/// Everything after `--` is an image, even when it looks like a flag.
pub proof fn lemma_double_dash_ends_flags(rest: Seq<Seq<char>>)
    requires
        rest.len() > 0,
    ensures
        spec_parse_dec(seq!["--"@] + rest) == Ok::<DecArgsView, CliErrorView>(
            DecArgsView { images: rest, ..default_dec_args() },
        ),
{
    reveal_strlit("-h");
    reveal_strlit("--help");
    reveal_strlit("-V");
    reveal_strlit("--version");
    reveal_strlit("-f");
    reveal_strlit("--format");
    reveal_strlit("--no-scale-up");
    reveal_strlit("--no_scale_up");
    reveal_strlit("--points");
    reveal_strlit("-0");
    reveal_strlit("--null");
    reveal_strlit("--files-from");
    reveal_strlit("-q");
    reveal_strlit("--quiet");
    reveal_strlit("--");
    let argv = seq!["--"@] + rest;
    let d = default_dec_args();
    assert(argv[0] == "--"@);
    assert(argv.subrange(1, argv.len() as int) =~= rest);
    assert(Seq::<Seq<char>>::empty() + rest =~= rest);
    let b = DecArgsView { images: rest, ..d };
    assert(d.images + argv.subrange(1, argv.len() as int) =~= rest);
    assert("--"@.len() == 2 && "--"@[1] == '-');
    assert("-h"@[1] == 'h' && "-V"@[1] == 'V' && "-f"@[1] == 'f' && "-0"@[1] == '0' && "-q"@[1] == 'q');
    assert("--help"@.len() != 2 && "--version"@.len() != 2 && "--format"@.len() != 2);
    assert(!(argv[0] == "-h"@ || argv[0] == "--help"@));
    assert(!(argv[0] == "-V"@ || argv[0] == "--version"@));
    assert(!(argv[0] == "-f"@ || argv[0] == "--format"@));
    assert(!(argv[0] == "--no-scale-up"@ || argv[0] == "--no_scale_up"@));
    assert(!(argv[0] == "--points"@));
    assert(!(argv[0] == "-0"@ || argv[0] == "--null"@));
    assert(!(argv[0] == "--files-from"@));
    assert(!(argv[0] == "-q"@ || argv[0] == "--quiet"@));
    assert(dec_flag_step(argv, 0, d) == Ok::<(int, DecArgsView), CliErrorView>((argv.len() as int, b)));
    assert(dec_flags_from(argv, argv.len() as int, b) == Ok::<DecArgsView, CliErrorView>(b));
}

} // verus!
