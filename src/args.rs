use vstd::prelude::*;
use vstd::utf8::encode_utf8;

verus! {

/// The text format on the other side of the binary file.
#[derive(Clone, Copy, Debug, PartialEq, Eq, Structural)]
pub enum Format {
    Toml,
    Json,
}

/// Which way to convert: binary to text (decode) or text to binary (encode).
#[derive(Clone, Copy, Debug, PartialEq, Eq, Structural)]
pub enum Mode {
    Decode,
    Encode,
}

/// The command line: an optional mode, an optional format, the input path
/// (`-` for standard input) and an optional output path (standard output
/// when absent).
#[derive(Clone, Debug, PartialEq)]
pub struct Args {
    pub mode: Option<Mode>,
    pub format: Option<Format>,
    pub input: String,
    pub output: Option<String>,
}

pub struct ArgsView {
    pub mode: Option<Mode>,
    pub format: Option<Format>,
    pub input: Seq<char>,
    pub output: Option<Seq<char>>,
}

pub open spec fn opt_view(s: Option<String>) -> Option<Seq<char>> {
    match s {
        Some(s) => Some(s@),
        None => None,
    }
}

impl View for Args {
    type V = ArgsView;

    open spec fn view(&self) -> ArgsView {
        ArgsView {
            mode: self.mode,
            format: self.format,
            input: self.input@,
            output: opt_view(self.output),
        }
    }
}

/// Why a command line is not accepted, or why it leaves something open.
#[derive(Clone, Debug, PartialEq)]
pub enum ArgsError {
    /// `-h` or `--help` was given.
    HelpRequested,
    /// This option came last, without its value.
    MissingValue(String),
    /// This option was given twice.
    RepeatedOption(String),
    /// This word names no mode.
    InvalidMode(String),
    /// This word names no format.
    InvalidFormat(String),
    /// This word looks like an option but names none.
    UnknownOption(String),
    /// This word follows the input and output paths.
    UnexpectedArgument(String),
    /// No input path was given.
    MissingInput,
    /// No mode was given and none follows from the paths' extensions.
    UnableToInferMode,
    /// No format was given and none follows from the paths' extensions.
    UnableToInferFormat,
}

pub enum ArgsErrorView {
    HelpRequested,
    MissingValue(Seq<char>),
    RepeatedOption(Seq<char>),
    InvalidMode(Seq<char>),
    InvalidFormat(Seq<char>),
    UnknownOption(Seq<char>),
    UnexpectedArgument(Seq<char>),
    MissingInput,
    UnableToInferMode,
    UnableToInferFormat,
}

impl View for ArgsError {
    type V = ArgsErrorView;

    open spec fn view(&self) -> ArgsErrorView {
        match self {
            ArgsError::HelpRequested => ArgsErrorView::HelpRequested,
            ArgsError::MissingValue(w) => ArgsErrorView::MissingValue(w@),
            ArgsError::RepeatedOption(w) => ArgsErrorView::RepeatedOption(w@),
            ArgsError::InvalidMode(w) => ArgsErrorView::InvalidMode(w@),
            ArgsError::InvalidFormat(w) => ArgsErrorView::InvalidFormat(w@),
            ArgsError::UnknownOption(w) => ArgsErrorView::UnknownOption(w@),
            ArgsError::UnexpectedArgument(w) => ArgsErrorView::UnexpectedArgument(w@),
            ArgsError::MissingInput => ArgsErrorView::MissingInput,
            ArgsError::UnableToInferMode => ArgsErrorView::UnableToInferMode,
            ArgsError::UnableToInferFormat => ArgsErrorView::UnableToInferFormat,
        }
    }
}

// ---------------------------------------------------------------------------
// The grammar of the command line

pub open spec fn mode_named(w: Seq<char>) -> Option<Mode> {
    if w == "decode"@ || w == "d"@ {
        Some(Mode::Decode)
    } else if w == "encode"@ || w == "e"@ {
        Some(Mode::Encode)
    } else {
        None
    }
}

pub open spec fn format_named(w: Seq<char>) -> Option<Format> {
    if w == "toml"@ || w == "t"@ {
        Some(Format::Toml)
    } else if w == "json"@ || w == "j"@ {
        Some(Format::Json)
    } else {
        None
    }
}

/// A word that is not a path: it starts with `-` and is not `-` alone
/// (which names standard input).
pub open spec fn is_option_like(w: Seq<char>) -> bool {
    encode_utf8(w).len() > 1 && encode_utf8(w)[0] == 45
}

/// What the words read so far have set.
pub struct ParseState {
    pub mode: Option<Mode>,
    pub format: Option<Format>,
    pub paths: Seq<Seq<char>>,
}

/// The words from position `i` on, read into `st`.
pub open spec fn parse_words(words: Seq<Seq<char>>, i: int, st: ParseState) -> Result<
    ParseState,
    ArgsErrorView,
>
    decreases words.len() - i,
{
    if i < 0 || i >= words.len() {
        Ok(st)
    } else {
        let w = words[i];
        if w == "-h"@ || w == "--help"@ {
            Err(ArgsErrorView::HelpRequested)
        } else if w == "-m"@ || w == "--mode"@ {
            if i + 1 >= words.len() {
                Err(ArgsErrorView::MissingValue(w))
            } else if st.mode is Some {
                Err(ArgsErrorView::RepeatedOption(w))
            } else {
                match mode_named(words[i + 1]) {
                    None => Err(ArgsErrorView::InvalidMode(words[i + 1])),
                    Some(m) => parse_words(words, i + 2, ParseState { mode: Some(m), ..st }),
                }
            }
        } else if w == "-f"@ || w == "--format"@ {
            if i + 1 >= words.len() {
                Err(ArgsErrorView::MissingValue(w))
            } else if st.format is Some {
                Err(ArgsErrorView::RepeatedOption(w))
            } else {
                match format_named(words[i + 1]) {
                    None => Err(ArgsErrorView::InvalidFormat(words[i + 1])),
                    Some(f) => parse_words(words, i + 2, ParseState { format: Some(f), ..st }),
                }
            }
        } else if is_option_like(w) {
            Err(ArgsErrorView::UnknownOption(w))
        } else if st.paths.len() >= 2 {
            Err(ArgsErrorView::UnexpectedArgument(w))
        } else {
            parse_words(words, i + 1, ParseState { paths: st.paths.push(w), ..st })
        }
    }
}

/// The command line that the words spell: options `-m`/`--mode` with
/// `decode`, `d`, `encode` or `e`, and `-f`/`--format` with `toml`, `t`,
/// `json` or `j`, each at most once, anywhere; then the input path and an
/// optional output path.
pub open spec fn args_of(words: Seq<Seq<char>>) -> Result<ArgsView, ArgsErrorView> {
    match parse_words(words, 0, ParseState { mode: None, format: None, paths: seq![] }) {
        Err(e) => Err(e),
        Ok(st) => if st.paths.len() == 0 {
            Err(ArgsErrorView::MissingInput)
        } else {
            Ok(
                ArgsView {
                    mode: st.mode,
                    format: st.format,
                    input: st.paths[0],
                    output: if st.paths.len() > 1 {
                        Some(st.paths[1])
                    } else {
                        None
                    },
                },
            )
        },
    }
}

pub open spec fn words_view(words: Seq<String>) -> Seq<Seq<char>> {
    words.map_values(|w: String| w@)
}

fn word_is(w: &String, lit: &str) -> (r: bool)
    ensures
        r == (w@ == lit@),
{
    let l = lit.to_owned();
    *w == l
}

fn option_like(w: &String) -> (r: bool)
    ensures
        r == is_option_like(w@),
{
    let b = w.as_str().as_bytes();
    b.len() > 1 && b[0] == 45
}

fn mode_from_word(w: &String) -> (r: Option<Mode>)
    ensures
        r == mode_named(w@),
{
    if word_is(w, "decode") || word_is(w, "d") {
        Some(Mode::Decode)
    } else if word_is(w, "encode") || word_is(w, "e") {
        Some(Mode::Encode)
    } else {
        None
    }
}

fn format_from_word(w: &String) -> (r: Option<Format>)
    ensures
        r == format_named(w@),
{
    if word_is(w, "toml") || word_is(w, "t") {
        Some(Format::Toml)
    } else if word_is(w, "json") || word_is(w, "j") {
        Some(Format::Json)
    } else {
        None
    }
}

/// Reads the command line from its words (without the program's name).
pub fn parse_args(words: &Vec<String>) -> (r: Result<Args, ArgsError>)
    ensures
        match r {
            Ok(a) => args_of(words_view(words@)) == Ok::<_, ArgsErrorView>(a@),
            Err(e) => args_of(words_view(words@)) == Err::<ArgsView, _>(e@),
        },
{
    let ghost ws = words_view(words@);
    let mut mode: Option<Mode> = None;
    let mut format: Option<Format> = None;
    let mut paths: Vec<String> = Vec::new();
    let mut i: usize = 0;
    assert(words_view(paths@) =~= seq![]);
    while i < words.len()
        invariant
            ws == words_view(words@),
            ws.len() == words@.len(),
            i <= words@.len(),
            paths@.len() <= 2,
            parse_words(ws, 0, ParseState { mode: None, format: None, paths: seq![] })
                == parse_words(ws, i as int, ParseState { mode, format, paths: words_view(paths@) }),
        decreases words@.len() - i,
    {
        let w = &words[i];
        let ghost st = ParseState { mode, format, paths: words_view(paths@) };
        assert(ws[i as int] == w@);
        if word_is(w, "-h") || word_is(w, "--help") {
            return Err(ArgsError::HelpRequested);
        } else if word_is(w, "-m") || word_is(w, "--mode") {
            if i + 1 >= words.len() {
                return Err(ArgsError::MissingValue(w.clone()));
            }
            if mode.is_some() {
                return Err(ArgsError::RepeatedOption(w.clone()));
            }
            let value = &words[i + 1];
            assert(ws[i + 1] == value@);
            match mode_from_word(value) {
                None => {
                    return Err(ArgsError::InvalidMode(value.clone()));
                },
                Some(m) => {
                    mode = Some(m);
                },
            }
            i = i + 2;
        } else if word_is(w, "-f") || word_is(w, "--format") {
            if i + 1 >= words.len() {
                return Err(ArgsError::MissingValue(w.clone()));
            }
            if format.is_some() {
                return Err(ArgsError::RepeatedOption(w.clone()));
            }
            let value = &words[i + 1];
            assert(ws[i + 1] == value@);
            match format_from_word(value) {
                None => {
                    return Err(ArgsError::InvalidFormat(value.clone()));
                },
                Some(f) => {
                    format = Some(f);
                },
            }
            i = i + 2;
        } else if option_like(w) {
            return Err(ArgsError::UnknownOption(w.clone()));
        } else if paths.len() >= 2 {
            return Err(ArgsError::UnexpectedArgument(w.clone()));
        } else {
            let ghost before = paths@;
            paths.push(w.clone());
            assert(words_view(paths@) =~= words_view(before).push(w@));
            i = i + 1;
        }
    }
    if paths.len() == 0 {
        return Err(ArgsError::MissingInput);
    }
    let ghost pv = words_view(paths@);
    assert(pv[0] == paths@[0]@);
    let input = paths[0].clone();
    let output = if paths.len() > 1 {
        assert(pv[1] == paths@[1]@);
        Some(paths[1].clone())
    } else {
        None
    };
    Ok(Args { mode, format, input, output })
}

// ---------------------------------------------------------------------------
// Inferring the mode and the format from the paths

/// The extension of a path's file name, as `Path::extension` finds it.
pub uninterp spec fn extension_of(path: Seq<char>) -> Option<Seq<char>>;

/// Relies on `Path::extension`: the extension of the file name, which
/// depends on the path alone. A path given as UTF-8 has a UTF-8 extension,
/// so the conversion back to a string loses nothing.
#[verifier::external_body]
fn path_extension(path: &str) -> (r: Option<String>)
    ensures
        opt_view(r) == extension_of(path@),
{
    std::path::Path::new(path).extension().map(|e| e.to_string_lossy().into_owned())
}

/// A character's code with ASCII upper-case letters lowered.
pub open spec fn ascii_lower_code(c: char) -> u32 {
    if 65 <= c as u32 <= 90 {
        (c as u32 + 32) as u32
    } else {
        c as u32
    }
}

/// Equality up to ASCII case.
pub open spec fn eq_ignoring_ascii_case(a: Seq<char>, b: Seq<char>) -> bool {
    &&& a.len() == b.len()
    &&& forall|i: int| 0 <= i < a.len() ==> ascii_lower_code(#[trigger] a[i]) == ascii_lower_code(b[i])
}

/// Relies on `str::eq_ignore_ascii_case`: the two strings are equal once
/// ASCII letters are lowered.
#[verifier::external_body]
fn ascii_case_insensitive_eq(a: &str, b: &str) -> (r: bool)
    ensures
        r == eq_ignoring_ascii_case(a@, b@),
{
    a.eq_ignore_ascii_case(b)
}

/// The path has extension `ext`, ignoring ASCII case.
pub open spec fn has_extension(path: Seq<char>, ext: Seq<char>) -> bool {
    match extension_of(path) {
        Some(e) => eq_ignoring_ascii_case(e, ext),
        None => false,
    }
}

/// Whether the path's extension is `s`, ignoring ASCII case.
pub fn extension_is(path: &str, s: &str) -> (r: bool)
    ensures
        r == has_extension(path@, s@),
{
    match path_extension(path) {
        Some(e) => ascii_case_insensitive_eq(e.as_str(), s),
        None => false,
    }
}

/// The mode that the paths suggest: by the output's extension when there is
/// an output (`.json` or `.toml`: decode; `.dat`: encode), else by the
/// input's (`.json` or `.toml`: encode; `.dat`: decode).
pub open spec fn inferred_mode(a: ArgsView) -> Option<Mode> {
    match a.output {
        Some(out) => if has_extension(out, "json"@) || has_extension(out, "toml"@) {
            Some(Mode::Decode)
        } else if has_extension(out, "dat"@) {
            Some(Mode::Encode)
        } else {
            None
        },
        None => if has_extension(a.input, "json"@) || has_extension(a.input, "toml"@) {
            Some(Mode::Encode)
        } else if has_extension(a.input, "dat"@) {
            Some(Mode::Decode)
        } else {
            None
        },
    }
}

/// The format of a text file by its extension.
pub open spec fn format_of_path(path: Seq<char>) -> Option<Format> {
    if has_extension(path, "json"@) {
        Some(Format::Json)
    } else if has_extension(path, "toml"@) {
        Some(Format::Toml)
    } else {
        None
    }
}

/// The format that the text side's path suggests: the input when encoding,
/// the output (if any) when decoding.
pub open spec fn inferred_format(a: ArgsView, mode: Mode) -> Option<Format> {
    match mode {
        Mode::Encode => format_of_path(a.input),
        Mode::Decode => match a.output {
            Some(out) => format_of_path(out),
            None => None,
        },
    }
}

fn text_format_of(path: &str) -> (r: Option<Format>)
    ensures
        r == format_of_path(path@),
{
    if extension_is(path, "json") {
        Some(Format::Json)
    } else if extension_is(path, "toml") {
        Some(Format::Toml)
    } else {
        None
    }
}

/// Infers the mode from the paths' extensions.
pub fn infer_args_mode(arg: &Args) -> (r: Option<Mode>)
    ensures
        r == inferred_mode(arg@),
{
    match &arg.output {
        Some(path) => {
            let json = extension_is(path.as_str(), "json");
            let toml = extension_is(path.as_str(), "toml");
            let dat = extension_is(path.as_str(), "dat");
            if json || toml {
                Some(Mode::Decode)
            } else if dat {
                Some(Mode::Encode)
            } else {
                None
            }
        },
        None => {
            let path = arg.input.as_str();
            let json = extension_is(path, "json");
            let toml = extension_is(path, "toml");
            let dat = extension_is(path, "dat");
            if json || toml {
                Some(Mode::Encode)
            } else if dat {
                Some(Mode::Decode)
            } else {
                None
            }
        },
    }
}

/// Infers the format from the text side's path.
pub fn infer_args_format(arg: &Args, mode: &Mode) -> (r: Option<Format>)
    ensures
        r == inferred_format(arg@, *mode),
{
    match mode {
        Mode::Encode => text_format_of(arg.input.as_str()),
        Mode::Decode => match &arg.output {
            Some(path) => text_format_of(path.as_str()),
            None => None,
        },
    }
}

/// The mode and format to run with: those given, else those inferred.
pub fn resolve_mode_and_format(arg: &Args) -> (r: Result<(Mode, Format), ArgsError>)
    ensures
        ({
            let mode = match arg.mode {
                Some(m) => Some(m),
                None => inferred_mode(arg@),
            };
            match mode {
                None => r == Err::<(Mode, Format), _>(ArgsError::UnableToInferMode),
                Some(m) => {
                    let format = match arg.format {
                        Some(f) => Some(f),
                        None => inferred_format(arg@, m),
                    };
                    match format {
                        None => r == Err::<(Mode, Format), _>(ArgsError::UnableToInferFormat),
                        Some(f) => r == Ok::<_, ArgsError>((m, f)),
                    }
                },
            }
        }),
{
    let mode = match arg.mode {
        Some(m) => m,
        None => match infer_args_mode(arg) {
            Some(m) => m,
            None => {
                return Err(ArgsError::UnableToInferMode);
            },
        },
    };
    let format = match arg.format {
        Some(f) => f,
        None => match infer_args_format(arg, &mode) {
            Some(f) => f,
            None => {
                return Err(ArgsError::UnableToInferFormat);
            },
        },
    };
    Ok((mode, format))
}

} // verus!
