//! The command line: what the arguments ask for.
//!
//! `--prefix VALUE` sets the prefix of the signature names, `--erase-all`
//! asks to erase the signatures with that prefix, `-h` and `--help` ask for
//! the usage text, and everything else names a quote file. Splitting the
//! command line into options and values is `lexopt`'s work; what each of
//! them means is decided here.

use vstd::prelude::*;
use vstd::string::StringExecFns;

verus! {

/// `lexopt`'s command-line parser.
#[verifier::external_type_specification]
#[verifier::external_body]
pub struct ExParser(lexopt::Parser);

/// `lexopt`'s error.
#[verifier::external_type_specification]
#[verifier::external_body]
pub struct ExError(lexopt::Error);

/// `exit_code::SUCCESS` is 0.
#[verifier::external_body]
fn success() -> (status: i32)
    ensures
        status == 0,
{
    exit_code::SUCCESS
}

/// `exit_code::USAGE_ERROR` is 64.
#[verifier::external_body]
fn usage_error() -> (status: i32)
    ensures
        status == 64,
{
    exit_code::USAGE_ERROR
}

/// `exit_code::IO_ERROR` is 74.
#[verifier::external_body]
fn io_error() -> (status: i32)
    ensures
        status == 74,
{
    exit_code::IO_ERROR
}

/// One item of a command line as `lexopt` hands it out: a short option
/// such as `-h`, a long option such as `--help`, without its dashes, or
/// a value.
#[derive(Debug, PartialEq, Eq)]
pub enum Token {
    Short(char),
    Long(String),
    Value(String),
}

/// What a `Token` stands for.
pub enum TokenView {
    Short(char),
    Long(Seq<char>),
    Value(Seq<char>),
}

impl View for Token {
    type V = TokenView;

    open spec fn view(&self) -> TokenView {
        match self {
            Token::Short(c) => TokenView::Short(*c),
            Token::Long(name) => TokenView::Long(name@),
            Token::Value(value) => TokenView::Value(value@),
        }
    }
}

/// What an item of the command line asks for.
#[derive(Debug, PartialEq, Eq, Clone, Copy)]
pub enum Meaning {
    /// Show the usage text.
    Help,
    /// Erase the signatures.
    EraseAll,
    /// The next value is the prefix.
    Prefix,
    /// A quote file.
    File,
    /// Nothing that this program knows.
    Unexpected,
}

/// What `token` asks for: `-h` and `--help` for the usage text,
/// `--erase-all` for erasing, `--prefix` announces the prefix, a value
/// names a file, and every other option is unexpected.
pub open spec fn meaning_of(token: TokenView) -> Meaning {
    match token {
        TokenView::Short(c) => if c == 'h' {
            Meaning::Help
        } else {
            Meaning::Unexpected
        },
        TokenView::Long(name) => if name == "help"@ {
            Meaning::Help
        } else if name == "erase-all"@ {
            Meaning::EraseAll
        } else if name == "prefix"@ {
            Meaning::Prefix
        } else {
            Meaning::Unexpected
        },
        TokenView::Value(_) => Meaning::File,
    }
}

/// Whether `name` is the word `word`.
fn is_word(name: &String, word: &str) -> (b: bool)
    ensures
        b == (name@ == word@),
{
    let other = String::from_str(word);
    *name == other
}

/// Decides what `token` asks for.
pub fn meaning(token: &Token) -> (m: Meaning)
    ensures
        m == meaning_of(token@),
{
    match token {
        Token::Short(c) => if *c == 'h' {
            Meaning::Help
        } else {
            Meaning::Unexpected
        },
        Token::Long(name) => if is_word(name, "help") {
            Meaning::Help
        } else if is_word(name, "erase-all") {
            Meaning::EraseAll
        } else if is_word(name, "prefix") {
            Meaning::Prefix
        } else {
            Meaning::Unexpected
        },
        Token::Value(_) => Meaning::File,
    }
}

/// What a command line asks for.
#[derive(Debug, PartialEq, Eq)]
pub struct Args {
    pub help: bool,
    pub erase_all: bool,
    pub prefix: String,
    pub filenames: Vec<String>,
}

/// What an `Args` stands for.
pub struct ArgsView {
    pub help: bool,
    pub erase_all: bool,
    pub prefix: Seq<char>,
    pub filenames: Seq<Seq<char>>,
}

impl View for Args {
    type V = ArgsView;

    open spec fn view(&self) -> ArgsView {
        ArgsView {
            help: self.help,
            erase_all: self.erase_all,
            prefix: self.prefix@,
            filenames: self.filenames.deep_view(),
        }
    }
}

/// What an empty command line asks for: nothing, with the default prefix.
pub open spec fn defaults() -> ArgsView {
    ArgsView { help: false, erase_all: false, prefix: "Autoquote "@, filenames: Seq::empty() }
}

/// One thing that a command line asks for.
#[derive(Debug, PartialEq, Eq)]
pub enum Request {
    /// Show the usage text.
    Help,
    /// Erase the signatures.
    EraseAll,
    /// Use this prefix.
    Prefix(String),
    /// Read this file.
    File(String),
}

/// What a `Request` stands for.
pub enum Event {
    Help,
    EraseAll,
    Prefix(Seq<char>),
    File(Seq<char>),
}

impl View for Request {
    type V = Event;

    open spec fn view(&self) -> Event {
        match self {
            Request::Help => Event::Help,
            Request::EraseAll => Event::EraseAll,
            Request::Prefix(prefix) => Event::Prefix(prefix@),
            Request::File(name) => Event::File(name@),
        }
    }
}

/// `args` after `event`: a flag is set, the prefix replaced, or a file
/// name added at the end.
pub open spec fn applied(args: ArgsView, event: Event) -> ArgsView {
    match event {
        Event::Help => ArgsView { help: true, ..args },
        Event::EraseAll => ArgsView { erase_all: true, ..args },
        Event::Prefix(prefix) => ArgsView { prefix, ..args },
        Event::File(name) => ArgsView { filenames: args.filenames.push(name), ..args },
    }
}

/// The prefix of signature names where the command line gives none.
pub fn default_prefix() -> (prefix: String)
    ensures
        prefix@ == "Autoquote "@,
{
    String::from_str("Autoquote ")
}

impl Args {
    /// What an empty command line asks for: nothing, with the default
    /// prefix.
    pub fn new() -> (args: Self)
        ensures
            args@ == defaults(),
    {
        let args = Args {
            help: false,
            erase_all: false,
            prefix: default_prefix(),
            filenames: Vec::new(),
        };
        assert(args@.filenames =~= defaults().filenames);
        args
    }

    /// Takes in one request: sets a flag, replaces the prefix, or adds a
    /// file name at the end.
    pub fn apply(&mut self, request: Request)
        ensures
            final(self)@ == applied(old(self)@, request@),
    {
        match request {
            Request::Help => {
                self.help = true;
            },
            Request::EraseAll => {
                self.erase_all = true;
            },
            Request::Prefix(prefix) => {
                self.prefix = prefix;
            },
            Request::File(name) => {
                let ghost text = name@;
                self.filenames.push(name);
                assert(self.filenames.deep_view() =~= old(self).filenames.deep_view().push(text));
            },
        }
    }
}

/// Why a command line was refused.
#[derive(Debug, PartialEq, Eq)]
pub struct UsageError {
    pub message: String,
}

/// The arguments that a `lexopt::Parser` was made from.
pub uninterp spec fn parser_args(parser: lexopt::Parser) -> Seq<Seq<char>>;

/// The calls that were made on a `lexopt::Parser` since it was made, in
/// order: `true` for `next`, `false` for `value`.
pub uninterp spec fn parser_calls(parser: lexopt::Parser) -> Seq<bool>;

/// What `lexopt::Parser::next` hands out on a parser that was made from
/// `argv` and on which `calls` were made: an option or a value, `None` at
/// the end of the command line, and nothing if it finds a fault.
pub uninterp spec fn lexopt_next(argv: Seq<Seq<char>>, calls: Seq<bool>) -> Option<
    Option<TokenView>,
>;

/// What `lexopt::Parser::value` hands out on a parser that was made from
/// `argv` and on which `calls` were made: a value, or nothing if there is
/// none.
pub uninterp spec fn lexopt_value(argv: Seq<Seq<char>>, calls: Seq<bool>) -> Option<Seq<char>>;

/// How much of the command line `argv` a parser has still to read after
/// `calls`: the arguments that it has not taken up and what is left of
/// the one that it is in.
pub uninterp spec fn lexopt_unread(argv: Seq<Seq<char>>, calls: Seq<bool>) -> nat;

/// What `lexopt` makes of an argument of one of the three plain shapes,
/// as its documentation describes them: `--name`, without `=`, is the
/// long option `name`; `-c` is the short option `c`; an argument that
/// does not start with `-` is a value. Of every other shape, such as
/// `--name=value`, `-abc`, `--` and `-`, nothing is said here.
pub open spec fn plain_token(arg: Seq<char>) -> Option<TokenView> {
    if arg.len() == 0 || arg[0] != '-' {
        Some(TokenView::Value(arg))
    } else if arg.len() == 2 && arg[1] != '-' {
        Some(TokenView::Short(arg[1]))
    } else if arg.len() > 2 && arg[1] == '-' && !arg.contains('=') {
        Some(TokenView::Long(arg.skip(2)))
    } else {
        None
    }
}

/// Whether each of `calls` took up one whole argument of `argv`: there
/// are no more calls than arguments, and every argument that a call of
/// `next` took up has a plain shape. What a call of `value` took up may
/// have any shape.
pub open spec fn plain_so_far(argv: Seq<Seq<char>>, calls: Seq<bool>) -> bool {
    &&& calls.len() <= argv.len()
    &&& forall|i: int| 0 <= i < calls.len() && #[trigger] calls[i] ==> plain_token(argv[i]) is Some
}

/// `lexopt::Parser::from_args` makes a parser for the given arguments,
/// which do not include the program's name. No call was made on it yet.
#[verifier::external_body]
fn parser_of(argv: Vec<String>) -> (parser: lexopt::Parser)
    ensures
        parser_args(parser) == argv.deep_view(),
        parser_calls(parser) == Seq::<bool>::empty(),
{
    lexopt::Parser::from_args(argv)
}

/// `lexopt::Parser::next` hands out the next option or value, `None` at
/// the end of the command line, or an error. Which of them is
/// `lexopt_next` of the arguments and the calls made before. An option or
/// value is never handed out without something of the command line being
/// read. Where every call before took up one whole argument, this call
/// hands out `None` if no argument is left, and what `plain_token` says
/// if the next argument has a plain shape.
#[verifier::external_body]
fn next_token(parser: &mut lexopt::Parser) -> (r: Result<Option<Token>, lexopt::Error>)
    ensures
        parser_args(*final(parser)) == parser_args(*old(parser)),
        parser_calls(*final(parser)) == parser_calls(*old(parser)).push(true),
        lexopt_next(parser_args(*old(parser)), parser_calls(*old(parser))) == match r {
            Ok(Some(token)) => Some(Some(token@)),
            Ok(None) => Some(None::<TokenView>),
            Err(_) => None::<Option<TokenView>>,
        },
        r matches Ok(Some(_)) ==> lexopt_unread(
            parser_args(*final(parser)),
            parser_calls(*final(parser)),
        ) < lexopt_unread(parser_args(*old(parser)), parser_calls(*old(parser))),
        plain_so_far(parser_args(*old(parser)), parser_calls(*old(parser))) ==> {
            let argv = parser_args(*old(parser));
            let at = parser_calls(*old(parser)).len() as int;
            if at == argv.len() {
                r matches Ok(None)
            } else {
                plain_token(argv[at]) matches Some(token) ==> (r matches Ok(Some(handed))
                    && handed@ == token)
            }
        },
{
    Ok(
        match parser.next()? {
            Some(lexopt::Arg::Short(c)) => Some(Token::Short(c)),
            Some(lexopt::Arg::Long(name)) => Some(Token::Long(name.to_owned())),
            Some(lexopt::Arg::Value(value)) => Some(
                Token::Value(value.to_string_lossy().into_owned()),
            ),
            None => None,
        },
    )
}

/// `lexopt::Parser::value` hands out the value of the option that was
/// handed out last, or an error if the command line holds none. Which is
/// `lexopt_value` of the arguments and the calls made before. It never
/// puts back what was read. Where every call before took up one whole
/// argument, the value is the next argument as it stands, and there is
/// none if no argument is left.
#[verifier::external_body]
fn option_value(parser: &mut lexopt::Parser) -> (r: Result<String, lexopt::Error>)
    ensures
        parser_args(*final(parser)) == parser_args(*old(parser)),
        parser_calls(*final(parser)) == parser_calls(*old(parser)).push(false),
        lexopt_value(parser_args(*old(parser)), parser_calls(*old(parser))) == match r {
            Ok(value) => Some(value@),
            Err(_) => None::<Seq<char>>,
        },
        lexopt_unread(parser_args(*final(parser)), parser_calls(*final(parser)))
            <= lexopt_unread(parser_args(*old(parser)), parser_calls(*old(parser))),
        plain_so_far(parser_args(*old(parser)), parser_calls(*old(parser))) ==> {
            let argv = parser_args(*old(parser));
            let at = parser_calls(*old(parser)).len() as int;
            if at == argv.len() {
                r is Err
            } else {
                r matches Ok(value) && value@ == argv[at]
            }
        },
{
    parser.value().map(|value| value.to_string_lossy().into_owned())
}

/// `lexopt::Arg::unexpected` makes the error for an option or value that
/// the program does not know.
#[verifier::external_body]
fn unexpected(token: Token) -> lexopt::Error {
    match token {
        Token::Short(c) => lexopt::Arg::Short(c).unexpected(),
        Token::Long(name) => lexopt::Arg::Long(&name).unexpected(),
        Token::Value(value) => lexopt::Arg::Value(value.into()).unexpected(),
    }
}

/// The text that `lexopt` prints for an error.
#[verifier::external_body]
fn error_text(error: lexopt::Error) -> String {
    error.to_string()
}

/// Why a command line is refused.
pub enum Refusal {
    /// `lexopt` finds a fault in it: an option has a value that it does
    /// not take, or lacks the value that it takes.
    Fault,
    /// It holds an option that the program does not know.
    Unknown(TokenView),
}

/// Whether reading goes on after `calls`: if an option or value is handed
/// out next, less of the command line is left to read than before, and
/// fetching the value of `--prefix` leaves no more than that.
pub open spec fn reads_on(argv: Seq<Seq<char>>, calls: Seq<bool>) -> bool {
    match lexopt_next(argv, calls) {
        Some(Some(token)) => {
            &&& lexopt_unread(argv, calls.push(true)) < lexopt_unread(argv, calls)
            &&& meaning_of(token) == Meaning::Prefix ==> lexopt_unread(
                argv,
                calls.push(true).push(false),
            ) <= lexopt_unread(argv, calls.push(true))
        },
        _ => true,
    }
}

/// What the command line `argv` asks for in all, given that `args` was
/// asked for up to now and `calls` were made for it. What `lexopt` hands
/// out next decides: the end of the command line ends the reading with
/// `args`; a flag is set and reading goes on; after `--prefix` the value
/// is fetched and becomes the prefix; a value is added to the file names;
/// a fault, a missing value and an unknown option refuse the command line.
pub open spec fn read_from(argv: Seq<Seq<char>>, calls: Seq<bool>, args: ArgsView) -> Result<
    ArgsView,
    Refusal,
>
    decreases lexopt_unread(argv, calls),
    when reads_on(argv, calls)
{
    match lexopt_next(argv, calls) {
        None => Err(Refusal::Fault),
        Some(None) => Ok(args),
        Some(Some(token)) => match meaning_of(token) {
            Meaning::Help => read_from(argv, calls.push(true), applied(args, Event::Help)),
            Meaning::EraseAll => read_from(
                argv,
                calls.push(true),
                applied(args, Event::EraseAll),
            ),
            Meaning::Prefix => match lexopt_value(argv, calls.push(true)) {
                Some(prefix) => read_from(
                    argv,
                    calls.push(true).push(false),
                    applied(args, Event::Prefix(prefix)),
                ),
                None => Err(Refusal::Fault),
            },
            Meaning::File => match token {
                TokenView::Value(name) => read_from(
                    argv,
                    calls.push(true),
                    applied(args, Event::File(name)),
                ),
                _ => Err(Refusal::Unknown(token)),
            },
            Meaning::Unexpected => Err(Refusal::Unknown(token)),
        },
    }
}

/// What the command line `argv` asks for: the defaults, changed by each
/// option and value in turn.
pub open spec fn read(argv: Seq<Seq<char>>) -> Result<ArgsView, Refusal> {
    read_from(argv, Seq::empty(), defaults())
}

/// Whether every argument of `argv` has a plain shape.
pub open spec fn is_plain(argv: Seq<Seq<char>>) -> bool {
    forall|i: int| 0 <= i < argv.len() ==> plain_token(#[trigger] argv[i]) is Some
}

/// What a command line of plain arguments asks for from its argument `at`
/// on, given that `args` was asked for before it. `-h` and `--help` set
/// the help flag and `--erase-all` the erase flag; `--prefix` makes the
/// argument after it the prefix, whatever that looks like, and is refused
/// if it is the last; a value is added to the file names; any other
/// option is refused.
pub open spec fn read_plainly(argv: Seq<Seq<char>>, at: int, args: ArgsView) -> Result<
    ArgsView,
    Refusal,
>
    decreases argv.len() - at,
{
    if at < 0 || at >= argv.len() {
        Ok(args)
    } else {
        match plain_token(argv[at]) {
            None => Err(Refusal::Fault),
            Some(token) => match meaning_of(token) {
                Meaning::Help => read_plainly(argv, at + 1, applied(args, Event::Help)),
                Meaning::EraseAll => read_plainly(argv, at + 1, applied(args, Event::EraseAll)),
                Meaning::Prefix => if at + 1 < argv.len() {
                    read_plainly(argv, at + 2, applied(args, Event::Prefix(argv[at + 1])))
                } else {
                    Err(Refusal::Fault)
                },
                Meaning::File => match token {
                    TokenView::Value(name) => read_plainly(
                        argv,
                        at + 1,
                        applied(args, Event::File(name)),
                    ),
                    _ => Err(Refusal::Unknown(token)),
                },
                Meaning::Unexpected => Err(Refusal::Unknown(token)),
            },
        }
    }
}

/// What the plain argument `arg` asks for.
pub open spec fn asks(arg: Seq<char>) -> Meaning {
    match plain_token(arg) {
        Some(token) => meaning_of(token),
        None => Meaning::Unexpected,
    }
}

/// The arguments of `argv` from `at` on that are values, in order.
pub open spec fn files_from(argv: Seq<Seq<char>>, at: int) -> Seq<Seq<char>>
    decreases argv.len() - at,
{
    if at < 0 || at >= argv.len() {
        Seq::empty()
    } else if asks(argv[at]) == Meaning::File {
        seq![argv[at]] + files_from(argv, at + 1)
    } else {
        files_from(argv, at + 1)
    }
}

/// Whether an argument of `argv` from `at` on asks for `what`.
pub open spec fn asked_from(argv: Seq<Seq<char>>, at: int, what: Meaning) -> bool {
    exists|i: int| at <= i < argv.len() && asks(#[trigger] argv[i]) == what
}

/// A command line that holds only values, `--erase-all`, `-h` and
/// `--help`, in any order, is accepted: its values are the file names, in
/// order and after those that were there, each flag is set if it was set
/// before or its option occurs, and the prefix stays as it was.
pub proof fn lemma_flags_and_files(argv: Seq<Seq<char>>, at: int, args: ArgsView)
    requires
        0 <= at <= argv.len(),
        forall|i: int|
            at <= i < argv.len() ==> asks(#[trigger] argv[i]) == Meaning::File || asks(argv[i])
                == Meaning::Help || asks(argv[i]) == Meaning::EraseAll,
    ensures
        read_plainly(argv, at, args) == Ok::<ArgsView, Refusal>(
            ArgsView {
                help: args.help || asked_from(argv, at, Meaning::Help),
                erase_all: args.erase_all || asked_from(argv, at, Meaning::EraseAll),
                prefix: args.prefix,
                filenames: args.filenames + files_from(argv, at),
            },
        ),
    decreases argv.len() - at,
{
    if at == argv.len() {
        assert(args.filenames + files_from(argv, at) =~= args.filenames);
    } else {
        let what = asks(argv[at]);
        let token = plain_token(argv[at])->Some_0;
        let next = if what == Meaning::File {
            applied(args, Event::File(argv[at]))
        } else if what == Meaning::Help {
            applied(args, Event::Help)
        } else {
            applied(args, Event::EraseAll)
        };
        if what == Meaning::File {
            assert(token == TokenView::Value(argv[at]));
        }
        assert(read_plainly(argv, at, args) == read_plainly(argv, at + 1, next));
        lemma_flags_and_files(argv, at + 1, next);
        assert(next.filenames + files_from(argv, at + 1) =~= args.filenames + files_from(
            argv,
            at,
        ));
        assert(asked_from(argv, at, Meaning::Help) <==> what == Meaning::Help || asked_from(
            argv,
            at + 1,
            Meaning::Help,
        )) by {
            if asked_from(argv, at, Meaning::Help) {
                let i = choose|i: int| at <= i < argv.len() && asks(#[trigger] argv[i]) == Meaning::Help;
                if i != at {
                    assert(at + 1 <= i < argv.len() && asks(argv[i]) == Meaning::Help);
                }
            }
            if asked_from(argv, at + 1, Meaning::Help) {
                let i = choose|i: int|
                    at + 1 <= i < argv.len() && asks(#[trigger] argv[i]) == Meaning::Help;
                assert(at <= i < argv.len() && asks(argv[i]) == Meaning::Help);
            }
            if what == Meaning::Help {
                assert(at <= at < argv.len() && asks(argv[at]) == Meaning::Help);
            }
        }
        assert(asked_from(argv, at, Meaning::EraseAll) <==> what == Meaning::EraseAll
            || asked_from(argv, at + 1, Meaning::EraseAll)) by {
            if asked_from(argv, at, Meaning::EraseAll) {
                let i = choose|i: int|
                    at <= i < argv.len() && asks(#[trigger] argv[i]) == Meaning::EraseAll;
                if i != at {
                    assert(at + 1 <= i < argv.len() && asks(argv[i]) == Meaning::EraseAll);
                }
            }
            if asked_from(argv, at + 1, Meaning::EraseAll) {
                let i = choose|i: int|
                    at + 1 <= i < argv.len() && asks(#[trigger] argv[i]) == Meaning::EraseAll;
                assert(at <= i < argv.len() && asks(argv[i]) == Meaning::EraseAll);
            }
            if what == Meaning::EraseAll {
                assert(at <= at < argv.len() && asks(argv[at]) == Meaning::EraseAll);
            }
        }
    }
}

/// The argument after `--prefix` becomes the prefix in place of the one
/// before, whatever it looks like, and is read neither as an option nor
/// as a file name.
pub proof fn lemma_prefix_takes_the_next_argument(argv: Seq<Seq<char>>, at: int, args: ArgsView)
    requires
        0 <= at,
        at + 1 < argv.len(),
        asks(argv[at]) == Meaning::Prefix,
    ensures
        read_plainly(argv, at, args) == read_plainly(
            argv,
            at + 2,
            ArgsView { prefix: argv[at + 1], ..args },
        ),
{
}

/// An option that the program does not know, and `--prefix` as the last
/// argument, refuse the command line.
pub proof fn lemma_refused(argv: Seq<Seq<char>>, at: int, args: ArgsView)
    requires
        0 <= at < argv.len(),
        plain_token(argv[at]) is Some,
        asks(argv[at]) == Meaning::Unexpected || (asks(argv[at]) == Meaning::Prefix && at + 1
            == argv.len()),
    ensures
        read_plainly(argv, at, args) is Err,
{
}

/// Reads the command line `argv`, which does not include the program's
/// name. Every option and value is handled in turn: a flag is set, the
/// value after `--prefix` becomes the prefix, a value names a file. The
/// first option that the program does not know, and the first fault that
/// `lexopt` finds, end the reading with an error.
///
/// The result is `read` of the command line, which goes by what `lexopt`
/// hands out. Of a command line of plain arguments it is `read_plainly`,
/// which goes by the arguments alone; so a command line without arguments
/// gives the defaults.
pub fn parse_args(argv: Vec<String>) -> (r: Result<Args, UsageError>)
    ensures
        match r {
            Ok(args) => read(argv.deep_view()) == Ok::<ArgsView, Refusal>(args@),
            Err(_) => read(argv.deep_view()) is Err,
        },
        is_plain(argv.deep_view()) ==> match r {
            Ok(args) => read_plainly(argv.deep_view(), 0, defaults()) == Ok::<ArgsView, Refusal>(
                args@,
            ),
            Err(_) => read_plainly(argv.deep_view(), 0, defaults()) is Err,
        },
        argv.len() == 0 ==> (r matches Ok(args) && args@ == defaults()),
{
    let ghost line = argv.deep_view();
    let mut parser = parser_of(argv);
    let mut args = Args::new();
    loop
        invariant
            line == argv.deep_view(),
            parser_args(parser) == line,
            reads_on(line, parser_calls(parser)) ==> read(line) == read_from(
                line,
                parser_calls(parser),
                args@,
            ),
            is_plain(line) ==> plain_so_far(line, parser_calls(parser)) && read_plainly(
                line,
                0,
                defaults(),
            ) == read_plainly(line, parser_calls(parser).len() as int, args@),
            line.len() == 0 ==> args@ == defaults(),
        decreases lexopt_unread(line, parser_calls(parser)),
    {
        let ghost calls = parser_calls(parser);
        let ghost before = args@;
        let token = match next_token(&mut parser) {
            Ok(Some(token)) => token,
            Ok(None) => {
                assert(reads_on(line, calls));
                return Ok(args);
            },
            Err(e) => {
                assert(reads_on(line, calls));
                return Err(UsageError { message: error_text(e) });
            },
        };
        let ghost handed = token@;
        let request = match meaning(&token) {
            Meaning::Help => Request::Help,
            Meaning::EraseAll => Request::EraseAll,
            Meaning::Prefix => match option_value(&mut parser) {
                Ok(value) => Request::Prefix(value),
                Err(e) => {
                    assert(reads_on(line, calls));
                    return Err(UsageError { message: error_text(e) });
                },
            },
            Meaning::File => match token {
                Token::Value(name) => Request::File(name),
                _ => {
                    assert(reads_on(line, calls));
                    return Err(UsageError { message: error_text(unexpected(token)) });
                },
            },
            Meaning::Unexpected => {
                assert(reads_on(line, calls));
                return Err(UsageError { message: error_text(unexpected(token)) });
            },
        };
        proof {
            assert(lexopt_next(line, calls) == Some(Some(handed)));
            assert(reads_on(line, calls));
            assert(reads_on(line, parser_calls(parser)) ==> read_from(line, calls, before)
                == read_from(line, parser_calls(parser), applied(before, request@)));
            if is_plain(line) {
                let at = calls.len() as int;
                assert(plain_token(line[at]) == Some(handed));
                assert(plain_so_far(line, calls.push(true)));
                assert(plain_so_far(line, parser_calls(parser)));
                assert(read_plainly(line, at, before) == read_plainly(
                    line,
                    parser_calls(parser).len() as int,
                    applied(before, request@),
                ));
            }
        }
        args.apply(request);
    }
}

/// What a run is to do.
#[derive(Debug, PartialEq, Eq, Clone, Copy)]
pub enum Action {
    /// Print the usage text and end.
    ShowHelp,
    /// Erase the signatures whose names start with the prefix, and end.
    EraseAll,
    /// Nothing can be done: no file was named.
    MissingFiles,
    /// Read the files, merge their quotes and replace the signatures.
    Update,
}

/// What a run with the arguments `args` is to do. Help comes first, then
/// erasing; without either, at least one file must be named.
pub open spec fn planned(args: ArgsView) -> Action {
    if args.help {
        Action::ShowHelp
    } else if args.erase_all {
        Action::EraseAll
    } else if args.filenames.len() == 0 {
        Action::MissingFiles
    } else {
        Action::Update
    }
}

/// Decides what a run with the arguments `args` is to do.
pub fn plan(args: &Args) -> (action: Action)
    ensures
        action == planned(args@),
{
    if args.help {
        Action::ShowHelp
    } else if args.erase_all {
        Action::EraseAll
    } else if args.filenames.len() == 0 {
        Action::MissingFiles
    } else {
        Action::Update
    }
}

/// The exit status of a run that ends without touching a file: 0 after
/// the usage text and after erasing, 64 where no file was named. A run
/// that updates does not end here.
pub fn exit_status(action: Action) -> (status: Option<i32>)
    ensures
        status == match action {
            Action::ShowHelp => Some(0i32),
            Action::EraseAll => Some(0i32),
            Action::MissingFiles => Some(64i32),
            Action::Update => None::<i32>,
        },
{
    match action {
        Action::ShowHelp => Some(success()),
        Action::EraseAll => Some(success()),
        Action::MissingFiles => Some(usage_error()),
        Action::Update => None,
    }
}

/// The exit status of a run that found a file it cannot read: 74.
pub fn unreadable_file_status() -> (status: i32)
    ensures
        status == 74,
{
    io_error()
}

} // verus!
