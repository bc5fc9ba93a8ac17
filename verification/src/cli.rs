//! The command line: `omakeel run`, `omakeel watch`, and what to say to
//! anything else.

use crate::hub;
use crate::source;
use crate::source::{Spec, SpecView};
use crate::text;
use vstd::prelude::*;
use vstd::string::*;

verus! {

/// How the program is used.
pub open spec fn usage_text() -> Seq<char> {
    "usage: omakeel run --source SPEC [--source SPEC ...] [--record FILE] [--socket PATH]
       omakeel watch [--socket PATH]
       omakeel --version

sources:
  serial:/dev/ttyUSB0[:BAUD]  a serial or USB NMEA device; BAUD defaults to 4800
  tcp:HOST:PORT               an NMEA stream over TCP, like a phone sharing its GPS
  replay:FILE                 a recording made with --record, in real time

--record FILE saves every line received, with the time it arrived. It never
overwrites an existing file. The socket defaults to
$XDG_RUNTIME_DIR/omakeel/keel.sock."@
}

/// How the program is used.
pub fn usage() -> (text: &'static str)
    ensures
        text@ == usage_text(),
{
    "usage: omakeel run --source SPEC [--source SPEC ...] [--record FILE] [--socket PATH]
       omakeel watch [--socket PATH]
       omakeel --version

sources:
  serial:/dev/ttyUSB0[:BAUD]  a serial or USB NMEA device; BAUD defaults to 4800
  tcp:HOST:PORT               an NMEA stream over TCP, like a phone sharing its GPS
  replay:FILE                 a recording made with --record, in real time

--record FILE saves every line received, with the time it arrived. It never
overwrites an existing file. The socket defaults to
$XDG_RUNTIME_DIR/omakeel/keel.sock."
}

/// What the options on a command line say.
#[derive(Debug, PartialEq)]
pub struct Options {
    pub sources: Vec<Spec>,
    pub record: Option<String>,
    pub socket: Option<String>,
}

pub struct OptionsView {
    pub sources: Seq<SpecView>,
    pub record: Option<Seq<char>>,
    pub socket: Option<Seq<char>>,
}

/// What each source in a list is.
pub open spec fn specs_of(list: Seq<Spec>) -> Seq<SpecView> {
    Seq::new(list.len(), |i: int| list[i]@)
}

/// The characters of each argument.
pub open spec fn args_of(args: Seq<String>) -> Seq<Seq<char>> {
    Seq::new(args.len(), |i: int| args[i]@)
}

impl View for Options {
    type V = OptionsView;

    open spec fn view(&self) -> OptionsView {
        OptionsView {
            sources: specs_of(self.sources@),
            record: text::text_of(self.record),
            socket: text::text_of(self.socket),
        }
    }
}

/// No options.
pub open spec fn no_options() -> OptionsView {
    OptionsView { sources: Seq::empty(), record: None, socket: None }
}

/// A message, and how the program is used.
pub open spec fn with_usage(message: Seq<char>) -> Seq<char> {
    message + "\n\n"@ + usage_text()
}

/// What the options say with one more. `--source` adds a source; of each
/// other the last one counts.
pub open spec fn with_option(
    options: OptionsView,
    flag: Seq<char>,
    value: Seq<char>,
) -> Result<OptionsView, Seq<char>> {
    if flag == "--source"@ {
        match source::spec_of(value) {
            Ok(spec) => Ok(OptionsView { sources: options.sources.push(spec), ..options }),
            Err(e) => Err(e),
        }
    } else if flag == "--record"@ {
        Ok(OptionsView { record: Some(value), ..options })
    } else {
        Ok(OptionsView { socket: Some(value), ..options })
    }
}

/// What the options from argument `at` on say, each a flag and its value;
/// or what is wrong with the first that is wrong.
pub open spec fn options_from(
    options: OptionsView,
    args: Seq<Seq<char>>,
    at: int,
    allowed: Seq<Seq<char>>,
) -> Result<OptionsView, Seq<char>>
    decreases args.len() - at,
{
    if at >= args.len() {
        Ok(options)
    } else if !allowed.contains(args[at]) {
        Err(with_usage("unexpected '"@ + args[at] + "'"@))
    } else if at + 1 >= args.len() {
        Err(args[at] + " needs a value"@)
    } else {
        match with_option(options, args[at], args[at + 1]) {
            Ok(more) => options_from(more, args, at + 2, allowed),
            Err(e) => Err(e),
        }
    }
}

fn and_usage(message: &str) -> (text: String)
    ensures
        text@ == with_usage(message@),
{
    let mut text = message.to_owned();
    text.append("\n\n");
    text.append(usage());
    text
}

fn quoted(what: &str, word: &str) -> (text: String)
    ensures
        text@ == what@ + "'"@ + word@ + "'"@,
{
    let mut text = what.to_owned();
    text.append("'");
    text.append(word);
    text.append("'");
    text
}

fn is_among(word: &str, list: &[&str]) -> (yes: bool)
    ensures
        yes == text::views(list@).contains(word@),
{
    let ghost all = text::views(list@);
    let mut i: usize = 0;
    while i < list.len()
        invariant
            i <= list@.len(),
            all == text::views(list@),
            forall|k: int| 0 <= k < i ==> #[trigger] all[k] != word@,
        decreases list.len() - i,
    {
        if text::same(word, list[i]) {
            assert(all[i as int] == word@);
            return true;
        }
        i = i + 1;
    }
    false
}

impl Options {
    /// What the options from argument `at` on say.
    pub fn parse(args: &Vec<String>, at: usize, allowed: &[&str]) -> (options: Result<
        Options,
        String,
    >)
        ensures
            match options {
                Ok(o) => options_from(
                    no_options(),
                    args_of(args@),
                    at as int,
                    text::views(allowed@),
                ) == Ok::<OptionsView, Seq<char>>(o@),
                Err(e) => options_from(
                    no_options(),
                    args_of(args@),
                    at as int,
                    text::views(allowed@),
                ) == Err::<OptionsView, Seq<char>>(e@),
            },
    {
        let mut options = Options { sources: Vec::new(), record: None, socket: None };
        let ghost all = args_of(args@);
        let ghost may = text::views(allowed@);
        let mut i: usize = at;
        assert(specs_of(options.sources@) =~= Seq::<SpecView>::empty());
        while i < args.len()
            invariant
                all == args_of(args@),
                may == text::views(allowed@),
                options_from(no_options(), all, at as int, may) == options_from(
                    options@,
                    all,
                    i as int,
                    may,
                ),
            decreases args@.len() - i,
        {
            let flag = args[i].as_str();
            assert(all[i as int] == flag@);
            if !is_among(flag, allowed) {
                let message = quoted("unexpected ", flag);
                proof {
                    reveal_strlit("unexpected ");
                    reveal_strlit("unexpected '");
                    reveal_strlit("'");
                    assert("unexpected "@ + "'"@ =~= "unexpected '"@);
                }
                return Err(and_usage(message.as_str()));
            }
            if args.len() - i < 2 {
                let mut message = flag.to_owned();
                message.append(" needs a value");
                return Err(message);
            }
            let value = args[i + 1].as_str();
            assert(all[i + 1] == value@);
            let ghost before = options@;
            if text::same(flag, "--source") {
                match Spec::parse(value) {
                    Ok(spec) => {
                        let ghost shorter = options.sources@;
                        options.sources.push(spec);
                        assert(specs_of(options.sources@) =~= specs_of(shorter).push(spec@));
                    },
                    Err(e) => return Err(e),
                }
            } else if text::same(flag, "--record") {
                options.record = Some(value.to_owned());
            } else {
                options.socket = Some(value.to_owned());
            }
            assert(with_option(before, flag@, value@) == Ok::<OptionsView, Seq<char>>(options@));
            i = i + 2;
        }
        Ok(options)
    }

    /// Where the socket is, as the bytes of its path: what the options say, or
    /// else the default.
    pub fn socket(&self, runtime_dir: Option<&[u8]>) -> (path: Result<Vec<u8>, &'static str>)
        ensures
            match self.socket {
                Some(given) => path matches Ok(p) && p@ == vstd::utf8::encode_utf8(given@),
                None => {
                    &&& path is Ok <==> (runtime_dir matches Some(dir) && dir@.len() > 0
                        && dir@[0] == hub::SLASH)
                    &&& path matches Ok(p) ==> p@ == hub::socket_in(runtime_dir->0@)
                    &&& path matches Err(e) ==> e@
                        == "XDG_RUNTIME_DIR must be set to an absolute path"@
                },
            },
    {
        match &self.socket {
            Some(path) => Ok(hub::path_bytes(path.as_str())),
            None => hub::default_socket(runtime_dir),
        }
    }
}

/// What a command line asks for.
#[derive(Debug, PartialEq)]
pub enum Command {
    /// Print how the program is used.
    Usage,
    /// Print the version.
    Version,
    /// Run the hub.
    Run(Options),
    /// Watch a hub.
    Watch(Options),
}

pub enum CommandView {
    Usage,
    Version,
    Run(OptionsView),
    Watch(OptionsView),
}

impl View for Command {
    type V = CommandView;

    open spec fn view(&self) -> CommandView {
        match *self {
            Command::Usage => CommandView::Usage,
            Command::Version => CommandView::Version,
            Command::Run(options) => CommandView::Run(options@),
            Command::Watch(options) => CommandView::Watch(options@),
        }
    }
}

/// What `run` can be told.
pub open spec fn run_flags() -> Seq<Seq<char>> {
    seq!["--source"@, "--record"@, "--socket"@]
}

/// What `watch` can be told.
pub open spec fn watch_flags() -> Seq<Seq<char>> {
    seq!["--socket"@]
}

/// What a command line asks for, or what is wrong with it.
pub open spec fn command_of(args: Seq<Seq<char>>) -> Result<CommandView, Seq<char>> {
    if args.len() == 0 {
        Ok(CommandView::Usage)
    } else if args[0] == "run"@ {
        match options_from(no_options(), args, 1, run_flags()) {
            Ok(options) => if options.sources.len() == 0 {
                Err(with_usage("run needs at least one --source"@))
            } else {
                Ok(CommandView::Run(options))
            },
            Err(e) => Err(e),
        }
    } else if args[0] == "watch"@ {
        match options_from(no_options(), args, 1, watch_flags()) {
            Ok(options) => Ok(CommandView::Watch(options)),
            Err(e) => Err(e),
        }
    } else if args[0] == "--version"@ || args[0] == "version"@ {
        Ok(CommandView::Version)
    } else if args[0] == "-h"@ || args[0] == "--help"@ || args[0] == "help"@ {
        Ok(CommandView::Usage)
    } else {
        Err(with_usage("unknown command '"@ + args[0] + "'"@))
    }
}

/// What a command line asks for, or what is wrong with it.
pub fn command(args: &Vec<String>) -> (command: Result<Command, String>)
    ensures
        match command {
            Ok(c) => command_of(args_of(args@)) == Ok::<CommandView, Seq<char>>(c@),
            Err(e) => command_of(args_of(args@)) == Err::<CommandView, Seq<char>>(e@),
        },
{
    if args.len() == 0 {
        return Ok(Command::Usage);
    }
    let word = args[0].as_str();
    assert(args_of(args@)[0] == word@);
    if text::same(word, "run") {
        let flags = ["--source", "--record", "--socket"];
        assert(text::views(flags@) =~= run_flags());
        match Options::parse(args, 1, &flags) {
            Ok(options) => if options.sources.len() == 0 {
                Err(and_usage("run needs at least one --source"))
            } else {
                Ok(Command::Run(options))
            },
            Err(e) => Err(e),
        }
    } else if text::same(word, "watch") {
        let flags = ["--socket"];
        assert(text::views(flags@) =~= watch_flags());
        match Options::parse(args, 1, &flags) {
            Ok(options) => Ok(Command::Watch(options)),
            Err(e) => Err(e),
        }
    } else if text::same(word, "--version") || text::same(word, "version") {
        Ok(Command::Version)
    } else if text::same(word, "-h") || text::same(word, "--help") || text::same(word, "help") {
        Ok(Command::Usage)
    } else {
        let message = quoted("unknown command ", word);
        proof {
            reveal_strlit("unknown command ");
            reveal_strlit("unknown command '");
            reveal_strlit("'");
            assert("unknown command "@ + "'"@ =~= "unknown command '"@);
        }
        Err(and_usage(message.as_str()))
    }
}

proof fn lemma_flags()
    ensures
        "--source"@ != "--record"@,
        "--source"@ != "--socket"@,
        "--record"@ != "--socket"@,
        run_flags().contains("--source"@),
        run_flags().contains("--record"@),
        run_flags().contains("--socket"@),
        watch_flags().contains("--socket"@),
{
    reveal_strlit("--source");
    reveal_strlit("--record");
    reveal_strlit("--socket");
    assert("--source"@[2] != "--record"@[2]);
    assert("--source"@[4] != "--socket"@[4]);
    assert("--record"@[2] != "--socket"@[2]);
    assert(run_flags()[0] == "--source"@);
    assert(run_flags()[1] == "--record"@);
    assert(run_flags()[2] == "--socket"@);
    assert(watch_flags()[0] == "--socket"@);
}

/// Of the options that `run` takes, each `--source` adds the source that it
/// names behind those named before it; the last `--record` and the last
/// `--socket` count. A source that can't be is refused with what is wrong with
/// it.
pub proof fn each_option_counts(options: OptionsView, args: Seq<Seq<char>>, at: int)
    requires
        0 <= at,
        at + 1 < args.len(),
    ensures
        ({
            let flags = seq!["--source"@, "--record"@, "--socket"@];
            let all = options_from(options, args, at, flags);
            let value = args[at + 1];
            &&& args[at] == "--source"@ ==> match source::spec_of(value) {
                Ok(spec) => all == options_from(
                    OptionsView {
                        sources: options.sources + seq![spec],
                        record: options.record,
                        socket: options.socket,
                    },
                    args,
                    at + 2,
                    flags,
                ),
                Err(e) => all == Err::<OptionsView, Seq<char>>(e),
            }
            &&& args[at] == "--record"@ ==> all == options_from(
                OptionsView {
                    sources: options.sources,
                    record: Some(value),
                    socket: options.socket,
                },
                args,
                at + 2,
                flags,
            )
            &&& args[at] == "--socket"@ ==> all == options_from(
                OptionsView {
                    sources: options.sources,
                    record: options.record,
                    socket: Some(value),
                },
                args,
                at + 2,
                flags,
            )
        }),
{
    lemma_flags();
    let flags = seq!["--source"@, "--record"@, "--socket"@];
    assert(flags =~= run_flags());
    if let Ok(spec) = source::spec_of(args[at + 1]) {
        assert(options.sources.push(spec) =~= options.sources + seq![spec]);
    }
}

/// A word that isn't an option, and an option without its value, are refused;
/// `watch` has no option but the socket.
pub proof fn what_is_no_option_is_refused(
    options: OptionsView,
    args: Seq<Seq<char>>,
    at: int,
    allowed: Seq<Seq<char>>,
)
    requires
        0 <= at < args.len(),
        !allowed.contains(args[at]) || at + 1 == args.len(),
    ensures
        options_from(options, args, at, allowed) matches Err(said) && (if allowed.contains(
            args[at],
        ) {
            said == args[at] + " needs a value"@
        } else {
            said == "unexpected '"@ + args[at] + "'"@ + "\n\n"@ + usage_text()
        }),
        options_from(options, args, args.len() as int, allowed) == Ok::<OptionsView, Seq<char>>(
            options,
        ),
{
}

/// `run` runs the hub on the sources that it is given, and needs one; `watch`
/// watches, and takes the socket alone. Nothing at all, and a call for help,
/// show how the program is used; any other word is refused.
pub proof fn a_command_is_what_its_first_word_says(args: Seq<Seq<char>>)
    ensures
        args.len() == 0 ==> command_of(args) == Ok::<CommandView, Seq<char>>(CommandView::Usage),
        args.len() > 0 && args[0] == "run"@ ==> match options_from(
            no_options(),
            args,
            1,
            seq!["--source"@, "--record"@, "--socket"@],
        ) {
            Ok(options) => if options.sources.len() > 0 {
                command_of(args) == Ok::<CommandView, Seq<char>>(CommandView::Run(options))
            } else {
                command_of(args) == Err::<CommandView, Seq<char>>(
                    "run needs at least one --source"@ + "\n\n"@ + usage_text(),
                )
            },
            Err(e) => command_of(args) == Err::<CommandView, Seq<char>>(e),
        },
        args.len() > 0 && args[0] == "watch"@ ==> match options_from(
            no_options(),
            args,
            1,
            seq!["--socket"@],
        ) {
            Ok(options) => command_of(args) == Ok::<CommandView, Seq<char>>(
                CommandView::Watch(options),
            ),
            Err(e) => command_of(args) == Err::<CommandView, Seq<char>>(e),
        },
        args.len() > 0 && (args[0] == "--version"@ || args[0] == "version"@) ==> command_of(args)
            == Ok::<CommandView, Seq<char>>(CommandView::Version),
        args.len() > 0 && (args[0] == "-h"@ || args[0] == "--help"@ || args[0] == "help"@)
            ==> command_of(args) == Ok::<CommandView, Seq<char>>(CommandView::Usage),
        args.len() > 0 && args[0] != "run"@ && args[0] != "watch"@ && args[0] != "--version"@
            && args[0] != "version"@ && args[0] != "-h"@ && args[0] != "--help"@ && args[0]
            != "help"@ ==> command_of(args) == Err::<CommandView, Seq<char>>(
            "unknown command '"@ + args[0] + "'"@ + "\n\n"@ + usage_text(),
        ),
{
    reveal_strlit("run");
    reveal_strlit("watch");
    reveal_strlit("--version");
    reveal_strlit("version");
    reveal_strlit("-h");
    reveal_strlit("--help");
    reveal_strlit("help");
    assert("run"@.len() == 3 && "watch"@.len() == 5 && "--version"@.len() == 9);
    assert("version"@.len() == 7 && "-h"@.len() == 2 && "--help"@.len() == 6 && "help"@.len() == 4);
    assert(run_flags() =~= seq!["--source"@, "--record"@, "--socket"@]);
    assert(watch_flags() =~= seq!["--socket"@]);
    assert(no_options().sources.len() == 0);
}

/// Before any option is read there is no source, nothing to record to and no
/// socket.
pub proof fn no_option_says_nothing(args: Seq<Seq<char>>, allowed: Seq<Seq<char>>)
    requires
        args.len() == 1,
    ensures
        options_from(no_options(), args, 1, allowed) matches Ok(options) && options.sources.len()
            == 0 && options.record is None && options.socket is None,
{
}

/// Options mean what their fields hold.
pub proof fn options_are_viewed_as_they_are(x: Options)
    ensures
        x@.sources.len() == x.sources@.len(),
        forall|i: int| 0 <= i < x.sources@.len() ==> #[trigger] x@.sources[i] == x.sources@[i]@,
        x@.record is Some <==> x.record is Some,
        x.record matches Some(inner) ==> x@.record == Some(inner@),
        x@.socket is Some <==> x.socket is Some,
        x.socket matches Some(inner) ==> x@.socket == Some(inner@),
{
}

} // verus!
