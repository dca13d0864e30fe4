//! Command-line arguments, read with `lexopt`, and how they combine with the
//! configuration file into the picker's options.
use vstd::prelude::*;
use crate::config::{config_of, default_options, parse_config, Options, OptionsView};
use crate::number::{at_least, denotes_at_least, digits_value, finite_f64, plain_numeral, reads_finite, float_error_message, float_error_text, float_literal, int_error_message, int_error_text, is_float_literal, parse_usize, parse_usize_chars};
use crate::style::{color_of, font_of, parse_color, parse_font, Color};
use crate::text::{chars_of, concat_chars, same_text, string_from};

verus! {

broadcast use vstd::string::group_string_axioms;

#[verifier::external_type_specification]
#[verifier::external_body]
pub struct ExParser(lexopt::Parser);

/// A command-line argument as the tokenizer splits it: `-c`, `--name` (the
/// dashes dropped) or a positional value.
#[derive(Debug)]
pub enum Arg {
    Short(char),
    Long(String),
    Value(String),
}

/// The view of an [`Arg`].
pub enum ArgView {
    Short(char),
    Long(Seq<char>),
    Value(Seq<char>),
}

impl View for Arg {
    type V = ArgView;

    open spec fn view(&self) -> ArgView {
        match self {
            Arg::Short(c) => ArgView::Short(*c),
            Arg::Long(l) => ArgView::Long(l@),
            Arg::Value(v) => ArgView::Value(v@),
        }
    }
}

/// The arguments that the tokenizer has not yet taken from its source.
pub uninterp spec fn unread_args(p: lexopt::Parser) -> Seq<Seq<char>>;

/// Where the tokenizer stands, as far as what it hands out next goes.
pub enum Tokenizing {
    /// Between two arguments.
    Between,
    /// After `--name=value`: the value is pending.
    Pending(Seq<char>),
    /// Inside a cluster `-abc`: these characters are left; with none left
    /// the tokenizer stands as between arguments.
    Cluster(Seq<char>),
    /// After `--`: every argument left is a positional value.
    Positional,
}

/// Where the tokenizer `p` stands.
pub uninterp spec fn tokenizing(p: lexopt::Parser) -> Tokenizing;

/// The option that the tokenizer `p` handed out last, if any (a short or a
/// long option; positional values leave it as it was).
pub uninterp spec fn last_option(p: lexopt::Parser) -> Option<ArgView>;

/// An option as the tokenizer's messages show it: `-c` or `--name`.
pub open spec fn shown_option(a: ArgView) -> Seq<char> {
    match a {
        ArgView::Short(c) => "-"@ + seq![c],
        ArgView::Long(n) => "--"@ + n,
        ArgView::Value(v) => v,
    }
}

/// The tokenizer's message for the value `v` given to the option `last`,
/// which takes none.
pub open spec fn value_error(last: Option<ArgView>, v: Seq<char>) -> Seq<char> {
    match last {
        Some(o) => "unexpected argument for option '"@ + shown_option(o) + "': "@ + os_text_debug(v),
        None => "unexpected argument "@ + os_text_debug(v),
    }
}

/// The tokenizer's message for a value missing after the option `last`.
pub open spec fn missing_value_message(last: Option<ArgView>) -> Seq<char> {
    match last {
        Some(o) => "missing argument for option '"@ + shown_option(o) + "'"@,
        None => "missing argument"@,
    }
}

/// What the tokenizer hands out next.
pub enum Token {
    /// No argument is left.
    End,
    Arg(ArgView),
    /// An error with this message.
    Error(Seq<char>),
}

/// The state inside a cluster with the characters `rest` left.
pub open spec fn cluster_after(rest: Seq<char>) -> Tokenizing {
    if rest.len() == 0 {
        Tokenizing::Between
    } else {
        Tokenizing::Cluster(rest)
    }
}

/// The position of the first `=` in `a`, if any.
pub open spec fn first_equals(a: Seq<char>) -> Option<int> {
    if exists|i: int| 0 <= i < a.len() && a[i] == '=' && forall|k: int| 0 <= k < i ==> a[k] != '=' {
        Some(choose|i: int| 0 <= i < a.len() && a[i] == '=' && forall|k: int| 0 <= k < i ==> a[k] != '=')
    } else {
        None
    }
}

/// How the tokenizer reads the argument `a` from between arguments, with
/// the state it then stands in: `--name=value` is the long option `name`
/// with `value` pending, `--name` the long option `name`, `-abc` the short
/// option `a` with `bc` left, and anything else (`-` too) a positional
/// value. (`--` itself is handled before.)
pub open spec fn read_argument(a: Seq<char>) -> (ArgView, Tokenizing) {
    if a.len() >= 2 && a[0] == '-' && a[1] == '-' {
        match first_equals(a) {
            Some(i) => (ArgView::Long(a.subrange(2, i)), Tokenizing::Pending(a.skip(i + 1))),
            None => (ArgView::Long(a.skip(2)), Tokenizing::Between),
        }
    } else if a.len() >= 2 && a[0] == '-' {
        (ArgView::Short(a[1]), cluster_after(a.skip(2)))
    } else {
        (ArgView::Value(a), Tokenizing::Between)
    }
}

/// What `next` hands out from the state `st` with the arguments `u` unread
/// and the option `last` handed out last, and the state and unread
/// arguments after it: a pending value is an error, so is `=` inside a
/// cluster (the rest of the cluster is the value); `--` makes all later
/// arguments positional.
pub open spec fn next_token(st: Tokenizing, u: Seq<Seq<char>>, last: Option<ArgView>) -> (Token, Tokenizing, Seq<Seq<char>>) {
    match st {
        Tokenizing::Pending(v) => (Token::Error(value_error(last, v)), Tokenizing::Between, u),
        Tokenizing::Cluster(s) => if s.len() == 0 {
            next_argument(u)
        } else if s[0] == '=' {
            (Token::Error(value_error(last, s.skip(1))), Tokenizing::Between, u)
        } else {
            (Token::Arg(ArgView::Short(s[0])), cluster_after(s.skip(1)), u)
        },
        Tokenizing::Positional => if u.len() == 0 {
            (Token::End, Tokenizing::Positional, u)
        } else {
            (Token::Arg(ArgView::Value(u[0])), Tokenizing::Positional, u.drop_first())
        },
        Tokenizing::Between => next_argument(u),
    }
}

/// What `next` hands out from between arguments, with `u` unread.
pub open spec fn next_argument(u: Seq<Seq<char>>) -> (Token, Tokenizing, Seq<Seq<char>>) {
    if u.len() == 0 {
        (Token::End, Tokenizing::Between, u)
    } else if u[0] == "--"@ {
        let rest = u.drop_first();
        if rest.len() == 0 {
            (Token::End, Tokenizing::Positional, rest)
        } else {
            (Token::Arg(ArgView::Value(rest[0])), Tokenizing::Positional, rest.drop_first())
        }
    } else {
        let (a, next) = read_argument(u[0]);
        (Token::Arg(a), next, u.drop_first())
    }
}

/// What `value` takes from the state `st` with the arguments `u` unread
/// (`None`: nothing, an error), and the state and unread arguments after
/// it: a pending value, the rest of a cluster (after one `=`), else the
/// next argument whatever it looks like.
pub open spec fn take_value(st: Tokenizing, u: Seq<Seq<char>>) -> (Option<Seq<char>>, Tokenizing, Seq<Seq<char>>) {
    match st {
        Tokenizing::Pending(v) => (Some(v), Tokenizing::Between, u),
        Tokenizing::Cluster(s) => if s.len() == 0 {
            if u.len() == 0 {
                (None, Tokenizing::Between, u)
            } else {
                (Some(u[0]), Tokenizing::Between, u.drop_first())
            }
        } else {
            (Some(if s[0] == '=' { s.skip(1) } else { s }), Tokenizing::Between, u)
        },
        _ => if u.len() == 0 {
            (None, st, u)
        } else {
            (Some(u[0]), st, u.drop_first())
        },
    }
}

/// The option handed out last, once the token `t` is handed out after
/// `last`.
pub open spec fn last_after(last: Option<ArgView>, t: Token) -> Option<ArgView> {
    match t {
        Token::Arg(ArgView::Short(c)) => Some(ArgView::Short(c)),
        Token::Arg(ArgView::Long(n)) => Some(ArgView::Long(n)),
        _ => last,
    }
}

/// Whether the tokenizer's state and its last option agree as they always
/// do: a pending value follows a long option, a cluster a short one.
pub open spec fn last_known(st: Tokenizing, last: Option<ArgView>) -> bool {
    (st is Pending || st is Cluster) ==> last is Some
}

/// The texts of the arguments `args`.
pub open spec fn arg_texts(args: Seq<String>) -> Seq<Seq<char>> {
    args.map_values(|s: String| s@)
}

/// Builds a tokenizer over `args` (`lexopt::Parser::from_args`); the
/// program's name is not among them. Claimed, as lexopt's source shows:
/// all of `args` are unread, the tokenizer stands before the first, and it
/// has handed out no option.
#[verifier::external_body]
fn parser_from_args(args: Vec<String>) -> (p: lexopt::Parser)
    ensures
        unread_args(p) == arg_texts(args@),
        tokenizing(p) == Tokenizing::Between,
        last_option(p) is None,
{
    lexopt::Parser::from_args(args)
}

/// The next argument (`lexopt::Parser::next`), or `None` at the end; an
/// error is returned as its message. Claimed, as lexopt's source shows for
/// arguments that are text: what it hands out, the error's message and
/// where it then stands are [`next_token`]'s. Left out: a pending value or
/// a cluster with no option handed out before, which the tokenizer never
/// reaches (its code panics there).
#[verifier::external_body]
fn next_arg(parser: &mut lexopt::Parser) -> (r: Result<Option<Arg>, String>)
    requires
        last_known(tokenizing(*old(parser)), last_option(*old(parser))),
    ensures
        ({
            let (t, st, u) = next_token(
                tokenizing(*old(parser)),
                unread_args(*old(parser)),
                last_option(*old(parser)),
            );
            &&& match t {
                Token::End => r matches Ok(None),
                Token::Arg(a) => r matches Ok(Some(x)) && x@ == a,
                Token::Error(m) => r matches Err(x) && x@ == m,
            }
            &&& (t !is Error ==> tokenizing(*final(parser)) == st && unread_args(*final(parser)) == u
                && last_option(*final(parser)) == last_after(last_option(*old(parser)), t))
        }),
{
    match parser.next() {
        Ok(Some(lexopt::Arg::Short(c))) => Ok(Some(Arg::Short(c))),
        Ok(Some(lexopt::Arg::Long(l))) => Ok(Some(Arg::Long(l.to_string()))),
        Ok(Some(lexopt::Arg::Value(v))) => Ok(Some(Arg::Value(v.to_string_lossy().into_owned()))),
        Ok(None) => Ok(None),
        Err(e) => Err(e.to_string()),
    }
}

/// The value of the option just read, as a string (`lexopt::Parser::value`,
/// then `ValueExt::string`); an error is returned as its message. Claimed,
/// as lexopt's source shows for arguments that are text: what it takes and
/// where it then stands are [`take_value`]'s, and where that takes nothing
/// it fails with [`missing_value_message`] of the last option.
#[verifier::external_body]
fn string_value(parser: &mut lexopt::Parser) -> (r: Result<String, String>)
    ensures
        ({
            let (v, st, u) = take_value(tokenizing(*old(parser)), unread_args(*old(parser)));
            match v {
                Some(t) => r matches Ok(x) && x@ == t && tokenizing(*final(parser)) == st
                    && unread_args(*final(parser)) == u && last_option(*final(parser))
                    == last_option(*old(parser)),
                None => r matches Err(x) && x@ == missing_value_message(last_option(*old(parser))),
            }
        }),
{
    match parser.value() {
        Ok(v) => match lexopt::ValueExt::string(v) {
            Ok(s) => Ok(s),
            Err(e) => Err(e.to_string()),
        },
        Err(e) => Err(e.to_string()),
    }
}

/// What `Debug` shows of an `OsString` holding the text `v`: `v` quoted,
/// with the characters that need it escaped.
pub uninterp spec fn os_text_debug(v: Seq<char>) -> Seq<char>;

/// The message of an argument that the picker does not take.
pub open spec fn unexpected_message(a: ArgView) -> Seq<char> {
    match a {
        ArgView::Short(c) => "invalid option '-"@ + seq![c] + "'"@,
        ArgView::Long(l) => "invalid option '--"@ + l + "'"@,
        ArgView::Value(v) => "unexpected argument "@ + os_text_debug(v),
    }
}

/// `lexopt::Arg::unexpected`, displayed. Claimed, as lexopt's source writes
/// them: `invalid option '-c'` for a short option, `invalid option
/// '--name'` for a long one, and `unexpected argument ` followed by the
/// value's `Debug` text ([`os_text_debug`]) for a value.
#[verifier::external_body]
fn unexpected(arg: &Arg) -> (r: String)
    ensures
        arg@ matches ArgView::Value(v) ==> r@ == "unexpected argument "@ + os_text_debug(v),
        r@ == unexpected_message(arg@),
{
    let a = match arg {
        Arg::Short(c) => lexopt::Arg::Short(*c),
        Arg::Long(l) => lexopt::Arg::Long(l.as_str()),
        Arg::Value(v) => lexopt::Arg::Value(v.clone().into()),
    };
    a.unexpected().to_string()
}

/// An option that takes a value.
#[derive(Clone, Copy, Debug, PartialEq, Eq, Structural)]
pub enum Setting {
    Prompt,
    Lines,
    Width,
    Font,
    Search,
    Config,
    Background,
    TextColor,
    PromptColor,
    PromptBackground,
    SelectionColor,
    SelectionTextColor,
    MatchColor,
}

/// An option without a value.
#[derive(Clone, Copy, Debug, PartialEq, Eq, Structural)]
pub enum Switch {
    Index,
    NoSort,
    NoConfig,
}

/// What an argument asks for.
#[derive(Clone, Copy, Debug, PartialEq, Eq, Structural)]
pub enum Meaning {
    /// `-d`, `--dmenu`: accepted and ignored.
    Ignored,
    Switch(Switch),
    Setting(Setting),
    Help,
    Version,
    Unexpected,
}

/// The meaning of the long option `--name`.
pub open spec fn long_meaning(name: Seq<char>) -> Meaning {
    if name == "dmenu"@ {
        Meaning::Ignored
    } else if name == "prompt"@ {
        Meaning::Setting(Setting::Prompt)
    } else if name == "lines"@ {
        Meaning::Setting(Setting::Lines)
    } else if name == "width"@ {
        Meaning::Setting(Setting::Width)
    } else if name == "font"@ {
        Meaning::Setting(Setting::Font)
    } else if name == "search"@ {
        Meaning::Setting(Setting::Search)
    } else if name == "index"@ {
        Meaning::Switch(Switch::Index)
    } else if name == "no-sort"@ {
        Meaning::Switch(Switch::NoSort)
    } else if name == "config"@ {
        Meaning::Setting(Setting::Config)
    } else if name == "no-config"@ {
        Meaning::Switch(Switch::NoConfig)
    } else if name == "background"@ {
        Meaning::Setting(Setting::Background)
    } else if name == "text-color"@ {
        Meaning::Setting(Setting::TextColor)
    } else if name == "prompt-color"@ {
        Meaning::Setting(Setting::PromptColor)
    } else if name == "prompt-background"@ {
        Meaning::Setting(Setting::PromptBackground)
    } else if name == "selection-color"@ {
        Meaning::Setting(Setting::SelectionColor)
    } else if name == "selection-text-color"@ {
        Meaning::Setting(Setting::SelectionTextColor)
    } else if name == "match-color"@ {
        Meaning::Setting(Setting::MatchColor)
    } else if name == "help"@ {
        Meaning::Help
    } else if name == "version"@ {
        Meaning::Version
    } else {
        Meaning::Unexpected
    }
}

/// The meaning of the short option `-c`.
pub open spec fn short_meaning(c: char) -> Meaning {
    if c == 'd' {
        Meaning::Ignored
    } else if c == 'p' {
        Meaning::Setting(Setting::Prompt)
    } else if c == 'l' {
        Meaning::Setting(Setting::Lines)
    } else if c == 'w' {
        Meaning::Setting(Setting::Width)
    } else if c == 'f' {
        Meaning::Setting(Setting::Font)
    } else if c == 'h' {
        Meaning::Help
    } else if c == 'v' {
        Meaning::Version
    } else {
        Meaning::Unexpected
    }
}

/// The meaning of an argument; positional values are unexpected.
pub open spec fn meaning(a: ArgView) -> Meaning {
    match a {
        ArgView::Short(c) => short_meaning(c),
        ArgView::Long(l) => long_meaning(l),
        ArgView::Value(_) => Meaning::Unexpected,
    }
}

fn long_option(name: &[char]) -> (m: Meaning)
    ensures
        m == long_meaning(name@),
{
    if same_text(name, "dmenu") {
        Meaning::Ignored
    } else if same_text(name, "prompt") {
        Meaning::Setting(Setting::Prompt)
    } else if same_text(name, "lines") {
        Meaning::Setting(Setting::Lines)
    } else if same_text(name, "width") {
        Meaning::Setting(Setting::Width)
    } else if same_text(name, "font") {
        Meaning::Setting(Setting::Font)
    } else if same_text(name, "search") {
        Meaning::Setting(Setting::Search)
    } else if same_text(name, "index") {
        Meaning::Switch(Switch::Index)
    } else if same_text(name, "no-sort") {
        Meaning::Switch(Switch::NoSort)
    } else if same_text(name, "config") {
        Meaning::Setting(Setting::Config)
    } else if same_text(name, "no-config") {
        Meaning::Switch(Switch::NoConfig)
    } else if same_text(name, "background") {
        Meaning::Setting(Setting::Background)
    } else if same_text(name, "text-color") {
        Meaning::Setting(Setting::TextColor)
    } else if same_text(name, "prompt-color") {
        Meaning::Setting(Setting::PromptColor)
    } else if same_text(name, "prompt-background") {
        Meaning::Setting(Setting::PromptBackground)
    } else if same_text(name, "selection-color") {
        Meaning::Setting(Setting::SelectionColor)
    } else if same_text(name, "selection-text-color") {
        Meaning::Setting(Setting::SelectionTextColor)
    } else if same_text(name, "match-color") {
        Meaning::Setting(Setting::MatchColor)
    } else if same_text(name, "help") {
        Meaning::Help
    } else if same_text(name, "version") {
        Meaning::Version
    } else {
        Meaning::Unexpected
    }
}

/// What `arg` asks for ([`meaning`]).
pub fn classify(arg: &Arg) -> (m: Meaning)
    ensures
        m == meaning(arg@),
{
    match arg {
        Arg::Short(c) => {
            let c = *c;
            if c == 'd' {
                Meaning::Ignored
            } else if c == 'p' {
                Meaning::Setting(Setting::Prompt)
            } else if c == 'l' {
                Meaning::Setting(Setting::Lines)
            } else if c == 'w' {
                Meaning::Setting(Setting::Width)
            } else if c == 'f' {
                Meaning::Setting(Setting::Font)
            } else if c == 'h' {
                Meaning::Help
            } else if c == 'v' {
                Meaning::Version
            } else {
                Meaning::Unexpected
            }
        },
        Arg::Long(l) => {
            let name = chars_of(l.as_str());
            long_option(name.as_slice())
        },
        Arg::Value(_) => Meaning::Unexpected,
    }
}

/// The settings that command-line options make; each one, where given,
/// replaces what the configuration file says. `width` holds a float
/// literal and `config` the path of a configuration file.
#[derive(Debug)]
pub struct Overrides {
    pub prompt: Option<String>,
    pub lines: Option<usize>,
    pub width: Option<String>,
    pub font: Option<String>,
    pub search: Option<String>,
    pub index: bool,
    pub no_sort: bool,
    pub config: Option<String>,
    pub no_config: bool,
    pub background: Option<String>,
    pub text_color: Option<String>,
    pub prompt_color: Option<String>,
    pub prompt_background: Option<String>,
    pub selection_color: Option<String>,
    pub selection_text_color: Option<String>,
    pub match_color: Option<String>,
}

/// The view of an optional string.
pub open spec fn text_view(s: Option<String>) -> Option<Seq<char>> {
    match s {
        Some(s) => Some(s@),
        None => None,
    }
}

/// The view of [`Overrides`].
pub struct OverridesView {
    pub prompt: Option<Seq<char>>,
    pub lines: Option<usize>,
    pub width: Option<Seq<char>>,
    pub font: Option<Seq<char>>,
    pub search: Option<Seq<char>>,
    pub index: bool,
    pub no_sort: bool,
    pub config: Option<Seq<char>>,
    pub no_config: bool,
    pub background: Option<Seq<char>>,
    pub text_color: Option<Seq<char>>,
    pub prompt_color: Option<Seq<char>>,
    pub prompt_background: Option<Seq<char>>,
    pub selection_color: Option<Seq<char>>,
    pub selection_text_color: Option<Seq<char>>,
    pub match_color: Option<Seq<char>>,
}

impl View for Overrides {
    type V = OverridesView;

    open spec fn view(&self) -> OverridesView {
        OverridesView {
            prompt: text_view(self.prompt),
            lines: self.lines,
            width: text_view(self.width),
            font: text_view(self.font),
            search: text_view(self.search),
            index: self.index,
            no_sort: self.no_sort,
            config: text_view(self.config),
            no_config: self.no_config,
            background: text_view(self.background),
            text_color: text_view(self.text_color),
            prompt_color: text_view(self.prompt_color),
            prompt_background: text_view(self.prompt_background),
            selection_color: text_view(self.selection_color),
            selection_text_color: text_view(self.selection_text_color),
            match_color: text_view(self.match_color),
        }
    }
}

/// No overrides at all.
pub open spec fn no_overrides() -> OverridesView {
    OverridesView {
        prompt: None,
        lines: None,
        width: None,
        font: None,
        search: None,
        index: false,
        no_sort: false,
        config: None,
        no_config: false,
        background: None,
        text_color: None,
        prompt_color: None,
        prompt_background: None,
        selection_color: None,
        selection_text_color: None,
        match_color: None,
    }
}

impl Default for Overrides {
    fn default() -> (r: Overrides)
        ensures
            r@ == no_overrides(),
    {
        Overrides {
            prompt: None,
            lines: None,
            width: None,
            font: None,
            search: None,
            index: false,
            no_sort: false,
            config: None,
            no_config: false,
            background: None,
            text_color: None,
            prompt_color: None,
            prompt_background: None,
            selection_color: None,
            selection_text_color: None,
            match_color: None,
        }
    }
}

/// `o` after the switch `s`.
pub open spec fn switched(o: OverridesView, s: Switch) -> OverridesView {
    match s {
        Switch::Index => OverridesView { index: true, ..o },
        Switch::NoSort => OverridesView { no_sort: true, ..o },
        Switch::NoConfig => OverridesView { no_config: true, ..o },
    }
}

/// `o` after the option `s` with the value `v`: `--lines` takes a `usize`
/// and `--width` a float literal, and fail with the parser's message; the
/// others keep the text.
pub open spec fn set(o: OverridesView, s: Setting, v: Seq<char>) -> Result<OverridesView, Seq<char>> {
    match s {
        Setting::Lines => match parse_usize(v) {
            Ok(n) => Ok(OverridesView { lines: Some(n as usize), ..o }),
            Err(k) => Err(int_error_message(k)),
        },
        Setting::Width => if is_float_literal(v) {
            Ok(OverridesView { width: Some(v), ..o })
        } else {
            Err(float_error_message(v))
        },
        Setting::Prompt => Ok(OverridesView { prompt: Some(v), ..o }),
        Setting::Font => Ok(OverridesView { font: Some(v), ..o }),
        Setting::Search => Ok(OverridesView { search: Some(v), ..o }),
        Setting::Config => Ok(OverridesView { config: Some(v), ..o }),
        Setting::Background => Ok(OverridesView { background: Some(v), ..o }),
        Setting::TextColor => Ok(OverridesView { text_color: Some(v), ..o }),
        Setting::PromptColor => Ok(OverridesView { prompt_color: Some(v), ..o }),
        Setting::PromptBackground => Ok(OverridesView { prompt_background: Some(v), ..o }),
        Setting::SelectionColor => Ok(OverridesView { selection_color: Some(v), ..o }),
        Setting::SelectionTextColor => Ok(OverridesView { selection_text_color: Some(v), ..o }),
        Setting::MatchColor => Ok(OverridesView { match_color: Some(v), ..o }),
    }
}

/// Applies the switch `s` ([`switched`]).
pub fn apply_switch(o: &mut Overrides, s: Switch)
    ensures
        final(o)@ == switched(old(o)@, s),
{
    match s {
        Switch::Index => o.index = true,
        Switch::NoSort => o.no_sort = true,
        Switch::NoConfig => o.no_config = true,
    }
}

/// Applies the option `s` with the value `v` ([`set`]); on an error `o` is
/// unchanged.
pub fn apply_setting(o: &mut Overrides, s: Setting, v: String) -> (r: Result<(), String>)
    ensures
        match r {
            Ok(()) => set(old(o)@, s, v@) == Ok::<OverridesView, Seq<char>>(final(o)@),
            Err(e) => set(old(o)@, s, v@) == Err::<OverridesView, Seq<char>>(e@) && final(o)@ == old(
                o,
            )@,
        },
{
    match s {
        Setting::Lines => {
            let t = chars_of(v.as_str());
            match parse_usize_chars(t.as_slice()) {
                Ok(n) => {
                    o.lines = Some(n);
                    Ok(())
                },
                Err(k) => Err(int_error_text(k)),
            }
        },
        Setting::Width => {
            let t = chars_of(v.as_str());
            if float_literal(t.as_slice()) {
                o.width = Some(v);
                Ok(())
            } else {
                Err(float_error_text(t.as_slice()))
            }
        },
        Setting::Prompt => {
            o.prompt = Some(v);
            Ok(())
        },
        Setting::Font => {
            o.font = Some(v);
            Ok(())
        },
        Setting::Search => {
            o.search = Some(v);
            Ok(())
        },
        Setting::Config => {
            o.config = Some(v);
            Ok(())
        },
        Setting::Background => {
            o.background = Some(v);
            Ok(())
        },
        Setting::TextColor => {
            o.text_color = Some(v);
            Ok(())
        },
        Setting::PromptColor => {
            o.prompt_color = Some(v);
            Ok(())
        },
        Setting::PromptBackground => {
            o.prompt_background = Some(v);
            Ok(())
        },
        Setting::SelectionColor => {
            o.selection_color = Some(v);
            Ok(())
        },
        Setting::SelectionTextColor => {
            o.selection_text_color = Some(v);
            Ok(())
        },
        Setting::MatchColor => {
            o.match_color = Some(v);
            Ok(())
        },
    }
}

/// What the command line asks the program to do.
#[derive(Debug)]
pub enum Action {
    /// Run the picker with these overrides.
    Run(Overrides),
    /// Print the help text.
    Help,
    /// Print the version.
    Version,
}

/// Whether a set of overrides may be run: `--config` and `--no-config` do
/// not come together, and a width is a float literal.
pub open spec fn runnable(o: OverridesView) -> bool {
    &&& !(o.config is Some && o.no_config)
    &&& (o.width matches Some(w) ==> is_float_literal(w))
}

/// The action for the overrides gathered from the whole command line.
pub open spec fn finished(o: OverridesView) -> Result<(), Seq<char>> {
    if o.config is Some && o.no_config {
        Err("--config and --no-config cannot be used together"@)
    } else {
        Ok(())
    }
}

/// Ends the reading of the command line ([`finished`]).
pub fn finish_args(o: Overrides) -> (r: Result<Action, String>)
    ensures
        match r {
            Ok(Action::Run(p)) => finished(o@) is Ok && p@ == o@,
            Ok(_) => false,
            Err(e) => finished(o@) == Err::<(), Seq<char>>(e@),
        },
{
    if o.config.is_some() && o.no_config {
        return Err(String::from_str("--config and --no-config cannot be used together"));
    }
    Ok(Action::Run(o))
}

/// One option applied to the overrides.
pub enum Step {
    Switched(Switch),
    Valued(Setting, Seq<char>),
}

/// The overrides that applying `steps` in order to no overrides gives, or
/// the error of the first step that fails.
pub open spec fn replay(steps: Seq<Step>) -> Result<OverridesView, Seq<char>>
    decreases steps.len(),
{
    if steps.len() == 0 {
        Ok(no_overrides())
    } else {
        match replay(steps.drop_last()) {
            Err(e) => Err(e),
            Ok(o) => match steps.last() {
                Step::Switched(w) => Ok(switched(o, w)),
                Step::Valued(t, v) => set(o, t, v),
            },
        }
    }
}

/// What the picker makes of a command line.
pub enum Outcome {
    Run(OverridesView),
    Help,
    Version,
    /// An error with this message.
    Failed(Seq<char>),
}

/// The weight of the unread arguments `u`: one more than its length for
/// each.
pub open spec fn unread_weight(u: Seq<Seq<char>>) -> nat
    decreases u.len(),
{
    if u.len() == 0 {
        0
    } else {
        u[0].len() + 1 + unread_weight(u.drop_first())
    }
}

/// What the tokenizer has left to hand out: the unread arguments' weight,
/// and the characters of a cluster or a pending value.
pub open spec fn tokens_left(st: Tokenizing, u: Seq<Seq<char>>) -> nat {
    unread_weight(u) + match st {
        Tokenizing::Pending(v) => v.len() + 1,
        Tokenizing::Cluster(s) => s.len(),
        _ => 0,
    }
}

/// Each argument the tokenizer hands out leaves it less to hand out.
pub proof fn lemma_next_token_shrinks(st: Tokenizing, u: Seq<Seq<char>>, last: Option<ArgView>)
    ensures
        ({
            let (t, st1, u1) = next_token(st, u, last);
            t is Arg ==> tokens_left(st1, u1) < tokens_left(st, u)
        }),
{
    if u.len() > 0 {
        assert(unread_weight(u) == u[0].len() + 1 + unread_weight(u.drop_first()));
        let rest = u.drop_first();
        if rest.len() > 0 {
            assert(unread_weight(rest) == rest[0].len() + 1 + unread_weight(rest.drop_first()));
        }
        let a = u[0];
        if a.len() >= 2 && a[0] == '-' && a[1] == '-' {
            if let Some(i) = first_equals(a) {
                assert(exists|k: int| 0 <= k < a.len() && a[k] == '=');
                assert(0 <= i < a.len());
            }
        }
    }
}

/// Taking a value never leaves the tokenizer more to hand out.
pub proof fn lemma_take_value_shrinks(st: Tokenizing, u: Seq<Seq<char>>)
    ensures
        ({
            let (v, st1, u1) = take_value(st, u);
            tokens_left(st1, u1) <= tokens_left(st, u)
        }),
{
    if u.len() > 0 {
        assert(unread_weight(u) == u[0].len() + 1 + unread_weight(u.drop_first()));
    }
}

/// The [`Outcome`] of reading options from the tokenizer standing at `st`
/// with the arguments `u` unread and the option `last` handed out last,
/// starting from the overrides `o`: an option that takes a value takes it
/// ([`take_value`]), and the reading ends at the end, at help or version,
/// or at the first error.
pub open spec fn outcome(st: Tokenizing, u: Seq<Seq<char>>, last: Option<ArgView>, o: OverridesView) -> Outcome
    decreases tokens_left(st, u),
{
    let (t, st1, u1) = next_token(st, u, last);
    let last1 = last_after(last, t);
    proof {
        lemma_next_token_shrinks(st, u, last);
        lemma_take_value_shrinks(st1, u1);
    }
    match t {
        Token::End => match finished(o) {
            Ok(()) => Outcome::Run(o),
            Err(e) => Outcome::Failed(e),
        },
        Token::Error(m) => Outcome::Failed(m),
        Token::Arg(a) => match meaning(a) {
            Meaning::Ignored => outcome(st1, u1, last1, o),
            Meaning::Switch(w) => outcome(st1, u1, last1, switched(o, w)),
            Meaning::Setting(k) => {
                let (v, st2, u2) = take_value(st1, u1);
                match v {
                    None => Outcome::Failed(missing_value_message(last1)),
                    Some(x) => match set(o, k, x) {
                        Ok(p) => outcome(st2, u2, last1, p),
                        Err(e) => Outcome::Failed(e),
                    },
                }
            },
            Meaning::Help => Outcome::Help,
            Meaning::Version => Outcome::Version,
            Meaning::Unexpected => Outcome::Failed(unexpected_message(a)),
        },
    }
}

/// Reads the command line `args` (without the program's name). `-h` or
/// `--help` and `-v` or `--version` stop the reading; an option that the
/// picker does not take, a positional value, a missing or malformed value
/// are errors. The result is the [`outcome`] of the arguments; the
/// overrides of a run are [`runnable`], and are what the options read,
/// applied in order, make of no overrides ([`replay`]).
pub fn parse_args(args: Vec<String>) -> (r: Result<Action, String>)
    ensures
        r matches Ok(Action::Run(o)) ==> runnable(o@),
        r matches Ok(Action::Run(o)) ==> exists|steps: Seq<Step>| replay(steps) == Ok::<
            OverridesView,
            Seq<char>,
        >(o@),
        match outcome(Tokenizing::Between, arg_texts(args@), None, no_overrides()) {
            Outcome::Run(p) => r matches Ok(Action::Run(o)) && o@ == p,
            Outcome::Help => r matches Ok(Action::Help),
            Outcome::Version => r matches Ok(Action::Version),
            Outcome::Failed(e) => r matches Err(m) && m@ == e,
        },
{
    let ghost target = outcome(Tokenizing::Between, arg_texts(args@), None, no_overrides());
    let mut parser = parser_from_args(args);
    let mut overrides = Overrides::default();
    let ghost mut steps: Seq<Step> = Seq::empty();
    assert(overrides@.width is None);
    loop
        invariant_except_break
            outcome(tokenizing(parser), unread_args(parser), last_option(parser), overrides@) == target,
        invariant
            overrides@.width matches Some(w) ==> is_float_literal(w),
            replay(steps) == Ok::<OverridesView, Seq<char>>(overrides@),
            last_known(tokenizing(parser), last_option(parser)),
            target == outcome(Tokenizing::Between, arg_texts(args@), None, no_overrides()),
        ensures
            target == (match finished(overrides@) {
                Ok(()) => Outcome::Run(overrides@),
                Err(e) => Outcome::Failed(e),
            }),
        decreases tokens_left(tokenizing(parser), unread_args(parser)),
    {
        let ghost st0 = tokenizing(parser);
        let ghost u0 = unread_args(parser);
        proof {
            lemma_next_token_shrinks(st0, u0, last_option(parser));
        }
        let arg = match next_arg(&mut parser) {
            Ok(Some(arg)) => arg,
            Ok(None) => break,
            Err(e) => return Err(e),
        };
        let ghost st1 = tokenizing(parser);
        let ghost u1 = unread_args(parser);
        proof {
            lemma_take_value_shrinks(st1, u1);
        }
        let m = classify(&arg);
        match m {
            Meaning::Ignored => {},
            Meaning::Switch(s) => {
                apply_switch(&mut overrides, s);
                proof {
                    let next = steps.push(Step::Switched(s));
                    assert(next.drop_last() =~= steps);
                    steps = next;
                }
            },
            Meaning::Setting(s) => {
                let v = string_value(&mut parser)?;
                let ghost text = v@;
                apply_setting(&mut overrides, s, v)?;
                proof {
                    let next = steps.push(Step::Valued(s, text));
                    assert(next.drop_last() =~= steps);
                    steps = next;
                }
            },
            Meaning::Help => return Ok(Action::Help),
            Meaning::Version => return Ok(Action::Version),
            Meaning::Unexpected => return Err(unexpected(&arg)),
        }
    }
    finish_args(overrides)
}

/// The configuration file as the application found it.
#[derive(Debug)]
pub enum ConfigFile {
    /// No file was looked for.
    Unused,
    /// The file at `path` holds `contents`.
    Read { path: String, contents: String },
    /// The file at `path` could not be read: `not_found` tells whether it
    /// does not exist, `error` is the system's message.
    Unreadable { path: String, not_found: bool, error: String },
}

/// The view of a [`ConfigFile`].
pub enum ConfigFileView {
    Unused,
    Read { path: Seq<char>, contents: Seq<char> },
    Unreadable { path: Seq<char>, not_found: bool, error: Seq<char> },
}

impl View for ConfigFile {
    type V = ConfigFileView;

    open spec fn view(&self) -> ConfigFileView {
        match self {
            ConfigFile::Unused => ConfigFileView::Unused,
            ConfigFile::Read { path, contents } => ConfigFileView::Read {
                path: path@,
                contents: contents@,
            },
            ConfigFile::Unreadable { path, not_found, error } => ConfigFileView::Unreadable {
                path: path@,
                not_found: *not_found,
                error: error@,
            },
        }
    }
}

/// `base` joined with the relative path `rel`, as `Path::join` does it: a
/// `/` between them unless `base` is empty or already ends with one.
pub open spec fn joined(base: Seq<char>, rel: Seq<char>) -> Seq<char> {
    if base.len() == 0 || base.last() == '/' {
        base + rel
    } else {
        base + "/"@ + rel
    }
}

/// The configuration file's usual place: `fzzx/fzzx.ini` under
/// `$XDG_CONFIG_HOME` where that is set, else `.config/fzzx/fzzx.ini` under
/// `$HOME`.
pub open spec fn default_path(xdg: Option<Seq<char>>, home: Option<Seq<char>>) -> Option<Seq<char>> {
    match xdg {
        Some(x) => Some(joined(x, "fzzx/fzzx.ini"@)),
        None => match home {
            Some(h) => Some(joined(h, ".config/fzzx/fzzx.ini"@)),
            None => None,
        },
    }
}

fn join_path(base: &str, rel: &str) -> (r: String)
    ensures
        r@ == joined(base@, rel@),
{
    let b = chars_of(base);
    let mut v = chars_of(base);
    if b.len() > 0 && b[b.len() - 1] != '/' {
        v = concat_chars(b.as_slice(), chars_of("/").as_slice());
    }
    let w = concat_chars(v.as_slice(), chars_of(rel).as_slice());
    string_from(w.as_slice())
}

/// The default configuration path ([`default_path`]) from the values of
/// `XDG_CONFIG_HOME` and `HOME`.
pub fn default_config_path(xdg: Option<String>, home: Option<String>) -> (r: Option<String>)
    ensures
        text_view(r) == default_path(text_view(xdg), text_view(home)),
{
    match xdg {
        Some(x) => Some(join_path(x.as_str(), "fzzx/fzzx.ini")),
        None => match home {
            Some(h) => Some(join_path(h.as_str(), ".config/fzzx/fzzx.ini")),
            None => None,
        },
    }
}

/// The configuration file to read: none under `--no-config`, else the one
/// `--config` names, else the default one.
pub open spec fn path_to_read(o: OverridesView, default: Option<Seq<char>>) -> Option<Seq<char>> {
    if o.no_config {
        None
    } else if o.config is Some {
        o.config
    } else {
        default
    }
}

/// The configuration file to read ([`path_to_read`]).
pub fn config_path(o: &Overrides, default: Option<String>) -> (r: Option<String>)
    ensures
        text_view(r) == path_to_read(o@, text_view(default)),
{
    if o.no_config {
        None
    } else {
        match &o.config {
            Some(p) => Some(string_from(chars_of(p.as_str()).as_slice())),
            None => default,
        }
    }
}

/// The options that the configuration file gives: the defaults, with the
/// file read over them. A file that `--no-config` keeps out, that was not
/// looked for, or that does not exist at the default place changes
/// nothing; any other failure to read it is an error.
pub open spec fn from_file(o: OverridesView, f: ConfigFileView) -> Result<OptionsView, Seq<char>> {
    let d = default_options();
    if o.no_config {
        Ok(d)
    } else {
        match f {
            ConfigFileView::Unused => Ok(d),
            ConfigFileView::Read { path, contents } => match config_of(contents, path, d).1 {
                None => Ok(config_of(contents, path, d).0),
                Some(m) => Err(m),
            },
            ConfigFileView::Unreadable { path, not_found, error } => if o.config is None
                && not_found {
                Ok(d)
            } else {
                Err("failed to read "@ + path + ": "@ + error)
            },
        }
    }
}

/// A color that an option may replace: the option's value read as a color,
/// else `current`.
pub open spec fn color_override(current: Option<Color>, value: Option<Seq<char>>, name: Seq<char>) -> Result<
    Option<Color>,
    Seq<char>,
> {
    match value {
        None => Ok(current),
        Some(v) => match color_of(v) {
            Ok(c) => Ok(Some(c)),
            Err(e) => Err("invalid "@ + name + ": "@ + e),
        },
    }
}

/// Sets `target` from the option `name`'s value, where one was given
/// ([`color_override`]); on an error `target` is unchanged.
pub fn apply_color(target: &mut Option<Color>, value: Option<String>, name: &str) -> (r: Result<
    (),
    String,
>)
    ensures
        match r {
            Ok(()) => color_override(*old(target), text_view(value), name@) == Ok::<
                Option<Color>,
                Seq<char>,
            >(*final(target)),
            Err(e) => color_override(*old(target), text_view(value), name@) == Err::<
                Option<Color>,
                Seq<char>,
            >(e@) && *final(target) == *old(target),
        },
{
    if let Some(v) = value {
        match parse_color(v.as_str()) {
            Ok(c) => {
                *target = Some(c);
            },
            Err(e) => {
                let a = concat_chars(chars_of("invalid ").as_slice(), chars_of(name).as_slice());
                let b = concat_chars(a.as_slice(), chars_of(": ").as_slice());
                let m = concat_chars(b.as_slice(), chars_of(e.as_str()).as_slice());
                return Err(string_from(m.as_slice()));
            },
        }
    }
    Ok(())
}

/// `o` with the command line's prompt, lines, width, search, index and
/// sorting.
pub open spec fn with_plain_overrides(v: OverridesView, o: OptionsView) -> OptionsView {
    OptionsView {
        prompt: match v.prompt {
            Some(p) => p,
            None => o.prompt,
        },
        lines: match v.lines {
            Some(n) => n,
            None => o.lines,
        },
        width: match v.width {
            Some(w) => w,
            None => o.width,
        },
        search: match v.search {
            Some(s) => s,
            None => o.search,
        },
        index: v.index,
        sort: !v.no_sort,
        ..o
    }
}

/// `o` with everything the command line sets, in the order the options
/// are applied: the plain values, the font, then the colors from
/// `background` to `match-color`; the first malformed value is the error.
pub open spec fn overridden(v: OverridesView, o: OptionsView) -> Result<OptionsView, Seq<char>> {
    let p = with_plain_overrides(v, o);
    let font = match v.font {
        None => Ok(p.font),
        Some(f) => match font_of(f) {
            Ok(x) => Ok(Some(x)),
            Err(e) => Err(e),
        },
    };
    let background = color_override(p.background, v.background, "background"@);
    let text = color_override(p.text_color, v.text_color, "text-color"@);
    let prompt = color_override(p.prompt_color, v.prompt_color, "prompt-color"@);
    let prompt_background = color_override(
        p.prompt_background,
        v.prompt_background,
        "prompt-background"@,
    );
    let selection = color_override(p.selection_color, v.selection_color, "selection-color"@);
    let selection_text = color_override(
        p.selection_text_color,
        v.selection_text_color,
        "selection-text-color"@,
    );
    let matched = color_override(p.match_color, v.match_color, "match-color"@);
    if font is Err {
        Err(font->Err_0)
    } else if background is Err {
        Err(background->Err_0)
    } else if text is Err {
        Err(text->Err_0)
    } else if prompt is Err {
        Err(prompt->Err_0)
    } else if prompt_background is Err {
        Err(prompt_background->Err_0)
    } else if selection is Err {
        Err(selection->Err_0)
    } else if selection_text is Err {
        Err(selection_text->Err_0)
    } else if matched is Err {
        Err(matched->Err_0)
    } else {
        Ok(
            OptionsView {
                font: font->Ok_0,
                background: background->Ok_0,
                text_color: text->Ok_0,
                prompt_color: prompt->Ok_0,
                prompt_background: prompt_background->Ok_0,
                selection_color: selection->Ok_0,
                selection_text_color: selection_text->Ok_0,
                match_color: matched->Ok_0,
                ..p
            },
        )
    }
}

/// The digits of the least number that reads as a width of at least 200
/// points, with the point 46 places from their end: `200 - 2^-46`, halfway
/// between 200 and the `f64` below it, which rounds to 200 (ties go to the
/// even neighbour).
pub open spec fn least_width() -> Seq<char> {
    "1999999999999999857891452847979962825775146484375"@
}

/// Whether the float literal `w`, read as an `f64` (rounded to the
/// nearest), is a finite number of at least 200.
pub open spec fn width_in_range(w: Seq<char>) -> bool {
    denotes_at_least(w, digits_value(least_width()), 46) && reads_finite(w)
}

/// Whether `w` is a float literal whose `f64` is a finite width of at
/// least 200 points ([`width_in_range`]).
pub fn width_ok(w: &[char]) -> (r: bool)
    ensures
        r == width_in_range(w@),
{
    let least = chars_of("1999999999999999857891452847979962825775146484375");
    proof {
        reveal_strlit("1999999999999999857891452847979962825775146484375");
        assert(plain_numeral(least@));
    }
    float_literal(w) && at_least(w, least.as_slice(), 46) && finite_f64(w)
}

/// The options of a run: the configuration file's ([`from_file`]), then
/// the command line's ([`overridden`]), then the checks that between one and
/// eight rows are shown and that the width, read as an `f64`, is a finite
/// number of at least 200 points ([`width_in_range`]).
pub open spec fn options_of(v: OverridesView, f: ConfigFileView) -> Result<OptionsView, Seq<char>> {
    match from_file(v, f) {
        Err(e) => Err(e),
        Ok(o) => match overridden(v, o) {
            Err(e) => Err(e),
            Ok(p) => if !(1 <= p.lines <= 8) {
                Err("lines must be between 1 and 8"@)
            } else if !width_in_range(p.width) {
                Err("width must be at least 200 points"@)
            } else {
                Ok(p)
            },
        },
    }
}

/// Gathers the options of a run ([`options_of`]) from the command line's
/// overrides and the configuration file the application read for them.
#[verifier::spinoff_prover]
pub fn options(overrides: Overrides, file: ConfigFile) -> (r: Result<Options, String>)
    ensures
        match r {
            Ok(o) => options_of(overrides@, file@) == Ok::<OptionsView, Seq<char>>(o@),
            Err(e) => options_of(overrides@, file@) == Err::<OptionsView, Seq<char>>(e@),
        },
{
    let ghost v = overrides@;
    let mut options = Options::default();
    if !overrides.no_config {
        match file {
            ConfigFile::Unused => {},
            ConfigFile::Read { path, contents } => {
                parse_config(contents.as_str(), path.as_str(), &mut options)?;
            },
            ConfigFile::Unreadable { path, not_found, error } => {
                if !(overrides.config.is_none() && not_found) {
                    let a = concat_chars(
                        chars_of("failed to read ").as_slice(),
                        chars_of(path.as_str()).as_slice(),
                    );
                    let b = concat_chars(a.as_slice(), chars_of(": ").as_slice());
                    let m = concat_chars(b.as_slice(), chars_of(error.as_str()).as_slice());
                    return Err(string_from(m.as_slice()));
                }
            },
        }
    }
    assert(from_file(v, file@) == Ok::<OptionsView, Seq<char>>(options@));
    let Overrides {
        prompt,
        lines,
        width,
        font,
        search,
        index,
        no_sort,
        config: _,
        no_config: _,
        background,
        text_color,
        prompt_color,
        prompt_background,
        selection_color,
        selection_text_color,
        match_color,
    } = overrides;
    if let Some(p) = prompt {
        options.prompt = p;
    }
    if let Some(n) = lines {
        options.lines = n;
    }
    if let Some(w) = width {
        options.width = w;
    }
    if let Some(f) = search {
        options.search = f;
    }
    options.index = index;
    options.sort = !no_sort;
    assert(options@ == with_plain_overrides(v, from_file(v, file@)->Ok_0));
    if let Some(f) = font {
        options.font = Some(parse_font(f.as_str())?);
    }
    apply_color(&mut options.background, background, "background")?;
    apply_color(&mut options.text_color, text_color, "text-color")?;
    apply_color(&mut options.prompt_color, prompt_color, "prompt-color")?;
    apply_color(&mut options.prompt_background, prompt_background, "prompt-background")?;
    apply_color(&mut options.selection_color, selection_color, "selection-color")?;
    apply_color(&mut options.selection_text_color, selection_text_color, "selection-text-color")?;
    apply_color(&mut options.match_color, match_color, "match-color")?;
    if !(1 <= options.lines && options.lines <= 8) {
        return Err(String::from_str("lines must be between 1 and 8"));
    }
    let width = chars_of(options.width.as_str());
    if !width_ok(width.as_slice()) {
        return Err(String::from_str("width must be at least 200 points"));
    }
    Ok(options)
}

/// Under `--no-config` the configuration file plays no part: any file
/// gives the same options.
pub proof fn lemma_no_config_ignores_file(v: OverridesView, f1: ConfigFileView, f2: ConfigFileView)
    requires
        v.no_config,
    ensures
        options_of(v, f1) == options_of(v, f2),
{
}

/// A command-line value overrides the configuration's value of the same
/// setting, and only that one: a setting the command line leaves alone
/// keeps the value the configuration file gave it.
pub proof fn lemma_cli_overrides_config(v: OverridesView, f: ConfigFileView, o: OptionsView)
    requires
        options_of(v, f) == Ok::<OptionsView, Seq<char>>(o),
    ensures
        from_file(v, f) is Ok,
        o.prompt == (match v.prompt {
            Some(p) => p,
            None => from_file(v, f)->Ok_0.prompt,
        }),
        o.lines == (match v.lines {
            Some(n) => n,
            None => from_file(v, f)->Ok_0.lines,
        }),
        o.width == (match v.width {
            Some(w) => w,
            None => from_file(v, f)->Ok_0.width,
        }),
        o.search == (match v.search {
            Some(q) => q,
            None => from_file(v, f)->Ok_0.search,
        }),
        o.font == (match v.font {
            Some(t) => Some(font_of(t)->Ok_0),
            None => from_file(v, f)->Ok_0.font,
        }),
        o.background == (match v.background {
            Some(t) => Some(color_of(t)->Ok_0),
            None => from_file(v, f)->Ok_0.background,
        }),
        o.text_color == (match v.text_color {
            Some(t) => Some(color_of(t)->Ok_0),
            None => from_file(v, f)->Ok_0.text_color,
        }),
        o.prompt_color == (match v.prompt_color {
            Some(t) => Some(color_of(t)->Ok_0),
            None => from_file(v, f)->Ok_0.prompt_color,
        }),
        o.prompt_background == (match v.prompt_background {
            Some(t) => Some(color_of(t)->Ok_0),
            None => from_file(v, f)->Ok_0.prompt_background,
        }),
        o.selection_color == (match v.selection_color {
            Some(t) => Some(color_of(t)->Ok_0),
            None => from_file(v, f)->Ok_0.selection_color,
        }),
        o.selection_text_color == (match v.selection_text_color {
            Some(t) => Some(color_of(t)->Ok_0),
            None => from_file(v, f)->Ok_0.selection_text_color,
        }),
        o.match_color == (match v.match_color {
            Some(t) => Some(color_of(t)->Ok_0),
            None => from_file(v, f)->Ok_0.match_color,
        }),
{
}

/// The switches reach the options of a run: `--index` prints indices, and
/// sorting is on unless `--no-sort` is given.
pub proof fn lemma_switches_reach_options(v: OverridesView, f: ConfigFileView, o: OptionsView)
    requires
        options_of(v, f) == Ok::<OptionsView, Seq<char>>(o),
    ensures
        o.index == v.index,
        o.sort == !v.no_sort,
{
    let p = from_file(v, f)->Ok_0;
    assert(with_plain_overrides(v, p).index == v.index);
    assert(with_plain_overrides(v, p).sort == !v.no_sort);
}

/// The options of a run always show between one and eight rows, and are
/// a finite width of at least 200 points.
pub proof fn lemma_rows_in_range(v: OverridesView, f: ConfigFileView, o: OptionsView)
    requires
        options_of(v, f) == Ok::<OptionsView, Seq<char>>(o),
    ensures
        1 <= o.lines <= 8,
        width_in_range(o.width),
{
}

/// The long option that sets `s`, as the help text lists it.
pub open spec fn setting_name(s: Setting) -> Seq<char> {
    match s {
        Setting::Prompt => "prompt"@,
        Setting::Lines => "lines"@,
        Setting::Width => "width"@,
        Setting::Font => "font"@,
        Setting::Search => "search"@,
        Setting::Config => "config"@,
        Setting::Background => "background"@,
        Setting::TextColor => "text-color"@,
        Setting::PromptColor => "prompt-color"@,
        Setting::PromptBackground => "prompt-background"@,
        Setting::SelectionColor => "selection-color"@,
        Setting::SelectionTextColor => "selection-text-color"@,
        Setting::MatchColor => "match-color"@,
    }
}

/// The short option that sets `s`, where the help text lists one.
pub open spec fn setting_letter(s: Setting) -> Option<char> {
    match s {
        Setting::Prompt => Some('p'),
        Setting::Lines => Some('l'),
        Setting::Width => Some('w'),
        Setting::Font => Some('f'),
        _ => None,
    }
}

/// The long option of the switch `w`, as the help text lists it.
pub open spec fn switch_name(w: Switch) -> Seq<char> {
    match w {
        Switch::Index => "index"@,
        Switch::NoSort => "no-sort"@,
        Switch::NoConfig => "no-config"@,
    }
}

/// What the command line has set for the option `s` in `o`, as text
/// (`None` for `lines`, which holds a number).
pub open spec fn setting_text(o: OverridesView, s: Setting) -> Option<Seq<char>> {
    match s {
        Setting::Prompt => o.prompt,
        Setting::Lines => None,
        Setting::Width => o.width,
        Setting::Font => o.font,
        Setting::Search => o.search,
        Setting::Config => o.config,
        Setting::Background => o.background,
        Setting::TextColor => o.text_color,
        Setting::PromptColor => o.prompt_color,
        Setting::PromptBackground => o.prompt_background,
        Setting::SelectionColor => o.selection_color,
        Setting::SelectionTextColor => o.selection_text_color,
        Setting::MatchColor => o.match_color,
    }
}

/// Each option is read by the name the help text gives it: `--NAME` and
/// its one-letter form ask for the setting of that name, and each switch
/// for its switch.
pub proof fn lemma_options_are_read_by_name(s: Setting, w: Switch)
    ensures
        long_meaning(setting_name(s)) == Meaning::Setting(s),
        setting_letter(s) matches Some(c) ==> short_meaning(c) == Meaning::Setting(s),
        long_meaning(switch_name(w)) == Meaning::Switch(w),
{
    reveal_strlit("dmenu");
    reveal_strlit("prompt");
    reveal_strlit("lines");
    reveal_strlit("width");
    reveal_strlit("font");
    reveal_strlit("search");
    reveal_strlit("index");
    reveal_strlit("no-sort");
    reveal_strlit("config");
    reveal_strlit("no-config");
    reveal_strlit("background");
    reveal_strlit("text-color");
    reveal_strlit("prompt-color");
    reveal_strlit("prompt-background");
    reveal_strlit("selection-color");
    reveal_strlit("selection-text-color");
    reveal_strlit("match-color");
    reveal_strlit("help");
    reveal_strlit("version");
    assert("dmenu"@.len() == 5);
    assert("prompt"@.len() == 6);
    assert("lines"@.len() == 5);
    assert("width"@.len() == 5);
    assert("font"@.len() == 4);
    assert("search"@.len() == 6);
    assert("index"@.len() == 5);
    assert("no-sort"@.len() == 7);
    assert("config"@.len() == 6);
    assert("no-config"@.len() == 9);
    assert("background"@.len() == 10);
    assert("text-color"@.len() == 10);
    assert("prompt-color"@.len() == 12);
    assert("prompt-background"@.len() == 17);
    assert("selection-color"@.len() == 15);
    assert("selection-text-color"@.len() == 20);
    assert("match-color"@.len() == 11);
    assert("help"@.len() == 4);
    assert("version"@.len() == 7);
    assert("lines"@ != "dmenu"@) by { assert("lines"@[0] != "dmenu"@[0]); }
    assert("width"@ != "dmenu"@) by { assert("width"@[0] != "dmenu"@[0]); }
    assert("width"@ != "lines"@) by { assert("width"@[0] != "lines"@[0]); }
    assert("index"@ != "dmenu"@) by { assert("index"@[0] != "dmenu"@[0]); }
    assert("index"@ != "lines"@) by { assert("index"@[0] != "lines"@[0]); }
    assert("index"@ != "width"@) by { assert("index"@[0] != "width"@[0]); }
    assert("search"@ != "prompt"@) by { assert("search"@[0] != "prompt"@[0]); }
    assert("config"@ != "prompt"@) by { assert("config"@[0] != "prompt"@[0]); }
    assert("config"@ != "search"@) by { assert("config"@[0] != "search"@[0]); }
    assert("text-color"@ != "background"@) by { assert("text-color"@[0] != "background"@[0]); }
    match s {
        Setting::Prompt => assert(long_meaning("prompt"@) == Meaning::Setting(s)),
        Setting::Lines => assert(long_meaning("lines"@) == Meaning::Setting(s)),
        Setting::Width => assert(long_meaning("width"@) == Meaning::Setting(s)),
        Setting::Font => assert(long_meaning("font"@) == Meaning::Setting(s)),
        Setting::Search => assert(long_meaning("search"@) == Meaning::Setting(s)),
        Setting::Config => assert(long_meaning("config"@) == Meaning::Setting(s)),
        Setting::Background => assert(long_meaning("background"@) == Meaning::Setting(s)),
        Setting::TextColor => assert(long_meaning("text-color"@) == Meaning::Setting(s)),
        Setting::PromptColor => assert(long_meaning("prompt-color"@) == Meaning::Setting(s)),
        Setting::PromptBackground => assert(long_meaning("prompt-background"@) == Meaning::Setting(s)),
        Setting::SelectionColor => assert(long_meaning("selection-color"@) == Meaning::Setting(s)),
        Setting::SelectionTextColor => {
            assert(long_meaning("selection-text-color"@) == Meaning::Setting(s));
        },
        Setting::MatchColor => assert(long_meaning("match-color"@) == Meaning::Setting(s)),
    }
    match w {
        Switch::Index => assert(long_meaning("index"@) == Meaning::Switch(w)),
        Switch::NoSort => assert(long_meaning("no-sort"@) == Meaning::Switch(w)),
        Switch::NoConfig => assert(long_meaning("no-config"@) == Meaning::Switch(w)),
    }
}

/// An option with a value sets the command line's value of that option and
/// nothing else: the others and the switches stay as they were.
pub proof fn lemma_setting_sets_only_its_option(o: OverridesView, s: Setting, v: Seq<char>)
    ensures
        set(o, s, v) is Ok ==> {
            let p = set(o, s, v)->Ok_0;
            &&& forall|t: Setting| t != s ==> setting_text(p, t) == setting_text(o, t)
            &&& s != Setting::Lines ==> setting_text(p, s) == Some(v) && p.lines == o.lines
            &&& p.index == o.index && p.no_sort == o.no_sort && p.no_config == o.no_config
        },
{
}

/// Whether `o` has the switch `w` on.
pub open spec fn switch_on(o: OverridesView, w: Switch) -> bool {
    match w {
        Switch::Index => o.index,
        Switch::NoSort => o.no_sort,
        Switch::NoConfig => o.no_config,
    }
}

/// A switch turns itself on and nothing else: the other switches and every
/// option with a value stay as they were.
pub proof fn lemma_switch_sets_only_itself(o: OverridesView, w: Switch)
    ensures
        switch_on(switched(o, w), w),
        forall|x: Switch| x != w ==> switch_on(switched(o, w), x) == switch_on(o, x),
        forall|t: Setting| setting_text(switched(o, w), t) == setting_text(o, t),
        switched(o, w).lines == o.lines,
{
}

} // verus!
