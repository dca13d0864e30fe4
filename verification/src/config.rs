//! The picker's options and the INI-style configuration file that sets them.
use vstd::prelude::*;
use crate::number::{float_error_message, float_error_text, float_literal, int_error_message, int_error_text, is_float_literal, parse_usize, parse_usize_chars};
use crate::style::{color_from_chars, color_of, font_from_chars, font_of, Color, FontSpec};
use crate::text::{chars_of, concat_chars, copy_range, debug_quoted, debug_text, decimal, decimal_chars, find_char, line_bounds, lines, next_index_of, same_text, string_from, trim, trimmed};

verus! {

broadcast use vstd::string::group_string_axioms;

/// Everything that decides how the picker looks and behaves. The width and
/// the font size are kept as the float literals that were written; the
/// application reads them as floating-point numbers.
#[derive(Debug)]
pub struct Options {
    pub prompt: String,
    pub lines: usize,
    pub width: String,
    pub font: Option<FontSpec>,
    pub search: String,
    pub index: bool,
    pub sort: bool,
    pub background: Option<Color>,
    pub text_color: Option<Color>,
    pub prompt_color: Option<Color>,
    pub prompt_background: Option<Color>,
    pub selection_color: Option<Color>,
    pub selection_text_color: Option<Color>,
    pub match_color: Option<Color>,
}

/// The mathematical value of [`Options`]: strings become character
/// sequences and a font becomes its family and size text.
pub struct OptionsView {
    pub prompt: Seq<char>,
    pub lines: usize,
    pub width: Seq<char>,
    pub font: Option<(Seq<char>, Seq<char>)>,
    pub search: Seq<char>,
    pub index: bool,
    pub sort: bool,
    pub background: Option<Color>,
    pub text_color: Option<Color>,
    pub prompt_color: Option<Color>,
    pub prompt_background: Option<Color>,
    pub selection_color: Option<Color>,
    pub selection_text_color: Option<Color>,
    pub match_color: Option<Color>,
}

/// The view of an optional font.
pub open spec fn font_view(f: Option<FontSpec>) -> Option<(Seq<char>, Seq<char>)> {
    match f {
        Some(f) => Some((f.family@, f.size@)),
        None => None,
    }
}

impl View for Options {
    type V = OptionsView;

    open spec fn view(&self) -> OptionsView {
        OptionsView {
            prompt: self.prompt@,
            lines: self.lines,
            width: self.width@,
            font: font_view(self.font),
            search: self.search@,
            index: self.index,
            sort: self.sort,
            background: self.background,
            text_color: self.text_color,
            prompt_color: self.prompt_color,
            prompt_background: self.prompt_background,
            selection_color: self.selection_color,
            selection_text_color: self.selection_text_color,
            match_color: self.match_color,
        }
    }
}

/// The built-in options: prompt `>`, eight rows, 640 points wide, the
/// system font, no initial query, rows printed as text, sorted by score,
/// the built-in palette.
pub open spec fn default_options() -> OptionsView {
    OptionsView {
        prompt: ">"@,
        lines: 8,
        width: "640"@,
        font: None,
        search: Seq::empty(),
        index: false,
        sort: true,
        background: None,
        text_color: None,
        prompt_color: None,
        prompt_background: None,
        selection_color: None,
        selection_text_color: None,
        match_color: None,
    }
}

impl Default for Options {
    fn default() -> (r: Options)
        ensures
            r@ == default_options(),
    {
        Options {
            prompt: String::from_str(">"),
            lines: 8,
            width: String::from_str("640"),
            font: None,
            search: String::new(),
            index: false,
            sort: true,
            background: None,
            text_color: None,
            prompt_color: None,
            prompt_background: None,
            selection_color: None,
            selection_text_color: None,
            match_color: None,
        }
    }
}

/// The prefix of a message about line `number` of the file at `path`.
pub open spec fn location(path: Seq<char>, number: nat) -> Seq<char> {
    path + ":"@ + decimal(number) + ": "@
}

/// The error for a key that the section does not know.
pub open spec fn unknown_key(at: Seq<char>, key: Seq<char>) -> Seq<char> {
    at + "unknown key "@ + debug_text(key)
}

/// A `key=value` line of the `[main]` section applied to `o`.
pub open spec fn main_entry(key: Seq<char>, value: Seq<char>, o: OptionsView, at: Seq<char>) -> Result<
    OptionsView,
    Seq<char>,
> {
    if key == "font"@ {
        match font_of(value) {
            Ok(f) => Ok(OptionsView { font: Some(f), ..o }),
            Err(e) => Err(e),
        }
    } else if key == "prompt"@ {
        Ok(OptionsView { prompt: value, ..o })
    } else if key == "lines"@ {
        match parse_usize(value) {
            Ok(n) => Ok(OptionsView { lines: n as usize, ..o }),
            Err(k) => Err(at + int_error_message(k)),
        }
    } else if key == "width"@ {
        if is_float_literal(value) {
            Ok(OptionsView { width: value, ..o })
        } else {
            Err(at + float_error_message(value))
        }
    } else {
        Err(unknown_key(at, key))
    }
}

/// Whether `key` names a color of the `[colors]` section.
pub open spec fn is_color_key(key: Seq<char>) -> bool {
    key == "background"@ || key == "text"@ || key == "prompt"@ || key == "prompt-background"@ || key
        == "selection"@ || key == "selection-text"@ || key == "match"@
}

/// `o` with the color that `key` names set to `c`.
pub open spec fn with_color(o: OptionsView, key: Seq<char>, c: Color) -> OptionsView {
    if key == "background"@ {
        OptionsView { background: Some(c), ..o }
    } else if key == "text"@ {
        OptionsView { text_color: Some(c), ..o }
    } else if key == "prompt"@ {
        OptionsView { prompt_color: Some(c), ..o }
    } else if key == "prompt-background"@ {
        OptionsView { prompt_background: Some(c), ..o }
    } else if key == "selection"@ {
        OptionsView { selection_color: Some(c), ..o }
    } else if key == "selection-text"@ {
        OptionsView { selection_text_color: Some(c), ..o }
    } else {
        OptionsView { match_color: Some(c), ..o }
    }
}

/// A `key=value` line of the `[colors]` section applied to `o`.
pub open spec fn color_entry(key: Seq<char>, value: Seq<char>, o: OptionsView, at: Seq<char>) -> Result<
    OptionsView,
    Seq<char>,
> {
    if !is_color_key(key) {
        Err(unknown_key(at, key))
    } else {
        match color_of(value) {
            Ok(c) => Ok(with_color(o, key, c)),
            Err(e) => Err(at + e),
        }
    }
}

/// A `key=value` line under `section` applied to `o`.
pub open spec fn entry(
    section: Seq<char>,
    key: Seq<char>,
    value: Seq<char>,
    o: OptionsView,
    at: Seq<char>,
) -> Result<OptionsView, Seq<char>> {
    if section == "main"@ {
        main_entry(key, value, o, at)
    } else if section == "colors"@ {
        color_entry(key, value, o, at)
    } else {
        Err(at + "key appears before a section"@)
    }
}

/// One line of the file, numbered `number`, read under `section`: blank
/// lines and lines that start with `#` or `;` change nothing, `[name]`
/// opens the section `main` or `colors`, anything else must be
/// `key=value`. The result is the section and the options after the line.
pub open spec fn config_line(
    line: Seq<char>,
    number: nat,
    section: Seq<char>,
    o: OptionsView,
    path: Seq<char>,
) -> Result<(Seq<char>, OptionsView), Seq<char>> {
    let t = trim(line);
    let at = location(path, number);
    if t.len() == 0 || t[0] == '#' || t[0] == ';' {
        Ok((section, o))
    } else if t[0] == '[' && t.last() == ']' {
        let name = t.subrange(1, t.len() - 1);
        if name != "main"@ && name != "colors"@ {
            Err(at + "unknown section ["@ + name + "]"@)
        } else {
            Ok((name, o))
        }
    } else {
        let e = next_index_of(t, '=', 0);
        if e >= t.len() {
            Err(at + "expected key=value"@)
        } else {
            match entry(
                section,
                trim(t.subrange(0, e)),
                trim(t.subrange(e + 1, t.len() as int)),
                o,
                at,
            ) {
                Ok(o2) => Ok((section, o2)),
                Err(m) => Err(m),
            }
        }
    }
}

/// Reads the lines `ls[i..]`, numbered from `i + 1`, starting under
/// `section` with options `o`. The result is the options after the last
/// line read, and the error of the line that stopped the reading, if one
/// did.
pub open spec fn config_run(
    ls: Seq<Seq<char>>,
    i: int,
    section: Seq<char>,
    o: OptionsView,
    path: Seq<char>,
) -> (OptionsView, Option<Seq<char>>)
    decreases ls.len() - i,
{
    if i < 0 || i >= ls.len() {
        (o, None)
    } else {
        match config_line(ls[i], (i + 1) as nat, section, o, path) {
            Ok((s2, o2)) => config_run(ls, i + 1, s2, o2, path),
            Err(e) => (o, Some(e)),
        }
    }
}

/// The configuration file `contents` read from `path` over the options `o`.
pub open spec fn config_of(contents: Seq<char>, path: Seq<char>, o: OptionsView) -> (
    OptionsView,
    Option<Seq<char>>,
) {
    config_run(lines(contents), 0, Seq::empty(), o, path)
}

/// The section a configuration line opened.
#[derive(Clone, Copy, PartialEq, Eq, Structural)]
enum Section {
    Top,
    Main,
    Colors,
}

spec fn section_name(s: Section) -> Seq<char> {
    match s {
        Section::Top => Seq::empty(),
        Section::Main => "main"@,
        Section::Colors => "colors"@,
    }
}

/// `a` followed by the characters of `b`.
fn with_text(a: &[char], b: &str) -> (r: Vec<char>)
    ensures
        r@ == a@ + b@,
{
    let w = chars_of(b);
    concat_chars(a, w.as_slice())
}

/// The text of `location(path, number)`.
fn location_text(path: &[char], number: usize) -> (r: Vec<char>)
    ensures
        r@ == location(path@, number as nat),
{
    let a = with_text(path, ":");
    let d = decimal_chars(number);
    let b = concat_chars(a.as_slice(), d.as_slice());
    with_text(b.as_slice(), ": ")
}

/// The message `at` followed by `text`, as a string.
fn message(at: &[char], text: &str) -> (r: String)
    ensures
        r@ == at@ + text@,
{
    let m = with_text(at, text);
    string_from(m.as_slice())
}

fn unknown_key_text(at: &[char], key: &[char]) -> (r: String)
    ensures
        r@ == unknown_key(at@, key@),
{
    let shown = debug_quoted(string_from(key).as_str());
    let a = with_text(at, "unknown key ");
    let b = chars_of(shown.as_str());
    let m = concat_chars(a.as_slice(), b.as_slice());
    string_from(m.as_slice())
}

/// Applies a `[main]` line ([`main_entry`]).
fn apply_main(key: &[char], value: &[char], options: &mut Options, at: &[char]) -> (r: Result<
    (),
    String,
>)
    ensures
        match r {
            Ok(()) => main_entry(key@, value@, old(options)@, at@) == Ok::<OptionsView, Seq<char>>(
                final(options)@,
            ),
            Err(e) => main_entry(key@, value@, old(options)@, at@) == Err::<OptionsView, Seq<char>>(
                e@,
            ) && final(options)@ == old(options)@,
        },
{
    if same_text(key, "font") {
        let f = font_from_chars(value)?;
        options.font = Some(f);
        Ok(())
    } else if same_text(key, "prompt") {
        options.prompt = string_from(value);
        Ok(())
    } else if same_text(key, "lines") {
        match parse_usize_chars(value) {
            Ok(n) => {
                options.lines = n;
                Ok(())
            },
            Err(k) => {
                let t = int_error_text(k);
                Err(message(at, t.as_str()))
            },
        }
    } else if same_text(key, "width") {
        if float_literal(value) {
            options.width = string_from(value);
            Ok(())
        } else {
            let t = float_error_text(value);
            Err(message(at, t.as_str()))
        }
    } else {
        Err(unknown_key_text(at, key))
    }
}

/// Applies a `[colors]` line ([`color_entry`]).
fn apply_colors(key: &[char], value: &[char], options: &mut Options, at: &[char]) -> (r: Result<
    (),
    String,
>)
    ensures
        match r {
            Ok(()) => color_entry(key@, value@, old(options)@, at@) == Ok::<OptionsView, Seq<char>>(
                final(options)@,
            ),
            Err(e) => color_entry(key@, value@, old(options)@, at@) == Err::<OptionsView, Seq<char>>(
                e@,
            ) && final(options)@ == old(options)@,
        },
{
    let background = same_text(key, "background");
    let text = same_text(key, "text");
    let prompt = same_text(key, "prompt");
    let prompt_background = same_text(key, "prompt-background");
    let selection = same_text(key, "selection");
    let selection_text = same_text(key, "selection-text");
    let matched = same_text(key, "match");
    if !(background || text || prompt || prompt_background || selection || selection_text
        || matched) {
        return Err(unknown_key_text(at, key));
    }
    let c = match color_from_chars(value) {
        Ok(c) => c,
        Err(e) => {
            return Err(message(at, e.as_str()));
        },
    };
    if background {
        options.background = Some(c);
    } else if text {
        options.text_color = Some(c);
    } else if prompt {
        options.prompt_color = Some(c);
    } else if prompt_background {
        options.prompt_background = Some(c);
    } else if selection {
        options.selection_color = Some(c);
    } else if selection_text {
        options.selection_text_color = Some(c);
    } else {
        options.match_color = Some(c);
    }
    Ok(())
}

/// Reads one line ([`config_line`]).
fn read_line(
    line: &[char],
    number: usize,
    section: &mut Section,
    options: &mut Options,
    path: &[char],
) -> (r: Result<(), String>)
    ensures
        match r {
            Ok(()) => config_line(line@, number as nat, section_name(*old(section)), old(options)@, path@)
                == Ok::<(Seq<char>, OptionsView), Seq<char>>(
                (section_name(*final(section)), final(options)@),
            ),
            Err(e) => config_line(line@, number as nat, section_name(*old(section)), old(options)@, path@)
                == Err::<(Seq<char>, OptionsView), Seq<char>>(e@) && final(options)@ == old(options)@,
        },
{
    let t = trimmed(line);
    let at = location_text(path, number);
    if t.len() == 0 || t[0] == '#' || t[0] == ';' {
        return Ok(());
    }
    if t[0] == '[' && t[t.len() - 1] == ']' {
        let name = copy_range(t.as_slice(), 1, t.len() - 1);
        if same_text(name.as_slice(), "main") {
            *section = Section::Main;
            return Ok(());
        } else if same_text(name.as_slice(), "colors") {
            *section = Section::Colors;
            return Ok(());
        }
        let a = with_text(at.as_slice(), "unknown section [");
        let b = concat_chars(a.as_slice(), name.as_slice());
        let m = with_text(b.as_slice(), "]");
        return Err(string_from(m.as_slice()));
    }
    let e = find_char(t.as_slice(), '=', 0);
    if e >= t.len() {
        return Err(message(at.as_slice(), "expected key=value"));
    }
    let key = trimmed(copy_range(t.as_slice(), 0, e).as_slice());
    let value = trimmed(copy_range(t.as_slice(), e + 1, t.len()).as_slice());
    match *section {
        Section::Main => apply_main(key.as_slice(), value.as_slice(), options, at.as_slice()),
        Section::Colors => {
            proof {
                reveal_strlit("main");
                reveal_strlit("colors");
                assert("colors"@.len() != "main"@.len());
            }
            apply_colors(key.as_slice(), value.as_slice(), options, at.as_slice())
        },
        Section::Top => {
            proof {
                reveal_strlit("main");
                reveal_strlit("colors");
                assert(section_name(Section::Top) != "main"@);
                assert(section_name(Section::Top) != "colors"@);
            }
            Err(message(at.as_slice(), "key appears before a section"))
        },
    }
}

/// Reads the configuration file `contents`, found at `path`, into
/// `options`: each line in turn, up to the first line in error
/// ([`config_of`]).
pub fn parse_config(contents: &str, path: &str, options: &mut Options) -> (r: Result<(), String>)
    ensures
        final(options)@ == config_of(contents@, path@, old(options)@).0,
        match r {
            Ok(()) => config_of(contents@, path@, old(options)@).1 is None,
            Err(e) => config_of(contents@, path@, old(options)@).1 == Some(e@),
        },
{
    let text = chars_of(contents);
    let p = chars_of(path);
    let bounds = line_bounds(text.as_slice());
    let ghost ls = lines(contents@);
    let mut section = Section::Top;
    let mut k: usize = 0;
    assert(ls.len() == bounds@.len());
    while k < bounds.len()
        invariant
            text@ == contents@,
            p@ == path@,
            ls == lines(contents@),
            k <= bounds@.len() == ls.len(),
            forall|m: int|
                0 <= m < bounds@.len() ==> text@.subrange(
                    (#[trigger] bounds@[m]).0 as int,
                    bounds@[m].1 as int,
                ) == ls[m],
            forall|m: int| 0 <= m < bounds@.len() ==> (#[trigger] bounds@[m]).0 <= bounds@[m].1 <= text@.len(),
            config_of(contents@, path@, old(options)@) == config_run(
                ls,
                k as int,
                section_name(section),
                options@,
                path@,
            ),
        decreases bounds.len() - k,
    {
        let (a, b) = bounds[k];
        let line = copy_range(text.as_slice(), a, b);
        match read_line(line.as_slice(), k + 1, &mut section, options, p.as_slice()) {
            Ok(()) => {},
            Err(e) => {
                return Err(e);
            },
        }
        k = k + 1;
    }
    Ok(())
}

/// A section other than `[main]` and `[colors]` is an error.
pub proof fn lemma_unknown_section_is_error(
    line: Seq<char>,
    name: Seq<char>,
    number: nat,
    section: Seq<char>,
    o: OptionsView,
    path: Seq<char>,
)
    requires
        trim(line) == seq!['['] + name + seq![']'],
        name != "main"@,
        name != "colors"@,
    ensures
        config_line(line, number, section, o, path) is Err,
{
    let t = trim(line);
    assert(t[0] == '[');
    assert(t.last() == ']');
    assert(t.subrange(1, t.len() - 1) =~= name);
}

/// A key that its section does not know is an error, whatever its value.
pub proof fn lemma_unknown_key_is_error(
    section: Seq<char>,
    key: Seq<char>,
    value: Seq<char>,
    o: OptionsView,
    at: Seq<char>,
)
    requires
        section == "main"@ ==> key != "font"@ && key != "prompt"@ && key != "lines"@ && key
            != "width"@,
        section == "colors"@ ==> !is_color_key(key),
    ensures
        entry(section, key, value, o, at) is Err,
{
}

/// A color that the `[colors]` section sets.
pub enum ColorSlot {
    Background,
    Text,
    Prompt,
    PromptBackground,
    Selection,
    SelectionText,
    Match,
}

/// The key that names `k` in the `[colors]` section, as the documentation
/// lists them.
pub open spec fn color_key(k: ColorSlot) -> Seq<char> {
    match k {
        ColorSlot::Background => "background"@,
        ColorSlot::Text => "text"@,
        ColorSlot::Prompt => "prompt"@,
        ColorSlot::PromptBackground => "prompt-background"@,
        ColorSlot::Selection => "selection"@,
        ColorSlot::SelectionText => "selection-text"@,
        ColorSlot::Match => "match"@,
    }
}

/// The color that `o` holds for `k`.
pub open spec fn color_in(o: OptionsView, k: ColorSlot) -> Option<Color> {
    match k {
        ColorSlot::Background => o.background,
        ColorSlot::Text => o.text_color,
        ColorSlot::Prompt => o.prompt_color,
        ColorSlot::PromptBackground => o.prompt_background,
        ColorSlot::Selection => o.selection_color,
        ColorSlot::SelectionText => o.selection_text_color,
        ColorSlot::Match => o.match_color,
    }
}

proof fn lemma_key_lengths()
    ensures
        "background"@.len() == 10,
        "text"@.len() == 4,
        "prompt"@.len() == 6,
        "prompt-background"@.len() == 17,
        "selection"@.len() == 9,
        "selection-text"@.len() == 14,
        "match"@.len() == 5,
        "main"@.len() == 4,
        "colors"@.len() == 6,
        "font"@.len() == 4,
        "lines"@.len() == 5,
        "width"@.len() == 5,
{
    reveal_strlit("background");
    reveal_strlit("text");
    reveal_strlit("prompt");
    reveal_strlit("prompt-background");
    reveal_strlit("selection");
    reveal_strlit("selection-text");
    reveal_strlit("match");
    reveal_strlit("main");
    reveal_strlit("colors");
    reveal_strlit("font");
    reveal_strlit("lines");
    reveal_strlit("width");
}

/// A `[colors]` line sets the color its key names, to the color its value
/// reads as, and nothing else; a value that is no color is an error.
pub proof fn lemma_color_line_sets_its_color(
    o: OptionsView,
    k: ColorSlot,
    value: Seq<char>,
    at: Seq<char>,
)
    ensures
        color_of(value) is Err ==> entry("colors"@, color_key(k), value, o, at) is Err,
        color_of(value) is Ok ==> {
            let r = entry("colors"@, color_key(k), value, o, at);
            let p = r->Ok_0;
            &&& r is Ok
            &&& color_in(p, k) == Some(color_of(value)->Ok_0)
            &&& forall|j: ColorSlot| j != k ==> color_in(p, j) == color_in(o, j)
            &&& p.prompt == o.prompt && p.lines == o.lines && p.width == o.width
            &&& p.font == o.font && p.search == o.search && p.index == o.index && p.sort == o.sort
        },
{
    lemma_key_lengths();
}

/// A `[main]` line sets the option its key names, and nothing else:
/// `prompt` to the text, `lines` to the number, `width` to the float
/// literal, `font` to the font.
pub proof fn lemma_main_line_sets_its_option(o: OptionsView, value: Seq<char>, at: Seq<char>)
    ensures
        entry("main"@, "prompt"@, value, o, at) == Ok::<OptionsView, Seq<char>>(
            OptionsView { prompt: value, ..o },
        ),
        parse_usize(value) matches Ok(n) ==> entry("main"@, "lines"@, value, o, at) == Ok::<
            OptionsView,
            Seq<char>,
        >(OptionsView { lines: n as usize, ..o }),
        is_float_literal(value) ==> entry("main"@, "width"@, value, o, at) == Ok::<
            OptionsView,
            Seq<char>,
        >(OptionsView { width: value, ..o }),
        font_of(value) matches Ok(f) ==> entry("main"@, "font"@, value, o, at) == Ok::<
            OptionsView,
            Seq<char>,
        >(OptionsView { font: Some(f), ..o }),
{
    lemma_key_lengths();
    reveal_strlit("width");
    reveal_strlit("lines");
    assert("width"@ != "lines"@) by {
        assert("width"@[0] != "lines"@[0]);
    }
}

} // verus!
