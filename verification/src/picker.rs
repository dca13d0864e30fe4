//! The picker's state and how it answers the events of its window: typing
//! in the query, moving the selection, accepting or cancelling; and what is
//! shown in a row, printed at the end, and returned as the exit status.
use vstd::prelude::*;
use crate::config::{Options, OptionsView};
use crate::fuzzy::{count_words, filter_entries, is_filter_result, lemma_filter_result_unique, match_views, texts, word_count, Match, MatchView};
use crate::text::{chars_of, decimal, decimal_chars, string_from};
use crate::style::{utf8_size, utf8_within};

verus! {

broadcast use vstd::string::group_string_axioms;

/// What the picker ends with: the position of the chosen row among the
/// choices, or the text typed when there were no choices.
#[derive(Debug)]
pub enum Output {
    Selection(usize),
    Input(String),
}

/// The view of an [`Output`].
pub enum OutputView {
    Selection(usize),
    Input(Seq<char>),
}

impl View for Output {
    type V = OutputView;

    open spec fn view(&self) -> OutputView {
        match self {
            Output::Selection(i) => OutputView::Selection(*i),
            Output::Input(s) => OutputView::Input(s@),
        }
    }
}

/// The view of an optional output.
pub open spec fn output_view(o: Option<Output>) -> Option<OutputView> {
    match o {
        Some(o) => Some(o@),
        None => None,
    }
}

/// The number of UTF-16 code units of `c`.
pub open spec fn utf16_len(c: char) -> nat {
    if (c as u32) >= 0x10000 {
        2
    } else {
        1
    }
}

/// The number of UTF-16 code units of `s`.
pub open spec fn utf16_size(s: Seq<char>) -> nat
    decreases s.len(),
{
    if s.len() == 0 {
        0
    } else {
        utf16_size(s.drop_last()) + utf16_len(s.last())
    }
}

/// Whether a choice can be shown and matched: at most `u32::MAX` UTF-8
/// bytes, and UTF-16 offsets into it fit in a `usize`.
pub open spec fn fits(e: Seq<char>) -> bool {
    utf8_size(e) <= u32::MAX && utf16_size(e) <= usize::MAX
}

/// Whether every choice [`fits`].
pub open spec fn all_fit(es: Seq<Seq<char>>) -> bool {
    forall|i: int| 0 <= i < es.len() ==> fits(#[trigger] es[i])
}

/// Whether a query has few enough words for the matcher: at most 65537.
pub open spec fn query_fits(q: Seq<char>) -> bool {
    word_count(q) <= 65537
}

fn utf16_char_len(c: char) -> (n: usize)
    ensures
        n == utf16_len(c),
{
    if (c as u32) >= 0x10000 {
        2
    } else {
        1
    }
}

/// The number of UTF-16 code units of the characters `v`, or `None` when
/// that does not fit in a `usize`.
fn utf16_count(v: &[char]) -> (r: Option<usize>)
    ensures
        r matches Some(n) ==> n == utf16_size(v@),
        r is None ==> utf16_size(v@) > usize::MAX,
{
    let mut n: usize = 0;
    let mut i: usize = 0;
    while i < v.len()
        invariant
            i <= v.len(),
            n == utf16_size(v@.take(i as int)),
        decreases v.len() - i,
    {
        let ghost prev = v@.take(i as int);
        let l = utf16_char_len(v[i]);
        assert(v@.take(i + 1).drop_last() =~= prev);
        assert(v@.take(i + 1).last() == v@[i as int]);
        assert(utf16_size(v@.take(i + 1)) == n + l);
        if n > usize::MAX - l {
            proof {
                lemma_utf16_size_prefix(v@, i + 1);
            }
            return None;
        }
        n = n + l;
        i = i + 1;
    }
    assert(v@.take(v.len() as int) =~= v@);
    Some(n)
}

proof fn lemma_utf16_size_prefix(s: Seq<char>, k: int)
    requires
        0 <= k <= s.len(),
    ensures
        utf16_size(s.take(k)) <= utf16_size(s),
    decreases s.len() - k,
{
    if k < s.len() {
        lemma_utf16_size_prefix(s, k + 1);
        assert(s.take(k + 1).drop_last() =~= s.take(k));
    } else {
        assert(s.take(k) =~= s);
    }
}

/// Whether the choice `e` fits ([`fits`]).
pub fn entry_fits(e: &str) -> (b: bool)
    ensures
        b == fits(e@),
{
    let v = chars_of(e);
    if !utf8_within(v.as_slice(), 0xffff_ffff) {
        return false;
    }
    utf16_count(v.as_slice()).is_some()
}

/// Whether all the choices fit ([`all_fit`]).
pub fn entries_fit(entries: &[String]) -> (b: bool)
    ensures
        b == all_fit(texts(entries@)),
{
    let mut i: usize = 0;
    while i < entries.len()
        invariant
            i <= entries@.len(),
            forall|k: int| 0 <= k < i ==> fits(#[trigger] texts(entries@)[k]),
        decreases entries@.len() - i,
    {
        assert(texts(entries@)[i as int] == entries@[i as int]@);
        if !entry_fits(entries[i].as_str()) {
            return false;
        }
        i = i + 1;
    }
    true
}

/// Whether the query `q` has few enough words for the matcher
/// ([`query_fits`]).
pub fn query_is_matchable(q: &str) -> (b: bool)
    ensures
        b == query_fits(q@),
{
    let v = chars_of(q);
    count_words(v.as_slice()) <= 65537
}

/// The UTF-16 ranges `(offset, length)` of the characters of `text` whose
/// positions `indices` lists, walking the text once: a position is taken
/// when it is the next one of `indices` and the walk is at it.
pub open spec fn ranges_from(text: Seq<char>, indices: Seq<u32>, ci: int, p: int, off: int) -> Seq<
    (int, int),
>
    decreases text.len() - ci,
{
    if ci < 0 || ci >= text.len() {
        Seq::empty()
    } else {
        let l = utf16_len(text[ci]) as int;
        if 0 <= p < indices.len() && indices[p] as int == ci {
            seq![(off, l)] + ranges_from(text, indices, ci + 1, p + 1, off + l)
        } else {
            ranges_from(text, indices, ci + 1, p, off + l)
        }
    }
}

/// The UTF-16 ranges of the matched characters `indices` of `text`.
pub open spec fn match_ranges(text: Seq<char>, indices: Seq<u32>) -> Seq<(int, int)> {
    ranges_from(text, indices, 0, 0, 0)
}

/// The views of a vector of ranges.
pub open spec fn range_views(v: Seq<(usize, usize)>) -> Seq<(int, int)> {
    v.map_values(|r: (usize, usize)| (r.0 as int, r.1 as int))
}

/// The UTF-16 ranges `(offset, length)` of the characters of `text` at the
/// positions `indices` (in increasing order), for highlighting
/// ([`match_ranges`]).
pub fn utf16_ranges(text: &str, indices: &[u32]) -> (r: Vec<(usize, usize)>)
    requires
        utf16_size(text@) <= usize::MAX,
    ensures
        range_views(r@) == match_ranges(text@, indices@),
{
    let v = chars_of(text);
    let mut r: Vec<(usize, usize)> = Vec::new();
    let mut p: usize = 0;
    let mut off: usize = 0;
    let mut ci: usize = 0;
    while ci < v.len()
        invariant
            v@ == text@,
            utf16_size(text@) <= usize::MAX,
            ci <= v@.len(),
            p <= indices@.len(),
            off == utf16_size(v@.take(ci as int)),
            match_ranges(text@, indices@) == range_views(r@) + ranges_from(
                text@,
                indices@,
                ci as int,
                p as int,
                off as int,
            ),
        decreases v@.len() - ci,
    {
        let l = utf16_char_len(v[ci]);
        proof {
            assert(v@.take(ci + 1).drop_last() =~= v@.take(ci as int));
            lemma_utf16_size_prefix(v@, ci + 1);
        }
        let ghost before = r@;
        if p < indices.len() && indices[p] as usize == ci {
            r.push((off, l));
            assert(range_views(r@) =~= range_views(before) + seq![(off as int, l as int)]);
            p = p + 1;
        }
        off = off + l;
        ci = ci + 1;
    }
    assert(range_views(r@) =~= range_views(r@) + Seq::<(int, int)>::empty());
    r
}

/// The number of rows the list shows: as many as there are matches, up to
/// `limit`.
pub fn visible_rows(item_count: usize, limit: usize) -> (r: usize)
    ensures
        r == if item_count < limit {
            item_count
        } else {
            limit
        },
{
    if item_count < limit {
        item_count
    } else {
        limit
    }
}

/// The view of a [`Model`].
pub struct ModelView {
    pub options: OptionsView,
    pub entries: Seq<Seq<char>>,
    pub matches: Seq<MatchView>,
    pub selected: Option<usize>,
    pub result: Option<OutputView>,
}

/// The picker's data: its options, the choices, the matches of the
/// current query, the selected row and, once it ends, its output.
pub struct Model {
    options: Options,
    entries: Vec<String>,
    matches: Vec<Match>,
    selected: Option<usize>,
    result: Option<Output>,
}

/// Whether every match of `m`, and a chosen output, refers to one of its
/// choices.
pub open spec fn consistent(m: ModelView) -> bool {
    &&& forall|i: int| 0 <= i < m.matches.len() ==> (#[trigger] m.matches[i]).original < m.entries.len()
    &&& (m.result matches Some(OutputView::Selection(i)) ==> i < m.entries.len())
}

/// The row that a fresh list of `n` matches selects: the first one, if any.
pub open spec fn first_row(n: nat) -> Option<usize> {
    if n > 0 {
        Some(0)
    } else {
        None
    }
}

impl Model {
    /// Every match and a chosen output refer to a choice, and every choice
    /// fits.
    #[verifier::type_invariant]
    spec fn wf(self) -> bool {
        &&& forall|i: int|
            0 <= i < self.matches@.len() ==> (#[trigger] self.matches@[i]).original
                < self.entries@.len()
        &&& (self.result matches Some(Output::Selection(i)) ==> i < self.entries@.len())
        &&& all_fit(texts(self.entries@))
    }

    /// The view of the model.
    pub closed spec fn view(&self) -> ModelView {
        ModelView {
            options: self.options@,
            entries: texts(self.entries@),
            matches: match_views(self.matches@),
            selected: self.selected,
            result: output_view(self.result),
        }
    }

    /// A model over `entries`, filtered with the options' initial query,
    /// the first match selected.
    pub fn new(options: Options, entries: &[String]) -> (m: Model)
        requires
            all_fit(texts(entries@)),
            query_fits(options@.search),
        ensures
            m.view().options == options@,
            m.view().entries == texts(entries@),
            is_filter_result(m.view().matches, texts(entries@), options@.search, options@.sort),
            m.view().selected == first_row(m.view().matches.len()),
            m.view().result is None,
            consistent(m.view()),
    {
        let mut copy: Vec<String> = Vec::new();
        let mut i: usize = 0;
        while i < entries.len()
            invariant
                i <= entries@.len(),
                copy@.len() == i,
                forall|k: int| 0 <= k < i ==> (#[trigger] copy@[k])@ == entries@[k]@,
            decreases entries@.len() - i,
        {
            copy.push(entries[i].clone());
            i = i + 1;
        }
        assert(texts(copy@) =~= texts(entries@));
        proof {
            assert forall|k: int| 0 <= k < texts(entries@).len() implies utf8_size(
                #[trigger] texts(entries@)[k],
            ) <= u32::MAX by {
                assert(fits(texts(entries@)[k]));
            }
        }
        let matches = filter_entries(copy.as_slice(), options.search.as_str(), options.sort);
        let selected = if matches.len() > 0 {
            Some(0)
        } else {
            None
        };
        proof {
            assert forall|k: int| 0 <= k < matches@.len() implies (#[trigger] matches@[k]).original
                < copy@.len() by {
                assert(match_views(matches@)[k] == matches@[k]@);
            }
        }
        Model { options, entries: copy, matches, selected, result: None }
    }

    /// The options.
    pub fn options(&self) -> (r: &Options)
        ensures
            r@ == self.view().options,
    {
        &self.options
    }

    /// The number of matches, that is, of rows.
    pub fn number_of_rows(&self) -> (n: usize)
        ensures
            n == self.view().matches.len(),
    {
        self.matches.len()
    }

    /// The selected row.
    pub fn selected(&self) -> (r: Option<usize>)
        ensures
            r == self.view().selected,
    {
        self.selected
    }

    /// Hands out the output, leaving none.
    pub fn take_result(&mut self) -> (r: Option<Output>)
        ensures
            output_view(r) == old(self).view().result,
            final(self).view() == (ModelView { result: None, ..old(self).view() }),
    {
        proof {
            use_type_invariant(&*self);
        }
        let mut r: Option<Output> = None;
        std::mem::swap(&mut r, &mut self.result);
        r
    }
}

/// The row a selection moves to: `delta` rows on from the selected one
/// (the first when none is), wrapping around the `n` rows.
pub open spec fn moved(selected: Option<usize>, delta: int, n: nat) -> int {
    let current: int = match selected {
        Some(s) => s as int,
        None => 0,
    };
    (current + delta) % (n as int)
}

proof fn lemma_moved_bounds(selected: Option<usize>, delta: int, n: nat)
    requires
        n > 0,
    ensures
        0 <= moved(selected, delta, n) < n,
{
    let current: int = match selected {
        Some(s) => s as int,
        None => 0,
    };
    vstd::arithmetic::div_mod::lemma_mod_bound(current + delta, n as int);
}

/// Moving the selection by `delta` rows and then by `-delta` rows comes
/// back to the row it started from.
pub proof fn lemma_move_back(s: usize, delta: int, n: nat)
    requires
        s < n <= usize::MAX,
    ensures
        moved(Some(moved(Some(s), delta, n) as usize), -delta, n) == s,
{
    let t = moved(Some(s), delta, n);
    lemma_moved_bounds(Some(s), delta, n);
    vstd::arithmetic::div_mod::lemma_fundamental_div_mod(s + delta, n as int);
    let q = (s + delta) / (n as int);
    assert(t - delta == (-q) * (n as int) + s) by (nonlinear_arith)
        requires
            s + delta == (n as int) * q + t,
    ;
    vstd::arithmetic::div_mod::lemma_fundamental_div_mod_converse_mod(t - delta, n as int, -q, s as int);
}

/// The selection wraps around: one row down from the last row is the
/// first, one row up from the first is the last.
pub proof fn lemma_move_wraps(n: nat)
    requires
        0 < n <= usize::MAX,
    ensures
        moved(Some((n - 1) as usize), 1, n) == 0,
        moved(Some(0usize), -1, n) == n - 1,
{
    vstd::arithmetic::div_mod::lemma_fundamental_div_mod_converse_mod(n as int, n as int, 1, 0);
    vstd::arithmetic::div_mod::lemma_fundamental_div_mod_converse_mod(-1, n as int, -1, n - 1);
}

/// The output that accepting gives: the chosen row's choice, else, when
/// there are no choices at all, the typed text, else nothing.
pub open spec fn accepted(m: ModelView, field_text: Seq<char>) -> Option<OutputView> {
    match m.selected {
        Some(row) if row < m.matches.len() => Some(OutputView::Selection(m.matches[row as int].original)),
        _ => if m.entries.len() == 0 {
            Some(OutputView::Input(field_text))
        } else {
            None
        },
    }
}

/// Filtering anew with a query gives the same matches and selection
/// whatever came before on the same choices and options: the selection
/// moves made earlier and an earlier filtering with the same query change
/// nothing.
pub proof fn lemma_update_query_repeatable(a: ModelView, b: ModelView, query: Seq<char>)
    requires
        a.entries == b.entries,
        a.options.sort == b.options.sort,
        is_filter_result(a.matches, a.entries, query, a.options.sort),
        is_filter_result(b.matches, b.entries, query, b.options.sort),
        a.selected == first_row(a.matches.len()),
        b.selected == first_row(b.matches.len()),
    ensures
        a.matches == b.matches,
        a.selected == b.selected,
{
    lemma_filter_result_unique(a.matches, b.matches, a.entries, query, a.options.sort);
}

/// Without choices the picker is a prompt: accepting gives the typed text.
pub proof fn lemma_prompt_without_choices(m: ModelView, field_text: Seq<char>)
    requires
        m.entries.len() == 0,
        consistent(m),
    ensures
        accepted(m, field_text) == Some(OutputView::Input(field_text)),
{
    if m.matches.len() > 0 {
        assert(m.matches[0].original < m.entries.len());
    }
}

/// A command of the query field.
#[derive(Clone, Copy, Debug, PartialEq, Eq, Structural)]
pub enum Command {
    MoveUp,
    MoveDown,
    PageUp,
    PageDown,
    InsertNewline,
    CancelOperation,
}

/// What the window must do after an event.
#[derive(Clone, Copy, Debug, PartialEq, Eq, Structural)]
pub enum Effect {
    /// Nothing.
    Nothing,
    /// Show the list again.
    Refresh,
    /// Close the window and stop the application.
    Stop,
}

/// A color of the theme.
#[derive(Clone, Copy, Debug, PartialEq, Eq, Structural)]
pub enum Swatch {
    Text,
    SelectionText,
    Match,
    Selection,
}

/// What a row of the list shows: the choice's text in the base color, its
/// matched characters (UTF-16 ranges) in the highlight color, and a filled
/// background when the row is selected.
#[derive(Debug)]
pub struct RowView {
    pub text: String,
    pub selected: bool,
    pub base: Swatch,
    pub highlight: Swatch,
    pub utf16_len: usize,
    pub ranges: Vec<(usize, usize)>,
}

/// The picker's window logic: the model and whether it has ended.
pub struct Delegate {
    model: Model,
    finished: bool,
}

impl Delegate {
    /// The view of the model.
    pub closed spec fn model(&self) -> ModelView {
        self.model.view()
    }

    /// Whether the picker has ended.
    pub closed spec fn is_finished(&self) -> bool {
        self.finished
    }

    /// A picker over `model`, not ended.
    pub fn new(model: Model) -> (d: Delegate)
        ensures
            d.model() == model.view(),
            !d.is_finished(),
            consistent(d.model()),
    {
        proof {
            use_type_invariant(&model);
            assert forall|i: int| 0 <= i < model.view().matches.len() implies (
            #[trigger] model.view().matches[i]).original < model.view().entries.len() by {
                assert(model.view().matches[i] == model.matches@[i]@);
            }
        }
        Delegate { model, finished: false }
    }

    /// The model.
    pub fn model_ref(&self) -> (r: &Model)
        ensures
            r.view() == self.model(),
    {
        &self.model
    }

    /// Filters the choices anew for the query `query`, selecting the first
    /// match.
    pub fn update_query(&mut self, query: &str)
        requires
            query_fits(query@),
        ensures
            is_filter_result(
                final(self).model().matches,
                old(self).model().entries,
                query@,
                old(self).model().options.sort,
            ),
            final(self).model().selected == first_row(final(self).model().matches.len()),
            final(self).model() == (ModelView {
                matches: final(self).model().matches,
                selected: final(self).model().selected,
                ..old(self).model()
            }),
            final(self).is_finished() == old(self).is_finished(),
    {
        proof {
            use_type_invariant(&self.model);
            assert forall|k: int| 0 <= k < texts(self.model.entries@).len() implies utf8_size(
                #[trigger] texts(self.model.entries@)[k],
            ) <= u32::MAX by {
                assert(fits(texts(self.model.entries@)[k]));
            }
        }
        let matches = filter_entries(
            self.model.entries.as_slice(),
            query,
            self.model.options.sort,
        );
        proof {
            assert forall|k: int| 0 <= k < matches@.len() implies (#[trigger] matches@[k]).original
                < self.model.entries@.len() by {
                assert(match_views(matches@)[k] == matches@[k]@);
            }
        }
        let selected = if matches.len() > 0 {
            Some(0)
        } else {
            None
        };
        self.model.selected = None;
        self.model.matches = matches;
        self.model.selected = selected;
    }

    /// Moves the selection `delta` rows, wrapping around ([`moved`]);
    /// without matches nothing changes and `false` is returned.
    pub fn move_selection(&mut self, delta: isize) -> (moved_to: bool)
        ensures
            moved_to == (old(self).model().matches.len() > 0),
            moved_to ==> final(self).model().selected == Some(
                moved(old(self).model().selected, delta as int, old(self).model().matches.len())
                    as usize,
            ),
            moved_to ==> 0 <= moved(
                old(self).model().selected,
                delta as int,
                old(self).model().matches.len(),
            ) < old(self).model().matches.len(),
            moved_to ==> final(self).model() == (ModelView {
                selected: final(self).model().selected,
                ..old(self).model()
            }),
            !moved_to ==> final(self).model() == old(self).model(),
            final(self).is_finished() == old(self).is_finished(),
    {
        proof {
            use_type_invariant(&self.model);
        }
        let len = self.model.matches.len();
        if len == 0 {
            return false;
        }
        let current: usize = match self.model.selected {
            Some(s) => s,
            None => 0,
        };
        let next = wrap(current as i128 + delta as i128, len);
        self.model.selected = Some(next);
        true
    }

    /// Ends the picker with `result`, the first time only: `true` when the
    /// window must now close.
    pub fn finish(&mut self, result: Option<Output>) -> (stop: bool)
        requires
            output_view(result) matches Some(OutputView::Selection(i)) ==> i < old(
                self,
            ).model().entries.len(),
        ensures
            stop == !old(self).is_finished(),
            final(self).is_finished(),
            stop ==> final(self).model() == (ModelView { result: output_view(result), ..old(self).model() }),
            !stop ==> final(self).model() == old(self).model(),
    {
        proof {
            use_type_invariant(&self.model);
        }
        if self.finished {
            return false;
        }
        self.finished = true;
        self.model.result = result;
        true
    }

    /// Accepts: ends the picker with the chosen row's choice, or, when
    /// there are no choices, with `field_text`, the query field's text
    /// ([`accepted`]); with matches but none selected nothing happens.
    /// `true` when the window must now close.
    pub fn accept(&mut self, field_text: &str) -> (stop: bool)
        ensures
            stop == (accepted(old(self).model(), field_text@) is Some && !old(self).is_finished()),
            stop ==> final(self).model() == (ModelView {
                result: accepted(old(self).model(), field_text@),
                ..old(self).model()
            }),
            !stop ==> final(self).model() == old(self).model(),
            final(self).is_finished() == (old(self).is_finished() || accepted(
                old(self).model(),
                field_text@,
            ) is Some),
            consistent(old(self).model()),
    {
        proof {
            use_type_invariant(&self.model);
            assert forall|i: int| 0 <= i < self.model().matches.len() implies (
            #[trigger] self.model().matches[i]).original < self.model().entries.len() by {
                assert(self.model().matches[i] == self.model.matches@[i]@);
            }
        }
        let selection = match self.model.selected {
            Some(row) => if row < self.model.matches.len() {
                Some(self.model.matches[row].original)
            } else {
                None
            },
            None => None,
        };
        let result = match selection {
            Some(i) => Some(Output::Selection(i)),
            None => if self.model.entries.len() == 0 {
                Some(Output::Input(string_from(chars_of(field_text).as_slice())))
            } else {
                None
            },
        };
        match result {
            Some(o) => self.finish(Some(o)),
            None => false,
        }
    }

    /// Selects row `row` as the table reports it (none when negative):
    /// `true` when the selection changed.
    pub fn select_row(&mut self, row: isize) -> (changed: bool)
        ensures
            final(self).model().selected == (if row >= 0 {
                Some(row as usize)
            } else {
                None
            }),
            changed == (final(self).model().selected != old(self).model().selected),
            final(self).model() == (ModelView {
                selected: final(self).model().selected,
                ..old(self).model()
            }),
            final(self).is_finished() == old(self).is_finished(),
    {
        proof {
            use_type_invariant(&self.model);
        }
        let selected = if row >= 0 {
            Some(row as usize)
        } else {
            None
        };
        let changed = match (selected, self.model.selected) {
            (Some(a), Some(b)) => a != b,
            (None, None) => false,
            _ => true,
        };
        self.model.selected = selected;
        changed
    }

    /// Answers a command of the query field: moves by one row or by a page
    /// of `lines` rows, accepts, or cancels.
    pub fn command(&mut self, command: Command, field_text: &str) -> (e: Effect)
        requires
            old(self).model().options.lines <= isize::MAX,
        ensures
            match command {
                Command::MoveUp | Command::MoveDown | Command::PageUp | Command::PageDown => {
                    let delta: int = match command {
                        Command::MoveUp => -1,
                        Command::MoveDown => 1,
                        Command::PageUp => -(old(self).model().options.lines as int),
                        _ => old(self).model().options.lines as int,
                    };
                    &&& e == (if old(self).model().matches.len() > 0 {
                        Effect::Refresh
                    } else {
                        Effect::Nothing
                    })
                    &&& old(self).model().matches.len() > 0 ==> final(self).model().selected
                        == Some(
                        moved(old(self).model().selected, delta, old(self).model().matches.len())
                            as usize,
                    )
                    &&& old(self).model().matches.len() == 0 ==> final(self).model() == old(
                        self,
                    ).model()
                    &&& final(self).model() == (ModelView {
                        selected: final(self).model().selected,
                        ..old(self).model()
                    })
                    &&& final(self).is_finished() == old(self).is_finished()
                },
                Command::InsertNewline => {
                    &&& e == (if accepted(old(self).model(), field_text@) is Some
                        && !old(self).is_finished() {
                        Effect::Stop
                    } else {
                        Effect::Nothing
                    })
                    &&& final(self).model() == (if accepted(old(self).model(), field_text@) is Some
                        && !old(self).is_finished() {
                        ModelView { result: accepted(old(self).model(), field_text@), ..old(self).model() }
                    } else {
                        old(self).model()
                    })
                    &&& final(self).is_finished() == (old(self).is_finished() || accepted(
                        old(self).model(),
                        field_text@,
                    ) is Some)
                },
                Command::CancelOperation => {
                    &&& e == (if !old(self).is_finished() {
                        Effect::Stop
                    } else {
                        Effect::Nothing
                    })
                    &&& final(self).model() == (if !old(self).is_finished() {
                        ModelView { result: None, ..old(self).model() }
                    } else {
                        old(self).model()
                    })
                    &&& final(self).is_finished()
                },
            },
            consistent(old(self).model()),
    {
        proof {
            use_type_invariant(&self.model);
            assert forall|i: int| 0 <= i < self.model().matches.len() implies (
            #[trigger] self.model().matches[i]).original < self.model().entries.len() by {
                assert(self.model().matches[i] == self.model.matches@[i]@);
            }
        }
        let page = self.model.options.lines as isize;
        let moved_to = match command {
            Command::MoveUp => self.move_selection(-1),
            Command::MoveDown => self.move_selection(1),
            Command::PageUp => self.move_selection(-page),
            Command::PageDown => self.move_selection(page),
            Command::InsertNewline => {
                return if self.accept(field_text) {
                    Effect::Stop
                } else {
                    Effect::Nothing
                };
            },
            Command::CancelOperation => {
                return if self.finish(None) {
                    Effect::Stop
                } else {
                    Effect::Nothing
                };
            },
        };
        if moved_to {
            Effect::Refresh
        } else {
            Effect::Nothing
        }
    }

    /// Hands out the output, leaving none.
    pub fn take_result(&mut self) -> (r: Option<Output>)
        ensures
            output_view(r) == old(self).model().result,
            final(self).model() == (ModelView { result: None, ..old(self).model() }),
            final(self).is_finished() == old(self).is_finished(),
    {
        self.model.take_result()
    }

    /// What row `row` shows, if there is such a row.
    pub fn row(&self, row: usize) -> (r: Option<RowView>)
        ensures
            r is Some <==> row < self.model().matches.len(),
            r matches Some(v) ==> {
                let m = self.model().matches[row as int];
                let sel = self.model().selected == Some(row);
                &&& v.text@ == self.model().entries[m.original as int]
                &&& v.selected == sel
                &&& v.base == (if sel {
                    Swatch::SelectionText
                } else {
                    Swatch::Text
                })
                &&& v.highlight == (if sel {
                    Swatch::SelectionText
                } else {
                    Swatch::Match
                })
                &&& v.utf16_len == utf16_size(v.text@)
                &&& range_views(v.ranges@) == match_ranges(v.text@, m.indices)
            },
    {
        proof {
            use_type_invariant(&self.model);
        }
        if row >= self.model.matches.len() {
            return None;
        }
        let m = &self.model.matches[row];
        assert(m@ == self.model().matches[row as int]);
        let text = &self.model.entries[m.original];
        assert(text@ == self.model().entries[m.original as int]);
        assert(fits(texts(self.model.entries@)[m.original as int]));
        let selected = match self.model.selected {
            Some(s) => s == row,
            None => false,
        };
        let chars = chars_of(text.as_str());
        let units = match utf16_count(chars.as_slice()) {
            Some(n) => n,
            None => 0,
        };
        let ranges = utf16_ranges(text.as_str(), m.indices.as_slice());
        Some(
            RowView {
                text: text.clone(),
                selected,
                base: if selected {
                    Swatch::SelectionText
                } else {
                    Swatch::Text
                },
                highlight: if selected {
                    Swatch::SelectionText
                } else {
                    Swatch::Match
                },
                utf16_len: units,
                ranges,
            },
        )
    }
}

/// `x` modulo `n` (the remainder taken between `0` and `n`).
fn wrap(x: i128, n: usize) -> (r: usize)
    requires
        n > 0,
        x > i128::MIN,
    ensures
        r as int == (x as int) % (n as int),
        r < n,
{
    let m = n as u128;
    if x >= 0 {
        let r = (x as u128) % m;
        r as usize
    } else {
        let y = (-x) as u128;
        let k = y % m;
        proof {
            vstd::arithmetic::div_mod::lemma_fundamental_div_mod(y as int, n as int);
            let q = (y as int) / (n as int);
            if k == 0 {
                assert(x as int == (-q) * (n as int) + 0) by (nonlinear_arith)
                    requires
                        y as int == q * (n as int) + (k as int),
                        x as int == -(y as int),
                        k == 0,
                ;
                vstd::arithmetic::div_mod::lemma_fundamental_div_mod_converse_mod(
                    x as int,
                    n as int,
                    -q,
                    0,
                );
            } else {
                assert(x as int == (-q - 1) * (n as int) + (n - k)) by (nonlinear_arith)
                    requires
                        y as int == q * (n as int) + (k as int),
                        x as int == -(y as int),
                ;
                vstd::arithmetic::div_mod::lemma_fundamental_div_mod_converse_mod(
                    x as int,
                    n as int,
                    -q - 1,
                    n - k,
                );
            }
        }
        if k == 0 {
            0
        } else {
            (m - k) as usize
        }
    }
}

/// The line printed for `output`: the chosen row's position when `index`
/// is on, else its choice, or the typed text; ended by a newline.
pub open spec fn output_text(output: OutputView, entries: Seq<Seq<char>>, index: bool) -> Seq<char> {
    match output {
        OutputView::Selection(i) => if index {
            decimal(i as nat).push('\n')
        } else {
            entries[i as int].push('\n')
        },
        OutputView::Input(s) => s.push('\n'),
    }
}

/// Every printed line ends with a newline.
pub proof fn lemma_output_ends_with_newline(output: OutputView, entries: Seq<Seq<char>>, index: bool)
    ensures
        output_text(output, entries, index).len() > 0,
        output_text(output, entries, index).last() == '\n',
{
}

/// The line to print for `output` ([`output_text`]).
pub fn output_line(output: &Output, entries: &[String], index: bool) -> (r: String)
    requires
        output@ matches OutputView::Selection(i) ==> i < entries@.len(),
    ensures
        r@ == output_text(output@, texts(entries@), index),
{
    let mut v = match output {
        Output::Selection(i) => if index {
            decimal_chars(*i)
        } else {
            assert(texts(entries@)[*i as int] == entries@[*i as int]@);
            chars_of(entries[*i].as_str())
        },
        Output::Input(s) => chars_of(s.as_str()),
    };
    v.push('\n');
    string_from(v.as_slice())
}

/// Checks that `--index` comes with choices: printing a position needs
/// rows to choose from.
pub fn check_index(options: &Options, entries: &[String]) -> (r: Result<(), String>)
    ensures
        r is Err <==> (options@.index && entries@.len() == 0),
        r matches Err(e) ==> e@ == "--index requires choices from stdin"@,
{
    if entries.len() == 0 && options.index {
        return Err(String::from_str("--index requires choices from stdin"));
    }
    Ok(())
}

/// How a run of the program ended.
#[derive(Clone, Copy, Debug, PartialEq, Eq, Structural)]
pub enum RunEnd {
    /// A selection or a submitted prompt was printed, or the help or the
    /// version.
    Printed,
    /// The picker was cancelled.
    Cancelled,
    /// The arguments, the configuration or the input were invalid.
    Failed,
}

/// The exit status: 0 after printing, 1 on cancellation, 2 on an error.
pub fn exit_status(end: RunEnd) -> (code: u8)
    ensures
        code == match end {
            RunEnd::Printed => 0u8,
            RunEnd::Cancelled => 1u8,
            RunEnd::Failed => 2u8,
        },
{
    match end {
        RunEnd::Printed => 0,
        RunEnd::Cancelled => 1,
        RunEnd::Failed => 2,
    }
}

} // verus!
