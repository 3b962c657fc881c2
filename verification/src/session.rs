//! Paging through the rows, twenty-five at a time, with sorting and
//! reversing on the way.
//!
//! A session keeps a working copy of the rows it was opened on. The caller
//! shows the page that the session points at, reads a line, and hands the
//! line over; the session says what the line meant and moves on.

use crate::datastore::{rows_view, DataRow, RowView};
use crate::logic::{
    column_key, lemma_row_order, lemma_sorted_rows, read_column_key, row_order, sort_rows,
    sorted_rows, ColumnKey, Config, Lang,
};
use crate::order::{
    indifferent, lemma_refined_preorder, lemma_sort_indifferent, lemma_sort_twice,
    lemma_stable_sorted, refined, stable_sort_of, stable_sorted, total_preorder,
};
use crate::text::{chars_of, split, split_chars, string_of, trim_chars, trimmed, views_of};
use vstd::prelude::*;

verus! {

/// The number of rows on a full page.
pub const PAGE_SIZE: usize = 25;

/// What a session waits for.
#[derive(Clone, Copy, Debug, PartialEq, Eq, Structural)]
pub enum Phase {
    /// A page is due: the caller shows it and hands over the command read.
    Paging,
    /// A sort was asked for: the caller hands over the list of columns.
    AwaitingSortInput,
    /// The session is over.
    Terminated,
}

/// What a line read after a page asks for.
#[derive(Clone, Copy, Debug, PartialEq, Eq, Structural)]
pub enum Command {
    Quit,
    Next,
    Sort,
    Reverse,
}

/// The state of paging through a set of rows.
pub struct Session<'a> {
    /// The rows the session was opened on; every sort starts from them.
    pub canonical: &'a Vec<DataRow>,
    /// The rows in the order in which they are shown.
    pub working: Vec<DataRow>,
    /// The number of the page that is due, counting from zero.
    pub cursor: usize,
    /// The column named by the last token that a sort looked at, if it named
    /// one.
    pub last_key: Option<ColumnKey>,
    /// Whether the working rows were last put in descending order.
    pub reversed: bool,
    pub phase: Phase,
}

/// What a line read after a page asks for: `q`, `s` or `r`, in either case
/// and with any white space around it, to quit, sort or reverse; anything
/// else for the next page.
pub open spec fn command_of(input: Seq<char>) -> Command {
    let t = trimmed(input);
    if t == seq!['q'] || t == seq!['Q'] {
        Command::Quit
    } else if t == seq!['s'] || t == seq!['S'] {
        Command::Sort
    } else if t == seq!['r'] || t == seq!['R'] {
        Command::Reverse
    } else {
        Command::Next
    }
}

/// Whether `total` rows have a page of number `cursor`.
pub open spec fn has_page(cursor: int, total: int) -> bool {
    25 * cursor < total
}

/// The index of the first row of page `cursor`.
pub open spec fn page_start(cursor: int) -> int {
    25 * cursor
}

/// The index after the last row of page `cursor` of `total` rows.
pub open spec fn page_end(cursor: int, total: int) -> int {
    if 25 * (cursor + 1) < total {
        25 * (cursor + 1)
    } else {
        total
    }
}

/// The number of pages that `total` rows take.
pub open spec fn page_count(total: int) -> int {
    (total + 24) / 25
}

/// The column that a reversal orders by: the last one a sort named, or the
/// date.
pub open spec fn key_or_date(key: Option<ColumnKey>) -> ColumnKey {
    match key {
        Some(k) => k,
        None => ColumnKey::Date,
    }
}

/// The tokens of a list of sort columns: the pieces between commas, without
/// the white space around them.
pub open spec fn key_tokens(input: Seq<char>) -> Seq<Seq<char>> {
    split(input, ',').map_values(|t: Seq<char>| trimmed(t))
}

/// The rows after sorting by each listed column in turn, from the last
/// listed to the first, so that the first listed counts most. A token that
/// names no column changes nothing.
pub open spec fn cascade(rows: Seq<RowView>, tokens: Seq<Seq<char>>, lang: Lang) -> Seq<RowView>
    decreases tokens.len(),
{
    if tokens.len() == 0 {
        rows
    } else {
        let after = cascade(rows, tokens.drop_first(), lang);
        match column_key(tokens[0]) {
            Some(key) => sorted_rows(after, key, lang, false),
            None => after,
        }
    }
}

/// The page that is due after the listed columns were gone through, from the
/// last listed to the first: a column that is sorted by leads back to the
/// first page, a token that names none leads one page back.
pub open spec fn cascade_cursor(cursor: int, tokens: Seq<Seq<char>>) -> int
    decreases tokens.len(),
{
    if tokens.len() == 0 {
        cursor
    } else {
        let after = cascade_cursor(cursor, tokens.drop_first());
        if column_key(tokens[0]) is Some {
            0
        } else if after > 0 {
            after - 1
        } else {
            0
        }
    }
}

/// The number of tokens that name no column.
pub open spec fn refused_tokens(tokens: Seq<Seq<char>>) -> int
    decreases tokens.len(),
{
    if tokens.len() == 0 {
        0
    } else {
        refused_tokens(tokens.drop_first()) + if column_key(tokens[0]) is Some {
            0int
        } else {
            1int
        }
    }
}

/// The order by the listed columns together: by the first listed, among rows
/// that it ranks alike by the second, and so on. A token that names no column
/// does not count.
pub open spec fn cascade_order(tokens: Seq<Seq<char>>, lang: Lang) -> spec_fn(
    RowView,
    RowView,
) -> bool
    decreases tokens.len(),
{
    if tokens.len() == 0 {
        indifferent::<RowView>()
    } else {
        let rest = cascade_order(tokens.drop_first(), lang);
        match column_key(tokens[0]) {
            Some(key) => refined(row_order(key, lang), rest),
            None => rest,
        }
    }
}

/// Sorting by each listed column in turn, from the last listed to the first,
/// gives what one stable sort by all the listed columns together gives, the
/// first listed counting most.
pub proof fn lemma_cascade_is_one_sort(rows: Seq<RowView>, tokens: Seq<Seq<char>>, lang: Lang)
    ensures
        total_preorder(cascade_order(tokens, lang)),
        cascade(rows, tokens, lang) == stable_sorted(rows, cascade_order(tokens, lang)),
    decreases tokens.len(),
{
    if tokens.len() == 0 {
        lemma_sort_indifferent(rows);
    } else {
        let rest = cascade_order(tokens.drop_first(), lang);
        let after = cascade(rows, tokens.drop_first(), lang);
        lemma_cascade_is_one_sort(rows, tokens.drop_first(), lang);
        match column_key(tokens[0]) {
            Some(key) => {
                let le = row_order(key, lang);
                lemma_row_order(key, lang);
                lemma_refined_preorder(le, rest);
                lemma_stable_sorted(rows, rest);
                lemma_stable_sorted(after, le);
                lemma_sort_twice(rows, after, stable_sorted(after, le), le, rest);
                lemma_stable_sorted(rows, refined(le, rest));
                assert(stable_sort_of(stable_sorted(after, le), rows, refined(le, rest)));
            },
            None => {},
        }
    }
}

/// What a session holds, as mathematical values.
pub struct SessionView {
    pub canonical: Seq<RowView>,
    pub working: Seq<RowView>,
    pub cursor: nat,
    pub last_key: Option<ColumnKey>,
    pub reversed: bool,
    pub phase: Phase,
}

impl<'a> View for Session<'a> {
    type V = SessionView;

    open spec fn view(&self) -> SessionView {
        SessionView {
            canonical: rows_view(self.canonical@),
            working: rows_view(self.working@),
            cursor: self.cursor as nat,
            last_key: self.last_key,
            reversed: self.reversed,
            phase: self.phase,
        }
    }
}

/// The phase in which paging rests at page `cursor` of `total` rows: paging
/// where there is such a page, else over.
pub open spec fn resting_phase(cursor: int, total: int) -> Phase {
    if has_page(cursor, total) {
        Phase::Paging
    } else {
        Phase::Terminated
    }
}

/// Whether a session is valid: the working rows are the canonical rows in
/// some order, the cursor is at most one page past the rows, and while
/// paging a page is due.
pub open spec fn valid(s: SessionView) -> bool {
    &&& s.working.to_multiset() == s.canonical.to_multiset()
    &&& s.working.len() == s.canonical.len()
    &&& 25 * s.cursor < s.working.len() + 25
    &&& s.phase == Phase::Paging ==> has_page(s.cursor as int, s.working.len() as int)
}

/// A session just opened on the rows given: a working copy in their order,
/// the first page due, nothing sorted or reversed yet. With no rows there is
/// nothing to page through.
pub open spec fn opened(rows: Seq<RowView>) -> SessionView {
    SessionView {
        canonical: rows,
        working: rows,
        cursor: 0,
        last_key: None,
        reversed: false,
        phase: resting_phase(0, rows.len() as int),
    }
}

/// The session after the line read behind a page. The cursor moves to the
/// following page; then quitting ends the session, sorting makes it wait for
/// the list of columns, reversing turns the working rows round by the last
/// sort column and leads back to the first page, and anything else goes on to
/// the following page, or ends the session after the last.
pub open spec fn after_command(s: SessionView, input: Seq<char>, lang: Lang) -> SessionView {
    match command_of(input) {
        Command::Quit => SessionView { cursor: s.cursor + 1, phase: Phase::Terminated, ..s },
        Command::Sort => SessionView {
            cursor: s.cursor + 1,
            phase: Phase::AwaitingSortInput,
            ..s
        },
        Command::Next => SessionView {
            cursor: s.cursor + 1,
            phase: resting_phase(s.cursor as int + 1, s.working.len() as int),
            ..s
        },
        Command::Reverse => SessionView {
            working: sorted_rows(s.working, key_or_date(s.last_key), lang, !s.reversed),
            cursor: 0,
            reversed: !s.reversed,
            phase: Phase::Paging,
            ..s
        },
    }
}

/// The session after the list of sort columns that it waited for. The
/// working rows become the canonical rows sorted by each listed column in
/// turn, from the last listed to the first; nothing counts as reversed any
/// more; the last column looked at is the first listed; and paging goes on at
/// the page that the list leads to.
pub open spec fn after_sort_keys(s: SessionView, input: Seq<char>, lang: Lang) -> SessionView {
    let tokens = key_tokens(input);
    let cursor = cascade_cursor(s.cursor as int, tokens);
    SessionView {
        canonical: s.canonical,
        working: cascade(s.canonical, tokens, lang),
        cursor: cursor as nat,
        last_key: column_key(tokens[0]),
        reversed: false,
        phase: resting_phase(cursor, s.canonical.len() as int),
    }
}

/// Going through a list of sort columns rearranges the rows, and leads to a
/// page no further on than the one that was due.
pub proof fn lemma_cascade_keeps(rows: Seq<RowView>, tokens: Seq<Seq<char>>, lang: Lang, cursor: int)
    requires
        0 <= cursor,
    ensures
        cascade(rows, tokens, lang).to_multiset() == rows.to_multiset(),
        cascade(rows, tokens, lang).len() == rows.len(),
        0 <= cascade_cursor(cursor, tokens) <= cursor,
    decreases tokens.len(),
{
    if tokens.len() > 0 {
        lemma_cascade_keeps(rows, tokens.drop_first(), lang, cursor);
        match column_key(tokens[0]) {
            Some(key) => {
                lemma_sorted_rows(cascade(rows, tokens.drop_first(), lang), key, lang, false);
            },
            None => {},
        }
    }
}

/// A valid session stays valid whatever line it is handed while paging.
pub proof fn lemma_valid_after_command(s: SessionView, input: Seq<char>, lang: Lang)
    requires
        valid(s),
        s.phase == Phase::Paging,
    ensures
        valid(after_command(s, input, lang)),
{
    lemma_sorted_rows(s.working, key_or_date(s.last_key), lang, !s.reversed);
}

/// A valid session stays valid whatever list of sort columns it is handed.
pub proof fn lemma_valid_after_sort_keys(s: SessionView, input: Seq<char>, lang: Lang)
    requires
        valid(s),
    ensures
        valid(after_sort_keys(s, input, lang)),
{
    lemma_cascade_keeps(s.canonical, key_tokens(input), lang, s.cursor as int);
}

/// In a session that is not reversed, reversing twice in a row leaves the
/// working rows in their ascending sort by the last sort column, not
/// reversed, at the first page.
pub proof fn lemma_reversing_twice(s: SessionView, first: Seq<char>, second: Seq<char>, lang: Lang)
    requires
        !s.reversed,
        command_of(first) == Command::Reverse,
        command_of(second) == Command::Reverse,
    ensures
        after_command(after_command(s, first, lang), second, lang) == (SessionView {
            working: sorted_rows(s.working, key_or_date(s.last_key), lang, false),
            cursor: 0,
            phase: Phase::Paging,
            ..s
        }),
{
    let key = key_or_date(s.last_key);
    let down = sorted_rows(s.working, key, lang, true);
    let up = sorted_rows(down, key, lang, false);
    let ascending = sorted_rows(s.working, key, lang, false);
    lemma_sorted_rows(s.working, key, lang, true);
    lemma_sorted_rows(down, key, lang, false);
    lemma_sorted_rows(s.working, key, lang, false);
    crate::logic::lemma_reverse_twice(s.working, down, up, ascending, key, lang);
}

/// Pages follow one another without gap or overlap, none is empty or longer
/// than twenty-five rows, and together they hold every row: the pages of
/// `total` rows are those numbered below `page_count(total)`.
pub proof fn lemma_pages_cover(total: int, cursor: int)
    requires
        0 <= total,
        0 <= cursor,
    ensures
        has_page(cursor, total) <==> cursor < page_count(total),
        has_page(cursor, total) ==> page_start(cursor) < page_end(cursor, total) <= total,
        has_page(cursor, total) ==> page_end(cursor, total) - page_start(cursor) <= 25,
        has_page(cursor + 1, total) ==> page_end(cursor, total) == page_start(cursor + 1),
        has_page(cursor, total) && !has_page(cursor + 1, total) ==> page_end(cursor, total)
            == total,
        page_start(0) == 0,
{
}

/// Reads the command in a line.
pub fn read_command(input: &str) -> (c: Command)
    ensures
        c == command_of(input@),
{
    let t = trim_chars(&chars_of(input));
    if t.len() != 1 {
        assert(t@.len() != seq!['q'].len());
        return Command::Next;
    }
    let c = t[0];
    assert(t@ =~= seq![c]);
    if c == 'q' || c == 'Q' {
        Command::Quit
    } else if c == 's' || c == 'S' {
        Command::Sort
    } else if c == 'r' || c == 'R' {
        Command::Reverse
    } else {
        assert(seq![c][0] == c);
        Command::Next
    }
}

/// Copies of the rows, in order.
pub fn clone_rows(rows: &Vec<DataRow>) -> (out: Vec<DataRow>)
    ensures
        rows_view(out@) == rows_view(rows@),
{
    let mut out: Vec<DataRow> = Vec::new();
    let mut i: usize = 0;
    while i < rows.len()
        invariant
            i <= rows.len(),
            rows_view(out@) == rows_view(rows@).take(i as int),
        decreases rows.len() - i,
    {
        let ghost before = out@;
        out.push(rows[i].clone());
        assert(rows_view(out@) =~= rows_view(before).push(rows@[i as int]@));
        assert(rows_view(rows@).take(i + 1) =~= rows_view(rows@).take(i as int).push(
            rows@[i as int]@,
        ));
        i += 1;
    }
    assert(rows_view(rows@).take(rows.len() as int) =~= rows_view(rows@));
    out
}

impl<'a> Session<'a> {
    /// A session on the rows given.
    pub fn new(data: &'a Vec<DataRow>) -> (s: Session<'a>)
        ensures
            s@ == opened(rows_view(data@)),
            valid(s@),
            s.canonical == data,
    {
        let working = clone_rows(data);
        assert(rows_view(working@).len() == working.len());
        assert(rows_view(data@).len() == data.len());
        Session {
            canonical: data,
            working,
            cursor: 0,
            last_key: None,
            reversed: false,
            phase: if data.len() > 0 {
                Phase::Paging
            } else {
                Phase::Terminated
            },
        }
    }

    /// The rows of the page that is due: those of the working rows from the
    /// first index returned up to, not including, the second.
    pub fn page_bounds(&self) -> (r: (usize, usize))
        requires
            valid(self@),
            self.phase == Phase::Paging,
        ensures
            r.0 == page_start(self.cursor as int),
            r.1 == page_end(self.cursor as int, self.working.len() as int),
            r.0 < r.1 <= self.working.len(),
            r.1 - r.0 <= 25,
    {
        assert(rows_view(self.working@).len() == self.working.len());
        let total = self.working.len();
        let from = PAGE_SIZE * self.cursor;
        let to = if total - from > PAGE_SIZE {
            from + PAGE_SIZE
        } else {
            total
        };
        (from, to)
    }

    /// Takes the line read after the page that was due, and says what it
    /// asked for.
    pub fn on_command(&mut self, input: &str, config: &Config) -> (c: Command)
        requires
            valid(old(self)@),
            old(self).phase == Phase::Paging,
        ensures
            c == command_of(input@),
            final(self)@ == after_command(old(self)@, input@, config.language),
            valid(final(self)@),
            final(self).canonical == old(self).canonical,
    {
        assert(rows_view(self.working@).len() == self.working.len());
        let command = read_command(input);
        self.cursor = self.cursor + 1;
        match command {
            Command::Quit => {
                self.phase = Phase::Terminated;
            },
            Command::Sort => {
                self.phase = Phase::AwaitingSortInput;
            },
            Command::Next => {
                if self.working.len() / PAGE_SIZE >= self.cursor && self.working.len()
                    > PAGE_SIZE * self.cursor {
                    self.phase = Phase::Paging;
                } else {
                    self.phase = Phase::Terminated;
                }
            },
            Command::Reverse => {
                let key = match self.last_key {
                    Some(k) => k,
                    None => ColumnKey::Date,
                };
                let ghost before = rows_view(self.working@);
                let descending = !self.reversed;
                sort_rows(&mut self.working, key, config.language, descending);
                proof {
                    lemma_sorted_rows(before, key, config.language, descending);
                    assert(rows_view(self.working@).len() == self.working.len());
                }
                self.reversed = descending;
                self.cursor = 0;
                self.phase = Phase::Paging;
            },
        }
        command
    }

    /// Takes the list of sort columns that was asked for, and returns the
    /// number of tokens in it that named no column.
    pub fn on_sort_keys(&mut self, input: &str, config: &Config) -> (refused: usize)
        requires
            valid(old(self)@),
            old(self).phase == Phase::AwaitingSortInput,
        ensures
            final(self)@ == after_sort_keys(old(self)@, input@, config.language),
            valid(final(self)@),
            final(self).canonical == old(self).canonical,
            refused == refused_tokens(key_tokens(input@)),
    {
        let text = chars_of(input);
        let pieces = split_chars(&text, ',');
        let ghost tokens = key_tokens(input@);
        let ghost start = rows_view(self.canonical@);
        assert(tokens.len() == pieces.len());
        assert(rows_view(self.working@).len() == self.working.len());
        self.working = clone_rows(self.canonical);
        self.reversed = false;
        let mut refused: usize = 0;
        let mut i: usize = pieces.len();
        assert(tokens.skip(i as int) =~= Seq::<Seq<char>>::empty());
        assert(rows_view(self.working@).len() == self.working.len());
        assert(start.len() == self.canonical.len());
        while i > 0
            invariant
                i <= pieces.len() == tokens.len(),
                pieces.len() >= 1,
                tokens == key_tokens(input@),
                views_of(pieces@) == split(input@, ','),
                start == rows_view(old(self).canonical@),
                self.canonical == old(self).canonical,
                !self.reversed,
                self.phase == old(self).phase,
                rows_view(self.working@) == cascade(start, tokens.skip(i as int), config.language),
                rows_view(self.working@).to_multiset() == start.to_multiset(),
                self.working.len() == self.canonical.len(),
                self.cursor == cascade_cursor(old(self).cursor as int, tokens.skip(i as int)),
                25 * self.cursor < self.working.len() + 25,
                refused == refused_tokens(tokens.skip(i as int)),
                refused <= pieces.len() - i,
                i < pieces.len() ==> self.last_key == column_key(tokens[i as int]),
            decreases i,
        {
            let token = string_of(&trim_chars(&pieces[i - 1]));
            proof {
                assert(views_of(pieces@)[i - 1] == pieces@[i - 1]@);
                assert(tokens[i - 1] == token@);
                assert(tokens.skip(i - 1).drop_first() =~= tokens.skip(i as int));
                assert(tokens.skip(i - 1)[0] == token@);
            }
            let key = read_column_key(token.as_str());
            self.last_key = key;
            match key {
                Some(k) => {
                    let ghost before = rows_view(self.working@);
                    sort_rows(&mut self.working, k, config.language, false);
                    proof {
                        lemma_sorted_rows(before, k, config.language, false);
                        assert(rows_view(self.working@).len() == self.working.len());
                        assert(before.len() == self.canonical.len());
                    }
                    self.cursor = 0;
                },
                None => {
                    if self.cursor > 0 {
                        self.cursor = self.cursor - 1;
                    }
                    refused = refused + 1;
                },
            }
            i -= 1;
        }
        assert(tokens.skip(0) =~= tokens);
        if self.working.len() / PAGE_SIZE >= self.cursor && self.working.len() > PAGE_SIZE
            * self.cursor {
            self.phase = Phase::Paging;
        } else {
            self.phase = Phase::Terminated;
        }
        assert(rows_view(self.working@).len() == self.working.len());
        refused
    }
}

} // verus!
