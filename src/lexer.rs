//! The flat lexer: one cursor over the whole input, newlines are whitespace.
use vstd::prelude::*;

use crate::chars_of;
use crate::error::{Error, ErrorKind, Located, Position};
use crate::scan::{prepend, scan_all, scan_token, views, Scan, Spanned};
use crate::scan::{
    is_space, lemma_prepend_twice, lemma_scan_all_tiles, lemma_scan_at_end, spans_tile,
};
use crate::tokens::{Token, TokenView};

verus! {

/// The line of index `i`: how many newlines come before it. Beyond the end
/// of the text the line stays that of the end.
pub open spec fn ln_at(s: Seq<char>, i: int) -> int
    decreases i,
{
    if i <= 0 {
        0
    } else {
        ln_at(s, i - 1) + if i - 1 < s.len() && s[i - 1] == '\n' {
            1int
        } else {
            0int
        }
    }
}

/// The column of index `i`: how many characters stand between it and the
/// newline before it (or the start of the input). Beyond the end of the text
/// the column goes on counting.
pub open spec fn col_at(s: Seq<char>, i: int) -> int
    decreases i,
{
    if i <= 0 {
        0
    } else if i - 1 < s.len() && s[i - 1] == '\n' {
        0
    } else {
        col_at(s, i - 1) + 1
    }
}

pub open spec fn range_of(a: int, b: int) -> std::ops::Range<usize> {
    std::ops::Range { start: a as usize, end: b as usize }
}

/// The position of the single character at index `i`.
pub open spec fn cursor_pos(s: Seq<char>, i: int) -> Position {
    Position {
        idx: range_of(i, i + 1),
        ln: range_of(ln_at(s, i), ln_at(s, i) + 1),
        col: range_of(col_at(s, i), col_at(s, i) + 1),
    }
}

/// The position of the characters `s[a..b]`: from the first one's line and
/// column to the last one's. A string literal may hold a newline, and then
/// its column range ends at the column of its last character on its last
/// line, which can come before the column where it started.
pub open spec fn span_pos(s: Seq<char>, a: int, b: int) -> Position {
    Position {
        idx: range_of(a, b),
        ln: range_of(ln_at(s, a), ln_at(s, b - 1) + 1),
        col: range_of(col_at(s, a), col_at(s, b - 1) + 1),
    }
}

/// What the flat lexer returns, as values.
pub open spec fn flat_lex(
    s: Seq<char>,
    symbols: Seq<Seq<char>>,
    keywords: Seq<Seq<char>>,
    i: int,
) -> Result<Seq<(TokenView, Position)>, (ErrorKind, Position)> {
    match scan_all(s, symbols, keywords, i) {
        Ok(ts) => Ok(ts.map_values(|t: Spanned| (t.token, span_pos(s, t.start, t.end)))),
        Err(f) => Err((f.kind, span_pos(s, f.start, f.end))),
    }
}

pub open spec fn located_views(v: Seq<Located<Token>>) -> Seq<(TokenView, Position)> {
    v.map_values(|l: Located<Token>| (l.value@, l.pos))
}

pub open spec fn result_view(r: Result<Vec<Located<Token>>, Error>) -> Result<
    Seq<(TokenView, Position)>,
    (ErrorKind, Position),
> {
    match r {
        Ok(v) => Ok(located_views(v@)),
        Err(e) => Err((e.error_type@, e.pos)),
    }
}

pub proof fn lemma_ln_col_bound(s: Seq<char>, i: int)
    requires
        0 <= i,
    ensures
        0 <= ln_at(s, i) <= i,
        0 <= col_at(s, i) <= i,
    decreases i,
{
    if i > 0 {
        lemma_ln_col_bound(s, i - 1);
    }
}

/// Token positions that tile the text: each nonempty and inside it; any two
/// in order, apart from one another, and starting at increasing (line,
/// column) pairs; all that lies outside them is whitespace.
pub open spec fn positions_tile(s: Seq<char>, toks: Seq<(TokenView, Position)>) -> bool {
    &&& forall|k: int|
        0 <= k < toks.len() ==> #[trigger] toks[k].1.idx.start < toks[k].1.idx.end <= s.len()
    &&& forall|k: int| 0 <= k < toks.len() ==> #[trigger] toks[k].1.ln.start < toks[k].1.ln.end
    &&& forall|a: int, b: int|
        0 <= a < b < toks.len() ==> #[trigger] toks[a].1.idx.end <= #[trigger] toks[b].1.idx.start
    &&& forall|a: int, b: int|
        0 <= a < b < toks.len() ==> #[trigger] toks[a].1.ln.start < #[trigger] toks[b].1.ln.start
            || (toks[a].1.ln.start == toks[b].1.ln.start && toks[a].1.col.start
            < toks[b].1.col.start)
    &&& forall|j: int|
        0 <= j < s.len() ==> is_space(#[trigger] s[j]) || exists|k: int|
            0 <= k < toks.len() && #[trigger] toks[k].1.idx.start <= j < toks[k].1.idx.end
}

/// The spans of the tokens of a successful scan are in order and do not
/// overlap, and together with the whitespace between them they cover the
/// whole text.
pub proof fn lemma_positions_tile(s: Seq<char>, symbols: Seq<Seq<char>>, keywords: Seq<Seq<char>>)
    requires
        s.len() <= usize::MAX,
    ensures
        flat_lex(s, symbols, keywords, 0) is Ok ==> positions_tile(
            s,
            flat_lex(s, symbols, keywords, 0)->Ok_0,
        ),
{
    lemma_scan_all_tiles(s, symbols, keywords, 0);
    if let Ok(ts) = scan_all(s, symbols, keywords, 0) {
        let toks = ts.map_values(|t: Spanned| (t.token, span_pos(s, t.start, t.end)));
        assert(flat_lex(s, symbols, keywords, 0) == Ok::<_, (ErrorKind, Position)>(toks));
        lemma_spans_give_positions(s, ts);
    }
}

proof fn lemma_span_pos_fields(s: Seq<char>, a: int, b: int)
    requires
        0 <= a < b <= s.len() <= usize::MAX,
    ensures
        span_pos(s, a, b).idx.start == a,
        span_pos(s, a, b).idx.end == b,
        span_pos(s, a, b).ln.start == ln_at(s, a),
        span_pos(s, a, b).ln.end == ln_at(s, b - 1) + 1,
        span_pos(s, a, b).col.start == col_at(s, a),
{
    lemma_ln_col_bound(s, a);
    lemma_ln_col_bound(s, b - 1);
}

proof fn lemma_spans_give_positions(s: Seq<char>, ts: Seq<Spanned>)
    requires
        s.len() <= usize::MAX,
        spans_tile(s, ts, 0),
    ensures
        positions_tile(s, ts.map_values(|t: Spanned| (t.token, span_pos(s, t.start, t.end)))),
{
    let toks = ts.map_values(|t: Spanned| (t.token, span_pos(s, t.start, t.end)));
    assert forall|k: int| 0 <= k < toks.len() implies #[trigger] toks[k].1.idx.start
        < toks[k].1.idx.end <= s.len() by {
        lemma_span_pos_fields(s, ts[k].start, ts[k].end);
    }
    assert forall|k: int| 0 <= k < toks.len() implies #[trigger] toks[k].1.ln.start
        < toks[k].1.ln.end by {
        lemma_span_pos_fields(s, ts[k].start, ts[k].end);
        lemma_ln_monotone(s, ts[k].start, ts[k].end - 1);
    }
    assert forall|a: int, b: int| 0 <= a < b < toks.len() implies #[trigger] toks[a].1.idx.end
        <= #[trigger] toks[b].1.idx.start by {
        lemma_span_pos_fields(s, ts[a].start, ts[a].end);
        lemma_span_pos_fields(s, ts[b].start, ts[b].end);
    }
    assert forall|a: int, b: int| 0 <= a < b < toks.len() implies #[trigger] toks[a].1.ln.start
        < #[trigger] toks[b].1.ln.start || (toks[a].1.ln.start == toks[b].1.ln.start
        && toks[a].1.col.start < toks[b].1.col.start) by {
        lemma_span_pos_fields(s, ts[a].start, ts[a].end);
        lemma_span_pos_fields(s, ts[b].start, ts[b].end);
        assert(ts[a].end <= ts[b].start);
        lemma_ln_col_order(s, ts[a].start, ts[b].start);
    }
    assert forall|j: int| 0 <= j < s.len() implies is_space(#[trigger] s[j]) || exists|k: int|
        0 <= k < toks.len() && #[trigger] toks[k].1.idx.start <= j < toks[k].1.idx.end by {
        if !is_space(s[j]) {
            let k = choose|k: int| 0 <= k < ts.len() && #[trigger] ts[k].start <= j < ts[k].end;
            lemma_span_pos_fields(s, ts[k].start, ts[k].end);
            assert(toks[k].1.idx.start <= j < toks[k].1.idx.end);
        }
    }
}

/// Between two indices, either a newline is passed, or the line stays and the
/// column grows by the distance.
pub proof fn lemma_ln_col_order(s: Seq<char>, a: int, b: int)
    requires
        0 <= a < b,
    ensures
        ln_at(s, a) < ln_at(s, b) || (ln_at(s, a) == ln_at(s, b) && col_at(s, b) == col_at(s, a) + (b
            - a)),
    decreases b - a,
{
    if b - 1 > a {
        lemma_ln_col_order(s, a, b - 1);
    }
}

pub proof fn lemma_ln_monotone(s: Seq<char>, a: int, b: int)
    requires
        0 <= a <= b,
    ensures
        ln_at(s, a) <= ln_at(s, b),
    decreases b - a,
{
    if a < b {
        lemma_ln_monotone(s, a, b - 1);
    }
}

/// Lexer over a whole text, with a cursor that advances one character at a time.
pub struct Lexer {
    text: Vec<char>,
    symbols: Vec<Vec<char>>,
    keywords: Vec<Vec<char>>,
    idx: usize,
    ln: usize,
    col: usize,
}

impl Lexer {
    pub closed spec fn chars(&self) -> Seq<char> {
        self.text@
    }

    pub closed spec fn symbol_list(&self) -> Seq<Seq<char>> {
        views(self.symbols@)
    }

    pub closed spec fn keyword_list(&self) -> Seq<Seq<char>> {
        views(self.keywords@)
    }

    pub closed spec fn index(&self) -> nat {
        self.idx as nat
    }

    /// The line and column of the cursor are those of its index.
    pub closed spec fn wf(&self) -> bool {
        &&& self.ln == ln_at(self.text@, self.idx as int)
        &&& self.col == col_at(self.text@, self.idx as int)
    }

    pub fn new(text: String) -> (r: Self)
        ensures
            r.wf(),
            r.chars() == text@,
            r.symbol_list() == Seq::<Seq<char>>::empty(),
            r.keyword_list() == Seq::<Seq<char>>::empty(),
            r.index() == 0,
    {
        let r = Self {
            text: chars_of(text.as_str()),
            symbols: Vec::new(),
            keywords: Vec::new(),
            idx: 0,
            ln: 0,
            col: 0,
        };
        assert(r.symbol_list() =~= Seq::<Seq<char>>::empty());
        assert(r.keyword_list() =~= Seq::<Seq<char>>::empty());
        r
    }

    /// The position of the character under the cursor.
    pub fn pos(&self) -> (r: Position)
        requires
            self.wf(),
            self.index() < usize::MAX,
        ensures
            r == cursor_pos(self.chars(), self.index() as int),
    {
        proof {
            lemma_ln_col_bound(self.text@, self.idx as int);
        }
        Position {
            idx: self.idx..self.idx + 1,
            ln: self.ln..self.ln + 1,
            col: self.col..self.col + 1,
        }
    }

    /// Moves the cursor one index on, past the character under it if any.
    pub fn advance(&mut self)
        requires
            old(self).wf(),
            old(self).index() < usize::MAX,
        ensures
            final(self).wf(),
            final(self).chars() == old(self).chars(),
            final(self).symbol_list() == old(self).symbol_list(),
            final(self).keyword_list() == old(self).keyword_list(),
            final(self).index() == old(self).index() + 1,
    {
        proof {
            lemma_ln_col_bound(self.text@, self.idx as int);
        }
        if self.idx < self.text.len() && self.text[self.idx] == '\n' {
            self.ln += 1;
            self.col = 0;
        } else {
            self.col += 1;
        }
        self.idx += 1;
    }

    /// The character under the cursor, if any.
    pub fn get(&self) -> (r: Option<char>)
        requires
            self.wf(),
        ensures
            r == if self.index() < self.chars().len() {
                Some(self.chars()[self.index() as int])
            } else {
                None::<char>
            },
    {
        if self.idx < self.text.len() {
            Some(self.text[self.idx])
        } else {
            None
        }
    }

    /// The character under the cursor, if any; the cursor moves past it.
    pub fn next_char(&mut self) -> (r: Option<char>)
        requires
            old(self).wf(),
            old(self).index() < usize::MAX,
        ensures
            final(self).wf(),
            final(self).chars() == old(self).chars(),
            final(self).symbol_list() == old(self).symbol_list(),
            final(self).keyword_list() == old(self).keyword_list(),
            r == if old(self).index() < old(self).chars().len() {
                Some(old(self).chars()[old(self).index() as int])
            } else {
                None::<char>
            },
            final(self).index() == old(self).index() + 1,
    {
        let c = self.get();
        self.advance();
        c
    }

    pub fn has_symbols(&self) -> (r: bool)
        ensures
            r == (self.symbol_list().len() > 0),
    {
        self.symbols.len() > 0
    }

    /// Sets the symbols that the lexer recognizes.
    pub fn symbols(self, symbols: &[&str]) -> (r: Self)
        requires
            self.wf(),
        ensures
            r.wf(),
            r.chars() == self.chars(),
            r.index() == self.index(),
            r.keyword_list() == self.keyword_list(),
            r.symbol_list() == symbols@.map_values(|s: &str| s@),
    {
        let mut r = self;
        r.symbols = char_lists(symbols);
        r
    }

    /// Sets the keywords that the lexer recognizes.
    pub fn keywords(self, keywords: &[&str]) -> (r: Self)
        requires
            self.wf(),
        ensures
            r.wf(),
            r.chars() == self.chars(),
            r.index() == self.index(),
            r.symbol_list() == self.symbol_list(),
            r.keyword_list() == keywords@.map_values(|s: &str| s@),
    {
        let mut r = self;
        r.keywords = char_lists(keywords);
        r
    }

    /// Moves the cursor to `end` and returns the position of what it passed.
    fn span_to(&mut self, end: usize) -> (r: Position)
        requires
            old(self).wf(),
            old(self).idx < end <= old(self).text.len(),
        ensures
            final(self).wf(),
            final(self).chars() == old(self).chars(),
            final(self).symbol_list() == old(self).symbol_list(),
            final(self).keyword_list() == old(self).keyword_list(),
            final(self).idx == end,
            r == span_pos(old(self).text@, old(self).idx as int, end as int),
    {
        let ghost start = self.idx as int;
        let mut pos = self.pos();
        while self.idx + 1 < end
            invariant
                self.wf(),
                self.chars() == old(self).chars(),
                self.symbol_list() == old(self).symbol_list(),
                self.keyword_list() == old(self).keyword_list(),
                start <= self.idx < end <= self.text.len(),
                pos == span_pos(self.text@, start, self.idx + 1),
            decreases end - self.idx,
        {
            self.advance();
            let p = self.pos();
            pos.extend(&p);
        }
        self.advance();
        pos
    }

    /// Scans from the cursor to the end of the text.
    pub fn lex(&mut self) -> (r: Result<Vec<Located<Token>>, Error>)
        requires
            old(self).wf(),
        ensures
            final(self).wf(),
            final(self).chars() == old(self).chars(),
            final(self).symbol_list() == old(self).symbol_list(),
            final(self).keyword_list() == old(self).keyword_list(),
            result_view(r) == flat_lex(
                old(self).chars(),
                old(self).symbol_list(),
                old(self).keyword_list(),
                old(self).index() as int,
            ),
    {
        let ghost s = self.text@;
        let ghost syms = views(self.symbols@);
        let ghost kws = views(self.keywords@);
        let ghost i0 = self.idx as int;
        let ghost mut done: Seq<Spanned> = Seq::empty();
        let mut tokens: Vec<Located<Token>> = Vec::new();
        while self.idx < self.text.len()
            invariant
                self.wf(),
                self.text@ == s,
                views(self.symbols@) == syms,
                views(self.keywords@) == kws,
                s == old(self).chars(),
                syms == old(self).symbol_list(),
                kws == old(self).keyword_list(),
                i0 == old(self).index() as int,
                scan_all(s, syms, kws, i0) == prepend(done, scan_all(s, syms, kws, self.idx as int)),
                located_views(tokens@) == done.map_values(
                    |t: Spanned| (t.token, span_pos(s, t.start, t.end)),
                ),
            decreases self.text.len() - self.idx,
        {
            let i = self.idx;
            let step = scan_token(&self.text, self.idx, &self.symbols, &self.keywords);
            proof {
                lemma_scan_at_end(s, syms, kws, i as int);
            }
            match step {
                Scan::Skip => {
                    assert(scan_all(s, syms, kws, i as int) == scan_all(s, syms, kws, i + 1));
                    self.advance();
                },
                Scan::Emit(tok, end) => {
                    let pos = self.span_to(end);
                    let ghost old_done = done;
                    let ghost sp = Spanned { token: tok@, start: i as int, end: end as int };
                    assert(scan_all(s, syms, kws, i as int) == prepend(seq![sp], scan_all(s, syms, kws, end as int)));
                    proof {
                        lemma_prepend_twice(done, seq![sp], scan_all(s, syms, kws, end as int));
                        done = done + seq![sp];
                    }
                    let ghost before = tokens@;
                    let loc = Located::new(tok, pos);
                    let ghost lv = (loc.value@, loc.pos);
                    tokens.push(loc);
                    assert(tokens@ == before.push(loc));
                    assert(located_views(tokens@) =~= located_views(before).push(lv));
                    assert(done.drop_last() =~= old_done);
                    assert(located_views(tokens@) =~= done.map_values(
                        |t: Spanned| (t.token, span_pos(s, t.start, t.end)),
                    ));
                },
                Scan::Fail(e, end) => {
                    let pos = self.span_to(end);
                    return Err(Error::new(e, pos));
                },
            }
        }
        assert(done + Seq::<Spanned>::empty() =~= done);
        Ok(tokens)
    }
}

/// The characters of each string.
pub(crate) fn char_lists(items: &[&str]) -> (r: Vec<Vec<char>>)
    ensures
        views(r@) == items@.map_values(|s: &str| s@),
{
    let mut r: Vec<Vec<char>> = Vec::new();
    let mut k: usize = 0;
    while k < items.len()
        invariant
            k <= items.len(),
            views(r@) == items@.take(k as int).map_values(|s: &str| s@),
        decreases items.len() - k,
    {
        let v = chars_of(items[k]);
        let ghost before = r@;
        r.push(v);
        assert(views(r@) =~= views(before).push(items@[k as int]@));
        assert(items@.take(k + 1).map_values(|s: &str| s@) =~= items@.take(k as int).map_values(
            |s: &str| s@,
        ).push(items@[k as int]@));
        k += 1;
        assert(views(r@) =~= items@.take(k as int).map_values(|s: &str| s@));
    }
    assert(items@.take(k as int) =~= items@);
    r
}

} // verus!
