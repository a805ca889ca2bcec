//! The indentation lexer: the input is split into lines, and each line is
//! measured for its indent and scanned on its own.
use vstd::prelude::*;

use crate::chars_of;
use crate::error::{Error, ErrorKind, Located, Position};
use crate::lexer::{char_lists, located_views, range_of, result_view};
use crate::scan::{prepend, scan_all, scan_token, views, Failure, Scan, Spanned};
use crate::scan::{is_space, lemma_prepend_twice, lemma_scan_all_tiles, lemma_scan_at_end};
use crate::tokens::{Token, TokenView};

verus! {

/// The lines of `s`, split at each newline; a text without newlines is one
/// line, and a newline at the end leaves an empty last line.
pub open spec fn split_lines(s: Seq<char>) -> Seq<Seq<char>>
    decreases s.len(),
{
    if s.len() == 0 {
        seq![Seq::empty()]
    } else {
        let p = split_lines(s.drop_last());
        if s.last() == '\n' {
            p.push(Seq::empty())
        } else {
            p.update(p.len() - 1, p.last().push(s.last()))
        }
    }
}

/// The characters of the lines, with one separator after each.
pub open spec fn total_len(lines: Seq<Seq<char>>) -> int
    decreases lines.len(),
{
    if lines.len() == 0 {
        0
    } else {
        total_len(lines.drop_last()) + lines.last().len() + 1
    }
}

/// How far the cursor moves through lines `k..` when it starts at column
/// `c` of line `k`: to the end of each line (or stays at `c` beyond it), and
/// one more past each line's end.
pub open spec fn rest_len(lines: Seq<Seq<char>>, k: int, c: int) -> int
    decreases lines.len() - k,
{
    if k < 0 || k >= lines.len() {
        0
    } else {
        max(c, lines[k].len() as int) + 1 + rest_len(lines, k + 1, 0)
    }
}

pub open spec fn max(a: int, b: int) -> int {
    if a >= b {
        a
    } else {
        b
    }
}

/// The end of the run of spaces and tabs that starts at `c`.
pub open spec fn indent_end(line: Seq<char>, c: int) -> int
    decreases line.len() - c,
{
    if 0 <= c < line.len() && (line[c] == ' ' || line[c] == '\t') {
        indent_end(line, c + 1)
    } else {
        c
    }
}

/// The position of the characters `a..b` of line `ln`, whose column 0 stands
/// at index `off` of the whole text.
pub open spec fn line_span_pos(off: int, ln: int, a: int, b: int) -> Position {
    Position { idx: range_of(off + a, off + b), ln: range_of(ln, ln + 1), col: range_of(a, b) }
}

pub struct LineView {
    pub ln: int,
    pub indent: int,
    pub tokens: Seq<(TokenView, Position)>,
}

/// The tokens of line `k` from column `c` on, as values; the line's column 0
/// stands at index `off`.
pub open spec fn line_scan(
    lines: Seq<Seq<char>>,
    symbols: Seq<Seq<char>>,
    keywords: Seq<Seq<char>>,
    k: int,
    c: int,
    off: int,
) -> Result<Seq<(TokenView, Position)>, (ErrorKind, Position)> {
    match scan_all(lines[k], symbols, keywords, c) {
        Ok(ts) => Ok(ts.map_values(|t: Spanned| (t.token, line_span_pos(off, k, t.start, t.end)))),
        Err(f) => Err((f.kind, line_span_pos(off, k, f.start, f.end))),
    }
}

/// Line `k` scanned from column `c`: its indent, then its tokens; the
/// line's column 0 stands at index `off`.
pub open spec fn lex_line(
    lines: Seq<Seq<char>>,
    symbols: Seq<Seq<char>>,
    keywords: Seq<Seq<char>>,
    k: int,
    c: int,
    off: int,
) -> Result<LineView, (ErrorKind, Position)> {
    let e = indent_end(lines[k], c);
    match line_scan(lines, symbols, keywords, k, e, off) {
        Ok(tokens) => Ok(LineView { ln: k, indent: e - c, tokens }),
        Err(err) => Err(err),
    }
}

/// What the indentation lexer returns from line `k`, column `c` on, as
/// values, where column 0 of line `k` stands at index `off`. The cursor
/// leaves a line at its end, or at `c` if that lies beyond it, and one step
/// more brings it to the next line.
pub open spec fn lex_lines(
    lines: Seq<Seq<char>>,
    symbols: Seq<Seq<char>>,
    keywords: Seq<Seq<char>>,
    k: int,
    c: int,
    off: int,
) -> Result<Seq<LineView>, (ErrorKind, Position)>
    decreases lines.len() - k,
{
    if k < 0 || k >= lines.len() {
        Ok(Seq::empty())
    } else {
        match lex_line(lines, symbols, keywords, k, c, off) {
            Ok(l) => prepend(
                seq![l],
                lex_lines(lines, symbols, keywords, k + 1, 0, off + max(c, lines[k].len() as int) + 1),
            ),
            Err(e) => Err(e),
        }
    }
}

/// Token columns that tile a line from column `e` on: each nonempty, any two
/// in order and apart from one another, and all that lies outside them is
/// whitespace.
pub open spec fn columns_tile(line: Seq<char>, e: int, toks: Seq<(TokenView, Position)>) -> bool {
    &&& forall|k: int|
        0 <= k < toks.len() ==> e <= #[trigger] toks[k].1.col.start < toks[k].1.col.end
            <= line.len()
    &&& forall|a: int, b: int|
        0 <= a < b < toks.len() ==> #[trigger] toks[a].1.col.end <= #[trigger] toks[b].1.col.start
    &&& forall|j: int|
        e <= j < line.len() ==> is_space(#[trigger] line[j]) || exists|k: int|
            0 <= k < toks.len() && #[trigger] toks[k].1.col.start <= j < toks[k].1.col.end
}

/// Within each line, the spans of the tokens are in order and do not
/// overlap, and together with the whitespace between them they cover the
/// line after its indent.
pub proof fn lemma_line_columns_tile(
    lines: Seq<Seq<char>>,
    symbols: Seq<Seq<char>>,
    keywords: Seq<Seq<char>>,
    k: int,
    c: int,
    off: int,
)
    requires
        0 <= k < lines.len(),
        0 <= c <= lines[k].len() <= usize::MAX,
    ensures
        lex_line(lines, symbols, keywords, k, c, off) is Ok ==> columns_tile(
            lines[k],
            indent_end(lines[k], c),
            lex_line(lines, symbols, keywords, k, c, off)->Ok_0.tokens,
        ),
{
    let line = lines[k];
    lemma_indent_end(line, c);
    let e = indent_end(line, c);
    lemma_scan_all_tiles(line, symbols, keywords, e);
    if let Ok(ts) = scan_all(line, symbols, keywords, e) {
        let toks = ts.map_values(|t: Spanned| (t.token, line_span_pos(off, k, t.start, t.end)));
        assert(lex_line(lines, symbols, keywords, k, c, off)->Ok_0.tokens == toks);
        assert forall|m: int| 0 <= m < toks.len() implies toks[m].1.col.start == ts[m].start
            && toks[m].1.col.end == ts[m].end by {
            assert(ts[m].start < ts[m].end <= line.len());
        }
        assert forall|a: int, b: int| 0 <= a < b < toks.len() implies #[trigger] toks[a].1.col.end
            <= #[trigger] toks[b].1.col.start by {
            assert(ts[a].end <= ts[b].start);
            assert(ts[b].start < ts[b].end <= line.len());
        }
        assert forall|j: int| e <= j < line.len() implies is_space(#[trigger] line[j]) || exists|
            m: int,
        | 0 <= m < toks.len() && #[trigger] toks[m].1.col.start <= j < toks[m].1.col.end by {
            if !is_space(line[j]) {
                let m = choose|m: int| 0 <= m < ts.len() && #[trigger] ts[m].start <= j < ts[m].end;
                assert(toks[m].1.col.start <= j < toks[m].1.col.end);
            }
        }
    }
}

proof fn lemma_indent_end(line: Seq<char>, c: int)
    requires
        0 <= c <= line.len(),
    ensures
        c <= indent_end(line, c) <= line.len(),
    decreases line.len() - c,
{
    if c < line.len() && (line[c] == ' ' || line[c] == '\t') {
        lemma_indent_end(line, c + 1);
    }
}

/// One line of the input: its number, its indent and its tokens.
#[derive(Debug, Clone, PartialEq)]
pub struct Line {
    pub ln: usize,
    pub tokens: Vec<Located<Token>>,
    pub indent: usize,
}

impl Line {
    pub open spec fn view(&self) -> LineView {
        LineView { ln: self.ln as int, indent: self.indent as int, tokens: located_views(self.tokens@) }
    }

    pub fn len(&self) -> (r: usize)
        ensures
            r == self.tokens@.len(),
    {
        self.tokens.len()
    }

    pub fn is_empty(&self) -> (r: bool)
        ensures
            r == (self.tokens@.len() == 0),
    {
        self.len() == 0
    }

    /// Takes the last token off the line.
    pub fn pop(&mut self) -> (r: Option<Located<Token>>)
        ensures
            final(self).ln == old(self).ln,
            final(self).indent == old(self).indent,
            old(self).tokens@.len() == 0 ==> r is None && final(self).tokens@ == old(self).tokens@,
            old(self).tokens@.len() > 0 ==> r == Some(old(self).tokens@.last())
                && final(self).tokens@ == old(self).tokens@.drop_last(),
    {
        self.tokens.pop()
    }

    /// Takes the token at `idx` out of the line.
    pub fn remove(&mut self, idx: usize) -> (r: Located<Token>)
        requires
            idx < old(self).tokens@.len(),
        ensures
            final(self).ln == old(self).ln,
            final(self).indent == old(self).indent,
            r == old(self).tokens@[idx as int],
            final(self).tokens@ == old(self).tokens@.remove(idx as int),
    {
        self.tokens.remove(idx)
    }
}

pub open spec fn line_views(v: Seq<Line>) -> Seq<LineView> {
    v.map_values(|l: Line| l.view())
}

pub open spec fn lines_result_view(r: Result<Vec<Line>, Error>) -> Result<
    Seq<LineView>,
    (ErrorKind, Position),
> {
    match r {
        Ok(v) => Ok(line_views(v@)),
        Err(e) => Err((e.error_type@, e.pos)),
    }
}

/// Lexer that works line by line. The cursor holds the line, the column in
/// it, and the index in the whole text.
pub struct Lexer {
    pub lines: Vec<Vec<char>>,
    pub symbols: Vec<Vec<char>>,
    pub keywords: Vec<Vec<char>>,
    pub idx: usize,
    pub ln: usize,
    pub col: usize,
}

impl Lexer {
    pub open spec fn line_list(&self) -> Seq<Seq<char>> {
        views(self.lines@)
    }

    pub open spec fn symbol_list(&self) -> Seq<Seq<char>> {
        views(self.symbols@)
    }

    pub open spec fn keyword_list(&self) -> Seq<Seq<char>> {
        views(self.keywords@)
    }

    /// The index where column 0 of the cursor's line stands.
    pub open spec fn line_start(&self) -> int {
        self.idx - self.col
    }

    /// The cursor's index is its column counted from where its line starts,
    /// and walking it through the rest of the lines keeps the index in range.
    pub open spec fn fits(&self) -> bool {
        &&& self.col <= self.idx
        &&& self.line_start() + rest_len(self.line_list(), self.ln as int, self.col as int)
            <= usize::MAX
    }

    /// Whether the cursor stands on a character.
    pub open spec fn on_char(&self) -> bool {
        self.ln < self.lines.len() && self.col < self.lines@[self.ln as int].len()
    }

    pub fn new(text: String) -> (r: Self)
        requires
            text@.len() < usize::MAX,
        ensures
            r.fits(),
            r.line_list() == split_lines(text@),
            r.symbol_list() == Seq::<Seq<char>>::empty(),
            r.keyword_list() == Seq::<Seq<char>>::empty(),
            r.idx == 0,
            r.ln == 0,
            r.col == 0,
    {
        let chars = chars_of(text.as_str());
        let lines = split_at_newlines(&chars);
        proof {
            lemma_total_len_split(chars@);
            lemma_rest_len(views(lines@), 0);
            assert(views(lines@).take(0) =~= Seq::<Seq<char>>::empty());
        }
        let r = Self { lines, symbols: Vec::new(), keywords: Vec::new(), idx: 0, ln: 0, col: 0 };
        assert(r.symbol_list() =~= Seq::<Seq<char>>::empty());
        assert(r.keyword_list() =~= Seq::<Seq<char>>::empty());
        r
    }

    /// The position of the single character at the cursor.
    pub fn pos(&self) -> (r: Position)
        requires
            self.idx < usize::MAX,
            self.ln < usize::MAX,
            self.col < usize::MAX,
        ensures
            r == (Position {
                idx: range_of(self.idx as int, self.idx + 1),
                ln: range_of(self.ln as int, self.ln + 1),
                col: range_of(self.col as int, self.col + 1),
            }),
    {
        Position {
            idx: self.idx..self.idx + 1,
            ln: self.ln..self.ln + 1,
            col: self.col..self.col + 1,
        }
    }

    /// Moves the cursor one column on.
    pub fn advance(&mut self)
        requires
            old(self).idx < usize::MAX,
            old(self).col < usize::MAX,
        ensures
            *final(self) == (Lexer { idx: (old(self).idx + 1) as usize, col: (old(self).col + 1) as usize, ..*old(self) }),
    {
        self.idx += 1;
        self.col += 1;
    }

    /// Moves the cursor to column 0 of the next line, one index on.
    pub fn advance_line(&mut self)
        requires
            old(self).idx < usize::MAX,
            old(self).ln < usize::MAX,
        ensures
            *final(self) == (Lexer {
                idx: (old(self).idx + 1) as usize,
                ln: (old(self).ln + 1) as usize,
                col: 0,
                ..*old(self)
            }),
    {
        self.idx += 1;
        self.ln += 1;
        self.col = 0;
    }

    /// The character under the cursor, if any.
    pub fn get(&self) -> (r: Option<char>)
        ensures
            r == if self.on_char() {
                Some(self.lines@[self.ln as int]@[self.col as int])
            } else {
                None::<char>
            },
    {
        if self.ln < self.lines.len() && self.col < self.lines[self.ln].len() {
            Some(self.lines[self.ln][self.col])
        } else {
            None
        }
    }

    /// The character under the cursor, if any; the cursor moves one column on.
    pub fn next_char(&mut self) -> (r: Option<char>)
        requires
            old(self).idx < usize::MAX,
            old(self).col < usize::MAX,
        ensures
            r == if old(self).on_char() {
                Some(old(self).lines@[old(self).ln as int]@[old(self).col as int])
            } else {
                None::<char>
            },
            *final(self) == (Lexer { idx: (old(self).idx + 1) as usize, col: (old(self).col + 1) as usize, ..*old(self) }),
    {
        let c = self.get();
        self.advance();
        c
    }

    pub fn has_symbols(&self) -> (r: bool)
        ensures
            r == (self.symbol_list().len() > 0),
    {
        self.symbols.len() > 0
    }

    /// Sets the symbols that the lexer recognizes.
    pub fn symbols(self, symbols: &[&str]) -> (r: Self)
        ensures
            r.lines == self.lines,
            r.keywords == self.keywords,
            (r.idx, r.ln, r.col) == (self.idx, self.ln, self.col),
            r.symbol_list() == symbols@.map_values(|s: &str| s@),
    {
        let mut r = self;
        r.symbols = char_lists(symbols);
        r
    }

    /// Sets the keywords that the lexer recognizes.
    pub fn keywords(self, keywords: &[&str]) -> (r: Self)
        ensures
            r.lines == self.lines,
            r.symbols == self.symbols,
            (r.idx, r.ln, r.col) == (self.idx, self.ln, self.col),
            r.keyword_list() == keywords@.map_values(|s: &str| s@),
    {
        let mut r = self;
        r.keywords = char_lists(keywords);
        r
    }

    /// Moves the cursor to column `end` of its line and returns the position
    /// of what it passed.
    fn jump_to(&mut self, end: usize) -> (r: Position)
        requires
            old(self).ln < old(self).lines.len(),
            old(self).col < end,
            old(self).col <= old(self).idx,
            old(self).line_start() + end <= usize::MAX,
        ensures
            final(self).lines == old(self).lines,
            final(self).symbols == old(self).symbols,
            final(self).keywords == old(self).keywords,
            final(self).ln == old(self).ln,
            final(self).col == end,
            final(self).line_start() == old(self).line_start(),
            r == line_span_pos(
                old(self).line_start(),
                old(self).ln as int,
                old(self).col as int,
                end as int,
            ),
    {
        let pos = Position {
            idx: self.idx..self.idx + (end - self.col),
            ln: self.ln..self.ln + 1,
            col: self.col..end,
        };
        self.idx = self.idx + (end - self.col);
        self.col = end;
        pos
    }

    /// Scans the rest of the cursor's line.
    fn lex_rest_of_line(&mut self) -> (r: Result<Vec<Located<Token>>, Error>)
        requires
            old(self).ln < old(self).lines.len(),
            old(self).col <= old(self).idx,
            old(self).line_start() + old(self).lines@[old(self).ln as int].len() <= usize::MAX,
        ensures
            final(self).lines == old(self).lines,
            final(self).symbols == old(self).symbols,
            final(self).keywords == old(self).keywords,
            final(self).ln == old(self).ln,
            final(self).col <= final(self).idx,
            final(self).line_start() == old(self).line_start(),
            r is Ok ==> final(self).col == max(
                old(self).col as int,
                old(self).lines@[old(self).ln as int].len() as int,
            ),
            result_view(r) == line_scan(
                old(self).line_list(),
                old(self).symbol_list(),
                old(self).keyword_list(),
                old(self).ln as int,
                old(self).col as int,
                old(self).line_start(),
            ),
    {
        let ghost lines = self.line_list();
        let ghost syms = self.symbol_list();
        let ghost kws = self.keyword_list();
        let ghost k = self.ln as int;
        let ghost line = lines[k];
        let ghost off = self.line_start();
        let ghost c0 = self.col as int;
        let ghost mut done: Seq<Spanned> = Seq::empty();
        let mut tokens: Vec<Located<Token>> = Vec::new();
        assert(line == self.lines@[k]@);
        if self.col >= self.lines[self.ln].len() {
            assert(scan_all(line, syms, kws, c0) == Ok::<Seq<Spanned>, Failure>(Seq::empty()));
            assert(Seq::<Spanned>::empty().map_values(
                |t: Spanned| (t.token, line_span_pos(off, k, t.start, t.end)),
            ) =~= located_views(tokens@));
            return Ok(tokens);
        }
        while self.col < self.lines[self.ln].len()
            invariant
                self.lines == old(self).lines,
                self.symbols == old(self).symbols,
                self.keywords == old(self).keywords,
                self.ln == old(self).ln,
                lines == old(self).line_list(),
                syms == old(self).symbol_list(),
                kws == old(self).keyword_list(),
                k == old(self).ln,
                c0 == old(self).col,
                off == old(self).line_start(),
                self.col <= self.idx,
                self.line_start() == off,
                off + line.len() <= usize::MAX,
                line == lines[k],
                line == self.lines@[k]@,
                k < self.lines.len(),
                c0 <= self.col <= line.len(),
                scan_all(line, syms, kws, c0) == prepend(done, scan_all(line, syms, kws, self.col as int)),
                located_views(tokens@) == done.map_values(
                    |t: Spanned| (t.token, line_span_pos(off, k, t.start, t.end)),
                ),
            decreases line.len() - self.col,
        {
            let c = self.col;
            let step = scan_token(&self.lines[self.ln], self.col, &self.symbols, &self.keywords);
            proof {
                lemma_scan_at_end(line, syms, kws, c as int);
            }
            match step {
                Scan::Skip => {
                    assert(scan_all(line, syms, kws, c as int) == scan_all(line, syms, kws, c + 1));
                    self.advance();
                },
                Scan::Emit(tok, end) => {
                    let pos = self.jump_to(end);
                    let ghost old_done = done;
                    let ghost sp = Spanned { token: tok@, start: c as int, end: end as int };
                    assert(scan_all(line, syms, kws, c as int) == prepend(
                        seq![sp],
                        scan_all(line, syms, kws, end as int),
                    ));
                    proof {
                        lemma_prepend_twice(done, seq![sp], scan_all(line, syms, kws, end as int));
                        done = done + seq![sp];
                    }
                    let ghost before = tokens@;
                    let loc = Located::new(tok, pos);
                    let ghost lv = (loc.value@, loc.pos);
                    tokens.push(loc);
                    assert(tokens@ == before.push(loc));
                    assert(located_views(tokens@) =~= located_views(before).push(lv));
                    assert(done.drop_last() =~= old_done);
                    assert(located_views(tokens@) =~= done.map_values(
                        |t: Spanned| (t.token, line_span_pos(off, k, t.start, t.end)),
                    ));
                },
                Scan::Fail(e, end) => {
                    let pos = self.jump_to(end);
                    return Err(Error::new(e, pos));
                },
            }
        }
        assert(done + Seq::<Spanned>::empty() =~= done);
        Ok(tokens)
    }

    /// Scans from the cursor to the end of the text, line by line.
    pub fn lex(&mut self) -> (r: Result<Vec<Line>, Error>)
        requires
            old(self).fits(),
        ensures
            final(self).lines == old(self).lines,
            final(self).symbols == old(self).symbols,
            final(self).keywords == old(self).keywords,
            r is Ok && old(self).ln < old(self).lines.len() ==> final(self).ln == old(self).lines.len()
                && final(self).col == 0,
            lines_result_view(r) == lex_lines(
                old(self).line_list(),
                old(self).symbol_list(),
                old(self).keyword_list(),
                old(self).ln as int,
                old(self).col as int,
                old(self).line_start(),
            ),
    {
        let ghost lines = self.line_list();
        let ghost syms = self.symbol_list();
        let ghost kws = self.keyword_list();
        let ghost ln0 = self.ln as int;
        let ghost col0 = self.col as int;
        let ghost off0 = self.line_start();
        let ghost mut done: Seq<LineView> = Seq::empty();
        let mut out: Vec<Line> = Vec::new();
        while self.ln < self.lines.len()
            invariant
                self.fits(),
                self.lines == old(self).lines,
                self.symbols == old(self).symbols,
                self.keywords == old(self).keywords,
                lines == old(self).line_list(),
                syms == old(self).symbol_list(),
                kws == old(self).keyword_list(),
                ln0 == old(self).ln,
                col0 == old(self).col,
                off0 == old(self).line_start(),
                ln0 <= self.ln,
                ln0 < lines.len() ==> self.ln <= lines.len(),
                self.ln != ln0 ==> self.col == 0,
                lex_lines(lines, syms, kws, ln0, col0, off0) == prepend(
                    done,
                    lex_lines(lines, syms, kws, self.ln as int, self.col as int, self.line_start()),
                ),
                line_views(out@) == done,
            decreases self.lines.len() - self.ln,
        {
            let ghost k = self.ln as int;
            let ghost c0 = self.col as int;
            let ghost off = self.line_start();
            let ghost line = lines[k];
            assert(line == self.lines@[k]@);
            assert(rest_len(lines, k, c0) == max(c0, line.len() as int) + 1 + rest_len(
                lines,
                k + 1,
                0,
            ));
            proof {
                lemma_rest_len_nonneg(lines, k + 1, 0);
            }
            let mut indent: usize = 0;
            while self.col < self.lines[self.ln].len() && (self.lines[self.ln][self.col] == ' '
                || self.lines[self.ln][self.col] == '\t')
                invariant
                    self.lines == old(self).lines,
                    self.symbols == old(self).symbols,
                    self.keywords == old(self).keywords,
                    self.ln == k,
                    k < self.lines.len(),
                    line == self.lines@[k]@,
                    self.col <= self.idx,
                    self.line_start() == off,
                    off + max(c0, line.len() as int) + 1 <= usize::MAX,
                    0 <= c0 <= self.col,
                    c0 <= line.len() ==> self.col <= line.len(),
                    c0 > line.len() ==> self.col == c0,
                    indent == self.col - c0,
                    indent_end(line, c0) == indent_end(line, self.col as int),
                decreases line.len() - self.col,
            {
                indent += 1;
                self.advance();
            }
            match self.lex_rest_of_line() {
                Ok(tokens) => {
                    let l = Line { ln: self.ln, tokens, indent };
                    let ghost lv = l.view();
                    let ghost next = off + max(c0, line.len() as int) + 1;
                    assert(lex_lines(lines, syms, kws, k, c0, off) == prepend(
                        seq![lv],
                        lex_lines(lines, syms, kws, k + 1, 0, next),
                    ));
                    proof {
                        lemma_prepend_twice(done, seq![lv], lex_lines(lines, syms, kws, k + 1, 0, next));
                        done = done + seq![lv];
                    }
                    let ghost before = out@;
                    out.push(l);
                    assert(line_views(out@) =~= line_views(before).push(lv));
                    self.advance_line();
                },
                Err(e) => {
                    return Err(e);
                },
            }
        }
        assert(done + Seq::<LineView>::empty() =~= done);
        Ok(out)
    }
}

proof fn lemma_rest_len_nonneg(lines: Seq<Seq<char>>, k: int, c: int)
    ensures
        rest_len(lines, k, c) >= 0,
    decreases lines.len() - k,
{
    if 0 <= k < lines.len() {
        lemma_rest_len_nonneg(lines, k + 1, 0);
    }
}

/// Splits `s` at each newline.
fn split_at_newlines(s: &Vec<char>) -> (r: Vec<Vec<char>>)
    ensures
        views(r@) == split_lines(s@),
{
    let mut lines: Vec<Vec<char>> = Vec::new();
    let mut cur: Vec<char> = Vec::new();
    let mut k: usize = 0;
    while k < s.len()
        invariant
            k <= s.len(),
            views(lines@).push(cur@) == split_lines(s@.take(k as int)),
        decreases s.len() - k,
    {
        let ghost before = views(lines@).push(cur@);
        assert(s@.take(k + 1).drop_last() =~= s@.take(k as int));
        if s[k] == '\n' {
            let done = cur;
            lines.push(done);
            cur = Vec::new();
            assert(views(lines@).push(cur@) =~= before.push(Seq::empty()));
        } else {
            cur.push(s[k]);
            assert(views(lines@).push(cur@) =~= before.update(
                before.len() - 1,
                before.last().push(s@[k as int]),
            ));
        }
        k += 1;
    }
    lines.push(cur);
    assert(s@.take(k as int) =~= s@);
    lines
}

proof fn lemma_split_nonempty(s: Seq<char>)
    ensures
        split_lines(s).len() >= 1,
    decreases s.len(),
{
    if s.len() > 0 {
        lemma_split_nonempty(s.drop_last());
    }
}

/// The lines of a text and their separators add up to its length and one more.
proof fn lemma_total_len_split(s: Seq<char>)
    ensures
        total_len(split_lines(s)) == s.len() + 1,
    decreases s.len(),
{
    if s.len() == 0 {
        let l = split_lines(s);
        assert(l.drop_last() =~= Seq::<Seq<char>>::empty());
        assert(total_len(l.drop_last()) == 0);
        assert(total_len(l) == total_len(l.drop_last()) + l.last().len() + 1);
    } else {
        let p = split_lines(s.drop_last());
        lemma_split_nonempty(s.drop_last());
        lemma_total_len_split(s.drop_last());
        let l = split_lines(s);
        assert(total_len(l) == total_len(l.drop_last()) + l.last().len() + 1);
        if s.last() == '\n' {
            assert(l.drop_last() =~= p);
        } else {
            assert(l.drop_last() =~= p.drop_last());
            assert(total_len(p) == total_len(p.drop_last()) + p.last().len() + 1);
        }
    }
}

/// Walking through the lines from `k` on covers what the lines before `k`
/// leave of the total.
proof fn lemma_rest_len(lines: Seq<Seq<char>>, k: int)
    requires
        0 <= k <= lines.len(),
    ensures
        rest_len(lines, k, 0) + total_len(lines.take(k)) == total_len(lines),
    decreases lines.len() - k,
{
    if k < lines.len() {
        lemma_rest_len(lines, k + 1);
        assert(lines.take(k + 1).drop_last() =~= lines.take(k));
    } else {
        assert(lines.take(k) =~= lines);
    }
}

} // verus!
