use vstd::prelude::*;
use colored::Colorize;
use crate::model::ast::Span;
use crate::text::{append_decimal, append_repeat, append_str, byte_len, byte_length, decimal, push_char, repeat_char};

verus! {

/// Tab stops are this many spaces wide.
pub const TAB_INDENTATION: usize = 4;
/// How many lines around a reported span a message shows.
pub const ERROR_CONTEXT_LINES_MARGIN: usize = 2;

/// The escape sequence that turns on bold red text on a terminal.
pub open spec fn bold_red_start() -> Seq<char> {
    seq!['\x1b', '[', '1', ';', '3', '1', 'm']
}

/// The escape sequence that resets the text style.
pub open spec fn style_reset() -> Seq<char> {
    seq!['\x1b', '[', '0', 'm']
}

/// `out` is what painting `s` bold red gives: `s` itself where the terminal gets no colors,
/// or `s` between the two escape sequences, as long as `s` holds no escape character.
pub open spec fn painted(s: Seq<char>, out: Seq<char>) -> bool {
    !s.contains('\x1b') ==> (out == s || out == bold_red_start() + s + style_reset())
}

/// Paints `s` bold red for a terminal (`colored`'s `s.red().bold()`, displayed).
/// Whether colors are used depends on the environment and on whether the output
/// is a terminal; for input that already holds escape sequences the result is left unsaid.
#[verifier::external_body]
pub fn paint_error(s: &str) -> (res: String)
    ensures
        painted(s@, res@),
{
    s.red().bold().to_string()
}

/// The source with every tab replaced by spaces.
pub open spec fn expand_tabs(s: Seq<char>) -> Seq<char>
    decreases s.len(),
{
    if s.len() == 0 {
        Seq::empty()
    } else {
        expand_tabs(s.drop_last()) + (if s.last() == '\t' { repeat_char(' ', 4) } else { seq![s.last()] })
    }
}

/// The lines of `s`, split at each line break; a text with `n` line breaks has `n + 1` lines.
pub open spec fn split_lines(s: Seq<char>) -> Seq<Seq<char>>
    decreases s.len(),
{
    if s.len() == 0 {
        seq![Seq::empty()]
    } else {
        let ls = split_lines(s.drop_last());
        if s.last() == '\n' {
            ls.push(Seq::empty())
        } else {
            ls.update(ls.len() - 1, ls.last().push(s.last()))
        }
    }
}

pub proof fn lemma_split_lines_nonempty(s: Seq<char>)
    ensures
        split_lines(s).len() >= 1,
    decreases s.len(),
{
    if s.len() > 0 {
        lemma_split_lines_nonempty(s.drop_last());
    }
}

/// The models of a list of strings.
pub open spec fn strings_view(v: Seq<String>) -> Seq<Seq<char>> {
    Seq::new(v.len(), |i: int| v[i]@)
}

/// The byte offset at which line `row` starts, each line followed by one line break.
pub open spec fn line_start(lines: Seq<Seq<char>>, row: nat) -> nat
    decreases row,
{
    if row == 0 {
        0
    } else {
        line_start(lines, (row - 1) as nat) + byte_len(lines[row - 1]) + 1
    }
}

/// The first line, from `row` on, that holds byte offset `pos` (its line break counted),
/// with the column of `pos` in it.
pub open spec fn row_col_from(lines: Seq<Seq<char>>, pos: nat, row: nat) -> Option<(nat, nat)>
    decreases lines.len() - row,
{
    if row >= lines.len() {
        None
    } else if pos < line_start(lines, row + 1) {
        Some((row, (pos - line_start(lines, row)) as nat))
    } else {
        row_col_from(lines, pos, row + 1)
    }
}

/// The row and column of byte offset `pos`, both counted from zero.
pub open spec fn row_col(lines: Seq<Seq<char>>, pos: nat) -> Option<(nat, nat)> {
    row_col_from(lines, pos, 0)
}

proof fn lemma_line_start_mono(lines: Seq<Seq<char>>, a: nat, b: nat)
    requires
        a <= b,
    ensures
        line_start(lines, a) <= line_start(lines, b),
        a < b ==> line_start(lines, a) < line_start(lines, b),
    decreases b,
{
    if a < b {
        lemma_line_start_mono(lines, a, (b - 1) as nat);
    }
}

/// What `row_col_from` finds: a row at or after `row`, that holds `pos`.
proof fn lemma_row_col_from(lines: Seq<Seq<char>>, pos: nat, row: nat)
    requires
        line_start(lines, row) <= pos,
    ensures
        row_col_from(lines, pos, row) matches Some((r, c)) ==> {
            &&& row <= r < lines.len()
            &&& line_start(lines, r) <= pos < line_start(lines, r + 1)
            &&& c == pos - line_start(lines, r)
        },
        row_col_from(lines, pos, row) is None ==> pos >= line_start(lines, lines.len()),
    decreases lines.len() - row,
{
    if row < lines.len() && pos >= line_start(lines, row + 1) {
        lemma_row_col_from(lines, pos, row + 1);
    }
    if row >= lines.len() {
        lemma_line_start_mono(lines, lines.len(), row);
    }
}

/// Positions further on lie on the same row further right, or on a later row.
pub proof fn lemma_row_col_monotone(lines: Seq<Seq<char>>, p: nat, q: nat)
    requires
        p <= q,
        row_col(lines, p) is Some,
        row_col(lines, q) is Some,
    ensures
        row_col(lines, p).unwrap().0 <= row_col(lines, q).unwrap().0,
        row_col(lines, p).unwrap().0 == row_col(lines, q).unwrap().0 ==> row_col(lines, p).unwrap().1
            <= row_col(lines, q).unwrap().1,
        row_col(lines, q).unwrap().0 < lines.len(),
{
    lemma_row_col_from(lines, p, 0);
    lemma_row_col_from(lines, q, 0);
    let (r0, c0) = row_col(lines, p).unwrap();
    let (r1, c1) = row_col(lines, q).unwrap();
    if r1 < r0 {
        lemma_line_start_mono(lines, r1 + 1, r0);
    }
}

/// One piece of a message: its text, and whether it is painted for a terminal.
pub type Piece = (Seq<char>, bool);

pub open spec fn plain(s: Seq<char>) -> Seq<Piece> {
    seq![(s, false)]
}

pub open spec fn paint(s: Seq<char>) -> Seq<Piece> {
    seq![(s, true)]
}

/// `out` is the text of one piece: painted as `painted` allows, or as it is.
pub open spec fn piece_ok(p: Piece, out: Seq<char>) -> bool {
    if p.1 { painted(p.0, out) } else { out == p.0 }
}

/// `out` is the text of the pieces, one after the other.
pub open spec fn realizes(pieces: Seq<Piece>, out: Seq<char>) -> bool
    decreases pieces.len(),
{
    if pieces.len() == 0 {
        out.len() == 0
    } else {
        exists|k: int|
            0 <= k <= out.len() && piece_ok(pieces.last(), #[trigger] out.subrange(k, out.len() as int))
                && realizes(pieces.drop_last(), out.subrange(0, k))
    }
}

pub proof fn lemma_realizes_push(pieces: Seq<Piece>, out: Seq<char>, p: Piece, o: Seq<char>)
    requires
        realizes(pieces, out),
        piece_ok(p, o),
    ensures
        realizes(pieces.push(p), out + o),
{
    let all = out + o;
    assert(all.subrange(out.len() as int, all.len() as int) =~= o);
    assert(all.subrange(0, out.len() as int) =~= out);
    assert(pieces.push(p).drop_last() =~= pieces);
    assert(pieces.push(p).last() == p);
}

/// Two texts that realize two lists of pieces, one after the other, realize both lists.
pub proof fn lemma_realizes_concat(a: Seq<Piece>, x: Seq<char>, b: Seq<Piece>, y: Seq<char>)
    requires
        realizes(a, x),
        realizes(b, y),
    ensures
        realizes(a + b, x + y),
    decreases b.len(),
{
    if b.len() == 0 {
        assert(y.len() == 0);
        assert(a + b =~= a);
        assert(x + y =~= x);
    } else {
        let k = choose|k: int|
            0 <= k <= y.len() && piece_ok(b.last(), #[trigger] y.subrange(k, y.len() as int))
                && realizes(b.drop_last(), y.subrange(0, k));
        lemma_realizes_concat(a, x, b.drop_last(), y.subrange(0, k));
        assert(x + y.subrange(0, k) + y.subrange(k, y.len() as int) =~= x + y);
        lemma_realizes_push(a + b.drop_last(), x + y.subrange(0, k), b.last(), y.subrange(k, y.len() as int));
        assert((a + b.drop_last()).push(b.last()) =~= a + b);
    }
}

/// Context lines `lo` up to `hi`, each after `indent`.
pub open spec fn context_pieces(lines: Seq<Seq<char>>, indent: Seq<char>, lo: int, hi: int) -> Seq<Piece>
    decreases hi - lo,
{
    if hi <= lo {
        Seq::empty()
    } else {
        context_pieces(lines, indent, lo, hi - 1) + plain(indent + lines[hi - 1] + seq!['\n'])
    }
}

/// Lines `lo` up to `hi`, each after a painted bar.
pub open spec fn bar_pieces(lines: Seq<Seq<char>>, lo: int, hi: int) -> Seq<Piece>
    decreases hi - lo,
{
    if hi <= lo {
        Seq::empty()
    } else {
        bar_pieces(lines, lo, hi - 1) + paint(seq!['|']) + plain(seq![' '] + lines[hi - 1] + seq!['\n'])
    }
}

/// The part of a message that shows where the span lies in the source.
pub open spec fn location_pieces(filename: Seq<char>, lines: Seq<Seq<char>>, span: Span) -> Seq<Piece> {
    if span.0 == span.1 {
        Seq::empty()
    } else {
        let beg = row_col(lines, span.0 as nat);
        let end = row_col(lines, span.1 as nat);
        let head = match beg {
            Some((r, c)) => plain(filename + seq![':'] + decimal(r) + seq![':'] + decimal(c) + seq![':', '\n']),
            None => plain(filename + seq![':'] + decimal(span.0 as nat) + seq![':', '\n']),
        };
        match (beg, end) {
            (Some((r0, c0)), Some((r1, c1))) => {
                let indent = if r0 == r1 { Seq::empty() } else { seq![' ', ' '] };
                let lo: int = if r0 < 2 { 0 } else { r0 - 2 };
                let hi: int = if r1 + 3 <= lines.len() { (r1 + 3) as int } else { lines.len() as int };
                let mid = if r0 == r1 {
                    plain(lines[r0 as int] + seq!['\n']) + plain(repeat_char(' ', c0)) + paint(
                        repeat_char('^', (c1 - c0) as nat),
                    ) + plain(seq!['\n'])
                } else {
                    paint(seq!['/', '-']) + paint(repeat_char('-', c0)) + paint(seq!['v']) + plain(seq!['\n'])
                        + bar_pieces(lines, r0 as int, (r1 + 1) as int) + paint(seq!['\\']) + paint(
                        repeat_char('-', c1),
                    ) + paint(seq!['^']) + plain(seq!['\n'])
                };
                head + context_pieces(lines, indent, lo, r0 as int) + mid + context_pieces(
                    lines,
                    indent,
                    (r1 + 1) as int,
                    hi,
                )
            },
            _ => head,
        }
    }
}

/// A whole message: where the span lies, then the painted text and an empty line.
pub open spec fn message_pieces(filename: Seq<char>, lines: Seq<Seq<char>>, span: Span, msg: Seq<char>) -> Seq<Piece> {
    location_pieces(filename, lines, span) + paint(msg) + plain(seq!['\n', '\n'])
}

/// The source held for error messages, with its lines.
pub struct CodeMap<'a> {
    filename: &'a str,
    code: String,
    lines: Vec<String>,
}

fn push_plain(out: &mut String, s: &String, Ghost(pieces): Ghost<Seq<Piece>>)
    requires
        realizes(pieces, old(out)@),
    ensures
        realizes(pieces + plain(s@), final(out)@),
{
    let ghost o = out@;
    out.append(s.as_str());
    proof {
        lemma_realizes_push(pieces, o, (s@, false), s@);
        assert(pieces.push((s@, false)) =~= pieces + plain(s@));
    }
}

fn push_painted(out: &mut String, s: &String, Ghost(pieces): Ghost<Seq<Piece>>)
    requires
        realizes(pieces, old(out)@),
    ensures
        realizes(pieces + paint(s@), final(out)@),
{
    let ghost o = out@;
    let p = paint_error(s.as_str());
    out.append(p.as_str());
    proof {
        lemma_realizes_push(pieces, o, (s@, true), p@);
        assert(pieces.push((s@, true)) =~= pieces + paint(s@));
    }
}

fn char_string(c: char) -> (res: String)
    ensures
        res@ == seq![c],
{
    let mut s = String::new();
    push_char(&mut s, c);
    s
}

fn repeat_string(c: char, n: usize) -> (res: String)
    ensures
        res@ == repeat_char(c, n as nat),
{
    let mut s = String::new();
    append_repeat(&mut s, c, n);
    assert(s@ =~= repeat_char(c, n as nat));
    s
}

impl<'a> CodeMap<'a> {
    pub closed spec fn spec_filename(&self) -> Seq<char> {
        self.filename@
    }

    pub closed spec fn spec_code(&self) -> Seq<char> {
        self.code@
    }

    pub closed spec fn spec_lines(&self) -> Seq<Seq<char>> {
        strings_view(self.lines@)
    }

    /// The lines are those of the code.
    pub closed spec fn wf(&self) -> bool {
        strings_view(self.lines@) == split_lines(self.code@)
    }

    /// Holds a source: tabs become spaces, and the result is split into lines.
    pub fn new(filename: &'a str, code: &'a str) -> (res: Self)
        ensures
            res.wf(),
            res.spec_filename() == filename@,
            res.spec_code() == expand_tabs(code@),
            res.spec_lines() == split_lines(expand_tabs(code@)),
    {
        let mut text = String::new();
        let mut lines: Vec<String> = Vec::new();
        let mut cur = String::new();
        let ghost input = code@;
        for ch in it: code.chars()
            invariant
                it.seq() == input,
                text@ == expand_tabs(input.take(it.index() as int)),
                strings_view(lines@).push(cur@) == split_lines(text@),
        {
            let ghost prefix = input.take(it.index() as int);
            let ghost t0 = text@;
            proof {
                assert(input.take(it.index() + 1).drop_last() =~= prefix);
            }
            if ch == '\t' {
                let mut k: usize = 0;
                while k < TAB_INDENTATION
                    invariant
                        k <= 4,
                        text@ == t0 + repeat_char(' ', k as nat),
                        strings_view(lines@).push(cur@) == split_lines(text@),
                    decreases 4 - k,
                {
                    let ghost before = text@;
                    push_char(&mut text, ' ');
                    push_char(&mut cur, ' ');
                    k = k + 1;
                    proof {
                        assert(text@ =~= t0 + repeat_char(' ', k as nat));
                        assert(text@.drop_last() == before);
                        assert(strings_view(lines@).push(cur@) =~= split_lines(text@));
                    }
                }
            } else if ch == '\n' {
                push_char(&mut text, ch);
                let ghost old_lines = lines@;
                let ghost old_cur = cur@;
                let finished = cur;
                lines.push(finished);
                cur = String::new();
                proof {
                    assert(text@.drop_last() == t0);
                    assert(strings_view(lines@) =~= strings_view(old_lines).push(old_cur));
                    assert(strings_view(lines@).push(cur@) =~= split_lines(text@));
                }
            } else {
                push_char(&mut text, ch);
                push_char(&mut cur, ch);
                proof {
                    assert(text@.drop_last() == t0);
                    assert(strings_view(lines@).push(cur@) =~= split_lines(text@));
                }
            }
            proof {
                assert(text@ =~= expand_tabs(input.take(it.index() + 1)));
            }
        }
        proof {
            assert(input.take(input.len() as int) =~= input);
        }
        let ghost old_lines = lines@;
        lines.push(cur);
        proof {
            assert(strings_view(lines@) =~= strings_view(old_lines).push(lines@.last()@));
        }
        CodeMap { filename, code: text, lines }
    }

    /// The row and column, counted from zero, of byte offset `pos`.
    pub fn find_row_col(&self, pos: usize) -> (res: Option<(usize, usize)>)
        ensures
            match res {
                Some((r, c)) => row_col(self.spec_lines(), pos as nat) == Some((r as nat, c as nat)),
                None => row_col(self.spec_lines(), pos as nat) is None,
            },
    {
        let ghost lines = self.spec_lines();
        let mut cur_pos: usize = 0;
        let mut row: usize = 0;
        while row < self.lines.len()
            invariant
                lines == strings_view(self.lines@),
                row <= lines.len(),
                cur_pos == line_start(lines, row as nat),
                cur_pos <= pos,
                row_col(lines, pos as nat) == row_col_from(lines, pos as nat, row as nat),
            decreases lines.len() - row,
        {
            let len = byte_length(self.lines[row].as_str());
            assert(len == byte_len(lines[row as int]));
            if pos - cur_pos <= len {
                return Some((row, pos - cur_pos));
            }
            cur_pos = cur_pos + len + 1;
            row = row + 1;
        }
        None
    }

    #[verifier::rlimit(60)]
    #[verifier::spinoff_prover]
    /// A message about `span`: where it lies, with the lines around it, the part it covers
    /// marked, and then `msg`. An empty span gives the message alone.
    pub fn format_message(&self, span: Span, msg: &str) -> (res: String)
        requires
            span.0 <= span.1,
        ensures
            realizes(message_pieces(self.spec_filename(), self.spec_lines(), span, msg@), res@),
    {
        let ghost lines = self.spec_lines();
        let ghost mut pieces: Seq<Piece> = Seq::empty();
        let mut result = String::new();
        if span.0 != span.1 {
            let beg_row_col = self.find_row_col(span.0);
            let end_row_col = self.find_row_col(span.1);
            let mut head = String::new();
            head.append(self.filename);
            push_char(&mut head, ':');
            match beg_row_col {
                Some((row, col)) => {
                    append_decimal(&mut head, row as u64);
                    push_char(&mut head, ':');
                    append_decimal(&mut head, col as u64);
                },
                None => {
                    append_decimal(&mut head, span.0 as u64);
                },
            }
            push_char(&mut head, ':');
            push_char(&mut head, '\n');
            proof {
                match beg_row_col {
                    Some((row, col)) => {
                        assert(head@ =~= self.spec_filename() + seq![':'] + decimal(row as nat) + seq![':'] + decimal(col as nat) + seq![':', '\n']);
                    },
                    None => {
                        assert(head@ =~= self.spec_filename() + seq![':'] + decimal(span.0 as nat) + seq![':', '\n']);
                    },
                }
            }
            push_plain(&mut result, &head, Ghost(pieces));
            proof {
                pieces = pieces + plain(head@);
                assert(pieces =~= match row_col(lines, span.0 as nat) {
                    Some((r, c)) => plain(self.spec_filename() + seq![':'] + decimal(r) + seq![':'] + decimal(c) + seq![':', '\n']),
                    None => plain(self.spec_filename() + seq![':'] + decimal(span.0 as nat) + seq![':', '\n']),
                });
            }
            if let (Some((row0, col0)), Some((row1, col1))) = (beg_row_col, end_row_col) {
                proof {
                    lemma_row_col_monotone(lines, span.0 as nat, span.1 as nat);
                }
                let indent = if row0 == row1 { String::new() } else { let mut t = String::new(); push_char(&mut t, ' '); push_char(&mut t, ' '); t };
                let ghost ind = indent@;
                assert(ind == (if row0 == row1 { Seq::<char>::empty() } else { seq![' ', ' '] }));
                let lo_ind = if row0 < ERROR_CONTEXT_LINES_MARGIN { 0 } else { row0 - ERROR_CONTEXT_LINES_MARGIN };
                let ghost base = pieces;
                let mut i = lo_ind;
                while i < row0
                    invariant
                        lines == strings_view(self.lines@),
                        row0 < lines.len(),
                        lo_ind <= i <= row0,
                        indent@ == ind,
                        pieces == base + context_pieces(lines, ind, lo_ind as int, i as int),
                        realizes(pieces, result@),
                    decreases row0 - i,
                {
                    let mut t = indent.clone();
                    t.append(self.lines[i].as_str());
                    push_char(&mut t, '\n');
                    assert(t@ == ind + lines[i as int] + seq!['\n']);
                    push_plain(&mut result, &t, Ghost(pieces));
                    proof {
                        pieces = pieces + plain(t@);
                        assert(context_pieces(lines, ind, lo_ind as int, i + 1) == context_pieces(lines, ind, lo_ind as int, i as int) + plain(t@));
                        assert(pieces =~= base + context_pieces(lines, ind, lo_ind as int, i + 1));
                    }
                    i = i + 1;
                }
                let ghost base2 = pieces;
                if row0 == row1 {
                    let mut t = self.lines[row0].clone();
                    push_char(&mut t, '\n');
                    assert(t@ =~= lines[row0 as int] + seq!['\n']);
                    push_plain(&mut result, &t, Ghost(pieces));
                    proof { pieces = pieces + plain(t@); }
                    let sp = repeat_string(' ', col0);
                    push_plain(&mut result, &sp, Ghost(pieces));
                    proof { pieces = pieces + plain(sp@); }
                    let marks = repeat_string('^', col1 - col0);
                    push_painted(&mut result, &marks, Ghost(pieces));
                    proof { pieces = pieces + paint(marks@); }
                    let nl = char_string('\n');
                    push_plain(&mut result, &nl, Ghost(pieces));
                    proof {
                        pieces = pieces + plain(nl@);
                        assert(pieces =~= base2 + (plain(lines[row0 as int] + seq!['\n']) + plain(repeat_char(' ', col0 as nat)) + paint(
                            repeat_char('^', (col1 - col0) as nat)) + plain(seq!['\n'])));
                    }
                } else {
                    let mut t = char_string('/');
                    push_char(&mut t, '-');
                    assert(t@ =~= seq!['/', '-']);
                    push_painted(&mut result, &t, Ghost(pieces));
                    proof { pieces = pieces + paint(t@); }
                    let dashes = repeat_string('-', col0);
                    push_painted(&mut result, &dashes, Ghost(pieces));
                    proof { pieces = pieces + paint(dashes@); }
                    let v = char_string('v');
                    push_painted(&mut result, &v, Ghost(pieces));
                    proof { pieces = pieces + paint(v@); }
                    let nl = char_string('\n');
                    push_plain(&mut result, &nl, Ghost(pieces));
                    proof { pieces = pieces + plain(nl@); }
                    let ghost base3 = pieces;
                    let mut j = row0;
                    while j <= row1
                        invariant
                            lines == strings_view(self.lines@),
                            row0 <= j <= row1 + 1,
                            row1 < lines.len(),
                            row1 < self.lines.len(),
                            pieces == base3 + bar_pieces(lines, row0 as int, j as int),
                            realizes(pieces, result@),
                        decreases row1 + 1 - j,
                    {
                        let bar = char_string('|');
                        push_painted(&mut result, &bar, Ghost(pieces));
                        proof { pieces = pieces + paint(bar@); }
                        let mut t = char_string(' ');
                        t.append(self.lines[j].as_str());
                        push_char(&mut t, '\n');
                        push_plain(&mut result, &t, Ghost(pieces));
                        proof {
                            pieces = pieces + plain(t@);
                            assert(t@ == seq![' '] + lines[j as int] + seq!['\n']);
                            assert(bar_pieces(lines, row0 as int, j + 1) == bar_pieces(lines, row0 as int, j as int) + paint(seq!['|']) + plain(t@));
                            assert(pieces =~= base3 + bar_pieces(lines, row0 as int, j + 1));
                        }
                        j = j + 1;
                    }
                    let bs = char_string('\\');
                    push_painted(&mut result, &bs, Ghost(pieces));
                    proof { pieces = pieces + paint(bs@); }
                    let dashes1 = repeat_string('-', col1);
                    push_painted(&mut result, &dashes1, Ghost(pieces));
                    proof { pieces = pieces + paint(dashes1@); }
                    let caret = char_string('^');
                    push_painted(&mut result, &caret, Ghost(pieces));
                    proof { pieces = pieces + paint(caret@); }
                    let nl2 = char_string('\n');
                    push_plain(&mut result, &nl2, Ghost(pieces));
                    proof {
                        pieces = pieces + plain(nl2@);
                        assert(pieces =~= base2 + (paint(seq!['/', '-']) + paint(repeat_char('-', col0 as nat)) + paint(seq!['v']) + plain(seq!['\n'])
                            + bar_pieces(lines, row0 as int, (row1 + 1) as int) + paint(seq!['\\']) + paint(
                            repeat_char('-', col1 as nat),
                        ) + paint(seq!['^']) + plain(seq!['\n'])));
                    }
                }
                let ghost base4 = pieces;
                let hi: usize = if self.lines.len() - row1 >= 3 { row1 + 3 } else { self.lines.len() };
                let mut k = row1 + 1;
                while k < hi
                    invariant
                        lines == strings_view(self.lines@),
                        row1 + 1 <= k,
                        row1 < lines.len(),
                        hi <= lines.len(),
                        k <= hi || k == row1 + 1,
                        indent@ == ind,
                        pieces == base4 + context_pieces(lines, ind, (row1 + 1) as int, k as int),
                        realizes(pieces, result@),
                    decreases hi - k,
                {
                    let mut t = indent.clone();
                    t.append(self.lines[k].as_str());
                    push_char(&mut t, '\n');
                    assert(t@ == ind + lines[k as int] + seq!['\n']);
                    push_plain(&mut result, &t, Ghost(pieces));
                    proof {
                        pieces = pieces + plain(t@);
                        assert(context_pieces(lines, ind, (row1 + 1) as int, k + 1) == context_pieces(lines, ind, (row1 + 1) as int, k as int) + plain(t@));
                        assert(pieces =~= base4 + context_pieces(lines, ind, (row1 + 1) as int, k + 1));
                    }
                    k = k + 1;
                }
                proof {
                    if hi < row1 + 1 {
                        assert(context_pieces(lines, ind, (row1 + 1) as int, hi as int) =~= Seq::<Piece>::empty());
                    }
                    assert(context_pieces(lines, ind, (row1 + 1) as int, k as int) == context_pieces(lines, ind, (row1 + 1) as int, hi as int));
                    assert(pieces =~= location_pieces(self.spec_filename(), lines, span));
                }
            } else {
                assert(pieces =~= location_pieces(self.spec_filename(), lines, span));
            }
        }
        let ghost loc = pieces;
        assert(loc == location_pieces(self.spec_filename(), lines, span));
        let m = msg.to_owned();
        push_painted(&mut result, &m, Ghost(pieces));
        proof { pieces = pieces + paint(m@); }
        let mut nn = char_string('\n');
        push_char(&mut nn, '\n');
        assert(nn@ =~= seq!['\n', '\n']);
        push_plain(&mut result, &nn, Ghost(pieces));
        proof {
            pieces = pieces + plain(nn@);
            assert(pieces =~= message_pieces(self.spec_filename(), lines, span, msg@));
        }
        result
    }

    /// The code, tabs expanded.
    pub fn get_code(&self) -> (res: &str)
        ensures
            res@ == self.spec_code(),
    {
        self.code.as_str()
    }
}

} // verus!
