//! The text formats of a body: the tuple list and the analysis format, which
//! can also be read back.

use vstd::prelude::*;
use vstd::string::*;
use crate::decimal::{decimal, is_digit, lemma_decimal, parse_token, push_decimal, token_value};
use crate::lattice::Cell;
use crate::polycube::Polycube;

verus! {

/// One cell of the tuple list: `(x, y, z), `.
pub open spec fn tuple_item(c: Cell) -> Seq<char> {
    seq!['('] + decimal(c.0 as int) + seq![',', ' '] + decimal(c.1 as int) + seq![',', ' ']
        + decimal(c.2 as int) + seq![')', ',', ' ']
}

/// The cells of `order` as they stand in the tuple list, one after the
/// other.
pub open spec fn tuple_items(order: Seq<Cell>) -> Seq<char>
    decreases order.len(),
{
    if order.len() == 0 {
        Seq::empty()
    } else {
        tuple_item(order[0]) + tuple_items(order.drop_first())
    }
}

/// The tuple list of the cells of `order`: `[(x, y, z), (x, y, z), ]`, with
/// a comma and a space after every cell, the last one too.
pub open spec fn tuples_text(order: Seq<Cell>) -> Seq<char> {
    seq!['['] + tuple_items(order) + seq![']']
}

/// One line of the analysis format without its end: `x y z 1`.
pub open spec fn analysis_line(c: Cell) -> Seq<char> {
    decimal(c.0 as int) + seq![' '] + decimal(c.1 as int) + seq![' '] + decimal(c.2 as int)
        + seq![' ', '1']
}

/// The lines of the cells of `order`, one after the other, each ended by a
/// newline.
pub open spec fn analysis_lines(order: Seq<Cell>) -> Seq<char>
    decreases order.len(),
{
    if order.len() == 0 {
        Seq::empty()
    } else {
        analysis_line(order[0]) + seq!['\n'] + analysis_lines(order.drop_first())
    }
}

/// The analysis format of the cells of `order`: the line `3`, then one line
/// `x y z 1` for each cell, every line ended by a newline.
pub open spec fn analysis_text(order: Seq<Cell>) -> Seq<char> {
    seq!['3', '\n'] + analysis_lines(order)
}

/// The first place at or after `from` at which `c` stands in `t`, or the
/// length of `t` if there is none.
pub open spec fn find(t: Seq<char>, c: char, from: int) -> int
    decreases t.len() - from,
{
    if from < 0 || from >= t.len() {
        t.len() as int
    } else if t[from] == c {
        from
    } else {
        find(t, c, from + 1)
    }
}

/// The first place at or after `from` at which no newline stands in `t`.
pub open spec fn skip_newlines(t: Seq<char>, from: int) -> int
    decreases t.len() - from,
{
    if 0 <= from < t.len() && t[from] == '\n' {
        skip_newlines(t, from + 1)
    } else {
        from
    }
}

/// The cell that a line of the analysis format names: three tokens that
/// mean integers and the marker `1`, with one space between each two. Any
/// other line names none.
pub open spec fn line_cell(line: Seq<char>) -> Option<Cell> {
    let a = find(line, ' ', 0);
    let b = find(line, ' ', a + 1);
    let c = find(line, ' ', b + 1);
    if c < line.len() && line.skip(c + 1) =~= seq!['1'] {
        match (
            token_value(line.subrange(0, a)),
            token_value(line.subrange(a + 1, b)),
            token_value(line.subrange(b + 1, c)),
        ) {
            (Some(x), Some(y), Some(z)) => Some((x, y, z)),
            _ => None,
        }
    } else {
        None
    }
}

/// The cells that the lines of `rest` name, in the order of the lines, or,
/// from the first line that names none, the text that is left. A line ends
/// at a newline or with the text, and the newlines after it are passed over.
pub open spec fn parse_lines(rest: Seq<char>) -> Result<Seq<Cell>, Seq<char>>
    decreases rest.len(),
    via parse_lines_decreases
{
    if rest.len() == 0 {
        Ok(Seq::empty())
    } else {
        let end = find(rest, '\n', 0);
        if end == 0 {
            Err(rest)
        } else {
            match line_cell(rest.take(end)) {
                None => Err(rest),
                Some(c) => match parse_lines(rest.skip(skip_newlines(rest, end))) {
                    Ok(cells) => Ok(seq![c] + cells),
                    Err(left) => Err(left),
                },
            }
        }
    }
}

#[via_fn]
proof fn parse_lines_decreases(rest: Seq<char>) {
    if rest.len() != 0 {
        let end = find(rest, '\n', 0);
        lemma_find_bounds(rest, '\n', 0);
        lemma_skip_newlines_bounds(rest, end);
    }
}

/// What a text in the analysis format holds: after the line `3`, the cells
/// that its lines name, in the order of the lines. A text that does not
/// start with that line is left whole.
pub open spec fn parse_analysis(text: Seq<char>) -> Result<Seq<Cell>, Seq<char>> {
    if text.len() >= 2 && text[0] == '3' && text[1] == '\n' {
        parse_lines(text.skip(2))
    } else {
        Err(text)
    }
}

/// `find` answers with a place between `from` and the end of the text.
pub proof fn lemma_find_bounds(t: Seq<char>, c: char, from: int)
    requires
        0 <= from <= t.len(),
    ensures
        from <= find(t, c, from) <= t.len(),
        find(t, c, from) < t.len() ==> t[find(t, c, from)] == c,
        forall|i: int| from <= i < find(t, c, from) ==> t[i] != c,
    decreases t.len() - from,
{
    if from < t.len() && t[from] != c {
        lemma_find_bounds(t, c, from + 1);
    }
}

/// `find` answers with the place `at` when `c` stands there and nowhere
/// between `from` and `at`.
pub proof fn lemma_find_at(t: Seq<char>, c: char, from: int, at: int)
    requires
        0 <= from <= at <= t.len(),
        forall|i: int| from <= i < at ==> t[i] != c,
        at < t.len() ==> t[at] == c,
    ensures
        find(t, c, from) == at,
    decreases at - from,
{
    if from < at {
        lemma_find_at(t, c, from + 1, at);
    }
}

/// `skip_newlines` answers with a place between `from` and the end of the
/// text.
pub proof fn lemma_skip_newlines_bounds(t: Seq<char>, from: int)
    requires
        0 <= from <= t.len(),
    ensures
        from <= skip_newlines(t, from) <= t.len(),
    decreases t.len() - from,
{
    if from < t.len() && t[from] == '\n' {
        lemma_skip_newlines_bounds(t, from + 1);
    }
}

/// The tuple items of a list with one more cell at its end are those of the
/// list and then that of the cell.
pub proof fn lemma_tuple_items_push(order: Seq<Cell>, c: Cell)
    ensures
        tuple_items(order.push(c)) == tuple_items(order) + tuple_item(c),
    decreases order.len(),
{
    let more = order.push(c);
    if order.len() == 0 {
        assert(more.drop_first() =~= Seq::<Cell>::empty());
        assert(tuple_items(more.drop_first()) =~= Seq::<char>::empty());
        assert(tuple_items(more) =~= tuple_items(order) + tuple_item(c));
    } else {
        assert(more.drop_first() =~= order.drop_first().push(c));
        lemma_tuple_items_push(order.drop_first(), c);
        assert(tuple_items(more) =~= tuple_items(order) + tuple_item(c));
    }
}

/// The lines of a list with one more cell at its end are those of the list
/// and then the line of the cell.
pub proof fn lemma_analysis_lines_push(order: Seq<Cell>, c: Cell)
    ensures
        analysis_lines(order.push(c)) == analysis_lines(order) + (analysis_line(c) + seq!['\n']),
    decreases order.len(),
{
    let more = order.push(c);
    if order.len() == 0 {
        assert(more.drop_first() =~= Seq::<Cell>::empty());
        assert(analysis_lines(more.drop_first()) =~= Seq::<char>::empty());
        assert(analysis_lines(more) =~= analysis_lines(order) + (analysis_line(c) + seq!['\n']));
    } else {
        assert(more.drop_first() =~= order.drop_first().push(c));
        lemma_analysis_lines_push(order.drop_first(), c);
        assert(analysis_lines(more) =~= analysis_lines(order) + (analysis_line(c) + seq!['\n']));
    }
}

/// A written line holds no newline, does not start with one, and names the
/// cell that was written.
pub proof fn lemma_line_cell(c: Cell)
    ensures
        analysis_line(c).len() > 0,
        forall|i: int| 0 <= i < analysis_line(c).len() ==> #[trigger] analysis_line(c)[i] != '\n',
        line_cell(analysis_line(c)) == Some(c),
{
    let dx = decimal(c.0 as int);
    let dy = decimal(c.1 as int);
    let dz = decimal(c.2 as int);
    lemma_decimal(c.0);
    lemma_decimal(c.1);
    lemma_decimal(c.2);
    let line = analysis_line(c);
    let a = dx.len() as int;
    let b = a + 1 + dy.len();
    let e = b + 1 + dz.len();
    assert(line.len() == e + 2);
    assert forall|i: int| 0 <= i < line.len() implies #[trigger] line[i] == (if i < a {
        dx[i]
    } else if i == a {
        ' '
    } else if i < b {
        dy[i - a - 1]
    } else if i == b {
        ' '
    } else if i < e {
        dz[i - b - 1]
    } else if i == e {
        ' '
    } else {
        '1'
    }) by {}
    assert forall|i: int| 0 <= i < line.len() implies #[trigger] line[i] != '\n' by {
        if i < a {
            assert(is_digit(dx[i]) || dx[i] == '-');
        } else if a < i < b {
            assert(is_digit(dy[i - a - 1]) || dy[i - a - 1] == '-');
        } else if b < i < e {
            assert(is_digit(dz[i - b - 1]) || dz[i - b - 1] == '-');
        }
    }
    assert forall|i: int| 0 <= i < a implies line[i] != ' ' by {
        assert(is_digit(dx[i]) || dx[i] == '-');
    }
    assert forall|i: int| a + 1 <= i < b implies line[i] != ' ' by {
        assert(is_digit(dy[i - a - 1]) || dy[i - a - 1] == '-');
    }
    assert forall|i: int| b + 1 <= i < e implies line[i] != ' ' by {
        assert(is_digit(dz[i - b - 1]) || dz[i - b - 1] == '-');
    }
    lemma_find_at(line, ' ', 0, a);
    lemma_find_at(line, ' ', a + 1, b);
    lemma_find_at(line, ' ', b + 1, e);
    assert(line.subrange(0, a) =~= dx);
    assert(line.subrange(a + 1, b) =~= dy);
    assert(line.subrange(b + 1, e) =~= dz);
    assert(line.skip(e + 1) =~= seq!['1']);
}

/// Where the first line of a text ends and the next one starts, when the
/// line holds no newline and one newline follows it.
pub proof fn lemma_first_line_ends(line: Seq<char>, after: Seq<char>)
    requires
        forall|i: int| 0 <= i < line.len() ==> #[trigger] line[i] != '\n',
        after.len() > 0 ==> after[0] != '\n',
    ensures
        find(line + seq!['\n'] + after, '\n', 0) == line.len(),
        (line + seq!['\n'] + after).take(line.len() as int) == line,
        skip_newlines(line + seq!['\n'] + after, line.len() as int) == line.len() + 1,
        (line + seq!['\n'] + after).skip(line.len() as int + 1) == after,
{
    let rest = line + seq!['\n'] + after;
    let end = line.len() as int;
    assert(find(rest, '\n', 0) == end) by {
        assert forall|i: int| 0 <= i < end implies rest[i] != '\n' by {
            assert(rest[i] == line[i]);
        }
        assert(rest[end] == '\n');
        lemma_find_at(rest, '\n', 0, end);
    }
    assert(rest.take(end) =~= line);
    assert(skip_newlines(rest, end) == end + 1) by {
        assert(rest[end] == '\n');
        assert(skip_newlines(rest, end) == skip_newlines(rest, end + 1));
        if after.len() > 0 {
            assert(rest[end + 1] == after[0]);
        }
    }
    assert(rest.skip(end + 1) =~= after);
}

/// A text that starts with a line that names `c`, ended by one newline, holds
/// `c` and then what the text after that line holds.
pub proof fn lemma_parse_first_line(line: Seq<char>, c: Cell, after: Seq<char>)
    requires
        line.len() > 0,
        forall|i: int| 0 <= i < line.len() ==> #[trigger] line[i] != '\n',
        line_cell(line) == Some(c),
        after.len() > 0 ==> after[0] != '\n',
    ensures
        parse_lines(line + seq!['\n'] + after) == with_cells(parse_lines(after), seq![c]),
{
    lemma_first_line_ends(line, after);
}

/// Reading the written lines of a list of cells gives back the list.
pub proof fn lemma_parse_written_lines(order: Seq<Cell>)
    ensures
        parse_lines(analysis_lines(order)) == Ok::<Seq<Cell>, Seq<char>>(order),
    decreases order.len(),
{
    if order.len() == 0 {
        assert(order =~= Seq::<Cell>::empty());
    } else {
        let c = order[0];
        let tail = order.drop_first();
        let after = analysis_lines(tail);
        lemma_line_cell(c);
        lemma_parse_written_lines(tail);
        if tail.len() > 0 {
            lemma_line_cell(tail[0]);
            let first = analysis_line(tail[0]);
            assert(after[0] == first[0]);
        }
        lemma_parse_first_line(analysis_line(c), c, after);
        assert(seq![c] + tail =~= order);
    }
}

/// Writing cells in the analysis format and reading the text back gives the
/// same cells in the same order, and so the same set of cells whatever the
/// order in which they were written.
pub proof fn lemma_export_import_round_trip(order: Seq<Cell>)
    ensures
        parse_analysis(analysis_text(order)) == Ok::<Seq<Cell>, Seq<char>>(order),
{
    let text = analysis_text(order);
    lemma_parse_written_lines(order);
    assert(text.skip(2) =~= analysis_lines(order));
}

/// The tuple list of the cells of `order`, in their order.
pub fn tuples_of(order: &Vec<Cell>) -> (text: String)
    ensures
        text@ == tuples_text(order@),
{
    proof {
        reveal_strlit("[");
        reveal_strlit("]");
    }
    let mut export = String::from_str("[");
    let mut i: usize = 0;
    while i < order.len()
        invariant
            i <= order.len(),
            export@ == seq!['['] + tuple_items(order@.take(i as int)),
        decreases order.len() - i,
    {
        let piece = order[i];
        let ghost before = export@;
        export.append("(");
        push_decimal(&mut export, piece.0);
        export.append(", ");
        push_decimal(&mut export, piece.1);
        export.append(", ");
        push_decimal(&mut export, piece.2);
        export.append("), ");
        proof {
            reveal_strlit("(");
            reveal_strlit(", ");
            reveal_strlit("), ");
            assert(export@ =~= before + tuple_item(piece));
            assert(order@.take(i + 1) =~= order@.take(i as int).push(piece));
            lemma_tuple_items_push(order@.take(i as int), piece);
            assert(export@ =~= seq!['['] + tuple_items(order@.take(i + 1)));
        }
        i = i + 1;
    }
    export.append("]");
    proof {
        assert(order@.take(order.len() as int) =~= order@);
    }
    export
}

/// The analysis format of the cells of `order`, in their order.
pub fn analysis_of(order: &Vec<Cell>) -> (text: String)
    ensures
        text@ == analysis_text(order@),
{
    proof {
        reveal_strlit("3\n");
    }
    let mut export = String::from_str("3\n");
    proof {
        assert(export@ =~= seq!['3', '\n'] + analysis_lines(order@.take(0)));
    }
    let mut i: usize = 0;
    while i < order.len()
        invariant
            i <= order.len(),
            export@ == seq!['3', '\n'] + analysis_lines(order@.take(i as int)),
        decreases order.len() - i,
    {
        let piece = order[i];
        let ghost before = export@;
        push_decimal(&mut export, piece.0);
        export.append(" ");
        push_decimal(&mut export, piece.1);
        export.append(" ");
        push_decimal(&mut export, piece.2);
        export.append(" 1\n");
        proof {
            reveal_strlit(" ");
            reveal_strlit(" 1\n");
            assert(export@ =~= before + (analysis_line(piece) + seq!['\n']));
            assert(order@.take(i + 1) =~= order@.take(i as int).push(piece));
            lemma_analysis_lines_push(order@.take(i as int), piece);
            assert(export@ =~= seq!['3', '\n'] + analysis_lines(order@.take(i + 1)));
        }
        i = i + 1;
    }
    proof {
        assert(order@.take(order.len() as int) =~= order@);
    }
    export
}

/// Why a text could not be read as the analysis format: the text that was
/// left unread, from the first line at fault.
#[derive(Debug)]
pub struct ImportParseError {
    pub remainder: String,
}

/// What a text holds when `seen` are the cells of the lines read so far and
/// `ahead` is what the rest of the text holds.
pub open spec fn with_cells(ahead: Result<Seq<Cell>, Seq<char>>, seen: Seq<Cell>) -> Result<Seq<Cell>, Seq<char>> {
    match ahead {
        Ok(cells) => Ok(seen + cells),
        Err(left) => Err(left),
    }
}

/// The characters of `s`.
fn chars_of(s: &str) -> (out: Vec<char>)
    ensures
        out@ == s@,
{
    broadcast use axiom_spec_iter;
    let mut out: Vec<char> = Vec::new();
    for c in it: s.chars()
        invariant
            it.seq() == s@,
            out@ == s@.take(it.index()),
    {
        proof {
            assert(s@.take(it.index() + 1) =~= s@.take(it.index()).push(c));
        }
        out.push(c);
    }
    proof {
        assert(s@.take(s@.len() as int) =~= s@);
    }
    out
}

/// The first place at or after `from` at which `c` stands in `t`, or the
/// length of `t`.
fn find_char(t: &Vec<char>, c: char, from: usize) -> (at: usize)
    requires
        from <= t.len(),
    ensures
        at == find(t@, c, from as int),
        from <= at <= t.len(),
{
    let mut at: usize = from;
    while at < t.len() && t[at] != c
        invariant
            from <= at <= t.len(),
            find(t@, c, from as int) == find(t@, c, at as int),
        decreases t.len() - at,
    {
        at = at + 1;
    }
    at
}

/// The characters of `t` from `from` up to `to`.
fn sub_vec(t: &Vec<char>, from: usize, to: usize) -> (out: Vec<char>)
    requires
        from <= to <= t.len(),
    ensures
        out@ == t@.subrange(from as int, to as int),
{
    let mut out: Vec<char> = Vec::new();
    let mut i: usize = from;
    while i < to
        invariant
            from <= i <= to <= t.len(),
            out@ == t@.subrange(from as int, i as int),
        decreases to - i,
    {
        proof {
            assert(t@.subrange(from as int, i + 1) =~= t@.subrange(from as int, i as int).push(t@[i as int]));
        }
        out.push(t[i]);
        i = i + 1;
    }
    out
}

/// Reads one line of the analysis format, without its end.
pub fn parse_line(line: &Vec<char>) -> (r: Option<Cell>)
    ensures
        r == line_cell(line@),
{
    let n = line.len();
    let a = find_char(line, ' ', 0);
    if a >= n {
        proof {
            assert(find(line@, ' ', a + 1) == n);
            assert(find(line@, ' ', n + 1) == n);
        }
        return None;
    }
    let b = find_char(line, ' ', a + 1);
    if b >= n {
        proof {
            assert(find(line@, ' ', b + 1) == n);
        }
        return None;
    }
    let c = find_char(line, ' ', b + 1);
    if c >= n {
        return None;
    }
    if !(n - c == 2 && line[c + 1] == '1') {
        proof {
            if line@.skip(c + 1) =~= seq!['1'] {
                assert(line@.skip(c + 1).len() == 1);
                assert(line@.skip(c + 1)[0] == line@[c + 1]);
            }
        }
        return None;
    }
    proof {
        assert(line@.skip(c + 1) =~= seq!['1']);
    }
    let x = parse_token(&sub_vec(line, 0, a));
    let y = parse_token(&sub_vec(line, a + 1, b));
    let z = parse_token(&sub_vec(line, b + 1, c));
    match (x, y, z) {
        (Some(x), Some(y), Some(z)) => Some((x, y, z)),
        _ => None,
    }
}

/// Reads a text in the analysis format: the cells that it names, in the
/// order of its lines, or the place of the first line at fault.
pub fn parse_cells(text: &Vec<char>) -> (r: Result<Vec<Cell>, usize>)
    ensures
        match parse_analysis(text@) {
            Ok(cells) => r matches Ok(order) && order@ == cells,
            Err(left) => r matches Err(at) && at <= text.len() && text@.skip(at as int) == left,
        },
{
    let n = text.len();
    if !(n >= 2 && text[0] == '3' && text[1] == '\n') {
        proof {
            assert(text@.skip(0) =~= text@);
        }
        return Err(0);
    }
    let mut order: Vec<Cell> = Vec::new();
    let mut pos: usize = 2;
    proof {
        let ahead = parse_lines(text@.skip(2));
        match ahead {
            Ok(cells) => {
                assert(order@ + cells =~= cells);
            },
            Err(left) => {},
        }
    }
    while pos < n
        invariant
            2 <= pos <= n,
            n == text.len(),
            parse_analysis(text@) == parse_lines(text@.skip(2)),
            parse_lines(text@.skip(2)) == with_cells(parse_lines(text@.skip(pos as int)), order@),
        decreases n - pos,
    {
        let ghost rest = text@.skip(pos as int);
        let end = find_char(text, '\n', pos);
        proof {
            lemma_find_shift(text@, '\n', pos as int, pos as int);
            assert(find(rest, '\n', 0) == end - pos);
            assert(rest.take(end - pos) =~= text@.subrange(pos as int, end as int));
        }
        if end == pos {
            return Err(pos);
        }
        let line = sub_vec(text, pos, end);
        let block = match parse_line(&line) {
            Some(block) => block,
            None => {
                return Err(pos);
            },
        };
        let mut next: usize = end;
        while next < n && text[next] == '\n'
            invariant
                end <= next <= n,
                n == text.len(),
                skip_newlines(text@, end as int) == skip_newlines(text@, next as int),
            decreases n - next,
        {
            next = next + 1;
        }
        proof {
            lemma_skip_newlines_shift(text@, pos as int, end as int);
            assert(skip_newlines(rest, end - pos) == next - pos);
            assert(rest.skip(next - pos) =~= text@.skip(next as int));
            let ahead = parse_lines(text@.skip(next as int));
            match ahead {
                Ok(cells) => {
                    assert(order@ + (seq![block] + cells) =~= order@.push(block) + cells);
                },
                Err(left) => {},
            }
        }
        order.push(block);
        pos = next;
    }
    proof {
        assert(text@.skip(n as int) =~= Seq::<char>::empty());
        assert(order@ + Seq::<Cell>::empty() =~= order@);
    }
    Ok(order)
}

/// `find` in the text that is left after `shift` characters answers as
/// `find` in the whole text does, counted from the new start.
pub proof fn lemma_find_shift(t: Seq<char>, c: char, shift: int, from: int)
    requires
        0 <= shift <= from <= t.len(),
    ensures
        find(t.skip(shift), c, from - shift) == find(t, c, from) - shift,
    decreases t.len() - from,
{
    if from < t.len() {
        assert(t.skip(shift)[from - shift] == t[from]);
        if t[from] != c {
            lemma_find_shift(t, c, shift, from + 1);
        }
    }
}

/// `skip_newlines` in the text that is left after `shift` characters
/// answers as `skip_newlines` in the whole text does, counted from the new
/// start.
pub proof fn lemma_skip_newlines_shift(t: Seq<char>, shift: int, from: int)
    requires
        0 <= shift <= from <= t.len(),
    ensures
        skip_newlines(t.skip(shift), from - shift) == skip_newlines(t, from) - shift,
    decreases t.len() - from,
{
    if from < t.len() {
        assert(t.skip(shift)[from - shift] == t[from]);
        if t[from] == '\n' {
            lemma_skip_newlines_shift(t, shift, from + 1);
        }
    }
}

impl Polycube {
    /// Reads a body from a text in the analysis format. Its border is
    /// computed from its cells, and its bounding box is the least one
    /// around them. A text that does not start with the line `3`, or that
    /// holds a line at fault, is refused with the text that was left
    /// unread.
    pub fn import_analysis(analysis: &str) -> (r: Result<Polycube, ImportParseError>)
        ensures
            match parse_analysis(analysis@) {
                Ok(cells) => r matches Ok(p) && p.wf() && p.cells() == cells.to_set()
                    && p.bounds().tight_around(p.cells()),
                Err(left) => r matches Err(e) && e.remainder@ == left,
            },
    {
        let text = chars_of(analysis);
        match parse_cells(&text) {
            Ok(order) => Ok(Polycube::from_cells(&order)),
            Err(at) => {
                let left = analysis.substring_char(at, text.len());
                proof {
                    assert(analysis@.subrange(at as int, text.len() as int) =~= analysis@.skip(at as int));
                }
                Err(ImportParseError { remainder: String::from_str(left) })
            },
        }
    }

    /// The occupied cells as a tuple list, each cell once, in the order in
    /// which the cell set hands them out.
    pub fn export(&self) -> (text: String)
        requires
            self.wf(),
        ensures
            exists|order: Seq<Cell>|
                order.no_duplicates() && order.to_set() == self.cells() && text@ == #[trigger] tuples_text(order),
    {
        let order = self.complex().to_vec();
        tuples_of(&order)
    }

    /// The occupied cells in the analysis format, each cell once, in the
    /// order in which the cell set hands them out.
    pub fn export_analysis(&self) -> (text: String)
        requires
            self.wf(),
        ensures
            exists|order: Seq<Cell>|
                order.no_duplicates() && order.to_set() == self.cells() && text@ == #[trigger] analysis_text(order),
    {
        let order = self.complex().to_vec();
        analysis_of(&order)
    }
}

} // verus!
