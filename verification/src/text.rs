use vstd::prelude::*;
use crate::point::Point;
use crate::grid::Grid;
use crate::errors::Error;

verus! {

/// The character that marks a live cell in a grid description.
pub const READ_CHAR_ALIVE: char = 'x';

/// The character that marks a dead cell in a grid description.
pub const READ_CHAR_DEAD: char = '.';

/// The character that starts a comment in a grid description.
pub const COMMENT_CHAR: char = '#';

/// The character drawn for the cell at `(x, y)`.
pub open spec fn glyph(s: Set<(int, int)>, x: int, y: int, ca: char, cd: char) -> char {
    if s.contains((x, y)) {
        ca
    } else {
        cd
    }
}

/// The characters of one rendered row: the glyphs for `x0 ..= x1` at height
/// `y`, without the closing newline.
pub open spec fn row_chars(s: Set<(int, int)>, y: int, x0: int, x1: int, ca: char, cd: char) -> Seq<char>
    decreases x1 - x0 + 1,
{
    if x1 < x0 {
        Seq::empty()
    } else {
        row_chars(s, y, x0, x1 - 1, ca, cd).push(glyph(s, x1, y, ca, cd))
    }
}

/// The rendered rectangle `x0 ..= x1` by `y0 ..= y1`: one row per `y`, top
/// to bottom, each closed by a newline.
pub open spec fn rect_chars(s: Set<(int, int)>, x0: int, y0: int, x1: int, y1: int, ca: char, cd: char) -> Seq<char>
    decreases y1 - y0 + 1,
{
    if y1 < y0 {
        Seq::empty()
    } else {
        rect_chars(s, x0, y0, x1, y1 - 1, ca, cd) + row_chars(s, y1, x0, x1, ca, cd).push('\n')
    }
}

/// Each rendered row holds one glyph per column.
pub proof fn lemma_row_shape(s: Set<(int, int)>, y: int, x0: int, x1: int, ca: char, cd: char)
    ensures
        row_chars(s, y, x0, x1, ca, cd).len() == if x1 < x0 { 0int } else { x1 - x0 + 1 },
        forall|j: int| 0 <= j <= x1 - x0 ==> row_chars(s, y, x0, x1, ca, cd)[j] == glyph(s, x0 + j, y, ca, cd),
    decreases x1 - x0 + 1,
{
    if x1 >= x0 {
        lemma_row_shape(s, y, x0, x1 - 1, ca, cd);
    }
}

/// A rendered rectangle holds exactly `y1 - y0 + 1` rows of exactly
/// `x1 - x0 + 1` glyphs, each row closed by a newline: the frame's height
/// and width are the viewport's.
pub proof fn lemma_draw_dimensions(s: Set<(int, int)>, x0: int, y0: int, x1: int, y1: int, ca: char, cd: char)
    requires
        x0 <= x1,
        y0 <= y1,
    ensures
        ({
            let w = x1 - x0 + 1;
            let h = y1 - y0 + 1;
            let r = rect_chars(s, x0, y0, x1, y1, ca, cd);
            &&& r.len() == h * (w + 1)
            &&& forall|i: int| 0 <= i < h ==> #[trigger] r[i * (w + 1) + w] == '\n'
            &&& forall|i: int, j: int| 0 <= i < h && 0 <= j < w ==> #[trigger] r[i * (w + 1) + j] == glyph(s, x0 + j, y0 + i, ca, cd)
        }),
    decreases y1 - y0 + 1,
{
    let w = x1 - x0 + 1;
    let h = y1 - y0 + 1;
    let r = rect_chars(s, x0, y0, x1, y1, ca, cd);
    lemma_row_shape(s, y1, x0, x1, ca, cd);
    if y0 == y1 {
        assert(rect_chars(s, x0, y0, x1, y1 - 1, ca, cd) =~= Seq::<char>::empty());
        assert(r.len() == w + 1);
        assert(h * (w + 1) == w + 1) by (nonlinear_arith)
            requires h == 1;
    } else {
        lemma_draw_dimensions(s, x0, y0, x1, y1 - 1, ca, cd);
        let r0 = rect_chars(s, x0, y0, x1, y1 - 1, ca, cd);
        assert(r0.len() == (h - 1) * (w + 1));
        assert(h * (w + 1) == (h - 1) * (w + 1) + (w + 1)) by (nonlinear_arith);
        assert forall|i: int, j: int| 0 <= i < h && 0 <= j <= w implies #[trigger] r[i * (w + 1) + j] == (if i < h - 1 {
            r0[i * (w + 1) + j]
        } else {
            row_chars(s, y1, x0, x1, ca, cd).push('\n')[j]
        }) by {
            assert(0 <= i * (w + 1) + j < r.len()) by (nonlinear_arith)
                requires 0 <= i < h, 0 <= j <= w, r.len() == h * (w + 1), 0 < w + 1;
            if i < h - 1 {
                assert(i * (w + 1) + j < (h - 1) * (w + 1)) by (nonlinear_arith)
                    requires 0 <= i < h - 1, 0 <= j <= w;
            } else {
                assert(i * (w + 1) + j - (h - 1) * (w + 1) == j) by (nonlinear_arith)
                    requires i == h - 1;
            }
        }
    }
}

/// Relies on `String::from_iter` through `Iterator::collect`: the returned
/// string holds exactly the characters of `v`, in order.
#[verifier::external_body]
pub(crate) fn string_from_chars(v: Vec<char>) -> (r: String)
    ensures
        r@ == v@,
{
    v.into_iter().collect()
}

/// The whitespace characters the block trim removes.
pub open spec fn is_space(c: char) -> bool {
    c == ' ' || c == '\t' || c == '\n' || c == '\r' || c == '\u{000B}' || c == '\u{000C}'
}

/// The sequence with its leading whitespace removed.
pub open spec fn trim_front(s: Seq<char>) -> Seq<char>
    decreases s.len(),
{
    if s.len() > 0 && is_space(s[0]) {
        trim_front(s.drop_first())
    } else {
        s
    }
}

/// The sequence with its trailing whitespace removed.
pub open spec fn trim_back(s: Seq<char>) -> Seq<char>
    decreases s.len(),
{
    if s.len() > 0 && is_space(s.last()) {
        trim_back(s.drop_last())
    } else {
        s
    }
}

/// The sequence with whitespace removed from both ends.
pub open spec fn trim_spec(s: Seq<char>) -> Seq<char> {
    trim_back(trim_front(s))
}

/// The index of the first occurrence of `c` in `s`, or the length of `s`
/// when `c` does not occur.
pub open spec fn find_char(s: Seq<char>, c: char) -> int
    decreases s.len(),
{
    if s.len() == 0 {
        0
    } else if s[0] == c {
        0
    } else {
        1 + find_char(s.drop_first(), c)
    }
}

/// `find_char` returns exactly the position after which nothing earlier
/// matches.
pub proof fn lemma_find_char_at(s: Seq<char>, c: char, m: int)
    requires
        0 <= m <= s.len(),
        forall|j: int| 0 <= j < m ==> s[j] != c,
        m < s.len() ==> s[m] == c,
    ensures
        find_char(s, c) == m,
    decreases s.len(),
{
    if s.len() == 0 {
    } else if s[0] == c {
        assert(m == 0);
    } else {
        assert(m != 0);
        let d = s.drop_first();
        assert forall|j: int| 0 <= j < m - 1 implies d[j] != c by {
            assert(s[j + 1] != c);
        }
        lemma_find_char_at(d, c, m - 1);
    }
}

/// A line segment with a single trailing carriage return removed.
pub open spec fn strip_cr(l: Seq<char>) -> Seq<char> {
    if l.len() > 0 && l.last() == '\r' {
        l.drop_last()
    } else {
        l
    }
}

/// The lines of a block: split at each newline, a carriage return before a
/// newline stripped, the final line taken whole.
pub open spec fn split_lines(s: Seq<char>) -> Seq<Seq<char>>
    decreases s.len(),
{
    if s.len() == 0 {
        Seq::empty()
    } else {
        let i = find_char(s, '\n');
        if 0 <= i < s.len() {
            seq![strip_cr(s.take(i))] + split_lines(s.skip(i + 1))
        } else {
            seq![s]
        }
    }
}

/// A block never splits into more lines than it has characters.
pub proof fn lemma_split_lines_count(s: Seq<char>)
    ensures
        split_lines(s).len() <= s.len(),
    decreases s.len(),
{
    if s.len() > 0 {
        let i = find_char(s, '\n');
        if 0 <= i < s.len() {
            lemma_split_lines_count(s.skip(i + 1));
        }
    }
}

/// A line whose first character is the comment marker is skipped whole.
pub open spec fn is_comment_line(l: Seq<char>) -> bool {
    l.len() > 0 && l[0] == COMMENT_CHAR
}

/// The lines that are parsed: those not skipped as comment lines.
pub open spec fn keep_lines(lines: Seq<Seq<char>>) -> Seq<Seq<char>>
    decreases lines.len(),
{
    if lines.len() == 0 {
        Seq::empty()
    } else if is_comment_line(lines.first()) {
        keep_lines(lines.drop_first())
    } else {
        seq![lines.first()] + keep_lines(lines.drop_first())
    }
}

/// Keeping lines commutes with appending one line at the end.
pub proof fn lemma_keep_lines_push(lines: Seq<Seq<char>>, l: Seq<char>)
    ensures
        keep_lines(lines.push(l)) == if is_comment_line(l) {
            keep_lines(lines)
        } else {
            keep_lines(lines).push(l)
        },
    decreases lines.len(),
{
    let p = lines.push(l);
    if lines.len() == 0 {
        assert(p.len() == 1);
        assert(p.first() == l);
        assert(p.drop_first() =~= Seq::<Seq<char>>::empty());
        assert(lines =~= Seq::<Seq<char>>::empty());
        if is_comment_line(l) {
            assert(keep_lines(p) == keep_lines(p.drop_first()));
        } else {
            assert(keep_lines(p) == seq![l] + keep_lines(p.drop_first()));
            assert(keep_lines(p) =~= keep_lines(lines).push(l));
        }
    } else {
        assert(p.first() == lines.first());
        assert(p.drop_first() =~= lines.drop_first().push(l));
        lemma_keep_lines_push(lines.drop_first(), l);
        if is_comment_line(lines.first()) {
        } else {
            if is_comment_line(l) {
                assert(keep_lines(p) =~= keep_lines(lines));
            } else {
                assert(keep_lines(p) =~= keep_lines(lines).push(l));
            }
        }
    }
}

/// The lines a grid description is parsed from: the trimmed block, split
/// into lines, comment lines dropped.
pub open spec fn grid_lines(s: Seq<char>) -> Seq<Seq<char>> {
    keep_lines(split_lines(trim_spec(s)))
}

/// The position where a comment cuts the line off; the line's length when
/// no comment marker occurs.
pub open spec fn comment_pos(l: Seq<char>) -> int {
    find_char(l, COMMENT_CHAR)
}

/// Every character of the line before any comment marker is one of the
/// two cell glyphs.
pub open spec fn valid_line(l: Seq<char>) -> bool {
    forall|j: int| 0 <= j < comment_pos(l) ==> l[j] == READ_CHAR_ALIVE || l[j] == READ_CHAR_DEAD
}

/// Every kept line of the description is valid.
pub open spec fn parse_valid(lines: Seq<Seq<char>>) -> bool {
    forall|i: int| 0 <= i < lines.len() ==> valid_line(lines[i])
}

/// The cells a grid description denotes: line index down as y, character
/// index across as x, one live cell per alive glyph before any comment.
pub open spec fn parsed_set(lines: Seq<Seq<char>>) -> Set<(int, int)> {
    Set::new(
        |q: (int, int)|
            0 <= q.1 < lines.len() && 0 <= q.0 < comment_pos(lines[q.1])
                && lines[q.1][q.0] == READ_CHAR_ALIVE,
    )
}

/// `find_char` stays within the sequence.
pub proof fn lemma_find_char_bounds(s: Seq<char>, c: char)
    ensures
        0 <= find_char(s, c) <= s.len(),
        find_char(s, c) < s.len() ==> s[find_char(s, c)] == c,
        forall|j: int| 0 <= j < find_char(s, c) ==> s[j] != c,
    decreases s.len(),
{
    if s.len() > 0 && s[0] != c {
        lemma_find_char_bounds(s.drop_first(), c);
        assert forall|j: int| 0 <= j < find_char(s, c) implies s[j] != c by {
            if j > 0 {
                assert(s.drop_first()[j - 1] != c);
            }
        }
    }
}

/// Keeping lines distributes over concatenation.
pub proof fn lemma_keep_lines_add(a: Seq<Seq<char>>, b: Seq<Seq<char>>)
    ensures
        keep_lines(a + b) == keep_lines(a) + keep_lines(b),
    decreases a.len(),
{
    if a.len() == 0 {
        assert(a + b =~= b);
        assert(keep_lines(a) =~= Seq::<Seq<char>>::empty());
        assert(keep_lines(a) + keep_lines(b) =~= keep_lines(b));
    } else {
        let ab = a + b;
        assert(ab.len() > 0);
        assert(ab.first() == a.first());
        assert(ab.drop_first() =~= a.drop_first() + b);
        lemma_keep_lines_add(a.drop_first(), b);
        if is_comment_line(a.first()) {
            assert(keep_lines(ab) == keep_lines(a.drop_first() + b));
            assert(keep_lines(a) + keep_lines(b) =~= keep_lines(a.drop_first()) + keep_lines(b));
        } else {
            assert(keep_lines(ab) == seq![a.first()] + keep_lines(a.drop_first() + b));
            assert(keep_lines(ab) =~= keep_lines(a) + keep_lines(b));
        }
    }
}

/// The live cells of one parsed line, up to column `j`.
pub open spec fn row_cells_upto(y: int, j: int, line: Seq<char>) -> Set<(int, int)> {
    Set::new(|q: (int, int)| q.1 == y && 0 <= q.0 < j && line[q.0] == READ_CHAR_ALIVE)
}

/// Appending one parsed line adds exactly its live cells, at the next row.
pub proof fn lemma_parsed_push(lines: Seq<Seq<char>>, l: Seq<char>)
    ensures
        parsed_set(lines.push(l)) == parsed_set(lines).union(row_cells_upto(lines.len() as int, comment_pos(l), l)),
{
    let p = lines.push(l);
    let rhs = parsed_set(lines).union(row_cells_upto(lines.len() as int, comment_pos(l), l));
    assert forall|q: (int, int)| parsed_set(p).contains(q) implies rhs.contains(q) by {
        if q.1 < lines.len() {
            assert(p[q.1] == lines[q.1]);
        } else {
            assert(p[q.1] == l);
        }
    }
    assert forall|q: (int, int)| rhs.contains(q) implies parsed_set(p).contains(q) by {
        lemma_find_char_bounds(l, COMMENT_CHAR);
        if parsed_set(lines).contains(q) {
            assert(p[q.1] == lines[q.1]);
        } else {
            assert(p[lines.len() as int] == l);
        }
    }
    assert(parsed_set(p) =~= rhs);
}

/// Whether `c` is one of the whitespace characters the block trim removes.
fn is_space_c(c: char) -> (r: bool)
    ensures
        r == is_space(c),
{
    c == ' ' || c == '\t' || c == '\n' || c == '\r' || c == '\u{000B}' || c == '\u{000C}'
}

/// The index of the first occurrence of `ch` in `v[from..to]`, or `to`.
fn find_from(v: &Vec<char>, from: usize, to: usize, ch: char) -> (e: usize)
    requires
        from <= to <= v@.len(),
    ensures
        from <= e <= to,
        forall|j: int| from <= j < e ==> v@[j] != ch,
        e < to ==> v@[e as int] == ch,
{
    let mut e = from;
    while e < to
        invariant
            from <= e <= to <= v@.len(),
            forall|j: int| from <= j < e ==> v@[j] != ch,
        decreases to - e,
    {
        if v[e] == ch {
            return e;
        }
        e += 1;
    }
    e
}

/// A trim that removes `a` leading whitespace characters and stops at a
/// non-space yields the tail of the sequence.
pub proof fn lemma_trim_front_skip(s: Seq<char>, a: int)
    requires
        0 <= a <= s.len(),
        forall|j: int| 0 <= j < a ==> is_space(s[j]),
        a < s.len() ==> !is_space(s[a]),
    ensures
        trim_front(s) == s.skip(a),
    decreases a,
{
    if a == 0 {
        assert(s.skip(0) =~= s);
    } else {
        assert(is_space(s[0]));
        let d = s.drop_first();
        assert forall|j: int| 0 <= j < a - 1 implies is_space(d[j]) by {
            assert(d[j] == s[j + 1]);
        }
        lemma_trim_front_skip(d, a - 1);
        assert(d.skip(a - 1) =~= s.skip(a));
    }
}

/// A trim that removes the whitespace after position `b` and stops at a
/// non-space yields the head of the sequence.
pub proof fn lemma_trim_back_take(s: Seq<char>, b: int)
    requires
        0 <= b <= s.len(),
        forall|j: int| b <= j < s.len() ==> is_space(s[j]),
        0 < b ==> !is_space(s[b - 1]),
    ensures
        trim_back(s) == s.take(b),
    decreases s.len(),
{
    if b == s.len() {
        assert(s.take(b) =~= s);
    } else {
        assert(is_space(s.last()));
        let d = s.drop_last();
        lemma_trim_back_take(d, b);
        assert(d.take(b) =~= s.take(b));
    }
}

/// The character at `(i, j)` is the first one, in reading order, that the
/// format does not allow.
pub open spec fn first_invalid(lines: Seq<Seq<char>>, i: int, j: int) -> bool {
    &&& 0 <= i < lines.len()
    &&& 0 <= j < comment_pos(lines[i])
    &&& lines[i][j] != READ_CHAR_ALIVE && lines[i][j] != READ_CHAR_DEAD
    &&& forall|i2: int| 0 <= i2 < i ==> valid_line(lines[i2])
    &&& forall|j2: int| 0 <= j2 < j ==> lines[i][j2] == READ_CHAR_ALIVE || lines[i][j2] == READ_CHAR_DEAD
}

/// The characters of a string, one by one.
/// The set `s` translated so that `(dx, dy)` becomes the origin.
pub open spec fn shifted(s: Set<(int, int)>, dx: int, dy: int) -> Set<(int, int)> {
    Set::new(|q: (int, int)| s.contains((q.0 + dx, q.1 + dy)))
}

/// A rendered rectangle, read from its first row.
proof fn lemma_rect_cons(s: Set<(int, int)>, x0: int, y0: int, x1: int, y1: int, ca: char, cd: char)
    requires
        y0 <= y1,
    ensures
        rect_chars(s, x0, y0, x1, y1, ca, cd) == row_chars(s, y0, x0, x1, ca, cd).push('\n') + rect_chars(s, x0, y0 + 1, x1, y1, ca, cd),
    decreases y1 - y0,
{
    if y0 == y1 {
        assert(rect_chars(s, x0, y0, x1, y0 - 1, ca, cd) =~= Seq::<char>::empty());
        assert(rect_chars(s, x0, y0 + 1, x1, y1, ca, cd) =~= Seq::<char>::empty());
        assert(rect_chars(s, x0, y0, x1, y1, ca, cd) =~= row_chars(s, y0, x0, x1, ca, cd).push('\n')
            + rect_chars(s, x0, y0 + 1, x1, y1, ca, cd));
    } else {
        lemma_rect_cons(s, x0, y0, x1, y1 - 1, ca, cd);
        assert(rect_chars(s, x0, y0, x1, y1, ca, cd) =~= row_chars(s, y0, x0, x1, ca, cd).push('\n')
            + (rect_chars(s, x0, y0 + 1, x1, y1 - 1, ca, cd) + row_chars(s, y1, x0, x1, ca, cd).push('\n')));
    }
}

/// A rendered rectangle with its final newline dropped splits back into
/// its rows.
proof fn lemma_split_render(s: Set<(int, int)>, x0: int, y0: int, x1: int, y1: int, ca: char, cd: char)
    requires
        x0 <= x1,
        y0 <= y1,
        ca != '\n' && ca != '\r',
        cd != '\n' && cd != '\r',
    ensures
        ({
            let lines = split_lines(rect_chars(s, x0, y0, x1, y1, ca, cd).drop_last());
            &&& lines.len() == y1 - y0 + 1
            &&& forall|i: int| 0 <= i <= y1 - y0 ==> lines[i] == row_chars(s, y0 + i, x0, x1, ca, cd)
        }),
    decreases y1 - y0,
{
    let w = x1 - x0 + 1;
    let row = row_chars(s, y0, x0, x1, ca, cd);
    lemma_row_shape(s, y0, x0, x1, ca, cd);
    lemma_rect_cons(s, x0, y0, x1, y1, ca, cd);
    let r = rect_chars(s, x0, y0, x1, y1, ca, cd);
    let d = r.drop_last();
    if y0 == y1 {
        assert(rect_chars(s, x0, y0 + 1, x1, y1, ca, cd) =~= Seq::<char>::empty());
        assert(r =~= row.push('\n'));
        assert(d =~= row);
        assert forall|j: int| 0 <= j < w implies d[j] != '\n' by {
            assert(row[j] == glyph(s, x0 + j, y0, ca, cd));
        }
        lemma_find_char_at(d, '\n', w);
        assert(split_lines(d) == seq![d]);
        assert(split_lines(d)[0] == row);
    } else {
        let rest = rect_chars(s, x0, y0 + 1, x1, y1, ca, cd);
        lemma_draw_dimensions(s, x0, y0 + 1, x1, y1, ca, cd);
        assert(rest.len() == (y1 - y0) * (w + 1));
        assert(rest.len() >= w + 1) by (nonlinear_arith)
            requires rest.len() == (y1 - y0) * (w + 1), y1 - y0 >= 1, w + 1 >= 1;
        assert(r == row.push('\n') + rest);
        let d2 = rest.drop_last();
        assert(d =~= row.push('\n') + d2);
        assert forall|j: int| 0 <= j < w implies d[j] != '\n' by {
            assert(d[j] == row.push('\n')[j]);
            assert(row[j] == glyph(s, x0 + j, y0, ca, cd));
        }
        assert(d[w] == row.push('\n')[w]);
        lemma_find_char_at(d, '\n', w);
        assert(split_lines(d) == seq![strip_cr(d.take(w))] + split_lines(d.skip(w + 1)));
        assert(d.take(w) =~= row);
        assert(row.len() == w);
        assert(row[w - 1] == glyph(s, x0 + w - 1, y0, ca, cd));
        assert(strip_cr(row) == row);
        assert(d.skip(w + 1) =~= d2);
        lemma_split_render(s, x0, y0 + 1, x1, y1, ca, cd);
        let sub = split_lines(d2);
        assert(split_lines(d).len() == 1 + sub.len());
        assert forall|i: int| 0 <= i <= y1 - y0 implies split_lines(d)[i] == row_chars(s, y0 + i, x0, x1, ca, cd) by {
            if i == 0 {
                assert(split_lines(d)[0] == strip_cr(d.take(w)));
            } else {
                assert(split_lines(d)[i] == sub[i - 1]);
                assert(sub[i - 1] == row_chars(s, y0 + 1 + (i - 1), x0, x1, ca, cd));
            }
        }
    }
}

/// Keeping lines is the identity when no line is a comment line.
proof fn lemma_keep_lines_id(lines: Seq<Seq<char>>)
    requires
        forall|i: int| 0 <= i < lines.len() ==> !is_comment_line(#[trigger] lines[i]),
    ensures
        keep_lines(lines) == lines,
    decreases lines.len(),
{
    if lines.len() > 0 {
        assert(!is_comment_line(lines[0]));
        assert forall|i: int| 0 <= i < lines.drop_first().len() implies !is_comment_line(#[trigger] lines.drop_first()[i]) by {
            assert(lines.drop_first()[i] == lines[i + 1]);
        }
        lemma_keep_lines_id(lines.drop_first());
        assert(keep_lines(lines) =~= lines);
    }
}

/// Rendering the full bounds of a grid with the parser's own glyphs and
/// parsing the text back yields the same live cells, translated so that
/// the lower bounds become the origin.  For a grid whose bounds already
/// start at the origin the round trip is exact.
pub proof fn lemma_render_parse_round_trip(s: Set<(int, int)>, lo: (int, int), hi: (int, int))
    requires
        s.finite(),
        crate::grid::bounds_ok(s, lo, hi),
    ensures
        ({
            let r = rect_chars(s, lo.0, lo.1, hi.0, hi.1, READ_CHAR_ALIVE, READ_CHAR_DEAD);
            &&& parse_valid(grid_lines(r))
            &&& parsed_set(grid_lines(r)) == shifted(s, lo.0, lo.1)
        }),
{
    broadcast use vstd::set::group_set_axioms;

    let x0 = lo.0;
    let y0 = lo.1;
    let x1 = hi.0;
    let y1 = hi.1;
    if !s.is_empty() {
        let p = s.choose();
        assert(s.contains(p));
    }
    assert(x0 <= x1 && y0 <= y1);
    let w = x1 - x0 + 1;
    let h = y1 - y0 + 1;
    let ca = READ_CHAR_ALIVE;
    let cd = READ_CHAR_DEAD;
    let r = rect_chars(s, x0, y0, x1, y1, ca, cd);
    lemma_draw_dimensions(s, x0, y0, x1, y1, ca, cd);
    assert(r.len() == h * (w + 1));
    assert(r.len() >= 2) by (nonlinear_arith)
        requires r.len() == h * (w + 1), h >= 1, w >= 1;
    // the block is already trimmed but for its final newline
    assert(r[0 * (w + 1) + 0] == glyph(s, x0 + 0, y0 + 0, ca, cd));
    assert(r[0] == glyph(s, x0, y0, ca, cd));
    lemma_trim_front_skip(r, 0);
    assert(r.skip(0) =~= r);
    assert(r[(h - 1) * (w + 1) + w] == '\n');
    assert((h - 1) * (w + 1) + w == r.len() - 1) by (nonlinear_arith)
        requires r.len() == h * (w + 1);
    assert((h - 1) * (w + 1) + (w - 1) == r.len() - 2) by (nonlinear_arith)
        requires r.len() == h * (w + 1);
    assert(r[(h - 1) * (w + 1) + (w - 1)] == glyph(s, x0 + (w - 1), y0 + (h - 1), ca, cd));
    assert(r[r.len() - 2] == glyph(s, x0 + (w - 1), y0 + (h - 1), ca, cd));
    lemma_trim_back_take(r, r.len() - 1);
    assert(trim_spec(r) == r.take(r.len() - 1));
    assert(r.take(r.len() - 1) =~= r.drop_last());
    lemma_split_render(s, x0, y0, x1, y1, ca, cd);
    let lines = split_lines(r.drop_last());
    assert(trim_spec(r) == r.drop_last());
    assert(grid_lines(r) == keep_lines(lines));
    assert forall|i: int| 0 <= i < lines.len() implies !is_comment_line(#[trigger] lines[i]) by {
        lemma_row_shape(s, y0 + i, x0, x1, ca, cd);
        assert(lines[i] == row_chars(s, y0 + i, x0, x1, ca, cd));
        assert(lines[i][0] == glyph(s, x0, y0 + i, ca, cd));
    }
    lemma_keep_lines_id(lines);
    assert forall|i: int| 0 <= i < lines.len() implies comment_pos(#[trigger] lines[i]) == w && valid_line(lines[i]) by {
        lemma_row_shape(s, y0 + i, x0, x1, ca, cd);
        let row = row_chars(s, y0 + i, x0, x1, ca, cd);
        assert forall|j: int| 0 <= j < w implies row[j] != COMMENT_CHAR by {
            assert(row[j] == glyph(s, x0 + j, y0 + i, ca, cd));
        }
        lemma_find_char_at(row, COMMENT_CHAR, w);
        assert forall|j: int| 0 <= j < comment_pos(row) implies row[j] == READ_CHAR_ALIVE || row[j] == READ_CHAR_DEAD by {
            assert(row[j] == glyph(s, x0 + j, y0 + i, ca, cd));
        }
    }
    assert(parse_valid(grid_lines(r)));
    assert forall|q: (int, int)| parsed_set(lines).contains(q) implies shifted(s, x0, y0).contains(q) by {
        lemma_row_shape(s, y0 + q.1, x0, x1, ca, cd);
        assert(lines[q.1] == row_chars(s, y0 + q.1, x0, x1, ca, cd));
        assert(lines[q.1][q.0] == glyph(s, x0 + q.0, y0 + q.1, ca, cd));
    }
    assert forall|q: (int, int)| shifted(s, x0, y0).contains(q) implies parsed_set(lines).contains(q) by {
        let p = (q.0 + x0, q.1 + y0);
        assert(s.contains(p));
        assert(x0 <= p.0 <= x1 && y0 <= p.1 <= y1);
        lemma_row_shape(s, y0 + q.1, x0, x1, ca, cd);
        assert(lines[q.1] == row_chars(s, y0 + q.1, x0, x1, ca, cd));
        assert(lines[q.1][q.0] == glyph(s, x0 + q.0, y0 + q.1, ca, cd));
    }
    assert(parsed_set(lines) =~= shifted(s, x0, y0));
}

/// The round trip of a grid anchored at the origin is exact: parsing the
/// rendering of its full bounds reconstructs an equal live-cell set.
pub proof fn lemma_round_trip_at_origin(s: Set<(int, int)>, hi: (int, int))
    requires
        s.finite(),
        crate::grid::bounds_ok(s, (0int, 0int), hi),
    ensures
        ({
            let r = rect_chars(s, 0, 0, hi.0, hi.1, READ_CHAR_ALIVE, READ_CHAR_DEAD);
            &&& parse_valid(grid_lines(r))
            &&& parsed_set(grid_lines(r)) == s
        }),
{
    broadcast use vstd::set::group_set_axioms;

    lemma_render_parse_round_trip(s, (0int, 0int), hi);
    assert(shifted(s, 0, 0) =~= s);
}

/// The characters of a string, one by one.
fn str_to_chars(s: &str) -> (r: Vec<char>)
    ensures
        r@ == s@,
{
    broadcast use vstd::string::axiom_spec_iter;

    let mut v: Vec<char> = Vec::new();
    for c in it: s.chars()
        invariant
            v@ == it.seq().take(it.index()),
    {
        v.push(c);
        assert(v@ =~= it.seq().take(it.index() + 1));
    }
    assert(v@ =~= s@);
    v
}

/// The index of the first non-space character, or the length.
fn trim_start_idx(v: &Vec<char>) -> (a: usize)
    ensures
        a <= v@.len(),
        forall|j: int| 0 <= j < a ==> is_space(v@[j]),
        a < v@.len() ==> !is_space(v@[a as int]),
{
    let n = v.len();
    let mut a: usize = 0;
    while a < n
        invariant
            a <= n == v@.len(),
            forall|j: int| 0 <= j < a ==> is_space(v@[j]),
        decreases n - a,
    {
        if !is_space_c(v[a]) {
            return a;
        }
        a += 1;
    }
    a
}

/// The index after the last non-space character at or after `a`, or `a`.
fn trim_end_idx(v: &Vec<char>, a: usize) -> (b: usize)
    requires
        a <= v@.len(),
    ensures
        a <= b <= v@.len(),
        forall|j: int| b <= j < v@.len() ==> is_space(v@[j]),
        b > a ==> !is_space(v@[b - 1]),
{
    let n = v.len();
    let mut b: usize = n;
    while b > a
        invariant
            a <= b <= n == v@.len(),
            forall|j: int| b <= j < n ==> is_space(v@[j]),
        decreases b,
    {
        if !is_space_c(v[b - 1]) {
            return b;
        }
        b -= 1;
    }
    b
}

/// The trimmed copy of a block of characters.
fn trimmed(v: &Vec<char>) -> (t: Vec<char>)
    ensures
        t@ == trim_spec(v@),
        t@.len() <= v@.len(),
{
    let a = trim_start_idx(v);
    let b = trim_end_idx(v, a);
    let mut t: Vec<char> = Vec::new();
    let mut i: usize = a;
    proof {
        assert(t@ =~= v@.subrange(a as int, a as int));
    }
    while i < b
        invariant
            a <= i <= b <= v@.len(),
            t@ == v@.subrange(a as int, i as int),
        decreases b - i,
    {
        t.push(v[i]);
        assert(t@ =~= v@.subrange(a as int, i + 1));
        i += 1;
    }
    proof {
        lemma_trim_front_skip(v@, a as int);
        assert forall|j: int| b - a <= j < v@.skip(a as int).len() implies is_space(v@.skip(a as int)[j]) by {
            assert(v@.skip(a as int)[j] == v@[j + a]);
        }
        lemma_trim_back_take(v@.skip(a as int), b - a);
        assert(v@.skip(a as int).take(b - a) =~= t@);
    }
    t
}

/// The character at column `j` of the line is the first the format does
/// not allow.
pub open spec fn bad_char_in_line(line: Seq<char>, j: int) -> bool {
    &&& 0 <= j < comment_pos(line)
    &&& line[j] != READ_CHAR_ALIVE && line[j] != READ_CHAR_DEAD
    &&& forall|j2: int| 0 <= j2 < j ==> line[j2] == READ_CHAR_ALIVE || line[j2] == READ_CHAR_DEAD
}

/// Parse the cells of the line `t[c .. le]` as row `y` into `cells`, or
/// report the first character the format does not allow.
#[verifier::loop_isolation(false)]
fn parse_row(t: &Vec<char>, c: usize, le: usize, y: i64, cells: &mut Vec<Point>, Ghost(fdone): Ghost<Seq<Seq<char>>>) -> (res: Result<(), Error>)
    requires
        c <= le <= t@.len() <= i64::MAX,
        y == fdone.len(),
        crate::grid::pts_of(old(cells)@) == parsed_set(fdone),
    ensures
        ({
            let line = t@.subrange(c as int, le as int);
            match res {
                Ok(()) => valid_line(line) && crate::grid::pts_of(final(cells)@) == parsed_set(fdone.push(line)),
                Err(e) => exists|j: int|
                    #[trigger] bad_char_in_line(line, j) && e == Error::ParseGrid(line[j]),
            }
        }),
{
    let ghost line = t@.subrange(c as int, le as int);
    let hash = find_from(t, c, le, COMMENT_CHAR);
    proof {
        assert forall|j: int| 0 <= j < hash - c implies line[j] != COMMENT_CHAR by {
            assert(line[j] == t@[c + j]);
        }
        if hash < le {
            assert(line[hash - c] == t@[hash as int]);
        }
        lemma_find_char_at(line, COMMENT_CHAR, hash - c);
        assert(comment_pos(line) == hash - c);
        assert(row_cells_upto(y as int, 0, line) =~= Set::<(int, int)>::empty());
        assert(crate::grid::pts_of(cells@) =~= parsed_set(fdone).union(row_cells_upto(y as int, 0, line)));
    }
    let mut p = c;
    while p < hash
        invariant
            c <= p <= hash,
            crate::grid::pts_of(cells@) == parsed_set(fdone).union(row_cells_upto(y as int, p - c, line)),
            forall|j: int| 0 <= j < p - c ==> line[j] == READ_CHAR_ALIVE || line[j] == READ_CHAR_DEAD,
        decreases hash - p,
    {
        let ch = t[p];
        proof {
            assert(line[p - c] == t@[p as int]);
        }
        if ch == READ_CHAR_ALIVE {
            let ghost pre = cells@;
            cells.push(Point((p - c) as i64, y));
            proof {
                crate::grid::lemma_pts_push(pre, Point((p - c) as i64, y));
                assert(row_cells_upto(y as int, p - c + 1, line) =~= row_cells_upto(y as int, p - c, line).insert(((p - c) as int, y as int)));
                assert(crate::grid::pts_of(cells@) =~= parsed_set(fdone).union(row_cells_upto(y as int, p - c + 1, line)));
            }
        } else if ch == READ_CHAR_DEAD {
            proof {
                assert(row_cells_upto(y as int, p - c + 1, line) =~= row_cells_upto(y as int, p - c, line));
            }
        } else {
            proof {
                assert(bad_char_in_line(line, p - c));
            }
            return Err(Error::ParseGrid(ch));
        }
        p += 1;
    }
    proof {
        lemma_parsed_push(fdone, line);
        assert(crate::grid::pts_of(cells@) =~= parsed_set(fdone.push(line)));
    }
    Ok(())
}

impl Grid {
    /// Parse a Grid from a block of structured text: the block is trimmed,
    /// lines whose first character is the comment marker are skipped, a
    /// comment marker cuts off the rest of its line, and each alive glyph
    /// marks a live cell at its column and row.  Any other character fails
    /// the parse, naming the first offending character.
    #[verifier::loop_isolation(false)]
    #[verifier::rlimit(100)]
    pub fn from_str(s: &str) -> (r: Result<Grid, Error>)
        requires
            s@.len() <= i64::MAX,
        ensures
            r is Ok <==> parse_valid(grid_lines(s@)),
            r matches Ok(g) ==> g.wf() && g@ == parsed_set(grid_lines(s@)),
            r matches Err(e) ==> exists|i: int, j: int|
                #[trigger] first_invalid(grid_lines(s@), i, j) && e == Error::ParseGrid(grid_lines(s@)[i][j]),
    {
        let v = str_to_chars(s);
        let t = trimmed(&v);
        let ghost tt = t@;
        let ghost big = split_lines(tt);
        proof {
            lemma_split_lines_count(tt);
            assert(tt.skip(0) =~= tt);
            assert(big.skip(0) == big);
            assert(big.take(0) =~= Seq::<Seq<char>>::empty());
            assert(parsed_set(keep_lines(big.take(0))) =~= Set::<(int, int)>::empty());
            assert(crate::grid::pts_of(Seq::<Point>::empty()) =~= Set::<(int, int)>::empty());
        }
        let end = t.len();
        let mut c: usize = 0;
        let mut y: i64 = 0;
        let mut cells: Vec<Point> = Vec::new();
        let ghost mut k: int = 0int;
        while c < end
            invariant
                c <= end,
                0 <= k <= big.len(),
                split_lines(tt.skip(c as int)) == big.skip(k),
                y == keep_lines(big.take(k)).len(),
                keep_lines(big.take(k)).len() <= k,
                parse_valid(keep_lines(big.take(k))),
                crate::grid::pts_of(cells@) == parsed_set(keep_lines(big.take(k))),
            decreases end - c,
        {
            let ghost rem = tt.skip(c as int);
            proof {
                assert(rem.len() > 0);
                assert(split_lines(rem).len() > 0);
                assert(big.skip(k).len() == big.len() - k);
                assert(k < big.len());
            }
            let e = find_from(&t, c, end, '\n');
            proof {
                assert forall|j: int| 0 <= j < e - c implies rem[j] != '\n' by {
                    assert(rem[j] == tt[c + j]);
                }
                if e < end {
                    assert(rem[e - c] == tt[e as int]);
                }
                lemma_find_char_at(rem, '\n', e - c);
            }
            let le: usize = if e < end && e > c && t[e - 1] == '\r' {
                e - 1
            } else {
                e
            };
            let ghost line = tt.subrange(c as int, le as int);
            let ghost tail = split_lines(tt.skip(e + 1));
            proof {
                if e < end {
                    assert(rem.take(e - c) =~= tt.subrange(c as int, e as int));
                    assert(strip_cr(rem.take(e - c)) =~= line);
                    assert(split_lines(rem) == seq![strip_cr(rem.take(e - c))] + split_lines(rem.skip(e - c + 1)));
                    assert(rem.skip(e - c + 1) =~= tt.skip(e + 1));
                    assert(split_lines(rem) == seq![strip_cr(rem.take(e - c))] + tail);
                    assert(split_lines(rem)[0] == line);
                    assert(split_lines(rem).drop_first() =~= tail);
                } else {
                    assert(le == e);
                    assert(rem =~= line);
                    assert(split_lines(rem) == seq![rem]);
                    assert(split_lines(rem)[0] == line);
                    assert(split_lines(rem).drop_first() =~= Seq::<Seq<char>>::empty());
                }
                assert(big[k] == line) by {
                    assert(big.skip(k)[0] == split_lines(rem)[0]);
                }
                assert(big.take(k + 1) =~= big.take(k).push(line));
                assert(big.skip(k + 1) =~= big.skip(k).drop_first());
            }
            if le > c && t[c] == COMMENT_CHAR {
                proof {
                    assert(line[0] == tt[c as int]);
                    assert(is_comment_line(line));
                    lemma_keep_lines_push(big.take(k), line);
                    k = k + 1;
                }
            } else {
                let ghost fdone = keep_lines(big.take(k));
                let res = parse_row(&t, c, le, y, &mut cells, Ghost(fdone));
                match res {
                    Ok(()) => {},
                    Err(err) => {
                        proof {
                            let j = choose|j: int| #[trigger] bad_char_in_line(line, j) && err == Error::ParseGrid(line[j]);
                            let whole = keep_lines(big);
                            assert(big =~= big.take(k) + big.skip(k));
                            lemma_keep_lines_add(big.take(k), big.skip(k));
                            assert(!is_comment_line(line));
                            assert(big.skip(k) == split_lines(rem));
                            if e < end {
                                lemma_keep_lines_add(seq![line], tail);
                                assert(seq![line] + tail =~= split_lines(rem));
                                assert(keep_lines(seq![line]) =~= seq![line]) by {
                                    assert(seq![line].first() == line);
                                    assert(seq![line].drop_first() =~= Seq::<Seq<char>>::empty());
                                }
                                assert(keep_lines(split_lines(rem)) == keep_lines(seq![line]) + keep_lines(tail));
                                assert(keep_lines(split_lines(rem))[0] == line);
                            } else {
                                assert(keep_lines(split_lines(rem)) =~= seq![line]) by {
                                    assert(split_lines(rem).first() == line);
                                    assert(split_lines(rem).drop_first() =~= Seq::<Seq<char>>::empty());
                                }
                            }
                            assert(whole == fdone + keep_lines(split_lines(rem)));
                            assert(whole[y as int] == line);
                            assert forall|i2: int| 0 <= i2 < y implies valid_line(#[trigger] whole[i2]) by {
                                assert(whole[i2] == fdone[i2]);
                            }
                            assert(first_invalid(whole, y as int, j));
                            assert(grid_lines(s@) == whole);
                            assert(!valid_line(line));
                            assert(!parse_valid(whole)) by {
                                assert(!valid_line(whole[y as int]));
                            }
                        }
                        return Err(err);
                    },
                }
                proof {
                    assert(!is_comment_line(line));
                    lemma_keep_lines_push(big.take(k), line);
                    assert(parse_valid(fdone.push(line))) by {
                        assert forall|i2: int| 0 <= i2 < fdone.push(line).len() implies valid_line(#[trigger] fdone.push(line)[i2]) by {
                            if i2 < fdone.len() {
                                assert(fdone.push(line)[i2] == fdone[i2]);
                            } else {
                                assert(fdone.push(line)[i2] == line);
                            }
                        }
                    }
                    k = k + 1;
                }
                y += 1;
            }
            let ghost c0 = c as int;
            c = if e < end {
                e + 1
            } else {
                end
            };
            proof {
                if e < end {
                    assert(split_lines(tt.skip(c as int)) == big.skip(k)) by {
                        assert(rem.skip(e - c0 + 1) =~= tt.skip(c as int));
                        assert(split_lines(tt.skip(c as int)) == split_lines(rem).drop_first());
                    }
                } else {
                    assert(tt.skip(c as int) =~= Seq::<char>::empty());
                    assert(split_lines(tt.skip(c as int)) =~= Seq::<Seq<char>>::empty());
                    assert(big.skip(k) =~= Seq::<Seq<char>>::empty()) by {
                        assert(split_lines(rem).len() == 1);
                        assert(big.skip(k - 1) == split_lines(rem));
                        assert(big.skip(k - 1).len() == big.len() - (k - 1));
                        assert(big.skip(k).len() == big.len() - k);
                    }
                }
            }
        }
        proof {
            assert(tt.skip(c as int) =~= Seq::<char>::empty());
            assert(split_lines(tt.skip(c as int)) =~= Seq::<Seq<char>>::empty());
            assert(big.skip(k).len() == 0);
            assert(big.skip(k).len() == big.len() - k);
            assert(big.take(k) == big);
            assert(grid_lines(s@) == keep_lines(big));
        }
        Ok(Grid::new(cells))
    }
}

} // verus!
