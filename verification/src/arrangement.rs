//! The arrangement file: how far each moved piece of furniture has been
//! shifted, turned and resized from where the generator put it.
//!
//! One piece a line, `piece x y z yaw [scale]`, fields apart by whitespace.
//! Lines starting with `#` are comments, and empty ones are skipped, as is any
//! line that does not have a whole piece number and at least five fields. The
//! five numbers after the piece are read by the caller; this reads the lines.
use vstd::prelude::*;
use crate::text::{
    decimal, is_digit, is_space, lemma_decimal_digits, lemma_decimal_reads_back, parse_u32,
    push_char, push_decimal, space, u32_text,
};

verus! {

/// A line as `str::lines` gives it: without the `\r` of a `\r\n` ending.
pub open spec fn without_cr(line: Seq<char>) -> Seq<char> {
    if line.len() > 0 && line.last() == '\r' {
        line.drop_last()
    } else {
        line
    }
}

/// The lines of `s` from position `i` on, `cur` being the part of the
/// current line already read: split at each `\n`, each line without the `\r`
/// of a `\r\n`, and no empty line after a final `\n`.
pub open spec fn lines_from(s: Seq<char>, i: int, cur: Seq<char>) -> Seq<Seq<char>>
    decreases s.len() - i,
{
    if i < 0 || i >= s.len() {
        if cur.len() > 0 {
            seq![cur]
        } else {
            Seq::empty()
        }
    } else if s[i] == '\n' {
        seq![without_cr(cur)] + lines_from(s, i + 1, Seq::empty())
    } else {
        lines_from(s, i + 1, cur.push(s[i]))
    }
}

/// The lines of a text, as `str::lines` splits it.
pub open spec fn lines_of(s: Seq<char>) -> Seq<Seq<char>> {
    lines_from(s, 0, Seq::empty())
}

/// The words of `s` from position `i` on, `cur` being the part of the
/// current word already read: maximal runs of characters that are not
/// whitespace.
pub open spec fn words_from(s: Seq<char>, i: int, cur: Seq<char>) -> Seq<Seq<char>>
    decreases s.len() - i,
{
    let done = if cur.len() > 0 {
        seq![cur]
    } else {
        Seq::<Seq<char>>::empty()
    };
    if i < 0 || i >= s.len() {
        done
    } else if is_space(s[i]) {
        done + words_from(s, i + 1, Seq::empty())
    } else {
        words_from(s, i + 1, cur.push(s[i]))
    }
}

/// The words of a line, as `str::split_whitespace` gives them.
pub open spec fn words_of(s: Seq<char>) -> Seq<Seq<char>> {
    words_from(s, 0, Seq::empty())
}

/// The lines of a text.
pub fn split_lines(s: &str) -> (lines: Vec<String>)
    ensures
        lines@.map_values(|l: String| l@) == lines_of(s@),
{
    let len = s.unicode_len();
    let mut lines: Vec<String> = Vec::new();
    let mut cur = String::new();
    let mut i: usize = 0;
    proof {
        assert(cur@ =~= Seq::<char>::empty());
        assert(lines@.map_values(|l: String| l@) =~= Seq::<Seq<char>>::empty());
    }
    while i < len
        invariant
            len == s@.len(),
            i <= len,
            lines@.map_values(|l: String| l@) + lines_from(s@, i as int, cur@) == lines_of(s@),
        decreases len - i,
    {
        let c = s.get_char(i);
        let ghost done = lines@.map_values(|l: String| l@);
        if c == '\n' {
            let ghost read = cur@;
            let cut = strip_cr(cur);
            let ghost line = cut@;
            lines.push(cut);
            cur = String::new();
            proof {
                assert(line == without_cr(read));
                assert(lines@.map_values(|l: String| l@) =~= done.push(line));
                assert(cur@ =~= Seq::<char>::empty());
                assert(lines_from(s@, i as int, read) == seq![line] + lines_from(s@, i + 1, Seq::empty()));
                assert(done.push(line) + lines_from(s@, i + 1, Seq::empty()) =~= done + (seq![line]
                    + lines_from(s@, i + 1, Seq::empty())));
            }
        } else {
            push_char(&mut cur, c);
        }
        i += 1;
    }
    if cur.as_str().unicode_len() > 0 {
        let ghost done = lines@.map_values(|l: String| l@);
        let ghost last = cur@;
        lines.push(cur);
        proof {
            assert(lines@.map_values(|l: String| l@) =~= done.push(last));
            assert(done + seq![last] =~= done.push(last));
        }
    } else {
        proof {
            assert(lines@.map_values(|l: String| l@) + Seq::<Seq<char>>::empty() =~= lines@.map_values(
                |l: String| l@,
            ));
        }
    }
    lines
}

/// A line without the `\r` that ended it, if one did.
fn strip_cr(line: String) -> (l: String)
    ensures
        l@ == without_cr(line@),
{
    let n = line.as_str().unicode_len();
    if n > 0 && line.as_str().get_char(n - 1) == '\r' {
        let cut = line.as_str().substring_char(0, n - 1).to_string();
        proof {
            assert(cut@ =~= line@.drop_last());
        }
        cut
    } else {
        line
    }
}

/// The words of a line.
pub fn split_words(s: &str) -> (words: Vec<String>)
    ensures
        words@.map_values(|w: String| w@) == words_of(s@),
{
    let len = s.unicode_len();
    let mut words: Vec<String> = Vec::new();
    let mut cur = String::new();
    let mut i: usize = 0;
    proof {
        assert(cur@ =~= Seq::<char>::empty());
        assert(words@.map_values(|w: String| w@) =~= Seq::<Seq<char>>::empty());
    }
    while i < len
        invariant
            len == s@.len(),
            i <= len,
            words@.map_values(|w: String| w@) + words_from(s@, i as int, cur@) == words_of(s@),
        decreases len - i,
    {
        let c = s.get_char(i);
        let ghost done = words@.map_values(|w: String| w@);
        let ghost read = cur@;
        if space(c) {
            if cur.as_str().unicode_len() > 0 {
                words.push(cur);
                proof {
                    assert(words@.map_values(|w: String| w@) =~= done.push(read));
                    assert(done.push(read) + words_from(s@, i + 1, Seq::empty()) =~= done + (seq![read]
                        + words_from(s@, i + 1, Seq::empty())));
                }
            } else {
                proof {
                    assert(Seq::<Seq<char>>::empty() + words_from(s@, i + 1, Seq::empty()) =~= words_from(
                        s@,
                        i + 1,
                        Seq::empty(),
                    ));
                }
            }
            cur = String::new();
            proof {
                assert(cur@ =~= Seq::<char>::empty());
            }
        } else {
            push_char(&mut cur, c);
        }
        i += 1;
    }
    if cur.as_str().unicode_len() > 0 {
        let ghost done = words@.map_values(|w: String| w@);
        let ghost last = cur@;
        words.push(cur);
        proof {
            assert(words@.map_values(|w: String| w@) =~= done.push(last));
            assert(done + seq![last] =~= done.push(last));
        }
    } else {
        proof {
            assert(words@.map_values(|w: String| w@) + Seq::<Seq<char>>::empty() =~= words@.map_values(
                |w: String| w@,
            ));
        }
    }
    words
}

/// One line of an arrangement: the piece, and the fields after it — `x y z
/// yaw`, and the scale when it was written.
pub struct Placement {
    pub piece: u32,
    pub fields: Vec<String>,
}

/// A placement as numbers and characters.
pub open spec fn placement_view(p: Placement) -> (u32, Seq<Seq<char>>) {
    (p.piece, p.fields@.map_values(|f: String| f@))
}

/// What a line says: nothing for a comment, an empty line, a line of fewer
/// than five fields or one whose first field is not a whole piece number;
/// otherwise the piece and the fields after it.
pub open spec fn row_of(line: Seq<char>) -> Option<(u32, Seq<Seq<char>>)> {
    if line.len() == 0 || line[0] == '#' {
        None
    } else {
        let w = words_of(line);
        if w.len() < 5 {
            None
        } else {
            match u32_text(w[0]) {
                Some(p) => Some((p, w.drop_first())),
                None => None,
            }
        }
    }
}

/// What a run of lines says, in order.
pub open spec fn rows_of(lines: Seq<Seq<char>>) -> Seq<(u32, Seq<Seq<char>>)>
    decreases lines.len(),
{
    if lines.len() == 0 {
        Seq::empty()
    } else {
        let before = rows_of(lines.drop_last());
        match row_of(lines.last()) {
            Some(r) => before.push(r),
            None => before,
        }
    }
}

/// What one line of an arrangement says.
pub fn read_row(line: &str) -> (row: Option<Placement>)
    ensures
        row matches Some(p) ==> row_of(line@) == Some(placement_view(p)),
        row is None ==> row_of(line@) is None,
{
    let n = line.unicode_len();
    if n == 0 || line.get_char(0) == '#' {
        return None;
    }
    let words = split_words(line);
    proof {
        assert(words@.len() == words_of(line@).len());
    }
    if words.len() < 5 {
        return None;
    }
    proof {
        assert(words@[0]@ == words_of(line@)[0]);
    }
    let piece = match parse_u32(words[0].as_str()) {
        Some(p) => p,
        None => {
            return None;
        },
    };
    let mut fields: Vec<String> = Vec::new();
    let mut k: usize = 1;
    while k < words.len()
        invariant
            1 <= k <= words@.len(),
            words@.map_values(|w: String| w@) == words_of(line@),
            fields@.map_values(|f: String| f@) =~= words_of(line@).subrange(1, k as int),
        decreases words@.len() - k,
    {
        let ghost before = fields@.map_values(|f: String| f@);
        fields.push(words[k].clone());
        proof {
            assert(words@.map_values(|w: String| w@)[k as int] == words@[k as int]@);
            assert(fields@.map_values(|f: String| f@) =~= before.push(words@[k as int]@));
            assert(words_of(line@).subrange(1, k + 1) =~= words_of(line@).subrange(1, k as int).push(
                words_of(line@)[k as int],
            ));
        }
        k += 1;
    }
    proof {
        assert(words_of(line@).subrange(1, words@.len() as int) =~= words_of(line@).drop_first());
    }
    Some(Placement { piece, fields })
}

/// Every placement an arrangement file holds, in the order it holds them.
pub fn read_arrangement(text: &str) -> (rows: Vec<Placement>)
    ensures
        rows@.map_values(|p: Placement| placement_view(p)) == rows_of(lines_of(text@)),
{
    let lines = split_lines(text);
    let mut rows: Vec<Placement> = Vec::new();
    let mut i: usize = 0;
    proof {
        assert(rows@.map_values(|p: Placement| placement_view(p)) =~= rows_of(lines_of(text@).take(0)));
    }
    while i < lines.len()
        invariant
            i <= lines@.len(),
            lines@.map_values(|l: String| l@) == lines_of(text@),
            rows@.map_values(|p: Placement| placement_view(p)) == rows_of(lines_of(text@).take(i as int)),
        decreases lines@.len() - i,
    {
        let ghost seen = lines_of(text@).take(i + 1);
        proof {
            assert(seen.drop_last() =~= lines_of(text@).take(i as int));
            assert(seen.last() == lines@[i as int]@);
        }
        let ghost before = rows@.map_values(|p: Placement| placement_view(p));
        match read_row(lines[i].as_str()) {
            Some(p) => {
                let ghost v = placement_view(p);
                rows.push(p);
                proof {
                    assert(rows@.map_values(|p: Placement| placement_view(p)) =~= before.push(v));
                }
            },
            None => {},
        }
        i += 1;
    }
    proof {
        assert(lines_of(text@).take(lines@.len() as int) =~= lines_of(text@));
    }
    rows
}

/// How many of a text's lines are not comments.
pub open spec fn uncommented(lines: Seq<Seq<char>>) -> nat
    decreases lines.len(),
{
    if lines.len() == 0 {
        0
    } else {
        let l = lines.last();
        uncommented(lines.drop_last()) + if l.len() > 0 && l[0] == '#' {
            0nat
        } else {
            1nat
        }
    }
}

/// How many pieces a saved arrangement holds: its lines that are not
/// comments.
pub fn entries_saved(text: &str) -> (n: usize)
    ensures
        n == uncommented(lines_of(text@)),
{
    let lines = split_lines(text);
    let mut n: usize = 0;
    let mut i: usize = 0;
    while i < lines.len()
        invariant
            i <= lines@.len(),
            lines@.map_values(|l: String| l@) == lines_of(text@),
            n == uncommented(lines_of(text@).take(i as int)),
            n <= i,
        decreases lines@.len() - i,
    {
        proof {
            assert(lines_of(text@).take(i + 1).drop_last() =~= lines_of(text@).take(i as int));
            assert(lines_of(text@).take(i + 1).last() == lines@[i as int]@);
        }
        let l = lines[i].as_str();
        if !(l.unicode_len() > 0 && l.get_char(0) == '#') {
            n += 1;
        }
        i += 1;
    }
    proof {
        assert(lines_of(text@).take(lines@.len() as int) =~= lines_of(text@));
    }
    n
}

// ---------------------------------------------------------------------------
// Writing
// ---------------------------------------------------------------------------

/// The line an arrangement file starts with.
pub open spec fn header() -> Seq<char> {
    "# piece  x  y  z  yaw  scale \u{2014} written by arrange mode"@
}

/// The fields of a placement, each after a space.
pub open spec fn fields_text(fields: Seq<Seq<char>>) -> Seq<char>
    decreases fields.len(),
{
    if fields.len() == 0 {
        Seq::empty()
    } else {
        fields_text(fields.drop_last()) + seq![' '] + fields.last()
    }
}

/// The line a placement is written as: the piece, then its fields.
pub open spec fn row_line(row: (u32, Seq<Seq<char>>)) -> Seq<char> {
    decimal(row.0 as nat) + fields_text(row.1)
}

/// The lines of a run of placements, each ended by a newline.
pub open spec fn rows_text(rows: Seq<(u32, Seq<Seq<char>>)>) -> Seq<char>
    decreases rows.len(),
{
    if rows.len() == 0 {
        Seq::empty()
    } else {
        rows_text(rows.drop_last()) + row_line(rows.last()) + seq!['\n']
    }
}

/// A whole arrangement file: the header, then one line a placement.
pub open spec fn arrangement_text(rows: Seq<(u32, Seq<Seq<char>>)>) -> Seq<char> {
    header() + seq!['\n'] + rows_text(rows)
}

/// Write an arrangement: a comment saying what the columns are, then each
/// placement on a line of its own, its piece and its fields apart by spaces.
pub fn write_arrangement(rows: &Vec<Placement>) -> (text: String)
    ensures
        text@ == arrangement_text(rows@.map_values(|p: Placement| placement_view(p))),
{
    let mut text = String::new();
    text.append("# piece  x  y  z  yaw  scale \u{2014} written by arrange mode");
    push_char(&mut text, '\n');
    let ghost views = rows@.map_values(|p: Placement| placement_view(p));
    proof {
        assert(text@ =~= header() + seq!['\n'] + rows_text(views.take(0)));
    }
    let mut i: usize = 0;
    while i < rows.len()
        invariant
            i <= rows@.len(),
            views == rows@.map_values(|p: Placement| placement_view(p)),
            text@ == header() + seq!['\n'] + rows_text(views.take(i as int)),
        decreases rows@.len() - i,
    {
        let ghost before = text@;
        let row = &rows[i];
        push_decimal(&mut text, row.piece as u64);
        let mut k: usize = 0;
        let ghost fields = row.fields@.map_values(|f: String| f@);
        while k < row.fields.len()
            invariant
                k <= row.fields@.len(),
                fields == row.fields@.map_values(|f: String| f@),
                text@ == before + decimal(row.piece as nat) + fields_text(fields.take(k as int)),
            decreases row.fields@.len() - k,
        {
            let ghost was = text@;
            push_char(&mut text, ' ');
            text.append(row.fields[k].as_str());
            proof {
                assert(fields.take(k + 1).drop_last() =~= fields.take(k as int));
                assert(fields.take(k + 1).last() == row.fields@[k as int]@);
                assert(text@ =~= before + decimal(row.piece as nat) + fields_text(fields.take(k + 1)));
            }
            k += 1;
        }
        push_char(&mut text, '\n');
        proof {
            assert(fields.take(row.fields@.len() as int) =~= fields);
            assert(views[i as int] == placement_view(rows@[i as int]));
            assert(views.take(i + 1).drop_last() =~= views.take(i as int));
            assert(views.take(i + 1).last() == views[i as int]);
            assert(text@ =~= header() + seq!['\n'] + rows_text(views.take(i + 1)));
        }
        i += 1;
    }
    proof {
        assert(views.take(rows@.len() as int) =~= views);
    }
    text
}

// ---------------------------------------------------------------------------
// What is written reads back
// ---------------------------------------------------------------------------

/// A field that reads back as one field: something, and no whitespace in it.
pub open spec fn is_word(f: Seq<char>) -> bool {
    f.len() > 0 && forall|i: int| 0 <= i < f.len() ==> !is_space(#[trigger] f[i])
}

/// A placement that reads back as itself: at least four fields, each a word.
pub open spec fn writable(row: (u32, Seq<Seq<char>>)) -> bool {
    row.1.len() >= 4 && forall|k: int| 0 <= k < row.1.len() ==> is_word(#[trigger] row.1[k])
}

proof fn lemma_lines_shift(s: Seq<char>, i: int, cur: Seq<char>)
    requires
        0 <= i <= s.len(),
    ensures
        lines_from(s, i, cur) == lines_from(s.skip(i), 0, cur),
    decreases s.len() - i,
{
    if i < s.len() {
        lemma_lines_shift(s, i + 1, if s[i] == '\n' {
            Seq::empty()
        } else {
            cur.push(s[i])
        });
        lemma_lines_shift(s.skip(i), 1, if s[i] == '\n' {
            Seq::empty()
        } else {
            cur.push(s[i])
        });
        assert(s.skip(i).skip(1) =~= s.skip(i + 1));
    }
}

/// A line with no newline in it, then a newline, then the rest.
proof fn lemma_lines_line(a: Seq<char>, b: Seq<char>, cur: Seq<char>)
    requires
        forall|i: int| 0 <= i < a.len() ==> #[trigger] a[i] != '\n',
    ensures
        lines_from(a + seq!['\n'] + b, 0, cur) == seq![without_cr(cur + a)] + lines_from(b, 0, Seq::empty()),
    decreases a.len(),
{
    let s = a + seq!['\n'] + b;
    if a.len() == 0 {
        assert(s[0] == '\n');
        lemma_lines_shift(s, 1, Seq::empty());
        assert(s.skip(1) =~= b);
        assert(cur + a =~= cur);
    } else {
        assert(s[0] == a[0]);
        lemma_lines_shift(s, 1, cur.push(a[0]));
        assert(s.skip(1) =~= a.drop_first() + seq!['\n'] + b);
        lemma_lines_line(a.drop_first(), b, cur.push(a[0]));
        assert(cur.push(a[0]) + a.drop_first() =~= cur + a);
    }
}

proof fn lemma_words_shift(s: Seq<char>, i: int, cur: Seq<char>)
    requires
        0 <= i <= s.len(),
    ensures
        words_from(s, i, cur) == words_from(s.skip(i), 0, cur),
    decreases s.len() - i,
{
    if i < s.len() {
        let next = if is_space(s[i]) {
            Seq::empty()
        } else {
            cur.push(s[i])
        };
        lemma_words_shift(s, i + 1, next);
        lemma_words_shift(s.skip(i), 1, next);
        assert(s.skip(i).skip(1) =~= s.skip(i + 1));
    }
}

/// Reading through a word adds it to the word being read.
proof fn lemma_words_word(w: Seq<char>, r: Seq<char>, cur: Seq<char>)
    requires
        forall|i: int| 0 <= i < w.len() ==> !is_space(#[trigger] w[i]),
    ensures
        words_from(w + r, 0, cur) == words_from(r, 0, cur + w),
    decreases w.len(),
{
    if w.len() == 0 {
        assert(w + r =~= r);
        assert(cur + w =~= cur);
    } else {
        let s = w + r;
        assert(s[0] == w[0]);
        lemma_words_shift(s, 1, cur.push(w[0]));
        assert(s.skip(1) =~= w.drop_first() + r);
        lemma_words_word(w.drop_first(), r, cur.push(w[0]));
        assert(cur.push(w[0]) + w.drop_first() =~= cur + w);
    }
}

proof fn lemma_fields_front(fields: Seq<Seq<char>>)
    requires
        fields.len() > 0,
    ensures
        fields_text(fields) == seq![' '] + fields[0] + fields_text(fields.drop_first()),
    decreases fields.len(),
{
    if fields.len() > 1 {
        lemma_fields_front(fields.drop_last());
        assert(fields.drop_last().drop_first() =~= fields.drop_first().drop_last());
        assert(fields.drop_first().last() == fields.last());
        assert(fields_text(fields.drop_first()) == fields_text(fields.drop_first().drop_last()) + seq![' ']
            + fields.drop_first().last());
        assert(fields.drop_last()[0] == fields[0]);
    } else {
        assert(fields.drop_last() =~= Seq::<Seq<char>>::empty());
        assert(fields.drop_first() =~= Seq::<Seq<char>>::empty());
    }
}

/// The fields written after a word read back as that word and the fields.
proof fn lemma_words_of_fields(fields: Seq<Seq<char>>, cur: Seq<char>)
    requires
        cur.len() > 0,
        forall|k: int| 0 <= k < fields.len() ==> is_word(#[trigger] fields[k]),
    ensures
        words_from(fields_text(fields), 0, cur) == seq![cur] + fields,
    decreases fields.len(),
{
    if fields.len() == 0 {
        assert(seq![cur] + fields =~= seq![cur]);
    } else {
        lemma_fields_front(fields);
        let rest = fields_text(fields.drop_first());
        let s = seq![' '] + fields[0] + rest;
        assert(is_space(s[0]));
        lemma_words_shift(s, 1, Seq::empty());
        assert(s.skip(1) =~= fields[0] + rest);
        assert(is_word(fields[0]));
        lemma_words_word(fields[0], rest, Seq::empty());
        assert(Seq::<char>::empty() + fields[0] =~= fields[0]);
        assert forall|k: int| 0 <= k < fields.drop_first().len() implies is_word(
            #[trigger] fields.drop_first()[k],
        ) by {
            assert(fields.drop_first()[k] == fields[k + 1]);
        }
        lemma_words_of_fields(fields.drop_first(), fields[0]);
        assert(seq![cur] + (seq![fields[0]] + fields.drop_first()) =~= seq![cur] + fields);
    }
}

/// A placement's line says that placement.
proof fn lemma_row_line_reads_back(row: (u32, Seq<Seq<char>>))
    requires
        writable(row),
    ensures
        row_of(row_line(row)) == Some(row),
{
    let d = decimal(row.0 as nat);
    lemma_decimal_digits(row.0 as nat);
    lemma_decimal_reads_back(row.0);
    let line = row_line(row);
    assert(line[0] == d[0]);
    assert(is_digit(d[0]));
    assert forall|i: int| 0 <= i < d.len() implies !is_space(#[trigger] d[i]) by {
        assert(is_digit(d[i]));
    }
    lemma_words_word(d, fields_text(row.1), Seq::empty());
    assert(Seq::<char>::empty() + d =~= d);
    lemma_words_of_fields(row.1, d);
    assert((seq![d] + row.1).drop_first() =~= row.1);
}

proof fn lemma_rows_front(rows: Seq<(u32, Seq<Seq<char>>)>)
    requires
        rows.len() > 0,
    ensures
        rows_text(rows) == row_line(rows[0]) + seq!['\n'] + rows_text(rows.drop_first()),
    decreases rows.len(),
{
    if rows.len() > 1 {
        lemma_rows_front(rows.drop_last());
        assert(rows.drop_last().drop_first() =~= rows.drop_first().drop_last());
        assert(rows.drop_first().last() == rows.last());
        assert(rows.drop_last()[0] == rows[0]);
    } else {
        assert(rows.drop_last() =~= Seq::<(u32, Seq<Seq<char>>)>::empty());
        assert(rows.drop_first() =~= Seq::<(u32, Seq<Seq<char>>)>::empty());
    }
}

proof fn lemma_rows_of_front(first: Seq<char>, rest: Seq<Seq<char>>)
    ensures
        rows_of(seq![first] + rest) == (match row_of(first) {
            Some(r) => seq![r] + rows_of(rest),
            None => rows_of(rest),
        }),
    decreases rest.len(),
{
    let all = seq![first] + rest;
    if rest.len() == 0 {
        assert(all.drop_last() =~= Seq::<Seq<char>>::empty());
        assert(all.last() == first);
        assert(rest =~= Seq::<Seq<char>>::empty());
        match row_of(first) {
            Some(r) => {
                assert(Seq::<(u32, Seq<Seq<char>>)>::empty().push(r) =~= seq![r] + Seq::empty());
            },
            None => {},
        }
    } else {
        assert(all.drop_last() =~= seq![first] + rest.drop_last());
        assert(all.last() == rest.last());
        lemma_rows_of_front(first, rest.drop_last());
        let x = rows_of(rest.drop_last());
        match row_of(first) {
            Some(r) => {
                match row_of(rest.last()) {
                    Some(y) => {
                        assert((seq![r] + x).push(y) =~= seq![r] + x.push(y));
                    },
                    None => {},
                }
            },
            None => {},
        }
    }
}

/// The lines of a run of written placements say those placements.
proof fn lemma_rows_read_back(rows: Seq<(u32, Seq<Seq<char>>)>)
    requires
        forall|k: int| 0 <= k < rows.len() ==> writable(#[trigger] rows[k]),
    ensures
        rows_of(lines_from(rows_text(rows), 0, Seq::empty())) == rows,
    decreases rows.len(),
{
    if rows.len() == 0 {
        assert(rows_text(rows) =~= Seq::<char>::empty());
    } else {
        lemma_rows_front(rows);
        let line = row_line(rows[0]);
        assert(writable(rows[0]));
        lemma_row_line_has_no_breaks(rows[0]);
        lemma_lines_line(line, rows_text(rows.drop_first()), Seq::empty());
        assert(Seq::<char>::empty() + line =~= line);
        assert(without_cr(line) == line);
        assert forall|k: int| 0 <= k < rows.drop_first().len() implies writable(#[trigger] rows.drop_first()[k]) by {
            assert(rows.drop_first()[k] == rows[k + 1]);
        }
        lemma_rows_read_back(rows.drop_first());
        lemma_rows_of_front(line, lines_from(rows_text(rows.drop_first()), 0, Seq::empty()));
        lemma_row_line_reads_back(rows[0]);
        assert(seq![rows[0]] + rows.drop_first() =~= rows);
    }
}

/// A placement's line has no line break in it and does not end in `\r`.
proof fn lemma_row_line_has_no_breaks(row: (u32, Seq<Seq<char>>))
    requires
        writable(row),
    ensures
        forall|i: int| 0 <= i < row_line(row).len() ==> #[trigger] row_line(row)[i] != '\n',
        row_line(row).len() > 0 && row_line(row).last() != '\r',
{
    let d = decimal(row.0 as nat);
    lemma_decimal_digits(row.0 as nat);
    lemma_fields_have_no_space(row.1);
    let line = row_line(row);
    assert forall|i: int| 0 <= i < line.len() implies #[trigger] line[i] != '\n' by {
        if i < d.len() {
            assert(is_digit(d[i]));
        } else {
            assert(line[i] == fields_text(row.1)[i - d.len()]);
            assert(!is_space(fields_text(row.1)[i - d.len()]) || fields_text(row.1)[i - d.len()] == ' ');
        }
    }
    if fields_text(row.1).len() == 0 {
        assert(line =~= d);
        assert(is_digit(d[d.len() - 1]));
    } else {
        assert(line.last() == fields_text(row.1).last());
        assert(!is_space(fields_text(row.1).last()) || fields_text(row.1).last() == ' ');
        lemma_fields_end_in_a_word(row.1);
    }
}

/// Written fields hold no whitespace but the spaces between them.
proof fn lemma_fields_have_no_space(fields: Seq<Seq<char>>)
    requires
        forall|k: int| 0 <= k < fields.len() ==> is_word(#[trigger] fields[k]),
    ensures
        forall|i: int|
            0 <= i < fields_text(fields).len() ==> !is_space(#[trigger] fields_text(fields)[i])
                || fields_text(fields)[i] == ' ',
    decreases fields.len(),
{
    if fields.len() > 0 {
        let front = fields.drop_last();
        assert forall|k: int| 0 <= k < front.len() implies is_word(#[trigger] front[k]) by {
            assert(front[k] == fields[k]);
        }
        lemma_fields_have_no_space(front);
        let t = fields_text(fields);
        let a = fields_text(front);
        let l = fields.last();
        assert(is_word(fields[fields.len() - 1]));
        assert forall|i: int| 0 <= i < t.len() implies !is_space(#[trigger] t[i]) || t[i] == ' ' by {
            if i < a.len() {
                assert(t[i] == a[i]);
            } else if i == a.len() {
                assert(t[i] == ' ');
            } else {
                assert(t[i] == l[i - a.len() - 1]);
            }
        }
    }
}

/// Written fields end in the last field's last character.
proof fn lemma_fields_end_in_a_word(fields: Seq<Seq<char>>)
    requires
        fields.len() > 0,
        forall|k: int| 0 <= k < fields.len() ==> is_word(#[trigger] fields[k]),
    ensures
        !is_space(fields_text(fields).last()),
{
    let l = fields.last();
    assert(is_word(fields[fields.len() - 1]));
    assert(fields_text(fields).last() == l.last());
    assert(!is_space(l[l.len() - 1]));
}

/// What arrange mode writes, it reads back: every placement with at least
/// four fields, none of them empty or holding whitespace, comes back as it
/// went out, in the same order.
pub proof fn an_arrangement_reads_back_as_written(rows: Seq<(u32, Seq<Seq<char>>)>)
    requires
        forall|k: int| 0 <= k < rows.len() ==> writable(#[trigger] rows[k]),
    ensures
        rows_of(lines_of(arrangement_text(rows))) == rows,
{
    let h = header();
    reveal_strlit("# piece  x  y  z  yaw  scale \u{2014} written by arrange mode");
    assert forall|i: int| 0 <= i < h.len() implies #[trigger] h[i] != '\n' by {}
    lemma_lines_line(h, rows_text(rows), Seq::empty());
    assert(Seq::<char>::empty() + h =~= h);
    lemma_rows_read_back(rows);
    lemma_rows_of_front(without_cr(h), lines_from(rows_text(rows), 0, Seq::empty()));
    assert(without_cr(h)[0] == '#');
}

} // verus!
