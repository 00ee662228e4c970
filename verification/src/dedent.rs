//! Removing the common indentation of a block of text.
use vstd::prelude::*;

verus! {

/// The characters with the Unicode `White_Space` property, which is what
/// `char::is_whitespace` tests.
pub open spec fn is_white_space(c: char) -> bool {
    let u = c as u32;
    ||| 0x09 <= u <= 0x0d
    ||| u == 0x20
    ||| u == 0x85
    ||| u == 0xa0
    ||| u == 0x1680
    ||| 0x2000 <= u <= 0x200a
    ||| u == 0x2028
    ||| u == 0x2029
    ||| u == 0x202f
    ||| u == 0x205f
    ||| u == 0x3000
}

/// How many bytes the UTF-8 encoding of a character takes.
pub open spec fn utf8_len(c: char) -> int {
    let u = c as u32;
    if u < 0x80 {
        1
    } else if u < 0x800 {
        2
    } else if u < 0x10000 {
        3
    } else {
        4
    }
}

/// The index of the first line feed of a text, if any.
pub open spec fn newline_index(s: Seq<char>) -> Option<int>
    decreases s.len(),
{
    if s.len() == 0 {
        None
    } else if s[0] == '\n' {
        Some(0)
    } else {
        match newline_index(s.drop_first()) {
            Some(i) => Some(i + 1),
            None => None,
        }
    }
}

/// A line without the carriage return that ended it before its line feed.
pub open spec fn strip_carriage_return(line: Seq<char>) -> Seq<char> {
    if line.len() > 0 && line.last() == '\r' {
        line.drop_last()
    } else {
        line
    }
}

/// The lines of a text, as `str::lines` gives them: split at each `\n` or
/// `\r\n`, without the line endings, and with no line after a final line ending.
pub open spec fn lines(s: Seq<char>) -> Seq<Seq<char>>
    decreases s.len(),
{
    if s.len() == 0 {
        seq![]
    } else {
        match newline_index(s) {
            Some(i) => {
                proof {
                    lemma_newline_index_bounds(s);
                }
                seq![strip_carriage_return(s.take(i))] + lines(s.skip(i + 1))
            },
            None => seq![s],
        }
    }
}

/// A line of nothing but white space.
pub open spec fn is_blank(line: Seq<char>) -> bool {
    forall|i: int| 0 <= i < line.len() ==> is_white_space(#[trigger] line[i])
}

/// The number of white space characters that a line starts with.
pub open spec fn leading_white_space(line: Seq<char>) -> nat
    decreases line.len(),
{
    if line.len() > 0 && is_white_space(line[0]) {
        1 + leading_white_space(line.drop_first())
    } else {
        0
    }
}

/// The lines that are not blank.
pub open spec fn non_blank(lines: Seq<Seq<char>>) -> Seq<Seq<char>> {
    lines.filter(|line: Seq<char>| !is_blank(line))
}

/// The least indentation among lines, or 0 where there is no line.
pub open spec fn min_indent(lines: Seq<Seq<char>>) -> nat
    decreases lines.len(),
{
    if lines.len() == 0 {
        0
    } else if lines.len() == 1 {
        leading_white_space(lines[0])
    } else {
        let rest = min_indent(lines.drop_last());
        let last = leading_white_space(lines.last());
        if last < rest {
            last
        } else {
            rest
        }
    }
}

/// The index of the character that starts at byte `k` of the UTF-8 encoding of
/// a line, if a character starts there (`k` being the line's length included).
pub open spec fn char_index_at_byte(line: Seq<char>, k: int) -> Option<int>
    decreases line.len(),
{
    if k == 0 {
        Some(0)
    } else if line.len() == 0 || utf8_len(line[0]) > k {
        None
    } else {
        match char_index_at_byte(line.drop_first(), k - utf8_len(line[0])) {
            Some(j) => Some(j + 1),
            None => None,
        }
    }
}

/// Lines joined with `\n` between them.
pub open spec fn join_lines(lines: Seq<Seq<char>>) -> Seq<char>
    decreases lines.len(),
{
    if lines.len() == 0 {
        seq![]
    } else if lines.len() == 1 {
        lines[0]
    } else {
        join_lines(lines.drop_last()) + seq!['\n'] + lines.last()
    }
}

/// A line without its first `indent` bytes.
pub open spec fn drop_indent(line: Seq<char>, indent: nat) -> Seq<char> {
    line.skip(char_index_at_byte(line, indent as int).unwrap())
}

/// The non-blank lines of a text, each without the least indentation among them.
pub open spec fn dedented_lines(s: Seq<char>) -> Seq<Seq<char>> {
    let kept = non_blank(lines(s));
    kept.map_values(|line: Seq<char>| drop_indent(line, min_indent(kept)))
}

/// The text that `dedent` gives: its non-blank lines, without their common
/// indentation, joined with `\n`.
pub open spec fn dedented(s: Seq<char>) -> Seq<char> {
    join_lines(dedented_lines(s))
}

/// The common indentation, counted in characters, ends at a character boundary
/// of every non-blank line when counted in bytes.
pub open spec fn indent_on_char_boundaries(s: Seq<char>) -> bool {
    let kept = non_blank(lines(s));
    forall|i: int|
        0 <= i < kept.len() ==> #[trigger] char_index_at_byte(kept[i], min_indent(kept) as int) is Some
}

pub proof fn lemma_newline_index_bounds(s: Seq<char>)
    ensures
        newline_index(s) matches Some(i) ==> 0 <= i < s.len() && s[i] == '\n',
    decreases s.len(),
{
    if s.len() > 0 && s[0] != '\n' {
        lemma_newline_index_bounds(s.drop_first());
    }
}

/// The first line feed is at `m` when `s[m]` is one and none comes before it.
proof fn lemma_newline_index_at(s: Seq<char>, m: int)
    requires
        0 <= m < s.len(),
        s[m] == '\n',
        forall|k: int| 0 <= k < m ==> s[k] != '\n',
    ensures
        newline_index(s) == Some(m),
    decreases m,
{
    if m > 0 {
        lemma_newline_index_at(s.drop_first(), m - 1);
    }
}

/// A text without line feed has no first line feed.
proof fn lemma_newline_index_none(s: Seq<char>)
    requires
        forall|k: int| 0 <= k < s.len() ==> s[k] != '\n',
    ensures
        newline_index(s) is None,
    decreases s.len(),
{
    if s.len() > 0 {
        lemma_newline_index_none(s.drop_first());
    }
}

/// A line is blank exactly when it is all leading white space.
proof fn lemma_blank_iff_all_leading(line: Seq<char>)
    ensures
        leading_white_space(line) <= line.len(),
        is_blank(line) <==> leading_white_space(line) == line.len(),
        forall|i: int| 0 <= i < leading_white_space(line) ==> is_white_space(#[trigger] line[i]),
        leading_white_space(line) < line.len() ==> !is_white_space(
            line[leading_white_space(line) as int],
        ),
    decreases line.len(),
{
    if line.len() > 0 {
        lemma_blank_iff_all_leading(line.drop_first());
        if is_white_space(line[0]) {
            assert forall|i: int| 0 <= i < leading_white_space(line) implies is_white_space(
                #[trigger] line[i],
            ) by {
                if i > 0 {
                    assert(line[i] == line.drop_first()[i - 1]);
                }
            }
            if is_blank(line.drop_first()) {
                assert forall|i: int| 0 <= i < line.len() implies is_white_space(
                    #[trigger] line[i],
                ) by {
                    if i > 0 {
                        assert(line[i] == line.drop_first()[i - 1]);
                    }
                }
            }
            if is_blank(line) {
                assert forall|i: int| 0 <= i < line.drop_first().len() implies is_white_space(
                    #[trigger] line.drop_first()[i],
                ) by {
                    assert(line.drop_first()[i] == line[i + 1]);
                }
            }
        }
    }
}

/// One more line looked at: the non-blank lines grow by it unless it is blank.
proof fn lemma_non_blank_step(ls: Seq<Seq<char>>, i: int)
    requires
        0 <= i < ls.len(),
    ensures
        non_blank(ls.take(i + 1)) == if is_blank(ls[i]) {
            non_blank(ls.take(i))
        } else {
            non_blank(ls.take(i)).push(ls[i])
        },
{
    reveal(Seq::filter);
    assert(ls.take(i + 1).drop_last() =~= ls.take(i));
}

/// The lines given by a table of `[start, end)` bounds into a text.
pub open spec fn bounded_lines(chars: Seq<char>, bounds: Seq<(usize, usize)>) -> Seq<Seq<char>> {
    Seq::new(bounds.len(), |k: int| chars.subrange(bounds[k].0 as int, bounds[k].1 as int))
}

/// Every bound of the table lies within the text.
pub open spec fn bounds_within(chars: Seq<char>, bounds: Seq<(usize, usize)>) -> bool {
    forall|k: int|
        0 <= k < bounds.len() ==> #[trigger] bounds[k].0 <= bounds[k].1 <= chars.len()
}

/// Whether `c` has the Unicode `White_Space` property.
pub fn is_whitespace(c: char) -> (r: bool)
    ensures
        r == is_white_space(c),
{
    let u = c as u32;
    (0x09 <= u && u <= 0x0d) || u == 0x20 || u == 0x85 || u == 0xa0 || u == 0x1680 || (0x2000
        <= u && u <= 0x200a) || u == 0x2028 || u == 0x2029 || u == 0x202f || u == 0x205f || u
        == 0x3000
}

/// How many bytes the UTF-8 encoding of `c` takes.
pub fn len_utf8(c: char) -> (n: usize)
    ensures
        n == utf8_len(c),
{
    let u = c as u32;
    if u < 0x80 {
        1
    } else if u < 0x800 {
        2
    } else if u < 0x10000 {
        3
    } else {
        4
    }
}

/// The characters of a text.
fn chars_of(s: &str) -> (chars: Vec<char>)
    ensures
        chars@ == s@,
{
    let mut chars: Vec<char> = Vec::new();
    for c in it: s.chars()
        invariant
            it.seq() == s@,
            chars@ == it.seq().take(it.index() as int),
    {
        proof {
            assert(it.seq().take(it.index() as int).push(c) =~= it.seq().take(it.index() + 1));
        }
        chars.push(c);
    }
    assert(s@.take(s@.len() as int) =~= s@);
    chars
}

/// The `[start, end)` bounds of the lines of a text, line endings left out.
fn line_bounds(chars: &Vec<char>) -> (bounds: Vec<(usize, usize)>)
    ensures
        bounds_within(chars@, bounds@),
        bounded_lines(chars@, bounds@) == lines(chars@),
{
    let n = chars.len();
    let mut bounds: Vec<(usize, usize)> = Vec::new();
    let mut start: usize = 0;
    let mut i: usize = 0;
    assert(chars@.skip(0) =~= chars@);
    assert(bounded_lines(chars@, bounds@) =~= Seq::<Seq<char>>::empty());
    while i < n
        invariant
            n == chars@.len(),
            0 <= start <= i <= n,
            forall|k: int| start <= k < i ==> chars@[k] != '\n',
            bounds_within(chars@, bounds@),
            lines(chars@) == bounded_lines(chars@, bounds@) + lines(chars@.skip(start as int)),
        decreases n - i,
    {
        if chars[i] == '\n' {
            let end = if i > start && chars[i - 1] == '\r' {
                i - 1
            } else {
                i
            };
            proof {
                let rest = chars@.skip(start as int);
                let m = i - start;
                lemma_newline_index_at(rest, m as int);
                assert(rest.skip(m + 1) =~= chars@.skip(i + 1));
                assert(strip_carriage_return(rest.take(m as int)) =~= chars@.subrange(
                    start as int,
                    end as int,
                ));
                assert(lines(rest) == seq![chars@.subrange(start as int, end as int)] + lines(
                    chars@.skip(i + 1),
                ));
                assert(bounded_lines(chars@, bounds@.push((start, end))) =~= bounded_lines(
                    chars@,
                    bounds@,
                ).push(chars@.subrange(start as int, end as int)));
            }
            bounds.push((start, end));
            start = i + 1;
        }
        i = i + 1;
    }
    if start < n {
        proof {
            let rest = chars@.skip(start as int);
            lemma_newline_index_none(rest);
            assert(rest =~= chars@.subrange(start as int, n as int));
            assert(bounded_lines(chars@, bounds@.push((start, n))) =~= bounded_lines(
                chars@,
                bounds@,
            ).push(chars@.subrange(start as int, n as int)));
        }
        bounds.push((start, n));
    } else {
        assert(lines(chars@.skip(start as int)) =~= Seq::<Seq<char>>::empty());
    }
    assert(lines(chars@) =~= bounded_lines(chars@, bounds@));
    bounds
}

/// The number of white space characters that `chars[start..end]` starts with.
fn leading_whitespace_count(chars: &Vec<char>, start: usize, end: usize) -> (count: usize)
    requires
        start <= end <= chars@.len(),
    ensures
        count == leading_white_space(chars@.subrange(start as int, end as int)),
{
    let mut i = start;
    while i < end && is_whitespace(chars[i])
        invariant
            start <= i <= end <= chars@.len(),
            leading_white_space(chars@.subrange(start as int, end as int)) == (i - start)
                + leading_white_space(chars@.subrange(i as int, end as int)),
        decreases end - i,
    {
        assert(chars@.subrange(i as int, end as int).drop_first() =~= chars@.subrange(
            i + 1,
            end as int,
        ));
        i = i + 1;
    }
    i - start
}

/// Shifts an index that may be missing.
pub open spec fn shifted(index: Option<int>, by: int) -> Option<int> {
    match index {
        Some(j) => Some(j + by),
        None => None,
    }
}

/// The index, counted from `start`, of the character of `chars[start..end]`
/// that starts at byte `indent` of its encoding.
fn char_index_of_byte(chars: &Vec<char>, start: usize, end: usize, indent: usize) -> (index: usize)
    requires
        start <= end <= chars@.len(),
        char_index_at_byte(chars@.subrange(start as int, end as int), indent as int) is Some,
    ensures
        char_index_at_byte(chars@.subrange(start as int, end as int), indent as int) == Some(
            index as int,
        ),
        start + index <= end,
{
    let mut j = start;
    let mut bytes: usize = 0;
    while bytes < indent
        invariant
            start <= j <= end <= chars@.len(),
            bytes <= indent,
            char_index_at_byte(chars@.subrange(start as int, end as int), indent as int) is Some,
            char_index_at_byte(chars@.subrange(start as int, end as int), indent as int)
                == shifted(
                char_index_at_byte(chars@.subrange(j as int, end as int), indent - bytes),
                j - start,
            ),
        decreases end - j,
    {
        let sub = Ghost(chars@.subrange(j as int, end as int));
        assert(sub@.len() > 0 && utf8_len(sub@[0]) <= indent - bytes);
        assert(sub@.drop_first() =~= chars@.subrange(j + 1, end as int));
        let width = len_utf8(chars[j]);
        bytes = bytes + width;
        j = j + 1;
    }
    j - start
}

/// The text's non-blank lines, each without the least indentation among them,
/// joined with `\n`. The indentation is counted in characters of leading white
/// space and taken off as that many bytes, so it must end at a character boundary
/// of each non-blank line.
pub fn dedent(s: &str) -> (dedented_text: String)
    requires
        indent_on_char_boundaries(s@),
    ensures
        dedented_text@ == dedented(s@),
{
    let chars = chars_of(s);
    let bounds = line_bounds(&chars);
    let ghost all_lines = lines(s@);
    // The non-blank lines and their least indentation.
    let mut kept: Vec<(usize, usize)> = Vec::new();
    let mut min_indent_found: usize = 0;
    let mut k: usize = 0;
    while k < bounds.len()
        invariant
            chars@ == s@,
            all_lines == lines(s@),
            bounds_within(chars@, bounds@),
            bounded_lines(chars@, bounds@) == all_lines,
            0 <= k <= bounds@.len(),
            bounds_within(chars@, kept@),
            bounded_lines(chars@, kept@) == non_blank(all_lines.take(k as int)),
            min_indent_found == min_indent(bounded_lines(chars@, kept@)),
        decreases bounds@.len() - k,
    {
        let (start, end) = bounds[k];
        let lead = leading_whitespace_count(&chars, start, end);
        proof {
            assert(all_lines[k as int] == chars@.subrange(start as int, end as int));
            lemma_blank_iff_all_leading(all_lines[k as int]);
            lemma_non_blank_step(all_lines, k as int);
        }
        if lead != end - start {
            let ghost before = bounded_lines(chars@, kept@);
            let ghost kept_before = kept@;
            assert(bounds@[k as int].0 <= bounds@[k as int].1 <= chars@.len());
            if kept.len() == 0 || lead < min_indent_found {
                min_indent_found = lead;
            }
            kept.push((start, end));
            proof {
                assert(bounded_lines(chars@, kept@) =~= before.push(
                    chars@.subrange(start as int, end as int),
                ));
                assert(bounded_lines(chars@, kept@).drop_last() =~= before);
                assert forall|j: int| 0 <= j < kept@.len() implies #[trigger] kept@[j].0
                    <= kept@[j].1 <= chars@.len() by {
                    if j < kept_before.len() {
                        assert(kept@[j] == kept_before[j]);
                    }
                }
            }
        }
        k = k + 1;
    }
    proof {
        assert(all_lines.take(bounds@.len() as int) =~= all_lines);
    }
    let ghost kept_lines = non_blank(all_lines);
    let ghost out_lines = dedented_lines(s@);
    let mut out = String::new();
    let mut k: usize = 0;
    while k < kept.len()
        invariant
            chars@ == s@,
            bounds_within(chars@, kept@),
            bounded_lines(chars@, kept@) == kept_lines,
            kept_lines == non_blank(lines(s@)),
            min_indent_found == min_indent(kept_lines),
            indent_on_char_boundaries(s@),
            out_lines == dedented_lines(s@),
            0 <= k <= kept@.len(),
            out@ == join_lines(out_lines.take(k as int)),
        decreases kept@.len() - k,
    {
        let (start, end) = kept[k];
        proof {
            assert(kept_lines[k as int] == chars@.subrange(start as int, end as int));
        }
        // A non-blank line has at least `min_indent_found` characters, hence at
        // least as many bytes, so the cut always falls inside it.
        let index = char_index_of_byte(&chars, start, end, min_indent_found);
        let ghost before = out@;
        if k > 0 {
            proof {
                reveal_strlit("\n");
            }
            out.append("\n");
        }
        let piece = s.substring_char(start + index, end);
        out.append(piece);
        proof {
            let line = kept_lines[k as int];
            assert(out_lines[k as int] == drop_indent(line, min_indent_found as nat));
            assert(piece@ =~= out_lines[k as int]);
            assert(out_lines.take(k + 1).drop_last() =~= out_lines.take(k as int));
            if k == 0 {
                assert(out@ =~= join_lines(out_lines.take(1)));
            } else {
                assert(out@ =~= join_lines(out_lines.take(k + 1)));
            }
        }
        k = k + 1;
    }
    proof {
        assert(out_lines.take(kept@.len() as int) =~= out_lines);
    }
    out
}

/// A line that ends with a carriage return.
pub open spec fn ends_with_carriage_return(line: Seq<char>) -> bool {
    line.len() > 0 && line.last() == '\r'
}

/// A line without line feed.
pub open spec fn has_no_newline(line: Seq<char>) -> bool {
    forall|i: int| 0 <= i < line.len() ==> line[i] != '\n'
}

/// No line of a text holds a line feed.
proof fn lemma_lines_have_no_newline(s: Seq<char>)
    ensures
        forall|i: int| 0 <= i < lines(s).len() ==> has_no_newline(#[trigger] lines(s)[i]),
    decreases s.len(),
{
    if s.len() > 0 {
        lemma_newline_index_bounds(s);
        match newline_index(s) {
            Some(m) => {
                let rest = s.skip(m + 1);
                lemma_lines_have_no_newline(rest);
                assert forall|k: int| 0 <= k < m implies s[k] != '\n' by {
                    if s[k] == '\n' {
                        lemma_newline_index_first(s, k);
                    }
                }
                let first = strip_carriage_return(s.take(m));
                assert(has_no_newline(first));
                assert forall|i: int| 0 <= i < lines(s).len() implies has_no_newline(
                    #[trigger] lines(s)[i],
                ) by {
                    if i > 0 {
                        assert(lines(s)[i] == lines(rest)[i - 1]);
                    }
                }
            },
            None => {
                lemma_newline_index_none_means_no_newline(s);
            },
        }
    }
}

/// No line feed comes before the first one.
proof fn lemma_newline_index_first(s: Seq<char>, k: int)
    requires
        0 <= k < s.len(),
        s[k] == '\n',
    ensures
        newline_index(s) matches Some(m) && m <= k,
    decreases k,
{
    if k > 0 && s[0] != '\n' {
        lemma_newline_index_first(s.drop_first(), k - 1);
    }
}

/// A text without first line feed has none.
proof fn lemma_newline_index_none_means_no_newline(s: Seq<char>)
    requires
        newline_index(s) is None,
    ensures
        has_no_newline(s),
{
    assert forall|k: int| 0 <= k < s.len() implies s[k] != '\n' by {
        if s[k] == '\n' {
            lemma_newline_index_first(s, k);
        }
    }
}

/// The non-blank lines keep a property of all lines, and none of them is blank.
proof fn lemma_non_blank_keeps(ls: Seq<Seq<char>>, p: spec_fn(Seq<char>) -> bool)
    requires
        forall|i: int| 0 <= i < ls.len() ==> p(#[trigger] ls[i]),
    ensures
        forall|i: int|
            0 <= i < non_blank(ls).len() ==> p(#[trigger] non_blank(ls)[i]) && !is_blank(
                non_blank(ls)[i],
            ),
        non_blank(ls).len() <= ls.len(),
    decreases ls.len(),
{
    reveal(Seq::filter);
    if ls.len() > 0 {
        lemma_non_blank_keeps(ls.drop_last(), p);
        assert(p(ls[ls.len() - 1]));
    }
}

/// Lines that are all non-blank are their own non-blank lines.
proof fn lemma_non_blank_of_non_blank(ls: Seq<Seq<char>>)
    requires
        forall|i: int| 0 <= i < ls.len() ==> !is_blank(#[trigger] ls[i]),
    ensures
        non_blank(ls) == ls,
    decreases ls.len(),
{
    reveal(Seq::filter);
    if ls.len() > 0 {
        lemma_non_blank_of_non_blank(ls.drop_last());
        assert(!is_blank(ls[ls.len() - 1]));
        assert(ls.drop_last().push(ls.last()) =~= ls);
    }
}

/// The least indentation is at most the indentation of every line.
proof fn lemma_min_indent_le(ls: Seq<Seq<char>>)
    ensures
        forall|i: int| 0 <= i < ls.len() ==> min_indent(ls) <= leading_white_space(#[trigger] ls[i]),
    decreases ls.len(),
{
    if ls.len() > 1 {
        lemma_min_indent_le(ls.drop_last());
        assert forall|i: int| 0 <= i < ls.len() implies min_indent(ls) <= leading_white_space(
            #[trigger] ls[i],
        ) by {
            if i < ls.len() - 1 {
                assert(ls[i] == ls.drop_last()[i]);
            }
        }
    }
}

/// The character that starts at byte `k` is at most the `k`-th one.
proof fn lemma_char_index_at_byte_bound(line: Seq<char>, k: int)
    requires
        k >= 0,
    ensures
        char_index_at_byte(line, k) matches Some(j) ==> 0 <= j <= k && j <= line.len(),
    decreases line.len(),
{
    if k != 0 && line.len() > 0 && utf8_len(line[0]) <= k {
        lemma_char_index_at_byte_bound(line.drop_first(), k - utf8_len(line[0]));
    }
}

/// Taking off part of a line's leading white space leaves the rest of it, and
/// the line's last character.
proof fn lemma_skip_leading(line: Seq<char>, j: int)
    requires
        0 <= j <= leading_white_space(line),
        !is_blank(line),
    ensures
        leading_white_space(line.skip(j)) == leading_white_space(line) - j,
        !is_blank(line.skip(j)),
        line.skip(j).len() > 0,
        line.skip(j).last() == line.last(),
        has_no_newline(line) ==> has_no_newline(line.skip(j)),
    decreases j,
{
    lemma_blank_iff_all_leading(line);
    if j > 0 {
        assert(line.skip(j) =~= line.drop_first().skip(j - 1));
        assert(!is_blank(line.drop_first())) by {
            let w = leading_white_space(line) as int;
            assert(line.drop_first()[w - 1] == line[w]);
        }
        lemma_skip_leading(line.drop_first(), j - 1);
    } else {
        assert(line.skip(0) =~= line);
    }
    if has_no_newline(line) {
        assert forall|i: int| 0 <= i < line.skip(j).len() implies line.skip(j)[i] != '\n' by {
            assert(line.skip(j)[i] == line[i + j]);
        }
    }
}

/// Joining a first line and the others puts a line feed after the first.
proof fn lemma_join_lines_front(ls: Seq<Seq<char>>)
    requires
        ls.len() >= 2,
    ensures
        join_lines(ls) == ls[0] + seq!['\n'] + join_lines(ls.drop_first()),
    decreases ls.len(),
{
    if ls.len() > 2 {
        lemma_join_lines_front(ls.drop_last());
        assert(ls.drop_last().drop_first() =~= ls.drop_first().drop_last());
        assert(ls.drop_first().last() == ls.last());
        assert(ls.drop_last()[0] == ls[0]);
        assert(join_lines(ls.drop_first()) == join_lines(ls.drop_first().drop_last()) + seq!['\n']
            + ls.drop_first().last());
        assert(join_lines(ls) =~= ls[0] + seq!['\n'] + join_lines(ls.drop_first()));
    } else {
        assert(ls.drop_first() =~= seq![ls[1]]);
        assert(ls.drop_last() =~= seq![ls[0]]);
        assert(join_lines(ls.drop_last()) == ls[0]);
        assert(join_lines(ls.drop_first()) == ls[1]);
        assert(join_lines(ls) =~= ls[0] + seq!['\n'] + join_lines(ls.drop_first()));
    }
}

/// Splitting joined lines gives them back, when none holds a line feed, none but
/// the last ends with a carriage return, and the last is not empty.
proof fn lemma_lines_of_join(ls: Seq<Seq<char>>)
    requires
        forall|i: int| 0 <= i < ls.len() ==> has_no_newline(#[trigger] ls[i]),
        forall|i: int| 0 <= i < ls.len() - 1 ==> !ends_with_carriage_return(#[trigger] ls[i]),
        ls.len() > 0 ==> ls.last().len() > 0,
    ensures
        lines(join_lines(ls)) == ls,
    decreases ls.len(),
{
    if ls.len() == 0 {
        assert(lines(join_lines(ls)) =~= ls);
    } else if ls.len() == 1 {
        lemma_newline_index_none(ls[0]);
        assert(lines(join_lines(ls)) =~= ls);
    } else {
        let first = ls[0];
        let rest = ls.drop_first();
        assert forall|i: int| 0 <= i < rest.len() implies has_no_newline(#[trigger] rest[i]) by {
            assert(rest[i] == ls[i + 1]);
        }
        assert forall|i: int| 0 <= i < rest.len() - 1 implies !ends_with_carriage_return(
            #[trigger] rest[i],
        ) by {
            assert(rest[i] == ls[i + 1]);
        }
        lemma_lines_of_join(rest);
        lemma_join_lines_front(ls);
        let joined = join_lines(ls);
        let tail = join_lines(rest);
        assert(has_no_newline(first));
        assert(!ends_with_carriage_return(first));
        lemma_newline_index_at(joined, first.len() as int);
        assert(joined.take(first.len() as int) =~= first);
        assert(joined.skip(first.len() as int + 1) =~= tail);
        assert(lines(joined) =~= seq![first] + lines(tail));
        assert(seq![first] + rest =~= ls);
    }
}

/// Every line that `dedent` keeps is non-blank and holds no line feed.
pub proof fn lemma_dedented_lines_are_non_blank(s: Seq<char>)
    requires
        indent_on_char_boundaries(s),
    ensures
        forall|i: int|
            0 <= i < dedented_lines(s).len() ==> {
                &&& has_no_newline(#[trigger] dedented_lines(s)[i])
                &&& !is_blank(dedented_lines(s)[i])
                &&& dedented_lines(s)[i].len() > 0
            },
{
    let all = lines(s);
    let kept = non_blank(all);
    let m = min_indent(kept);
    let out = dedented_lines(s);
    lemma_lines_have_no_newline(s);
    lemma_non_blank_keeps(all, |line: Seq<char>| has_no_newline(line));
    lemma_min_indent_le(kept);
    assert forall|i: int| 0 <= i < out.len() implies {
        &&& has_no_newline(#[trigger] out[i])
        &&& !is_blank(out[i])
        &&& out[i].len() > 0
    } by {
        let line = kept[i];
        assert(!is_blank(line) && has_no_newline(line));
        assert(char_index_at_byte(kept[i], m as int) is Some);
        let j = char_index_at_byte(line, m as int).unwrap();
        lemma_char_index_at_byte_bound(line, m as int);
        lemma_skip_leading(line, j);
    }
}

/// Dedenting twice gives what dedenting once gives. It does not where a
/// dedented line other than the last ends with a carriage return (the line feed
/// put after it makes a line ending of it), nor where the dedented lines are still
/// indented (the indentation, counted in characters, was taken off as fewer
/// characters of more than one byte each).
pub proof fn lemma_dedent_idempotent(s: Seq<char>)
    requires
        indent_on_char_boundaries(s),
        forall|i: int|
            0 <= i < dedented_lines(s).len() - 1 ==> !ends_with_carriage_return(
                #[trigger] dedented_lines(s)[i],
            ),
        min_indent(dedented_lines(s)) == 0,
    ensures
        indent_on_char_boundaries(dedented(s)),
        dedented(dedented(s)) == dedented(s),
{
    let out = dedented_lines(s);
    lemma_dedented_lines_are_non_blank(s);
    lemma_lines_of_join(out);
    lemma_non_blank_of_non_blank(out);
    let again = dedented_lines(join_lines(out));
    assert(non_blank(lines(join_lines(out))) == out);
    assert(again =~= out) by {
        assert forall|i: int| 0 <= i < out.len() implies #[trigger] again[i] == out[i] by {
            assert(char_index_at_byte(out[i], 0) == Some(0int));
            assert(out[i].skip(0) =~= out[i]);
        }
    }
    assert forall|i: int|
        0 <= i < non_blank(lines(dedented(s))).len() implies #[trigger] char_index_at_byte(
        non_blank(lines(dedented(s)))[i],
        min_indent(non_blank(lines(dedented(s)))) as int,
    ) is Some by {}
}

/// A text without carriage return.
pub open spec fn has_no_carriage_return(s: Seq<char>) -> bool {
    forall|i: int| 0 <= i < s.len() ==> s[i] != '\r'
}

/// The leading white space of a line is all ASCII.
pub open spec fn has_ascii_indent(line: Seq<char>) -> bool {
    forall|i: int| 0 <= i < leading_white_space(line) ==> (#[trigger] line[i] as u32) < 0x80
}

/// The leading white space of every non-blank line of a text is all ASCII.
pub open spec fn ascii_indentation(s: Seq<char>) -> bool {
    forall|i: int|
        0 <= i < lines(s).len() ==> is_blank(#[trigger] lines(s)[i]) || has_ascii_indent(
            lines(s)[i],
        )
}

/// No line of a text without carriage return holds one.
proof fn lemma_lines_have_no_carriage_return(s: Seq<char>)
    requires
        has_no_carriage_return(s),
    ensures
        forall|i: int| 0 <= i < lines(s).len() ==> has_no_carriage_return(#[trigger] lines(s)[i]),
    decreases s.len(),
{
    if s.len() > 0 {
        lemma_newline_index_bounds(s);
        if let Some(m) = newline_index(s) {
            let rest = s.skip(m + 1);
            assert(has_no_carriage_return(rest)) by {
                assert forall|k: int| 0 <= k < rest.len() implies rest[k] != '\r' by {
                    assert(rest[k] == s[k + m + 1]);
                }
            }
            lemma_lines_have_no_carriage_return(rest);
            let first = strip_carriage_return(s.take(m));
            assert(has_no_carriage_return(first)) by {
                assert forall|k: int| 0 <= k < first.len() implies first[k] != '\r' by {
                    assert(first[k] == s[k]);
                }
            }
            assert forall|i: int| 0 <= i < lines(s).len() implies has_no_carriage_return(
                #[trigger] lines(s)[i],
            ) by {
                if i > 0 {
                    assert(lines(s)[i] == lines(rest)[i - 1]);
                }
            }
        }
    }
}

/// Cutting `k` bytes off a line whose first `k` characters are ASCII white
/// space cuts `k` characters.
proof fn lemma_char_index_at_ascii_byte(line: Seq<char>, k: int)
    requires
        0 <= k <= leading_white_space(line),
        has_ascii_indent(line),
    ensures
        char_index_at_byte(line, k) == Some(k),
    decreases k,
{
    lemma_blank_iff_all_leading(line);
    if k > 0 {
        let rest = line.drop_first();
        assert(utf8_len(line[0]) == 1);
        assert(has_ascii_indent(rest)) by {
            assert forall|i: int| 0 <= i < leading_white_space(rest) implies (
            #[trigger] rest[i] as u32) < 0x80 by {
                assert(rest[i] == line[i + 1]);
            }
        }
        lemma_char_index_at_ascii_byte(rest, k - 1);
    }
}

/// Some line has the least indentation.
proof fn lemma_min_indent_attained(ls: Seq<Seq<char>>)
    requires
        ls.len() > 0,
    ensures
        exists|i: int| 0 <= i < ls.len() && leading_white_space(#[trigger] ls[i]) == min_indent(ls),
    decreases ls.len(),
{
    if ls.len() == 1 {
        assert(leading_white_space(ls[0]) == min_indent(ls));
    } else {
        lemma_min_indent_attained(ls.drop_last());
        let i = choose|i: int|
            0 <= i < ls.drop_last().len() && leading_white_space(#[trigger] ls.drop_last()[i])
                == min_indent(ls.drop_last());
        assert(ls.drop_last()[i] == ls[i]);
        if leading_white_space(ls.last()) < min_indent(ls.drop_last()) {
            assert(leading_white_space(ls[ls.len() - 1]) == min_indent(ls));
        } else {
            assert(leading_white_space(ls[i]) == min_indent(ls));
        }
    }
}

/// On a text without carriage return and with ASCII indentation, `dedent` is
/// defined, and dedenting twice gives what dedenting once gives.
pub proof fn lemma_dedent_idempotent_on_plain_text(s: Seq<char>)
    requires
        has_no_carriage_return(s),
        ascii_indentation(s),
    ensures
        indent_on_char_boundaries(s),
        indent_on_char_boundaries(dedented(s)),
        dedented(dedented(s)) == dedented(s),
{
    let all = lines(s);
    let kept = non_blank(all);
    let m = min_indent(kept);
    lemma_lines_have_no_carriage_return(s);
    lemma_non_blank_keeps(
        all,
        |line: Seq<char>| has_no_carriage_return(line) && (is_blank(line) || has_ascii_indent(line)),
    );
    lemma_min_indent_le(kept);
    assert forall|i: int| 0 <= i < kept.len() implies #[trigger] char_index_at_byte(
        kept[i],
        m as int,
    ) == Some(m as int) by {
        lemma_char_index_at_ascii_byte(kept[i], m as int);
    }
    let out = dedented_lines(s);
    assert forall|i: int| 0 <= i < out.len() implies {
        &&& !ends_with_carriage_return(#[trigger] out[i])
        &&& leading_white_space(out[i]) == leading_white_space(kept[i]) - m
    } by {
        assert(out[i] == kept[i].skip(m as int));
        lemma_skip_leading(kept[i], m as int);
        assert(out[i].last() == kept[i].last());
        assert(kept[i].last() == kept[i][kept[i].len() - 1]);
    }
    if kept.len() > 0 {
        lemma_min_indent_attained(kept);
        let w = choose|i: int| 0 <= i < kept.len() && leading_white_space(#[trigger] kept[i]) == m;
        assert(leading_white_space(out[w]) == 0);
        lemma_min_indent_le(out);
    }
    lemma_dedent_idempotent(s);
}

/// `k` spaces.
pub open spec fn spaces(k: nat) -> Seq<char> {
    Seq::new(k, |i: int| ' ')
}

/// Lines, each with `k` more spaces in front.
pub open spec fn indented(ls: Seq<Seq<char>>, k: nat) -> Seq<Seq<char>> {
    ls.map_values(|line: Seq<char>| spaces(k) + line)
}

/// What `k` spaces in front do to a line.
proof fn lemma_spaces_in_front(line: Seq<char>, k: nat)
    ensures
        leading_white_space(spaces(k) + line) == k + leading_white_space(line),
        is_blank(spaces(k) + line) == is_blank(line),
        has_ascii_indent(line) ==> has_ascii_indent(spaces(k) + line),
        has_no_newline(line) ==> has_no_newline(spaces(k) + line),
        has_no_carriage_return(line) ==> has_no_carriage_return(spaces(k) + line),
        forall|j: int| 0 <= j <= line.len() ==> (spaces(k) + line).skip(k + j) == line.skip(j),
    decreases k,
{
    let padded = spaces(k) + line;
    if k > 0 {
        lemma_spaces_in_front(line, (k - 1) as nat);
        assert(padded.drop_first() =~= spaces((k - 1) as nat) + line);
        assert(is_white_space(padded[0]));
    } else {
        assert(padded =~= line);
    }
    lemma_blank_iff_all_leading(line);
    lemma_blank_iff_all_leading(padded);
    if has_ascii_indent(line) {
        assert forall|i: int| 0 <= i < leading_white_space(padded) implies (
        #[trigger] padded[i] as u32) < 0x80 by {
            if i >= k {
                assert(padded[i] == line[i - k]);
            }
        }
    }
    if has_no_newline(line) {
        assert forall|i: int| 0 <= i < padded.len() implies padded[i] != '\n' by {
            if i >= k {
                assert(padded[i] == line[i - k]);
            }
        }
    }
    if has_no_carriage_return(line) {
        assert forall|i: int| 0 <= i < padded.len() implies padded[i] != '\r' by {
            if i >= k {
                assert(padded[i] == line[i - k]);
            }
        }
    }
    assert forall|j: int| 0 <= j <= line.len() implies (spaces(k) + line).skip(k + j)
        == line.skip(j) by {
        assert((spaces(k) + line).skip(k + j) =~= line.skip(j));
    }
}

/// The non-blank lines of joined lines are the non-blank lines joined, when no
/// line holds a line feed or a carriage return.
proof fn lemma_non_blank_lines_of_join(ls: Seq<Seq<char>>)
    requires
        forall|i: int|
            0 <= i < ls.len() ==> has_no_newline(#[trigger] ls[i]) && has_no_carriage_return(ls[i]),
    ensures
        non_blank(lines(join_lines(ls))) == non_blank(ls),
    decreases ls.len(),
{
    reveal(Seq::filter);
    if ls.len() == 0 {
        assert(lines(join_lines(ls)) =~= Seq::<Seq<char>>::empty());
    } else if ls.len() == 1 {
        let line = ls[0];
        if line.len() == 0 {
            assert(lines(join_lines(ls)) =~= Seq::<Seq<char>>::empty());
            assert(ls.drop_last() =~= Seq::<Seq<char>>::empty());
            assert(is_blank(line));
        } else {
            lemma_newline_index_none(line);
            assert(lines(join_lines(ls)) =~= ls);
        }
    } else {
        let first = ls[0];
        let rest = ls.drop_first();
        assert forall|i: int| 0 <= i < rest.len() implies has_no_newline(#[trigger] rest[i])
            && has_no_carriage_return(rest[i]) by {
            assert(rest[i] == ls[i + 1]);
        }
        lemma_non_blank_lines_of_join(rest);
        lemma_join_lines_front(ls);
        let joined = join_lines(ls);
        let tail = join_lines(rest);
        assert(has_no_newline(first) && has_no_carriage_return(first));
        lemma_newline_index_at(joined, first.len() as int);
        assert(joined.take(first.len() as int) =~= first);
        assert(joined.skip(first.len() as int + 1) =~= tail);
        if first.len() > 0 {
            assert(first[first.len() - 1] != '\r');
        }
        assert(strip_carriage_return(first) == first);
        assert(lines(joined) =~= seq![first] + lines(tail));
        let keep = |line: Seq<char>| !is_blank(line);
        Seq::filter_distributes_over_add(seq![first], lines(tail), keep);
        Seq::filter_distributes_over_add(seq![first], rest, keep);
        assert(seq![first] + rest =~= ls);
    }
}

/// Putting `k` spaces in front of every line keeps which lines are blank.
proof fn lemma_non_blank_indented(ls: Seq<Seq<char>>, k: nat)
    ensures
        non_blank(indented(ls, k)) == indented(non_blank(ls), k),
    decreases ls.len(),
{
    reveal(Seq::filter);
    if ls.len() > 0 {
        lemma_non_blank_indented(ls.drop_last(), k);
        assert(indented(ls, k).drop_last() =~= indented(ls.drop_last(), k));
        lemma_spaces_in_front(ls.last(), k);
        assert(indented(ls, k).last() == spaces(k) + ls.last());
        if !is_blank(ls.last()) {
            assert(indented(non_blank(ls.drop_last()).push(ls.last()), k) =~= indented(
                non_blank(ls.drop_last()),
                k,
            ).push(spaces(k) + ls.last()));
        }
    } else {
        assert(indented(ls, k) =~= ls);
    }
}

/// Putting `k` spaces in front of every line adds `k` to the least indentation.
proof fn lemma_min_indent_indented(ls: Seq<Seq<char>>, k: nat)
    requires
        ls.len() > 0,
    ensures
        min_indent(indented(ls, k)) == min_indent(ls) + k,
    decreases ls.len(),
{
    lemma_spaces_in_front(ls.last(), k);
    if ls.len() == 1 {
        lemma_spaces_in_front(ls[0], k);
    } else {
        lemma_min_indent_indented(ls.drop_last(), k);
        assert(indented(ls, k).drop_last() =~= indented(ls.drop_last(), k));
        assert(indented(ls, k).last() == spaces(k) + ls.last());
    }
}

/// Indenting every line of a text by the same number of spaces does not change
/// what `dedent` gives, on a text without carriage return and with ASCII
/// indentation.
pub proof fn lemma_dedent_removes_uniform_indent(s: Seq<char>, k: nat)
    requires
        has_no_carriage_return(s),
        ascii_indentation(s),
    ensures
        indent_on_char_boundaries(join_lines(indented(lines(s), k))),
        dedented(join_lines(indented(lines(s), k))) == dedented(s),
{
    let all = lines(s);
    let kept = non_blank(all);
    let padded = indented(all, k);
    let t = join_lines(padded);
    lemma_lines_have_no_newline(s);
    lemma_lines_have_no_carriage_return(s);
    assert forall|i: int| 0 <= i < padded.len() implies has_no_newline(#[trigger] padded[i])
        && has_no_carriage_return(padded[i]) by {
        lemma_spaces_in_front(all[i], k);
    }
    lemma_non_blank_lines_of_join(padded);
    lemma_non_blank_indented(all, k);
    let kept_t = non_blank(lines(t));
    assert(kept_t == indented(kept, k));
    lemma_non_blank_keeps(all, |line: Seq<char>| is_blank(line) || has_ascii_indent(line));
    lemma_min_indent_le(kept);
    let m = min_indent(kept);
    if kept.len() > 0 {
        lemma_min_indent_indented(kept, k);
    }
    assert forall|i: int| 0 <= i < kept.len() implies {
        &&& #[trigger] char_index_at_byte(kept_t[i], min_indent(kept_t) as int) == Some(
            (m + k) as int,
        )
        &&& drop_indent(kept_t[i], min_indent(kept_t)) == drop_indent(kept[i], m)
    } by {
        let line = kept[i];
        lemma_spaces_in_front(line, k);
        assert(kept_t[i] == spaces(k) + line);
        lemma_char_index_at_ascii_byte(kept_t[i], (m + k) as int);
        lemma_char_index_at_ascii_byte(line, m as int);
        lemma_blank_iff_all_leading(line);
    }
    assert(dedented_lines(t) =~= dedented_lines(s));
}

} // verus!
