//! Position-tracking tokenizer for script assembly text.
//!
//! The input is split into lines at newline characters; each line is
//! truncated at its first `#` and then at the first `//` of what remains;
//! what is left is split on runs of whitespace. Every word is paired with
//! its zero-based `(line, word)` position. Lines that carry no word — empty,
//! all-whitespace, or comment-only — still advance the line counter.

use vstd::prelude::*;
use vstd::string::StrSliceExecFns;

verus! {

/// Whether `c` is a whitespace character, as the Unicode `White_Space`
/// property defines it.
pub open spec fn is_space(c: char) -> bool {
    let v = c as int;
    v == 0x9 || v == 0xA || v == 0xB || v == 0xC || v == 0xD || v == 0x20
        || v == 0x85 || v == 0xA0 || v == 0x1680 || (0x2000 <= v <= 0x200A)
        || v == 0x2028 || v == 0x2029 || v == 0x202F || v == 0x205F || v == 0x3000
}

/// The first position at or after `i` in `s` where `p` holds, or the length
/// of `s` if `p` holds nowhere at or after `i`.
pub open spec fn cut_from(s: Seq<char>, p: spec_fn(Seq<char>, int) -> bool, i: int) -> int
    decreases s.len() - i,
{
    if i < 0 || i >= s.len() {
        s.len() as int
    } else if p(s, i) {
        i
    } else {
        cut_from(s, p, i + 1)
    }
}

/// `cut_from` stays within bounds, `p` fails everywhere before the cut, and
/// `p` holds at the cut unless the cut is the end.
pub proof fn lemma_cut_from(s: Seq<char>, p: spec_fn(Seq<char>, int) -> bool, i: int)
    requires
        0 <= i <= s.len(),
    ensures
        i <= cut_from(s, p, i) <= s.len(),
        forall|j: int| i <= j < cut_from(s, p, i) ==> !#[trigger] p(s, j),
        cut_from(s, p, i) < s.len() ==> p(s, cut_from(s, p, i)),
    decreases s.len() - i,
{
    if i < s.len() && !p(s, i) {
        lemma_cut_from(s, p, i + 1);
    }
}

/// A position before which `p` fails everywhere, and at which `p` holds
/// unless it is the end, is exactly the cut from the start.
pub proof fn lemma_cut_from_is_first(s: Seq<char>, p: spec_fn(Seq<char>, int) -> bool, k: int)
    requires
        0 <= k <= s.len(),
        forall|j: int| 0 <= j < k ==> !#[trigger] p(s, j),
        k < s.len() ==> p(s, k),
    ensures
        cut_from(s, p, 0) == k,
{
    lemma_cut_from(s, p, 0);
}

/// The position predicate for a `#` comment marker.
pub open spec fn hash_at() -> spec_fn(Seq<char>, int) -> bool {
    |s: Seq<char>, j: int| s[j] == '#'
}

/// The position predicate for a `//` comment marker.
pub open spec fn slashes_at() -> spec_fn(Seq<char>, int) -> bool {
    |s: Seq<char>, j: int| j + 1 < s.len() && s[j] == '/' && s[j + 1] == '/'
}

/// The position predicate for a whitespace character.
pub open spec fn space_at() -> spec_fn(Seq<char>, int) -> bool {
    |s: Seq<char>, j: int| is_space(s[j])
}

/// The position predicate for a newline character.
pub open spec fn newline_at() -> spec_fn(Seq<char>, int) -> bool {
    |s: Seq<char>, j: int| s[j] == '\n'
}

/// The line truncated at its first `#`, if any.
pub open spec fn strip_hash(line: Seq<char>) -> Seq<char> {
    line.take(cut_from(line, hash_at(), 0))
}

/// The line truncated at its first `//`, if any.
pub open spec fn strip_slashes(line: Seq<char>) -> Seq<char> {
    line.take(cut_from(line, slashes_at(), 0))
}

/// The comment-free content of a line: truncation at the first `#` is
/// applied first, then truncation at the first `//` of what remains.
pub open spec fn strip_line(line: Seq<char>) -> Seq<char> {
    strip_slashes(strip_hash(line))
}

/// The whitespace-delimited words of a comment-free line, in order: each
/// word is a maximal non-empty run of non-whitespace characters.
pub open spec fn words_of(line: Seq<char>) -> Seq<Seq<char>>
    decreases line.len(),
{
    if line.len() == 0 {
        Seq::empty()
    } else if is_space(line[0]) {
        words_of(line.drop_first())
    } else {
        let k = cut_from(line, space_at(), 0);
        proof {
            lemma_cut_from(line, space_at(), 0);
            assert(!(space_at()(line, 0)));
        }
        seq![line.take(k)] + words_of(line.skip(k))
    }
}

/// A line holds no more words than characters.
pub proof fn lemma_words_count_le(line: Seq<char>)
    ensures
        words_of(line).len() <= line.len(),
    decreases line.len(),
{
    if line.len() == 0 {
    } else if is_space(line[0]) {
        lemma_words_count_le(line.drop_first());
    } else {
        let k = cut_from(line, space_at(), 0);
        lemma_cut_from(line, space_at(), 0);
        assert(!(space_at()(line, 0)));
        lemma_words_count_le(line.skip(k));
    }
}

/// The lines of the input: the text split at every newline character. The
/// final line is what follows the last newline, even when it is empty.
pub open spec fn split_lines(text: Seq<char>) -> Seq<Seq<char>>
    decreases text.len(),
{
    let k = cut_from(text, newline_at(), 0);
    if k == text.len() {
        seq![text]
    } else {
        proof {
            lemma_cut_from(text, newline_at(), 0);
        }
        seq![text.take(k)] + split_lines(text.skip(k + 1))
    }
}

/// The words of one input line: its comment-free content, split on
/// whitespace.
pub open spec fn line_words(line: Seq<char>) -> Seq<Seq<char>> {
    words_of(strip_line(line))
}

/// The positioned tokens of line number `i` with words `ws`.
pub open spec fn line_tokens(i: int, ws: Seq<Seq<char>>) -> Seq<((int, int), Seq<char>)> {
    Seq::new(ws.len(), |j: int| ((i, j), ws[j]))
}

/// The positioned tokens of the lines `lines`, the first line numbered `i`.
pub open spec fn tokens_from(lines: Seq<Seq<char>>, i: int) -> Seq<((int, int), Seq<char>)>
    decreases lines.len(),
{
    if lines.len() == 0 {
        Seq::empty()
    } else {
        line_tokens(i, line_words(lines[0])) + tokens_from(lines.drop_first(), i + 1)
    }
}

/// The positioned tokens of the whole input text, in document order.
pub open spec fn tokens_of(text: Seq<char>) -> Seq<((int, int), Seq<char>)> {
    tokens_from(split_lines(text), 0)
}

/// The mathematical value of one produced token.
pub open spec fn token_view(t: ((usize, usize), &str)) -> ((int, int), Seq<char>) {
    ((t.0.0 as int, t.0.1 as int), t.1@)
}

/// The mathematical value of a produced token sequence.
pub open spec fn token_views(s: Seq<((usize, usize), &str)>) -> Seq<((int, int), Seq<char>)> {
    Seq::new(s.len(), |k: int| token_view(s[k]))
}

/// The number of words in each of `lines`, added up.
pub open spec fn total_word_count(lines: Seq<Seq<char>>) -> int
    decreases lines.len(),
{
    if lines.len() == 0 {
        0
    } else {
        line_words(lines[0]).len() + total_word_count(lines.drop_first())
    }
}

proof fn lemma_tokens_from_count(lines: Seq<Seq<char>>, i: int)
    ensures
        tokens_from(lines, i).len() == total_word_count(lines),
    decreases lines.len(),
{
    if lines.len() > 0 {
        lemma_tokens_from_count(lines.drop_first(), i + 1);
    }
}

/// Whether `c` is a whitespace character, in executable form.
fn is_space_char(c: char) -> (r: bool)
    ensures
        r == is_space(c),
{
    let v = c as u32;
    v == 0x9 || v == 0xA || v == 0xB || v == 0xC || v == 0xD || v == 0x20
        || v == 0x85 || v == 0xA0 || v == 0x1680 || (0x2000 <= v && v <= 0x200A)
        || v == 0x2028 || v == 0x2029 || v == 0x202F || v == 0x205F || v == 0x3000
}

/// The first position in `[from, to)` holding a newline, or `to`.
fn scan_newline(s: &str, from: usize, to: usize) -> (r: usize)
    requires
        from <= to <= s@.len(),
    ensures
        from <= r <= to,
        forall|j: int| from <= j < r ==> s@[j] != '\n',
        r < to ==> s@[r as int] == '\n',
{
    let mut i = from;
    while i < to
        invariant
            from <= i <= to <= s@.len(),
            forall|j: int| from <= j < i ==> s@[j] != '\n',
        decreases to - i,
    {
        if s.get_char(i) == '\n' {
            return i;
        }
        i = i + 1;
    }
    i
}

/// The first position in `[from, to)` holding a `#`, or `to`.
fn scan_hash(s: &str, from: usize, to: usize) -> (r: usize)
    requires
        from <= to <= s@.len(),
    ensures
        from <= r <= to,
        forall|j: int| from <= j < r ==> s@[j] != '#',
        r < to ==> s@[r as int] == '#',
{
    let mut i = from;
    while i < to
        invariant
            from <= i <= to <= s@.len(),
            forall|j: int| from <= j < i ==> s@[j] != '#',
        decreases to - i,
    {
        if s.get_char(i) == '#' {
            return i;
        }
        i = i + 1;
    }
    i
}

/// The first position in `[from, to)` starting a `//` pair that lies wholly
/// before `to`, or `to`.
fn scan_slashes(s: &str, from: usize, to: usize) -> (r: usize)
    requires
        from <= to <= s@.len(),
    ensures
        from <= r <= to,
        forall|j: int| from <= j < r
            ==> !(j + 1 < to && #[trigger] s@[j] == '/' && s@[j + 1] == '/'),
        r < to ==> r + 1 < to && s@[r as int] == '/' && s@[r + 1] == '/',
{
    let mut i = from;
    while i < to
        invariant
            from <= i <= to <= s@.len(),
            forall|j: int| from <= j < i
                ==> !(j + 1 < to && #[trigger] s@[j] == '/' && s@[j + 1] == '/'),
        decreases to - i,
    {
        if i + 1 < to && s.get_char(i) == '/' && s.get_char(i + 1) == '/' {
            return i;
        }
        i = i + 1;
    }
    i
}

/// Append to `out` the positioned tokens of the line occupying
/// `text[pos..end)`, numbering it `line_idx`.
fn line_word_tokens<'a>(
    text: &'a str,
    pos: usize,
    end: usize,
    line_idx: usize,
    out: &mut Vec<((usize, usize), &'a str)>,
)
    requires
        pos <= end <= text@.len(),
    ensures
        token_views(final(out)@) == token_views(old(out)@)
            + line_tokens(line_idx as int, line_words(text@.subrange(pos as int, end as int))),
{
    let ghost line = text@.subrange(pos as int, end as int);
    let h = scan_hash(text, pos, end);
    proof {
        assert forall|j: int| 0 <= j < h - pos implies !#[trigger] hash_at()(line, j) by {
            assert(line[j] == text@[pos + j]);
        }
        if h - pos < line.len() {
            assert(line[h - pos] == text@[h as int]);
        }
        lemma_cut_from_is_first(line, hash_at(), h - pos);
        assert(strip_hash(line) =~= text@.subrange(pos as int, h as int));
    }
    let ghost hline = text@.subrange(pos as int, h as int);
    let sl = scan_slashes(text, pos, h);
    proof {
        assert forall|j: int| 0 <= j < sl - pos implies !#[trigger] slashes_at()(hline, j) by {
            assert(hline[j] == text@[pos + j]);
            assert(j + 1 < hline.len() ==> hline[j + 1] == text@[pos + j + 1]);
        }
        if sl - pos < hline.len() {
            assert(hline[sl - pos] == text@[sl as int]);
            assert(hline[sl - pos + 1] == text@[sl as int + 1]);
        }
        lemma_cut_from_is_first(hline, slashes_at(), sl - pos);
        assert(strip_slashes(hline) =~= text@.subrange(pos as int, sl as int));
    }
    let ghost content = text@.subrange(pos as int, sl as int);
    let ghost ws = words_of(content);
    let ghost base = out@;
    proof {
        assert(strip_line(line) == content);
        lemma_words_count_le(content);
        assert(token_views(out@) =~= token_views(base)
            + line_tokens(line_idx as int, ws).take(0));
        assert(text@.subrange(pos as int, sl as int) == content);
    }
    let mut q = pos;
    let mut w: usize = 0;
    loop
        invariant
            pos <= q <= sl <= end <= text@.len(),
            w <= ws.len(),
            ws.len() <= content.len(),
            content == text@.subrange(pos as int, sl as int),
            ws == words_of(content),
            strip_line(line) == content,
            line == text@.subrange(pos as int, end as int),
            out@.len() == base.len() + w,
            token_views(out@) == token_views(base)
                + line_tokens(line_idx as int, ws).take(w as int),
            words_of(text@.subrange(q as int, sl as int)) == ws.skip(w as int),
        ensures
            token_views(out@) == token_views(base) + line_tokens(line_idx as int, ws),
            strip_line(line) == content,
            ws == words_of(content),
            line == text@.subrange(pos as int, end as int),
        decreases sl - q,
    {
        let ghost q0 = q;
        while q < sl && is_space_char(text.get_char(q))
            invariant
                pos <= q <= sl <= text@.len(),
                q0 <= q,
                words_of(text@.subrange(q as int, sl as int)) == ws.skip(w as int),
            decreases sl - q,
        {
            proof {
                assert(text@.subrange(q as int, sl as int).drop_first()
                    =~= text@.subrange(q as int + 1, sl as int));
            }
            q = q + 1;
        }
        if q == sl {
            proof {
                assert(text@.subrange(q as int, sl as int) =~= Seq::<char>::empty());
                assert(ws.skip(w as int).len() == 0);
                assert(w == ws.len());
                assert(line_tokens(line_idx as int, ws).take(w as int)
                    =~= line_tokens(line_idx as int, ws));
            }
            break;
        }
        let wstart = q;
        proof {
            assert(!is_space(text@[wstart as int]));
        }
        while q < sl && !is_space_char(text.get_char(q))
            invariant
                wstart <= q <= sl <= text@.len(),
                forall|j: int| wstart <= j < q ==> !is_space(#[trigger] text@[j]),
            decreases sl - q,
        {
            q = q + 1;
        }
        proof {
            if q == wstart {
                assert(is_space(text@[wstart as int]));
            }
            assert(q > wstart);
            assert(wstart >= q0);
            let t = text@.subrange(wstart as int, sl as int);
            assert forall|j: int| 0 <= j < q - wstart implies !#[trigger] space_at()(t, j) by {
                assert(t[j] == text@[wstart + j]);
            }
            if q - wstart < t.len() {
                assert(t[q - wstart] == text@[q as int]);
            }
            lemma_cut_from_is_first(t, space_at(), q - wstart);
            assert(t[0] == text@[wstart as int]);
            assert(words_of(t) == seq![t.take(q - wstart)] + words_of(t.skip(q - wstart)));
            assert(t.take(q - wstart) =~= text@.subrange(wstart as int, q as int));
            assert(t.skip(q - wstart) =~= text@.subrange(q as int, sl as int));
            assert(ws.skip(w as int).len() > 0);
            assert(w < ws.len());
            assert(ws[w as int] == ws.skip(w as int)[0]);
            assert(ws[w as int] == text@.subrange(wstart as int, q as int));
            assert(ws.skip(w as int).drop_first() =~= ws.skip(w as int + 1));
            assert((seq![t.take(q - wstart)] + words_of(t.skip(q - wstart))).drop_first()
                =~= words_of(t.skip(q - wstart)));
            assert(words_of(text@.subrange(q as int, sl as int)) == ws.skip(w as int + 1));
        }
        let word = text.substring_char(wstart, q);
        let ghost prev = out@;
        out.push(((line_idx, w), word));
        proof {
            let target = token_views(base) + line_tokens(line_idx as int, ws).take(w as int + 1);
            assert(out@ == prev.push(((line_idx, w), word)));
            assert forall|m: int| 0 <= m < out@.len() implies token_views(out@)[m]
                == target[m] by {
                if m < base.len() + w {
                    assert(out@[m] == prev[m]);
                    assert(token_views(prev)[m]
                        == (token_views(base) + line_tokens(line_idx as int, ws).take(
                        w as int,
                    ))[m]);
                } else {
                    assert(out@[m] == ((line_idx, w), word));
                    assert(target[m] == line_tokens(line_idx as int, ws).take(w as int + 1)[
                        w as int]);
                    assert(line_tokens(line_idx as int, ws)[w as int]
                        == ((line_idx as int, w as int), ws[w as int]));
                }
            }
            assert(token_views(out@) =~= target);
        }
        w = w + 1;
    }
    proof {
        assert(line_words(text@.subrange(pos as int, end as int)) == ws);
    }
}

/// Produce the instruction words of `text` and their positions in the text,
/// in document order: each element pairs a zero-based `(line, word)` index
/// with a view of the word's characters.
pub fn iter_words<'a>(text: &'a str) -> (r: Vec<((usize, usize), &'a str)>)
    ensures
        token_views(r@) == tokens_of(text@),
{
    let n = text.unicode_len();
    let mut out: Vec<((usize, usize), &'a str)> = Vec::new();
    let mut pos: usize = 0;
    let mut line_idx: usize = 0;
    proof {
        assert(text@.skip(0) =~= text@);
        assert(token_views(out@) =~= Seq::<((int, int), Seq<char>)>::empty());
        assert(token_views(out@) + tokens_from(split_lines(text@.skip(0)), 0)
            =~= tokens_of(text@));
    }
    loop
        invariant_except_break
            token_views(out@)
                + tokens_from(split_lines(text@.skip(pos as int)), line_idx as int)
                == tokens_of(text@),
        invariant
            n == text@.len(),
            line_idx <= pos <= n,
        ensures
            token_views(out@) == tokens_of(text@),
        decreases n - pos,
    {
        let end = scan_newline(text, pos, n);
        let ghost rem = text@.skip(pos as int);
        proof {
            assert forall|j: int| 0 <= j < end - pos implies !#[trigger] newline_at()(rem, j) by {
                assert(rem[j] == text@[pos + j]);
            }
            if end - pos < rem.len() {
                assert(rem[end - pos] == text@[end as int]);
            }
            lemma_cut_from_is_first(rem, newline_at(), end - pos);
        }
        line_word_tokens(text, pos, end, line_idx, &mut out);
        if end == n {
            proof {
                assert(split_lines(rem) == seq![rem]);
                assert(rem =~= text@.subrange(pos as int, end as int));
                assert(seq![rem].len() == 1);
                assert(seq![rem][0] == rem);
                assert(tokens_from(seq![rem], line_idx as int)
                    == line_tokens(line_idx as int, line_words(rem))
                    + tokens_from(seq![rem].drop_first(), line_idx as int + 1));
                assert(seq![rem].drop_first() =~= Seq::<Seq<char>>::empty());
                assert(tokens_from(Seq::<Seq<char>>::empty(), line_idx as int + 1)
                    == Seq::<((int, int), Seq<char>)>::empty());
                assert(tokens_from(split_lines(rem), line_idx as int)
                    =~= line_tokens(line_idx as int, line_words(rem)));
                assert(token_views(out@) =~= tokens_of(text@));
            }
            break;
        }
        proof {
            let k = end - pos;
            let lines = split_lines(rem);
            assert(lines == seq![rem.take(k)] + split_lines(rem.skip(k + 1)));
            assert(rem.take(k) =~= text@.subrange(pos as int, end as int));
            assert(rem.skip(k + 1) =~= text@.skip(end as int + 1));
            assert(lines[0] == rem.take(k));
            assert(lines.drop_first() =~= split_lines(text@.skip(end as int + 1)));
            assert(tokens_from(lines, line_idx as int)
                == line_tokens(line_idx as int, line_words(lines[0]))
                + tokens_from(lines.drop_first(), line_idx as int + 1));
            assert(token_views(out@)
                + tokens_from(split_lines(text@.skip(end as int + 1)), line_idx as int + 1)
                =~= tokens_of(text@));
        }
        pos = end + 1;
        line_idx = line_idx + 1;
    }
    out
}

/// Law: the tokenizer yields exactly as many words as stripping the `#` and
/// `//` comment suffixes of every line and splitting the remainders on
/// whitespace yields, added up over the lines.
pub proof fn lemma_word_count(text: Seq<char>)
    ensures
        tokens_of(text).len() == total_word_count(split_lines(text)),
{
    lemma_tokens_from_count(split_lines(text), 0);
}

/// Every word split out of a line is a non-empty run of non-whitespace
/// characters.
proof fn lemma_words_of_wellformed(line: Seq<char>)
    ensures
        forall|m: int| 0 <= m < words_of(line).len()
            ==> (#[trigger] words_of(line)[m]).len() > 0,
        forall|m: int, c: int| 0 <= m < words_of(line).len()
            && 0 <= c < words_of(line)[m].len()
            ==> !is_space(#[trigger] words_of(line)[m][c]),
    decreases line.len(),
{
    if line.len() == 0 {
        assert(words_of(line) == Seq::<Seq<char>>::empty());
    } else if is_space(line[0]) {
        lemma_words_of_wellformed(line.drop_first());
        assert(words_of(line) == words_of(line.drop_first()));
        assert forall|m: int| 0 <= m < words_of(line).len() implies (#[trigger] words_of(
            line,
        )[m]).len() > 0 by {
            assert(words_of(line)[m] == words_of(line.drop_first())[m]);
        }
        assert forall|m: int, c: int| 0 <= m < words_of(line).len()
            && 0 <= c < words_of(line)[m].len() implies !is_space(
            #[trigger] words_of(line)[m][c],
        ) by {
            assert(words_of(line)[m] == words_of(line.drop_first())[m]);
        }
    } else {
        let k = cut_from(line, space_at(), 0);
        lemma_cut_from(line, space_at(), 0);
        assert(!(space_at()(line, 0)));
        lemma_words_of_wellformed(line.skip(k));
        let rest = words_of(line.skip(k));
        assert(words_of(line) == seq![line.take(k)] + rest);
        assert forall|c: int| 0 <= c < line.take(k).len() implies !is_space(
            #[trigger] line.take(k)[c],
        ) by {
            assert(!(space_at()(line, c)));
        }
        assert forall|m: int| 0 <= m < words_of(line).len() implies (#[trigger] words_of(
            line,
        )[m]).len() > 0 by {
            if m == 0 {
                assert(words_of(line)[0] == line.take(k));
                assert(k >= 1);
            } else {
                assert(words_of(line)[m] == rest[m - 1]);
            }
        }
        assert forall|m: int, c: int| 0 <= m < words_of(line).len()
            && 0 <= c < words_of(line)[m].len() implies !is_space(
            #[trigger] words_of(line)[m][c],
        ) by {
            if m == 0 {
                assert(words_of(line)[0] == line.take(k));
            } else {
                assert(words_of(line)[m] == rest[m - 1]);
            }
        }
    }
}

proof fn lemma_tokens_from_wellformed(lines: Seq<Seq<char>>, i: int)
    ensures
        forall|k: int| 0 <= k < tokens_from(lines, i).len()
            ==> (#[trigger] tokens_from(lines, i)[k]).1.len() > 0,
        forall|k: int, c: int| 0 <= k < tokens_from(lines, i).len()
            && 0 <= c < tokens_from(lines, i)[k].1.len()
            ==> !is_space(#[trigger] tokens_from(lines, i)[k].1[c]),
    decreases lines.len(),
{
    if lines.len() > 0 {
        lemma_tokens_from_wellformed(lines.drop_first(), i + 1);
        lemma_words_of_wellformed(strip_line(lines[0]));
        let head = line_tokens(i, line_words(lines[0]));
        let tail = tokens_from(lines.drop_first(), i + 1);
        let all = tokens_from(lines, i);
        assert(all == head + tail);
        assert forall|k: int| 0 <= k < all.len() implies (#[trigger] all[k]).1.len() > 0 by {
            if k < head.len() {
                assert(all[k] == head[k]);
            } else {
                assert(all[k] == tail[k - head.len()]);
            }
        }
        assert forall|k: int, c: int| 0 <= k < all.len() && 0 <= c < all[k].1.len()
            implies !is_space(#[trigger] all[k].1[c]) by {
            if k < head.len() {
                assert(all[k] == head[k]);
                assert(head[k].1 == line_words(lines[0])[k]);
            } else {
                assert(all[k] == tail[k - head.len()]);
            }
        }
    }
}

/// Law: every yielded word is non-empty and holds no whitespace — comment
/// stripping and whitespace splitting never let a blank or padded word
/// through.
pub proof fn lemma_token_words_wellformed(text: Seq<char>)
    ensures
        forall|k: int| 0 <= k < tokens_of(text).len()
            ==> (#[trigger] tokens_of(text)[k]).1.len() > 0,
        forall|k: int, c: int| 0 <= k < tokens_of(text).len()
            && 0 <= c < tokens_of(text)[k].1.len()
            ==> !is_space(#[trigger] tokens_of(text)[k].1[c]),
{
    lemma_tokens_from_wellformed(split_lines(text), 0);
}

/// Whether position `a` comes strictly before position `b` in document
/// order: on an earlier line, or earlier within the same line.
pub open spec fn pos_lt(a: (int, int), b: (int, int)) -> bool {
    a.0 < b.0 || (a.0 == b.0 && a.1 < b.1)
}

proof fn lemma_tokens_from_ordered(lines: Seq<Seq<char>>, i: int)
    ensures
        forall|k: int| 0 <= k < tokens_from(lines, i).len()
            ==> (#[trigger] tokens_from(lines, i)[k]).0.0 >= i,
        forall|k1: int, k2: int| 0 <= k1 < k2 < tokens_from(lines, i).len()
            ==> pos_lt(
                (#[trigger] tokens_from(lines, i)[k1]).0,
                (#[trigger] tokens_from(lines, i)[k2]).0,
            ),
    decreases lines.len(),
{
    if lines.len() > 0 {
        lemma_tokens_from_ordered(lines.drop_first(), i + 1);
        let head = line_tokens(i, line_words(lines[0]));
        let tail = tokens_from(lines.drop_first(), i + 1);
        let all = tokens_from(lines, i);
        assert(all == head + tail);
        assert forall|k: int| 0 <= k < all.len() implies (#[trigger] all[k]).0.0 >= i by {
            if k < head.len() {
                assert(all[k] == head[k]);
            } else {
                assert(all[k] == tail[k - head.len()]);
            }
        }
        assert forall|k1: int, k2: int| 0 <= k1 < k2 < all.len() implies pos_lt(
            (#[trigger] all[k1]).0,
            (#[trigger] all[k2]).0,
        ) by {
            if k2 < head.len() {
                assert(all[k1] == head[k1]);
                assert(all[k2] == head[k2]);
            } else if k1 >= head.len() {
                assert(all[k1] == tail[k1 - head.len()]);
                assert(all[k2] == tail[k2 - head.len()]);
            } else {
                assert(all[k1] == head[k1]);
                assert(all[k2] == tail[k2 - head.len()]);
                assert(all[k2].0.0 >= i + 1);
            }
        }
    }
}

/// Law: the token stream is strictly ordered by its `(line, word)`
/// positions — every token of an earlier line precedes every token of a
/// later one, and words within a line appear in increasing word order.
pub proof fn lemma_tokens_ordered(text: Seq<char>)
    ensures
        forall|k1: int, k2: int| 0 <= k1 < k2 < tokens_of(text).len()
            ==> pos_lt(
                (#[trigger] tokens_of(text)[k1]).0,
                (#[trigger] tokens_of(text)[k2]).0,
            ),
{
    lemma_tokens_from_ordered(split_lines(text), 0);
}

} // verus!
