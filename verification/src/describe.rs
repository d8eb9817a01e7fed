//! Short, one-sentence descriptions of tools and tool groups.

use vstd::prelude::*;
use crate::text::chars_of;
use crate::text::string_of;

verus! {

/// Whether `c` has the Unicode `White_Space` property, which is what
/// `char::is_whitespace` tests: tab through carriage return, space, next
/// line, no-break space, ogham space mark, the spaces from en quad to hair
/// space, line and paragraph separator, narrow no-break space, medium
/// mathematical space and ideographic space.
pub open spec fn char_is_whitespace(c: char) -> bool {
    let u = c as u32;
    ||| 0x09 <= u <= 0x0d
    ||| u == 0x20
    ||| u == 0x85
    ||| u == 0xa0
    ||| u == 0x1680
    ||| 0x2000 <= u <= 0x200a
    ||| u == 0x2028
    ||| u == 0x2029
    ||| u == 0x202f
    ||| u == 0x205f
    ||| u == 0x3000
}

/// What `char::is_alphabetic` returns for a character (the Unicode
/// `Alphabetic` property).
pub uninterp spec fn char_is_alphabetic(c: char) -> bool;

/// Whether a character is whitespace, as `char::is_whitespace` says.
pub fn is_whitespace(c: char) -> (r: bool)
    ensures
        r == char_is_whitespace(c),
{
    let u: u32 = c as u32;
    (0x09 <= u && u <= 0x0d) || u == 0x20 || u == 0x85 || u == 0xa0 || u == 0x1680 || (0x2000 <= u && u <= 0x200a)
        || u == 0x2028 || u == 0x2029 || u == 0x202f || u == 0x205f || u == 0x3000
}

/// Whether a character is alphabetic.
///
/// Trusted: calls `char::is_alphabetic`, documented as the Unicode
/// `Alphabetic` property; among ASCII characters that property holds for
/// exactly the letters `A`-`Z` and `a`-`z`.
#[verifier::external_body]
pub(crate) fn is_alphabetic(c: char) -> (r: bool)
    ensures
        r == char_is_alphabetic(c),
        (c as u32) < 128 ==> (r <==> (('a' <= c && c <= 'z') || ('A' <= c && c <= 'Z'))),
{
    c.is_alphabetic()
}

/// `s` without its leading whitespace.
pub open spec fn trim_start(s: Seq<char>) -> Seq<char>
    decreases s.len(),
{
    if s.len() > 0 && char_is_whitespace(s[0]) {
        trim_start(s.drop_first())
    } else {
        s
    }
}

/// `s` without its trailing whitespace.
pub open spec fn trim_end(s: Seq<char>) -> Seq<char>
    decreases s.len(),
{
    if s.len() > 0 && char_is_whitespace(s.last()) {
        trim_end(s.drop_last())
    } else {
        s
    }
}

/// `s` without leading and trailing whitespace, as `str::trim` gives it.
pub open spec fn trim(s: Seq<char>) -> Seq<char> {
    trim_end(trim_start(s))
}

/// Index of the first `c` in `s`, or `s.len()`.
pub open spec fn index_of(s: Seq<char>, c: char) -> int
    decreases s.len(),
{
    if s.len() == 0 {
        0
    } else if s[0] == c {
        0
    } else {
        1 + index_of(s.drop_first(), c)
    }
}

pub proof fn lemma_index_of_bounds(s: Seq<char>, c: char)
    ensures
        0 <= index_of(s, c) <= s.len(),
        index_of(s, c) < s.len() ==> s[index_of(s, c)] == c,
        forall|j: int| 0 <= j < index_of(s, c) ==> s[j] != c,
    decreases s.len(),
{
    if s.len() > 0 && s[0] != c {
        lemma_index_of_bounds(s.drop_first(), c);
        assert forall|j: int| 0 <= j < index_of(s, c) implies s[j] != c by {
            if j > 0 {
                assert(s[j] == s.drop_first()[j - 1]);
            }
        }
    }
}

/// The first line of `text` that is not blank, trimmed; empty when there is
/// none.
pub open spec fn first_nonblank_line(text: Seq<char>) -> Seq<char>
    decreases text.len(),
{
    let end = index_of(text, '\n');
    let line = trim(text.take(end));
    if line.len() > 0 {
        line
    } else if end < text.len() {
        proof {
            lemma_index_of_bounds(text, '\n');
        }
        first_nonblank_line(text.skip(end + 1))
    } else {
        seq![]
    }
}

pub open spec fn is_word_separator(c: char) -> bool {
    char_is_whitespace(c) || c == '('
}

/// Index just past the last word separator of `s` (whitespace or `(`), or 0.
pub open spec fn word_start(s: Seq<char>) -> int
    decreases s.len(),
{
    if s.len() == 0 {
        0
    } else if is_word_separator(s.last()) {
        s.len() as int
    } else {
        word_start(s.drop_last())
    }
}

pub open spec fn ascii_lower(c: char) -> char {
    if 'A' <= c && c <= 'Z' {
        ((c as u32) + 32) as char
    } else {
        c
    }
}

/// Whether `word` equals `lower`, ignoring ASCII case (`lower` is lowercase).
pub open spec fn eq_ignore_ascii_case(word: Seq<char>, lower: Seq<char>) -> bool {
    word.len() == lower.len() && forall|i: int| 0 <= i < word.len() ==> ascii_lower(#[trigger] word[i]) == lower[i]
}

/// Whether `word` is made of one-letter initials joined by `.`, such as
/// `e.g`: at least two single alphabetic characters, each separated by one
/// `.`.
pub open spec fn is_initials(word: Seq<char>) -> bool {
    &&& word.len() >= 3
    &&& word.len() % 2 == 1
    &&& forall|i: int|
        0 <= i < word.len() ==> if i % 2 == 0 {
            #[trigger] word[i] != '.' && char_is_alphabetic(word[i])
        } else {
            word[i] == '.'
        }
}

/// Whether the word before a period is an abbreviation (`e.g`, `etc`).
pub open spec fn is_abbreviation_spec(before: Seq<char>) -> bool {
    let word = before.skip(word_start(before));
    ||| is_initials(word)
    ||| eq_ignore_ascii_case(word, seq!['e', 't', 'c'])
    ||| eq_ignore_ascii_case(word, seq!['v', 's'])
    ||| eq_ignore_ascii_case(word, seq!['e', 'g'])
    ||| eq_ignore_ascii_case(word, seq!['i', 'e'])
    ||| eq_ignore_ascii_case(word, seq!['a', 'p', 'p', 'r', 'o', 'x'])
    ||| eq_ignore_ascii_case(word, seq!['i', 'n', 'c', 'l'])
}

pub open spec fn is_full_stop_mark(c: char) -> bool {
    c == '。' || c == '！' || c == '？'
}

pub open spec fn is_stop_mark(c: char) -> bool {
    c == '.' || c == '!' || c == '?'
}

/// Character index just past the first sentence's end mark at or after
/// `i`: a full-width `。！？`, or `.!?` followed by whitespace, a `.` after an
/// abbreviation excepted.
pub open spec fn sentence_end_from(line: Seq<char>, i: int) -> Option<int>
    decreases line.len() - i,
{
    if i < 0 || i >= line.len() {
        None
    } else if is_full_stop_mark(line[i]) {
        Some(i + 1)
    } else if is_stop_mark(line[i]) && i + 1 < line.len() && char_is_whitespace(line[i + 1]) && !(
    line[i] == '.' && is_abbreviation_spec(line.take(i))) {
        Some(i + 1)
    } else {
        sentence_end_from(line, i + 1)
    }
}

/// The first sentence of a line (all of it when no sentence ends in it).
pub open spec fn first_sentence(line: Seq<char>) -> Seq<char> {
    match sentence_end_from(line, 0) {
        Some(end) => line.take(end),
        None => line,
    }
}

/// First sentence of the first non-empty line, at most `max_chars`
/// characters long: a longer sentence is cut to `max_chars - 1` characters,
/// trailing whitespace dropped, and `…` appended.
pub open spec fn short_description_spec(text: Seq<char>, max_chars: nat) -> Seq<char> {
    let sentence = first_sentence(first_nonblank_line(text));
    if sentence.len() <= max_chars {
        sentence
    } else {
        let keep: int = if max_chars >= 1 { max_chars - 1 } else { 0 };
        trim_end(sentence.take(keep)).push('…')
    }
}

pub proof fn lemma_trim_start(s: Seq<char>, i: int)
    requires
        0 <= i <= s.len(),
        forall|k: int| 0 <= k < i ==> char_is_whitespace(#[trigger] s[k]),
        i == s.len() || !char_is_whitespace(s[i]),
    ensures
        trim_start(s) == s.skip(i),
    decreases i,
{
    if i == 0 {
        assert(s.skip(0) =~= s);
    } else {
        assert forall|k: int| 0 <= k < i - 1 implies char_is_whitespace(#[trigger] s.drop_first()[k]) by {
            assert(s.drop_first()[k] == s[k + 1]);
        }
        if i < s.len() {
            assert(s.drop_first()[i - 1] == s[i]);
        }
        lemma_trim_start(s.drop_first(), i - 1);
        assert(s.drop_first().skip(i - 1) =~= s.skip(i));
    }
}

pub proof fn lemma_trim_end(s: Seq<char>, j: int)
    requires
        0 <= j <= s.len(),
        forall|k: int| j <= k < s.len() ==> char_is_whitespace(#[trigger] s[k]),
        j == 0 || !char_is_whitespace(s[j - 1]),
    ensures
        trim_end(s) == s.take(j),
    decreases s.len() - j,
{
    if j == s.len() {
        assert(s.take(j) =~= s);
    } else {
        assert forall|k: int| j <= k < s.len() - 1 implies char_is_whitespace(#[trigger] s.drop_last()[k]) by {
            assert(s.drop_last()[k] == s[k]);
        }
        if j > 0 {
            assert(s.drop_last()[j - 1] == s[j - 1]);
        }
        lemma_trim_end(s.drop_last(), j);
        assert(s.drop_last().take(j) =~= s.take(j));
    }
}

/// A copy of `v[from..to]`.
pub fn slice_chars(v: &Vec<char>, from: usize, to: usize) -> (r: Vec<char>)
    requires
        from <= to <= v.len(),
    ensures
        r@ == v@.subrange(from as int, to as int),
{
    let mut r: Vec<char> = Vec::new();
    let mut i = from;
    while i < to
        invariant
            from <= i <= to <= v.len(),
            r@ == v@.subrange(from as int, i as int),
        decreases to - i,
    {
        r.push(v[i]);
        i = i + 1;
        assert(r@ =~= v@.subrange(from as int, i as int));
    }
    r
}

/// `v[from..to]` trimmed.
pub fn trim_range(v: &Vec<char>, from: usize, to: usize) -> (r: Vec<char>)
    requires
        from <= to <= v.len(),
    ensures
        r@ == trim(v@.subrange(from as int, to as int)),
{
    let ghost t = v@.subrange(from as int, to as int);
    let mut i = from;
    while i < to && is_whitespace(v[i])
        invariant
            from <= i <= to <= v.len(),
            forall|k: int| from <= k < i ==> char_is_whitespace(#[trigger] v@[k]),
        decreases to - i,
    {
        i = i + 1;
    }
    proof {
        assert forall|k: int| 0 <= k < i - from implies char_is_whitespace(#[trigger] t[k]) by {
            assert(t[k] == v@[k + from]);
        }
        if i < to {
            assert(t[i - from] == v@[i as int]);
        }
        lemma_trim_start(t, i - from);
    }
    let mut j = to;
    while j > i && is_whitespace(v[j - 1])
        invariant
            from <= i <= j <= to <= v.len(),
            forall|k: int| j <= k < to ==> char_is_whitespace(#[trigger] v@[k]),
        decreases j - i,
    {
        j = j - 1;
    }
    proof {
        let u = t.skip(i - from);
        assert forall|k: int| j - i <= k < u.len() implies char_is_whitespace(#[trigger] u[k]) by {
            assert(u[k] == v@[k + i]);
        }
        if j > i {
            assert(u[j - i - 1] == v@[j - 1]);
        }
        lemma_trim_end(u, j - i);
        assert(u.take(j - i) =~= v@.subrange(i as int, j as int));
    }
    slice_chars(v, i, j)
}

/// `v[..keep]` without trailing whitespace.
pub fn trim_end_prefix(v: &Vec<char>, keep: usize) -> (r: Vec<char>)
    requires
        keep <= v.len(),
    ensures
        r@ == trim_end(v@.take(keep as int)),
{
    let mut j = keep;
    while j > 0 && is_whitespace(v[j - 1])
        invariant
            j <= keep <= v.len(),
            forall|k: int| j <= k < keep ==> char_is_whitespace(#[trigger] v@[k]),
        decreases j,
    {
        j = j - 1;
    }
    proof {
        let u = v@.take(keep as int);
        assert forall|k: int| j <= k < u.len() implies char_is_whitespace(#[trigger] u[k]) by {
            assert(u[k] == v@[k]);
        }
        if j > 0 {
            assert(u[j - 1] == v@[j - 1]);
        }
        lemma_trim_end(u, j as int);
        assert(u.take(j as int) =~= v@.subrange(0, j as int));
    }
    slice_chars(v, 0, j)
}

pub proof fn lemma_index_of_unique(s: Seq<char>, c: char, k: int)
    requires
        0 <= k <= s.len(),
        k == s.len() || s[k] == c,
        forall|j: int| 0 <= j < k ==> s[j] != c,
    ensures
        index_of(s, c) == k,
{
    lemma_index_of_bounds(s, c);
}

/// The first non-blank line of `text`, trimmed.
pub fn first_nonblank_line_exec(text: &Vec<char>) -> (r: Vec<char>)
    ensures
        r@ == first_nonblank_line(text@),
{
    let mut start: usize = 0;
    assert(text@.skip(0) =~= text@);
    loop
        invariant
            start <= text.len(),
            first_nonblank_line(text@) == first_nonblank_line(text@.skip(start as int)),
        decreases text.len() - start,
    {
        let mut end = start;
        while end < text.len() && text[end] != '\n'
            invariant
                start <= end <= text.len(),
                forall|k: int| start <= k < end ==> text@[k] != '\n',
            decreases text.len() - end,
        {
            end = end + 1;
        }
        let ghost rest = text@.skip(start as int);
        proof {
            lemma_index_of_unique(rest, '\n', end - start);
            assert(rest.take(end - start) =~= text@.subrange(start as int, end as int));
        }
        let line = trim_range(text, start, end);
        if line.len() > 0 {
            return line;
        }
        if end == text.len() {
            return Vec::new();
        }
        proof {
            assert(rest.skip(end - start + 1) =~= text@.skip(end + 1));
        }
        start = end + 1;
    }
}



/// Whether `w` equals the lowercase ASCII `lower`, ignoring ASCII case.
fn eq_ignore_case_exec(w: &Vec<char>, lower: &Vec<char>) -> (r: bool)
    ensures
        r == eq_ignore_ascii_case(w@, lower@),
{
    if w.len() != lower.len() {
        return false;
    }
    let mut i: usize = 0;
    while i < w.len()
        invariant
            w.len() == lower.len(),
            i <= w.len(),
            forall|k: int| 0 <= k < i ==> ascii_lower(#[trigger] w@[k]) == lower@[k],
        decreases w.len() - i,
    {
        let c = w[i];
        let l = if 'A' <= c && c <= 'Z' {
            let b: u8 = c as u8;
            (b + 32) as char
        } else {
            c
        };
        if l != lower[i] {
            return false;
        }
        i = i + 1;
    }
    true
}

fn is_initials_exec(w: &Vec<char>) -> (r: bool)
    ensures
        r == is_initials(w@),
{
    if w.len() < 3 || w.len() % 2 != 1 {
        return false;
    }
    let mut i: usize = 0;
    while i < w.len()
        invariant
            i <= w.len(),
            w.len() >= 3,
            w.len() % 2 == 1,
            forall|k: int|
                0 <= k < i ==> if k % 2 == 0 {
                    #[trigger] w@[k] != '.' && char_is_alphabetic(w@[k])
                } else {
                    w@[k] == '.'
                },
        decreases w.len() - i,
    {
        if i % 2 == 0 {
            if w[i] == '.' || !is_alphabetic(w[i]) {
                return false;
            }
        } else if w[i] != '.' {
            return false;
        }
        i = i + 1;
    }
    true
}

/// Whether the word before a period is an abbreviation (`e.g`, `etc`).
fn is_abbreviation(line: &Vec<char>, end: usize) -> (r: bool)
    requires
        end <= line.len(),
    ensures
        r == is_abbreviation_spec(line@.take(end as int)),
{
    let ghost before = line@.take(end as int);
    assert(before.take(end as int) =~= before);
    let mut k = end;
    while k > 0 && !(is_whitespace(line[k - 1]) || line[k - 1] == '(')
        invariant
            k <= end <= line.len(),
            before == line@.take(end as int),
            word_start(before) == word_start(before.take(k as int)),
        decreases k,
    {
        proof {
            assert(before.take(k as int).drop_last() =~= before.take(k - 1));
            assert(before.take(k as int).last() == line@[k - 1]);
        }
        k = k - 1;
    }
    proof {
        if k > 0 {
            assert(before.take(k as int).last() == line@[k - 1]);
        }
    }
    let word = slice_chars(line, k, end);
    proof {
        assert(word@ =~= before.skip(word_start(before)));
    }
    is_initials_exec(&word) || eq_ignore_case_exec(&word, &vec!['e', 't', 'c'])
        || eq_ignore_case_exec(&word, &vec!['v', 's']) || eq_ignore_case_exec(&word, &vec!['e', 'g'])
        || eq_ignore_case_exec(&word, &vec!['i', 'e']) || eq_ignore_case_exec(
        &word,
        &vec!['a', 'p', 'p', 'r', 'o', 'x'],
    ) || eq_ignore_case_exec(&word, &vec!['i', 'n', 'c', 'l'])
}

/// Character index just past the first sentence's end mark.
fn sentence_end(line: &Vec<char>) -> (r: Option<usize>)
    ensures
        match r {
            Some(e) => sentence_end_from(line@, 0) == Some(e as int),
            None => sentence_end_from(line@, 0) is None,
        },
{
    let mut i: usize = 0;
    while i < line.len()
        invariant
            i <= line.len(),
            sentence_end_from(line@, 0) == sentence_end_from(line@, i as int),
        decreases line.len() - i,
    {
        let ch = line[i];
        if ch == '。' || ch == '！' || ch == '？' {
            return Some(i + 1);
        }
        if (ch == '.' || ch == '!' || ch == '?') && i + 1 < line.len() && is_whitespace(line[i + 1])
            && !(ch == '.' && is_abbreviation(line, i)) {
            return Some(i + 1);
        }
        i = i + 1;
    }
    None
}

/// First sentence of the first non-empty line, at most `max_chars` long.
pub fn short_description_chars(text: &Vec<char>, max_chars: usize) -> (r: Vec<char>)
    ensures
        r@ == short_description_spec(text@, max_chars as nat),
{
    let line = first_nonblank_line_exec(text);
    let sentence = match sentence_end(&line) {
        Some(end) => {
            proof {
                lemma_sentence_end_bounds(line@, 0);
            }
            slice_chars(&line, 0, end)
        },
        None => line,
    };
    if sentence.len() <= max_chars {
        return sentence;
    }
    let keep: usize = if max_chars >= 1 { max_chars - 1 } else { 0 };
    let mut short = trim_end_prefix(&sentence, keep);
    short.push('…');
    short
}

pub proof fn lemma_sentence_end_bounds(line: Seq<char>, i: int)
    ensures
        sentence_end_from(line, i) matches Some(e) ==> 0 < e <= line.len(),
    decreases line.len() - i,
{
    if 0 <= i < line.len() {
        lemma_sentence_end_bounds(line, i + 1);
    }
}

/// First sentence of the first non-empty line of `text`, at most
/// `max_chars` characters long.
pub fn short_description(text: &str, max_chars: usize) -> (r: String)
    ensures
        r@ == short_description_spec(text@, max_chars as nat),
{
    string_of(&short_description_chars(&chars_of(text), max_chars))
}

pub proof fn lemma_trim_end_shorter(s: Seq<char>)
    ensures
        trim_end(s).len() <= s.len(),
        trim_end(s) == s.take(trim_end(s).len() as int),
    decreases s.len(),
{
    if s.len() > 0 && char_is_whitespace(s.last()) {
        lemma_trim_end_shorter(s.drop_last());
        assert(s.drop_last().take(trim_end(s).len() as int) =~= s.take(trim_end(s).len() as int));
    } else {
        assert(s.take(s.len() as int) =~= s);
    }
}

/// A short description never exceeds its budget of characters (for a budget
/// of at least one character; a zero budget still leaves the `…`).
pub proof fn lemma_short_description_fits(text: Seq<char>, max_chars: nat)
    requires
        max_chars >= 1,
    ensures
        short_description_spec(text, max_chars).len() <= max_chars,
{
    let sentence = first_sentence(first_nonblank_line(text));
    if sentence.len() > max_chars {
        lemma_trim_end_shorter(sentence.take(max_chars - 1));
    }
}

/// Whether `c` could end a sentence at all: `.`, `!`, `?` or their
/// full-width forms.
pub open spec fn may_end_sentence(c: char) -> bool {
    c == '.' || c == '!' || c == '?' || c == '。' || c == '！' || c == '？'
}

proof fn lemma_no_end_before(line: Seq<char>, i: int, j: int)
    requires
        0 <= j <= i,
        i + 1 < line.len(),
        forall|k: int| 0 <= k < i ==> !may_end_sentence(#[trigger] line[k]),
        sentence_end_from(line, i) == Some(i + 1),
    ensures
        sentence_end_from(line, j) == Some(i + 1),
    decreases i - j,
{
    if j < i {
        lemma_no_end_before(line, i, j + 1);
        assert(!may_end_sentence(line[j]));
    }
}

/// A `!` or `?` followed by whitespace ends the first sentence when no
/// character before it could end one: the sentence is the line up to and
/// including the mark. A `.` does the same unless the word before it is an
/// abbreviation.
pub proof fn lemma_end_mark_ends_first_sentence(line: Seq<char>, i: int)
    requires
        0 <= i,
        i + 1 < line.len(),
        line[i] == '!' || line[i] == '?' || (line[i] == '.' && !is_abbreviation_spec(line.take(i))),
        char_is_whitespace(line[i + 1]),
        forall|k: int| 0 <= k < i ==> !may_end_sentence(#[trigger] line[k]),
    ensures
        first_sentence(line) == line.take(i + 1),
{
    assert(sentence_end_from(line, i) == Some(i + 1));
    lemma_no_end_before(line, i, 0);
}

/// The short description of a text whose first non-empty line has such an
/// end mark is that line up to and including the mark, when it fits.
pub proof fn lemma_end_mark_ends_short_description(text: Seq<char>, max_chars: nat, i: int)
    requires
        0 <= i,
        i + 1 < first_nonblank_line(text).len(),
        i + 1 <= max_chars,
        ({
            let line = first_nonblank_line(text);
            &&& line[i] == '!' || line[i] == '?' || (line[i] == '.' && !is_abbreviation_spec(line.take(i)))
            &&& char_is_whitespace(line[i + 1])
            &&& forall|k: int| 0 <= k < i ==> !may_end_sentence(#[trigger] line[k])
        }),
    ensures
        short_description_spec(text, max_chars) == first_nonblank_line(text).take(i + 1),
{
    lemma_end_mark_ends_first_sentence(first_nonblank_line(text), i);
}

} // verus!
