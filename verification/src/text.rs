//! Character-level text primitives: whitespace, tokens, lines and joining.

use itertools::Itertools;
use vstd::prelude::*;

verus! {

/// Whether `c` carries the Unicode `White_Space` property.
pub open spec fn is_space(c: char) -> bool {
    let n = c as u32;
    ||| 0x09 <= n <= 0x0d
    ||| n == 0x20
    ||| n == 0x85
    ||| n == 0xa0
    ||| n == 0x1680
    ||| 0x2000 <= n <= 0x200a
    ||| n == 0x2028
    ||| n == 0x2029
    ||| n == 0x202f
    ||| n == 0x205f
    ||| n == 0x3000
}

/// Executable test for [`is_space`].
pub fn char_is_space(c: char) -> (b: bool)
    ensures
        b == is_space(c),
{
    let n: u32 = c as u32;
    (0x09 <= n && n <= 0x0d) || n == 0x20 || n == 0x85 || n == 0xa0 || n == 0x1680 || (0x2000 <= n
        && n <= 0x200a) || n == 0x2028 || n == 0x2029 || n == 0x202f || n == 0x205f || n == 0x3000
}

/// The characters of `s`, in order.
pub fn to_chars(s: &str) -> (out: Vec<char>)
    ensures
        out@ == s@,
{
    let mut out: Vec<char> = Vec::new();
    for c in it: s.chars()
        invariant
            out@ == it.seq().take(it.index()),
            it.seq() == s@,
    {
        out.push(c);
    }
    out
}

/// Appends one character with `String::push`: the text grows by exactly `c`.
#[verifier::external_body]
pub(crate) fn push_char(s: &mut String, c: char)
    ensures
        final(s)@ == old(s)@.push(c),
{
    s.push(c)
}

/// The string that holds exactly the characters of `v`.
pub fn from_chars(v: &Vec<char>) -> (out: String)
    ensures
        out@ == v@,
{
    let mut out = String::new();
    let mut i: usize = 0;
    while i < v.len()
        invariant
            i <= v.len(),
            out@ == v@.take(i as int),
        decreases v.len() - i,
    {
        push_char(&mut out, v[i]);
        i += 1;
    }
    out
}

/// The text of each element of `v`.
pub open spec fn views(v: Seq<Vec<char>>) -> Seq<Seq<char>> {
    v.map_values(|x: Vec<char>| x@)
}

/// The text of each string of `v`.
pub open spec fn string_views(v: Seq<String>) -> Seq<Seq<char>> {
    v.map_values(|x: String| x@)
}

/// Length of the longest prefix of `s` that holds no whitespace.
pub open spec fn word_len(s: Seq<char>) -> nat
    decreases s.len(),
{
    if s.len() == 0 || is_space(s[0]) {
        0
    } else {
        1 + word_len(s.drop_first())
    }
}

/// `word_len` stays within the text, and is positive where the text starts
/// with a character that is no whitespace.
pub proof fn lemma_word_len_bounds(s: Seq<char>)
    ensures
        word_len(s) <= s.len(),
        s.len() > 0 && !is_space(s[0]) ==> word_len(s) >= 1,
    decreases s.len(),
{
    if s.len() > 0 && !is_space(s[0]) {
        lemma_word_len_bounds(s.drop_first());
    }
}

/// The maximal runs of characters that are no whitespace, in order.
pub open spec fn split_ws(s: Seq<char>) -> Seq<Seq<char>>
    decreases s.len(),
    via split_ws_decreases
{
    if s.len() == 0 {
        Seq::empty()
    } else if is_space(s[0]) {
        split_ws(s.drop_first())
    } else {
        let n = word_len(s) as int;
        seq![s.take(n)] + split_ws(s.skip(n))
    }
}

#[via_fn]
proof fn split_ws_decreases(s: Seq<char>) {
    lemma_word_len_bounds(s);
}

/// Splits `s` at whitespace, dropping empty pieces.
pub fn split_whitespace(s: &Vec<char>) -> (out: Vec<Vec<char>>)
    ensures
        views(out@) == split_ws(s@),
{
    let mut out: Vec<Vec<char>> = Vec::new();
    let mut i: usize = 0;
    assert(s@.skip(0) =~= s@);
    assert(views(out@) =~= Seq::<Seq<char>>::empty());
    while i < s.len()
        invariant
            i <= s.len(),
            split_ws(s@) == views(out@) + split_ws(s@.skip(i as int)),
        decreases s.len() - i,
    {
        if char_is_space(s[i]) {
            proof {
                assert(s@.skip(i as int).drop_first() =~= s@.skip(i as int + 1));
            }
            i += 1;
        } else {
            let start = i;
            let mut word: Vec<char> = Vec::new();
            while i < s.len() && !char_is_space(s[i])
                invariant
                    start <= i <= s.len(),
                    word@ == s@.subrange(start as int, i as int),
                    word_len(s@.skip(start as int)) == (i - start) + word_len(s@.skip(i as int)),
                decreases s.len() - i,
            {
                proof {
                    assert(s@.skip(i as int).drop_first() =~= s@.skip(i as int + 1));
                }
                word.push(s[i]);
                i += 1;
            }
            proof {
                let rest = s@.skip(start as int);
                assert(word_len(s@.skip(i as int)) == 0);
                assert(rest.take((i - start) as int) =~= word@);
                assert(rest.skip((i - start) as int) =~= s@.skip(i as int));
                assert(views(out@.push(word)) =~= views(out@).push(word@));
                assert(views(out@).push(word@) + split_ws(s@.skip(i as int)) =~= views(out@) + (
                seq![word@] + split_ws(s@.skip(i as int))));
            }
            out.push(word);
        }
    }
    assert(views(out@) + Seq::<Seq<char>>::empty() =~= views(out@));
    out
}

/// `s` without its leading whitespace.
pub open spec fn trim_start(s: Seq<char>) -> Seq<char>
    decreases s.len(),
{
    if s.len() > 0 && is_space(s[0]) {
        trim_start(s.drop_first())
    } else {
        s
    }
}

/// `s` without its trailing whitespace.
pub open spec fn trim_end(s: Seq<char>) -> Seq<char>
    decreases s.len(),
{
    if s.len() > 0 && is_space(s.last()) {
        trim_end(s.drop_last())
    } else {
        s
    }
}

/// `s` without the whitespace at either end.
pub open spec fn trim(s: Seq<char>) -> Seq<char> {
    trim_end(trim_start(s))
}

/// Removes the whitespace at both ends of `s`.
pub fn trimmed(s: &Vec<char>) -> (out: Vec<char>)
    ensures
        out@ == trim(s@),
{
    let mut a: usize = 0;
    assert(s@.skip(0) =~= s@);
    while a < s.len() && char_is_space(s[a])
        invariant
            a <= s.len(),
            trim_start(s@) == trim_start(s@.skip(a as int)),
        decreases s.len() - a,
    {
        proof {
            assert(s@.skip(a as int).drop_first() =~= s@.skip(a as int + 1));
        }
        a += 1;
    }
    let mut b: usize = s.len();
    assert(s@.subrange(a as int, b as int) =~= s@.skip(a as int));
    while b > a && char_is_space(s[b - 1])
        invariant
            a <= b <= s.len(),
            trim(s@) == trim_end(s@.subrange(a as int, b as int)),
        decreases b,
    {
        proof {
            assert(s@.subrange(a as int, b as int).drop_last() =~= s@.subrange(
                a as int,
                b as int - 1,
            ));
        }
        b -= 1;
    }
    let mut out: Vec<char> = Vec::new();
    let mut i: usize = a;
    while i < b
        invariant
            a <= i <= b <= s.len(),
            out@ == s@.subrange(a as int, i as int),
        decreases b - i,
    {
        out.push(s[i]);
        i += 1;
    }
    out
}

/// Length of the longest prefix of `s` that holds no line feed.
pub open spec fn line_len(s: Seq<char>) -> nat
    decreases s.len(),
{
    if s.len() == 0 || s[0] == '\n' {
        0
    } else {
        1 + line_len(s.drop_first())
    }
}

/// `line_len` stays within the text.
pub proof fn lemma_line_len_bounds(s: Seq<char>)
    ensures
        line_len(s) <= s.len(),
    decreases s.len(),
{
    if s.len() > 0 && s[0] != '\n' {
        lemma_line_len_bounds(s.drop_first());
    }
}

/// `l` without one carriage return at its end, if it has one.
pub open spec fn chomp_cr(l: Seq<char>) -> Seq<char> {
    if l.len() > 0 && l.last() == '\r' {
        l.drop_last()
    } else {
        l
    }
}

/// The lines of `s`. A line ends at a line feed, or at a carriage return
/// directly followed by one; neither belongs to the line. Text after the last
/// line feed is a line of its own, kept as it is, unless it is empty.
pub open spec fn lines(s: Seq<char>) -> Seq<Seq<char>>
    decreases s.len(),
    via lines_decreases
{
    if s.len() == 0 {
        Seq::empty()
    } else {
        let n = line_len(s) as int;
        if n == s.len() {
            seq![s]
        } else {
            seq![chomp_cr(s.take(n))] + lines(s.skip(n + 1))
        }
    }
}

#[via_fn]
proof fn lines_decreases(s: Seq<char>) {
    lemma_line_len_bounds(s);
}

/// Splits `s` into its lines.
pub fn split_lines(s: &Vec<char>) -> (out: Vec<Vec<char>>)
    ensures
        views(out@) == lines(s@),
{
    let mut out: Vec<Vec<char>> = Vec::new();
    let mut i: usize = 0;
    assert(s@.skip(0) =~= s@);
    assert(views(out@) =~= Seq::<Seq<char>>::empty());
    while i < s.len()
        invariant
            i <= s.len(),
            lines(s@) == views(out@) + lines(s@.skip(i as int)),
        decreases s.len() - i,
    {
        let start = i;
        let mut line: Vec<char> = Vec::new();
        while i < s.len() && s[i] != '\n'
            invariant
                start <= i <= s.len(),
                line@ == s@.subrange(start as int, i as int),
                line_len(s@.skip(start as int)) == (i - start) + line_len(s@.skip(i as int)),
            decreases s.len() - i,
        {
            proof {
                assert(s@.skip(i as int).drop_first() =~= s@.skip(i as int + 1));
            }
            line.push(s[i]);
            i += 1;
        }
        let ghost rest = s@.skip(start as int);
        let ghost tail = s@.skip(i as int);
        proof {
            assert(line_len(tail) == 0);
            assert(rest.take((i - start) as int) =~= line@);
        }
        if i < s.len() {
            let n = line.len();
            if n > 0 && line[n - 1] == '\r' {
                line.pop();
            }
            proof {
                assert(rest.skip((i - start) as int + 1) =~= s@.skip(i as int + 1));
                assert(views(out@.push(line)) =~= views(out@).push(line@));
                assert(views(out@).push(line@) + lines(s@.skip(i as int + 1)) =~= views(out@) + (
                seq![line@] + lines(s@.skip(i as int + 1))));
            }
            i += 1;
            out.push(line);
        } else {
            proof {
                assert(rest.take((i - start) as int) =~= rest);
                assert(views(out@.push(line)) =~= views(out@).push(line@));
                assert(tail.len() == 0);
                assert(views(out@).push(line@) + lines(tail) =~= views(out@) + seq![line@]);
            }
            out.push(line);
        }
    }
    assert(views(out@) + Seq::<Seq<char>>::empty() =~= views(out@));
    out
}

/// Appends the characters of `more` to `out`.
pub fn push_all(out: &mut Vec<char>, more: &Vec<char>)
    ensures
        final(out)@ == old(out)@ + more@,
{
    let mut i: usize = 0;
    while i < more.len()
        invariant
            i <= more.len(),
            out@ == old(out)@ + more@.take(i as int),
        decreases more.len() - i,
    {
        proof {
            assert(more@.take(i as int + 1) =~= more@.take(i as int).push(more[i as int]));
            assert((old(out)@ + more@.take(i as int)).push(more[i as int]) =~= old(out)@
                + more@.take(i as int + 1));
        }
        out.push(more[i]);
        i += 1;
    }
    assert(more@.take(more.len() as int) =~= more@);
}

/// Whether `v` holds exactly the characters of `s`.
pub fn text_is(v: &Vec<char>, s: &str) -> (b: bool)
    ensures
        b == (v@ == s@),
{
    let w = to_chars(s);
    if v.len() != w.len() {
        return false;
    }
    let mut i: usize = 0;
    while i < v.len()
        invariant
            i <= v.len(),
            v.len() == w.len(),
            w@ == s@,
            v@.take(i as int) == w@.take(i as int),
        decreases v.len() - i,
    {
        if v[i] != w[i] {
            return false;
        }
        proof {
            assert(v@.take(i as int + 1) =~= v@.take(i as int).push(v[i as int]));
            assert(w@.take(i as int + 1) =~= w@.take(i as int).push(w[i as int]));
        }
        i += 1;
    }
    proof {
        assert(v@.take(v.len() as int) =~= v@);
        assert(w@.take(w.len() as int) =~= w@);
    }
    true
}

/// `parts` written one after the other with `sep` between neighbours.
pub open spec fn join(parts: Seq<Seq<char>>, sep: Seq<char>) -> Seq<char>
    decreases parts.len(),
{
    if parts.len() == 0 {
        Seq::empty()
    } else if parts.len() == 1 {
        parts[0]
    } else {
        join(parts.drop_last(), sep) + sep + parts.last()
    }
}

/// Joins strings through `Itertools::format`: the result is the strings in
/// order with `sep` between each two neighbours, and nothing else.
#[verifier::external_body]
fn join_strings(parts: &Vec<String>, sep: &str) -> (out: String)
    ensures
        out@ == join(string_views(parts@), sep@),
{
    parts.iter().format(sep).to_string()
}

/// Joins `parts[from..to]` with `sep` between neighbours.
pub fn join_range(parts: &Vec<Vec<char>>, from: usize, to: usize, sep: &str) -> (out: Vec<char>)
    requires
        from <= to <= parts.len(),
    ensures
        out@ == join(views(parts@).subrange(from as int, to as int), sep@),
{
    let mut strings: Vec<String> = Vec::new();
    let mut i: usize = from;
    while i < to
        invariant
            from <= i <= to <= parts.len(),
            string_views(strings@) == views(parts@).subrange(from as int, i as int),
        decreases to - i,
    {
        let piece = from_chars(&parts[i]);
        proof {
            assert(string_views(strings@.push(piece)) =~= string_views(strings@).push(piece@));
            assert(views(parts@).subrange(from as int, i as int).push(parts[i as int]@) =~= views(
                parts@,
            ).subrange(from as int, i as int + 1));
        }
        strings.push(piece);
        i += 1;
    }
    let joined = join_strings(&strings, sep);
    to_chars(joined.as_str())
}

/// A run that ends at whitespace is as long as it is without what follows.
pub proof fn lemma_word_len_concat(a: Seq<char>, c: char, b: Seq<char>)
    requires
        is_space(c),
    ensures
        word_len(a + seq![c] + b) == word_len(a),
    decreases a.len(),
{
    let s = a + seq![c] + b;
    if a.len() > 0 && !is_space(a[0]) {
        assert(s.drop_first() =~= a.drop_first() + seq![c] + b);
        lemma_word_len_concat(a.drop_first(), c, b);
    }
}

/// Text without whitespace is one run.
pub proof fn lemma_word_len_full(w: Seq<char>)
    requires
        forall|i: int| 0 <= i < w.len() ==> !is_space(#[trigger] w[i]),
    ensures
        word_len(w) == w.len(),
    decreases w.len(),
{
    if w.len() > 0 {
        lemma_word_len_full(w.drop_first());
    }
}

/// The words of two texts with whitespace between them are the words of the
/// first followed by the words of the second.
pub proof fn lemma_split_ws_concat(a: Seq<char>, c: char, b: Seq<char>)
    requires
        is_space(c),
    ensures
        split_ws(a + seq![c] + b) == split_ws(a) + split_ws(b),
    decreases a.len(),
{
    let s = a + seq![c] + b;
    if a.len() == 0 {
        assert(s.drop_first() =~= b);
        assert(split_ws(a) + split_ws(b) =~= split_ws(b));
    } else if is_space(a[0]) {
        assert(s.drop_first() =~= a.drop_first() + seq![c] + b);
        lemma_split_ws_concat(a.drop_first(), c, b);
    } else {
        lemma_word_len_concat(a, c, b);
        lemma_word_len_bounds(a);
        let n = word_len(a) as int;
        assert(s.take(n) =~= a.take(n));
        assert(s.skip(n) =~= a.skip(n) + seq![c] + b);
        lemma_split_ws_concat(a.skip(n), c, b);
        assert(seq![a.take(n)] + (split_ws(a.skip(n)) + split_ws(b)) =~= (seq![a.take(n)]
            + split_ws(a.skip(n))) + split_ws(b));
    }
}

/// Text without whitespace that is not empty is its own single word.
pub proof fn lemma_split_ws_word(w: Seq<char>)
    requires
        w.len() > 0,
        forall|i: int| 0 <= i < w.len() ==> !is_space(#[trigger] w[i]),
    ensures
        split_ws(w) == seq![w],
{
    lemma_word_len_full(w);
    let n = w.len() as int;
    assert(!is_space(w[0]));
    assert(w.take(n) =~= w);
    assert(w.skip(n) =~= Seq::<char>::empty());
    assert(split_ws(w.skip(n)) =~= Seq::<Seq<char>>::empty());
    assert(seq![w] + Seq::<Seq<char>>::empty() =~= seq![w]);
}

/// No word is empty, and no word holds whitespace.
pub proof fn lemma_split_ws_words(s: Seq<char>)
    ensures
        forall|i: int|
            0 <= i < split_ws(s).len() ==> (#[trigger] split_ws(s)[i]).len() > 0,
        forall|i: int, j: int|
            0 <= i < split_ws(s).len() && 0 <= j < split_ws(s)[i].len() ==> !is_space(
                #[trigger] split_ws(s)[i][j],
            ),
    decreases s.len(),
{
    if s.len() == 0 {
        assert(split_ws(s).len() == 0);
    } else if is_space(s[0]) {
        lemma_split_ws_words(s.drop_first());
        assert(split_ws(s) == split_ws(s.drop_first()));
    } else {
        lemma_word_len_bounds(s);
        let n = word_len(s) as int;
        lemma_split_ws_words(s.skip(n));
        lemma_word_has_no_space(s);
        let rest = split_ws(s.skip(n));
        assert(split_ws(s) == seq![s.take(n)] + rest);
        assert(split_ws(s)[0] == s.take(n));
        assert forall|i: int| 0 <= i < split_ws(s).len() implies (#[trigger] split_ws(
            s,
        )[i]).len() > 0 by {
            if i > 0 {
                assert(split_ws(s)[i] == rest[i - 1]);
            }
        }
        assert forall|i: int, j: int|
            0 <= i < split_ws(s).len() && 0 <= j < split_ws(s)[i].len() implies !is_space(
            #[trigger] split_ws(s)[i][j],
        ) by {
            if i > 0 {
                assert(split_ws(s)[i] == rest[i - 1]);
            }
        }
    }
}

/// The first run of a text holds no whitespace.
pub proof fn lemma_word_has_no_space(s: Seq<char>)
    ensures
        forall|j: int| 0 <= j < word_len(s) ==> !is_space(#[trigger] s[j]),
    decreases s.len(),
{
    if s.len() > 0 && !is_space(s[0]) {
        lemma_word_has_no_space(s.drop_first());
        lemma_word_len_bounds(s);
        assert forall|j: int| 0 <= j < word_len(s) implies !is_space(#[trigger] s[j]) by {
            if j > 0 {
                assert(s[j] == s.drop_first()[j - 1]);
            }
        }
    }
}

/// Trimming changes no word.
pub proof fn lemma_split_ws_trim(s: Seq<char>)
    ensures
        split_ws(trim(s)) == split_ws(s),
{
    lemma_split_ws_trim_start(s);
    lemma_split_ws_trim_end(trim_start(s));
}

proof fn lemma_split_ws_trim_start(s: Seq<char>)
    ensures
        split_ws(trim_start(s)) == split_ws(s),
    decreases s.len(),
{
    if s.len() > 0 && is_space(s[0]) {
        lemma_split_ws_trim_start(s.drop_first());
    }
}

proof fn lemma_split_ws_trim_end(s: Seq<char>)
    ensures
        split_ws(trim_end(s)) == split_ws(s),
    decreases s.len(),
{
    if s.len() > 0 && is_space(s.last()) {
        lemma_split_ws_trim_end(s.drop_last());
        assert(s =~= s.drop_last() + seq![s.last()] + Seq::<char>::empty());
        lemma_split_ws_concat(s.drop_last(), s.last(), Seq::empty());
        assert(split_ws(s.drop_last()) + split_ws(Seq::<char>::empty()) =~= split_ws(
            s.drop_last(),
        ));
    }
}

/// Trimming keeps the first character of a text that starts with none of
/// whitespace.
pub proof fn lemma_trim_first(s: Seq<char>)
    requires
        s.len() > 0,
        !is_space(s[0]),
    ensures
        trim(s).len() > 0,
        trim(s)[0] == s[0],
{
    lemma_trim_end_first(s);
}

proof fn lemma_trim_end_first(s: Seq<char>)
    requires
        s.len() > 0,
        !is_space(s[0]),
    ensures
        trim_end(s).len() > 0,
        trim_end(s)[0] == s[0],
    decreases s.len(),
{
    if is_space(s.last()) {
        lemma_trim_end_first(s.drop_last());
    }
}

/// Trimming leaves a text as it is where neither end is whitespace.
pub proof fn lemma_trim_clean(s: Seq<char>)
    requires
        s.len() > 0 ==> !is_space(s[0]) && !is_space(s.last()),
    ensures
        trim(s) == s,
{
}

/// A text cut into its lines: the pieces between its line feeds, with
/// nothing removed; one piece more than it has line feeds.
pub open spec fn split_nl(s: Seq<char>) -> Seq<Seq<char>>
    decreases s.len(),
{
    let n = line_len(s) as int;
    if n >= s.len() {
        seq![s]
    } else {
        seq![s.take(n)] + split_nl(s.skip(n + 1))
    }
}

/// Where the first line of a text ends before the text does, a line feed
/// stands there.
pub proof fn lemma_line_len_stops(s: Seq<char>)
    ensures
        line_len(s) < s.len() ==> s[line_len(s) as int] == '\n',
        line_len(s) <= s.len(),
        line_len(s.take(line_len(s) as int)) == line_len(s),
    decreases s.len(),
{
    if s.len() > 0 && s[0] != '\n' {
        lemma_line_len_stops(s.drop_first());
        let n = line_len(s) as int;
        assert(s.take(n).drop_first() =~= s.drop_first().take(n - 1));
    }
}

/// Text without a line feed is one line.
pub proof fn lemma_line_len_full(l: Seq<char>)
    requires
        !l.contains('\n'),
    ensures
        line_len(l) == l.len(),
    decreases l.len(),
{
    if l.len() > 0 {
        assert(l[0] != '\n');
        assert forall|c: char| l.drop_first().contains(c) implies l.contains(c) by {
            let i = choose|i: int| 0 <= i < l.drop_first().len() && l.drop_first()[i] == c;
            assert(l[i + 1] == c);
        }
        lemma_line_len_full(l.drop_first());
    }
}

/// A line that is followed by a line feed ends there.
pub proof fn lemma_line_len_concat(l: Seq<char>, rest: Seq<char>)
    requires
        line_len(l) == l.len(),
    ensures
        line_len(l + seq!['\n'] + rest) == l.len(),
    decreases l.len(),
{
    let s = l + seq!['\n'] + rest;
    if l.len() > 0 {
        assert(s.drop_first() =~= l.drop_first() + seq!['\n'] + rest);
        lemma_line_len_concat(l.drop_first(), rest);
    }
}

/// The lines of a text that starts with a line `l` and a line feed are `l`,
/// without a carriage return at its end, and the lines of what follows.
pub proof fn lemma_lines_first(l: Seq<char>, rest: Seq<char>)
    requires
        line_len(l) == l.len(),
    ensures
        lines(l + seq!['\n'] + rest) == seq![chomp_cr(l)] + lines(rest),
{
    let s = l + seq!['\n'] + rest;
    lemma_line_len_concat(l, rest);
    let n = l.len() as int;
    assert(s.take(n) =~= l);
    assert(s.skip(n + 1) =~= rest);
}

/// The lines of a text `body`, a line feed and more text are the pieces of
/// `body` and the lines of what follows, where no piece ends in a carriage
/// return.
pub proof fn lemma_lines_body(body: Seq<char>, rest: Seq<char>)
    requires
        forall|i: int|
            0 <= i < split_nl(body).len() ==> chomp_cr(#[trigger] split_nl(body)[i]) == split_nl(
                body,
            )[i],
    ensures
        lines(body + seq!['\n'] + rest) == split_nl(body) + lines(rest),
    decreases body.len(),
{
    lemma_line_len_stops(body);
    let n = line_len(body) as int;
    if n >= body.len() {
        lemma_lines_first(body, rest);
        assert(split_nl(body)[0] == body);
    } else {
        let l = body.take(n);
        let tail = body.skip(n + 1);
        assert(body =~= l + seq!['\n'] + tail);
        assert(body + seq!['\n'] + rest =~= l + seq!['\n'] + (tail + seq!['\n'] + rest));
        lemma_lines_first(l, tail + seq!['\n'] + rest);
        assert(split_nl(body)[0] == l);
        assert forall|i: int| 0 <= i < split_nl(tail).len() implies chomp_cr(
            #[trigger] split_nl(tail)[i],
        ) == split_nl(tail)[i] by {
            assert(split_nl(body)[i + 1] == split_nl(tail)[i]);
        }
        lemma_lines_body(tail, rest);
        assert(seq![l] + (split_nl(tail) + lines(rest)) =~= (seq![l] + split_nl(tail)) + lines(
            rest,
        ));
    }
}

/// Joining puts the first part, the separator and the join of the others one
/// after the other.
pub proof fn lemma_join_first(first: Seq<char>, others: Seq<Seq<char>>, sep: Seq<char>)
    requires
        others.len() > 0,
    ensures
        join(seq![first] + others, sep) == first + sep + join(others, sep),
    decreases others.len(),
{
    let all = seq![first] + others;
    assert(all.drop_last() =~= seq![first] + others.drop_last());
    assert(all.last() == others.last());
    if others.len() == 1 {
        assert(all.drop_last() =~= seq![first]);
        assert(join(all.drop_last(), sep) == first);
    } else {
        lemma_join_first(first, others.drop_last(), sep);
        assert(first + sep + join(others.drop_last(), sep) + sep + others.last() =~= first + sep
            + (join(others.drop_last(), sep) + sep + others.last()));
    }
}

/// Joining the pieces of a text with line feeds gives the text back.
pub proof fn lemma_join_split_nl(s: Seq<char>)
    ensures
        join(split_nl(s), seq!['\n']) == s,
    decreases s.len(),
{
    lemma_line_len_stops(s);
    let n = line_len(s) as int;
    if n < s.len() {
        let tail = s.skip(n + 1);
        lemma_join_split_nl(tail);
        lemma_join_first(s.take(n), split_nl(tail), seq!['\n']);
        assert(s =~= s.take(n) + seq!['\n'] + tail);
    }
}

/// A join of parts of which none is empty starts as its first part does and
/// ends as its last part does.
pub proof fn lemma_join_ends(parts: Seq<Seq<char>>, sep: Seq<char>)
    requires
        parts.len() > 0,
        forall|i: int| 0 <= i < parts.len() ==> (#[trigger] parts[i]).len() > 0,
    ensures
        join(parts, sep).len() >= parts.len(),
        join(parts, sep)[0] == parts[0][0],
        join(parts, sep).last() == parts.last().last(),
    decreases parts.len(),
{
    if parts.len() > 1 {
        let front = parts.drop_last();
        assert forall|i: int| 0 <= i < front.len() implies (#[trigger] front[i]).len() > 0 by {
            assert(front[i] == parts[i]);
        }
        lemma_join_ends(front, sep);
        assert(front[0] == parts[0]);
    }
}

/// A join by single spaces of parts that hold no whitespace holds no
/// whitespace but those spaces.
pub proof fn lemma_join_spaces(parts: Seq<Seq<char>>)
    requires
        forall|i: int, j: int|
            0 <= i < parts.len() && 0 <= j < parts[i].len() ==> !is_space(#[trigger] parts[i][j]),
    ensures
        forall|k: int|
            0 <= k < join(parts, seq![' ']).len() && is_space(#[trigger] join(parts, seq![' '])[k])
                ==> join(parts, seq![' '])[k] == ' ',
    decreases parts.len(),
{
    if parts.len() > 1 {
        let front = parts.drop_last();
        assert forall|i: int, j: int|
            0 <= i < front.len() && 0 <= j < front[i].len() implies !is_space(
            #[trigger] front[i][j],
        ) by {
            assert(front[i] == parts[i]);
        }
        lemma_join_spaces(front);
        let whole = join(parts, seq![' ']);
        let head = join(front, seq![' ']);
        assert forall|k: int| 0 <= k < whole.len() && is_space(#[trigger] whole[k]) implies whole[k]
            == ' ' by {
            if k < head.len() {
                assert(whole[k] == head[k]);
            } else if k > head.len() {
                assert(whole[k] == parts.last()[k - head.len() - 1]);
            }
        }
    } else if parts.len() == 1 {
        let whole = join(parts, seq![' ']);
        assert forall|k: int| 0 <= k < whole.len() && is_space(#[trigger] whole[k]) implies whole[k]
            == ' ' by {
            assert(whole[k] == parts[0][k]);
        }
    }
}

} // verus!
