//! Text helpers shared by the other modules: splitting and joining,
//! trimming, searching, lines, and numbers in decimal digits. Positions and
//! lengths count characters.

use vstd::prelude::*;

verus! {

/// The fields of `s` that `sep` delimits, left to right. A text without the
/// separator is one field; two separators side by side delimit an empty field.
pub open spec fn split_spec(s: Seq<char>, sep: char) -> Seq<Seq<char>>
    decreases s.len(),
{
    if s.len() == 0 {
        seq![Seq::<char>::empty()]
    } else {
        let init = split_spec(s.drop_last(), sep);
        if s.last() == sep {
            init.push(Seq::<char>::empty())
        } else {
            init.update(init.len() - 1, init.last().push(s.last()))
        }
    }
}

/// `fields` written out with `sep` between neighbours.
pub open spec fn join_spec(fields: Seq<Seq<char>>, sep: char) -> Seq<char>
    decreases fields.len(),
{
    if fields.len() == 0 {
        Seq::<char>::empty()
    } else if fields.len() == 1 {
        fields[0]
    } else {
        join_spec(fields.drop_last(), sep).push(sep) + fields.last()
    }
}

/// A split never yields an empty list of fields.
pub proof fn lemma_split_nonempty(s: Seq<char>, sep: char)
    ensures
        split_spec(s, sep).len() >= 1,
    decreases s.len(),
{
    if s.len() > 0 {
        lemma_split_nonempty(s.drop_last(), sep);
    }
}

/// No field of a split holds the separator, and joining the fields with the
/// separator gives the text back.
pub proof fn lemma_split_join(s: Seq<char>, sep: char)
    ensures
        forall|i: int| 0 <= i < split_spec(s, sep).len() ==> !(#[trigger] split_spec(s, sep)[i]).contains(sep),
        join_spec(split_spec(s, sep), sep) == s,
    decreases s.len(),
{
    let fields = split_spec(s, sep);
    if s.len() == 0 {
        assert(join_spec(fields, sep) =~= s);
    } else {
        let init = split_spec(s.drop_last(), sep);
        lemma_split_nonempty(s.drop_last(), sep);
        lemma_split_join(s.drop_last(), sep);
        if s.last() == sep {
            assert(fields.drop_last() =~= init);
            assert(join_spec(fields, sep) =~= s.drop_last().push(sep));
            assert(s.drop_last().push(sep) =~= s);
        } else {
            let last = init.last().push(s.last());
            assert forall|i: int| 0 <= i < fields.len() implies !(#[trigger] fields[i]).contains(sep) by {
                if i == fields.len() - 1 {
                    assert(!init.last().contains(sep));
                    if last.contains(sep) {
                        let j = choose|j: int| 0 <= j < last.len() && last[j] == sep;
                        if j < init.last().len() {
                            assert(init.last()[j] == sep);
                        }
                    }
                } else {
                    assert(fields[i] == init[i]);
                }
            }
            if init.len() == 1 {
                assert(join_spec(init, sep) == init[0]);
                assert(join_spec(fields, sep) =~= s.drop_last().push(s.last()));
            } else {
                assert(fields.drop_last() =~= init.drop_last());
                assert(join_spec(fields, sep) =~= join_spec(init, sep).push(s.last()));
            }
            assert(s.drop_last().push(s.last()) =~= s);
        }
    }
}

/// Appending text without the separator only lengthens the last field.
pub proof fn lemma_split_append_plain(s: Seq<char>, tail: Seq<char>, sep: char)
    requires
        !tail.contains(sep),
    ensures
        split_spec(s + tail, sep) == split_spec(s, sep).update(
            split_spec(s, sep).len() - 1,
            split_spec(s, sep).last() + tail,
        ),
    decreases tail.len(),
{
    lemma_split_nonempty(s, sep);
    let fields = split_spec(s, sep);
    if tail.len() == 0 {
        assert(s + tail =~= s);
        assert(fields.last() + tail =~= fields.last());
        assert(fields.update(fields.len() - 1, fields.last()) =~= fields);
    } else {
        let shorter = tail.drop_last();
        assert(!shorter.contains(sep)) by {
            if shorter.contains(sep) {
                let j = choose|j: int| 0 <= j < shorter.len() && shorter[j] == sep;
                assert(tail[j] == sep);
            }
        }
        assert(tail.last() != sep) by {
            assert(tail[tail.len() - 1] == tail.last());
        }
        lemma_split_append_plain(s, shorter, sep);
        assert((s + tail).drop_last() =~= s + shorter);
        assert((s + tail).last() == tail.last());
        let mid = split_spec(s + shorter, sep);
        assert(mid.last().push(tail.last()) =~= fields.last() + tail);
        assert(mid.update(mid.len() - 1, mid.last().push(tail.last())) =~= fields.update(
            fields.len() - 1,
            fields.last() + tail,
        ));
    }
}

/// A text without the separator is a single field.
pub proof fn lemma_split_plain(s: Seq<char>, sep: char)
    requires
        !s.contains(sep),
    ensures
        split_spec(s, sep) == seq![s],
{
    let none = Seq::<char>::empty();
    lemma_split_append_plain(none, s, sep);
    assert(none + s =~= s);
    assert(split_spec(none, sep) == seq![none]);
    assert(seq![none].update(0, none + s) =~= seq![s]);
}

/// Writing a separator and a further separator-free field behind a text adds
/// exactly that field to its split.
pub proof fn lemma_split_append_field(s: Seq<char>, field: Seq<char>, sep: char)
    requires
        !field.contains(sep),
    ensures
        split_spec(s.push(sep) + field, sep) == split_spec(s, sep).push(field),
{
    let t = s.push(sep);
    assert(t.drop_last() =~= s);
    assert(split_spec(t, sep) == split_spec(s, sep).push(Seq::<char>::empty()));
    lemma_split_append_plain(t, field, sep);
    assert(Seq::<char>::empty() + field =~= field);
    assert(split_spec(t, sep).update(split_spec(t, sep).len() - 1, field) =~= split_spec(s, sep).push(
        field,
    ));
}

/// Whether two slices hold the same characters.
pub fn str_eq(a: &str, b: &str) -> (r: bool)
    ensures
        r == (a@ == b@),
{
    a.to_owned() == b.to_owned()
}

/// The views of a vector of strings, in order.
pub open spec fn texts(v: Seq<String>) -> Seq<Seq<char>> {
    Seq::new(v.len(), |i: int| v[i]@)
}

/// Splits `s` on every occurrence of `sep`.
pub fn split_on(s: &str, sep: char) -> (r: Vec<String>)
    ensures
        texts(r@) == split_spec(s@, sep),
{
    let n = s.unicode_len();
    let mut out: Vec<String> = Vec::new();
    let mut start: usize = 0;
    let mut idx: usize = 0;
    assert(s@.take(0) =~= Seq::<char>::empty());
    assert(texts(out@).push(s@.subrange(0, 0)) =~= split_spec(s@.take(0), sep));
    for c in it: s.chars()
        invariant
            n == s@.len(),
            idx == it.index(),
            it.seq() == s@,
            start <= idx <= n,
            texts(out@).push(s@.subrange(start as int, idx as int)) == split_spec(
                s@.take(idx as int),
                sep,
            ),
    {
        let ghost fields = texts(out@);
        let ghost open = s@.subrange(start as int, idx as int);
        proof {
            let next = s@.take(idx + 1);
            assert(next.drop_last() =~= s@.take(idx as int));
            assert(next.last() == c);
        }
        if c == sep {
            let field = String::from_str(s.substring_char(start, idx));
            out.push(field);
            start = idx + 1;
            proof {
                assert(texts(out@) =~= fields.push(open));
                assert(s@.subrange(start as int, idx + 1) =~= Seq::<char>::empty());
            }
        } else {
            proof {
                assert(s@.subrange(start as int, idx + 1) =~= open.push(c));
                assert(fields.push(open).update(fields.len() as int, open.push(c)) =~= fields.push(
                    open.push(c),
                ));
            }
        }
        idx = idx + 1;
    }
    let ghost fields = texts(out@);
    let field = String::from_str(s.substring_char(start, n));
    out.push(field);
    proof {
        assert(s@.take(n as int) =~= s@);
        assert(texts(out@) =~= fields.push(s@.subrange(start as int, n as int)));
    }
    out
}

/// The position of the first element of `list` that reads `s`, if there is one.
pub fn position_of(list: &Vec<String>, s: &str) -> (r: Option<usize>)
    ensures
        match r {
            Some(i) => i < list@.len() && list@[i as int]@ == s@ && forall|j: int|
                0 <= j < i ==> list@[j]@ != s@,
            None => !texts(list@).contains(s@),
        },
{
    let mut i: usize = 0;
    while i < list.len()
        invariant
            i <= list.len(),
            forall|j: int| 0 <= j < i ==> list@[j]@ != s@,
        decreases list.len() - i,
    {
        if str_eq(list[i].as_str(), s) {
            return Some(i);
        }
        i = i + 1;
    }
    proof {
        if texts(list@).contains(s@) {
            let j = choose|j: int| 0 <= j < texts(list@).len() && texts(list@)[j] == s@;
            assert(list@[j]@ == s@);
        }
    }
    None
}

/// Whether some element of `list` reads `s`.
pub fn contains_text(list: &Vec<String>, s: &str) -> (r: bool)
    ensures
        r == texts(list@).contains(s@),
{
    match position_of(list, s) {
        Some(i) => {
            assert(texts(list@)[i as int] == s@);
            true
        },
        None => false,
    }
}

/// `width` copies of two blanks each.
pub open spec fn indent_spec(width: nat) -> Seq<char> {
    Seq::new(2 * width, |i: int| ' ')
}

/// The indentation of a tree line at depth `width`.
pub fn indent(width: usize) -> (r: String)
    ensures
        r@ == indent_spec(width as nat),
{
    proof {
        reveal_strlit("  ");
    }
    let mut s = String::new();
    let mut i: usize = 0;
    assert(s@ =~= indent_spec(0));
    while i < width
        invariant
            i <= width,
            s@ == indent_spec(i as nat),
            "  "@.len() == 2,
            "  "@[0] == ' ',
            "  "@[1] == ' ',
        decreases width - i,
    {
        s.append("  ");
        i = i + 1;
        assert(s@ =~= indent_spec(i as nat));
    }
    s
}

/// `s` with every `from` replaced by `to`.
pub open spec fn swapped(s: Seq<char>, from: char, to: char) -> Seq<char> {
    Seq::new(s.len(), |i: int| if s[i] == from { to } else { s[i] })
}

/// Splitting on one character and joining with another replaces the one by
/// the other.
pub proof fn lemma_split_rejoin(s: Seq<char>, from: char, to: char)
    ensures
        join_spec(split_spec(s, from), to) == swapped(s, from, to),
    decreases s.len(),
{
    let fields = split_spec(s, from);
    if s.len() == 0 {
        assert(join_spec(fields, to) =~= swapped(s, from, to));
    } else {
        let init = split_spec(s.drop_last(), from);
        lemma_split_nonempty(s.drop_last(), from);
        lemma_split_rejoin(s.drop_last(), from, to);
        let before = swapped(s.drop_last(), from, to);
        if s.last() == from {
            assert(fields.drop_last() =~= init);
            assert(join_spec(fields, to) =~= before.push(to));
            assert(before.push(to) =~= swapped(s, from, to));
        } else {
            if init.len() == 1 {
                assert(join_spec(init, to) == init[0]);
                assert(join_spec(fields, to) =~= before.push(s.last()));
            } else {
                assert(fields.drop_last() =~= init.drop_last());
                assert(join_spec(fields, to) =~= join_spec(init, to).push(s.last()));
            }
            assert(before.push(s.last()) =~= swapped(s, from, to));
        }
    }
}

/// `fields` written out with a slash between neighbours.
pub fn join_with_slash(fields: &Vec<String>) -> (r: String)
    ensures
        r@ == join_spec(texts(fields@), '/'),
{
    proof {
        reveal_strlit("/");
    }
    let ghost all = texts(fields@);
    let mut out = String::new();
    let mut i: usize = 0;
    assert(out@ =~= join_spec(all.take(0), '/'));
    while i < fields.len()
        invariant
            i <= fields.len(),
            all == texts(fields@),
            out@ == join_spec(all.take(i as int), '/'),
            "/"@.len() == 1,
            "/"@[0] == '/',
        decreases fields.len() - i,
    {
        let ghost sofar = out@;
        proof {
            let next = all.take(i + 1);
            assert(next.drop_last() =~= all.take(i as int));
            assert(next.last() == fields@[i as int]@);
        }
        if i > 0 {
            out.append("/");
            assert(out@ =~= sofar.push('/'));
        }
        out.append(fields[i].as_str());
        i = i + 1;
    }
    assert(all.take(fields.len() as int) =~= all);
    out
}

/// `s` with every dot replaced by a slash, as a group is written in the
/// path of a repository.
pub fn dots_to_slashes(s: &str) -> (r: String)
    ensures
        r@ == swapped(s@, '.', '/'),
{
    let fields = split_on(s, '.');
    proof {
        lemma_split_rejoin(s@, '.', '/');
    }
    join_with_slash(&fields)
}

/// Whether `c` is white space: one of the characters with the Unicode
/// property `White_Space`.
pub open spec fn is_space(c: char) -> bool {
    let u = c as u32;
    ||| 0x09 <= u <= 0x0D
    ||| u == 0x20
    ||| u == 0x85
    ||| u == 0xA0
    ||| u == 0x1680
    ||| 0x2000 <= u <= 0x200A
    ||| u == 0x2028
    ||| u == 0x2029
    ||| u == 0x202F
    ||| u == 0x205F
    ||| u == 0x3000
}

/// Whether `c` is white space.
pub fn is_whitespace(c: char) -> (r: bool)
    ensures
        r == is_space(c),
{
    let u = c as u32;
    (0x09 <= u && u <= 0x0D) || u == 0x20 || u == 0x85 || u == 0xA0 || u == 0x1680 || (0x2000 <= u
        && u <= 0x200A) || u == 0x2028 || u == 0x2029 || u == 0x202F || u == 0x205F || u == 0x3000
}

/// `s` without the white space at its start.
pub open spec fn trim_start_spec(s: Seq<char>) -> Seq<char>
    decreases s.len(),
{
    if s.len() > 0 && is_space(s[0]) {
        trim_start_spec(s.drop_first())
    } else {
        s
    }
}

/// `s` without the white space at its end.
pub open spec fn trim_end_spec(s: Seq<char>) -> Seq<char>
    decreases s.len(),
{
    if s.len() > 0 && is_space(s.last()) {
        trim_end_spec(s.drop_last())
    } else {
        s
    }
}

/// `s` without the white space at its start and at its end.
pub open spec fn trim_spec(s: Seq<char>) -> Seq<char> {
    trim_end_spec(trim_start_spec(s))
}

/// Behind a run of white space that ends where something else begins, or
/// where the text ends, the trimmed text begins.
pub proof fn lemma_trim_start(s: Seq<char>, a: int)
    requires
        0 <= a <= s.len(),
        forall|i: int| 0 <= i < a ==> is_space(s[i]),
        a < s.len() ==> !is_space(s[a]),
    ensures
        trim_start_spec(s) == s.skip(a),
    decreases a,
{
    if a == 0 {
        assert(s.skip(0) =~= s);
    } else {
        lemma_trim_start(s.drop_first(), a - 1);
        assert(s.drop_first().skip(a - 1) =~= s.skip(a));
    }
}

/// Before a run of white space that reaches the end of the text, the
/// trimmed text ends.
pub proof fn lemma_trim_end(s: Seq<char>, b: int)
    requires
        0 <= b <= s.len(),
        forall|i: int| b <= i < s.len() ==> is_space(s[i]),
        b > 0 ==> !is_space(s[b - 1]),
    ensures
        trim_end_spec(s) == s.take(b),
    decreases s.len() - b,
{
    if b == s.len() {
        assert(s.take(b) =~= s);
    } else {
        lemma_trim_end(s.drop_last(), b);
        assert(s.drop_last().take(b) =~= s.take(b));
    }
}

/// The characters of `s`, in order.
pub fn chars_of(s: &str) -> (r: Vec<char>)
    ensures
        r@ == s@,
{
    let n = s.unicode_len();
    let mut out: Vec<char> = Vec::new();
    for c in it: s.chars()
        invariant
            n == s@.len(),
            it.seq() == s@,
            out@ == s@.take(it.index() as int),
    {
        let ghost sofar = out@;
        out.push(c);
        assert(out@ =~= s@.take(it.index() + 1));
    }
    assert(s@.take(n as int) =~= s@);
    out
}

/// `s` without the white space at its start and at its end.
pub fn trim(s: &str) -> (r: String)
    ensures
        r@ == trim_spec(s@),
{
    let chars = chars_of(s);
    let n = chars.len();
    let mut a: usize = 0;
    while a < n && is_whitespace(chars[a])
        invariant
            a <= n,
            n == chars@.len(),
            forall|i: int| 0 <= i < a ==> is_space(chars@[i]),
        decreases n - a,
    {
        a = a + 1;
    }
    let mut b: usize = n;
    while b > a && is_whitespace(chars[b - 1])
        invariant
            a <= b <= n,
            n == chars@.len(),
            forall|i: int| b <= i < n ==> is_space(chars@[i]),
        decreases b,
    {
        b = b - 1;
    }
    proof {
        lemma_trim_start(s@, a as int);
        let rest = s@.skip(a as int);
        assert forall|i: int| b - a <= i < rest.len() implies is_space(rest[i]) by {
            assert(rest[i] == s@[i + a]);
        }
        if b > a {
            assert(rest[b - a - 1] == s@[b - 1]);
        }
        lemma_trim_end(rest, b - a);
        assert(rest.take(b - a) =~= s@.subrange(a as int, b as int));
    }
    String::from_str(s.substring_char(a, b))
}

/// Whether `s` begins with `prefix`.
pub open spec fn has_prefix(s: Seq<char>, prefix: Seq<char>) -> bool {
    prefix.len() <= s.len() && s.subrange(0, prefix.len() as int) == prefix
}

/// Whether `s` ends with `suffix`.
pub open spec fn has_suffix(s: Seq<char>, suffix: Seq<char>) -> bool {
    suffix.len() <= s.len() && s.subrange(s.len() - suffix.len(), s.len() as int) == suffix
}

/// Whether `s` begins with `prefix`.
pub fn starts_with(s: &str, prefix: &str) -> (r: bool)
    ensures
        r == has_prefix(s@, prefix@),
{
    let n = s.unicode_len();
    let k = prefix.unicode_len();
    if k > n {
        return false;
    }
    str_eq(s.substring_char(0, k), prefix)
}

/// Whether `s` ends with `suffix`.
pub fn ends_with(s: &str, suffix: &str) -> (r: bool)
    ensures
        r == has_suffix(s@, suffix@),
{
    let n = s.unicode_len();
    let k = suffix.unicode_len();
    if k > n {
        return false;
    }
    str_eq(s.substring_char(n - k, n), suffix)
}

/// The characters of `s` from position `from` up to position `to`.
pub fn slice(s: &str, from: usize, to: usize) -> (r: String)
    requires
        from <= to <= s@.len(),
    ensures
        r@ == s@.subrange(from as int, to as int),
{
    String::from_str(s.substring_char(from, to))
}

/// The number of characters of `s`.
pub fn char_len(s: &str) -> (r: usize)
    ensures
        r == s@.len(),
{
    s.unicode_len()
}

/// The first position of `c` in `s`.
pub fn find_char(s: &str, c: char) -> (r: Option<usize>)
    ensures
        match r {
            Some(i) => i < s@.len() && s@[i as int] == c && forall|j: int| 0 <= j < i ==> s@[j] != c,
            None => !s@.contains(c),
        },
{
    let chars = chars_of(s);
    let mut i: usize = 0;
    while i < chars.len()
        invariant
            i <= chars.len(),
            chars@ == s@,
            forall|j: int| 0 <= j < i ==> s@[j] != c,
        decreases chars.len() - i,
    {
        if chars[i] == c {
            return Some(i);
        }
        i = i + 1;
    }
    None
}

/// The last position of `c` in `s`.
pub fn rfind_char(s: &str, c: char) -> (r: Option<usize>)
    ensures
        match r {
            Some(i) => i < s@.len() && s@[i as int] == c && forall|j: int|
                i < j < s@.len() ==> s@[j] != c,
            None => !s@.contains(c),
        },
{
    let chars = chars_of(s);
    let mut i: usize = chars.len();
    while i > 0
        invariant
            i <= chars.len(),
            chars@ == s@,
            forall|j: int| i <= j < s@.len() ==> s@[j] != c,
        decreases i,
    {
        i = i - 1;
        if chars[i] == c {
            return Some(i);
        }
    }
    None
}

/// Whether `pattern` occurs in `s`.
pub open spec fn has_infix(s: Seq<char>, pattern: Seq<char>) -> bool {
    exists|i: int|
        0 <= i && i + pattern.len() <= s.len() && #[trigger] s.subrange(i, i + pattern.len()) == pattern
}

/// Whether `pattern` occurs in `s`.
pub fn contains_str(s: &str, pattern: &str) -> (r: bool)
    ensures
        r == has_infix(s@, pattern@),
{
    let n = s.unicode_len();
    let k = pattern.unicode_len();
    if k > n {
        return false;
    }
    if k == 0 {
        assert(s@.subrange(0int, 0int + pattern@.len()) =~= pattern@);
        return true;
    }
    let mut i: usize = 0;
    while i <= n - k
        invariant
            i <= n - k + 1,
            0 < k <= n,
            n == s@.len(),
            k == pattern@.len(),
            forall|j: int| 0 <= j < i ==> #[trigger] s@.subrange(j, j + k) != pattern@,
        decreases n - k + 1 - i,
    {
        if str_eq(s.substring_char(i, i + k), pattern) {
            return true;
        }
        i = i + 1;
    }
    false
}

/// A line without the carriage return at its end, if it has one.
pub open spec fn without_cr(line: Seq<char>) -> Seq<char> {
    if line.len() > 0 && line.last() == '\r' {
        line.drop_last()
    } else {
        line
    }
}

/// The first `n` of the `parts` between line feeds as lines: each without
/// the carriage return before its line feed.
pub open spec fn ended_lines(parts: Seq<Seq<char>>, n: int) -> Seq<Seq<char>>
    decreases n,
{
    if n <= 0 {
        Seq::empty()
    } else {
        ended_lines(parts, n - 1).push(without_cr(parts[n - 1]))
    }
}

/// The lines of a text. A line ends with a line feed, or a carriage return
/// and a line feed; what stands behind the last line feed is a line too,
/// unless it is empty.
pub open spec fn lines_spec(s: Seq<char>) -> Seq<Seq<char>> {
    let parts = split_spec(s, '\n');
    let ended = ended_lines(parts, parts.len() - 1);
    if parts.last().len() == 0 {
        ended
    } else {
        ended.push(parts.last())
    }
}

/// The lines of a text.
pub fn lines(s: &str) -> (r: Vec<String>)
    ensures
        texts(r@) == lines_spec(s@),
{
    let parts = split_on(s, '\n');
    let ghost all = texts(parts@);
    proof {
        lemma_split_nonempty(s@, '\n');
    }
    let mut out: Vec<String> = Vec::new();
    let mut i: usize = 0;
    let last = parts.len() - 1;
    assert(texts(out@) =~= ended_lines(all, 0));
    while i < last
        invariant
            i <= last,
            last == parts.len() - 1,
            all == texts(parts@),
            texts(out@) == ended_lines(all, i as int),
        decreases last - i,
    {
        let ghost sofar = texts(out@);
        let part = parts[i].as_str();
        assert(all[i as int] == part@);
        let n = part.unicode_len();
        let line = if n > 0 && part.get_char(n - 1) == '\r' {
            assert(part@.subrange(0, n - 1) =~= part@.drop_last());
            slice(part, 0, n - 1)
        } else {
            assert(part@.subrange(0, n as int) =~= part@);
            slice(part, 0, n)
        };
        out.push(line);
        assert(texts(out@) =~= sofar.push(without_cr(all[i as int])));
        i = i + 1;
    }
    let ghost sofar = texts(out@);
    assert(all[last as int] == parts@[last as int]@);
    if !parts[last].as_str().is_empty() {
        out.push(parts[last].clone());
        assert(texts(out@) =~= sofar.push(all[last as int]));
    }
    out
}

/// `s` without the run of `c` at its start.
pub open spec fn strip_start_spec(s: Seq<char>, c: char) -> Seq<char>
    decreases s.len(),
{
    if s.len() > 0 && s[0] == c {
        strip_start_spec(s.drop_first(), c)
    } else {
        s
    }
}

/// `s` without the run of `c` at its end.
pub open spec fn strip_end_spec(s: Seq<char>, c: char) -> Seq<char>
    decreases s.len(),
{
    if s.len() > 0 && s.last() == c {
        strip_end_spec(s.drop_last(), c)
    } else {
        s
    }
}

/// Behind a run of `c` that ends where something else begins, or where the
/// text ends, the stripped text begins.
pub proof fn lemma_strip_start(s: Seq<char>, c: char, a: int)
    requires
        0 <= a <= s.len(),
        forall|i: int| 0 <= i < a ==> s[i] == c,
        a < s.len() ==> s[a] != c,
    ensures
        strip_start_spec(s, c) == s.skip(a),
    decreases a,
{
    if a == 0 {
        assert(s.skip(0) =~= s);
    } else {
        lemma_strip_start(s.drop_first(), c, a - 1);
        assert(s.drop_first().skip(a - 1) =~= s.skip(a));
    }
}

/// Before a run of `c` that reaches the end of the text, the stripped text
/// ends.
pub proof fn lemma_strip_end(s: Seq<char>, c: char, b: int)
    requires
        0 <= b <= s.len(),
        forall|i: int| b <= i < s.len() ==> s[i] == c,
        b > 0 ==> s[b - 1] != c,
    ensures
        strip_end_spec(s, c) == s.take(b),
    decreases s.len() - b,
{
    if b == s.len() {
        assert(s.take(b) =~= s);
    } else {
        lemma_strip_end(s.drop_last(), c, b);
        assert(s.drop_last().take(b) =~= s.take(b));
    }
}

/// `s` without the run of `c` at its start.
pub fn strip_start(s: &str, c: char) -> (r: String)
    ensures
        r@ == strip_start_spec(s@, c),
{
    let chars = chars_of(s);
    let n = chars.len();
    let mut a: usize = 0;
    while a < n && chars[a] == c
        invariant
            a <= n,
            n == chars@.len(),
            forall|i: int| 0 <= i < a ==> chars@[i] == c,
        decreases n - a,
    {
        a = a + 1;
    }
    proof {
        lemma_strip_start(s@, c, a as int);
        assert(s@.skip(a as int) =~= s@.subrange(a as int, n as int));
    }
    String::from_str(s.substring_char(a, n))
}

/// `s` without the run of `c` at its end.
pub fn strip_end(s: &str, c: char) -> (r: String)
    ensures
        r@ == strip_end_spec(s@, c),
{
    let chars = chars_of(s);
    let n = chars.len();
    let mut b: usize = n;
    while b > 0 && chars[b - 1] == c
        invariant
            b <= n,
            n == chars@.len(),
            forall|i: int| b <= i < n ==> chars@[i] == c,
        decreases b,
    {
        b = b - 1;
    }
    proof {
        lemma_strip_end(s@, c, b as int);
        assert(s@.take(b as int) =~= s@.subrange(0, b as int));
    }
    String::from_str(s.substring_char(0, b))
}

/// The first `upto` of `fields` written out with `sep` between
/// neighbours. `sep_text` is the separator as text.
pub fn join_fields(fields: &Vec<String>, upto: usize, sep: char, sep_text: &str) -> (r: String)
    requires
        upto <= fields@.len(),
        sep_text@ == seq![sep],
    ensures
        r@ == join_spec(texts(fields@).take(upto as int), sep),
{
    let ghost all = texts(fields@).take(upto as int);
    let mut out = String::new();
    let mut i: usize = 0;
    assert(out@ =~= join_spec(all.take(0), sep));
    while i < upto
        invariant
            i <= upto <= fields@.len(),
            all == texts(fields@).take(upto as int),
            sep_text@ == seq![sep],
            out@ == join_spec(all.take(i as int), sep),
        decreases upto - i,
    {
        let ghost sofar = out@;
        proof {
            let next = all.take(i + 1);
            assert(next.drop_last() =~= all.take(i as int));
            assert(next.last() == fields@[i as int]@);
        }
        if i > 0 {
            out.append(sep_text);
            assert(out@ =~= sofar.push(sep));
        }
        out.append(fields[i].as_str());
        i = i + 1;
    }
    assert(all.take(upto as int) =~= all);
    out
}

/// The decimal digit for a number below ten.
pub open spec fn digit_char(d: nat) -> char {
    if d == 0 {
        '0'
    } else if d == 1 {
        '1'
    } else if d == 2 {
        '2'
    } else if d == 3 {
        '3'
    } else if d == 4 {
        '4'
    } else if d == 5 {
        '5'
    } else if d == 6 {
        '6'
    } else if d == 7 {
        '7'
    } else if d == 8 {
        '8'
    } else {
        '9'
    }
}

/// A number written in decimal digits, without leading zeros.
pub open spec fn decimal_spec(n: nat) -> Seq<char>
    decreases n,
{
    if n < 10 {
        seq![digit_char(n)]
    } else {
        decimal_spec(n / 10).push(digit_char(n % 10))
    }
}

/// The decimal digit for `d` as text.
pub fn digit_text(d: usize) -> (r: &'static str)
    requires
        d < 10,
    ensures
        r@ == seq![digit_char(d as nat)],
{
    proof {
        reveal_strlit("0");
        reveal_strlit("1");
        reveal_strlit("2");
        reveal_strlit("3");
        reveal_strlit("4");
        reveal_strlit("5");
        reveal_strlit("6");
        reveal_strlit("7");
        reveal_strlit("8");
        reveal_strlit("9");
    }
    let r = if d == 0 {
        "0"
    } else if d == 1 {
        "1"
    } else if d == 2 {
        "2"
    } else if d == 3 {
        "3"
    } else if d == 4 {
        "4"
    } else if d == 5 {
        "5"
    } else if d == 6 {
        "6"
    } else if d == 7 {
        "7"
    } else if d == 8 {
        "8"
    } else {
        "9"
    };
    assert(r@ =~= seq![digit_char(d as nat)]);
    r
}

/// `n` written in decimal digits.
pub fn decimal(n: usize) -> (r: String)
    ensures
        r@ == decimal_spec(n as nat),
    decreases n,
{
    if n < 10 {
        String::from_str(digit_text(n))
    } else {
        let mut text = decimal(n / 10);
        let ghost high = text@;
        text.append(digit_text(n % 10));
        assert(text@ =~= high.push(digit_char((n % 10) as nat)));
        text
    }
}

/// The view of an optional text.
pub open spec fn optional_text(t: Option<String>) -> Option<Seq<char>> {
    match t {
        Some(s) => Some(s@),
        None => None,
    }
}

/// A copy of an optional text.
pub fn clone_optional(t: &Option<String>) -> (r: Option<String>)
    ensures
        optional_text(r) == optional_text(*t),
{
    match t {
        Some(s) => Some(s.clone()),
        None => None,
    }
}

/// A copy of a list of texts.
pub fn clone_texts(list: &Vec<String>) -> (r: Vec<String>)
    ensures
        texts(r@) == texts(list@),
{
    let mut out: Vec<String> = Vec::new();
    let mut i: usize = 0;
    while i < list.len()
        invariant
            i <= list.len(),
            out.len() == i,
            forall|j: int| 0 <= j < i ==> out[j]@ == list[j]@,
        decreases list.len() - i,
    {
        out.push(list[i].clone());
        i = i + 1;
    }
    assert(texts(out@) =~= texts(list@));
    out
}

/// The position of the first `c` in `s`, or -1.
pub open spec fn first_of(s: Seq<char>, c: char) -> int
    decreases s.len(),
{
    if s.len() == 0 {
        -1
    } else if s[0] == c {
        0
    } else {
        let rest = first_of(s.drop_first(), c);
        if rest < 0 {
            -1
        } else {
            rest + 1
        }
    }
}

/// The position of the last `c` in `s`, or -1.
pub open spec fn last_of(s: Seq<char>, c: char) -> int
    decreases s.len(),
{
    if s.len() == 0 {
        -1
    } else if s.last() == c {
        s.len() - 1
    } else {
        last_of(s.drop_last(), c)
    }
}

/// The first position of a character is where a search from the left
/// finds it.
pub proof fn lemma_first_of(s: Seq<char>, c: char, i: int)
    requires
        0 <= i < s.len(),
        s[i] == c,
        forall|j: int| 0 <= j < i ==> s[j] != c,
    ensures
        first_of(s, c) == i,
    decreases i,
{
    if i > 0 {
        lemma_first_of(s.drop_first(), c, i - 1);
    }
}

/// The last position of a character is where a search from the right
/// finds it.
pub proof fn lemma_last_of(s: Seq<char>, c: char, i: int)
    requires
        0 <= i < s.len(),
        s[i] == c,
        forall|j: int| i < j < s.len() ==> s[j] != c,
    ensures
        last_of(s, c) == i,
    decreases s.len() - i,
{
    if i < s.len() - 1 {
        lemma_last_of(s.drop_last(), c, i);
    }
}

/// A character that does not occur has no first and no last position.
pub proof fn lemma_none_of(s: Seq<char>, c: char)
    requires
        !s.contains(c),
    ensures
        first_of(s, c) == -1,
        last_of(s, c) == -1,
    decreases s.len(),
{
    if s.len() > 0 {
        assert(s[0] != c);
        assert(s[s.len() - 1] != c);
        assert(!s.drop_first().contains(c)) by {
            if s.drop_first().contains(c) {
                let j = choose|j: int| 0 <= j < s.drop_first().len() && s.drop_first()[j] == c;
                assert(s[j + 1] == c);
            }
        }
        assert(!s.drop_last().contains(c)) by {
            if s.drop_last().contains(c) {
                let j = choose|j: int| 0 <= j < s.drop_last().len() && s.drop_last()[j] == c;
                assert(s[j] == c);
            }
        }
        lemma_none_of(s.drop_first(), c);
        lemma_none_of(s.drop_last(), c);
    }
}

} // verus!
