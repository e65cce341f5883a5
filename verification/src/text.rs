//! Text as sequences of characters: the handful of string operations that the
//! rest of the library is written with, each with its meaning as a function on
//! `Seq<char>`.

use vstd::prelude::*;

verus! {

/// `String::push`: the character is appended and nothing else changes.
pub assume_specification[ String::push ](s: &mut String, c: char)
    ensures
        final(s)@ == old(s)@.push(c),
;

/// The characters of `s`.
pub fn chars_of(s: &str) -> (v: Vec<char>)
    ensures
        v@ == s@,
{
    let mut v: Vec<char> = Vec::new();
    for c in it: s.chars()
        invariant
            v@ == it.seq().take(it.index() as int),
    {
        v.push(c);
    }
    v
}

/// The text made of the characters `v`.
pub fn string_of(v: &Vec<char>) -> (s: String)
    ensures
        s@ == v@,
{
    let mut s = String::new();
    let mut i: usize = 0;
    while i < v.len()
        invariant
            i <= v.len(),
            s@ == v@.take(i as int),
        decreases v.len() - i,
    {
        s.push(v[i]);
        assert(v@.take(i + 1) == v@.take(i as int).push(v@[i as int]));
        i += 1;
    }
    assert(v@.take(v@.len() as int) == v@);
    s
}

/// Appends all of `tail` to `v`.
pub fn append_chars(v: &mut Vec<char>, tail: &Vec<char>)
    ensures
        final(v)@ == old(v)@ + tail@,
{
    let mut i: usize = 0;
    while i < tail.len()
        invariant
            i <= tail.len(),
            v@ == old(v)@ + tail@.take(i as int),
        decreases tail.len() - i,
    {
        v.push(tail[i]);
        assert(tail@.take(i + 1) == tail@.take(i as int).push(tail@[i as int]));
        i += 1;
    }
    assert(tail@.take(tail@.len() as int) == tail@);
}

/// Appends all of `tail` to `v`.
pub fn push_text(v: &mut Vec<char>, tail: &str)
    ensures
        final(v)@ == old(v)@ + tail@,
{
    append_chars(v, &chars_of(tail));
}

/// The characters of `v` from `from` up to, not including, `to`.
pub fn slice_chars(v: &Vec<char>, from: usize, to: usize) -> (r: Vec<char>)
    requires
        from <= to <= v.len(),
    ensures
        r@ == v@.subrange(from as int, to as int),
{
    let mut r: Vec<char> = Vec::new();
    let mut i: usize = from;
    while i < to
        invariant
            from <= i <= to <= v.len(),
            r@ == v@.subrange(from as int, i as int),
        decreases to - i,
    {
        r.push(v[i]);
        assert(v@.subrange(from as int, i + 1) == v@.subrange(from as int, i as int).push(
            v@[i as int],
        ));
        i += 1;
    }
    r
}

/// Whether two texts hold the same characters.
pub fn same_chars(a: &Vec<char>, b: &Vec<char>) -> (r: bool)
    ensures
        r == (a@ == b@),
{
    if a.len() != b.len() {
        return false;
    }
    let mut i: usize = 0;
    while i < a.len()
        invariant
            i <= a.len() == b.len(),
            a@.take(i as int) == b@.take(i as int),
        decreases a.len() - i,
    {
        if a[i] != b[i] {
            assert(a@[i as int] != b@[i as int]);
            return false;
        }
        assert(a@.take(i + 1) == a@.take(i as int).push(a@[i as int]));
        assert(b@.take(i + 1) == b@.take(i as int).push(b@[i as int]));
        i += 1;
    }
    assert(a@.take(a@.len() as int) == a@);
    assert(b@.take(b@.len() as int) == b@);
    true
}

/// Whether two texts hold the same characters.
pub fn same(a: &str, b: &str) -> (r: bool)
    ensures
        r == (a@ == b@),
{
    same_chars(&chars_of(a), &chars_of(b))
}

/// The Unicode `White_Space` property.
pub open spec fn is_white(c: char) -> bool {
    let u = c as u32;
    ||| 0x09 <= u <= 0x0d
    ||| u == 0x20
    ||| u == 0x85
    ||| u == 0xa0
    ||| u == 0x1680
    ||| 0x2000 <= u <= 0x200a
    ||| u == 0x2028
    ||| u == 0x2029
    ||| u == 0x202f
    ||| u == 0x205f
    ||| u == 0x3000
}

/// Whether `c` is white space in the sense of Unicode.
pub fn white(c: char) -> (r: bool)
    ensures
        r == is_white(c),
{
    let u: u32 = c as u32;
    (0x09 <= u && u <= 0x0d) || u == 0x20 || u == 0x85 || u == 0xa0 || u == 0x1680 || (0x2000 <= u
        && u <= 0x200a) || u == 0x2028 || u == 0x2029 || u == 0x202f || u == 0x205f || u == 0x3000
}

/// Whether `c` is one of `0` to `9`.
pub open spec fn is_digit(c: char) -> bool {
    '0' <= c && c <= '9'
}

/// Whether `c` is one of `0` to `9`.
pub fn digit(c: char) -> (r: bool)
    ensures
        r == is_digit(c),
{
    '0' <= c && c <= '9'
}

/// `c`, with `A` to `Z` made lower case.
pub open spec fn lower_char(c: char) -> char {
    if 'A' <= c && c <= 'Z' {
        ((c as u8) + 32) as char
    } else {
        c
    }
}

/// `c`, with `a` to `z` made upper case.
pub open spec fn upper_char(c: char) -> char {
    if 'a' <= c && c <= 'z' {
        ((c as u8) - 32) as char
    } else {
        c
    }
}

/// `s` with its ASCII letters in lower case.
pub open spec fn lower(s: Seq<char>) -> Seq<char> {
    Seq::new(s.len(), |i: int| lower_char(s[i]))
}

/// `s` with its ASCII letters in upper case.
pub open spec fn upper(s: Seq<char>) -> Seq<char> {
    Seq::new(s.len(), |i: int| upper_char(s[i]))
}

/// `v` with its ASCII letters in lower case.
pub fn to_lower(v: &Vec<char>) -> (r: Vec<char>)
    ensures
        r@ == lower(v@),
{
    let mut r: Vec<char> = Vec::new();
    let mut i: usize = 0;
    while i < v.len()
        invariant
            i <= v.len(),
            r@ == lower(v@).take(i as int),
        decreases v.len() - i,
    {
        let c = v[i];
        if 'A' <= c && c <= 'Z' {
            r.push((c as u8 + 32) as char);
        } else {
            r.push(c);
        }
        i += 1;
    }
    r
}

/// `v` with its ASCII letters in upper case.
pub fn to_upper(v: &Vec<char>) -> (r: Vec<char>)
    ensures
        r@ == upper(v@),
{
    let mut r: Vec<char> = Vec::new();
    let mut i: usize = 0;
    while i < v.len()
        invariant
            i <= v.len(),
            r@ == upper(v@).take(i as int),
        decreases v.len() - i,
    {
        let c = v[i];
        if 'a' <= c && c <= 'z' {
            r.push((c as u8 - 32) as char);
        } else {
            r.push(c);
        }
        i += 1;
    }
    r
}

/// `s` without the white space it starts with.
pub open spec fn trim_start(s: Seq<char>) -> Seq<char>
    decreases s.len(),
{
    if s.len() > 0 && is_white(s[0]) {
        trim_start(s.drop_first())
    } else {
        s
    }
}

/// `s` without the white space it ends with.
pub open spec fn trim_end(s: Seq<char>) -> Seq<char>
    decreases s.len(),
{
    if s.len() > 0 && is_white(s.last()) {
        trim_end(s.drop_last())
    } else {
        s
    }
}

/// `s` without white space at either end.
pub open spec fn trim(s: Seq<char>) -> Seq<char> {
    trim_end(trim_start(s))
}

/// `v` without the white space it ends with.
pub fn trimmed_end(v: &Vec<char>) -> (r: Vec<char>)
    ensures
        r@ == trim_end(v@),
{
    let mut to: usize = v.len();
    assert(v@.take(v@.len() as int) == v@);
    while to > 0 && white(v[to - 1])
        invariant
            to <= v.len(),
            trim_end(v@) == trim_end(v@.take(to as int)),
        decreases to,
    {
        assert(v@.take(to as int).drop_last() == v@.take(to - 1));
        to -= 1;
    }
    let r = slice_chars(v, 0, to);
    assert(r@ == v@.take(to as int));
    r
}

/// `v` without white space at either end.
pub fn trimmed(v: &Vec<char>) -> (r: Vec<char>)
    ensures
        r@ == trim(v@),
{
    let mut from: usize = 0;
    assert(v@.skip(0) == v@);
    while from < v.len() && white(v[from])
        invariant
            from <= v.len(),
            trim_start(v@) == trim_start(v@.skip(from as int)),
        decreases v.len() - from,
    {
        assert(v@.skip(from as int).drop_first() == v@.skip(from + 1));
        from += 1;
    }
    let rest = slice_chars(v, from, v.len());
    assert(rest@ == v@.skip(from as int));
    trimmed_end(&rest)
}

/// The words of `s`: its maximal runs of characters that are not white space.
pub open spec fn words(s: Seq<char>) -> Seq<Seq<char>>
    decreases s.len(),
{
    if s.len() == 0 {
        Seq::empty()
    } else {
        let before = words(s.drop_last());
        if is_white(s.last()) {
            before
        } else if s.len() >= 2 && !is_white(s[s.len() - 2]) {
            before.drop_last().push(before.last().push(s.last()))
        } else {
            before.push(seq![s.last()])
        }
    }
}

/// The characters of each text in `v`.
pub open spec fn texts(v: Seq<Vec<char>>) -> Seq<Seq<char>> {
    Seq::new(v.len(), |i: int| v[i]@)
}

/// Splits `v` at white space.
pub fn split_words(v: &Vec<char>) -> (r: Vec<Vec<char>>)
    ensures
        texts(r@) == words(v@),
{
    let mut r: Vec<Vec<char>> = Vec::new();
    let mut current: Vec<char> = Vec::new();
    let mut i: usize = 0;
    while i < v.len()
        invariant
            i <= v.len(),
            current@.len() > 0 <==> i > 0 && !is_white(v@[i - 1]),
            words(v@.take(i as int)) == if current@.len() > 0 {
                texts(r@).push(current@)
            } else {
                texts(r@)
            },
        decreases v.len() - i,
    {
        let c = v[i];
        proof {
            let p = v@.take(i + 1);
            assert(p.drop_last() == v@.take(i as int));
            assert(p.last() == c);
            if i > 0 {
                assert(p[p.len() - 2] == v@[i - 1]);
            }
        }
        if white(c) {
            if current.len() > 0 {
                let ghost before = texts(r@).push(current@);
                r.push(current);
                assert(texts(r@) == before);
                current = Vec::new();
            }
        } else {
            let ghost old_current = current@;
            current.push(c);
            proof {
                if old_current.len() > 0 {
                    assert(texts(r@).push(old_current).drop_last() == texts(r@));
                } else {
                    assert(current@ == seq![c]);
                }
            }
        }
        i += 1;
    }
    assert(v@.take(v@.len() as int) == v@);
    if current.len() > 0 {
        let ghost before = texts(r@).push(current@);
        r.push(current);
        assert(texts(r@) == before);
    }
    r
}

/// The pieces of `s` between the separators `c`; one more than there are
/// separators.
pub open spec fn pieces(s: Seq<char>, c: char) -> Seq<Seq<char>>
    decreases s.len(),
{
    if s.len() == 0 {
        seq![Seq::empty()]
    } else {
        let before = pieces(s.drop_last(), c);
        if s.last() == c {
            before.push(Seq::empty())
        } else {
            before.drop_last().push(before.last().push(s.last()))
        }
    }
}

/// Splits `v` at every `c`.
pub fn split_pieces(v: &Vec<char>, c: char) -> (r: Vec<Vec<char>>)
    ensures
        texts(r@) == pieces(v@, c),
        r@.len() > 0,
{
    let mut r: Vec<Vec<char>> = Vec::new();
    let mut current: Vec<char> = Vec::new();
    let mut i: usize = 0;
    assert(pieces(v@.take(0), c) =~= texts(r@).push(current@));
    while i < v.len()
        invariant
            i <= v.len(),
            pieces(v@.take(i as int), c) == texts(r@).push(current@),
        decreases v.len() - i,
    {
        let next = v[i];
        proof {
            let p = v@.take(i + 1);
            assert(p.drop_last() == v@.take(i as int));
            assert(p.last() == next);
            assert(texts(r@).push(current@).drop_last() == texts(r@));
        }
        let ghost before = texts(r@).push(current@);
        if next == c {
            r.push(current);
            assert(texts(r@) == before);
            current = Vec::new();
        } else {
            current.push(next);
        }
        i += 1;
    }
    assert(v@.take(v@.len() as int) == v@);
    let ghost all = texts(r@).push(current@);
    r.push(current);
    assert(texts(r@) == all);
    r
}

/// The parts in order, with `separator` between each two.
pub open spec fn joined(parts: Seq<Seq<char>>, separator: Seq<char>) -> Seq<char>
    decreases parts.len(),
{
    if parts.len() == 0 {
        Seq::empty()
    } else if parts.len() == 1 {
        parts[0]
    } else {
        joined(parts.drop_last(), separator) + separator + parts.last()
    }
}

/// One blank.
pub open spec fn blank() -> Seq<char> {
    seq![' ']
}

/// Joins the parts with one blank between each two.
pub fn join_words(parts: &Vec<Vec<char>>) -> (r: Vec<char>)
    ensures
        r@ == joined(texts(parts@), blank()),
{
    let mut r: Vec<char> = Vec::new();
    let mut i: usize = 0;
    while i < parts.len()
        invariant
            i <= parts.len(),
            r@ == joined(texts(parts@).take(i as int), blank()),
        decreases parts.len() - i,
    {
        proof {
            let p = texts(parts@).take(i + 1);
            assert(p.drop_last() == texts(parts@).take(i as int));
            assert(p.last() == parts@[i as int]@);
        }
        if i > 0 {
            r.push(' ');
            assert(r@ == joined(texts(parts@).take(i as int), blank()) + blank());
        }
        append_chars(&mut r, &parts[i]);
        i += 1;
    }
    assert(texts(parts@).take(parts@.len() as int) == texts(parts@));
    r
}

/// `pattern` stands in `s` at position `at`.
pub open spec fn occurs_at(s: Seq<char>, pattern: Seq<char>, at: int) -> bool {
    0 <= at && at + pattern.len() <= s.len() && s.subrange(at, at + pattern.len()) == pattern
}

/// `pattern` stands in `s` at `at`, and nowhere before.
pub open spec fn first_occurs_at(s: Seq<char>, pattern: Seq<char>, at: int) -> bool {
    occurs_at(s, pattern, at) && forall|j: int| 0 <= j < at ==> !#[trigger] occurs_at(s, pattern, j)
}

/// `pattern` stands somewhere in `s`.
pub open spec fn occurs(s: Seq<char>, pattern: Seq<char>) -> bool {
    exists|at: int| #[trigger] occurs_at(s, pattern, at)
}

/// The first position at which `pattern` stands in `s`.
pub open spec fn position_of(s: Seq<char>, pattern: Seq<char>) -> Option<int> {
    if occurs(s, pattern) {
        Some(choose|at: int| first_occurs_at(s, pattern, at))
    } else {
        None
    }
}

/// There is only one first position.
pub proof fn lemma_position_of(s: Seq<char>, pattern: Seq<char>, at: int)
    requires
        first_occurs_at(s, pattern, at),
    ensures
        position_of(s, pattern) == Some(at),
{
    let p = choose|p: int| first_occurs_at(s, pattern, p);
    assert(first_occurs_at(s, pattern, p));
    assert(occurs_at(s, pattern, p) && occurs_at(s, pattern, at));
}

/// Whether `pattern` stands in `v` at position `at`.
pub fn stands_at(v: &Vec<char>, pattern: &Vec<char>, at: usize) -> (r: bool)
    ensures
        r == occurs_at(v@, pattern@, at as int),
{
    if pattern.len() > v.len() || at > v.len() - pattern.len() {
        return false;
    }
    let window = slice_chars(v, at, at + pattern.len());
    same_chars(&window, pattern)
}

/// The first position at which `pattern` stands in `v`.
pub fn find_chars(v: &Vec<char>, pattern: &Vec<char>) -> (r: Option<usize>)
    ensures
        match r {
            Some(at) => position_of(v@, pattern@) == Some(at as int) && occurs_at(
                v@,
                pattern@,
                at as int,
            ),
            None => position_of(v@, pattern@) is None,
        },
{
    let mut at: usize = 0;
    while at < v.len()
        invariant
            at <= v.len(),
            forall|j: int| 0 <= j < at ==> !#[trigger] occurs_at(v@, pattern@, j),
        decreases v.len() - at,
    {
        if stands_at(v, pattern, at) {
            proof {
                lemma_position_of(v@, pattern@, at as int);
            }
            return Some(at);
        }
        at += 1;
    }
    if pattern.len() == 0 {
        assert(v@.subrange(at as int, at as int) == pattern@);
        proof {
            lemma_position_of(v@, pattern@, at as int);
        }
        return Some(at);
    }
    None
}

/// Whether `pattern` stands somewhere in `v`.
pub fn has(v: &Vec<char>, pattern: &str) -> (r: bool)
    ensures
        r == occurs(v@, pattern@),
{
    find_chars(v, &chars_of(pattern)).is_some()
}

/// `pattern` stands in `s` at `at`, and nowhere after.
pub open spec fn last_occurs_at(s: Seq<char>, pattern: Seq<char>, at: int) -> bool {
    occurs_at(s, pattern, at) && forall|j: int| at < j ==> !#[trigger] occurs_at(s, pattern, j)
}

/// What follows the last occurrence of `pattern` in `s`.
pub open spec fn after_last(s: Seq<char>, pattern: Seq<char>) -> Option<Seq<char>> {
    if occurs(s, pattern) {
        let at = choose|at: int| last_occurs_at(s, pattern, at);
        Some(s.skip(at + pattern.len()))
    } else {
        None
    }
}

/// What follows the last occurrence of `pattern` in `v`.
pub fn rest_after_last(v: &Vec<char>, pattern: &Vec<char>) -> (r: Option<Vec<char>>)
    ensures
        match r {
            Some(rest) => after_last(v@, pattern@) == Some(rest@),
            None => after_last(v@, pattern@) is None,
        },
{
    let mut at: usize = v.len();
    loop
        invariant
            at <= v.len(),
            forall|j: int| at < j ==> !#[trigger] occurs_at(v@, pattern@, j),
        decreases at,
    {
        if stands_at(v, pattern, at) {
            let rest = slice_chars(v, at + pattern.len(), v.len());
            proof {
                let p = choose|p: int| last_occurs_at(v@, pattern@, p);
                assert(last_occurs_at(v@, pattern@, at as int));
                assert(occurs_at(v@, pattern@, p) && occurs_at(v@, pattern@, at as int));
                assert(rest@ == v@.skip(at + pattern@.len()));
            }
            return Some(rest);
        }
        if at == 0 {
            return None;
        }
        at -= 1;
    }
}

/// `s` starts with `prefix`.
pub open spec fn starts_with(s: Seq<char>, prefix: Seq<char>) -> bool {
    occurs_at(s, prefix, 0)
}

/// `s` without `prefix` at its start, however often it stands there.
pub open spec fn without_prefix(s: Seq<char>, prefix: Seq<char>) -> Seq<char>
    decreases s.len(),
{
    if prefix.len() > 0 && starts_with(s, prefix) {
        without_prefix(s.skip(prefix.len() as int), prefix)
    } else {
        s
    }
}

/// `v` without `prefix` at its start, however often it stands there.
pub fn strip_prefix(v: &Vec<char>, prefix: &Vec<char>) -> (r: Vec<char>)
    ensures
        r@ == without_prefix(v@, prefix@),
{
    let mut r = slice_chars(v, 0, v.len());
    assert(r@ =~= v@);
    while prefix.len() > 0 && stands_at(&r, prefix, 0)
        invariant
            without_prefix(r@, prefix@) == without_prefix(v@, prefix@),
        decreases r@.len(),
    {
        let rest = slice_chars(&r, prefix.len(), r.len());
        assert(rest@ =~= r@.skip(prefix@.len() as int));
        r = rest;
    }
    r
}

/// `s` without any `c` at its end.
pub open spec fn without_trailing(s: Seq<char>, c: char) -> Seq<char>
    decreases s.len(),
{
    if s.len() > 0 && s.last() == c {
        without_trailing(s.drop_last(), c)
    } else {
        s
    }
}

/// `v` without any `c` at its end.
pub fn strip_trailing(v: &Vec<char>, c: char) -> (r: Vec<char>)
    ensures
        r@ == without_trailing(v@, c),
{
    let mut to: usize = v.len();
    assert(v@.take(v@.len() as int) == v@);
    while to > 0 && v[to - 1] == c
        invariant
            to <= v.len(),
            without_trailing(v@, c) == without_trailing(v@.take(to as int), c),
        decreases to,
    {
        assert(v@.take(to as int).drop_last() == v@.take(to - 1));
        to -= 1;
    }
    let r = slice_chars(v, 0, to);
    assert(r@ == v@.take(to as int));
    r
}

/// The number of bytes of `c` in UTF-8.
pub open spec fn char_bytes(c: char) -> nat {
    let u = c as u32;
    if u < 0x80 {
        1
    } else if u < 0x800 {
        2
    } else if u < 0x10000 {
        3
    } else {
        4
    }
}

/// The number of bytes of `s` in UTF-8.
pub open spec fn byte_len(s: Seq<char>) -> nat
    decreases s.len(),
{
    if s.len() == 0 {
        0
    } else {
        byte_len(s.drop_last()) + char_bytes(s.last())
    }
}

/// The number of bytes of `v` in UTF-8.
pub fn utf8_len(v: &Vec<char>) -> (n: u128)
    ensures
        n == byte_len(v@),
{
    let mut n: u128 = 0;
    let mut i: usize = 0;
    while i < v.len()
        invariant
            i <= v.len(),
            n == byte_len(v@.take(i as int)),
            n <= 4 * i,
        decreases v.len() - i,
    {
        proof {
            let p = v@.take(i + 1);
            assert(p.drop_last() == v@.take(i as int));
        }
        let u: u32 = v[i] as u32;
        n += if u < 0x80 {
            1
        } else if u < 0x800 {
            2
        } else if u < 0x10000 {
            3
        } else {
            4
        };
        i += 1;
    }
    assert(v@.take(v@.len() as int) == v@);
    n
}

/// Every character of `s` is white space.
pub open spec fn all_white(s: Seq<char>) -> bool {
    forall|i: int| 0 <= i < s.len() ==> is_white(#[trigger] s[i])
}

proof fn lemma_trim_start(s: Seq<char>) -> (cut: Seq<char>)
    ensures
        all_white(cut),
        s == cut + trim_start(s),
        trim_start(s).len() > 0 ==> !is_white(trim_start(s)[0]),
    decreases s.len(),
{
    if s.len() > 0 && is_white(s[0]) {
        let rest = lemma_trim_start(s.drop_first());
        let cut = seq![s[0]] + rest;
        assert(s =~= seq![s[0]] + s.drop_first());
        assert(seq![s[0]] + (rest + trim_start(s)) =~= cut + trim_start(s));
        cut
    } else {
        assert(s =~= Seq::empty() + s);
        Seq::empty()
    }
}

proof fn lemma_trim_end(s: Seq<char>) -> (cut: Seq<char>)
    ensures
        all_white(cut),
        s == trim_end(s) + cut,
        trim_end(s).len() > 0 ==> !is_white(trim_end(s).last()),
    decreases s.len(),
{
    if s.len() > 0 && is_white(s.last()) {
        let rest = lemma_trim_end(s.drop_last());
        let cut = rest.push(s.last());
        assert(s =~= s.drop_last().push(s.last()));
        assert((trim_end(s) + rest).push(s.last()) =~= trim_end(s) + cut);
        cut
    } else {
        assert(s =~= s + Seq::empty());
        Seq::empty()
    }
}

/// Trimming takes white space off both ends, and nothing else, and leaves none there.
pub proof fn law_trimming_takes_white_space_off(s: Seq<char>)
    ensures
        exists|a: Seq<char>, b: Seq<char>|
            #![trigger all_white(a), all_white(b)]
            all_white(a) && all_white(b) && s == a + trim(s) + b,
        trim(s).len() > 0 ==> !is_white(trim(s)[0]) && !is_white(trim(s).last()),
{
    let a = lemma_trim_start(s);
    let rest = trim_start(s);
    let b = lemma_trim_end(rest);
    assert(s =~= a + trim(s) + b);
    assert(all_white(a) && all_white(b));
    if trim(s).len() > 0 {
        assert(rest[0] == trim(s)[0]);
    }
}

/// Words have no white space in them and are not empty. A blank behind a text adds no word;
/// a word behind a blank is a word of its own, and behind a text that ends with a word it
/// makes that longer.
pub proof fn law_words_are_what_white_space_parts(s: Seq<char>, c: char)
    ensures
        forall|k: int|
            0 <= k < words(s).len() ==> (#[trigger] words(s)[k]).len() > 0 && forall|i: int|
                0 <= i < words(s)[k].len() ==> !is_white(#[trigger] words(s)[k][i]),
        is_white(c) ==> words(s.push(c)) == words(s),
        !is_white(c) && (s.len() == 0 || is_white(s.last())) ==> words(s.push(c)) == words(s).push(
            seq![c],
        ),
        !is_white(c) && s.len() > 0 && !is_white(s.last()) ==> words(s).len() > 0 && words(
            s.push(c),
        ) == words(s).drop_last().push(words(s).last().push(c)),
    decreases s.len(),
{
    assert(s.push(c).drop_last() =~= s);
    if s.len() > 0 {
        let shorter = s.drop_last();
        law_words_are_what_white_space_parts(shorter, s.last());
        assert(shorter.push(s.last()) =~= s);
        let before = words(shorter);
        let after = words(s);
        assert forall|k: int| 0 <= k < after.len() implies (#[trigger] after[k]).len() > 0
            && forall|i: int| 0 <= i < after[k].len() ==> !is_white(#[trigger] after[k][i]) by {
            if k < before.len() {
                assert(before[k].len() > 0);
            }
        }
    }
}

/// A comparison in one case: capital letters of the alphabet become small ones and the
/// other way round, and no other character changes.
pub proof fn law_cases_differ_in_letters_only(c: char)
    ensures
        'A' <= c && c <= 'Z' ==> lower_char(c) as int == c as int + 32 && upper_char(c) == c,
        'a' <= c && c <= 'z' ==> upper_char(c) as int == c as int - 32 && lower_char(c) == c,
        !('A' <= c && c <= 'Z') && !('a' <= c && c <= 'z') ==> lower_char(c) == c && upper_char(c)
            == c,
{
}

} // verus!
