//! Text and byte sequences: splitting, joining, trimming and numbers.
//!
//! Text is modelled as `Seq<char>`, the view of `str` and `String`.
use vstd::prelude::*;

verus! {

broadcast use vstd::seq::group_seq_axioms;

/// `String::push` appends one character to the end of the string.
pub assume_specification[ String::push ](s: &mut String, c: char)
    ensures
        final(s)@ == old(s)@.push(c),
;

/// The pieces of `s` between the occurrences of `sep`. Never empty: without a separator there
/// is one piece, the whole.
pub open spec fn split<T>(s: Seq<T>, sep: T) -> Seq<Seq<T>>
    decreases s.len(),
{
    if s.len() == 0 {
        seq![Seq::<T>::empty()]
    } else {
        let front = split(s.drop_last(), sep);
        if s.last() == sep {
            front.push(Seq::<T>::empty())
        } else {
            front.drop_last().push(front.last().push(s.last()))
        }
    }
}

/// The pieces put back together with `sep` between them.
pub open spec fn join<T>(parts: Seq<Seq<T>>, sep: T) -> Seq<T>
    decreases parts.len(),
{
    if parts.len() == 0 {
        Seq::empty()
    } else if parts.len() == 1 {
        parts[0]
    } else {
        join(parts.drop_last(), sep).push(sep) + parts.last()
    }
}

/// Nested vectors of characters seen as sequences of sequences.
pub open spec fn views<T>(v: Seq<Vec<T>>) -> Seq<Seq<T>> {
    v.map_values(|p: Vec<T>| p@)
}

/// The characters of a string, in order.
pub fn chars_of(s: &str) -> (v: Vec<char>)
    ensures
        v@ == s@,
{
    let mut v: Vec<char> = Vec::new();
    for c in it: s.chars()
        invariant
            it.seq() == s@,
            v@ == s@.take(it.index() as int),
    {
        v.push(c);
    }
    assert(s@.take(s@.len() as int) == s@);
    v
}

/// The string made of the given characters.
pub fn string_of(v: &[char]) -> (s: String)
    ensures
        s@ == v@,
{
    let mut s = String::new();
    for i in 0..v.len()
        invariant
            s@ == v@.take(i as int),
    {
        s.push(v[i]);
        assert(v@.take(i + 1) == v@.take(i as int).push(v@[i as int]));
    }
    assert(v@.take(v@.len() as int) == v@);
    s
}


// ---------------------------------------------------------------------------------------
// Splitting and joining
// ---------------------------------------------------------------------------------------

/// There is always at least one piece.
pub proof fn lemma_split_nonempty<T>(s: Seq<T>, sep: T)
    ensures
        split(s, sep).len() >= 1,
    decreases s.len(),
{
    if s.len() > 0 {
        lemma_split_nonempty(s.drop_last(), sep);
    }
}

/// Without the separator there is exactly one piece.
pub proof fn lemma_split_whole<T>(s: Seq<T>, sep: T)
    requires
        !s.contains(sep),
    ensures
        split(s, sep) == seq![s],
    decreases s.len(),
{
    if s.len() > 0 {
        assert(!s.drop_last().contains(sep)) by {
            assert(forall|i: int| 0 <= i < s.drop_last().len() ==> s.drop_last()[i] == s[i]);
        }
        assert(s.contains(s.last()));
        lemma_split_whole(s.drop_last(), sep);
        assert(s.drop_last().push(s.last()) == s);
        assert(split(s, sep) =~= seq![s]);
    } else {
        assert(s =~= Seq::<T>::empty());
    }
}

/// Splitting at a separator that stands between two halves splits each half.
pub proof fn lemma_split_concat<T>(a: Seq<T>, b: Seq<T>, sep: T)
    ensures
        split(a.push(sep) + b, sep) == split(a, sep) + split(b, sep),
    decreases b.len(),
{
    let s = a.push(sep) + b;
    lemma_split_nonempty(b, sep);
    if b.len() == 0 {
        assert(s =~= a.push(sep));
        assert(s.drop_last() =~= a);
        assert(split(s, sep) =~= split(a, sep) + split(b, sep));
    } else {
        lemma_split_concat(a, b.drop_last(), sep);
        lemma_split_nonempty(b.drop_last(), sep);
        assert(s.drop_last() =~= a.push(sep) + b.drop_last());
        assert(s.last() == b.last());
        let front = split(a, sep) + split(b.drop_last(), sep);
        assert(front.last() == split(b.drop_last(), sep).last());
        assert(front.drop_last() =~= split(a, sep) + split(b.drop_last(), sep).drop_last());
        assert(split(s, sep) =~= split(a, sep) + split(b, sep));
    }
}

/// No piece holds the separator.
pub proof fn lemma_split_free<T>(s: Seq<T>, sep: T)
    ensures
        forall|i: int| 0 <= i < split(s, sep).len() ==> !(#[trigger] split(s, sep)[i]).contains(sep),
    decreases s.len(),
{
    if s.len() > 0 {
        lemma_split_free(s.drop_last(), sep);
        lemma_split_nonempty(s.drop_last(), sep);
        let front = split(s.drop_last(), sep);
        assert forall|i: int| 0 <= i < split(s, sep).len() implies !(#[trigger] split(
            s,
            sep,
        )[i]).contains(sep) by {
            if i == split(s, sep).len() - 1 && s.last() != sep {
                assert(!front.last().contains(sep));
                let piece = front.last().push(s.last());
                assert forall|j: int| 0 <= j < piece.len() implies piece[j] != sep by {
                    if j < front.last().len() {
                        assert(front.last().contains(front.last()[j]));
                    }
                }
            }
        }
    }
}

/// Joining the pieces of `s` gives `s` back.
pub proof fn lemma_join_split<T>(s: Seq<T>, sep: T)
    ensures
        join(split(s, sep), sep) == s,
    decreases s.len(),
{
    if s.len() > 0 {
        lemma_join_split(s.drop_last(), sep);
        lemma_split_nonempty(s.drop_last(), sep);
        let front = split(s.drop_last(), sep);
        let all = split(s, sep);
        if s.last() == sep {
            assert(all.drop_last() =~= front);
            assert(join(all, sep) =~= s);
        } else {
            assert(all.drop_last() =~= front.drop_last());
            assert(all.last() == front.last().push(s.last()));
            assert(s =~= s.drop_last().push(s.last()));
            if all.len() == 1 {
                assert(join(front, sep) == front[0]);
                assert(join(all, sep) == all[0]);
            } else {
                let before = join(front.drop_last(), sep).push(sep);
                assert(before + front.last().push(s.last()) =~= (before + front.last()).push(
                    s.last(),
                ));
            }
        }
    } else {
        assert(join(split(s, sep), sep) =~= s);
    }
}

/// Splitting what was joined from separator-free pieces gives the pieces back.
pub proof fn lemma_split_join<T>(parts: Seq<Seq<T>>, sep: T)
    requires
        parts.len() >= 1,
        forall|i: int| 0 <= i < parts.len() ==> !(#[trigger] parts[i]).contains(sep),
    ensures
        split(join(parts, sep), sep) == parts,
    decreases parts.len(),
{
    if parts.len() == 1 {
        lemma_split_whole(parts[0], sep);
        assert(parts =~= seq![parts[0]]);
    } else {
        let front = parts.drop_last();
        assert(forall|i: int| 0 <= i < front.len() ==> front[i] == parts[i]);
        lemma_split_join(front, sep);
        lemma_split_concat(join(front, sep), parts.last(), sep);
        lemma_split_whole(parts.last(), sep);
        assert(front + seq![parts.last()] =~= parts);
    }
}

/// The pieces of a text between the occurrences of a character.
pub fn split_chars(s: &[char], sep: char) -> (parts: Vec<Vec<char>>)
    ensures
        views(parts@) == split(s@, sep),
{
    let mut done: Vec<Vec<char>> = Vec::new();
    let mut cur: Vec<char> = Vec::new();
    assert(views(done@).push(cur@) =~= split(s@.take(0), sep));
    for i in 0..s.len()
        invariant
            views(done@).push(cur@) == split(s@.take(i as int), sep),
    {
        let ghost before = split(s@.take(i as int), sep);
        let ghost old_done = done@;
        assert(s@.take(i + 1).drop_last() =~= s@.take(i as int));
        assert(before.last() == cur@);
        assert(before.drop_last() =~= views(done@));
        if s[i] == sep {
            done.push(cur);
            cur = Vec::new();
            assert(views(done@) =~= views(old_done).push(before.last()));
            assert(views(done@).push(cur@) =~= before.push(Seq::<char>::empty()));
        } else {
            cur.push(s[i]);
        }
    }
    assert(s@.take(s@.len() as int) =~= s@);
    let ghost old_done = done@;
    let ghost last = cur@;
    done.push(cur);
    assert(views(done@) =~= views(old_done).push(last));
    done
}

/// The pieces of a byte string between the occurrences of a byte.
pub fn split_bytes(s: &[u8], sep: u8) -> (parts: Vec<Vec<u8>>)
    ensures
        views(parts@) == split(s@, sep),
{
    let mut done: Vec<Vec<u8>> = Vec::new();
    let mut cur: Vec<u8> = Vec::new();
    assert(views(done@).push(cur@) =~= split(s@.take(0), sep));
    for i in 0..s.len()
        invariant
            views(done@).push(cur@) == split(s@.take(i as int), sep),
    {
        let ghost before = split(s@.take(i as int), sep);
        let ghost old_done = done@;
        assert(s@.take(i + 1).drop_last() =~= s@.take(i as int));
        assert(before.last() == cur@);
        assert(before.drop_last() =~= views(done@));
        if s[i] == sep {
            done.push(cur);
            cur = Vec::new();
            assert(views(done@) =~= views(old_done).push(before.last()));
            assert(views(done@).push(cur@) =~= before.push(Seq::<u8>::empty()));
        } else {
            cur.push(s[i]);
        }
    }
    assert(s@.take(s@.len() as int) =~= s@);
    let ghost old_done = done@;
    let ghost last = cur@;
    done.push(cur);
    assert(views(done@) =~= views(old_done).push(last));
    done
}

/// Strings seen as sequences of characters.
pub open spec fn texts(v: Seq<String>) -> Seq<Seq<char>> {
    v.map_values(|p: String| p@)
}

/// The strings joined with a character between them.
pub fn join_strings(parts: &[String], sep: char) -> (s: String)
    ensures
        s@ == join(texts(parts@), sep),
{
    let mut s = String::new();
    for i in 0..parts.len()
        invariant
            s@ == join(texts(parts@).take(i as int), sep),
    {
        let ghost all = texts(parts@);
        assert(all.take(i + 1).drop_last() =~= all.take(i as int));
        assert(all.take(i + 1).last() == parts@[i as int]@);
        if i > 0 {
            s.push(sep);
        }
        s.append(parts[i].as_str());
        assert(s@ =~= join(all.take(i + 1), sep));
    }
    assert(texts(parts@).take(parts@.len() as int) =~= texts(parts@));
    s
}

// ---------------------------------------------------------------------------------------
// Comparing
// ---------------------------------------------------------------------------------------

/// Whether two character slices hold the same text.
pub fn same_chars(a: &[char], b: &[char]) -> (r: bool)
    ensures
        r == (a@ == b@),
{
    if a.len() != b.len() {
        return false;
    }
    for i in 0..a.len()
        invariant
            a@.len() == b@.len(),
            forall|j: int| 0 <= j < i ==> a@[j] == b@[j],
    {
        if a[i] != b[i] {
            return false;
        }
    }
    assert(a@ =~= b@);
    true
}

/// Whether two strings hold the same text.
pub fn same_text(a: &str, b: &str) -> (r: bool)
    ensures
        r == (a@ == b@),
{
    let x = chars_of(a);
    let y = chars_of(b);
    same_chars(x.as_slice(), y.as_slice())
}

/// Whether two byte slices are equal.
pub fn same_bytes(a: &[u8], b: &[u8]) -> (r: bool)
    ensures
        r == (a@ == b@),
{
    if a.len() != b.len() {
        return false;
    }
    for i in 0..a.len()
        invariant
            a@.len() == b@.len(),
            forall|j: int| 0 <= j < i ==> a@[j] == b@[j],
    {
        if a[i] != b[i] {
            return false;
        }
    }
    assert(a@ =~= b@);
    true
}

/// Whether the text holds the character.
pub fn has_char(s: &[char], c: char) -> (r: bool)
    ensures
        r == s@.contains(c),
{
    for i in 0..s.len()
        invariant
            forall|j: int| 0 <= j < i ==> s@[j] != c,
    {
        if s[i] == c {
            return true;
        }
    }
    false
}

/// What follows the prefix, where the text starts with it.
pub open spec fn after_prefix(s: Seq<char>, prefix: Seq<char>) -> Option<Seq<char>> {
    if prefix.is_prefix_of(s) {
        Some(s.skip(prefix.len() as int))
    } else {
        None
    }
}

/// Whether the text starts with the prefix.
pub fn has_prefix(s: &[char], prefix: &[char]) -> (r: bool)
    ensures
        r == prefix@.is_prefix_of(s@),
{
    if s.len() < prefix.len() {
        return false;
    }
    for i in 0..prefix.len()
        invariant
            prefix@.len() <= s@.len(),
            forall|j: int| 0 <= j < i ==> s@[j] == prefix@[j],
    {
        if s[i] != prefix[i] {
            assert(s@.subrange(0, prefix@.len() as int)[i as int] != prefix@[i as int]);
            return false;
        }
    }
    assert(prefix@ =~= s@.subrange(0, prefix@.len() as int));
    true
}

/// Whether the text ends with the suffix.
pub fn has_suffix(s: &[char], suffix: &[char]) -> (r: bool)
    ensures
        r == suffix@.is_suffix_of(s@),
{
    if s.len() < suffix.len() {
        return false;
    }
    let off: usize = s.len() - suffix.len();
    for i in 0..suffix.len()
        invariant
            off + suffix.len() == s.len(),
            forall|j: int| 0 <= j < i ==> s@[off + j] == suffix@[j],
    {
        if s[off + i] != suffix[i] {
            assert(s@.subrange(off as int, s@.len() as int)[i as int] != suffix@[i as int]);
            return false;
        }
    }
    assert(suffix@ =~= s@.subrange(off as int, s@.len() as int));
    true
}

/// The characters from `from` up to `to`.
pub fn slice_chars(s: &[char], from: usize, to: usize) -> (r: Vec<char>)
    requires
        from <= to <= s@.len(),
    ensures
        r@ == s@.subrange(from as int, to as int),
{
    let mut r: Vec<char> = Vec::new();
    for i in from..to
        invariant
            from <= to <= s@.len(),
            r@ == s@.subrange(from as int, i as int),
    {
        r.push(s[i]);
        assert(s@.subrange(from as int, i + 1) =~= s@.subrange(from as int, i as int).push(
            s@[i as int],
        ));
    }
    r
}

/// Whether `a` stands before `b` in the order of code points, which is also that of the bytes.
pub open spec fn precedes(a: Seq<char>, b: Seq<char>) -> bool
    decreases a.len(),
{
    if b.len() == 0 {
        false
    } else if a.len() == 0 {
        true
    } else if a[0] != b[0] {
        a[0] < b[0]
    } else {
        precedes(a.skip(1), b.skip(1))
    }
}

/// Of two texts that differ, exactly one precedes the other.
pub proof fn lemma_precedes_total(a: Seq<char>, b: Seq<char>)
    ensures
        a == b ==> !precedes(a, b),
        a != b ==> precedes(a, b) != precedes(b, a),
    decreases a.len(),
{
    if a.len() == 0 && b.len() == 0 {
        assert(a =~= b);
    } else if a.len() > 0 && b.len() > 0 && a[0] == b[0] {
        lemma_precedes_total(a.skip(1), b.skip(1));
        if a.skip(1) == b.skip(1) {
            assert(a =~= seq![a[0]] + a.skip(1));
            assert(b =~= seq![b[0]] + b.skip(1));
        }
    }
}

/// The order is transitive.
pub proof fn lemma_precedes_transitive(a: Seq<char>, b: Seq<char>, c: Seq<char>)
    requires
        precedes(a, b),
        precedes(b, c),
    ensures
        precedes(a, c),
    decreases a.len(),
{
    if a.len() > 0 && a[0] == b[0] && b[0] == c[0] {
        lemma_precedes_transitive(a.skip(1), b.skip(1), c.skip(1));
    }
}

/// Whether `a` stands before `b` in the order of code points.
pub fn text_precedes(a: &str, b: &str) -> (r: bool)
    ensures
        r == precedes(a@, b@),
{
    let x = chars_of(a);
    let y = chars_of(b);
    let mut i: usize = 0;
    assert(x@.skip(0) =~= x@);
    assert(y@.skip(0) =~= y@);
    while i < x.len() && i < y.len() && x[i] == y[i]
        invariant
            i <= x.len(),
            i <= y.len(),
            precedes(x@, y@) == precedes(x@.skip(i as int), y@.skip(i as int)),
        decreases x.len() - i,
    {
        assert(x@.skip(i as int).skip(1) =~= x@.skip(i + 1));
        assert(y@.skip(i as int).skip(1) =~= y@.skip(i + 1));
        i = i + 1;
    }
    if i == y.len() {
        false
    } else if i == x.len() {
        true
    } else {
        assert(x@.skip(i as int)[0] == x@[i as int]);
        assert(y@.skip(i as int)[0] == y@[i as int]);
        x[i] < y[i]
    }
}

// ---------------------------------------------------------------------------------------
// Letter case and white space
// ---------------------------------------------------------------------------------------

/// The lower-case form of an ASCII letter; any other character unchanged.
pub open spec fn ascii_lower_char(c: char) -> char {
    if 'A' <= c <= 'Z' {
        (c as u32 + 32) as char
    } else {
        c
    }
}

/// The text with its ASCII letters in lower case.
pub open spec fn ascii_lower(s: Seq<char>) -> Seq<char> {
    s.map_values(|c: char| ascii_lower_char(c))
}

/// The text with its ASCII letters in lower case.
pub fn lower_chars(s: &[char]) -> (r: Vec<char>)
    ensures
        r@ == ascii_lower(s@),
{
    let mut r: Vec<char> = Vec::new();
    for i in 0..s.len()
        invariant
            r@ == ascii_lower(s@.take(i as int)),
    {
        let c: char = s[i];
        if 'A' <= c && c <= 'Z' {
            r.push((c as u8 + 32) as char);
        } else {
            r.push(c);
        }
        assert(ascii_lower(s@.take(i + 1)) =~= ascii_lower(s@.take(i as int)).push(
            ascii_lower_char(c),
        ));
    }
    assert(s@.take(s@.len() as int) =~= s@);
    r
}

/// The text with one character in place of another.
pub open spec fn replace_char(s: Seq<char>, from: char, to: char) -> Seq<char> {
    s.map_values(
        |c: char|
            if c == from {
                to
            } else {
                c
            },
    )
}

/// The text with one character in place of another.
pub fn replace_chars(s: &[char], from: char, to: char) -> (r: Vec<char>)
    ensures
        r@ == replace_char(s@, from, to),
{
    let mut r: Vec<char> = Vec::new();
    for i in 0..s.len()
        invariant
            r@ == replace_char(s@.take(i as int), from, to),
    {
        if s[i] == from {
            r.push(to);
        } else {
            r.push(s[i]);
        }
        assert(r@ =~= replace_char(s@.take(i + 1), from, to));
    }
    assert(s@.take(s@.len() as int) =~= s@);
    r
}

/// The characters with the Unicode property `White_Space`.
pub open spec fn is_white_space(c: char) -> bool {
    ||| '\u{9}' <= c <= '\u{d}'
    ||| c == '\u{20}'
    ||| c == '\u{85}'
    ||| c == '\u{a0}'
    ||| c == '\u{1680}'
    ||| '\u{2000}' <= c <= '\u{200a}'
    ||| c == '\u{2028}'
    ||| c == '\u{2029}'
    ||| c == '\u{202f}'
    ||| c == '\u{205f}'
    ||| c == '\u{3000}'
}

fn white_space(c: char) -> (r: bool)
    ensures
        r == is_white_space(c),
{
    ('\u{9}' <= c && c <= '\u{d}') || c == '\u{20}' || c == '\u{85}' || c == '\u{a0}' || c
        == '\u{1680}' || ('\u{2000}' <= c && c <= '\u{200a}') || c == '\u{2028}' || c == '\u{2029}'
        || c == '\u{202f}' || c == '\u{205f}' || c == '\u{3000}'
}

/// The text without white space at either end.
pub open spec fn trim(s: Seq<char>) -> Seq<char>
    decreases s.len(),
{
    if s.len() > 0 && is_white_space(s[0]) {
        trim(s.skip(1))
    } else if s.len() > 0 && is_white_space(s.last()) {
        trim(s.drop_last())
    } else {
        s
    }
}

/// Whether the text starts and ends with something else than white space.
pub open spec fn is_trimmed(s: Seq<char>) -> bool {
    s.len() > 0 && !is_white_space(s[0]) && !is_white_space(s.last())
}

/// Nothing is taken from a text that is trimmed.
pub proof fn lemma_trim_trimmed(s: Seq<char>)
    requires
        is_trimmed(s),
    ensures
        trim(s) == s,
{
}

/// White space in front is taken off.
pub proof fn lemma_trim_leading(c: char, s: Seq<char>)
    requires
        is_white_space(c),
    ensures
        trim(seq![c] + s) == trim(s),
{
    let all = seq![c] + s;
    assert(all[0] == c);
    assert(all.skip(1) =~= s);
}

/// The text without white space at either end.
pub fn trim_chars(s: &[char]) -> (r: Vec<char>)
    ensures
        r@ == trim(s@),
{
    let mut from: usize = 0;
    let mut to: usize = s.len();
    assert(s@.subrange(0, s@.len() as int) =~= s@);
    while from < to && white_space(s[from])
        invariant
            from <= to,
            to == s@.len(),
            trim(s@) == trim(s@.subrange(from as int, to as int)),
        decreases to - from,
    {
        assert(s@.subrange(from as int, to as int).skip(1) =~= s@.subrange(from + 1, to as int));
        from = from + 1;
    }
    while from < to && white_space(s[to - 1])
        invariant
            from <= to <= s@.len(),
            from < to ==> !is_white_space(s@[from as int]),
            trim(s@) == trim(s@.subrange(from as int, to as int)),
        decreases to - from,
    {
        assert(s@.subrange(from as int, to as int).drop_last() =~= s@.subrange(
            from as int,
            to - 1,
        ));
        to = to - 1;
    }
    slice_chars(s, from, to)
}

// ---------------------------------------------------------------------------------------
// Numbers
// ---------------------------------------------------------------------------------------

/// The value of a digit in the given radix, ten or sixteen; either letter case counts.
pub open spec fn digit(c: char, radix: nat) -> Option<nat> {
    if '0' <= c <= '9' {
        Some((c as nat - 48) as nat)
    } else if radix == 16 && 'a' <= c <= 'f' {
        Some((c as nat - 87) as nat)
    } else if radix == 16 && 'A' <= c <= 'F' {
        Some((c as nat - 55) as nat)
    } else {
        None
    }
}

/// The digit of the given value, letters in lower case.
pub open spec fn digit_char(d: nat) -> char {
    if d < 10 {
        (48 + d) as char
    } else {
        (87 + d) as char
    }
}

/// Whether the text is made of digits alone.
pub open spec fn all_digits(s: Seq<char>, radix: nat) -> bool {
    forall|i: int| 0 <= i < s.len() ==> digit(#[trigger] s[i], radix) is Some
}

/// The number that a text of digits writes.
pub open spec fn digits_value(s: Seq<char>, radix: nat) -> nat
    decreases s.len(),
{
    if s.len() == 0 {
        0
    } else {
        digits_value(s.drop_last(), radix) * radix + digit(s.last(), radix).unwrap_or(0)
    }
}

/// The digits of a number, without leading zeros.
pub open spec fn number_text(n: nat, radix: nat) -> Seq<char>
    decreases n,
    when radix == 10 || radix == 16
{
    if n < radix {
        seq![digit_char(n)]
    } else {
        number_text(n / radix, radix).push(digit_char(n % radix))
    }
}

/// The number in decimal.
pub open spec fn decimal(n: nat) -> Seq<char> {
    number_text(n, 10)
}

/// A text of one or more digits whose value is at most `max`.
pub open spec fn number(s: Seq<char>, radix: nat, max: nat) -> Option<nat> {
    if s.len() > 0 && all_digits(s, radix) && digits_value(s, radix) <= max {
        Some(digits_value(s, radix))
    } else {
        None
    }
}

/// An unsigned decimal number of at most `max`, with an optional plus sign in front.
pub open spec fn unsigned(s: Seq<char>, max: nat) -> Option<nat> {
    if s.len() > 0 && s[0] == '+' {
        number(s.skip(1), 10, max)
    } else {
        number(s, 10, max)
    }
}

/// A longer text of digits writes no smaller number.
proof fn lemma_digits_value_grows(s: Seq<char>, i: int, radix: nat)
    requires
        0 <= i <= s.len(),
        radix == 10 || radix == 16,
    ensures
        digits_value(s.take(i), radix) <= digits_value(s, radix),
    decreases s.len() - i,
{
    if i < s.len() {
        lemma_digits_value_grows(s, i + 1, radix);
        assert(s.take(i + 1).drop_last() =~= s.take(i));
        let v = digits_value(s.take(i), radix);
        assert(v <= v * radix) by (nonlinear_arith)
            requires
                radix == 10 || radix == 16,
                v >= 0,
        ;
    } else {
        assert(s.take(i) =~= s);
    }
}

/// Reads a text of one or more digits.
pub fn read_number(s: &[char], radix: u64, max: u64) -> (r: Option<u64>)
    requires
        radix == 10 || radix == 16,
    ensures
        r matches Some(n) ==> number(s@, radix as nat, max as nat) == Some(n as nat),
        r is None ==> number(s@, radix as nat, max as nat) is None,
{
    if s.len() == 0 {
        return None;
    }
    let mut acc: u64 = 0;
    for i in 0..s.len()
        invariant
            radix == 10 || radix == 16,
            acc <= max,
            acc == digits_value(s@.take(i as int), radix as nat),
            forall|j: int| 0 <= j < i ==> digit(#[trigger] s@[j], radix as nat) is Some,
    {
        let c: char = s[i];
        let d: u64 = if '0' <= c && c <= '9' {
            c as u64 - 48
        } else if radix == 16 && 'a' <= c && c <= 'f' {
            c as u64 - 87
        } else if radix == 16 && 'A' <= c && c <= 'F' {
            c as u64 - 55
        } else {
            assert(digit(s@[i as int], radix as nat) is None);
            return None;
        };
        proof {
            assert(s@.take(i + 1).drop_last() =~= s@.take(i as int));
            lemma_digits_value_grows(s@, i + 1, radix as nat);
        }
        assert(digits_value(s@.take(i + 1), radix as nat) == acc * radix + d);
        if acc > (u64::MAX - d) / radix {
            assert(acc * radix + d > u64::MAX) by (nonlinear_arith)
                requires
                    radix == 10 || radix == 16,
                    acc > (u64::MAX - d) / radix as int,
                    0 <= d <= 15,
            ;
            return None;
        }
        assert(acc * radix + d <= u64::MAX) by (nonlinear_arith)
            requires
                radix == 10 || radix == 16,
                acc <= (u64::MAX - d) / radix as int,
                0 <= d <= 15,
        ;
        acc = acc * radix + d;
        if acc > max {
            return None;
        }
    }
    assert(s@.take(s@.len() as int) =~= s@);
    Some(acc)
}

/// Reads an unsigned decimal number.
pub fn read_unsigned(s: &[char], max: u64) -> (r: Option<u64>)
    ensures
        r matches Some(n) ==> unsigned(s@, max as nat) == Some(n as nat),
        r is None ==> unsigned(s@, max as nat) is None,
{
    if s.len() > 0 && s[0] == '+' {
        let rest = slice_chars(s, 1, s.len());
        assert(rest@ =~= s@.skip(1));
        read_number(rest.as_slice(), 10, max)
    } else {
        read_number(s, 10, max)
    }
}

/// The digits of a number read back as that number.
pub proof fn lemma_number_text(n: nat, radix: nat)
    requires
        radix == 10 || radix == 16,
    ensures
        number_text(n, radix).len() >= 1,
        all_digits(number_text(n, radix), radix),
        digits_value(number_text(n, radix), radix) == n,
        number_text(n, radix).len() > 1 ==> number_text(n, radix)[0] != '0',
        number_text(n, radix)[0] == '0' ==> n == 0,
    decreases n,
{
    let t = number_text(n, radix);
    if n < radix {
        assert(t.drop_last() =~= Seq::<char>::empty());
        assert(digits_value(t.drop_last(), radix) == 0);
    } else {
        let q = n / radix;
        lemma_number_text(q, radix);
        assert(t.drop_last() =~= number_text(q, radix));
        assert(q * radix + n % radix == n) by (nonlinear_arith)
            requires
                radix == 10 || radix == 16,
                q == n / radix,
        ;
        assert(t[0] == number_text(q, radix)[0]);
        assert(q > 0);
    }
}

/// Writes a number in the given radix, ten or sixteen.
pub fn write_number(n: u64, radix: u64) -> (s: Vec<char>)
    requires
        radix == 10 || radix == 16,
    ensures
        s@ == number_text(n as nat, radix as nat),
    decreases n,
{
    let mut s: Vec<char> = if n < radix {
        Vec::new()
    } else {
        write_number(n / radix, radix)
    };
    let d: u8 = (n % radix) as u8;
    if d < 10 {
        s.push((48 + d) as char);
    } else {
        s.push((87 + d) as char);
    }
    assert(s@ =~= number_text(n as nat, radix as nat));
    s
}

/// Writes a number in decimal.
pub fn decimal_string(n: u64) -> (s: String)
    ensures
        s@ == decimal(n as nat),
{
    let v = write_number(n, 10);
    string_of(v.as_slice())
}

/// Splitting starts with what stands before the first separator.
pub proof fn lemma_split_first<T>(s: Seq<T>, sep: T)
    ensures
        split(s, sep).len() >= 1,
        !split(s, sep)[0].contains(sep),
        s == split(s, sep)[0] || split(s, sep)[0].push(sep).is_prefix_of(s),
        !s.contains(sep) ==> split(s, sep)[0] == s,
    decreases s.len(),
{
    lemma_split_nonempty(s, sep);
    lemma_split_free(s, sep);
    let head = split(s, sep)[0];
    assert(!head.contains(sep));
    if !s.contains(sep) {
        lemma_split_whole(s, sep);
    }
    if s.len() > 0 {
        let front = s.drop_last();
        lemma_split_first(front, sep);
        let before = split(front, sep);
        if before[0].push(sep).is_prefix_of(front) {
            let k = before[0].len() + 1;
            assert(before[0].push(sep) =~= front.subrange(0, k as int));
            assert(front.subrange(0, k as int) =~= s.subrange(0, k as int));
            if before.len() == 1 {
                lemma_join_split(front, sep);
                assert(join(before, sep) == before[0]);
            }
            assert(head == before[0]);
        } else {
            assert(front == before[0]);
            lemma_split_whole(front, sep);
            if s.last() == sep {
                assert(head == front);
                assert(head.push(sep) =~= s);
                assert(s =~= s.subrange(0, s.len() as int));
            } else {
                assert(head =~= s);
            }
        }
    } else {
        assert(head =~= s);
    }
}

/// Of two texts the one comes first that has the smaller character at the first place where they
/// differ, or that ends there.
pub proof fn law_first_difference_decides(
    common: Seq<char>,
    x: char,
    y: char,
    a: Seq<char>,
    b: Seq<char>,
)
    requires
        x < y,
    ensures
        precedes(common + seq![x] + a, common + seq![y] + b),
        precedes(common, common + seq![x] + a),
    decreases common.len(),
{
    let s = common + seq![x] + a;
    let t = common + seq![y] + b;
    if common.len() == 0 {
        assert(s[0] == x && t[0] == y);
    } else {
        let rest = common.skip(1);
        law_first_difference_decides(rest, x, y, a, b);
        assert(s.skip(1) =~= rest + seq![x] + a);
        assert(t.skip(1) =~= rest + seq![y] + b);
        assert(s[0] == common[0] && t[0] == common[0]);
    }
}

/// What is taken off at either end is white space, and no more of it is left there.
pub proof fn law_trim(before: Seq<char>, s: Seq<char>, after: Seq<char>)
    requires
        forall|i: int| 0 <= i < before.len() ==> is_white_space(#[trigger] before[i]),
        forall|i: int| 0 <= i < after.len() ==> is_white_space(#[trigger] after[i]),
        s.len() > 0 ==> !is_white_space(s[0]) && !is_white_space(s.last()),
    ensures
        trim(before + s + after) == s,
    decreases before.len() + after.len(),
{
    let all = before + s + after;
    if before.len() > 0 {
        let rest = before.skip(1);
        assert(forall|i: int| 0 <= i < rest.len() ==> rest[i] == before[i + 1]);
        law_trim(rest, s, after);
        assert(all[0] == before[0]);
        assert(all.skip(1) =~= rest + s + after);
    } else if after.len() > 0 {
        let rest = after.drop_last();
        assert(forall|i: int| 0 <= i < rest.len() ==> rest[i] == after[i]);
        if s.len() > 0 {
            law_trim(before, s, rest);
            assert(all[0] == s[0]);
            assert(all.last() == after[after.len() - 1]);
            assert(all.drop_last() =~= before + s + rest);
        } else {
            let tail = after.skip(1);
            assert(forall|i: int| 0 <= i < tail.len() ==> tail[i] == after[i + 1]);
            law_trim(before, s, tail);
            assert(all[0] == after[0]);
            assert(all.skip(1) =~= before + s + tail);
        }
    } else {
        assert(all =~= s);
    }
}

/// A number is read where its digits write it and it is not too large, with or without a plus sign.
/// A text with any other character in it is no number, nor is one without a digit.
pub proof fn law_unsigned(n: nat, max: nat, s: Seq<char>, at: int)
    ensures
        n <= max ==> unsigned(decimal(n), max) == Some(n),
        n > max ==> unsigned(decimal(n), max) is None,
        n <= max ==> unsigned(seq!['+'] + decimal(n), max) == Some(n),
        unsigned(Seq::empty(), max) is None,
        unsigned(seq!['+'], max) is None,
        unsigned(s, max) matches Some(m) ==> m <= max,
        0 <= at < s.len() && !('0' <= s[at] <= '9') && !(at == 0 && s[at] == '+') ==> unsigned(
            s,
            max,
        ) is None,
{
    lemma_number_text(n, 10);
    let t = decimal(n);
    assert(digit(t[0], 10) is Some);
    assert(t[0] != '+');
    let plus = seq!['+'] + t;
    assert(plus[0] == '+');
    assert(plus.skip(1) =~= t);
    assert(seq!['+'].skip(1) =~= Seq::<char>::empty());
    if 0 <= at < s.len() && !('0' <= s[at] <= '9') && !(at == 0 && s[at] == '+') {
        assert(digit(s[at], 10) is None);
        if s[0] == '+' {
            assert(s.skip(1)[at - 1] == s[at]);
        }
    }
}

/// Letters of ASCII change their case and nothing else does.
pub proof fn law_ascii_lower_char(c: char)
    ensures
        !('A' <= c <= 'Z') ==> ascii_lower_char(c) == c,
        'A' <= c <= 'Z' ==> 'a' <= ascii_lower_char(c) <= 'z' && ascii_lower_char(c) as int
            == c as int + 32,
{
    if 'A' <= c <= 'Z' {
        let u = c as u32;
        assert(65 <= u <= 90);
    }
}

proof fn lemma_digit_char(c: char)
    requires
        digit(c, 10) is Some,
    ensures
        digit(c, 10).unwrap() < 10,
        digit_char(digit(c, 10).unwrap()) == c,
        digit(c, 10).unwrap() == 0 <==> c == '0',
{
}

/// Digits without a zero in front are those of the number that they write.
pub proof fn lemma_decimal_is_unique(s: Seq<char>)
    requires
        s.len() > 0,
        all_digits(s, 10),
        s.len() > 1 ==> s[0] != '0',
    ensures
        decimal(digits_value(s, 10)) == s,
        s[0] != '0' ==> digits_value(s, 10) > 0,
    decreases s.len(),
{
    let front = s.drop_last();
    let c = s.last();
    assert(digit(s[s.len() - 1], 10) is Some);
    lemma_digit_char(c);
    let d = digit(c, 10).unwrap();
    if s.len() == 1 {
        assert(front =~= Seq::<char>::empty());
        assert(digits_value(front, 10) == 0);
        assert(digits_value(s, 10) == d);
        assert(decimal(d) =~= s);
    } else {
        assert(forall|i: int| 0 <= i < front.len() ==> front[i] == s[i]);
        assert(all_digits(front, 10)) by {
            assert forall|i: int| 0 <= i < front.len() implies digit(#[trigger] front[i], 10)
                is Some by {
                assert(digit(s[i], 10) is Some);
            }
        }
        assert(front[0] == s[0]);
        lemma_decimal_is_unique(front);
        let q = digits_value(front, 10);
        let n = digits_value(s, 10);
        assert(n == q * 10 + d);
        assert(n / 10 == q && n % 10 == d);
        assert(n >= 10);
        assert(decimal(n) =~= front.push(c));
        assert(front.push(c) =~= s);
    }
}

/// Lists are looked at item by item: none is left out, added or moved.
pub proof fn law_texts(v: Seq<String>, w: Seq<Vec<char>>, i: int)
    ensures
        texts(v).len() == v.len(),
        views(w).len() == w.len(),
        0 <= i < v.len() ==> texts(v)[i] == v[i]@,
        0 <= i < w.len() ==> views(w)[i] == w[i]@,
{
}

/// What follows a prefix is what has to be put behind it.
pub proof fn law_after_prefix(prefix: Seq<char>, rest: Seq<char>, s: Seq<char>)
    ensures
        after_prefix(prefix + rest, prefix) == Some(rest),
        after_prefix(s, prefix) matches Some(r) ==> s == prefix + r,
{
    let all = prefix + rest;
    assert(prefix =~= all.subrange(0, prefix.len() as int));
    assert(all.skip(prefix.len() as int) =~= rest);
    if prefix.is_prefix_of(s) {
        assert(prefix =~= s.subrange(0, prefix.len() as int));
        assert(s =~= prefix + s.skip(prefix.len() as int));
    }
}

/// The space, the tabulator and the ends of a line are white space, and no character of ASCII that
/// can be seen is.
pub proof fn law_white_space(c: char)
    ensures
        c == ' ' || c == '\t' || c == '\n' || c == '\r' ==> is_white_space(c),
        '!' <= c <= '~' ==> !is_white_space(c),
{
}

}
