//! Operations on text, stated on sequences of characters.

use vstd::prelude::*;
use vstd::string::*;
use vstd::utf8::*;

verus! {

/// The characters with the Unicode property `White_Space`.
pub open spec fn white_space(c: char) -> bool {
    let n = c as u32;
    ||| 0x09 <= n <= 0x0d
    ||| n == 0x20
    ||| n == 0x85
    ||| n == 0xa0
    ||| n == 0x1680
    ||| 0x2000 <= n <= 0x200a
    ||| n == 0x2028
    ||| n == 0x2029
    ||| n == 0x202f
    ||| n == 0x205f
    ||| n == 0x3000
}

/// `s` without leading white space.
pub open spec fn trimmed_start(s: Seq<char>) -> Seq<char>
    decreases s.len(),
{
    if s.len() > 0 && white_space(s[0]) {
        trimmed_start(s.drop_first())
    } else {
        s
    }
}

/// `s` without trailing white space.
pub open spec fn trimmed_end(s: Seq<char>) -> Seq<char>
    decreases s.len(),
{
    if s.len() > 0 && white_space(s.last()) {
        trimmed_end(s.drop_last())
    } else {
        s
    }
}

/// `s` without white space at either end.
pub open spec fn trimmed(s: Seq<char>) -> Seq<char> {
    trimmed_end(trimmed_start(s))
}

/// The pieces of `s` between occurrences of `separator`.
pub open spec fn pieces(s: Seq<char>, separator: char) -> Seq<Seq<char>>
    decreases s.len(),
{
    if s.len() == 0 {
        seq![Seq::empty()]
    } else {
        let before = pieces(s.drop_last(), separator);
        if s.last() == separator {
            before.push(Seq::empty())
        } else {
            before.drop_last().push(before.last().push(s.last()))
        }
    }
}

/// The words of `s`: its longest runs of characters that are not white space.
pub open spec fn words(s: Seq<char>) -> Seq<Seq<char>>
    decreases s.len(),
{
    if s.len() == 0 {
        Seq::empty()
    } else {
        let before = words(s.drop_last());
        if white_space(s.last()) {
            before
        } else if s.len() == 1 || white_space(s[s.len() - 2]) {
            before.push(seq![s.last()])
        } else {
            before.drop_last().push(before.last().push(s.last()))
        }
    }
}

/// `c` with an upper-case ASCII letter made lower-case.
pub open spec fn lower(c: char) -> char {
    if 'A' <= c <= 'Z' {
        ((c as u32) + 32) as char
    } else {
        c
    }
}

/// Whether the two differ at most in the case of ASCII letters.
pub open spec fn same_but_case(a: Seq<char>, b: Seq<char>) -> bool {
    a.len() == b.len() && forall|i: int| 0 <= i < a.len() ==> lower(a[i]) == lower(#[trigger] b[i])
}

/// `s` with each occurrence of `from`, taken from the left without overlap,
/// replaced by `to`.
pub open spec fn replaced(s: Seq<char>, from: Seq<char>, to: Seq<char>) -> Seq<char>
    decreases s.len(),
{
    if s.len() == 0 || from.len() == 0 {
        s
    } else if from.is_prefix_of(s) {
        to + replaced(s.skip(from.len() as int), from, to)
    } else {
        seq![s[0]] + replaced(s.drop_first(), from, to)
    }
}

/// The texts that a vector of string slices holds.
pub open spec fn texts(v: Seq<&str>) -> Seq<Seq<char>> {
    Seq::new(v.len(), |i: int| v[i]@)
}

pub fn is_white_space(c: char) -> (r: bool)
    ensures
        r == white_space(c),
{
    let n: u32 = c as u32;
    (0x09 <= n && n <= 0x0d) || n == 0x20 || n == 0x85 || n == 0xa0 || n == 0x1680 || (0x2000 <= n
        && n <= 0x200a) || n == 0x2028 || n == 0x2029 || n == 0x202f || n == 0x205f || n == 0x3000
}

/// The characters of `s`.
pub fn chars_of(s: &str) -> (r: Vec<char>)
    ensures
        r@ == s@,
{
    let mut r: Vec<char> = Vec::new();
    for c in it: s.chars()
        invariant
            it.seq() == s@,
            r@ =~= s@.take(it.index() as int),
    {
        r.push(c);
    }
    assert(s@.take(s@.len() as int) =~= s@);
    r
}

/// `s` without white space at either end.
pub fn trim<'a>(s: &'a str) -> (r: &'a str)
    ensures
        r@ == trimmed(s@),
{
    let chars: Vec<char> = chars_of(s);
    let n: usize = chars.len();
    let mut from: usize = 0;
    assert(s@.skip(0) =~= s@);
    while from < n && is_white_space(chars[from])
        invariant
            n == chars@.len(),
            chars@ == s@,
            from <= n,
            trimmed_start(s@) == trimmed_start(s@.skip(from as int)),
        decreases n - from,
    {
        assert(s@.skip(from as int).drop_first() =~= s@.skip(from as int + 1));
        from = from + 1;
    }
    let ghost rest = s@.skip(from as int);
    let mut to: usize = n;
    assert(rest =~= s@.subrange(from as int, to as int));
    while to > from && is_white_space(chars[to - 1])
        invariant
            n == chars@.len(),
            chars@ == s@,
            from <= to <= n,
            trimmed(s@) == trimmed_end(s@.subrange(from as int, to as int)),
        decreases to,
    {
        assert(s@.subrange(from as int, to as int).drop_last() =~= s@.subrange(
            from as int,
            to as int - 1,
        ));
        to = to - 1;
    }
    s.substring_char(from, to)
}

/// The pieces of `s` between occurrences of `separator`.
pub fn split<'a>(s: &'a str, separator: char) -> (r: Vec<&'a str>)
    ensures
        texts(r@) == pieces(s@, separator),
{
    let chars: Vec<char> = chars_of(s);
    let n: usize = chars.len();
    let mut r: Vec<&'a str> = Vec::new();
    let mut start: usize = 0;
    assert(s@.take(0) =~= Seq::empty());
    assert(s@.subrange(0, 0) =~= Seq::empty());
    assert(texts(r@).push(Seq::empty()) =~= pieces(s@.take(0), separator));
    for i in 0..n
        invariant
            n == chars@.len(),
            chars@ == s@,
            start <= i,
            texts(r@).push(s@.subrange(start as int, i as int)) == pieces(
                s@.take(i as int),
                separator,
            ),
    {
        proof {
            let t = s@.take(i as int + 1);
            assert(t.drop_last() =~= s@.take(i as int));
            assert(pieces(s@.take(i as int), separator).drop_last() =~= texts(r@));
            assert(s@.subrange(start as int, i as int).push(s@[i as int]) =~= s@.subrange(
                start as int,
                i as int + 1,
            ));
            assert(s@.subrange(i as int + 1, i as int + 1) =~= Seq::empty());
        }
        if chars[i] == separator {
            let ghost before = r@;
            r.push(s.substring_char(start, i));
            start = i + 1;
            assert(texts(r@) =~= texts(before).push(r@.last()@));
        }
    }
    let ghost before = r@;
    r.push(s.substring_char(start, n));
    assert(texts(r@) =~= texts(before).push(r@.last()@));
    assert(s@.take(n as int) =~= s@);
    r
}

/// The words of `s`.
pub fn split_words<'a>(s: &'a str) -> (r: Vec<&'a str>)
    ensures
        texts(r@) == words(s@),
{
    let chars: Vec<char> = chars_of(s);
    let n: usize = chars.len();
    let mut r: Vec<&'a str> = Vec::new();
    // The word that is being read starts here, if one is.
    let mut start: Option<usize> = None;
    assert(s@.take(0) =~= Seq::empty());
    assert(texts(r@) =~= words(s@.take(0)));
    for i in 0..n
        invariant
            n == chars@.len(),
            chars@ == s@,
            start is None ==> i == 0 || white_space(s@[i - 1]),
            start is None ==> texts(r@) == words(s@.take(i as int)),
            start matches Some(k) ==> k < i && !white_space(s@[i - 1]) && texts(r@).push(
                s@.subrange(k as int, i as int),
            ) == words(s@.take(i as int)),
    {
        proof {
            let t = s@.take(i as int + 1);
            assert(t.drop_last() =~= s@.take(i as int));
            if start is Some {
                let k = start->0;
                assert(words(s@.take(i as int)).drop_last() =~= texts(r@));
                assert(s@.subrange(k as int, i as int).push(s@[i as int]) =~= s@.subrange(
                    k as int,
                    i as int + 1,
                ));
            }
            assert(s@.subrange(i as int, i as int + 1) =~= seq![s@[i as int]]);
        }
        if is_white_space(chars[i]) {
            if let Some(k) = start {
                let ghost before = r@;
                r.push(s.substring_char(k, i));
                assert(texts(r@) =~= texts(before).push(r@.last()@));
                start = None;
            }
        } else if start.is_none() {
            start = Some(i);
        }
    }
    assert(s@.take(n as int) =~= s@);
    if let Some(k) = start {
        let ghost before = r@;
        r.push(s.substring_char(k, n));
        assert(texts(r@) =~= texts(before).push(r@.last()@));
    }
    r
}

/// Whether the two texts are equal.
pub fn same_text(a: &str, b: &str) -> (r: bool)
    ensures
        r == (a@ == b@),
{
    let x: Vec<char> = chars_of(a);
    let y: Vec<char> = chars_of(b);
    if x.len() != y.len() {
        return false;
    }
    let n: usize = x.len();
    for i in 0..n
        invariant
            n == x@.len() == y@.len(),
            x@ == a@,
            y@ == b@,
            forall|j: int| 0 <= j < i ==> x@[j] == y@[j],
    {
        if x[i] != y[i] {
            return false;
        }
    }
    assert(a@ =~= b@);
    true
}

/// Whether `s` starts with `prefix`.
pub fn starts_with(s: &str, prefix: &str) -> (r: bool)
    ensures
        r == prefix@.is_prefix_of(s@),
{
    let n: usize = s.unicode_len();
    let m: usize = prefix.unicode_len();
    if m > n {
        return false;
    }
    same_text(s.substring_char(0, m), prefix)
}

/// Whether `s` ends with `suffix`.
pub fn ends_with(s: &str, suffix: &str) -> (r: bool)
    ensures
        r == suffix@.is_suffix_of(s@),
{
    let n: usize = s.unicode_len();
    let m: usize = suffix.unicode_len();
    if m > n {
        return false;
    }
    same_text(s.substring_char(n - m, n), suffix)
}

pub fn to_lower(c: char) -> (r: char)
    ensures
        r == lower(c),
{
    if 'A' <= c && c <= 'Z' {
        ((c as u8) + 32) as char
    } else {
        c
    }
}

/// Whether the two differ at most in the case of ASCII letters.
pub fn equal_but_case(a: &str, b: &str) -> (r: bool)
    ensures
        r == same_but_case(a@, b@),
{
    let x: Vec<char> = chars_of(a);
    let y: Vec<char> = chars_of(b);
    if x.len() != y.len() {
        return false;
    }
    let n: usize = x.len();
    for i in 0..n
        invariant
            n == x@.len() == y@.len(),
            x@ == a@,
            y@ == b@,
            forall|j: int| 0 <= j < i ==> lower(x@[j]) == lower(#[trigger] y@[j]),
    {
        if to_lower(x[i]) != to_lower(y[i]) {
            return false;
        }
    }
    true
}

/// `s` with each occurrence of `from` replaced by `to`.
pub fn replace(s: &str, from: &str, to: &str) -> (r: String)
    requires
        from@.len() > 0,
    ensures
        r@ == replaced(s@, from@, to@),
{
    let n: usize = s.unicode_len();
    let m: usize = from.unicode_len();
    let mut r: String = String::new();
    let mut i: usize = 0;
    assert(s@.skip(0) =~= s@);
    assert(Seq::<char>::empty() + replaced(s@, from@, to@) =~= replaced(s@, from@, to@));
    while i < n
        invariant
            n == s@.len(),
            m == from@.len(),
            m > 0,
            i <= n,
            r@ + replaced(s@.skip(i as int), from@, to@) == replaced(s@, from@, to@),
        decreases n - i,
    {
        let ghost rest = s@.skip(i as int);
        let tail: &str = s.substring_char(i, n);
        assert(tail@ =~= rest);
        let ghost before = r@;
        if starts_with(tail, from) {
            r.append(to);
            assert(rest.skip(m as int) =~= s@.skip(i as int + m as int));
            assert(before + (to@ + replaced(s@.skip(i as int + m as int), from@, to@)) =~= r@
                + replaced(s@.skip(i as int + m as int), from@, to@));
            i = i + m;
        } else {
            r.append(s.substring_char(i, i + 1));
            assert(s@.subrange(i as int, i as int + 1) =~= seq![rest[0]]);
            assert(rest.drop_first() =~= s@.skip(i as int + 1));
            assert(before + (seq![rest[0]] + replaced(s@.skip(i as int + 1), from@, to@)) =~= r@
                + replaced(s@.skip(i as int + 1), from@, to@));
            i = i + 1;
        }
    }
    assert(s@.skip(n as int) =~= Seq::empty());
    assert(r@ + Seq::<char>::empty() =~= r@);
    r
}

// ---------------------------------------------------------------------------
// Laws
// ---------------------------------------------------------------------------

/// Whether there is nothing but white space in `s` from `i` up to `j`.
pub open spec fn blank(s: Seq<char>, i: int, j: int) -> bool {
    forall|k: int| i <= k < j ==> white_space(#[trigger] s[k])
}

proof fn lemma_trimmed_start(s: Seq<char>) -> (i: int)
    ensures
        0 <= i <= s.len(),
        trimmed_start(s) == s.skip(i),
        blank(s, 0, i),
        i < s.len() ==> !white_space(s[i]),
    decreases s.len(),
{
    if s.len() > 0 && white_space(s[0]) {
        let i = lemma_trimmed_start(s.drop_first());
        assert(s.drop_first().skip(i) =~= s.skip(i + 1));
        assert forall|k: int| 0 <= k < i + 1 implies white_space(#[trigger] s[k]) by {
            if k > 0 {
                assert(white_space(s.drop_first()[k - 1]));
            }
        }
        i + 1
    } else {
        assert(s.skip(0) =~= s);
        0
    }
}

proof fn lemma_trimmed_end(s: Seq<char>) -> (j: int)
    ensures
        0 <= j <= s.len(),
        trimmed_end(s) == s.take(j),
        blank(s, j, s.len() as int),
        j > 0 ==> !white_space(s[j - 1]),
    decreases s.len(),
{
    if s.len() > 0 && white_space(s.last()) {
        let j = lemma_trimmed_end(s.drop_last());
        assert(s.drop_last().take(j) =~= s.take(j));
        assert forall|k: int| j <= k < s.len() implies white_space(#[trigger] s[k]) by {
            if k < s.len() - 1 {
                assert(white_space(s.drop_last()[k]));
            }
        }
        j
    } else {
        assert(s.take(s.len() as int) =~= s);
        s.len() as int
    }
}

/// A trimmed text is what is left of it once the white space at its ends, and
/// nothing else, is taken away.
pub proof fn law_trimmed(s: Seq<char>)
    ensures
        exists|i: int, j: int|
            {
                &&& 0 <= i <= j <= s.len()
                &&& trimmed(s) == #[trigger] s.subrange(i, j)
                &&& blank(s, 0, i)
                &&& blank(s, j, s.len() as int)
                &&& i < j ==> !white_space(s[i]) && !white_space(s[j - 1])
            },
{
    let i = lemma_trimmed_start(s);
    let rest = s.skip(i);
    let n = lemma_trimmed_end(rest);
    assert(rest.take(n) =~= s.subrange(i, i + n));
    assert forall|k: int| i + n <= k < s.len() implies white_space(#[trigger] s[k]) by {
        assert(white_space(rest[k - i]));
    }
}

/// A text in which no end is white space is not changed by trimming.
pub proof fn law_trimmed_stays(s: Seq<char>)
    requires
        s.len() > 0 ==> !white_space(s[0]) && !white_space(s.last()),
    ensures
        trimmed(s) == s,
{
}

/// White space at its ends makes no difference to a trimmed text.
pub proof fn law_trimmed_ends(s: Seq<char>, c: char)
    requires
        white_space(c),
    ensures
        trimmed(seq![c] + s) == trimmed(s),
        trimmed(s.push(c)) == trimmed(s),
{
    assert((seq![c] + s).drop_first() =~= s);
    lemma_trimmed_start_push(s, c);
    let t = trimmed_start(s);
    assert(t.push(c).drop_last() =~= t);
}

proof fn lemma_trimmed_start_push(s: Seq<char>, c: char)
    requires
        white_space(c),
    ensures
        trimmed_start(s.push(c)) == trimmed_start(s).push(c) || (trimmed_start(s.push(c)).len() == 0
            && trimmed_start(s).len() == 0),
    decreases s.len(),
{
    reveal_with_fuel(trimmed_start, 2);
    if s.len() == 0 {
        assert(s.push(c)[0] == c);
    } else if white_space(s[0]) {
        assert(s.push(c)[0] == s[0]);
        assert(s.push(c).drop_first() =~= s.drop_first().push(c));
        lemma_trimmed_start_push(s.drop_first(), c);
    }
}

/// The texts, with `separator` between them.
pub open spec fn joined(texts: Seq<Seq<char>>, separator: char) -> Seq<char>
    decreases texts.len(),
{
    if texts.len() == 0 {
        Seq::empty()
    } else if texts.len() == 1 {
        texts[0]
    } else {
        joined(texts.drop_last(), separator).push(separator) + texts.last()
    }
}

proof fn lemma_joined_grows(texts: Seq<Seq<char>>, separator: char, c: char)
    requires
        texts.len() > 0,
    ensures
        joined(texts.drop_last().push(texts.last().push(c)), separator) == joined(
            texts,
            separator,
        ).push(c),
{
    let grown = texts.drop_last().push(texts.last().push(c));
    assert(grown.drop_last() =~= texts.drop_last());
    if texts.len() > 1 {
        assert(joined(grown, separator) =~= joined(texts, separator).push(c));
    }
}

/// The pieces of a text are what stands between the separators: joined by
/// separators they are the text, and none has a separator in it.
pub proof fn law_pieces(s: Seq<char>, separator: char)
    ensures
        pieces(s, separator).len() > 0,
        joined(pieces(s, separator), separator) == s,
        forall|i: int|
            0 <= i < pieces(s, separator).len() ==> !(#[trigger] pieces(s, separator)[i]).contains(
                separator,
            ),
    decreases s.len(),
{
    let all = pieces(s, separator);
    if s.len() == 0 {
        assert(joined(all, separator) =~= s);
    } else {
        let front = s.drop_last();
        let before = pieces(front, separator);
        law_pieces(front, separator);
        if s.last() == separator {
            assert(all.drop_last() =~= before);
            assert(joined(all, separator) =~= s);
        } else {
            lemma_joined_grows(before, separator, s.last());
            assert(front.push(s.last()) =~= s);
            assert forall|i: int| 0 <= i < all.len() implies !(#[trigger] all[i]).contains(
                separator,
            ) by {
                if i < all.len() - 1 {
                    assert(all[i] == before[i]);
                } else {
                    let piece = before.last();
                    assert(piece == before[before.len() - 1]);
                    if all[i].contains(separator) {
                        let k = choose|k: int| 0 <= k < all[i].len() && all[i][k] == separator;
                        assert(piece[k] == separator);
                        assert(piece.contains(separator));
                    }
                }
            }
        }
    }
}

/// A character in front of a text belongs to its first piece, unless it is a
/// separator: then it has an empty piece before it.
proof fn lemma_pieces_front(s: Seq<char>, separator: char, c: char)
    ensures
        c != separator ==> pieces(seq![c] + s, separator) == pieces(s, separator).update(
            0,
            seq![c] + pieces(s, separator)[0],
        ),
        c == separator ==> pieces(seq![c] + s, separator) == seq![Seq::<char>::empty()] + pieces(
            s,
            separator,
        ),
    decreases s.len(),
{
    reveal_with_fuel(pieces, 2);
    let whole = seq![c] + s;
    law_pieces(s, separator);
    if s.len() == 0 {
        assert(whole.drop_last() =~= Seq::empty());
        assert(seq![c] + Seq::<char>::empty() =~= Seq::<char>::empty().push(c));
        if c == separator {
            assert(pieces(whole, separator) =~= seq![Seq::<char>::empty()] + pieces(s, separator));
        } else {
            assert(pieces(whole, separator) =~= pieces(s, separator).update(
                0,
                seq![c] + pieces(s, separator)[0],
            ));
        }
    } else {
        let front = s.drop_last();
        let before = pieces(front, separator);
        law_pieces(front, separator);
        lemma_pieces_front(front, separator, c);
        assert(whole.drop_last() =~= seq![c] + front);
        assert(whole.last() == s.last());
        let all = pieces(whole, separator);
        if c == separator {
            assert((seq![Seq::<char>::empty()] + before).last() == before.last());
            assert(all =~= seq![Seq::<char>::empty()] + pieces(s, separator));
        } else {
            if before.len() == 1 {
                assert((seq![c] + before[0]).push(s.last()) =~= seq![c] + before[0].push(s.last()));
            }
            assert(all =~= pieces(s, separator).update(0, seq![c] + pieces(s, separator)[0]));
        }
    }
}

/// Whether two rows of texts are the same once each is trimmed.
pub open spec fn same_trimmed(a: Seq<Seq<char>>, b: Seq<Seq<char>>) -> bool {
    a.len() == b.len() && forall|i: int| 0 <= i < a.len() ==> trimmed(a[i]) == trimmed(#[trigger] b[i])
}

proof fn lemma_pieces_start(s: Seq<char>, separator: char)
    requires
        !white_space(separator),
    ensures
        same_trimmed(pieces(s, separator), pieces(trimmed_start(s), separator)),
    decreases s.len(),
{
    if s.len() > 0 && white_space(s[0]) {
        let rest = s.drop_first();
        lemma_pieces_start(rest, separator);
        lemma_pieces_front(rest, separator, s[0]);
        law_pieces(rest, separator);
        assert(seq![s[0]] + rest =~= s);
        law_trimmed_ends(pieces(rest, separator)[0], s[0]);
        let a = pieces(s, separator);
        let b = pieces(trimmed_start(s), separator);
        assert forall|i: int| 0 <= i < a.len() implies trimmed(a[i]) == trimmed(
            #[trigger] b[i],
        ) by {
            assert(trimmed(pieces(rest, separator)[i]) == trimmed(b[i]));
        }
    }
}

proof fn lemma_pieces_end(s: Seq<char>, separator: char)
    requires
        !white_space(separator),
    ensures
        same_trimmed(pieces(s, separator), pieces(trimmed_end(s), separator)),
    decreases s.len(),
{
    if s.len() > 0 && white_space(s.last()) {
        let front = s.drop_last();
        let before = pieces(front, separator);
        lemma_pieces_end(front, separator);
        law_pieces(front, separator);
        law_trimmed_ends(before.last(), s.last());
        let a = pieces(s, separator);
        let b = pieces(trimmed_end(s), separator);
        assert forall|i: int| 0 <= i < a.len() implies trimmed(a[i]) == trimmed(
            #[trigger] b[i],
        ) by {
            assert(trimmed(before[i]) == trimmed(b[i]));
        }
    }
}

/// The pieces of a text, each trimmed, are those of the trimmed text.
pub proof fn law_pieces_trimmed(s: Seq<char>, separator: char)
    requires
        !white_space(separator),
    ensures
        same_trimmed(pieces(s, separator), pieces(trimmed(s), separator)),
{
    lemma_pieces_start(s, separator);
    lemma_pieces_end(trimmed_start(s), separator);
    let a = pieces(s, separator);
    let b = pieces(trimmed_start(s), separator);
    let c = pieces(trimmed(s), separator);
    assert forall|i: int| 0 <= i < a.len() implies trimmed(a[i]) == trimmed(#[trigger] c[i]) by {
        assert(trimmed(a[i]) == trimmed(b[i]));
    }
}

/// White space parts words: the words of two texts with white space between them
/// are those of the one and those of the other.
pub proof fn law_words_parted(a: Seq<char>, c: char, b: Seq<char>)
    requires
        white_space(c),
    ensures
        words(a.push(c) + b) == words(a) + words(b),
    decreases b.len(),
{
    let whole = a.push(c) + b;
    if b.len() == 0 {
        assert(whole =~= a.push(c));
        assert(a.push(c).drop_last() =~= a);
        assert(words(a) + words(b) =~= words(a));
    } else {
        let front = b.drop_last();
        law_words_parted(a, c, front);
        lemma_words_last(front);
        assert(whole.drop_last() =~= a.push(c) + front);
        assert(whole.last() == b.last());
        if b.len() > 1 {
            assert(whole[whole.len() - 2] == b[b.len() - 2]);
        } else {
            assert(whole[whole.len() - 2] == c);
        }
        let left = words(a);
        let right = words(front);
        if white_space(b.last()) {
        } else if b.len() == 1 || white_space(b[b.len() - 2]) {
            assert((left + right).push(seq![b.last()]) =~= left + right.push(seq![b.last()]));
        } else {
            assert(right.len() > 0);
            assert((left + right).last() == right.last());
            assert((left + right).drop_last().push(right.last().push(b.last())) =~= left
                + right.drop_last().push(right.last().push(b.last())));
        }
    }
}

proof fn lemma_words_last(s: Seq<char>)
    ensures
        s.len() > 0 && !white_space(s.last()) ==> words(s).len() > 0,
    decreases s.len(),
{
    if s.len() > 0 {
        lemma_words_last(s.drop_last());
    }
}

/// A text without white space is one word, and an empty one none.
pub proof fn law_words_run(s: Seq<char>)
    requires
        forall|i: int| 0 <= i < s.len() ==> !white_space(#[trigger] s[i]),
    ensures
        s.len() == 0 ==> words(s).len() == 0,
        s.len() > 0 ==> words(s) == seq![s],
    decreases s.len(),
{
    if s.len() > 0 {
        let front = s.drop_last();
        assert forall|i: int| 0 <= i < front.len() implies !white_space(#[trigger] front[i]) by {
            assert(!white_space(s[i]));
        }
        law_words_run(front);
        assert(!white_space(s[s.len() - 1]));
        assert(front.push(s.last()) =~= s);
        if s.len() == 1 {
            assert(seq![s.last()] =~= s);
            assert(words(s) =~= seq![s]);
        } else {
            assert(!white_space(s[s.len() - 2]));
            assert(words(s) =~= seq![s]);
        }
    }
}

/// Whether `part` stands in `s` at position `i`.
pub open spec fn stands_at(s: Seq<char>, part: Seq<char>, i: int) -> bool {
    0 <= i && i + part.len() <= s.len() && s.subrange(i, i + part.len()) == part
}

/// What does not occur is not replaced; and where `from` first occurs at `i`, `to`
/// takes its place, and what follows is treated in the same way.
pub proof fn law_replaced(s: Seq<char>, from: Seq<char>, to: Seq<char>, i: int)
    requires
        from.len() > 0,
        forall|k: int| 0 <= k < i ==> !(#[trigger] stands_at(s, from, k)),
        i >= s.len() || stands_at(s, from, i),
        0 <= i,
    ensures
        i >= s.len() ==> replaced(s, from, to) == s,
        stands_at(s, from, i) ==> replaced(s, from, to) == s.take(i) + to + replaced(
            s.skip(i + from.len()),
            from,
            to,
        ),
    decreases s.len(),
{
    if s.len() > 0 {
        assert(from.is_prefix_of(s) <==> stands_at(s, from, 0)) by {
            if from.len() <= s.len() {
                assert(s.subrange(0, from.len() as int) =~= s.take(from.len() as int));
            }
        }
        if i == 0 {
            assert(s.take(0) + to =~= to);
        } else {
            assert(!stands_at(s, from, 0));
            let rest = s.drop_first();
            assert forall|k: int| 0 <= k < i - 1 implies !(#[trigger] stands_at(
                rest,
                from,
                k,
            )) by {
                assert(!stands_at(s, from, k + 1));
                if k + from.len() <= rest.len() {
                    assert(rest.subrange(k, k + from.len()) =~= s.subrange(
                        k + 1,
                        k + 1 + from.len(),
                    ));
                }
            }
            if stands_at(s, from, i) {
                assert(rest.subrange(i - 1, i - 1 + from.len()) =~= s.subrange(
                    i,
                    i + from.len(),
                ));
                assert(stands_at(rest, from, i - 1));
            }
            law_replaced(rest, from, to, i - 1);
            assert(seq![s[0]] + rest =~= s);
            if stands_at(s, from, i) {
                assert(rest.skip(i - 1 + from.len()) =~= s.skip(i + from.len()));
                let tail = replaced(s.skip(i + from.len()), from, to);
                assert(seq![s[0]] + (rest.take(i - 1) + to + tail) =~= s.take(i) + to + tail);
            }
        }
    } else if i == 0 && stands_at(s, from, 0) {
        assert(false);
    }
}

/// Case makes no difference to ASCII letters and only to these: a letter and the
/// one 32 places further on are the same, any other two characters are not.
pub proof fn law_same_but_case(a: char, b: char)
    ensures
        same_but_case(seq![a], seq![b]) <==> a == b || ('A' <= a <= 'Z' && b as int == a as int + 32)
            || ('A' <= b <= 'Z' && a as int == b as int + 32),
{
    let x = seq![a];
    let y = seq![b];
    assert(x[0] == a && y[0] == b);
    if same_but_case(x, y) {
        assert(lower(x[0]) == lower(y[0]));
    }
}

/// Texts are the same but for case where they have the same length and are so
/// character by character.
pub proof fn law_same_but_case_each(a: Seq<char>, b: Seq<char>)
    ensures
        same_but_case(a, b) <==> a.len() == b.len() && forall|i: int|
            0 <= i < a.len() ==> same_but_case(seq![a[i]], seq![#[trigger] b[i]]),
{
    assert forall|i: int| 0 <= i < a.len() && a.len() == b.len() implies (same_but_case(
        seq![a[i]],
        seq![#[trigger] b[i]],
    ) <==> lower(a[i]) == lower(b[i])) by {
        let x = seq![a[i]];
        let y = seq![b[i]];
        assert(x[0] == a[i] && y[0] == b[i]);
    }
    if same_but_case(a, b) {
        assert forall|i: int| 0 <= i < a.len() implies same_but_case(
            seq![a[i]],
            seq![#[trigger] b[i]],
        ) by {
            assert(lower(a[i]) == lower(b[i]));
        }
    }
}

// ---------------------------------------------------------------------------
// Bytes
// ---------------------------------------------------------------------------

/// The text that `String::from_utf8_lossy` makes of `bytes`.
pub uninterp spec fn lossy_text(bytes: Seq<u8>) -> Seq<char>;

/// `String::from_utf8_lossy`: reads bytes as UTF-8. Bytes that are valid UTF-8
/// are read as the text that they encode. What the text is where they are not
/// valid is left to the name [`lossy_text`].
#[verifier::external_body]
pub(crate) fn from_utf8_lossy(bytes: &Vec<u8>) -> (r: String)
    ensures
        r@ == lossy_text(bytes@),
        valid_utf8(bytes@) ==> r@ == decode_utf8(bytes@),
{
    String::from_utf8_lossy(bytes).into_owned()
}

/// `String::from_utf8`: reads bytes as UTF-8. It succeeds exactly on valid
/// UTF-8, with the text that the bytes encode.
#[verifier::external_body]
pub(crate) fn from_utf8(bytes: Vec<u8>) -> (r: Option<String>)
    ensures
        r is Some <==> valid_utf8(bytes@),
        r matches Some(s) ==> s@ == decode_utf8(bytes@),
{
    String::from_utf8(bytes).ok()
}

} // verus!
