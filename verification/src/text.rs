//! Character-level helpers on strings: splitting, joining, trimming and
//! substring search, each stated over the `Seq<char>` view of a string.

use vstd::prelude::*;
use vstd::string::*;
use vstd::utf8::{
    encode_utf8, encode_utf8_valid_utf8, is_ascii_chars, is_ascii_chars_encode_utf8, is_char_boundary,
    is_char_boundary_iff_not_is_continuation_byte, is_char_boundary_start_end_of_seq,
};

verus! {

/// The views of a sequence of strings.
pub open spec fn token_views(v: Seq<String>) -> Seq<Seq<char>> {
    v.map_values(|t: String| t@)
}

/// The pieces of `s` between occurrences of `sep`, empty pieces included
/// (what `str::split(sep)` yields).
pub open spec fn split_on(s: Seq<char>, sep: char) -> Seq<Seq<char>>
    decreases s.len(),
{
    if s.len() == 0 {
        seq![Seq::<char>::empty()]
    } else {
        let prev = split_on(s.drop_last(), sep);
        if s.last() == sep {
            prev.push(Seq::<char>::empty())
        } else {
            prev.update(prev.len() - 1, prev.last().push(s.last()))
        }
    }
}

/// True of a piece that holds at least one character.
pub open spec fn is_nonempty(t: Seq<char>) -> bool {
    t.len() > 0
}

/// The test that keeps a piece among the words of a command line.
pub open spec fn keep_nonempty() -> spec_fn(Seq<char>) -> bool {
    |t: Seq<char>| is_nonempty(t)
}

/// The words of a command line: the non-empty pieces between spaces.
pub open spec fn space_tokens(s: Seq<char>) -> Seq<Seq<char>> {
    split_on(s, ' ').filter(keep_nonempty())
}

/// The pieces of `s` joined with one space between neighbours.
pub open spec fn join_with_space(s: Seq<Seq<char>>) -> Seq<char>
    decreases s.len(),
{
    if s.len() == 0 {
        Seq::<char>::empty()
    } else if s.len() == 1 {
        s[0]
    } else {
        join_with_space(s.drop_last()) + seq![' '] + s.last()
    }
}

/// Unicode `White_Space`, the property that `char::is_whitespace` and
/// `str::trim` go by.
pub open spec fn is_white_space(c: char) -> bool {
    let v = c as u32;
    ||| 0x9 <= v <= 0xd
    ||| v == 0x20
    ||| v == 0x85
    ||| v == 0xa0
    ||| v == 0x1680
    ||| 0x2000 <= v <= 0x200a
    ||| v == 0x2028
    ||| v == 0x2029
    ||| v == 0x202f
    ||| v == 0x205f
    ||| v == 0x3000
}

/// `s` without its leading white space.
pub open spec fn trim_start(s: Seq<char>) -> Seq<char>
    decreases s.len(),
{
    if s.len() > 0 && is_white_space(s[0]) {
        trim_start(s.drop_first())
    } else {
        s
    }
}

/// `s` without its trailing white space.
pub open spec fn trim_end(s: Seq<char>) -> Seq<char>
    decreases s.len(),
{
    if s.len() > 0 && is_white_space(s.last()) {
        trim_end(s.drop_last())
    } else {
        s
    }
}

/// `s` without leading and trailing white space (what `str::trim` returns).
pub open spec fn trim(s: Seq<char>) -> Seq<char> {
    trim_end(trim_start(s))
}

/// The first position at or after `start` where `needle` occurs in `hay`.
pub open spec fn find_from<A>(hay: Seq<A>, needle: Seq<A>, start: int) -> Option<int>
    decreases hay.len() + 1 - start,
{
    if start < 0 || start + needle.len() > hay.len() {
        None
    } else if hay.subrange(start, start + needle.len()) == needle {
        Some(start)
    } else {
        find_from(hay, needle, start + 1)
    }
}

/// What `find_from` finds is an occurrence at or after `start`.
pub proof fn lemma_find_from_bounds<A>(hay: Seq<A>, needle: Seq<A>, start: int)
    ensures
        find_from(hay, needle, start) matches Some(m) ==> start <= m && m + needle.len()
            <= hay.len() && hay.subrange(m, m + needle.len()) == needle,
    decreases hay.len() + 1 - start,
{
    if !(start < 0 || start + needle.len() > hay.len()) && hay.subrange(
        start,
        start + needle.len(),
    ) != needle {
        lemma_find_from_bounds(hay, needle, start + 1);
    }
}

/// `needle` occurs in `hay` at position `p`.
pub open spec fn occurs_at<A>(hay: Seq<A>, needle: Seq<A>, p: int) -> bool {
    &&& 0 <= p
    &&& p + needle.len() <= hay.len()
    &&& hay.subrange(p, p + needle.len()) == needle
}

/// `find_from` finds the first occurrence at or after `start`: none of those
/// is before what it finds.
pub proof fn lemma_find_from_first<A>(hay: Seq<A>, needle: Seq<A>, start: int, p: int)
    requires
        0 <= start <= p,
        occurs_at(hay, needle, p),
    ensures
        find_from(hay, needle, start) matches Some(m) && m <= p,
    decreases p - start,
{
    if hay.subrange(start, start + needle.len()) != needle {
        lemma_find_from_first(hay, needle, start + 1, p);
    }
}

/// `find_from` finds something wherever there is an occurrence at or after
/// `start`.
pub proof fn lemma_find_from_finds<A>(hay: Seq<A>, needle: Seq<A>, start: int, i: int)
    requires
        0 <= start <= i,
        i + needle.len() <= hay.len(),
        hay.subrange(i, i + needle.len()) == needle,
    ensures
        find_from(hay, needle, start) is Some,
    decreases i - start,
{
    if hay.subrange(start, start + needle.len()) != needle {
        lemma_find_from_finds(hay, needle, start + 1, i);
    }
}

/// What `str::to_lowercase` returns for the characters `s`: Unicode's
/// lower-case mapping, which may change the number of characters.
pub uninterp spec fn lowercase(s: Seq<char>) -> Seq<char>;

/// The code of the ASCII lower-case of the character with code `c`: the
/// codes of 'A' to 'Z' move to those of 'a' to 'z', the others stay.
pub open spec fn ascii_lower_code(c: int) -> int {
    if 65 <= c <= 90 {
        c + 32
    } else {
        c
    }
}

/// `r` is `s` with the ASCII letters 'A' to 'Z' made lower-case, character by
/// character.
pub open spec fn is_ascii_lowercase_of(r: Seq<char>, s: Seq<char>) -> bool {
    &&& r.len() == s.len()
    &&& forall|i: int| 0 <= i < s.len() ==> #[trigger] r[i] as int == ascii_lower_code(s[i] as int)
}

/// Calls `str::to_lowercase`; its result is named by `lowercase`. The
/// contract also says what std documents of it: each character maps to one
/// or more characters (so the result is empty exactly when `s` is), and an
/// ASCII text maps to its ASCII lower-case ('A' to 'Z' become 'a' to 'z').
#[verifier::external_body]
pub(crate) fn to_lowercase(s: &str) -> (r: String)
    ensures
        r@ == lowercase(s@),
        r@.len() == 0 <==> s@.len() == 0,
        is_ascii_chars(s@) ==> is_ascii_lowercase_of(r@, s@),
{
    s.to_lowercase()
}

/// The ASCII lower-case of an ASCII text is ASCII.
pub proof fn lemma_ascii_lowercase_is_ascii(r: Seq<char>, s: Seq<char>)
    requires
        is_ascii_chars(s),
        is_ascii_lowercase_of(r, s),
    ensures
        is_ascii_chars(r),
{
    assert forall|i: int| 0 <= i < r.len() implies '\0' <= #[trigger] r[i] <= '\u{7f}' by {
        assert(r[i] as int == ascii_lower_code(s[i] as int));
        assert(s[i] <= '\u{7f}');
    }
}

/// In the UTF-8 of an ASCII text every position is a character boundary.
pub proof fn lemma_ascii_boundaries(chars: Seq<char>)
    requires
        is_ascii_chars(chars),
    ensures
        encode_utf8(chars).len() == chars.len(),
        forall|i: int| 0 <= i <= chars.len() ==> #[trigger] is_char_boundary(encode_utf8(chars), i),
{
    let b = encode_utf8(chars);
    is_ascii_chars_encode_utf8(chars);
    encode_utf8_valid_utf8(chars);
    is_char_boundary_start_end_of_seq(b);
    assert forall|i: int| 0 <= i <= chars.len() implies #[trigger] is_char_boundary(b, i) by {
        if 0 < i < chars.len() {
            is_char_boundary_iff_not_is_continuation_byte(b, i);
            let c = chars[i];
            assert(c <= '\u{7f}');
            assert(c as u8 == b[i]);
            let v = c as u32;
            assert(v <= 127);
            assert(v as u8 <= 127) by (bit_vector)
                requires
                    v <= 127,
            ;
            assert(c as u8 == v as u8);
        }
    }
}

/// The characters of `s`, in order.
pub fn chars_of(s: &str) -> (r: Vec<char>)
    ensures
        r@ == s@,
{
    let mut r: Vec<char> = Vec::new();
    for c in it: s.chars()
        invariant
            it.seq() == s@,
            r@ == it.seq().take(it.index() as int),
    {
        r.push(c);
    }
    r
}

/// The characters `from..to` of `s` as a new string.
pub fn substring(s: &str, from: usize, to: usize) -> (r: String)
    requires
        from <= to <= s@.len(),
    ensures
        r@ == s@.subrange(from as int, to as int),
{
    String::from_str(s.substring_char(from, to))
}

/// True when `c` has the Unicode `White_Space` property.
pub fn is_whitespace_char(c: char) -> (r: bool)
    ensures
        r == is_white_space(c),
{
    let v = c as u32;
    (0x9 <= v && v <= 0xd) || v == 0x20 || v == 0x85 || v == 0xa0 || v == 0x1680 || (0x2000
        <= v && v <= 0x200a) || v == 0x2028 || v == 0x2029 || v == 0x202f || v == 0x205f || v
        == 0x3000
}

proof fn lemma_trim_start_skip(s: Seq<char>, i: int)
    requires
        0 <= i < s.len(),
        is_white_space(s[i]),
    ensures
        trim_start(s.subrange(i, s.len() as int)) == trim_start(s.subrange(i + 1, s.len() as int)),
{
    assert(s.subrange(i, s.len() as int).drop_first() =~= s.subrange(i + 1, s.len() as int));
}

proof fn lemma_trim_end_skip(s: Seq<char>, j: int)
    requires
        0 < j <= s.len(),
        is_white_space(s[j - 1]),
    ensures
        trim_end(s.subrange(0, j)) == trim_end(s.subrange(0, j - 1)),
{
    assert(s.subrange(0, j).drop_last() =~= s.subrange(0, j - 1));
}

/// The positions `(lo, hi)` such that `chars[lo..hi]` is `chars` trimmed.
pub fn trim_bounds(chars: &Vec<char>) -> (r: (usize, usize))
    ensures
        r.0 <= r.1 <= chars@.len(),
        chars@.subrange(r.0 as int, r.1 as int) == trim(chars@),
{
    let n = chars.len();
    let mut lo: usize = 0;
    assert(chars@.subrange(0, n as int) =~= chars@);
    while lo < n && is_whitespace_char(chars[lo])
        invariant
            lo <= n == chars@.len(),
            trim_start(chars@) == trim_start(chars@.subrange(lo as int, n as int)),
        decreases n - lo,
    {
        proof {
            lemma_trim_start_skip(chars@, lo as int);
        }
        lo = lo + 1;
    }
    let ghost t = chars@.subrange(lo as int, n as int);
    assert(trim_start(chars@) == t) by {
        if lo < n {
            assert(t[0] == chars@[lo as int]);
        }
    }
    let mut hi: usize = n;
    assert(t.subrange(0, (hi - lo) as int) =~= t);
    while hi > lo && is_whitespace_char(chars[hi - 1])
        invariant
            lo <= hi <= n == chars@.len(),
            t == chars@.subrange(lo as int, n as int),
            trim_end(t) == trim_end(t.subrange(0, (hi - lo) as int)),
        decreases hi - lo,
    {
        proof {
            assert(t[(hi - lo - 1) as int] == chars@[hi - 1]);
            lemma_trim_end_skip(t, (hi - lo) as int);
        }
        hi = hi - 1;
    }
    let ghost u = t.subrange(0, (hi - lo) as int);
    assert(u =~= chars@.subrange(lo as int, hi as int));
    assert(trim_end(u) == u) by {
        if hi > lo {
            assert(u.last() == chars@[hi - 1]);
        }
    }
    (lo, hi)
}

/// `s` without leading and trailing white space (as `str::trim`).
pub fn trim_str(s: &str) -> (r: String)
    ensures
        r@ == trim(s@),
        is_ascii_chars(s@) ==> is_ascii_chars(r@),
{
    let chars = chars_of(s);
    let (lo, hi) = trim_bounds(&chars);
    substring(s, lo, hi)
}


proof fn lemma_split_push(p: Seq<char>, sep: char, c: char)
    ensures
        split_on(p.push(c), sep) == (if c == sep {
            split_on(p, sep).push(Seq::<char>::empty())
        } else {
            split_on(p, sep).update(split_on(p, sep).len() - 1, split_on(p, sep).last().push(c))
        }),
{
    assert(p.push(c).drop_last() =~= p);
}

proof fn lemma_split_nonempty(p: Seq<char>, sep: char)
    ensures
        split_on(p, sep).len() >= 1,
    decreases p.len(),
{
    if p.len() > 0 {
        lemma_split_nonempty(p.drop_last(), sep);
    }
}

/// The pieces of `s` between occurrences of `sep` (as `s.split(sep)`).
pub fn split_str(s: &str, sep: char) -> (r: Vec<String>)
    ensures
        token_views(r@) == split_on(s@, sep),
{
    let chars = chars_of(s);
    let n = chars.len();
    let mut pieces: Vec<String> = Vec::new();
    let mut start: usize = 0;
    let mut i: usize = 0;
    assert(chars@.take(0) =~= Seq::<char>::empty());
    assert(split_on(Seq::<char>::empty(), sep).drop_last() =~= Seq::<Seq<char>>::empty());
    while i < n
        invariant
            start <= i <= n == chars@.len() == s@.len(),
            chars@ == s@,
            split_on(chars@.take(i as int), sep).last() == chars@.subrange(start as int, i as int),
            token_views(pieces@) == split_on(chars@.take(i as int), sep).drop_last(),
        decreases n - i,
    {
        let ghost p = chars@.take(i as int);
        let c = chars[i];
        proof {
            assert(chars@.take(i + 1) =~= p.push(c));
            lemma_split_push(p, sep, c);
            lemma_split_nonempty(p, sep);
        }
        if c == sep {
            let ghost q = split_on(p, sep);
            let ghost before = pieces@;
            let t = substring(s, start, i);
            pieces.push(t);
            proof {
                assert(split_on(p.push(c), sep).drop_last() =~= q);
                assert(q =~= q.drop_last().push(q.last()));
                assert(token_views(pieces@) =~= token_views(before).push(t@));
            }
            start = i + 1;
        } else {
            proof {
                let q = split_on(p, sep);
                assert(split_on(p.push(c), sep).drop_last() =~= q.drop_last());
                assert(chars@.subrange(start as int, i + 1) =~= q.last().push(c));
            }
        }
        i = i + 1;
    }
    let ghost q = split_on(chars@.take(n as int), sep);
    let ghost before = pieces@;
    assert(chars@.take(n as int) =~= chars@);
    proof {
        lemma_split_nonempty(chars@, sep);
    }
    let t = substring(s, start, n);
    pieces.push(t);
    assert(token_views(pieces@) =~= token_views(before).push(t@));
    assert(token_views(pieces@) =~= q);
    pieces
}

pub proof fn lemma_split_concat(a: Seq<char>, b: Seq<char>, sep: char)
    ensures
        split_on(a + seq![sep] + b, sep) == split_on(a, sep) + split_on(b, sep),
    decreases b.len(),
{
    let ab = a + seq![sep] + b;
    if b.len() == 0 {
        assert(ab.drop_last() =~= a);
        assert(split_on(ab, sep) =~= split_on(a, sep) + split_on(b, sep));
    } else {
        let b1 = b.drop_last();
        let c = b.last();
        assert(ab.drop_last() =~= a + seq![sep] + b1);
        lemma_split_concat(a, b1, sep);
        lemma_split_nonempty(b1, sep);
        let x = split_on(a, sep);
        let y = split_on(b1, sep);
        if c != sep {
            assert((x + y).update((x + y).len() - 1, (x + y).last().push(c)) =~= x + y.update(
                y.len() - 1,
                y.last().push(c),
            ));
        } else {
            assert((x + y).push(Seq::<char>::empty()) =~= x + y.push(Seq::<char>::empty()));
        }
    }
}

pub proof fn lemma_split_no_sep(w: Seq<char>, sep: char)
    requires
        !w.contains(sep),
    ensures
        split_on(w, sep) == seq![w],
    decreases w.len(),
{
    if w.len() == 0 {
        assert(w =~= Seq::<char>::empty());
        assert(split_on(w, sep) =~= seq![w]);
    } else {
        let w1 = w.drop_last();
        assert(!w1.contains(sep)) by {
            if w1.contains(sep) {
                let k = choose|k: int| 0 <= k < w1.len() && w1[k] == sep;
                assert(w[k] == sep);
            }
        }
        assert(w.last() != sep) by {
            assert(w[w.len() - 1] == w.last());
        }
        lemma_split_no_sep(w1, sep);
        assert(w1.push(w.last()) =~= w);
        assert(split_on(w, sep) =~= seq![w]);
    }
}

/// Words without spaces, joined with single spaces, split back into the same
/// words: the title of a command reads back as the command.
pub proof fn lemma_space_tokens_of_joined(words: Seq<Seq<char>>)
    requires
        forall|i: int|
            0 <= i < words.len() ==> #[trigger] words[i].len() > 0 && !words[i].contains(' '),
    ensures
        space_tokens(join_with_space(words)) == words,
    decreases words.len(),
{
    broadcast use Seq::filter_distributes_over_add;

    if words.len() == 0 {
        assert(split_on(Seq::<char>::empty(), ' ').drop_last() =~= Seq::<Seq<char>>::empty());
        Seq::<Seq<char>>::empty().lemma_filter_push(Seq::<char>::empty(), keep_nonempty());
        assert(split_on(Seq::<char>::empty(), ' ') =~= Seq::<Seq<char>>::empty().push(
            Seq::<char>::empty(),
        ));
        assert(space_tokens(join_with_space(words)) =~= words);
    } else {
        let last = words.last();
        assert(words[words.len() - 1] == last);
        lemma_split_no_sep(last, ' ');
        Seq::<Seq<char>>::empty().lemma_filter_push(last, keep_nonempty());
        assert(seq![last] =~= Seq::<Seq<char>>::empty().push(last));
        if words.len() == 1 {
            assert(space_tokens(join_with_space(words)) =~= words);
        } else {
            let prev = words.drop_last();
            assert forall|i: int| 0 <= i < prev.len() implies #[trigger] prev[i].len() > 0
                && !prev[i].contains(' ') by {
                assert(prev[i] == words[i]);
            }
            lemma_space_tokens_of_joined(prev);
            lemma_split_concat(join_with_space(prev), last, ' ');
            assert(space_tokens(join_with_space(words)) =~= prev + seq![last]);
            assert(prev + seq![last] =~= words);
        }
    }
}

/// The non-empty strings of `v`, in order.
pub fn keep_nonempty_strings(v: Vec<String>) -> (r: Vec<String>)
    ensures
        token_views(r@) == token_views(v@).filter(keep_nonempty()),
{
    broadcast use Seq::lemma_filter_push;

    let mut r: Vec<String> = Vec::new();
    let mut i: usize = 0;
    while i < v.len()
        invariant
            i <= v@.len(),
            token_views(r@) == token_views(v@.take(i as int)).filter(keep_nonempty()),
        decreases v@.len() - i,
    {
        let ghost before = r@;
        assert(token_views(v@.take(i + 1)) =~= token_views(v@.take(i as int)).push(v@[i as int]@));
        proof {
            token_views(v@.take(i as int)).lemma_filter_push(v@[i as int]@, keep_nonempty());
        }
        if !v[i].as_str().is_empty() {
            r.push(v[i].clone());
            assert(token_views(r@) =~= token_views(before).push(v@[i as int]@));
        }
        i = i + 1;
    }
    assert(v@.take(v@.len() as int) =~= v@);
    r
}

/// The words of `s`: its non-empty pieces between spaces, as
/// `s.split(' ').filter(|t| !t.is_empty())`.
pub fn space_separated_tokens(s: &str) -> (r: Vec<String>)
    ensures
        token_views(r@) == space_tokens(s@),
{
    keep_nonempty_strings(split_str(s, ' '))
}

/// The pieces of `parts` joined with single spaces (as `parts.join(" ")`).
pub fn join_space(parts: &[String]) -> (r: String)
    ensures
        r@ == join_with_space(token_views(parts@)),
{
    let mut r = String::new();
    let mut i: usize = 0;
    while i < parts.len()
        invariant
            i <= parts@.len(),
            r@ == join_with_space(token_views(parts@.take(i as int))),
        decreases parts@.len() - i,
    {
        let ghost before = token_views(parts@.take(i as int));
        let ghost after = token_views(parts@.take(i + 1));
        assert(after.drop_last() =~= before);
        assert(after.last() == parts@[i as int]@);
        if i > 0 {
            proof {
                reveal_strlit(" ");
            }
            r.append(" ");
        }
        r.append(parts[i].as_str());
        proof {
            if i == 0 {
                assert(after =~= seq![parts@[0]@]);
            } else {
                assert(r@ =~= join_with_space(before) + seq![' '] + after.last());
            }
        }
        i = i + 1;
    }
    assert(parts@.take(parts@.len() as int) =~= parts@);
    r
}

/// True when `needle` occurs in `hay` at position `i`.
fn occurs_at_exec(hay: &Vec<char>, needle: &Vec<char>, i: usize) -> (r: bool)
    requires
        i + needle@.len() <= hay@.len(),
    ensures
        r == (hay@.subrange(i as int, i + needle@.len()) == needle@),
{
    let hn = hay.len();
    let mut j: usize = 0;
    while j < needle.len()
        invariant
            hn == hay@.len(),
            j <= needle@.len(),
            i + needle@.len() <= hay@.len(),
            forall|k: int| 0 <= k < j ==> hay@[i + k] == needle@[k],
        decreases needle@.len() - j,
    {
        if hay[i + j] != needle[j] {
            assert(hay@.subrange(i as int, i + needle@.len())[j as int] != needle@[j as int]);
            return false;
        }
        j = j + 1;
    }
    assert(hay@.subrange(i as int, i + needle@.len()) =~= needle@);
    true
}

/// The first position at or after `start` where `needle` occurs in `hay`.
pub fn find_chars(hay: &Vec<char>, needle: &Vec<char>, start: usize) -> (r: Option<usize>)
    ensures
        r matches Some(p) ==> find_from(hay@, needle@, start as int) == Some(p as int),
        r is None ==> find_from(hay@, needle@, start as int) is None,
{
    let mut i = start;
    while i <= hay.len() && needle.len() <= hay.len() - i
        invariant
            start <= i,
            find_from(hay@, needle@, start as int) == find_from(hay@, needle@, i as int),
        decreases hay@.len() + 1 - i,
    {
        if occurs_at_exec(hay, needle, i) {
            return Some(i);
        }
        assert(needle@.len() > 0) by {
            if needle@.len() == 0 {
                assert(hay@.subrange(i as int, i as int) =~= needle@);
            }
        }
        i = i + 1;
    }
    None
}

} // verus!
