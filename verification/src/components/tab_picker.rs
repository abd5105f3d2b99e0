//! The tab picker: a prompt that filters the watched commands by title and
//! switches to the chosen one. Its state, how it answers each action, and what
//! it shows are computed here; drawing and sending are left to the caller.

use vstd::prelude::*;
use vstd::arithmetic::div_mod::{
    lemma_mod_add_multiples_vanish, lemma_mod_pos_bound, lemma_mod_self_0, lemma_small_mod,
};
use vstd::string::{StringExecFns, StringSliceAdditionalSpecFns};
use vstd::utf8::{
    encode_utf8, encode_utf8_valid_utf8, is_ascii_chars, is_char_boundary, is_char_boundary_iff_not_is_continuation_byte,
    is_char_boundary_start_end_of_seq, valid_utf8, valid_utf8_split,
};
use crate::store::RuntimeConfig;
use crate::tab_picker::{
    command_title, filter_command_indices, filtered_indices, lemma_filtered_indices_valid,
};
use crate::text::{
    lemma_find_from_first, occurs_at, find_from, lemma_ascii_boundaries, lemma_ascii_lowercase_is_ascii, lemma_find_from_bounds, join_with_space, lowercase, to_lowercase,
    token_views, trim, trim_str,
};
use crossterm::event::{Event, KeyCode, KeyEvent, KeyEventKind, KeyModifiers};
use tui_input::backend::crossterm::EventHandler;
use tui_input::Input;

verus! {

/// A piece of a title as the picker shows it: highlighted where it matches
/// the query.
#[derive(Debug, Clone, PartialEq, Eq)]
pub struct TitleSegment {
    pub text: String,
    pub highlighted: bool,
}

/// The views of a list of title pieces: each piece's UTF-8 bytes, and
/// whether it is highlighted.
pub open spec fn segment_views(v: Seq<TitleSegment>) -> Seq<(Seq<u8>, bool)> {
    v.map_values(|s: TitleSegment| (encode_utf8(s.text@), s.highlighted))
}

/// `bytes[from..to]` can be sliced out of a string with UTF-8 bytes `bytes`
/// (otherwise slicing panics).
pub open spec fn can_slice(bytes: Seq<u8>, from: int, to: int) -> bool {
    &&& from <= to <= bytes.len()
    &&& is_char_boundary(bytes, from)
    &&& is_char_boundary(bytes, to)
}

/// The pieces of a title from byte `start` on, as the picker finds them by
/// byte offsets: `t` is the title's UTF-8, `lt` the lower-cased title's, `lq`
/// the lower-cased query's, and `ql` the byte length of the query. Each first
/// occurrence of `lq` in `lt` at or after `start` ends a plain piece (when not
/// empty) and starts a highlighted piece of `ql` bytes of the title; after the
/// last one, the rest of the title is a plain piece. `None` where a slice
/// would not fall on character boundaries, so that the slicing panics.
pub open spec fn spans_from(t: Seq<u8>, lt: Seq<u8>, lq: Seq<u8>, ql: int, start: int) -> Option<
    Seq<(Seq<u8>, bool)>,
>
    decreases lt.len() + 1 - start,
{
    if !(0 <= start <= lt.len() && is_char_boundary(lt, start)) || ql <= 0 {
        None
    } else {
        match find_from(lt, lq, start) {
            Some(m) => {
                let me = m + ql;
                if start <= m && me <= lt.len() && (m > start ==> can_slice(t, start, m))
                    && can_slice(t, m, me) {
                    let head: Seq<(Seq<u8>, bool)> = if m > start {
                        seq![(t.subrange(start, m), false)]
                    } else {
                        Seq::empty()
                    };
                    match spans_from(t, lt, lq, ql, me) {
                        Some(rest) => Some(head + seq![(t.subrange(m, me), true)] + rest),
                        None => None,
                    }
                } else {
                    None
                }
            },
            None => {
                if start < t.len() {
                    if is_char_boundary(t, start) {
                        Some(seq![(t.subrange(start, t.len() as int), false)])
                    } else {
                        None
                    }
                } else {
                    Some(Seq::empty())
                }
            },
        }
    }
}

/// How the picker splits a title for the query, as the bytes of each piece:
/// the whole title as one plain piece when the trimmed query is empty or
/// nothing was split off; else the pieces of `spans_from`. `None` where the
/// split panics: where lower-casing moves the byte offsets of the title off
/// its character boundaries.
pub open spec fn title_spans_of(title: Seq<char>, query: Seq<char>) -> Option<Seq<(Seq<u8>, bool)>> {
    let q = trim(query);
    let whole = seq![(encode_utf8(title), false)];
    if q.len() == 0 {
        Some(whole)
    } else {
        match spans_from(
            encode_utf8(title),
            encode_utf8(lowercase(title)),
            encode_utf8(lowercase(q)),
            encode_utf8(q).len() as int,
            0,
        ) {
            Some(s) => Some(
                if s.len() == 0 {
                    whole
                } else {
                    s
                },
            ),
            None => None,
        }
    }
}

/// A new string holding the characters of `s`.
fn to_owned_string(s: &str) -> (r: String)
    ensures
        r@ == s@,
{
    String::from_str(s)
}

proof fn lemma_encode_nonempty(chars: Seq<char>)
    requires
        chars.len() > 0,
    ensures
        encode_utf8(chars).len() > 0,
{
}

proof fn lemma_boundary_in_suffix(b: Seq<u8>, from: int, to: int)
    requires
        valid_utf8(b),
        is_char_boundary(b, from),
        is_char_boundary(b, to),
        0 <= from <= to <= b.len(),
    ensures
        is_char_boundary(b.subrange(from, b.len() as int), to - from),
{
    let s = b.subrange(from, b.len() as int);
    valid_utf8_split(b, from);
    is_char_boundary_start_end_of_seq(s);
    if from < to < b.len() {
        is_char_boundary_iff_not_is_continuation_byte(b, to);
        is_char_boundary_iff_not_is_continuation_byte(s, to - from);
        assert(s[to - from] == b[to]);
    }
}

/// The bytes `from..to` of `s` as a new string.
fn substring_bytes(s: &str, from: usize, to: usize) -> (r: String)
    requires
        can_slice(s.spec_bytes(), from as int, to as int),
    ensures
        encode_utf8(r@) == s.spec_bytes().subrange(from as int, to as int),
{
    proof {
        encode_utf8_valid_utf8(s@);
        lemma_boundary_in_suffix(s.spec_bytes(), from as int, to as int);
    }
    let (_, rest) = s.split_at(from);
    let (mid, _) = rest.split_at(to - from);
    assert(mid.spec_bytes() =~= s.spec_bytes().subrange(from as int, to as int));
    String::from_str(mid)
}

/// The first byte offset at or after `start` where `needle` occurs in `hay`.
fn find_bytes(hay: &[u8], needle: &[u8], start: usize) -> (r: Option<usize>)
    ensures
        r matches Some(p) ==> find_from(hay@, needle@, start as int) == Some(p as int),
        r is None ==> find_from(hay@, needle@, start as int) is None,
{
    let mut i = start;
    while i <= hay.len() && needle.len() <= hay.len() - i
        invariant
            start <= i,
            find_from(hay@, needle@, start as int) == find_from(hay@, needle@, i as int),
        decreases hay@.len() + 1 - i,
    {
        let hn = hay.len();
        let mut j: usize = 0;
        let mut same = true;
        while j < needle.len()
            invariant
                hn == hay@.len(),
                j <= needle@.len(),
                i + needle@.len() <= hay@.len(),
                same == (forall|k: int| 0 <= k < j ==> hay@[i + k] == needle@[k]),
            decreases needle@.len() - j,
        {
            if hay[i + j] != needle[j] {
                same = false;
            }
            j = j + 1;
        }
        if same {
            assert(hay@.subrange(i as int, i + needle@.len()) =~= needle@);
            return Some(i);
        }
        assert(hay@.subrange(i as int, i + needle@.len()) != needle@) by {
            let k = choose|k: int| 0 <= k < needle@.len() && hay@[i + k] != needle@[k];
            assert(hay@.subrange(i as int, i + needle@.len())[k] != needle@[k]);
        }
        assert(needle@.len() > 0) by {
            if needle@.len() == 0 {
                assert(hay@.subrange(i as int, i as int) =~= needle@);
            }
        }
        i = i + 1;
    }
    None
}

/// `Some` of `prefix` followed by the pieces in `rest`, or `None`.
pub open spec fn prepend_spans(
    prefix: Seq<(Seq<u8>, bool)>,
    rest: Option<Seq<(Seq<u8>, bool)>>,
) -> Option<Seq<(Seq<u8>, bool)>> {
    match rest {
        Some(r) => Some(prefix + r),
        None => None,
    }
}

/// Splits `title` into the pieces the picker shows for `query`: the matches
/// of the trimmed query, ignoring case, are highlighted. The matches are
/// found in the lower-cased title and cut out of the title at the same byte
/// offsets; `None` where such a cut falls inside a character (where the
/// picker panics). An ASCII title and query always split: lower-casing
/// keeps ASCII text at its byte offsets.
pub fn title_segments(title: &str, query: &str) -> (r: Option<Vec<TitleSegment>>)
    ensures
        match r {
            Some(v) => title_spans_of(title@, query@) == Some(segment_views(v@)),
            None => title_spans_of(title@, query@) is None,
        },
        is_ascii_chars(title@) && is_ascii_chars(query@) ==> r is Some,
{
    let q = trim_str(query);
    let mut segs: Vec<TitleSegment> = Vec::new();
    if q.as_str().is_empty() {
        segs.push(TitleSegment { text: to_owned_string(title), highlighted: false });
        assert(segment_views(segs@) =~= seq![(encode_utf8(title@), false)]);
        return Some(segs);
    }
    let tb = title.as_bytes();
    let lt_text = to_lowercase(title);
    let lt = lt_text.as_str().as_bytes();
    let lq_text = to_lowercase(q.as_str());
    let lq = lq_text.as_str().as_bytes();
    let ql = q.as_str().as_bytes().len();
    proof {
        lemma_encode_nonempty(q@);
        encode_utf8_valid_utf8(title@);
    }
    assert(q@ == trim(query@));
    assert(ql as int == encode_utf8(trim(query@)).len());
    assert(lq@ == encode_utf8(lowercase(trim(query@))));
    assert(lt@ == encode_utf8(lowercase(title@)));
    let ghost t = encode_utf8(title@);
    let ghost whole = spans_from(t, lt@, lq@, ql as int, 0);
    let ghost ascii = is_ascii_chars(title@) && is_ascii_chars(query@);
    proof {
        if ascii {
            lemma_ascii_boundaries(title@);
            lemma_ascii_lowercase_is_ascii(lt_text@, title@);
            lemma_ascii_boundaries(lt_text@);
            lemma_ascii_boundaries(q@);
            lemma_ascii_lowercase_is_ascii(lq_text@, q@);
            lemma_ascii_boundaries(lq_text@);
        }
    }
    let mut start: usize = 0;
    assert(prepend_spans(segment_views(segs@), whole) =~= whole) by {
        if whole is Some {
            assert(segment_views(segs@) + whole->0 =~= whole->0);
        }
    }
    loop
        invariant_except_break
            whole == prepend_spans(segment_views(segs@), spans_from(t, lt@, lq@, ql as int, start as int)),
        invariant
            tb@ == t,
            t == title.spec_bytes(),
            lt@ == encode_utf8(lt_text@),
            lt_text@ == lowercase(title@),
            ql > 0,
            whole == spans_from(t, lt@, lq@, ql as int, 0),
            whole is None ==> title_spans_of(title@, query@) is None,
            ascii == (is_ascii_chars(title@) && is_ascii_chars(query@)),
            ascii ==> lt@.len() == t.len() && lq@.len() == ql && start <= lt@.len(),
            ascii ==> forall|i: int| 0 <= i <= t.len() ==> #[trigger] is_char_boundary(t, i),
            ascii ==> forall|i: int| 0 <= i <= lt@.len() ==> #[trigger] is_char_boundary(lt@, i),
        ensures
            whole == Some(segment_views(segs@)),
        decreases lt@.len() + 1 - start,
    {
        let ghost before = segs@;
        let ghost rest = spans_from(t, lt@, lq@, ql as int, start as int);
        if !(start <= lt.len() && lt_text.as_str().is_char_boundary(start)) {
            return None;
        }
        proof {
            lemma_find_from_bounds(lt@, lq@, start as int);
        }
        match find_bytes(lt, lq, start) {
            Some(m) => {
                if ql > lt.len() - m {
                    return None;
                }
                let me = m + ql;
                if m > start && !(title.is_char_boundary(start) && title.is_char_boundary(m)) {
                    return None;
                }
                if !(me <= tb.len() && title.is_char_boundary(m) && title.is_char_boundary(me)) {
                    return None;
                }
                let ghost tail = spans_from(t, lt@, lq@, ql as int, me as int);
                if m > start {
                    segs.push(TitleSegment { text: substring_bytes(title, start, m), highlighted: false });
                }
                segs.push(TitleSegment { text: substring_bytes(title, m, me), highlighted: true });
                proof {
                    let head: Seq<(Seq<u8>, bool)> = if m > start {
                        seq![(t.subrange(start as int, m as int), false)]
                    } else {
                        Seq::empty()
                    };
                    let mid = seq![(t.subrange(m as int, me as int), true)];
                    assert(segment_views(segs@) =~= segment_views(before) + head + mid);
                    if tail is Some {
                        assert(rest == Some(head + mid + tail->0));
                        assert(segment_views(before) + (head + mid + tail->0) =~= segment_views(
                            segs@,
                        ) + tail->0);
                    }
                }
                start = me;
            },
            None => {
                if start < tb.len() {
                    if !title.is_char_boundary(start) {
                        return None;
                    }
                    proof {
                        encode_utf8_valid_utf8(title@);
                        is_char_boundary_start_end_of_seq(t);
                    }
                    segs.push(TitleSegment { text: substring_bytes(title, start, tb.len()), highlighted: false });
                }
                assert(segment_views(segs@) =~= segment_views(before) + rest->0);
                break;
            },
        }
    }
    if segs.len() == 0 {
        segs.push(TitleSegment { text: to_owned_string(title), highlighted: false });
        assert(segment_views(segs@) =~= seq![(encode_utf8(title@), false)]);
    }
    Some(segs)
}

/// The text of a list of pieces, read in order.
pub open spec fn segments_text<A>(s: Seq<(Seq<A>, bool)>) -> Seq<A>
    decreases s.len(),
{
    if s.len() == 0 {
        Seq::empty()
    } else {
        s[0].0 + segments_text(s.drop_first())
    }
}

proof fn lemma_segments_text_single<A>(x: (Seq<A>, bool))
    ensures
        segments_text(seq![x]) == x.0,
{
    let one = seq![x];
    assert(one.drop_first() =~= Seq::<(Seq<A>, bool)>::empty());
    assert(segments_text(one.drop_first()) =~= Seq::<A>::empty());
    assert(segments_text(one) =~= x.0 + Seq::<A>::empty());
    assert(x.0 + Seq::<A>::empty() =~= x.0);
}

proof fn lemma_segments_text_concat<A>(a: Seq<(Seq<A>, bool)>, b: Seq<(Seq<A>, bool)>)
    ensures
        segments_text(a + b) == segments_text(a) + segments_text(b),
    decreases a.len(),
{
    if a.len() == 0 {
        assert(a + b =~= b);
        assert(segments_text(a) + segments_text(b) =~= segments_text(b));
    } else {
        assert((a + b).drop_first() =~= a.drop_first() + b);
        lemma_segments_text_concat(a.drop_first(), b);
        assert(segments_text(a) + segments_text(b) =~= a[0].0 + (segments_text(a.drop_first())
            + segments_text(b)));
    }
}

proof fn lemma_spans_from_text(t: Seq<u8>, lt: Seq<u8>, lq: Seq<u8>, ql: int, start: int)
    requires
        0 <= start <= t.len(),
        spans_from(t, lt, lq, ql, start) is Some,
    ensures
        segments_text(spans_from(t, lt, lq, ql, start)->0) == t.subrange(start, t.len() as int),
    decreases lt.len() + 1 - start,
{
    lemma_find_from_bounds(lt, lq, start);
    match find_from(lt, lq, start) {
        Some(m) => {
            let me = m + ql;
            let mid = seq![(t.subrange(m, me), true)];
            let head: Seq<(Seq<u8>, bool)> = if m > start {
                seq![(t.subrange(start, m), false)]
            } else {
                Seq::empty()
            };
            let tail = spans_from(t, lt, lq, ql, me)->0;
            lemma_spans_from_text(t, lt, lq, ql, me);
            lemma_segments_text_concat(head + mid, tail);
            lemma_segments_text_concat(head, mid);
            lemma_segments_text_single((t.subrange(m, me), true));
            if m > start {
                lemma_segments_text_single((t.subrange(start, m), false));
            } else {
                assert(segments_text(head) =~= t.subrange(start, m));
            }
            assert(t.subrange(start, m) + t.subrange(m, me) + t.subrange(me, t.len() as int)
                =~= t.subrange(start, t.len() as int));
        },
        None => {
            let s = spans_from(t, lt, lq, ql, start)->0;
            if start < t.len() {
                lemma_segments_text_single((t.subrange(start, t.len() as int), false));
            } else {
                assert(segments_text(s) =~= t.subrange(start, t.len() as int));
            }
        },
    }
}

/// Where the picker can split a title, reading its pieces in order gives back
/// the title's bytes, whatever the query.
pub proof fn lemma_title_segments_spell_title(title: Seq<char>, query: Seq<char>)
    requires
        title_spans_of(title, query) is Some,
    ensures
        segments_text(title_spans_of(title, query)->0) == encode_utf8(title),
{
    let t = encode_utf8(title);
    lemma_segments_text_single((t, false));
    let q = trim(query);
    if q.len() > 0 {
        let lt = encode_utf8(lowercase(title));
        let lq = encode_utf8(lowercase(q));
        let ql = encode_utf8(q).len() as int;
        if spans_from(t, lt, lq, ql, 0)->0.len() > 0 {
            lemma_spans_from_text(t, lt, lq, ql, 0);
            assert(t.subrange(0, t.len() as int) =~= t);
        }
    }
}

/// Where piece `k` of `s` begins in the text the pieces spell: the length of
/// the text of the pieces before it.
pub open spec fn piece_start<A>(s: Seq<(Seq<A>, bool)>, k: int) -> int {
    segments_text(s.take(k)).len() as int
}

proof fn lemma_piece_start_after<A>(
    head: Seq<(Seq<A>, bool)>,
    rest: Seq<(Seq<A>, bool)>,
    k: int,
)
    requires
        0 <= k <= rest.len(),
    ensures
        piece_start(head + rest, head.len() + k) == segments_text(head).len() + piece_start(rest, k),
{
    assert((head + rest).take(head.len() + k) =~= head + rest.take(k));
    lemma_segments_text_concat(head, rest.take(k));
}

proof fn lemma_spans_from_pieces(t: Seq<u8>, lt: Seq<u8>, lq: Seq<u8>, ql: int, start: int, k: int)
    requires
        0 <= start,
        spans_from(t, lt, lq, ql, start) is Some,
        0 <= k < spans_from(t, lt, lq, ql, start)->0.len(),
    ensures
        ({
            let s = spans_from(t, lt, lq, ql, start)->0;
            let a = start + piece_start(s, k);
            &&& s[k].1 ==> occurs_at(lt, lq, a) && s[k].0.len() == ql
            &&& !s[k].1 ==> forall|p: int|
                a <= p < a + s[k].0.len() ==> !#[trigger] occurs_at(lt, lq, p)
        }),
    decreases lt.len() + 1 - start,
{
    let s = spans_from(t, lt, lq, ql, start)->0;
    lemma_find_from_bounds(lt, lq, start);
    assert(s.take(0) =~= Seq::<(Seq<u8>, bool)>::empty());
    assert(segments_text(s.take(0)) =~= Seq::<u8>::empty());
    match find_from(lt, lq, start) {
        Some(m) => {
            let me = m + ql;
            let mid = seq![(t.subrange(m, me), true)];
            let head: Seq<(Seq<u8>, bool)> = if m > start {
                seq![(t.subrange(start, m), false)]
            } else {
                Seq::empty()
            };
            let rest = spans_from(t, lt, lq, ql, me)->0;
            assert(s == head + mid + rest);
            let h = head.len() as int;
            lemma_segments_text_concat(head, mid);
            lemma_segments_text_single((t.subrange(m, me), true));
            if m > start {
                lemma_segments_text_single((t.subrange(start, m), false));
            } else {
                assert(segments_text(head) =~= Seq::<u8>::empty());
            }
            if k < h {
                assert forall|p: int| start <= p < m implies !#[trigger] occurs_at(lt, lq, p) by {
                    if occurs_at(lt, lq, p) {
                        lemma_find_from_first(lt, lq, start, p);
                    }
                }
            } else if k == h {
                lemma_piece_start_after(head, mid + rest, 0);
                assert(head + (mid + rest) =~= s);
            } else {
                lemma_piece_start_after(head + mid, rest, k - h - 1);
                lemma_spans_from_pieces(t, lt, lq, ql, me, k - h - 1);
            }
        },
        None => {
            assert forall|p: int| start <= p implies !#[trigger] occurs_at(lt, lq, p) by {
                if occurs_at(lt, lq, p) {
                    lemma_find_from_first(lt, lq, start, p);
                }
            }
        },
    }
}

/// The pieces the picker shows for a query that is not blank highlight every
/// match, as found in the lower-cased title at the same byte offsets: each
/// highlighted piece begins where the lower-cased query occurs in the
/// lower-cased title and is as long as the query; and no plain piece holds a
/// position where the lower-cased query begins, so that after one match the
/// next occurrence that does not overlap it is highlighted too.
pub proof fn lemma_title_segments_highlight_every_match(title: Seq<char>, query: Seq<char>, k: int)
    requires
        trim(query).len() > 0,
        title_spans_of(title, query) is Some,
        0 <= k < title_spans_of(title, query)->0.len(),
    ensures
        ({
            let s = title_spans_of(title, query)->0;
            let lt = encode_utf8(lowercase(title));
            let lq = encode_utf8(lowercase(trim(query)));
            let a = piece_start(s, k);
            &&& s[k].1 ==> occurs_at(lt, lq, a) && s[k].0.len() == encode_utf8(trim(query)).len()
            &&& !s[k].1 ==> forall|p: int|
                a <= p < a + s[k].0.len() ==> !#[trigger] occurs_at(lt, lq, p)
        }),
{
    let t = encode_utf8(title);
    let lt = encode_utf8(lowercase(title));
    let q = trim(query);
    let lq = encode_utf8(lowercase(q));
    let ql = encode_utf8(q).len() as int;
    let sp = spans_from(t, lt, lq, ql, 0)->0;
    if sp.len() == 0 {
        lemma_find_from_bounds(lt, lq, 0);
        assert(t.len() == 0);
    } else {
        lemma_spans_from_pieces(t, lt, lq, ql, 0, k);
    }
}

/// The key codes the picker tells apart; `Other` stands for every other key
/// (Enter, Esc, Tab, function keys, ...), none of which edits the query.
#[derive(Debug, Clone, Copy, PartialEq, Eq)]
pub enum PickerKeyCode {
    Char(char),
    Backspace,
    Delete,
    Left,
    Right,
    Home,
    End,
    Up,
    Down,
    Other,
}

/// The Shift modifier bit (as crossterm numbers it).
pub const KEY_MODIFIER_SHIFT: u8 = 0b0000_0001;

/// The Control modifier bit (as crossterm numbers it).
pub const KEY_MODIFIER_CONTROL: u8 = 0b0000_0010;

/// Whether a key event is a press, a repeat or a release (in crossterm's
/// order of `KeyEventKind`).
#[derive(Debug, Clone, Copy, PartialEq, Eq)]
pub enum PickerKeyKind {
    Press,
    Repeat,
    Release,
}

/// A key event forwarded to the picker: its code, its modifier bits and its
/// kind.
#[derive(Debug, Clone, Copy, PartialEq, Eq)]
pub struct PickerKey {
    pub code: PickerKeyCode,
    pub modifiers: u8,
    pub kind: PickerKeyKind,
}

/// The value of a `tui_input::Input` made from `query` (cursor at its end)
/// after it handles the press of `key`.
pub uninterp spec fn query_after_key(query: Seq<char>, key: PickerKey) -> Seq<char>;

/// Calls `tui_input::Input::handle_event` on `Input::from(query)` with the
/// crossterm event of `key`, and returns the input's value; the value is named
/// by `query_after_key`. The contract also says what the source of tui-input
/// shows for a character pressed (or repeated) with no modifier or with Shift
/// alone: it is inserted at the cursor, which `Input::from` puts at the end.
/// Up and Down never reach it: the picker moves the selection on them.
#[verifier::external_body]
fn edit_query(query: &str, key: &PickerKey) -> (r: String)
    requires
        !(key.code is Up),
        !(key.code is Down),
    ensures
        r@ == query_after_key(query@, *key),
        key.code is Char && key.kind != PickerKeyKind::Release && (key.modifiers == 0
            || key.modifiers == KEY_MODIFIER_SHIFT) ==> r@ == query@.push(key.code->Char_0),
{
    let code = match key.code {
        PickerKeyCode::Char(c) => KeyCode::Char(c),
        PickerKeyCode::Backspace => KeyCode::Backspace,
        PickerKeyCode::Delete => KeyCode::Delete,
        PickerKeyCode::Left => KeyCode::Left,
        PickerKeyCode::Right => KeyCode::Right,
        PickerKeyCode::Home => KeyCode::Home,
        PickerKeyCode::End => KeyCode::End,
        _ => KeyCode::Null,
    };
    let kind = [KeyEventKind::Press, KeyEventKind::Repeat, KeyEventKind::Release][key.kind as usize];
    let mut input = Input::from(query);
    input.handle_event(&Event::Key(KeyEvent::new_with_kind(code, KeyModifiers::from_bits_retain(key.modifiers), kind)));
    input.value().to_string()
}

/// A plain character typed into the picker: a character other than the
/// movement keys 'j' and 'k', pressed or repeated with no modifier or with
/// Shift alone.
pub open spec fn types_plain_char(key: PickerKey) -> bool {
    &&& key.code is Char
    &&& key.code->Char_0 != 'j'
    &&& key.code->Char_0 != 'k'
    &&& key.kind != PickerKeyKind::Release
    &&& (key.modifiers == 0 || key.modifiers == KEY_MODIFIER_SHIFT)
}

/// What the picker is told to do.
#[derive(Debug, Clone, PartialEq, Eq)]
pub enum PickerAction {
    EnterTabPickerMode,
    ExitTabPickerMode,
    KeyEventForTabPicker(PickerKey),
    TabPickerMoveUp,
    TabPickerMoveDown,
    ConfirmTabPicker,
    SetActiveCommandIndex(u32),
    /// Any other action of the application; the picker ignores it.
    Other,
}

/// What the picker asks the application to do, in order.
#[derive(Debug, Clone, PartialEq, Eq)]
pub enum PickerEffect {
    /// Announce the picker's new query.
    SetTabPickerQuery(String),
    /// Switch to the command at this index.
    ActivateCommandIndex(usize),
    /// Leave the picker.
    ExitTabPickerMode,
}

/// The view of a `PickerEffect`.
pub enum PickerEffectView {
    SetTabPickerQuery(Seq<char>),
    ActivateCommandIndex(usize),
    ExitTabPickerMode,
}

/// The view of an effect.
pub open spec fn effect_view(e: PickerEffect) -> PickerEffectView {
    match e {
        PickerEffect::SetTabPickerQuery(q) => PickerEffectView::SetTabPickerQuery(q@),
        PickerEffect::ActivateCommandIndex(i) => PickerEffectView::ActivateCommandIndex(i),
        PickerEffect::ExitTabPickerMode => PickerEffectView::ExitTabPickerMode,
    }
}

/// The views of a list of effects.
pub open spec fn effect_views(v: Seq<PickerEffect>) -> Seq<PickerEffectView> {
    v.map_values(|e: PickerEffect| effect_view(e))
}

/// The keys that move the selection: Up and `k` move it up, Down and `j`
/// down, whatever the modifiers.
pub open spec fn key_movement(key: PickerKey) -> Option<bool> {
    match key.code {
        PickerKeyCode::Up => Some(false),
        PickerKeyCode::Down => Some(true),
        PickerKeyCode::Char(c) => if c == 'k' {
            Some(false)
        } else if c == 'j' {
            Some(true)
        } else {
            None
        },
        _ => None,
    }
}

/// Control-U clears the query.
pub open spec fn key_clears_query(key: PickerKey) -> bool {
    key.code == PickerKeyCode::Char('u') && (key.modifiers & KEY_MODIFIER_CONTROL)
        == KEY_MODIFIER_CONTROL
}

/// A row of the picker: the command it lists, whether that command is the
/// active one, whether the row is selected, and the pieces of its title.
#[derive(Debug, Clone, PartialEq, Eq)]
pub struct PickerRow {
    pub command_index: usize,
    pub is_active_command: bool,
    pub is_selected: bool,
    pub segments: Vec<TitleSegment>,
}

/// A rectangle of the terminal, in cells.
#[derive(Debug, Clone, Copy, PartialEq, Eq)]
pub struct PickerArea {
    pub x: u16,
    pub y: u16,
    pub width: u16,
    pub height: u16,
}

/// `a - b`, or 0 where that is negative.
pub open spec fn saturating_diff(a: int, b: int) -> int {
    if a > b {
        a - b
    } else {
        0
    }
}

/// The height of the list: one line per row, between one and eight, plus
/// the two borders.
pub open spec fn popup_list_height(rows: int) -> int {
    (if rows < 1 {
        1
    } else if rows > 8 {
        8
    } else {
        rows
    }) + 2
}

/// The popup's height: the list's, but no more than the area less two lines.
pub open spec fn popup_height(area: PickerArea, rows: int) -> int {
    let list = popup_list_height(rows);
    let room = saturating_diff(area.height as int, 2);
    if list < room {
        list
    } else {
        room
    }
}

/// The popup's width: the area's less four cells, and at least twenty.
pub open spec fn popup_width(area: PickerArea) -> int {
    let w = saturating_diff(area.width as int, 4);
    if w > 20 {
        w
    } else {
        20
    }
}

/// The popup's left edge: centred in the area.
pub open spec fn popup_x(area: PickerArea) -> int {
    area.x + saturating_diff(area.width as int, popup_width(area)) / 2
}

/// The popup's top edge: two lines above the bottom of the area (the bottom
/// taken as at most the last cell of the screen), and not above the top of the
/// screen.
pub open spec fn popup_y(area: PickerArea, rows: int) -> int {
    let bottom = if area.y + area.height > u16::MAX {
        u16::MAX as int
    } else {
        area.y + area.height
    };
    saturating_diff(bottom, popup_height(area, rows) + 2)
}

/// Where the picker draws its list of `rows` rows inside `area`.
pub fn popup_area(area: PickerArea, rows: usize) -> (r: PickerArea)
    requires
        popup_x(area) <= u16::MAX,
    ensures
        r.x == popup_x(area),
        r.y == popup_y(area, rows as int),
        r.width == popup_width(area),
        r.height == popup_height(area, rows as int),
{
    let shown: u16 = if rows < 1 {
        1
    } else if rows > 8 {
        8
    } else {
        rows as u16
    };
    let list_height: u16 = shown + 2;
    let popup_height = list_height.min(area.height.saturating_sub(2));
    let popup_width = area.width.saturating_sub(4).max(20);
    PickerArea {
        x: area.x + (area.width.saturating_sub(popup_width)) / 2,
        y: area.y.saturating_add(area.height).saturating_sub(popup_height + 2),
        width: popup_width,
        height: popup_height,
    }
}

/// The picker's state: the watched commands, the active one, the query typed
/// so far, whether the picker is open, and the selected row.
pub struct TabPickerView {
    pub commands: Seq<Seq<Seq<char>>>,
    pub active_command_index: u32,
    pub query: Seq<char>,
    pub is_active: bool,
    pub selection: nat,
}

impl TabPickerView {
    /// The rows listed for the query: indices of matching commands.
    pub open spec fn filtered(self) -> Seq<usize> {
        filtered_indices(self.commands, self.query)
    }

    /// The selection is a listed row, or the first row when none is listed.
    pub open spec fn wf(self) -> bool {
        self.selection == 0 || self.selection < self.filtered().len()
    }

    /// This state with another query and the selection on the first row.
    pub open spec fn with_query(self, query: Seq<char>) -> TabPickerView {
        TabPickerView { query, selection: 0, ..self }
    }

    /// This state with the selection moved one row down (`forward`) or up,
    /// wrapping around; unchanged when no row is listed.
    pub open spec fn moved(self, forward: bool) -> TabPickerView {
        let count = self.filtered().len();
        if count == 0 {
            self
        } else {
            let step: int = if forward { 1 } else { -1 };
            TabPickerView { selection: ((self.selection + step) % (count as int)) as nat, ..self }
        }
    }

    /// The title of the command listed on row `row`.
    pub open spec fn row_title(self, row: int) -> Seq<char> {
        join_with_space(self.commands[self.filtered()[row] as int])
    }

    /// The query and every listed title are ASCII.
    pub open spec fn rows_are_ascii(self) -> bool {
        &&& is_ascii_chars(self.query)
        &&& forall|i: int|
            0 <= i < self.filtered().len() ==> is_ascii_chars(#[trigger] self.row_title(i))
    }

    /// Every listed title can be split for the query (the picker draws
    /// without panicking).
    pub open spec fn rows_can_split(self) -> bool {
        forall|i: int|
            0 <= i < self.filtered().len() ==> (#[trigger] title_spans_of(
                self.row_title(i),
                self.query,
            )) is Some
    }

    /// The state and effects after the press of `key`: a movement key moves
    /// the selection; Control-U clears the query; any other key edits the
    /// query as the text input does, and the new query is announced.
    pub open spec fn after_key(self, key: PickerKey) -> (TabPickerView, Seq<PickerEffectView>) {
        match key_movement(key) {
            Some(forward) => (self.moved(forward), Seq::empty()),
            None => {
                let query = if key_clears_query(key) {
                    Seq::<char>::empty()
                } else {
                    query_after_key(self.query, key)
                };
                (self.with_query(query), seq![PickerEffectView::SetTabPickerQuery(query)])
            },
        }
    }

    /// The state and effects after `action`.
    pub open spec fn step(self, action: PickerAction) -> (TabPickerView, Seq<PickerEffectView>) {
        match action {
            PickerAction::EnterTabPickerMode => (
                TabPickerView { is_active: true, ..self }.with_query(Seq::empty()),
                seq![PickerEffectView::SetTabPickerQuery(Seq::empty())],
            ),
            PickerAction::ExitTabPickerMode => (
                TabPickerView { is_active: false, ..self }.with_query(Seq::empty()),
                seq![PickerEffectView::SetTabPickerQuery(Seq::empty())],
            ),
            PickerAction::KeyEventForTabPicker(key) => self.after_key(key),
            PickerAction::TabPickerMoveUp => (self.moved(false), Seq::empty()),
            PickerAction::TabPickerMoveDown => (self.moved(true), Seq::empty()),
            PickerAction::ConfirmTabPicker => if self.selection < self.filtered().len() {
                (
                    self,
                    seq![
                        PickerEffectView::ActivateCommandIndex(self.filtered()[self.selection as int]),
                        PickerEffectView::ExitTabPickerMode,
                    ],
                )
            } else {
                (self, Seq::empty())
            },
            PickerAction::SetActiveCommandIndex(index) => (
                TabPickerView { active_command_index: index, ..self },
                Seq::empty(),
            ),
            PickerAction::Other => (self, Seq::empty()),
        }
    }
}

/// Changing the query puts the selection back on the first row, whatever row
/// was selected before: after an action that announces a query (entering,
/// leaving, typing, deleting, clearing), the query is the announced one and
/// the first row is selected; and no action changes the query without
/// selecting the first row.
pub proof fn lemma_query_change_selects_first_row(state: TabPickerView, action: PickerAction)
    ensures
        state.step(action).1.len() > 0 && state.step(action).1[0] is SetTabPickerQuery ==> {
            &&& state.step(action).0.selection == 0
            &&& state.step(action).0.query == state.step(action).1[0]->SetTabPickerQuery_0
        },
        state.step(action).0.query != state.query ==> state.step(action).0.selection == 0,
{
}

/// Every action keeps the selection on a listed row (or on the first row when
/// none is listed).
pub proof fn lemma_step_keeps_selection_in_range(state: TabPickerView, action: PickerAction)
    requires
        state.wf(),
    ensures
        state.step(action).0.wf(),
{
    let count = state.filtered().len() as int;
    if count > 0 {
        lemma_mod_bound(state.selection as int + 1, count);
        lemma_mod_bound(state.selection as int - 1, count);
    }
}

proof fn lemma_mod_bound(x: int, m: int)
    requires
        m > 0,
        x >= -m,
    ensures
        0 <= x % m < m,
{
    if x >= 0 {
        lemma_mod_pos_bound(x, m);
    } else {
        lemma_mod_add_multiples_vanish(x, m);
        lemma_mod_pos_bound(m + x, m);
    }
}

/// Moving the selection down and then up again leaves it where it was.
pub proof fn lemma_move_down_then_up(state: TabPickerView)
    requires
        state.wf(),
    ensures
        state.moved(true).moved(false) == state,
{
    let count = state.filtered().len() as int;
    if count > 0 {
        let s = state.selection as int;
        let down = state.moved(true);
        assert(down.filtered() == state.filtered());
        if s + 1 == count {
            lemma_mod_self_0(count);
            lemma_mod_add_multiples_vanish(-1, count);
            lemma_small_mod((count - 1) as nat, count as nat);
        } else {
            lemma_small_mod((s + 1) as nat, count as nat);
            lemma_small_mod(s as nat, count as nat);
        }
    }
}

/// The tab picker.
pub struct TabPicker {
    runtime_config: RuntimeConfig,
    query: String,
    is_active: bool,
    selection: usize,
}

impl View for TabPicker {
    type V = TabPickerView;

    closed spec fn view(&self) -> TabPickerView {
        TabPickerView {
            commands: self.runtime_config.commands_view(),
            active_command_index: self.runtime_config.active_command_index,
            query: self.query@,
            is_active: self.is_active,
            selection: self.selection as nat,
        }
    }
}

impl TabPicker {
    #[verifier::type_invariant]
    closed spec fn selection_in_range(self) -> bool {
        self@.wf()
    }

    /// A closed picker over the commands of `runtime_config`, with an empty
    /// query.
    pub fn new(runtime_config: RuntimeConfig) -> (r: Self)
        ensures
            r@.commands == runtime_config.commands_view(),
            r@.active_command_index == runtime_config.active_command_index,
            r@.query == Seq::<char>::empty(),
            !r@.is_active,
            r@.selection == 0,
    {
        TabPicker { runtime_config, query: String::new(), is_active: false, selection: 0 }
    }

    /// Whether the picker is open.
    pub fn is_active(&self) -> (r: bool)
        ensures
            r == self@.is_active,
    {
        self.is_active
    }

    /// The query typed so far.
    pub fn query(&self) -> (r: &str)
        ensures
            r@ == self@.query,
    {
        self.query.as_str()
    }

    /// The selected row.
    pub fn selection(&self) -> (r: usize)
        ensures
            r == self@.selection,
    {
        self.selection
    }

    /// The indices of the commands listed for the query.
    pub fn filtered_indices(&self) -> (r: Vec<usize>)
        ensures
            r@ == self@.filtered(),
    {
        filter_command_indices(&self.runtime_config, self.query.as_str())
    }

    /// The command index on the selected row, if a row is listed there.
    pub fn filtered_selection_index(&self) -> (r: Option<usize>)
        ensures
            r == (if self@.selection < self@.filtered().len() {
                Some(self@.filtered()[self@.selection as int])
            } else {
                None::<usize>
            }),
    {
        let filtered = self.filtered_indices();
        if self.selection < filtered.len() {
            Some(filtered[self.selection])
        } else {
            None
        }
    }

    /// The rows the picker lists, one per matching command, in order; `None`
    /// where a listed title cannot be split for the query (where drawing the
    /// picker panics).
    pub fn rows(&self) -> (r: Option<Vec<PickerRow>>)
        ensures
            match r {
                Some(v) => {
                    &&& self@.rows_can_split()
                    &&& v@.len() == self@.filtered().len()
                    &&& forall|i: int|
                        0 <= i < v@.len() ==> {
                            let index = self@.filtered()[i];
                            &&& (index as int) < self@.commands.len()
                            &&& #[trigger] v@[i].command_index == index
                            &&& v@[i].is_active_command == (index as int
                                == self@.active_command_index as int)
                            &&& v@[i].is_selected == (i == self@.selection)
                            &&& title_spans_of(self@.row_title(i), self@.query) == Some(
                                segment_views(v@[i].segments@),
                            )
                        }
                },
                None => !self@.rows_can_split(),
            },
            self@.rows_are_ascii() ==> r is Some,
    {
        let filtered = self.filtered_indices();
        let ghost cv = self.runtime_config.commands_view();
        let n = self.runtime_config.commands.len();
        assert(cv.len() == n);
        proof {
            lemma_filtered_indices_valid(cv, self.query@);
        }
        let active = self.runtime_config.active_command_index as usize;
        let mut rows: Vec<PickerRow> = Vec::new();
        let mut row: usize = 0;
        while row < filtered.len()
            invariant
                row <= filtered@.len(),
                filtered@ == self@.filtered(),
                self@.rows_are_ascii() ==> is_ascii_chars(self@.query),
                self@.rows_are_ascii() ==> forall|i: int|
                    0 <= i < filtered@.len() ==> is_ascii_chars(#[trigger] self@.row_title(i)),
                cv == self@.commands,
                cv.len() == self.runtime_config.commands@.len(),
                active as int == self@.active_command_index as int,
                forall|i: int|
                    0 <= i < filtered@.len() ==> (#[trigger] filtered@[i] as int) < cv.len(),
                rows@.len() == row,
                forall|i: int|
                    0 <= i < row ==> {
                        let index = self@.filtered()[i];
                        &&& #[trigger] rows@[i].command_index == index
                        &&& rows@[i].is_active_command == (index as int
                            == self@.active_command_index as int)
                        &&& rows@[i].is_selected == (i == self@.selection)
                    },
                forall|i: int|
                    0 <= i < row ==> title_spans_of(self@.row_title(i), self@.query) == Some(
                        segment_views(#[trigger] rows@[i].segments@),
                    ),
            decreases filtered@.len() - row,
        {
            let index = filtered[row];
            assert(cv[index as int] == token_views(self.runtime_config.commands@[index as int]@));
            let title = command_title(self.runtime_config.commands[index].as_slice());
            assert(title@ == self@.row_title(row as int));
            let query = self.query.as_str();
            assert(query@ == self@.query);
            let segments = match title_segments(title.as_str(), query) {
                Some(v) => v,
                None => {
                    assert(title_spans_of(self@.row_title(row as int), self@.query) is None);
                    assert(!is_ascii_chars(self@.row_title(row as int)) || !is_ascii_chars(self@.query));
                    return None;
                },
            };
            let ghost before = rows@;
            rows.push(
                PickerRow {
                    command_index: index,
                    is_active_command: index == active,
                    is_selected: row == self.selection,
                    segments,
                },
            );
            assert(rows@[row as int].command_index == index);
            assert(title_spans_of(self@.row_title(row as int), self@.query) == Some(
                segment_views(rows@[row as int].segments@),
            ));
            assert forall|i: int| 0 <= i < row + 1 implies {
                let index = self@.filtered()[i];
                &&& #[trigger] rows@[i].command_index == index
                &&& rows@[i].is_active_command == (index as int == self@.active_command_index as int)
                &&& rows@[i].is_selected == (i == self@.selection)
            } by {
                if i < row {
                    assert(rows@[i] == before[i]);
                    assert(before[i].command_index == self@.filtered()[i]);
                }
            }
            assert forall|i: int| 0 <= i < row + 1 implies title_spans_of(self@.row_title(i), self@.query) == Some(
                segment_views(#[trigger] rows@[i].segments@),
            ) by {
                if i < row {
                    assert(rows@[i] == before[i]);
                    assert(before[i].command_index == self@.filtered()[i]);
                }
            }
            assert(forall|i: int|
                    0 <= i < row + 1 ==> {
                        let index = self@.filtered()[i];
                        &&& #[trigger] rows@[i].command_index == index
                        &&& rows@[i].is_active_command == (index as int
                            == self@.active_command_index as int)
                        &&& rows@[i].is_selected == (i == self@.selection)
                    });
            assert(rows@.len() == row + 1);
            row = row + 1;
        }
        assert forall|i: int| 0 <= i < rows@.len() implies (self@.filtered()[i] as int)
            < self@.commands.len() by {
            assert((filtered@[i] as int) < cv.len());
        }
        assert forall|i: int| 0 <= i < self@.filtered().len() implies (#[trigger] title_spans_of(
            self@.row_title(i),
            self@.query,
        )) is Some by {
            assert(title_spans_of(self@.row_title(i), self@.query) == Some(
                segment_views(rows@[i].segments@),
            ));
        }
        Some(rows)
    }

    /// Moves the selection one row down (`forward`) or up, wrapping around.
    fn move_selection(&mut self, forward: bool)
        ensures
            final(self)@ == old(self)@.moved(forward),
    {
        proof {
            use_type_invariant(&*self);
        }
        let count = self.filtered_indices().len();
        if count == 0 {
            return;
        }
        let ghost sel = self.selection as int;
        let ghost c = count as int;
        if forward {
            if self.selection + 1 >= count {
                proof {
                    lemma_mod_self_0(c);
                }
                self.selection = 0;
            } else {
                proof {
                    lemma_small_mod((sel + 1) as nat, c as nat);
                }
                self.selection = self.selection + 1;
            }
        } else {
            if self.selection == 0 {
                proof {
                    lemma_mod_add_multiples_vanish(-1, c);
                    lemma_small_mod((c - 1) as nat, c as nat);
                }
                self.selection = count - 1;
            } else {
                proof {
                    lemma_small_mod((sel - 1) as nat, c as nat);
                }
                self.selection = self.selection - 1;
            }
        }
    }

    /// Opens the picker with an empty query.
    fn enter_mode(&mut self) -> (effect: PickerEffect)
        ensures
            final(self)@ == (TabPickerView { is_active: true, ..old(self)@ }).with_query(
                Seq::empty(),
            ),
            effect_view(effect) == PickerEffectView::SetTabPickerQuery(Seq::empty()),
    {
        self.selection = 0;
        self.is_active = true;
        self.set_query(String::new())
    }

    /// Closes the picker and clears the query.
    fn exit_mode(&mut self) -> (effect: PickerEffect)
        ensures
            final(self)@ == (TabPickerView { is_active: false, ..old(self)@ }).with_query(
                Seq::empty(),
            ),
            effect_view(effect) == PickerEffectView::SetTabPickerQuery(Seq::empty()),
    {
        self.selection = 0;
        self.is_active = false;
        self.set_query(String::new())
    }

    /// Answers the press of `key`.
    fn handle_key_event(&mut self, key: PickerKey) -> (effects: Vec<PickerEffect>)
        ensures
            (final(self)@, effect_views(effects@)) == old(self)@.after_key(key),
            types_plain_char(key) ==> final(self)@.query == old(self)@.query.push(key.code->Char_0),
    {
        let mut effects: Vec<PickerEffect> = Vec::new();
        let ghost m = key.modifiers;
        assert(m == 0 || m == KEY_MODIFIER_SHIFT ==> (m & KEY_MODIFIER_CONTROL) != KEY_MODIFIER_CONTROL)
            by (bit_vector);
        match key.code {
            PickerKeyCode::Up => {
                self.move_selection(false);
            },
            PickerKeyCode::Char('k') => {
                self.move_selection(false);
            },
            PickerKeyCode::Down => {
                self.move_selection(true);
            },
            PickerKeyCode::Char('j') => {
                self.move_selection(true);
            },
            PickerKeyCode::Char('u') if (key.modifiers & KEY_MODIFIER_CONTROL)
                == KEY_MODIFIER_CONTROL => {
                effects.push(self.set_query(String::new()));
            },
            _ => {
                let edited = edit_query(self.query.as_str(), &key);
                effects.push(self.set_query(edited));
            },
        }
        assert(effect_views(effects@) == old(self)@.after_key(key).1);
        effects
    }

    /// Answers `action`: the new state is kept, and the effects are returned
    /// for the caller to carry out in order.
    pub fn update(&mut self, action: PickerAction) -> (effects: Vec<PickerEffect>)
        ensures
            (final(self)@, effect_views(effects@)) == old(self)@.step(action),
            action matches PickerAction::KeyEventForTabPicker(key) ==> (types_plain_char(key)
                ==> final(self)@.query == old(self)@.query.push(key.code->Char_0)),
    {
        let mut effects: Vec<PickerEffect> = Vec::new();
        match action {
            PickerAction::EnterTabPickerMode => {
                effects.push(self.enter_mode());
            },
            PickerAction::ExitTabPickerMode => {
                effects.push(self.exit_mode());
            },
            PickerAction::KeyEventForTabPicker(key) => {
                effects = self.handle_key_event(key);
            },
            PickerAction::TabPickerMoveUp => {
                self.move_selection(false);
            },
            PickerAction::TabPickerMoveDown => {
                self.move_selection(true);
            },
            PickerAction::ConfirmTabPicker => {
                if let Some(index) = self.filtered_selection_index() {
                    effects.push(PickerEffect::ActivateCommandIndex(index));
                    effects.push(PickerEffect::ExitTabPickerMode);
                }
            },
            PickerAction::SetActiveCommandIndex(index) => {
                proof {
                    use_type_invariant(&*self);
                }
                self.runtime_config.active_command_index = index;
            },
            PickerAction::Other => {},
        }
        assert(effect_views(effects@) == old(self)@.step(action).1);
        effects
    }

    /// Replaces the query, selects the first row, and announces the query.
    fn set_query(&mut self, query: String) -> (effect: PickerEffect)
        ensures
            final(self)@ == old(self)@.with_query(query@),
            effect == PickerEffect::SetTabPickerQuery(query),
    {
        self.selection = 0;
        let announced = query.clone();
        self.query = query;
        PickerEffect::SetTabPickerQuery(announced)
    }
}

} // verus!
