//! Finding a watched command by its title: titles, and the case-insensitive
//! substring filter of the picker.

use vstd::prelude::*;
use crate::store::RuntimeConfig;
use crate::text::{
    chars_of, find_chars, find_from, lemma_find_from_bounds, lemma_find_from_finds, join_space, join_with_space, lowercase, to_lowercase,
    token_views, trim, trim_str,
};

verus! {

/// The title of a command: its words joined with single spaces.
pub fn command_title(command: &[String]) -> (r: String)
    ensures
        r@ == join_with_space(token_views(command@)),
{
    join_space(command)
}

/// The title of `command` matches the lower-cased query `needle` when its
/// lower-cased form contains it.
pub open spec fn title_matches(command: Seq<Seq<char>>, needle: Seq<char>) -> bool {
    find_from(lowercase(join_with_space(command)), needle, 0) is Some
}

/// The indices of the commands whose titles match `needle`, in order.
pub open spec fn matching_indices(commands: Seq<Seq<Seq<char>>>, needle: Seq<char>) -> Seq<usize>
    decreases commands.len(),
{
    if commands.len() == 0 {
        Seq::empty()
    } else {
        let prev = matching_indices(commands.drop_last(), needle);
        if title_matches(commands.last(), needle) {
            prev.push((commands.len() - 1) as usize)
        } else {
            prev
        }
    }
}

/// The picker's list for `query`: every index when the trimmed query is
/// empty; else the indices of the commands whose lower-cased titles contain
/// the lower-cased trimmed query.
pub open spec fn filtered_indices(commands: Seq<Seq<Seq<char>>>, query: Seq<char>) -> Seq<usize> {
    if trim(query).len() == 0 {
        Seq::new(commands.len(), |i: int| i as usize)
    } else {
        matching_indices(commands, lowercase(trim(query)))
    }
}

/// Indices into `runtime_config.commands` whose titles match the query
/// (Vimium-style substring, ignoring case).
pub fn filter_command_indices(runtime_config: &RuntimeConfig, query: &str) -> (r: Vec<usize>)
    ensures
        r@ == filtered_indices(runtime_config.commands_view(), query@),
        trim(query@).len() > 0 ==> lowercase(trim(query@)).len() > 0,
{
    let ghost cv = runtime_config.commands_view();
    let n = runtime_config.commands.len();
    let trimmed = trim_str(query);
    let mut r: Vec<usize> = Vec::new();
    if trimmed.as_str().is_empty() {
        let mut i: usize = 0;
        while i < n
            invariant
                i <= n == cv.len(),
                r@ == Seq::new(i as nat, |k: int| k as usize),
            decreases n - i,
        {
            r.push(i);
            assert(r@ =~= Seq::new((i + 1) as nat, |k: int| k as usize));
            i = i + 1;
        }
        return r;
    }
    let needle = chars_of(to_lowercase(trimmed.as_str()).as_str());
    let mut i: usize = 0;
    while i < n
        invariant
            i <= n == cv.len() == runtime_config.commands@.len(),
            cv == runtime_config.commands_view(),
            needle@ == lowercase(trim(query@)),
            r@ == matching_indices(cv.take(i as int), needle@),
        decreases n - i,
    {
        let ghost p = cv.take(i as int + 1);
        assert(p.drop_last() =~= cv.take(i as int));
        assert(p.last() == token_views(runtime_config.commands@[i as int]@));
        let title = command_title(runtime_config.commands[i].as_slice());
        let lower = chars_of(to_lowercase(title.as_str()).as_str());
        if find_chars(&lower, &needle, 0).is_some() {
            r.push(i);
        }
        i = i + 1;
    }
    assert(cv.take(n as int) =~= cv);
    r
}


proof fn lemma_matching_indices_valid(commands: Seq<Seq<Seq<char>>>, needle: Seq<char>)
    requires
        commands.len() <= usize::MAX,
    ensures
        forall|i: int|
            0 <= i < matching_indices(commands, needle).len() ==> (#[trigger] matching_indices(
                commands,
                needle,
            )[i] as int) < commands.len(),
        forall|i: int, j: int|
            0 <= i < j < matching_indices(commands, needle).len() ==> #[trigger] matching_indices(
                commands,
                needle,
            )[i] < #[trigger] matching_indices(commands, needle)[j],
    decreases commands.len(),
{
    if commands.len() > 0 {
        let prev = matching_indices(commands.drop_last(), needle);
        lemma_matching_indices_valid(commands.drop_last(), needle);
        if title_matches(commands.last(), needle) {
            let x = (commands.len() - 1) as usize;
            assert(x as int == commands.len() - 1);
            assert(matching_indices(commands, needle) == prev.push(x));
        }
    }
}

/// The picker lists only commands that exist, each once, in the order of the
/// command list.
pub proof fn lemma_filtered_indices_valid(commands: Seq<Seq<Seq<char>>>, query: Seq<char>)
    requires
        commands.len() <= usize::MAX,
    ensures
        forall|i: int|
            0 <= i < filtered_indices(commands, query).len() ==> (#[trigger] filtered_indices(
                commands,
                query,
            )[i] as int) < commands.len(),
        forall|i: int, j: int|
            0 <= i < j < filtered_indices(commands, query).len() ==> #[trigger] filtered_indices(
                commands,
                query,
            )[i] < #[trigger] filtered_indices(commands, query)[j],
{
    if trim(query).len() > 0 {
        lemma_matching_indices_valid(commands, lowercase(trim(query)));
    }
}


proof fn lemma_matching_indices_members(commands: Seq<Seq<Seq<char>>>, needle: Seq<char>)
    requires
        commands.len() <= usize::MAX,
    ensures
        forall|k: int|
            0 <= k < matching_indices(commands, needle).len() ==> (#[trigger] matching_indices(
                commands,
                needle,
            )[k] as int) < commands.len(),
        forall|i: int|
            0 <= i < commands.len() ==> (#[trigger] matching_indices(commands, needle).contains(
                i as usize,
            ) <==> find_from(lowercase(join_with_space(commands[i])), needle, 0) is Some),
    decreases commands.len(),
{
    if commands.len() > 0 {
        let prev = matching_indices(commands.drop_last(), needle);
        let n = commands.len() - 1;
        lemma_matching_indices_members(commands.drop_last(), needle);
        assert forall|i: int| 0 <= i < commands.len() implies (#[trigger] matching_indices(
            commands,
            needle,
        ).contains(i as usize) <==> find_from(lowercase(join_with_space(commands[i])), needle, 0)
            is Some) by {
            if i < n {
                assert(commands.drop_last()[i] == commands[i]);
                let pushed = prev.push(n as usize);
                assert(pushed.contains(i as usize) ==> prev.contains(i as usize)) by {
                    if pushed.contains(i as usize) {
                        let k = choose|k: int| 0 <= k < pushed.len() && #[trigger] pushed[k] == i as usize;
                        assert(k < prev.len());
                        assert(prev[k] == i as usize);
                    }
                }
                if prev.contains(i as usize) {
                    let k = choose|k: int| 0 <= k < prev.len() && #[trigger] prev[k] == i as usize;
                    assert(prev.push(n as usize)[k] == i as usize);
                }
            } else {
                assert(!prev.contains(n as usize)) by {
                    if prev.contains(n as usize) {
                        let k = choose|k: int| 0 <= k < prev.len() && #[trigger] prev[k] == n as usize;
                        assert((prev[k] as int) < n);
                    }
                }
                if title_matches(commands.last(), needle) {
                    assert(prev.push(n as usize)[prev.len() as int] == n as usize);
                }
            }
        }
    }
}

/// What the filter lists, in terms of the titles: for a query that is not
/// blank, a command is listed exactly when its title, lower-cased, contains
/// the trimmed query, lower-cased; and only commands that exist are listed.
pub proof fn lemma_filter_lists_the_titles_containing_the_query(
    commands: Seq<Seq<Seq<char>>>,
    query: Seq<char>,
)
    requires
        commands.len() <= usize::MAX,
        trim(query).len() > 0,
    ensures
        forall|k: int|
            0 <= k < filtered_indices(commands, query).len() ==> (#[trigger] filtered_indices(
                commands,
                query,
            )[k] as int) < commands.len(),
        forall|i: int|
            0 <= i < commands.len() ==> (#[trigger] filtered_indices(commands, query).contains(
                i as usize,
            ) <==> find_from(lowercase(join_with_space(commands[i])), lowercase(trim(query)), 0)
                is Some),
{
    lemma_matching_indices_members(commands, lowercase(trim(query)));
}

/// `x` is `y` with some elements left out, the rest kept in order.
pub open spec fn is_subsequence(x: Seq<usize>, y: Seq<usize>) -> bool
    decreases y.len(),
{
    if x.len() == 0 {
        true
    } else if y.len() == 0 {
        false
    } else if x.last() == y.last() {
        is_subsequence(x.drop_last(), y.drop_last())
    } else {
        is_subsequence(x, y.drop_last())
    }
}

proof fn lemma_subsequence_of_all(x: Seq<usize>, n: nat)
    requires
        n <= usize::MAX + 1,
        forall|i: int| 0 <= i < x.len() ==> (#[trigger] x[i] as int) < n,
        forall|i: int, j: int| 0 <= i < j < x.len() ==> #[trigger] x[i] < #[trigger] x[j],
    ensures
        is_subsequence(x, Seq::new(n, |i: int| i as usize)),
    decreases n,
{
    let y = Seq::new(n, |i: int| i as usize);
    if x.len() > 0 && n > 0 {
        let y1 = Seq::new((n - 1) as nat, |i: int| i as usize);
        assert(y.drop_last() =~= y1);
        assert(y.last() == (n - 1) as usize);
        if x.last() == y.last() {
            let x1 = x.drop_last();
            assert forall|i: int| 0 <= i < x1.len() implies (#[trigger] x1[i] as int) < n - 1 by {
                assert(x[i] < x[x.len() - 1]);
            }
            lemma_subsequence_of_all(x1, (n - 1) as nat);
        } else {
            assert forall|i: int| 0 <= i < x.len() implies (#[trigger] x[i] as int) < n - 1 by {
                if x[i] as int == n - 1 {
                    if i < x.len() - 1 {
                        assert(x[i] < x[x.len() - 1]);
                    }
                }
            }
            lemma_subsequence_of_all(x, (n - 1) as nat);
        }
    } else if x.len() > 0 {
        assert((x[0] as int) < n);
    }
}

proof fn lemma_matching_narrower(
    commands: Seq<Seq<Seq<char>>>,
    wide: Seq<char>,
    narrow: Seq<char>,
)
    requires
        commands.len() <= usize::MAX,
        find_from(narrow, wide, 0) is Some,
    ensures
        is_subsequence(matching_indices(commands, narrow), matching_indices(commands, wide)),
    decreases commands.len(),
{
    if commands.len() > 0 {
        let prev = commands.drop_last();
        let k = (commands.len() - 1) as usize;
        lemma_matching_narrower(prev, wide, narrow);
        lemma_matching_indices_valid(prev, narrow);
        let x1 = matching_indices(prev, narrow);
        let y1 = matching_indices(prev, wide);
        let title = lowercase(join_with_space(commands.last()));
        if title_matches(commands.last(), narrow) {
            lemma_find_from_bounds(title, narrow, 0);
            lemma_find_from_bounds(narrow, wide, 0);
            let p = find_from(title, narrow, 0)->0;
            let q = find_from(narrow, wide, 0)->0;
            assert(title.subrange(p + q, p + q + wide.len()) =~= narrow.subrange(q, q + wide.len()));
            lemma_find_from_finds(title, wide, 0, p + q);
            assert(matching_indices(commands, narrow).drop_last() == x1);
            assert(matching_indices(commands, wide).drop_last() == y1);
        } else if title_matches(commands.last(), wide) {
            let y = matching_indices(commands, wide);
            assert(y.drop_last() == y1);
            if x1.len() > 0 {
                assert((x1.last() as int) < prev.len());
                assert(x1.last() != y.last());
            }
        }
    }
}

/// A blank query lists every command, in order.
pub proof fn lemma_blank_query_lists_all(commands: Seq<Seq<Seq<char>>>, query: Seq<char>)
    requires
        trim(query).len() == 0,
    ensures
        filtered_indices(commands, query) == Seq::new(commands.len(), |i: int| i as usize),
{
}

/// Narrowing the query never adds a command to the list: when the lower-cased
/// trimmed query `a` occurs in the lower-cased trimmed query `b`, the list for
/// `b` is a subsequence of the list for `a`. Of lower-casing it takes what
/// `to_lowercase` promises of each call, here of the two trimmed queries: the
/// lower-cased text is empty exactly when the text is.
pub proof fn lemma_narrower_query_lists_fewer(
    commands: Seq<Seq<Seq<char>>>,
    a: Seq<char>,
    b: Seq<char>,
)
    requires
        commands.len() <= usize::MAX,
        find_from(lowercase(trim(b)), lowercase(trim(a)), 0) is Some,
        lowercase(trim(a)).len() == 0 <==> trim(a).len() == 0,
        lowercase(trim(b)).len() == 0 <==> trim(b).len() == 0,
    ensures
        is_subsequence(filtered_indices(commands, b), filtered_indices(commands, a)),
{
    lemma_filtered_indices_valid(commands, b);
    lemma_find_from_bounds(lowercase(trim(b)), lowercase(trim(a)), 0);
    if trim(a).len() == 0 {
        lemma_subsequence_of_all(filtered_indices(commands, b), commands.len());
    } else {
        lemma_matching_narrower(commands, lowercase(trim(a)), lowercase(trim(b)));
    }
}

} // verus!
