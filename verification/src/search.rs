//! The search: the lines of a text that contain a query.

use crate::lines::{lemma_lines_concat, lines, split_lines};
use crate::substring::{contains, is_substring, occurs_at};
use vstd::prelude::*;

verus! {

/// The lowercase form of a text, as `str::to_lowercase` of the standard
/// library gives it. It follows the Unicode lowercase mapping, under which
/// one character may become several, and is not limited to ASCII letters.
/// The mapping is not written out here: the search needs only that it is a
/// function of the characters of the text.
pub uninterp spec fn lowercase(text: Seq<char>) -> Seq<char>;

/// `str::to_lowercase` returns the lowercase form of `text` as a new
/// `String`. Taken on trust: that the result depends on the characters of
/// `text` alone, and that a text without characters has a lowercase form
/// without characters.
pub assume_specification[ str::to_lowercase ](text: &str) -> (lower: String)
    ensures
        lower@ == lowercase(text@),
        text@.len() == 0 ==> lower@.len() == 0,
;

/// The form in which a text is compared: as it stands when case counts,
/// in lowercase when it does not.
pub open spec fn folded(text: Seq<char>, case_sensitive: bool) -> Seq<char> {
    if case_sensitive {
        text
    } else {
        lowercase(text)
    }
}

/// `line` contains `query`, both taken in the form in which they are compared.
pub open spec fn line_matches(query: Seq<char>, line: Seq<char>, case_sensitive: bool) -> bool {
    is_substring(folded(line, case_sensitive), folded(query, case_sensitive))
}

/// The test that a search for `query` puts to each line.
pub open spec fn matcher(query: Seq<char>, case_sensitive: bool) -> spec_fn(Seq<char>) -> bool {
    |line: Seq<char>| line_matches(query, line, case_sensitive)
}

/// The lines of `content` that contain `query`: each as it stands in
/// `content`, in the order of `content`, as often as it occurs there.
pub open spec fn matching_lines(
    query: Seq<char>,
    content: Seq<char>,
    case_sensitive: bool,
) -> Seq<Seq<char>> {
    lines(content).filter(matcher(query, case_sensitive))
}

/// `kept` is what stays of `all` when exactly the elements that pass `test`
/// are kept: `at` lists, in rising order, the indices in `all` of the
/// elements of `kept`, and an index is listed exactly when its element
/// passes.
pub open spec fn is_selection<T>(
    kept: Seq<T>,
    all: Seq<T>,
    test: spec_fn(T) -> bool,
    at: Seq<int>,
) -> bool {
    &&& at.len() == kept.len()
    &&& forall|i: int|
        0 <= i < at.len() ==> 0 <= #[trigger] at[i] < all.len() && kept[i] == all[at[i]]
    &&& forall|i: int, j: int| 0 <= i < j < at.len() ==> at[i] < at[j]
    &&& forall|k: int| 0 <= k < all.len() ==> (test(all[k]) <==> at.contains(k))
}

/// What a filter keeps is a selection of what it was given.
pub proof fn lemma_filter_is_selection<T>(all: Seq<T>, test: spec_fn(T) -> bool) -> (at: Seq<int>)
    ensures
        is_selection(all.filter(test), all, test, at),
    decreases all.len(),
{
    reveal(Seq::filter);
    if all.len() == 0 {
        Seq::empty()
    } else {
        let front = all.drop_last();
        let last = all.len() - 1;
        let front_at = lemma_filter_is_selection(front, test);
        let at = if test(all.last()) {
            front_at.push(last)
        } else {
            front_at
        };
        assert forall|k: int| 0 <= k < all.len() implies (test(all[k]) <==> at.contains(k)) by {
            if k < last {
                assert(all[k] == front[k]);
                if front_at.contains(k) {
                    let i = choose|i: int| 0 <= i < front_at.len() && front_at[i] == k;
                    assert(at[i] == k);
                }
            } else if test(all.last()) {
                assert(at[at.len() - 1] == k);
            }
        }
        at
    }
}

/// The result of a search is a selection of the lines of the content: the
/// lines that match, each as often as it occurs, none moved, none added.
pub proof fn lemma_matching_lines_is_selection(
    query: Seq<char>,
    content: Seq<char>,
    case_sensitive: bool,
) -> (at: Seq<int>)
    ensures
        is_selection(
            matching_lines(query, content, case_sensitive),
            lines(content),
            matcher(query, case_sensitive),
            at,
        ),
{
    lemma_filter_is_selection(lines(content), matcher(query, case_sensitive))
}

/// Two searches with the same query, content and mode give the same lines
/// in the same order.
pub proof fn lemma_search_is_repeatable(
    query: Seq<char>,
    content: Seq<char>,
    case_sensitive: bool,
    first: Seq<Seq<char>>,
    second: Seq<Seq<char>>,
)
    requires
        first == matching_lines(query, content, case_sensitive),
        second == matching_lines(query, content, case_sensitive),
    ensures
        first == second,
{
}

/// Searching a text that ends in a line feed and a second text behind it
/// gives the matches of the first followed by the matches of the second.
pub proof fn lemma_matching_lines_concat(
    query: Seq<char>,
    head: Seq<char>,
    tail: Seq<char>,
    case_sensitive: bool,
)
    requires
        head.len() > 0 ==> head.last() == '\n',
    ensures
        matching_lines(query, head + tail, case_sensitive) == matching_lines(
            query,
            head,
            case_sensitive,
        ) + matching_lines(query, tail, case_sensitive),
{
    lemma_lines_concat(head, tail);
    Seq::filter_distributes_over_add(lines(head), lines(tail), matcher(query, case_sensitive));
}

/// A query whose compared form is empty matches every line. The empty query
/// is one in a case-sensitive search.
pub proof fn lemma_empty_query_matches_all(
    query: Seq<char>,
    content: Seq<char>,
    case_sensitive: bool,
)
    requires
        folded(query, case_sensitive).len() == 0,
    ensures
        matching_lines(query, content, case_sensitive) == lines(content),
{
    let test = matcher(query, case_sensitive);
    let all = lines(content);
    assert forall|k: int| 0 <= k < all.len() implies test(all[k]) by {
        let line = folded(all[k], case_sensitive);
        assert(line.subrange(0, 0) =~= folded(query, case_sensitive));
        assert(occurs_at(line, folded(query, case_sensitive), 0));
    }
    lemma_filter_keeps_all(all, test);
}

/// A filter whose test every element passes keeps the sequence as it is.
pub proof fn lemma_filter_keeps_all<T>(all: Seq<T>, test: spec_fn(T) -> bool)
    requires
        forall|k: int| 0 <= k < all.len() ==> test(all[k]),
    ensures
        all.filter(test) == all,
    decreases all.len(),
{
    reveal(Seq::filter);
    if all.len() > 0 {
        let front = all.drop_last();
        assert forall|k: int| 0 <= k < front.len() implies test(front[k]) by {
            assert(front[k] == all[k]);
        }
        lemma_filter_keeps_all(front, test);
        assert(front.push(all.last()) =~= all);
    }
}

/// The two ways to search a text.
pub struct Search {}

impl Search {
    /// The lines of `content` that contain `query` letter for letter.
    pub fn case_sensitive<'a>(query: &str, content: &'a str) -> (found: Vec<&'a str>)
        ensures
            found.deep_view() == matching_lines(query@, content@, true),
            query@.len() == 0 ==> found.deep_view() == lines(content@),
    {
        Search::search(query, content, true)
    }

    /// The lines of `content` whose lowercase form contains the lowercase
    /// form of `query`. Both are put in lowercase in the same way, by
    /// `str::to_lowercase`; the lines are returned as they stand in `content`.
    pub fn case_insensitive<'a>(query: &str, content: &'a str) -> (found: Vec<&'a str>)
        ensures
            found.deep_view() == matching_lines(query@, content@, false),
            query@.len() == 0 ==> found.deep_view() == lines(content@),
    {
        Search::search(query, content, false)
    }

    /// The lines of `content` that contain `query`, with or without regard
    /// to case. Each line returned is a slice of `content`. An empty query
    /// is contained in every line, so all lines are returned for it.
    pub fn search<'a>(query: &str, content: &'a str, case_sensitive: bool) -> (found: Vec<&'a str>)
        ensures
            found.deep_view() == matching_lines(query@, content@, case_sensitive),
            query@.len() == 0 ==> found.deep_view() == lines(content@),
    {
        let all = split_lines(content);
        let found = if case_sensitive {
            Search::select(all, query, true, Ghost(query@))
        } else {
            let lower = query.to_lowercase();
            Search::select(all, lower.as_str(), false, Ghost(query@))
        };
        proof {
            if query@.len() == 0 {
                lemma_empty_query_matches_all(query@, content@, case_sensitive);
            }
        }
        found
    }

    /// Keeps the lines that contain `needle`, which is `query` in the form
    /// in which it is compared.
    fn select<'a>(
        all: Vec<&'a str>,
        needle: &str,
        case_sensitive: bool,
        Ghost(query): Ghost<Seq<char>>,
    ) -> (kept: Vec<&'a str>)
        requires
            needle@ == folded(query, case_sensitive),
        ensures
            kept.deep_view() == all.deep_view().filter(matcher(query, case_sensitive)),
    {
        let ghost test = matcher(query, case_sensitive);
        let ghost given = all.deep_view();
        let mut kept: Vec<&'a str> = Vec::new();
        proof {
            reveal(Seq::filter);
            assert(given.take(0) =~= Seq::empty());
            assert(kept.deep_view() =~= Seq::empty());
        }
        for i in 0..all.len()
            invariant
                given == all.deep_view(),
                test == matcher(query, case_sensitive),
                needle@ == folded(query, case_sensitive),
                kept.deep_view() == given.take(i as int).filter(test),
        {
            let line = all[i];
            let hit = if case_sensitive {
                contains(line, needle)
            } else {
                let lower = line.to_lowercase();
                contains(lower.as_str(), needle)
            };
            let ghost before = kept.deep_view();
            if hit {
                kept.push(line);
                assert(kept.deep_view() =~= before.push(line@));
            }
            proof {
                assert(hit == test(line@));
                assert(given.take(i + 1) =~= given.take(i as int).push(line@));
                given.take(i as int).lemma_filter_push(line@, test);
            }
        }
        assert(given.take(all.len() as int) =~= given);
        kept
    }
}

} // verus!
