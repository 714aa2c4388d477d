//! Fuzzy subsequence matching, used to filter commands by query text.

use vstd::prelude::*;

verus! {

/// The char that `char::to_lowercase` yields first for `c`.
pub uninterp spec fn char_lowercase(c: char) -> char;

/// Whether `char::is_alphanumeric` holds of `c`.
pub uninterp spec fn char_is_alphanumeric(c: char) -> bool;

/// Calls `char::to_lowercase` and takes the first char of the mapping.
/// Trusted: the mapping has one or more chars, so the first always exists,
/// and it depends on `c` alone (Unicode's lowercase tables).
#[verifier::external_body]
fn first_lowercase(c: char) -> (r: Option<char>)
    ensures
        r == Some(char_lowercase(c)),
{
    c.to_lowercase().next()
}

/// Calls `char::is_alphanumeric`. Trusted: the answer depends on `c` alone
/// (Unicode's alphabetic and numeric properties); which chars qualify is
/// left to the name `char_is_alphanumeric`.
#[verifier::external_body]
fn alphanumeric(c: char) -> (r: bool)
    ensures
        r == char_is_alphanumeric(c),
{
    c.is_alphanumeric()
}

/// Longest text, in chars, whose score is sure to fit in an `i32`:
/// each matched char adds at most 7.
pub const MAX_MATCH_LEN: usize = 306_783_378;

/// The score of matching a query against a target fits in an `i32`
/// whenever one of the two is at most `MAX_MATCH_LEN` chars long.
pub open spec fn score_fits(query_len: nat, target_len: nat) -> bool {
    query_len <= MAX_MATCH_LEN || target_len <= MAX_MATCH_LEN
}

/// A separator is any char that is not alphanumeric.
pub open spec fn is_separator_spec(c: char) -> bool {
    !char_is_alphanumeric(c)
}

/// Every char of `s` mapped to its lowercase.
pub open spec fn lowered(s: Seq<char>) -> Seq<char> {
    s.map_values(|c: char| char_lowercase(c))
}

/// `pos` places the chars of `q`, in order, at strictly increasing
/// positions of `t`.
pub open spec fn is_embedding(q: Seq<char>, t: Seq<char>, pos: Seq<int>) -> bool {
    &&& pos.len() == q.len()
    &&& forall|k: int| 0 <= k < pos.len() ==> 0 <= #[trigger] pos[k] < t.len() && t[pos[k]] == q[k]
    &&& forall|a: int, b: int| 0 <= a < b < pos.len() ==> #[trigger] pos[a] < #[trigger] pos[b]
}

/// Every char of `q` appears in `t`, in order.
pub open spec fn is_subsequence(q: Seq<char>, t: Seq<char>) -> bool {
    exists|pos: Seq<int>| is_embedding(q, t, pos)
}

/// The first position at or after `from` where `t` holds `c`.
pub open spec fn first_occurrence(c: char, t: Seq<char>, from: int) -> Option<int>
    decreases t.len() - from,
{
    if from >= t.len() {
        None
    } else if t[from] == c {
        Some(from)
    } else {
        first_occurrence(c, t, from + 1)
    }
}

/// The positions at which the chars of `q` match `t` when each is taken at
/// the first place it occurs after the previous one, starting at `from`.
pub open spec fn leftmost_positions(q: Seq<char>, t: Seq<char>, from: int) -> Option<Seq<int>>
    decreases q.len(),
{
    if q.len() == 0 {
        Some(Seq::empty())
    } else {
        match first_occurrence(q[0], t, from) {
            None => None,
            Some(j) => match leftmost_positions(q.drop_first(), t, j + 1) {
                None => None,
                Some(rest) => Some(seq![j] + rest),
            },
        }
    }
}

/// What a char matched at position `i` of `t` adds to the score, given the
/// position of the previous matched char: 2, plus 3 at the start of `t` or
/// after a separator, plus 2 right after the previous match, minus the gap
/// (at most 2) otherwise.
pub open spec fn step_score(t: Seq<char>, prev: Option<int>, i: int) -> int {
    let boundary: int = if i == 0 || is_separator_spec(t[i - 1]) { 3 } else { 0 };
    let run: int = match prev {
        None => 0,
        Some(p) => if p + 1 == i {
            2
        } else if i - p - 1 < 2 {
            -(i - p - 1)
        } else {
            -2
        },
    };
    2 + boundary + run
}

/// The total score of matching chars at the positions `pos` of `t`.
pub open spec fn positions_score(t: Seq<char>, pos: Seq<int>) -> int
    decreases pos.len(),
{
    if pos.len() == 0 {
        0
    } else {
        let k = pos.len() - 1;
        positions_score(t, pos.drop_last()) + step_score(
            t,
            if k == 0 { None } else { Some(pos[k - 1]) },
            pos[k],
        )
    }
}

/// The result of fuzzy matching `query` against `target`: the score of the
/// leftmost case-insensitive placement of the query in the target, or
/// `None` where there is none.
pub open spec fn fuzzy_score(query: Seq<char>, target: Seq<char>) -> Option<int> {
    match leftmost_positions(lowered(query), lowered(target), 0) {
        Some(pos) => Some(positions_score(target, pos)),
        None => None,
    }
}

/// `o` with `prefix` put in front of the positions it holds.
pub open spec fn prepend(prefix: Seq<int>, o: Option<Seq<int>>) -> Option<Seq<int>> {
    match o {
        Some(rest) => Some(prefix + rest),
        None => None,
    }
}

/// The lowercase form of a char: the first char of its lowercase mapping.
pub fn lower_char(character: char) -> (r: char)
    ensures
        r == char_lowercase(character),
{
    match first_lowercase(character) {
        Some(lower) => lower,
        None => character,
    }
}

/// A separator is any char that is not alphanumeric.
pub fn is_separator(character: char) -> (r: bool)
    ensures
        r == is_separator_spec(character),
{
    !alphanumeric(character)
}

/// The chars of `s`, each mapped to its lowercase.
fn lowered_chars(s: &str) -> (r: Vec<char>)
    ensures
        r@ == lowered(s@),
{
    let mut out: Vec<char> = Vec::new();
    for c in it: s.chars()
        invariant
            it.seq() == s@,
            out@ == lowered(s@.take(it.index() as int)),
    {
        proof {
            assert(it.seq().take(it.index() + 1) =~= it.seq().take(it.index() as int).push(c));
        }
        out.push(lower_char(c));
    }
    proof {
        assert(s@.take(s@.len() as int) =~= s@);
    }
    out
}

/// The chars of `s`.
pub(crate) fn chars_of(s: &str) -> (r: Vec<char>)
    ensures
        r@ == s@,
{
    let mut out: Vec<char> = Vec::new();
    for c in it: s.chars()
        invariant
            it.seq() == s@,
            out@ == s@.take(it.index() as int),
    {
        proof {
            assert(it.seq().take(it.index() + 1) =~= it.seq().take(it.index() as int).push(c));
        }
        out.push(c);
    }
    proof {
        assert(s@.take(s@.len() as int) =~= s@);
    }
    out
}

/// Putting a prefix in front in two steps is putting the joined prefix in
/// front at once.
proof fn lemma_prepend_push(pos: Seq<int>, i: int, o: Option<Seq<int>>)
    ensures
        prepend(pos, prepend(seq![i], o)) == prepend(pos.push(i), o),
{
    match o {
        Some(rest) => {
            assert(pos + (seq![i] + rest) =~= pos.push(i) + rest);
        },
        None => {},
    }
}

/// Scoring one more matched position adds its step score.
proof fn lemma_score_push(t: Seq<char>, pos: Seq<int>, i: int)
    ensures
        positions_score(t, pos.push(i)) == positions_score(t, pos) + step_score(
            t,
            if pos.len() == 0 { None } else { Some(pos.last()) },
            i,
        ),
{
    assert(pos.push(i).drop_last() =~= pos);
}

/// Returns a score if every character of `query` appears in order within
/// `target` (case-insensitive), and `None` otherwise.
///
/// Better matches score higher, so results can be sorted most-relevant first:
/// - matches at the start of the target
/// - matches at word boundaries (following a separator)
/// - consecutive runs of matched characters
/// - small gaps between matched characters
pub fn fuzzy_match(query: &str, target: &str) -> (r: Option<i32>)
    requires
        score_fits(query@.len(), target@.len()),
    ensures
        r is Some <==> fuzzy_score(query@, target@) is Some,
        r matches Some(score) ==> fuzzy_score(query@, target@) == Some(score as int),
        r matches Some(score) ==> 0 <= score <= 7 * query@.len(),
        query@.len() == 0 ==> r == Some(0i32),
{
    if query.is_empty() {
        proof {
            assert(lowered(query@) =~= Seq::<char>::empty());
        }
        return Some(0);
    }
    let query_chars = lowered_chars(query);
    let target_chars = chars_of(target);
    let ghost lq = lowered(query@);
    let ghost lt = lowered(target@);

    let mut query_index: usize = 0;
    let mut score: i32 = 0;
    let mut last_match: Option<usize> = None;
    let ghost mut pos: Seq<int> = Seq::empty();
    let mut index: usize = 0;

    proof {
        assert(lq.skip(0) =~= lq);
        assert(Seq::<int>::empty() + Seq::<int>::empty() =~= Seq::<int>::empty());
        match leftmost_positions(lq, lt, 0) {
            Some(rest) => { assert(Seq::<int>::empty() + rest =~= rest); },
            None => {},
        }
    }

    while index < target_chars.len() && query_index < query_chars.len()
        invariant
            query_chars@ == lq,
            target_chars@ == target@,
            lq == lowered(query@),
            lt == lowered(target@),
            lq.len() == query@.len(),
            lt.len() == target@.len(),
            score_fits(query@.len(), target@.len()),
            0 <= index <= target_chars.len(),
            query_index <= query_chars.len(),
            query_index <= index,
            pos.len() == query_index,
            forall|k: int| 0 <= k < pos.len() ==> 0 <= #[trigger] pos[k] < index,
            query_index == 0 ==> last_match is None,
            query_index > 0 ==> last_match == Some(pos.last() as usize),
            score == positions_score(target@, pos),
            0 <= score <= 7 * query_index,
            leftmost_positions(lq, lt, 0) == prepend(
                pos,
                leftmost_positions(lq.skip(query_index as int), lt, index as int),
            ),
        decreases target_chars.len() - index,
    {
        let character = target_chars[index];
        let lowered_char = lower_char(character);
        let ghost rest_q = lq.skip(query_index as int);
        if lowered_char != query_chars[query_index] {
            proof {
                assert(lt[index as int] == lowered_char);
                assert(rest_q[0] == lq[query_index as int]);
                assert(first_occurrence(rest_q[0], lt, index as int) == first_occurrence(
                    rest_q[0],
                    lt,
                    index + 1,
                ));
            }
        } else {
            let mut char_score: i32 = 2;
            if index == 0 || is_separator(target_chars[index - 1]) {
                char_score += 3;
            }
            match last_match {
                Some(previous) => {
                    if previous + 1 == index {
                        char_score += 2;
                    } else {
                        let gap = index - previous - 1;
                        char_score -= if gap < 2 { gap as i32 } else { 2 };
                    }
                },
                None => {},
            }
            proof {
                assert(lt[index as int] == lowered_char);
                assert(rest_q[0] == lq[query_index as int]);
                assert(first_occurrence(rest_q[0], lt, index as int) == Some(index as int));
                assert(rest_q.drop_first() =~= lq.skip(query_index + 1));
                assert(leftmost_positions(rest_q, lt, index as int) == prepend(
                    seq![index as int],
                    leftmost_positions(lq.skip(query_index + 1), lt, index + 1),
                ));
                lemma_prepend_push(
                    pos,
                    index as int,
                    leftmost_positions(lq.skip(query_index + 1), lt, index + 1),
                );
                lemma_score_push(target@, pos, index as int);
                assert(char_score == step_score(
                    target@,
                    if pos.len() == 0 { None } else { Some(pos.last()) },
                    index as int,
                ));
                pos = pos.push(index as int);
            }
            score += char_score;
            last_match = Some(index);
            query_index += 1;
        }
        index += 1;
    }

    if query_index == query_chars.len() {
        proof {
            assert(lq.skip(query_index as int) =~= Seq::<char>::empty());
            assert(pos + Seq::<int>::empty() =~= pos);
        }
        Some(score)
    } else {
        proof {
            assert(first_occurrence(lq.skip(query_index as int)[0], lt, index as int) is None);
        }
        None
    }
}

/// `first_occurrence` finds the first position at or after `from` that
/// holds `c`, and `None` means no such position exists.
proof fn lemma_first_occurrence(c: char, t: Seq<char>, from: int)
    requires
        0 <= from,
    ensures
        match first_occurrence(c, t, from) {
            Some(j) => from <= j < t.len() && t[j] == c && forall|k: int|
                from <= k < j ==> t[k] != c,
            None => forall|k: int| from <= k < t.len() ==> t[k] != c,
        },
    decreases t.len() - from,
{
    if from < t.len() && t[from] != c {
        lemma_first_occurrence(c, t, from + 1);
    }
}

/// Leftmost positions, where they exist, embed the query at or after `from`.
proof fn lemma_leftmost_sound(q: Seq<char>, t: Seq<char>, from: int)
    requires
        0 <= from,
    ensures
        leftmost_positions(q, t, from) matches Some(pos) ==> is_embedding(q, t, pos) && forall|
            k: int,
        | 0 <= k < pos.len() ==> from <= #[trigger] pos[k],
    decreases q.len(),
{
    if q.len() > 0 {
        lemma_first_occurrence(q[0], t, from);
        if let Some(j) = first_occurrence(q[0], t, from) {
            lemma_leftmost_sound(q.drop_first(), t, j + 1);
            if let Some(rest) = leftmost_positions(q.drop_first(), t, j + 1) {
                let pos = seq![j] + rest;
                assert forall|k: int| 0 <= k < pos.len() implies 0 <= #[trigger] pos[k] < t.len()
                    && t[pos[k]] == q[k] && from <= pos[k] by {
                    if k > 0 {
                        assert(pos[k] == rest[k - 1]);
                    }
                }
                assert forall|a: int, b: int| 0 <= a < b < pos.len() implies #[trigger] pos[a]
                    < #[trigger] pos[b] by {
                    assert(pos[b] == rest[b - 1]);
                    if a > 0 {
                        assert(pos[a] == rest[a - 1]);
                    }
                }
            }
        }
    }
}

/// Where any embedding at or after `from` exists, the leftmost one does.
proof fn lemma_leftmost_complete(q: Seq<char>, t: Seq<char>, from: int, pos: Seq<int>)
    requires
        0 <= from,
        is_embedding(q, t, pos),
        forall|k: int| 0 <= k < pos.len() ==> from <= #[trigger] pos[k],
    ensures
        leftmost_positions(q, t, from) is Some,
    decreases q.len(),
{
    if q.len() > 0 {
        lemma_first_occurrence(q[0], t, from);
        assert(t[pos[0]] == q[0]);
        let j = first_occurrence(q[0], t, from)->0;
        assert(j <= pos[0]);
        let tail = pos.drop_first();
        assert forall|k: int| 0 <= k < tail.len() implies j + 1 <= #[trigger] tail[k] by {
            assert(tail[k] == pos[k + 1]);
            assert(pos[0] < pos[k + 1]);
        }
        assert forall|k: int| 0 <= k < tail.len() implies 0 <= #[trigger] tail[k] < t.len()
            && t[tail[k]] == q.drop_first()[k] by {
            assert(tail[k] == pos[k + 1]);
        }
        assert forall|a: int, b: int| 0 <= a < b < tail.len() implies #[trigger] tail[a]
            < #[trigger] tail[b] by {
            assert(tail[a] == pos[a + 1]);
            assert(tail[b] == pos[b + 1]);
        }
        lemma_leftmost_complete(q.drop_first(), t, j + 1, tail);
    }
}

/// A query fuzzy-matches a target exactly when its lowercase form is a
/// subsequence of the target's lowercase form.
pub proof fn lemma_match_iff_subsequence(query: Seq<char>, target: Seq<char>)
    ensures
        fuzzy_score(query, target) is Some <==> is_subsequence(lowered(query), lowered(target)),
{
    let lq = lowered(query);
    let lt = lowered(target);
    lemma_leftmost_sound(lq, lt, 0);
    if is_subsequence(lq, lt) {
        let pos = choose|pos: Seq<int>| is_embedding(lq, lt, pos);
        lemma_leftmost_complete(lq, lt, 0, pos);
    }
    if let Some(pos) = leftmost_positions(lq, lt, 0) {
        assert(is_embedding(lq, lt, pos));
    }
}

/// Matching ignores case in the query: two queries with the same lowercase
/// form get the same result against every target.
pub proof fn lemma_query_case_insensitive(q1: Seq<char>, q2: Seq<char>, target: Seq<char>)
    requires
        lowered(q1) == lowered(q2),
    ensures
        fuzzy_score(q1, target) == fuzzy_score(q2, target),
{
}

/// Whether a target matches ignores its case too: two targets with the same
/// lowercase form are matched by the same queries.
pub proof fn lemma_target_case_insensitive(query: Seq<char>, t1: Seq<char>, t2: Seq<char>)
    requires
        lowered(t1) == lowered(t2),
    ensures
        fuzzy_score(query, t1) is Some <==> fuzzy_score(query, t2) is Some,
{
}

/// Each matched char adds between 0 and 7 to the score.
proof fn lemma_positions_score_bounds(t: Seq<char>, pos: Seq<int>)
    requires
        forall|a: int, b: int| 0 <= a < b < pos.len() ==> #[trigger] pos[a] < #[trigger] pos[b],
        forall|k: int| 0 <= k < pos.len() ==> 0 <= #[trigger] pos[k] < t.len(),
    ensures
        0 <= positions_score(t, pos) <= 7 * pos.len(),
    decreases pos.len(),
{
    if pos.len() > 0 {
        let k = pos.len() - 1;
        let shorter = pos.drop_last();
        assert forall|a: int, b: int| 0 <= a < b < shorter.len() implies #[trigger] shorter[a]
            < #[trigger] shorter[b] by {
            assert(pos[a] < pos[b]);
        }
        assert forall|j: int| 0 <= j < shorter.len() implies 0 <= #[trigger] shorter[j]
            < t.len() by {
            assert(shorter[j] == pos[j]);
        }
        lemma_positions_score_bounds(t, shorter);
        if k > 0 {
            assert(pos[k - 1] < pos[k]);
        }
    }
}

/// A score, where there is one, lies between 0 and 7 per char of the query.
pub proof fn lemma_score_bounds(query: Seq<char>, target: Seq<char>)
    ensures
        fuzzy_score(query, target) matches Some(score) ==> 0 <= score <= 7 * query.len(),
{
    let lq = lowered(query);
    let lt = lowered(target);
    lemma_leftmost_sound(lq, lt, 0);
    if let Some(pos) = leftmost_positions(lq, lt, 0) {
        lemma_positions_score_bounds(target, pos);
    }
}

/// The empty query matches every target, with score 0.
pub proof fn lemma_empty_query(target: Seq<char>)
    ensures
        fuzzy_score(Seq::empty(), target) == Some(0int),
{
    assert(lowered(Seq::<char>::empty()) =~= Seq::<char>::empty());
}

/// Lowercasing a joined text is joining the lowercased parts.
proof fn lemma_lowered_append(t: Seq<char>, u: Seq<char>)
    ensures
        lowered(t + u) == lowered(t) + lowered(u),
{
    assert(lowered(t + u) =~= lowered(t) + lowered(u));
}

/// A first occurrence in `t` is still the first one in `t` followed by `u`.
proof fn lemma_first_occurrence_extend(c: char, t: Seq<char>, u: Seq<char>, from: int)
    requires
        0 <= from,
        first_occurrence(c, t, from) is Some,
    ensures
        first_occurrence(c, t + u, from) == first_occurrence(c, t, from),
    decreases t.len() - from,
{
    if from < t.len() && t[from] != c {
        lemma_first_occurrence_extend(c, t, u, from + 1);
    }
}

/// Leftmost positions found in `t` are still the leftmost ones in `t`
/// followed by `u`.
proof fn lemma_leftmost_extend(q: Seq<char>, t: Seq<char>, u: Seq<char>, from: int)
    requires
        0 <= from,
        leftmost_positions(q, t, from) is Some,
    ensures
        leftmost_positions(q, t + u, from) == leftmost_positions(q, t, from),
    decreases q.len(),
{
    if q.len() > 0 {
        lemma_first_occurrence_extend(q[0], t, u, from);
        let j = first_occurrence(q[0], t, from)->0;
        lemma_first_occurrence(q[0], t, from);
        lemma_leftmost_extend(q.drop_first(), t, u, j + 1);
    }
}

/// The score of positions inside `t` reads only `t`, so `t` and a text
/// agreeing with it on separators up to its length give the same score.
proof fn lemma_positions_score_agree(t1: Seq<char>, t2: Seq<char>, pos: Seq<int>)
    requires
        t1.len() <= t2.len(),
        forall|i: int| 0 <= i < t1.len() ==> is_separator_spec(#[trigger] t1[i]) == is_separator_spec(t2[i]),
        forall|k: int| 0 <= k < pos.len() ==> 0 <= #[trigger] pos[k] < t1.len(),
    ensures
        positions_score(t2, pos) == positions_score(t1, pos),
    decreases pos.len(),
{
    if pos.len() > 0 {
        let shorter = pos.drop_last();
        assert forall|k: int| 0 <= k < shorter.len() implies 0 <= #[trigger] shorter[k] < t1.len() by {
            assert(shorter[k] == pos[k]);
        }
        lemma_positions_score_agree(t1, t2, shorter);
        let i = pos[pos.len() - 1];
        if i > 0 {
            assert(is_separator_spec(t1[i - 1]) == is_separator_spec(t2[i - 1]));
        }
    }
}

/// Text appended to a target changes neither whether a query matches it
/// nor the score: the leftmost placement lies in the original target.
pub proof fn lemma_append_keeps_score(query: Seq<char>, target: Seq<char>, extra: Seq<char>)
    ensures
        fuzzy_score(query, target) is Some ==> fuzzy_score(query, target + extra) == fuzzy_score(
            query,
            target,
        ),
{
    let lq = lowered(query);
    let lt = lowered(target);
    if let Some(pos) = leftmost_positions(lq, lt, 0) {
        lemma_lowered_append(target, extra);
        lemma_leftmost_extend(lq, lt, lowered(extra), 0);
        lemma_leftmost_sound(lq, lt, 0);
        assert forall|i: int| 0 <= i < target.len() implies is_separator_spec(#[trigger] target[i])
            == is_separator_spec((target + extra)[i]) by {}
        lemma_positions_score_agree(target, target + extra, pos);
    }
}

/// Targets that differ only in case, and so agree on their lowercase form
/// and on where separators stand, get the same result for every query,
/// score included.
pub proof fn lemma_target_case_keeps_score(query: Seq<char>, t1: Seq<char>, t2: Seq<char>)
    requires
        lowered(t1) == lowered(t2),
        forall|i: int| 0 <= i < t1.len() ==> is_separator_spec(#[trigger] t1[i]) == is_separator_spec(t2[i]),
    ensures
        fuzzy_score(query, t1) == fuzzy_score(query, t2),
{
    let lq = lowered(query);
    assert(t1.len() == lowered(t1).len());
    assert(t2.len() == lowered(t2).len());
    lemma_leftmost_sound(lq, lowered(t1), 0);
    if let Some(pos) = leftmost_positions(lq, lowered(t1), 0) {
        lemma_positions_score_agree(t1, t2, pos);
    }
}

/// A first matched char scores 5 at the start of the target or right after
/// a separator, and 2 anywhere else.
pub proof fn lemma_first_char_score(t: Seq<char>, i: int)
    ensures
        (i == 0 || is_separator_spec(t[i - 1])) ==> step_score(t, None, i) == 5,
        !(i == 0 || is_separator_spec(t[i - 1])) ==> step_score(t, None, i) == 2,
{
}

/// A char matched right after the previous match scores exactly 2 more than
/// the same char matched first.
pub proof fn lemma_run_bonus(t: Seq<char>, p: int, i: int)
    requires
        p + 1 == i,
    ensures
        step_score(t, Some(p), i) == step_score(t, None, i) + 2,
{
}

/// A char matched after a gap of `g >= 1` chars since the previous match
/// scores `min(g, 2)` less than the same char matched first.
pub proof fn lemma_gap_penalty(t: Seq<char>, p: int, i: int)
    requires
        p + 1 < i,
    ensures
        i - p - 1 == 1 ==> step_score(t, Some(p), i) == step_score(t, None, i) - 1,
        i - p - 1 >= 2 ==> step_score(t, Some(p), i) == step_score(t, None, i) - 2,
{
}

/// The nearer the previous match, the higher the score of the next one:
/// the score never grows with the gap, and every gap scores below a run.
pub proof fn lemma_gap_monotone(t: Seq<char>, p1: int, p2: int, i: int)
    requires
        p1 <= p2 < i,
    ensures
        step_score(t, Some(p1), i) <= step_score(t, Some(p2), i),
        p2 + 1 < i ==> step_score(t, Some(p2), i) < step_score(t, Some(i - 1), i),
        p2 + 1 < i ==> step_score(t, Some(p2), i) <= step_score(t, Some(i - 1), i) - 3,
{
}

/// Matching one more position adds that position's step score, taken
/// against the position matched before it.
pub proof fn lemma_score_extends(t: Seq<char>, pos: Seq<int>, i: int)
    ensures
        pos.len() == 0 ==> positions_score(t, pos.push(i)) == step_score(t, None, i),
        pos.len() > 0 ==> positions_score(t, pos.push(i)) == positions_score(t, pos) + step_score(
            t,
            Some(pos.last()),
            i,
        ),
{
    lemma_score_push(t, pos, i);
}

} // verus!
