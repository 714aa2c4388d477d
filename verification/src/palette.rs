//! The command palette's logic: which commands it shows for a query, in
//! which order, and how its state answers each event (the trigger, keys,
//! clicks). Drawing, focus and running handlers are left to the host, which
//! performs the `Effects` each event returns.

use vstd::prelude::*;
use vstd::string::StrSliceExecFns;

use crate::command::Command;
use crate::fuzzy::{fuzzy_match, fuzzy_score, lemma_empty_query, score_fits, MAX_MATCH_LEN};
use crate::registry::CommandRegistry;

verus! {

/// The names of the commands, in order.
pub open spec fn command_names<H>(commands: Seq<Command<H>>) -> Seq<Seq<char>> {
    commands.map_values(|c: Command<H>| c.name_view())
}

/// The score of the `i`-th name against `query` (0 where it does not match).
pub open spec fn name_score(names: Seq<Seq<char>>, query: Seq<char>, i: int) -> int {
    match fuzzy_score(query, names[i]) {
        Some(score) => score,
        None => 0,
    }
}

/// The `i`-th name matches `query` with a score that fits in an `i32`
/// (which it does unless both texts are over `MAX_MATCH_LEN` chars long).
pub open spec fn name_matches(names: Seq<Seq<char>>, query: Seq<char>, i: int) -> bool {
    &&& score_fits(query.len(), names[i].len())
    &&& fuzzy_score(query, names[i]) is Some
}

/// Command `a` is listed before command `b`: it scores higher, or scores
/// the same and was registered earlier.
pub open spec fn listed_before(names: Seq<Seq<char>>, query: Seq<char>, a: int, b: int) -> bool {
    let score_a = name_score(names, query, a);
    let score_b = name_score(names, query, b);
    score_a > score_b || (score_a == score_b && a < b)
}

/// `r` lists, by index, exactly the commands whose names match `query`,
/// most relevant first: by score, highest first, and ties in registration
/// order.
pub open spec fn is_ranking(names: Seq<Seq<char>>, query: Seq<char>, r: Seq<usize>) -> bool {
    &&& forall|k: int|
        0 <= k < r.len() ==> #[trigger] r[k] < names.len() && name_matches(names, query, r[k] as int)
    &&& forall|i: int|
        0 <= i < names.len() && name_matches(names, query, i) ==> #[trigger] r.contains(i as usize)
    &&& forall|a: int, b: int|
        0 <= a < b < r.len() ==> listed_before(names, query, #[trigger] r[a] as int, #[trigger] r[b] as int)
}

/// The commands listed for `query`: the one ranking there is.
pub open spec fn ranking(names: Seq<Seq<char>>, query: Seq<char>) -> Seq<usize> {
    choose|r: Seq<usize>| is_ranking(names, query, r)
}

/// Two rankings of the same names for the same query are equal.
pub proof fn lemma_ranking_unique(
    names: Seq<Seq<char>>,
    query: Seq<char>,
    r1: Seq<usize>,
    r2: Seq<usize>,
)
    requires
        is_ranking(names, query, r1),
        is_ranking(names, query, r2),
    ensures
        r1 == r2,
{
    assert forall|x: usize| r1.contains(x) <==> r2.contains(x) by {
        if r1.contains(x) {
            let k = choose|k: int| 0 <= k < r1.len() && r1[k] == x;
            assert(r1[k] < names.len() && name_matches(names, query, r1[k] as int));
            let i = x as int;
            assert(0 <= i < names.len() && name_matches(names, query, i));
            assert(r2.contains(i as usize));
        }
        if r2.contains(x) {
            let k = choose|k: int| 0 <= k < r2.len() && r2[k] == x;
            assert(r2[k] < names.len() && name_matches(names, query, r2[k] as int));
            let i = x as int;
            assert(0 <= i < names.len() && name_matches(names, query, i));
            assert(r1.contains(i as usize));
        }
    }
    lemma_sorted_same_members(names, query, r1, r2);
}

/// Two sequences sorted strictly by `listed_before` with the same members
/// are equal.
proof fn lemma_sorted_same_members(
    names: Seq<Seq<char>>,
    query: Seq<char>,
    r1: Seq<usize>,
    r2: Seq<usize>,
)
    requires
        forall|a: int, b: int|
            0 <= a < b < r1.len() ==> listed_before(names, query, #[trigger] r1[a] as int, #[trigger] r1[b] as int),
        forall|a: int, b: int|
            0 <= a < b < r2.len() ==> listed_before(names, query, #[trigger] r2[a] as int, #[trigger] r2[b] as int),
        forall|x: usize| r1.contains(x) <==> r2.contains(x),
    ensures
        r1 == r2,
    decreases r1.len(),
{
    if r1.len() == 0 {
        if r2.len() > 0 {
            assert(r2.contains(r2[0]));
        }
        assert(r1 =~= r2);
    } else {
        assert(r1.contains(r1[0]));
        assert(r2.contains(r1[0]));
        assert(r2.len() > 0);
        assert(r2.contains(r2[0]));
        let k = choose|k: int| 0 <= k < r1.len() && r1[k] == r2[0];
        let m = choose|m: int| 0 <= m < r2.len() && r2[m] == r1[0];
        if k > 0 && m > 0 {
            assert(listed_before(names, query, r1[0] as int, r1[k] as int));
            assert(listed_before(names, query, r2[0] as int, r2[m] as int));
            assert(false);
        }
        assert(r1[0] == r2[0]);
        let t1 = r1.drop_first();
        let t2 = r2.drop_first();
        assert forall|a: int, b: int| 0 <= a < b < t1.len() implies listed_before(
            names,
            query,
            #[trigger] t1[a] as int,
            #[trigger] t1[b] as int,
        ) by {
            assert(t1[a] == r1[a + 1] && t1[b] == r1[b + 1]);
        }
        assert forall|a: int, b: int| 0 <= a < b < t2.len() implies listed_before(
            names,
            query,
            #[trigger] t2[a] as int,
            #[trigger] t2[b] as int,
        ) by {
            assert(t2[a] == r2[a + 1] && t2[b] == r2[b + 1]);
        }
        assert forall|x: usize| t1.contains(x) <==> t2.contains(x) by {
            if t1.contains(x) {
                let a = choose|a: int| 0 <= a < t1.len() && t1[a] == x;
                assert(r1[a + 1] == x);
                assert(listed_before(names, query, r1[0] as int, r1[a + 1] as int));
                assert(x != r1[0]);
                assert(r1.contains(x));
                let b = choose|b: int| 0 <= b < r2.len() && r2[b] == x;
                assert(b != 0);
                assert(t2[b - 1] == x);
            }
            if t2.contains(x) {
                let a = choose|a: int| 0 <= a < t2.len() && t2[a] == x;
                assert(r2[a + 1] == x);
                assert(listed_before(names, query, r2[0] as int, r2[a + 1] as int));
                assert(x != r2[0]);
                assert(r2.contains(x));
                let b = choose|b: int| 0 <= b < r1.len() && r1[b] == x;
                assert(b != 0);
                assert(t1[b - 1] == x);
            }
        }
        lemma_sorted_same_members(names, query, t1, t2);
        assert(r1 =~= seq![r1[0]] + t1);
        assert(r2 =~= seq![r2[0]] + t2);
    }
}

/// Some entry of `ranked` is for command `j`.
pub open spec fn lists(ranked: Seq<(i32, usize)>, j: int) -> bool {
    exists|k: int| 0 <= k < ranked.len() && ranked[k].1 == j
}

/// The commands the palette lists for `query`, by index into the registry:
/// those whose names match, most relevant first. A name is left out only
/// where it and the query are both too long for its score to fit in an
/// `i32`.
pub fn visible_commands<H>(registry: &CommandRegistry<H>, query: &str) -> (r: Vec<usize>)
    ensures
        is_ranking(command_names(registry@), query@, r@),
        r@ == ranking(command_names(registry@), query@),
{
    let commands = registry.commands();
    let ghost names = command_names(registry@);
    let ghost q = query@;
    let query_len = query.unicode_len();
    let mut ranked: Vec<(i32, usize)> = Vec::new();
    let mut i: usize = 0;
    while i < commands.len()
        invariant
            commands@ == registry@,
            names == command_names(registry@),
            names.len() == commands@.len(),
            q == query@,
            query_len == q.len(),
            i <= commands.len(),
            forall|k: int|
                0 <= k < ranked@.len() ==> (#[trigger] ranked@[k]).1 < i && score_fits(
                    q.len(),
                    names[ranked@[k].1 as int].len(),
                ) && fuzzy_score(q, names[ranked@[k].1 as int]) == Some(ranked@[k].0 as int),
            forall|j: int| 0 <= j < i && #[trigger] name_matches(names, q, j) ==> lists(ranked@, j),
            forall|a: int, b: int|
                0 <= a < b < ranked@.len() ==> listed_before(
                    names,
                    q,
                    (#[trigger] ranked@[a]).1 as int,
                    (#[trigger] ranked@[b]).1 as int,
                ),
        decreases commands.len() - i,
    {
        let name = commands[i].name();
        proof {
            assert(names[i as int] == registry@[i as int].name_view());
        }
        let fits = query_len <= MAX_MATCH_LEN || name.unicode_len() <= MAX_MATCH_LEN;
        let found = if fits {
            fuzzy_match(query, name)
        } else {
            None
        };
        match found {
            Some(score) => {
                let mut p: usize = 0;
                while p < ranked.len() && ranked[p].0 >= score
                    invariant
                        p <= ranked@.len(),
                        forall|k: int| 0 <= k < p ==> (#[trigger] ranked@[k]).0 >= score,
                    decreases ranked@.len() - p,
                {
                    p += 1;
                }
                let ghost old_ranked = ranked@;
                proof {
                    assert forall|k: int| p <= k < old_ranked.len() implies (
                    #[trigger] old_ranked[k]).0 < score by {
                        if k > p {
                            assert(listed_before(
                                names,
                                q,
                                old_ranked[p as int].1 as int,
                                old_ranked[k].1 as int,
                            ));
                        }
                    }
                }
                ranked.insert(p, (score, i));
                proof {
                    let new_ranked = ranked@;
                    assert(new_ranked == old_ranked.insert(p as int, (score, i)));
                    assert forall|k: int| 0 <= k < new_ranked.len() implies (
                    #[trigger] new_ranked[k]).1 < i + 1 && score_fits(
                        q.len(),
                        names[new_ranked[k].1 as int].len(),
                    ) && fuzzy_score(q, names[new_ranked[k].1 as int]) == Some(
                        new_ranked[k].0 as int,
                    ) by {
                        if k < p {
                            assert(new_ranked[k] == old_ranked[k]);
                        } else if k > p {
                            assert(new_ranked[k] == old_ranked[k - 1]);
                        }
                    }
                    assert forall|j: int|
                        0 <= j < i + 1 && #[trigger] name_matches(names, q, j) implies lists(
                        new_ranked,
                        j,
                    ) by {
                        if j == i {
                            assert(new_ranked[p as int].1 == j);
                        } else {
                            assert(lists(old_ranked, j));
                            let k = choose|k: int| 0 <= k < old_ranked.len() && old_ranked[k].1 == j;
                            if k < p {
                                assert(new_ranked[k] == old_ranked[k]);
                            } else {
                                assert(new_ranked[k + 1] == old_ranked[k]);
                            }
                        }
                    }
                    assert forall|a: int, b: int| 0 <= a < b < new_ranked.len() implies listed_before(
                        names,
                        q,
                        (#[trigger] new_ranked[a]).1 as int,
                        (#[trigger] new_ranked[b]).1 as int,
                    ) by {
                        let ia = new_ranked[a].1 as int;
                        let ib = new_ranked[b].1 as int;
                        assert(name_score(names, q, ia) == new_ranked[a].0 as int);
                        assert(name_score(names, q, ib) == new_ranked[b].0 as int);
                        if b < p {
                            assert(new_ranked[a] == old_ranked[a]);
                            assert(new_ranked[b] == old_ranked[b]);
                        } else if a > p {
                            assert(new_ranked[a] == old_ranked[a - 1]);
                            assert(new_ranked[b] == old_ranked[b - 1]);
                        } else if b == p {
                            assert(new_ranked[a] == old_ranked[a]);
                            assert(old_ranked[a].0 >= score);
                        } else if a == p {
                            assert(new_ranked[b] == old_ranked[b - 1]);
                            assert(old_ranked[b - 1].0 < score);
                        } else {
                            assert(new_ranked[a] == old_ranked[a]);
                            assert(new_ranked[b] == old_ranked[b - 1]);
                        }
                    }
                }
            },
            None => {},
        }
        i += 1;
    }

    let mut r: Vec<usize> = Vec::new();
    let mut k: usize = 0;
    while k < ranked.len()
        invariant
            k <= ranked@.len(),
            r@.len() == k,
            forall|m: int| 0 <= m < k ==> r@[m] == (#[trigger] ranked@[m]).1,
        decreases ranked@.len() - k,
    {
        r.push(ranked[k].1);
        k += 1;
    }
    proof {
        assert forall|m: int| 0 <= m < r@.len() implies #[trigger] r@[m] < names.len()
            && name_matches(names, q, r@[m] as int) by {
            assert(r@[m] == ranked@[m].1);
        }
        assert forall|j: int| 0 <= j < names.len() && name_matches(names, q, j) implies #[trigger] r@.contains(
            j as usize,
        ) by {
            assert(lists(ranked@, j));
            let m = choose|m: int| 0 <= m < ranked@.len() && ranked@[m].1 == j;
            assert(r@[m] == j as usize);
        }
        assert forall|a: int, b: int| 0 <= a < b < r@.len() implies listed_before(
            names,
            q,
            #[trigger] r@[a] as int,
            #[trigger] r@[b] as int,
        ) by {
            assert(r@[a] == ranked@[a].1);
            assert(r@[b] == ranked@[b].1);
        }
        assert(is_ranking(names, q, r@));
        lemma_ranking_unique(names, q, r@, ranking(names, q));
    }
    r
}

/// With an empty query the palette lists every command, in registration
/// order.
pub proof fn lemma_empty_query_lists_all(names: Seq<Seq<char>>)
    requires
        names.len() <= usize::MAX,
    ensures
        ranking(names, Seq::empty()) == Seq::new(names.len(), |i: int| i as usize),
{
    let all = Seq::new(names.len(), |i: int| i as usize);
    let q = Seq::<char>::empty();
    assert forall|i: int| 0 <= i < names.len() implies name_matches(names, q, i) && name_score(
        names,
        q,
        i,
    ) == 0 by {
        lemma_empty_query(names[i]);
    }
    assert forall|i: int| 0 <= i < names.len() && name_matches(names, q, i) implies #[trigger] all.contains(
        i as usize,
    ) by {
        assert(all[i] == i as usize);
    }
    assert forall|a: int, b: int| 0 <= a < b < all.len() implies listed_before(
        names,
        q,
        #[trigger] all[a] as int,
        #[trigger] all[b] as int,
    ) by {
        lemma_empty_query(names[a]);
        lemma_empty_query(names[b]);
    }
    assert(is_ranking(names, q, all));
    lemma_ranking_unique(names, q, all, ranking(names, q));
}

/// `r` is strictly in listing order.
pub open spec fn in_listing_order(names: Seq<Seq<char>>, query: Seq<char>, r: Seq<usize>) -> bool {
    forall|a: int, b: int|
        0 <= a < b < r.len() ==> listed_before(names, query, #[trigger] r[a] as int, #[trigger] r[b] as int)
}

/// `i` put into the sorted `r` at its place in listing order.
spec fn insert_listed(names: Seq<Seq<char>>, query: Seq<char>, r: Seq<usize>, i: usize) -> Seq<
    usize,
>
    decreases r.len(),
{
    if r.len() == 0 {
        seq![i]
    } else if listed_before(names, query, i as int, r[0] as int) {
        seq![i] + r
    } else {
        seq![r[0]] + insert_listed(names, query, r.drop_first(), i)
    }
}

/// Inserting in listing order keeps the order and adds exactly `i`.
proof fn lemma_insert_listed(names: Seq<Seq<char>>, query: Seq<char>, r: Seq<usize>, i: usize)
    requires
        in_listing_order(names, query, r),
        !r.contains(i),
    ensures
        in_listing_order(names, query, insert_listed(names, query, r, i)),
        forall|x: usize|
            insert_listed(names, query, r, i).contains(x) <==> (r.contains(x) || x == i),
    decreases r.len(),
{
    let out = insert_listed(names, query, r, i);
    if r.len() == 0 {
        assert forall|x: usize| out.contains(x) <==> (r.contains(x) || x == i) by {
            if out.contains(x) {
                assert(out[0] == i);
            }
            if x == i {
                assert(out[0] == i);
            }
        }
    } else if listed_before(names, query, i as int, r[0] as int) {
        assert forall|a: int, b: int| 0 <= a < b < out.len() implies listed_before(
            names,
            query,
            #[trigger] out[a] as int,
            #[trigger] out[b] as int,
        ) by {
            assert(out[b] == r[b - 1]);
            if a == 0 {
                if b - 1 > 0 {
                    assert(listed_before(names, query, r[0] as int, r[b - 1] as int));
                }
            } else {
                assert(out[a] == r[a - 1]);
            }
        }
        assert forall|x: usize| out.contains(x) <==> (r.contains(x) || x == i) by {
            if out.contains(x) {
                let k = choose|k: int| 0 <= k < out.len() && out[k] == x;
                if k > 0 {
                    assert(r[k - 1] == x);
                }
            }
            if r.contains(x) {
                let k = choose|k: int| 0 <= k < r.len() && r[k] == x;
                assert(out[k + 1] == x);
            }
            if x == i {
                assert(out[0] == i);
            }
        }
    } else {
        let tail = r.drop_first();
        assert forall|a: int, b: int| 0 <= a < b < tail.len() implies listed_before(
            names,
            query,
            #[trigger] tail[a] as int,
            #[trigger] tail[b] as int,
        ) by {
            assert(tail[a] == r[a + 1] && tail[b] == r[b + 1]);
        }
        assert(!tail.contains(i)) by {
            if tail.contains(i) {
                let k = choose|k: int| 0 <= k < tail.len() && tail[k] == i;
                assert(r[k + 1] == i);
            }
        }
        lemma_insert_listed(names, query, tail, i);
        let rest = insert_listed(names, query, tail, i);
        assert(out == seq![r[0]] + rest);
        assert(listed_before(names, query, r[0] as int, i as int));
        assert forall|a: int, b: int| 0 <= a < b < out.len() implies listed_before(
            names,
            query,
            #[trigger] out[a] as int,
            #[trigger] out[b] as int,
        ) by {
            assert(out[b] == rest[b - 1]);
            if a == 0 {
                assert(rest.contains(rest[b - 1]));
                if rest[b - 1] != i {
                    assert(tail.contains(rest[b - 1]));
                    let k = choose|k: int| 0 <= k < tail.len() && tail[k] == rest[b - 1];
                    assert(r[k + 1] == rest[b - 1]);
                    assert(listed_before(names, query, r[0] as int, r[k + 1] as int));
                }
            } else {
                assert(out[a] == rest[a - 1]);
            }
        }
        assert forall|x: usize| out.contains(x) <==> (r.contains(x) || x == i) by {
            if out.contains(x) {
                let k = choose|k: int| 0 <= k < out.len() && out[k] == x;
                if k > 0 {
                    assert(rest[k - 1] == x);
                    assert(rest.contains(x));
                    assert(rest.contains(x) <==> (tail.contains(x) || x == i));
                    if x != i {
                        let m = choose|m: int| 0 <= m < tail.len() && tail[m] == x;
                        assert(r[m + 1] == x);
                    }
                }
            }
            if r.contains(x) {
                let k = choose|k: int| 0 <= k < r.len() && r[k] == x;
                if k == 0 {
                    assert(out[0] == x);
                } else {
                    assert(tail[k - 1] == x);
                    assert(rest.contains(x) <==> (tail.contains(x) || x == i));
                    assert(rest.contains(x));
                    let m = choose|m: int| 0 <= m < rest.len() && rest[m] == x;
                    assert(out[m + 1] == x);
                }
            }
            if x == i {
                assert(rest.contains(x) <==> (tail.contains(x) || x == i));
                assert(rest.contains(i));
                let m = choose|m: int| 0 <= m < rest.len() && rest[m] == i;
                assert(out[m + 1] == i);
            }
        }
    }
}

/// The commands among the first `n` whose names match, in listing order.
proof fn lemma_prefix_listing(names: Seq<Seq<char>>, query: Seq<char>, n: int) -> (r: Seq<usize>)
    requires
        0 <= n <= names.len(),
        names.len() <= usize::MAX,
    ensures
        in_listing_order(names, query, r),
        forall|x: usize| r.contains(x) <==> (x < n && name_matches(names, query, x as int)),
    decreases n,
{
    if n == 0 {
        let r = Seq::<usize>::empty();
        assert forall|x: usize| r.contains(x) <==> (x < n && name_matches(names, query, x as int)) by {
            if r.contains(x) {
                let k = choose|k: int| 0 <= k < r.len() && r[k] == x;
            }
        }
        r
    } else {
        let before = lemma_prefix_listing(names, query, n - 1);
        let i = (n - 1) as usize;
        if name_matches(names, query, n - 1) {
            assert(!before.contains(i));
            lemma_insert_listed(names, query, before, i);
            let r = insert_listed(names, query, before, i);
            assert forall|x: usize| r.contains(x) <==> (x < n && name_matches(names, query, x as int)) by {
                assert(r.contains(x) <==> (before.contains(x) || x == i));
                assert(before.contains(x) <==> (x < n - 1 && name_matches(names, query, x as int)));
            }
            r
        } else {
            assert forall|x: usize| before.contains(x) <==> (x < n && name_matches(names, query, x as int)) by {
                assert(before.contains(x) <==> (x < n - 1 && name_matches(names, query, x as int)));
            }
            before
        }
    }
}

/// Every query has a listing of the commands: `ranking` is one.
pub proof fn lemma_ranking_exists(names: Seq<Seq<char>>, query: Seq<char>)
    requires
        names.len() <= usize::MAX,
    ensures
        is_ranking(names, query, ranking(names, query)),
{
    let r = lemma_prefix_listing(names, query, names.len() as int);
    assert forall|k: int| 0 <= k < r.len() implies #[trigger] r[k] < names.len() && name_matches(
        names,
        query,
        r[k] as int,
    ) by {
        assert(r.contains(r[k]));
    }
    assert forall|i: int| 0 <= i < names.len() && name_matches(names, query, i) implies #[trigger] r.contains(
        i as usize,
    ) by {}
    assert(is_ranking(names, query, r));
}

} // verus!
