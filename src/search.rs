use vstd::prelude::*;

use crate::text::{has_substring, line_contains, lines, lines_of, views};

verus! {

/// The indices `j` with `flags[j]`, in increasing order.
pub open spec fn kept(flags: Seq<bool>) -> Seq<int>
    decreases flags.len(),
{
    if flags.len() == 0 {
        seq![]
    } else if flags.last() {
        kept(flags.drop_last()).push(flags.len() - 1)
    } else {
        kept(flags.drop_last())
    }
}

/// The entries of `ls` whose flag is set, in their order in `ls`.
pub open spec fn pick(ls: Seq<Seq<char>>, flags: Seq<bool>) -> Seq<Seq<char>> {
    kept(flags).map_values(|j: int| ls[j])
}

/// For each line, whether it holds `q`.
pub open spec fn hit_flags(ls: Seq<Seq<char>>, q: Seq<char>) -> Seq<bool> {
    Seq::new(ls.len(), |j: int| has_substring(ls[j], q))
}

/// For each line, whether its lowercase form holds the lowercase form of `q`.
pub open spec fn folded_hit_flags(ls: Seq<Seq<char>>, q: Seq<char>) -> Seq<bool> {
    Seq::new(ls.len(), |j: int| has_substring(lower_of(ls[j]), lower_of(q)))
}

/// The positions, among the lines of `t`, of those that hold `q`.
pub open spec fn match_indices(q: Seq<char>, t: Seq<char>) -> Seq<int> {
    kept(hit_flags(lines_of(t), q))
}

/// The positions, among the lines of `t`, of those that hold `q` once both
/// are lowercased.
pub open spec fn folded_match_indices(q: Seq<char>, t: Seq<char>) -> Seq<int> {
    kept(folded_hit_flags(lines_of(t), q))
}

/// The lines of `t` that hold `q`, in order.
pub open spec fn matching_lines(q: Seq<char>, t: Seq<char>) -> Seq<Seq<char>> {
    pick(lines_of(t), hit_flags(lines_of(t), q))
}

/// The lines of `t` that hold `q` once both are lowercased, in order.
pub open spec fn matching_lines_folded(q: Seq<char>, t: Seq<char>) -> Seq<Seq<char>> {
    pick(lines_of(t), folded_hit_flags(lines_of(t), q))
}

/// The lowercase form of a text, as Unicode defines it.
pub uninterp spec fn lower_of(s: Seq<char>) -> Seq<char>;

/// Relies on `str::to_lowercase` for the Unicode lowercase form of `s`, which
/// depends on the characters of `s` alone.
#[verifier::external_body]
fn lowercase(s: &str) -> (r: String)
    ensures
        r@ == lower_of(s@),
{
    s.to_lowercase()
}

proof fn lemma_kept_step(flags: Seq<bool>, k: int)
    requires
        0 <= k < flags.len(),
    ensures
        kept(flags.take(k + 1)) == if flags[k] {
            kept(flags.take(k)).push(k)
        } else {
            kept(flags.take(k))
        },
{
    assert(flags.take(k + 1).drop_last() =~= flags.take(k));
}

/// The lines of `contents` that hold `query`, in their order, each a slice of
/// `contents`.
pub fn search<'a>(query: &str, contents: &'a str) -> (r: Vec<&'a str>)
    ensures
        views(r@) == matching_lines(query@, contents@),
{
    let ls = lines(contents);
    let ghost lv = lines_of(contents@);
    let ghost flags = hit_flags(lv, query@);
    let mut r: Vec<&'a str> = Vec::new();
    let mut k: usize = 0;
    proof {
        assert(flags.take(0) =~= seq![]);
        assert(views(r@) =~= kept(flags.take(0)).map_values(|j: int| lv[j]));
    }
    while k < ls.len()
        invariant
            views(ls@) == lv,
            flags == hit_flags(lv, query@),
            k <= ls.len(),
            views(r@) == kept(flags.take(k as int)).map_values(|j: int| lv[j]),
        decreases ls.len() - k,
    {
        let line = ls[k];
        proof {
            lemma_kept_step(flags, k as int);
            assert(line@ == lv[k as int]);
        }
        let ghost before = views(r@);
        if line_contains(line, query) {
            r.push(line);
            proof {
                assert(views(r@) =~= before.push(line@));
            }
        }
        k = k + 1;
    }
    proof {
        assert(flags.take(ls.len() as int) =~= flags);
    }
    r
}

/// The lines of `contents` that hold `query` when both are lowercased, in
/// their order and as they stand in `contents`.
pub fn search_case_insensitive<'a>(query: &str, contents: &'a str) -> (r: Vec<&'a str>)
    ensures
        views(r@) == matching_lines_folded(query@, contents@),
{
    let folded_query = lowercase(query);
    let ls = lines(contents);
    let ghost lv = lines_of(contents@);
    let ghost flags = folded_hit_flags(lv, query@);
    let mut r: Vec<&'a str> = Vec::new();
    let mut k: usize = 0;
    proof {
        assert(flags.take(0) =~= seq![]);
        assert(views(r@) =~= kept(flags.take(0)).map_values(|j: int| lv[j]));
    }
    while k < ls.len()
        invariant
            views(ls@) == lv,
            flags == folded_hit_flags(lv, query@),
            folded_query@ == lower_of(query@),
            k <= ls.len(),
            views(r@) == kept(flags.take(k as int)).map_values(|j: int| lv[j]),
        decreases ls.len() - k,
    {
        let line = ls[k];
        proof {
            lemma_kept_step(flags, k as int);
            assert(line@ == lv[k as int]);
        }
        let ghost before = views(r@);
        let folded_line = lowercase(line);
        if line_contains(folded_line.as_str(), folded_query.as_str()) {
            r.push(line);
            proof {
                assert(views(r@) =~= before.push(line@));
            }
        }
        k = k + 1;
    }
    proof {
        assert(flags.take(ls.len() as int) =~= flags);
    }
    r
}

proof fn lemma_kept(flags: Seq<bool>)
    ensures
        forall|i: int|
            0 <= i < kept(flags).len() ==> 0 <= #[trigger] kept(flags)[i] < flags.len()
                && flags[kept(flags)[i]],
        forall|i: int, j: int| 0 <= i < j < kept(flags).len() ==> kept(flags)[i] < kept(flags)[j],
        forall|j: int| 0 <= j < flags.len() && flags[j] ==> #[trigger] kept(flags).contains(j),
    decreases flags.len(),
{
    if flags.len() > 0 {
        let init = flags.drop_last();
        lemma_kept(init);
        let r = kept(flags);
        assert forall|j: int| 0 <= j < flags.len() && flags[j] implies #[trigger] r.contains(j) by {
            if j < flags.len() - 1 {
                assert(init[j]);
                assert(kept(init).contains(j));
                let i = choose|i: int| 0 <= i < kept(init).len() && kept(init)[i] == j;
                if flags.last() {
                    assert(r[i] == kept(init)[i]);
                }
                assert(r[i] == j);
            } else {
                assert(r[r.len() - 1] == j);
            }
        }
    }
}

proof fn lemma_kept_all(flags: Seq<bool>)
    requires
        forall|j: int| 0 <= j < flags.len() ==> flags[j],
    ensures
        kept(flags).len() == flags.len(),
        forall|i: int| 0 <= i < flags.len() ==> #[trigger] kept(flags)[i] == i,
    decreases flags.len(),
{
    if flags.len() > 0 {
        lemma_kept_all(flags.drop_last());
    }
}

/// Every line that `search` returns holds the query, and every line of the
/// text that it leaves out does not.
pub proof fn search_is_exact(q: Seq<char>, t: Seq<char>)
    ensures
        forall|i: int|
            0 <= i < matching_lines(q, t).len() ==> has_substring(
                #[trigger] matching_lines(q, t)[i],
                q,
            ),
        forall|j: int|
            0 <= j < lines_of(t).len() && !#[trigger] match_indices(q, t).contains(j)
                ==> !has_substring(lines_of(t)[j], q),
        matching_lines(q, t).len() == match_indices(q, t).len(),
        forall|i: int|
            0 <= i < match_indices(q, t).len() ==> #[trigger] matching_lines(q, t)[i] == lines_of(
                t,
            )[match_indices(q, t)[i]],
{
    lemma_kept(hit_flags(lines_of(t), q));
}

/// The lines that `search` returns keep the order they have in the text:
/// their positions among the lines strictly increase.
pub proof fn search_keeps_order(q: Seq<char>, t: Seq<char>)
    ensures
        forall|i: int|
            0 <= i < match_indices(q, t).len() ==> 0 <= #[trigger] match_indices(q, t)[i]
                < lines_of(t).len(),
        forall|i: int, j: int|
            0 <= i < j < match_indices(q, t).len() ==> match_indices(q, t)[i] < match_indices(
                q,
                t,
            )[j],
{
    lemma_kept(hit_flags(lines_of(t), q));
}

/// Where lowercasing keeps each occurrence of the query in a line,
/// `search_case_insensitive` returns every line that `search` returns.
pub proof fn folded_search_covers_search(q: Seq<char>, t: Seq<char>)
    requires
        forall|j: int|
            0 <= j < lines_of(t).len() && has_substring(#[trigger] lines_of(t)[j], q)
                ==> has_substring(lower_of(lines_of(t)[j]), lower_of(q)),
    ensures
        forall|j: int| #[trigger]
            match_indices(q, t).contains(j) ==> folded_match_indices(q, t).contains(j),
{
    let ls = lines_of(t);
    lemma_kept(hit_flags(ls, q));
    lemma_kept(folded_hit_flags(ls, q));
    assert forall|j: int| #[trigger] match_indices(q, t).contains(j) implies folded_match_indices(
        q,
        t,
    ).contains(j) by {
        let i = choose|i: int| 0 <= i < match_indices(q, t).len() && match_indices(q, t)[i] == j;
        assert(hit_flags(ls, q)[j]);
        assert(folded_hit_flags(ls, q)[j]);
    }
}

/// The empty query is found in every line, so `search` returns them all.
pub proof fn empty_query_keeps_all(t: Seq<char>)
    ensures
        matching_lines(seq![], t) == lines_of(t),
{
    let ls = lines_of(t);
    let e: Seq<char> = seq![];
    let flags = hit_flags(ls, e);
    assert forall|j: int| 0 <= j < flags.len() implies flags[j] by {
        assert(ls[j].subrange(0, 0 + e.len() as int) =~= e);
        assert(has_substring(ls[j], e));
    }
    lemma_kept_all(flags);
    assert(matching_lines(seq![], t) =~= ls);
}

/// An empty text has no lines, so `search` finds nothing in it.
pub proof fn empty_text_has_no_match(q: Seq<char>)
    ensures
        matching_lines(q, seq![]).len() == 0,
{
    assert(lines_of(seq![]) =~= seq![]);
}

} // verus!
